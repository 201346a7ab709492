use less_is_more::record::Row;

#[test]
fn row_from_three_fields_is_accepted() {
    let fields = vec!["sports".to_string(), "match report".to_string(), "the game ended".to_string()];
    let row = Row::from_fields(fields).unwrap();
    assert_eq!(row.class, "sports");
    assert_eq!(row.title, "match report");
    assert_eq!(row.text, "the game ended");
}

#[test]
fn row_with_missing_field_is_rejected() {
    let fields = vec!["sports".to_string(), "match report".to_string()];
    let err = Row::from_fields(fields).unwrap_err();
    assert_eq!(err.message(), "Invalid line format");
}

#[test]
fn row_with_extra_field_is_rejected() {
    let fields = vec![
        "a".to_string(),
        "b".to_string(),
        "c".to_string(),
        "d".to_string(),
    ];
    assert!(Row::from_fields(fields).is_err());
}
