use less_is_more::classify::{classify, ncd_between};
use less_is_more::corpus::{build_index, Corpus};
use less_is_more::distance::{normalized_compression_distance, Ncd};
use less_is_more::record::Row;

fn row(class: &str, title: &str, text: &str) -> Row {
    Row { class: class.to_string(), title: title.to_string(), text: text.to_string() }
}

fn ncd_value(d: &Ncd) -> f64 {
    d.num as f64 / d.den as f64
}

fn corpus_of(rows: Vec<Row>) -> Corpus {
    build_index(&rows, 2)
}

#[test]
fn ncd_formula_exact() {
    let d = normalized_compression_distance(5, 7, 10);
    assert_eq!(d.num, 5);
    assert_eq!(d.den, 7);
    let d = normalized_compression_distance(7, 5, 10);
    assert_eq!(d.num, 5);
    assert_eq!(d.den, 7);
}

#[test]
fn ncd_degenerate_input_is_zero() {
    let d = normalized_compression_distance(0, 0, 0);
    assert_eq!(d.num, 0);
    assert_eq!(d.den, 1);
}

#[test]
fn ncd_numerator_never_underflows() {
    let d = normalized_compression_distance(5, 7, 3);
    assert_eq!(d.num, 0);
    assert_eq!(d.den, 7);
}

#[test]
fn compression_shrinks_repetitive_text() {
    let text = "a".repeat(10_000);
    let corpus = corpus_of(vec![row("A", "t", &text)]);
    let rec = &corpus.records[0];
    assert!(rec.compressed_len > 0);
    assert!(rec.compressed_len < 1_000);
}

#[test]
fn self_distance_near_zero() {
    let text = "the quick brown fox jumps over the lazy dog; ".repeat(10);
    let corpus = corpus_of(vec![row("A", "t", &text)]);
    let rec = &corpus.records[0];
    let d = ncd_between(rec, rec);
    let v = ncd_value(&d);
    assert!(v >= 0.0);
    assert!(v < 0.5, "self distance too large: {v}");
}

#[test]
fn distance_is_bounded() {
    let texts = [
        "aaaaaaaaaaaaaaaaaaaaaaaaaaaaa".to_string(),
        "completely different content with many unusual words".to_string(),
        "0123456789".repeat(20),
        "the quick brown fox".to_string(),
    ];
    let rows: Vec<Row> = texts
        .iter()
        .enumerate()
        .map(|(i, t)| row("C", &format!("t{i}"), t))
        .collect();
    let corpus = corpus_of(rows);
    for a in &corpus.records {
        for b in &corpus.records {
            let v = ncd_value(&ncd_between(a, b));
            assert!(v >= 0.0);
            assert!(v <= 1.5, "distance out of bounds: {v}");
        }
    }
}

#[test]
fn distance_approximately_symmetric() {
    let corpus = corpus_of(vec![
        row("A", "t1", "an example sentence about compression distances"),
        row("B", "t2", "a rather different example sentence about classification"),
    ]);
    let a = &corpus.records[0];
    let b = &corpus.records[1];
    let ab = ncd_value(&ncd_between(a, b));
    let ba = ncd_value(&ncd_between(b, a));
    assert!((ab - ba).abs() < 0.2, "asymmetry too large: {ab} vs {ba}");
}

#[test]
fn duplicate_rows_collapse() {
    let rows = vec![
        row("A", "t1", "some text"),
        row("A", "t1", "some text"),
        row("B", "t2", "other text"),
        row("A", "t1", "some text"),
    ];
    let corpus = build_index(&rows, 3);
    assert_eq!(corpus.len(), 2);
}

#[test]
fn duplicate_titles_with_distinct_text_are_kept() {
    let rows = vec![row("A", "t1", "some text"), row("A", "t1", "different text")];
    let corpus = build_index(&rows, 1);
    assert_eq!(corpus.len(), 2);
}

#[test]
fn indexing_is_deterministic_across_parallelism() {
    let rows: Vec<Row> = (0..20)
        .map(|i| row(if i % 2 == 0 { "A" } else { "B" }, &format!("t{i}"), &format!("text number {i} with body {}", "x".repeat(i))))
        .collect();
    let one = build_index(&rows, 1);
    let many = build_index(&rows, 7);
    assert_eq!(one.len(), many.len());
    for (a, b) in one.records.iter().zip(many.records.iter()) {
        assert_eq!(a.class, b.class);
        assert_eq!(a.title, b.title);
        assert_eq!(a.text, b.text);
        assert_eq!(a.compressed_len, b.compressed_len);
    }
}

#[test]
fn zero_parallelism_falls_back_to_one_worker() {
    let rows = vec![row("A", "t1", "first text"), row("B", "t2", "second text")];
    let corpus = build_index(&rows, 0);
    assert_eq!(corpus.len(), 2);
}

#[test]
fn more_workers_than_rows_is_fine() {
    let rows = vec![row("A", "t1", "first text"), row("B", "t2", "second text")];
    let corpus = build_index(&rows, 64);
    assert_eq!(corpus.len(), 2);
    assert_eq!(corpus.records[0].title, "t1");
    assert_eq!(corpus.records[1].title, "t2");
}

#[test]
fn classification_is_deterministic() {
    let train = corpus_of(vec![
        row("A", "t1", "aaaa aaaa aaaa aaaa"),
        row("B", "t2", "bbbb bbbb bbbb bbbb"),
        row("A", "t3", "aaaa aaaa aaaa bbbb"),
    ]);
    let test = corpus_of(vec![row("?", "q1", "aaaa aaaa aaaa aaaa"), row("?", "q2", "bbbb bbbb")]);
    let first = classify(&test, &train, 2);
    let second = classify(&test, &train, 2);
    assert_eq!(first.len(), second.len());
    for (a, b) in first.iter().zip(second.iter()) {
        assert_eq!(a.record.title, b.record.title);
        assert_eq!(a.class, b.class);
    }
}

#[test]
fn k1_predicts_nearest_neighbour() {
    let train = corpus_of(vec![
        row("A", "t1", "alpha alpha alpha alpha"),
        row("B", "t2", "beta beta beta beta beta"),
    ]);
    let test = corpus_of(vec![row("?", "q1", "alpha alpha alpha")]);
    let q = &test.records[0];
    let d0 = ncd_between(q, &train.records[0]);
    let d1 = ncd_between(q, &train.records[1]);
    let expected = if (d0.num as u128) * (d1.den as u128) <= (d1.num as u128) * (d0.den as u128) {
        &train.records[0].class
    } else {
        &train.records[1].class
    };
    let predictions = classify(&test, &train, 1);
    assert_eq!(predictions.len(), 1);
    assert_eq!(&predictions[0].class, expected);
}

#[test]
fn example_classification() {
    let train = corpus_of(vec![row("A", "t1", "aaaaaaaaaa"), row("B", "t2", "abababababab")]);
    let test = corpus_of(vec![row("?", "q1", "aaaaaaaaaa")]);
    let predictions = classify(&test, &train, 1);
    assert_eq!(predictions.len(), 1);
    assert_eq!(predictions[0].class, "A");
    assert_eq!(predictions[0].record.title, "q1");
}

#[test]
fn empty_test_corpus_yields_no_predictions() {
    let train = corpus_of(vec![row("A", "t1", "some training text")]);
    let test = corpus_of(vec![]);
    let predictions = classify(&test, &train, 3);
    assert!(predictions.is_empty());
}

#[test]
fn k_beyond_corpus_size_clamps() {
    let train = corpus_of(vec![
        row("A", "t1", "aaaaaaaaaa"),
        row("A", "t2", "aaaaaaaaab"),
        row("B", "t3", "zzzz yyyy xxxx"),
    ]);
    let test = corpus_of(vec![row("?", "q1", "aaaaaaaaaa")]);
    let predictions = classify(&test, &train, 50);
    assert_eq!(predictions.len(), 1);
    assert_eq!(predictions[0].class, "A");
}

#[test]
fn vote_tie_goes_to_nearer_class() {
    // k = 2 with one record of each class: counts tie, the nearer wins
    let train = corpus_of(vec![
        row("A", "t1", "gamma gamma gamma gamma"),
        row("B", "t2", "completely unrelated words here"),
    ]);
    let test = corpus_of(vec![row("?", "q1", "gamma gamma gamma")]);
    let q = &test.records[0];
    let d0 = ncd_value(&ncd_between(q, &train.records[0]));
    let d1 = ncd_value(&ncd_between(q, &train.records[1]));
    assert!(d0 < d1, "test premise: t1 must be nearer ({d0} vs {d1})");
    let predictions = classify(&test, &train, 2);
    assert_eq!(predictions[0].class, "A");
}

#[test]
fn predictions_follow_test_corpus_order() {
    let train = corpus_of(vec![row("A", "t1", "aaaa"), row("B", "t2", "bbbb")]);
    let test = corpus_of(vec![
        row("?", "q1", "aaaa"),
        row("?", "q2", "bbbb"),
        row("?", "q3", "aabb"),
    ]);
    let predictions = classify(&test, &train, 1);
    assert_eq!(predictions.len(), 3);
    for (p, r) in predictions.iter().zip(test.records.iter()) {
        assert_eq!(p.record.title, r.title);
    }
}
