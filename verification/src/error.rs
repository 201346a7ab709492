use vstd::prelude::*;

verus! {

/// Error for a source row that does not have the required shape:
/// exactly a class label, a title and a text body, in that order.
///
/// A row failure is local to the offending row; callers decide whether
/// to skip the row or abort the load.
#[derive(Debug)]
pub struct InvalidLineError;

impl InvalidLineError {
    /// A one-line description of the error.
    pub fn message(&self) -> (r: &'static str)
        ensures
            r@ == "Invalid line format"@,
    {
        "Invalid line format"
    }
}

} // verus!
