use vstd::prelude::*;

verus! {

/// What can go wrong while reading a size expression or a directory tree.
pub enum SizeError {
    /// A malformed size expression, with a description of the fault.
    ParseError(String),
    /// A filesystem failure, with the system's description of it.
    IoError(String),
}

impl SizeError {
    /// The text shown to a user for this error.
    pub fn message(&self) -> (r: String)
        ensures
            self matches SizeError::ParseError(m) ==> r@ == "Size parsing error: "@ + m@,
            self matches SizeError::IoError(m) ==> r@ == "I/O error: "@ + m@,
    {
        match self {
            SizeError::ParseError(m) => String::from_str("Size parsing error: ").concat(m.as_str()),
            SizeError::IoError(m) => String::from_str("I/O error: ").concat(m.as_str()),
        }
    }
}

} // verus!
