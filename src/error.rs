use vstd::prelude::*;

verus! {

/// What went wrong in an operation of the store.
#[derive(Clone, Copy, Debug, PartialEq, Eq, Structural)]
pub enum ErrorKind {
    /// A caller error: an out-of-range seek, a size that does not fit, an
    /// index beyond the configured count.
    InvalidInput,
    /// Stored bytes are corrupt or disagree with the configuration.
    InvalidData,
    /// A section index that the store does not have.
    NotFound,
    /// Stored bytes end before a complete record.
    UnexpectedEof,
}

impl ErrorKind {
    /// A short description of the error.
    pub fn message(&self) -> (r: &'static str) {
        match self {
            ErrorKind::InvalidInput => "invalid input",
            ErrorKind::InvalidData => "invalid data",
            ErrorKind::NotFound => "not found",
            ErrorKind::UnexpectedEof => "unexpected end of data",
        }
    }
}

} // verus!
