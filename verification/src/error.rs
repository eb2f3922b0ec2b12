use vstd::prelude::*;

verus! {

/// The ways in which building or opening an index can fail.
#[derive(Clone, Copy, Debug, PartialEq, Eq, Structural)]
pub enum IndexError {
    /// An entry is longer than the chunk ceiling.
    EntryTooLarge,
    /// The bytes handed over are not a well-formed container.
    CorruptIndex,
    /// The array supplied for a chunk is not the suffix array of its text.
    OracleFailure,
}

impl IndexError {
    /// A short human-readable description.
    pub fn message(&self) -> (s: &'static str)
        ensures
            s@ == match *self {
                IndexError::EntryTooLarge => "entry is too big"@,
                IndexError::CorruptIndex => "index is corrupt"@,
                IndexError::OracleFailure => "suffix array is invalid"@,
            },
    {
        match self {
            IndexError::EntryTooLarge => "entry is too big",
            IndexError::CorruptIndex => "index is corrupt",
            IndexError::OracleFailure => "suffix array is invalid",
        }
    }
}

} // verus!
