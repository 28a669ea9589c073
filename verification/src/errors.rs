use vstd::prelude::*;

verus! {

/// Everything that can go wrong while working with a journal file.
///
/// The library itself only ever produces `MalformedJson` and
/// `InvalidPosition`; the remaining variants exist so that the code around
/// the library can report file-system and configuration failures in the
/// same vocabulary.
#[derive(Clone, Copy, Debug, PartialEq, Eq, Structural)]
pub enum JournalError {
    /// No journal path was given and no home directory could be found.
    HomeNotFound,
    /// The journal file does not exist.
    FileNotFound,
    /// The journal file exists but may not be read or written.
    PermissionDenied,
    /// The journal file does not hold a well-formed task array.
    MalformedJson,
    /// A removal position was zero or past the end of the task list.
    InvalidPosition,
}

impl JournalError {
    /// A short diagnostic for the user.
    pub fn message(&self) -> (r: String)
        ensures
            r@ == match *self {
                JournalError::HomeNotFound => "no home directory to put the journal in"@,
                JournalError::FileNotFound => "journal file not found"@,
                JournalError::PermissionDenied => "permission denied"@,
                JournalError::MalformedJson => "journal file holds malformed data"@,
                JournalError::InvalidPosition => "invalid task position"@,
            },
    {
        match self {
            JournalError::HomeNotFound => "no home directory to put the journal in".to_owned(),
            JournalError::FileNotFound => "journal file not found".to_owned(),
            JournalError::PermissionDenied => "permission denied".to_owned(),
            JournalError::MalformedJson => "journal file holds malformed data".to_owned(),
            JournalError::InvalidPosition => "invalid task position".to_owned(),
        }
    }
}

} // verus!
