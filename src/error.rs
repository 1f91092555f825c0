use vstd::prelude::*;

verus! {

/// The ways in which a journal operation can fail.
#[derive(Clone, Copy, Debug, PartialEq, Eq, Structural)]
pub enum JournalError {
    /// Blank content, or a tag that cannot be stored.
    Validation,
    /// A date argument that is neither `YYYY-MM-DD` nor a known keyword.
    InvalidDate,
    /// A date range whose start lies after its end.
    InvalidRange,
    /// The log could not take another entry, or could not be read back.
    Storage,
    /// No entry exists on the requested day.
    EmptyDay,
    /// An export format name that is not known.
    UnsupportedFormat,
}

/// The description of each failure.
pub open spec fn message_text(e: JournalError) -> Seq<char> {
    match e {
        JournalError::Validation => "invalid entry: content must not be blank and tags must be plain words"@,
        JournalError::InvalidDate => "invalid date: expected YYYY-MM-DD, 'today' or 'yesterday'"@,
        JournalError::InvalidRange => "invalid range: the start date lies after the end date"@,
        JournalError::Storage => "storage error: the journal log could not be written or read"@,
        JournalError::EmptyDay => "no entries on that day"@,
        JournalError::UnsupportedFormat => "unsupported format: expected markdown, obsidian, text or json"@,
    }
}

impl JournalError {
    /// A short human-readable description of the failure.
    pub fn message(&self) -> (r: String)
        ensures
            r@ == message_text(*self),
    {
        match self {
            JournalError::Validation => String::from_str("invalid entry: content must not be blank and tags must be plain words"),
            JournalError::InvalidDate => String::from_str("invalid date: expected YYYY-MM-DD, 'today' or 'yesterday'"),
            JournalError::InvalidRange => String::from_str("invalid range: the start date lies after the end date"),
            JournalError::Storage => String::from_str("storage error: the journal log could not be written or read"),
            JournalError::EmptyDay => String::from_str("no entries on that day"),
            JournalError::UnsupportedFormat => String::from_str("unsupported format: expected markdown, obsidian, text or json"),
        }
    }
}

} // verus!
