use vstd::prelude::*;

verus! {

/// Everything that decoding a log or writing to it can report.
#[derive(Debug, Clone, Copy, PartialEq, Eq, Structural)]
pub enum StoreError {
    /// No byte is left where a record header would start: the log ends cleanly here.
    EndOfLog,
    /// Some bytes of a record are there, but not all of them.
    TruncatedRecord,
    /// Bytes that should be text are not valid UTF-8.
    InvalidEncoding,
    /// The index names an offset at which no readable value record stands.
    IndexCorruption,
    /// The key's UTF-8 length does not fit the 32-bit length field.
    KeyTooLong,
    /// The value's UTF-8 length does not fit the 32-bit length field, or is
    /// the one length that is reserved to mark a removal.
    ValueTooLong,
}

impl StoreError {
    /// A short description of the error.
    pub fn message(&self) -> (text: String)
        ensures
            text@ == self.message_text(),
    {
        match self {
            StoreError::EndOfLog => "end of log".to_string(),
            StoreError::TruncatedRecord => "truncated record".to_string(),
            StoreError::InvalidEncoding => "invalid UTF-8 in record".to_string(),
            StoreError::IndexCorruption => "index points at an unreadable record".to_string(),
            StoreError::KeyTooLong => "key too long".to_string(),
            StoreError::ValueTooLong => "value too long".to_string(),
        }
    }

    /// The text that `message` returns.
    pub open spec fn message_text(&self) -> Seq<char> {
        match self {
            StoreError::EndOfLog => "end of log"@,
            StoreError::TruncatedRecord => "truncated record"@,
            StoreError::InvalidEncoding => "invalid UTF-8 in record"@,
            StoreError::IndexCorruption => "index points at an unreadable record"@,
            StoreError::KeyTooLong => "key too long"@,
            StoreError::ValueTooLong => "value too long"@,
        }
    }
}

} // verus!
