use vstd::prelude::*;

verus! {

/// The errors that the engine and the server report.
#[derive(Debug, Clone, Copy, PartialEq, Eq, Structural)]
pub enum MyErr {
    /// A removal named a key that holds no value.
    KeyNotFound,
    /// A file in the store's directory does not carry the segment extension.
    ErrExtension,
    /// The engine asked for differs from the one that wrote the directory.
    WrongEngine,
    /// A record could not be framed or parsed.
    CorruptRecord,
    /// A record's payload does not fit the 32-bit length prefix.
    RecordTooLarge,
    /// A segment id or a byte offset would leave its integer range.
    Exhausted,
    /// An underlying file or socket operation failed.
    Io,
    /// A compaction plan no longer matches the store's segments.
    StaleCompaction,
}

/// The text of each error, as the server sends it.
pub open spec fn message_of(e: MyErr) -> Seq<char> {
    match e {
        MyErr::KeyNotFound => "Key not found"@,
        MyErr::ErrExtension => "Unexpected file extension"@,
        MyErr::WrongEngine => "Wrong engine detected"@,
        MyErr::CorruptRecord => "Corrupt record"@,
        MyErr::RecordTooLarge => "Record too large"@,
        MyErr::Exhausted => "Store exhausted"@,
        MyErr::Io => "I/O error"@,
        MyErr::StaleCompaction => "Stale compaction"@,
    }
}

impl MyErr {
    /// The error's text.
    pub fn message(&self) -> (r: String)
        ensures
            r@ == message_of(*self),
    {
        match self {
            MyErr::KeyNotFound => String::from_str("Key not found"),
            MyErr::ErrExtension => String::from_str("Unexpected file extension"),
            MyErr::WrongEngine => String::from_str("Wrong engine detected"),
            MyErr::CorruptRecord => String::from_str("Corrupt record"),
            MyErr::RecordTooLarge => String::from_str("Record too large"),
            MyErr::Exhausted => String::from_str("Store exhausted"),
            MyErr::Io => String::from_str("I/O error"),
            MyErr::StaleCompaction => String::from_str("Stale compaction"),
        }
    }
}

} // verus!
