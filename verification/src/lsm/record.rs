//! What the tree stores.
use crate::types::{Command, LogIndex};
use vstd::prelude::*;

verus! {

/// Why the tree refused an operation or could not read its files.
#[derive(Clone, Copy, Debug, PartialEq, Eq, Structural)]
pub enum LsmError {
    /// A command's index is not the one after the last applied.
    IndexGap,
    /// A record's code is longer than a frame can be.
    FrameTooLarge,
    /// A file ends in the middle of a frame.
    TornFrame,
    /// The payload of a frame cannot be read.
    CorruptFrame,
    /// A table is too short to have a trailer.
    TableTooSmall,
    /// A table does not end with the magic bytes.
    BadMagic,
    /// The footer of a table cannot be read.
    CorruptFooter,
}

/// A key with its value, or with none where the key was deleted.
#[derive(Debug, PartialEq, Eq)]
pub struct Record {
    pub key: String,
    pub value: Option<String>,
}

/// One applied command in the write-ahead log; a command that stores nothing
/// has no record.
#[derive(Debug, PartialEq, Eq)]
pub struct WalFrame {
    pub index: LogIndex,
    pub record: Option<Record>,
}

/// One record in a table, with the log index of the command that stored it.
#[derive(Debug, PartialEq, Eq)]
pub struct DataEntry {
    pub index: LogIndex,
    pub record: Record,
}

/// The content of a [`Record`].
pub type RecordView = (Seq<char>, Option<Seq<char>>);

/// The content of a [`WalFrame`].
pub type WalFrameView = (LogIndex, Option<RecordView>);

/// The content of a [`DataEntry`].
pub type DataEntryView = (LogIndex, RecordView);

impl View for Record {
    type V = RecordView;

    open spec fn view(&self) -> RecordView {
        (self.key@, crate::node::text_of(self.value))
    }
}

impl View for WalFrame {
    type V = WalFrameView;

    open spec fn view(&self) -> WalFrameView {
        (
            self.index,
            match self.record {
                Some(record) => Some(record@),
                None => None,
            },
        )
    }
}

impl View for DataEntry {
    type V = DataEntryView;

    open spec fn view(&self) -> DataEntryView {
        (self.index, self.record@)
    }
}

impl DeepView for WalFrame {
    type V = WalFrameView;

    open spec fn deep_view(&self) -> WalFrameView {
        self@
    }
}

impl DeepView for DataEntry {
    type V = DataEntryView;

    open spec fn deep_view(&self) -> DataEntryView {
        self@
    }
}

impl Clone for Record {
    fn clone(&self) -> (copy: Self)
        ensures
            copy == *self,
    {
        Record {
            key: self.key.clone(),
            value: match &self.value {
                Some(value) => Some(value.clone()),
                None => None,
            },
        }
    }
}

impl Clone for DataEntry {
    fn clone(&self) -> (copy: Self)
        ensures
            copy == *self,
    {
        DataEntry { index: self.index, record: self.record.clone() }
    }
}

/// The record that a command stores.
pub open spec fn stored_by(command: Command) -> Option<RecordView> {
    match command {
        Command::Noop => None,
        Command::Put { key, value } => Some((key@, Some(value@))),
        Command::Delete { key } => Some((key@, None)),
    }
}

/// The record that a command stores.
pub fn record_from_command(command: &Command) -> (record: Option<Record>)
    ensures
        stored_by(*command) == match record {
            Some(record) => Some(record@),
            None => None,
        },
{
    match command {
        Command::Noop => None,
        Command::Put { key, value } => Some(
            Record { key: key.clone(), value: Some(value.clone()) },
        ),
        Command::Delete { key } => Some(Record { key: key.clone(), value: None }),
    }
}

/// The length of a text's UTF-8 encoding.
pub open spec fn text_len(text: Seq<char>) -> nat {
    vstd::utf8::encode_utf8(text).len()
}

/// The bytes that a record is counted with in memory.
pub open spec fn size_of_record(record: RecordView) -> nat {
    text_len(record.0) + match record.1 {
        Some(value) => text_len(value),
        None => 0,
    } + 16
}

/// The bytes that a record is counted with in memory, at most `usize::MAX`.
pub fn record_size(record: &Record) -> (size: usize)
    ensures
        size as int == if size_of_record(record@) <= usize::MAX {
            size_of_record(record@) as int
        } else {
            usize::MAX as int
        },
{
    let key: usize = record.key.as_str().as_bytes().len();
    let value: usize = match &record.value {
        Some(value) => value.as_str().as_bytes().len(),
        None => 0,
    };
    key.saturating_add(value).saturating_add(16)
}

} // verus!
