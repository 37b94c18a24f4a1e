//! The binary codes of the stored values.
//!
//! A code is what `bincode` makes of a value in its default configuration: numbers
//! take eight bytes, the least significant first; an optional value follows a byte
//! that tells whether it is there; texts and sequences follow their lengths.
//! Reading a code gives back the value it was made of.
use crate::bytes::be_bytes_u32;
use crate::lsm::bloom::{BloomFilter, BloomView};
use crate::lsm::record::{
    DataEntry, DataEntryView, LsmError, Record, RecordView, WalFrame, WalFrameView,
};
use crate::types::LogIndex;
use vstd::prelude::*;

verus! {

/// The error of a failed reading or writing in `bincode`.
#[verifier::external_type_specification]
#[verifier::external_body]
pub struct ExBincodeErrorKind(bincode::ErrorKind);

/// The code of a number.
pub open spec fn number_code(value: nat) -> Seq<u8> {
    crate::bytes::be_bytes(value, 8).reverse()
}

/// The code of a text.
pub open spec fn text_code(text: Seq<char>) -> Seq<u8> {
    number_code(crate::lsm::record::text_len(text)) + vstd::utf8::encode_utf8(text)
}

/// The code of a value that may be missing.
pub open spec fn value_code(value: Option<Seq<char>>) -> Seq<u8> {
    match value {
        Some(text) => seq![1u8] + text_code(text),
        None => seq![0u8],
    }
}

/// The code of a write-ahead frame.
#[verifier::opaque]
pub open spec fn wal_code(index: usize, record: Option<RecordView>) -> Seq<u8> {
    number_code(index as nat) + match record {
        Some((key, value)) => seq![1u8] + text_code(key) + value_code(value),
        None => seq![0u8],
    }
}

/// What `bincode::deserialize` reads as a write-ahead frame.
pub uninterp spec fn wal_meaning(bytes: Seq<u8>) -> Option<(usize, Option<(Seq<char>, Option<Seq<char>>)>)>;

/// The code of a table entry.
#[verifier::opaque]
pub open spec fn entry_code(index: usize, key: Seq<char>, value: Option<Seq<char>>) -> Seq<u8> {
    number_code(index as nat) + text_code(key) + value_code(value)
}

/// What `bincode::deserialize` reads as a table entry.
pub uninterp spec fn entry_meaning(bytes: Seq<u8>) -> Option<(usize, (Seq<char>, Option<Seq<char>>))>;

/// The codes of keys and positions, one behind the other.
pub open spec fn index_code(index: Seq<(Seq<char>, u64)>) -> Seq<u8>
    decreases index.len(),
{
    if index.len() == 0 {
        Seq::empty()
    } else {
        index_code(index.drop_last()) + text_code(index.last().0) + number_code(
            index.last().1 as nat,
        )
    }
}

/// The code of a table footer.
#[verifier::opaque]
pub open spec fn footer_code(
    index: Seq<(Seq<char>, u64)>,
    bits: Seq<u8>,
    bit_len: usize,
    max_index: usize,
) -> Seq<u8> {
    number_code(index.len()) + index_code(index) + number_code(bits.len()) + bits + number_code(
        bit_len as nat,
    ) + number_code(max_index as nat)
}

/// What `bincode::deserialize` reads as a table footer.
pub uninterp spec fn footer_meaning(bytes: Seq<u8>) -> Option<(Seq<(Seq<char>, u64)>, (Seq<u8>, usize), usize)>;

/// A key and the position of its entry in a table.
#[derive(Debug, PartialEq, Eq)]
pub struct IndexEntry {
    pub key: String,
    pub offset: u64,
}

/// What stands at the end of a table: every sixteenth key with its position,
/// a filter over all keys, and the log index up to which the table accounts for
/// all commands.
#[derive(Debug, PartialEq, Eq)]
pub struct SstableFooter {
    pub index: Vec<IndexEntry>,
    pub bloom: BloomFilter,
    pub max_index: LogIndex,
}

/// The content of a sparse index.
pub type IndexView = Seq<(Seq<char>, u64)>;

/// The content of a [`SstableFooter`].
pub type FooterView = (IndexView, BloomView, LogIndex);

/// The content of a sparse index.
pub open spec fn index_view(index: Seq<IndexEntry>) -> IndexView {
    index.map_values(|entry: IndexEntry| (entry.key@, entry.offset))
}

impl View for SstableFooter {
    type V = FooterView;

    open spec fn view(&self) -> FooterView {
        (index_view(self.index@), self.bloom@, self.max_index)
    }
}

/// The code of a footer.
pub open spec fn code_of_footer(footer: FooterView) -> Seq<u8> {
    footer_code(footer.0, footer.1.0, footer.1.1, footer.2)
}

/// The content of a sparse index given as plain pairs.
pub open spec fn plain_index(index: Seq<(String, u64)>) -> IndexView {
    index.map_values(|entry: (String, u64)| (entry.0@, entry.1))
}

/// The code of a write-ahead frame.
pub open spec fn code_of_frame(frame: WalFrameView) -> Seq<u8> {
    wal_code(frame.0, frame.1)
}

/// The code of a table entry.
pub open spec fn code_of_entry(entry: DataEntryView) -> Seq<u8> {
    entry_code(entry.0, entry.1.0, entry.1.1)
}

/// The length of a value's code.
pub open spec fn value_len(value: Option<Seq<char>>) -> nat {
    match value {
        Some(text) => 9 + crate::lsm::record::text_len(text),
        None => 1,
    }
}

/// The length of a frame's code.
pub open spec fn frame_len(frame: WalFrameView) -> nat {
    9 + match frame.1 {
        Some((key, value)) => 8 + crate::lsm::record::text_len(key) + value_len(value),
        None => 0,
    }
}

/// The length of an entry's code.
pub open spec fn entry_len(entry: DataEntryView) -> nat {
    16 + crate::lsm::record::text_len(entry.1.0) + value_len(entry.1.1)
}

proof fn be_bytes_len(value: nat, width: nat)
    ensures
        crate::bytes::be_bytes(value, width).len() == width,
    decreases width,
{
    if width > 0 {
        be_bytes_len(value / 256, (width - 1) as nat);
    }
}

proof fn number_code_len(value: nat)
    ensures
        number_code(value).len() == 8,
{
    be_bytes_len(value, 8);
}

proof fn text_code_len(text: Seq<char>)
    ensures
        text_code(text).len() == 8 + crate::lsm::record::text_len(text),
{
    number_code_len(crate::lsm::record::text_len(text));
}

/// The code of a frame is longer than its texts by a few bytes.
pub proof fn frame_code_len(frame: WalFrameView)
    ensures
        code_of_frame(frame).len() == frame_len(frame),
{
    reveal(wal_code);
    number_code_len(frame.0 as nat);
    if let Some((key, value)) = frame.1 {
        text_code_len(key);
        if let Some(text) = value {
            text_code_len(text);
        }
    }
}

/// The code of an entry is longer than its texts by a few bytes.
pub proof fn entry_code_len(entry: DataEntryView)
    ensures
        code_of_entry(entry).len() == entry_len(entry),
{
    reveal(entry_code);
    number_code_len(entry.0 as nat);
    text_code_len(entry.1.0);
    if let Some(text) = entry.1.1 {
        text_code_len(text);
    }
}

/// The texts of a record given as plain strings.
pub open spec fn plain_record(record: Option<(String, Option<String>)>) -> Option<RecordView> {
    match record {
        Some((key, value)) => Some((key@, crate::node::text_of(value))),
        None => None,
    }
}

/// Calls `bincode::serialize` on a frame written as a tuple, which has the code
/// of a struct with the same fields. Claims that this succeeds, as writing
/// integers, options and strings to a vector does, what the bytes are, and that
/// `bincode::deserialize` would read the frame back from them.
#[verifier::external_body]
fn serialize_wal(index: usize, record: Option<(String, Option<String>)>) -> (code: Result<
    Vec<u8>,
    Box<bincode::ErrorKind>,
>)
    ensures
        code is Ok,
        code->Ok_0@ == wal_code(index, plain_record(record)),
        wal_meaning(code->Ok_0@) == Some((index, plain_record(record))),
{
    bincode::serialize(&(index, record))
}

/// Calls `bincode::deserialize` for a frame written as a tuple. Claims that the
/// outcome depends on the bytes alone.
#[verifier::external_body]
fn deserialize_wal(bytes: &[u8]) -> (frame: Result<
    (usize, Option<(String, Option<String>)>),
    Box<bincode::ErrorKind>,
>)
    ensures
        wal_meaning(bytes@) == match frame {
            Ok((index, record)) => Some((index, plain_record(record))),
            Err(_) => None,
        },
{
    bincode::deserialize(bytes)
}

/// Calls `bincode::serialize` on an entry written as a tuple. Claims that this
/// succeeds, as writing integers, options and strings to a vector does, what the
/// bytes are, and that `bincode::deserialize` would read the entry back from them.
#[verifier::external_body]
fn serialize_entry(index: usize, key: String, value: Option<String>) -> (code: Result<
    Vec<u8>,
    Box<bincode::ErrorKind>,
>)
    ensures
        code is Ok,
        code->Ok_0@ == entry_code(index, key@, crate::node::text_of(value)),
        entry_meaning(code->Ok_0@) == Some((index, (key@, crate::node::text_of(value)))),
{
    bincode::serialize(&(index, (key, value)))
}

/// Calls `bincode::deserialize` for an entry written as a tuple. Claims that
/// the outcome depends on the bytes alone.
#[verifier::external_body]
fn deserialize_entry(bytes: &[u8]) -> (entry: Result<
    (usize, (String, Option<String>)),
    Box<bincode::ErrorKind>,
>)
    ensures
        entry_meaning(bytes@) == match entry {
            Ok((index, (key, value))) => Some((index, (key@, crate::node::text_of(value)))),
            Err(_) => None,
        },
{
    bincode::deserialize(bytes)
}

/// Calls `bincode::serialize` on a footer written as nested tuples. Claims that
/// this succeeds, as writing integers, strings and vectors to a vector does, what
/// the bytes are, and that `bincode::deserialize` would read the footer back from
/// them.
#[verifier::external_body]
fn serialize_footer(
    index: Vec<(String, u64)>,
    bits: &Vec<u8>,
    bit_len: usize,
    max_index: usize,
) -> (code: Result<Vec<u8>, Box<bincode::ErrorKind>>)
    ensures
        code is Ok,
        code->Ok_0@ == footer_code(plain_index(index@), bits@, bit_len, max_index),
        footer_meaning(code->Ok_0@) == Some((plain_index(index@), (bits@, bit_len), max_index)),
{
    bincode::serialize(&(index, (bits, bit_len), max_index))
}

/// Calls `bincode::deserialize` for a footer written as nested tuples. Claims
/// that the outcome depends on the bytes alone.
#[verifier::external_body]
fn deserialize_footer(bytes: &[u8]) -> (footer: Result<
    (Vec<(String, u64)>, (Vec<u8>, usize), usize),
    Box<bincode::ErrorKind>,
>)
    ensures
        footer_meaning(bytes@) == match footer {
            Ok((index, (bits, bit_len), max_index)) => Some(
                (plain_index(index@), (bits@, bit_len), max_index),
            ),
            Err(_) => None,
        },
{
    bincode::deserialize(bytes)
}

/// The payload behind its length.
pub fn frame_payload(payload: Vec<u8>) -> (bytes: Result<Vec<u8>, LsmError>)
    ensures
        match bytes {
            Ok(bytes) => payload@.len() <= u32::MAX && bytes@ == crate::bytes::framed(payload@),
            Err(error) => payload@.len() > u32::MAX && error == LsmError::FrameTooLarge,
        },
{
    if payload.len() as u64 > u32::MAX as u64 {
        return Err(LsmError::FrameTooLarge);
    }
    let mut bytes = be_bytes_u32(payload.len() as u32);
    let mut payload = payload;
    bytes.append(&mut payload);
    Ok(bytes)
}

/// Whether a write-ahead frame fits its length and is read back from its code.
pub open spec fn frame_is_storable(frame: WalFrameView) -> bool {
    code_of_frame(frame).len() <= u32::MAX && wal_meaning(code_of_frame(frame)) == Some(frame)
}

/// Whether a table entry fits its length and is read back from its code.
pub open spec fn entry_is_storable(entry: DataEntryView) -> bool {
    code_of_entry(entry).len() <= u32::MAX && entry_meaning(code_of_entry(entry)) == Some(entry)
}

/// The bytes to append to the write-ahead log for a frame.
pub fn encode_wal_frame(index: LogIndex, record: Option<Record>) -> (bytes: Result<
    Vec<u8>,
    LsmError,
>)
    ensures
        ({
            let frame = WalFrame { index, record }@;
            match bytes {
                Ok(bytes) => bytes@ == crate::bytes::framed(code_of_frame(frame))
                    && frame_is_storable(frame),
                Err(error) => frame_len(frame) > u32::MAX && error == LsmError::FrameTooLarge,
            }
        }),
{
    proof {
        frame_code_len(WalFrame { index, record }@);
    }
    let plain = match record {
        Some(record) => Some((record.key, record.value)),
        None => None,
    };
    match serialize_wal(index, plain) {
        Ok(payload) => frame_payload(payload),
        Err(_) => Err(LsmError::CorruptFrame),
    }
}

/// The write-ahead frame that a payload stands for.
pub fn decode_wal_frame(payload: &[u8]) -> (frame: Option<WalFrame>)
    ensures
        wal_meaning(payload@) == match frame {
            Some(frame) => Some(frame@),
            None => None,
        },
{
    match deserialize_wal(payload) {
        Ok((index, record)) => Some(
            WalFrame {
                index,
                record: match record {
                    Some((key, value)) => Some(Record { key, value }),
                    None => None,
                },
            },
        ),
        Err(_) => None,
    }
}

/// The bytes of a table entry.
pub fn encode_entry(entry: &DataEntry) -> (bytes: Result<Vec<u8>, LsmError>)
    ensures
        match bytes {
            Ok(bytes) => bytes@ == crate::bytes::framed(code_of_entry(entry@))
                && entry_is_storable(entry@),
            Err(error) => entry_len(entry@) > u32::MAX && error == LsmError::FrameTooLarge,
        },
{
    proof {
        entry_code_len(entry@);
    }
    let record = entry.record.clone();
    match serialize_entry(entry.index, record.key, record.value) {
        Ok(payload) => frame_payload(payload),
        Err(_) => Err(LsmError::CorruptFrame),
    }
}

/// The table entry that a payload stands for.
pub fn decode_entry(payload: &[u8]) -> (entry: Option<DataEntry>)
    ensures
        entry_meaning(payload@) == match entry {
            Some(entry) => Some(entry@),
            None => None,
        },
{
    match deserialize_entry(payload) {
        Ok((index, (key, value))) => Some(DataEntry { index, record: Record { key, value } }),
        Err(_) => None,
    }
}

/// The bytes of a footer.
pub fn encode_footer(footer: &SstableFooter) -> (bytes: Vec<u8>)
    ensures
        bytes@ == code_of_footer(footer@),
        footer_meaning(bytes@) == Some(footer@),
{
    let mut index: Vec<(String, u64)> = Vec::new();
    let mut i: usize = 0;
    while i < footer.index.len()
        invariant
            i <= footer.index@.len(),
            index@.len() == i,
            forall|j: int|
                0 <= j < i ==> plain_index(index@)[j] == #[trigger] index_view(footer.index@)[j],
        decreases footer.index@.len() - i,
    {
        let ghost before = index@;
        index.push((footer.index[i].key.clone(), footer.index[i].offset));
        i = i + 1;
        assert(forall|j: int| 0 <= j < before.len() ==> index@[j] == before[j]);
    }
    assert(plain_index(index@) =~= index_view(footer.index@));
    match serialize_footer(index, &footer.bloom.bits, footer.bloom.bit_len, footer.max_index) {
        Ok(bytes) => bytes,
        Err(_) => Vec::new(),
    }
}

/// The footer that bytes stand for.
pub fn decode_footer(bytes: &[u8]) -> (footer: Option<SstableFooter>)
    ensures
        footer_meaning(bytes@) == match footer {
            Some(footer) => Some(footer@),
            None => None,
        },
{
    match deserialize_footer(bytes) {
        Ok((plain, (bits, bit_len), max_index)) => {
            let mut index: Vec<IndexEntry> = Vec::new();
            let ghost mut done: int = 0;
            for entry in it: plain
                invariant
                    done == it.index(),
                    it.seq() == plain@,
                    index@.len() == done,
                    forall|j: int|
                        0 <= j < done ==> index_view(index@)[j] == #[trigger] plain_index(
                            plain@,
                        )[j],
            {
                let ghost before = index@;
                index.push(IndexEntry { key: entry.0, offset: entry.1 });
                assert(forall|j: int| 0 <= j < before.len() ==> index@[j] == before[j]);
                proof {
                    done = done + 1;
                }
            }
            assert(index_view(index@) =~= plain_index(plain@));
            Some(SstableFooter { index, bloom: BloomFilter { bits, bit_len }, max_index })
        },
        Err(_) => None,
    }
}

} // verus!
