//! Sorted tables: their images, and reading them.
//!
//! An image is the framed entries in key order, the footer's code, the length of
//! that code as eight bytes, and the magic bytes.
use crate::bytes::{be_bytes_u64, be_number, read_frame_at, FrameAt};
use crate::lsm::bloom::BloomFilter;
use crate::lsm::codec::{
    decode_entry, decode_footer, encode_entry, encode_footer, FooterView, IndexEntry, IndexView,
    SstableFooter,
};
use crate::lsm::record::{DataEntry, DataEntryView, LsmError};
use crate::text::{compare_text, Position};
use crate::types::LogIndex;
use vstd::prelude::*;

verus! {

/// Every entry whose place is a multiple of this is in the sparse index.
pub const INDEX_STRIDE: usize = 16;

/// The bytes of the trailer: the footer's length and the magic bytes.
pub const TRAILER_LEN: usize = 16;

/// The magic bytes that end a table.
pub open spec fn magic() -> Seq<u8> {
    seq![82u8, 75u8, 86u8, 83u8, 83u8, 84u8, 48u8, 49u8]
}

/// The framed entries, one behind the other.
pub open spec fn data_of(entries: Seq<DataEntryView>) -> Seq<u8>
    decreases entries.len(),
{
    if entries.len() == 0 {
        Seq::empty()
    } else {
        data_of(entries.drop_last()) + crate::bytes::framed(
            crate::lsm::codec::code_of_entry(entries.last()),
        )
    }
}

/// Every entry can be stored and read back.
pub open spec fn storable(entries: Seq<DataEntryView>) -> bool {
    forall|i: int|
        0 <= i < entries.len() ==> crate::lsm::codec::entry_is_storable(#[trigger] entries[i])
}

/// Every entry fits in a frame.
pub open spec fn all_fit(entries: Seq<DataEntryView>) -> bool {
    forall|i: int|
        0 <= i < entries.len() ==> crate::lsm::codec::entry_len(#[trigger] entries[i])
            <= u32::MAX
}

/// The keys of entries.
pub open spec fn keys_of(entries: Seq<DataEntryView>) -> Seq<Seq<char>> {
    entries.map_values(|entry: DataEntryView| entry.1.0)
}

/// Keys in strictly ascending order.
pub open spec fn by_key(entries: Seq<DataEntryView>) -> bool {
    forall|i: int, j: int|
        0 <= i < j < entries.len() ==> crate::text::text_before(
            #[trigger] entries[i].1.0,
            #[trigger] entries[j].1.0,
        )
}

/// The keys of every sixteenth entry with their positions in the data.
pub open spec fn sparse(entries: Seq<DataEntryView>) -> IndexView {
    Seq::new(
        ((entries.len() + 15) / 16) as nat,
        |i: int| (entries[16 * i].1.0, data_of(entries.take(16 * i)).len() as u64),
    )
}

/// The footer that describes entries. Which commands the table accounts for is
/// not theirs to say: some stored nothing, and some were overwritten.
pub open spec fn describes(footer: FooterView, entries: Seq<DataEntryView>) -> bool {
    &&& footer.0 == sparse(entries)
    &&& crate::lsm::bloom::sound(footer.1)
    &&& crate::lsm::bloom::filter_of(footer.1, keys_of(entries))
}

/// The image of entries with their footer.
pub open spec fn image_of(entries: Seq<DataEntryView>, footer: FooterView) -> Seq<u8> {
    let code = crate::lsm::codec::code_of_footer(footer);
    data_of(entries) + code + crate::bytes::be_bytes(code.len(), 8) + magic()
}

/// Bytes that hold exactly these entries, with a footer that describes them,
/// and from which all of it is read back.
pub open spec fn holds(bytes: Seq<u8>, entries: Seq<DataEntryView>, footer: FooterView) -> bool {
    &&& bytes == image_of(entries, footer)
    &&& bytes.len() <= usize::MAX
    &&& describes(footer, entries)
    &&& storable(entries)
    &&& crate::lsm::codec::footer_meaning(crate::lsm::codec::code_of_footer(footer)) == Some(footer)
}

/// A table ready to be written.
#[derive(Debug)]
pub struct TableImage {
    pub bytes: Vec<u8>,
    pub footer: SstableFooter,
}

pub proof fn data_of_prefix(entries: Seq<DataEntryView>, i: int)
    requires
        0 <= i < entries.len(),
    ensures
        data_of(entries.take(i + 1)) == data_of(entries.take(i)) + crate::bytes::framed(
            crate::lsm::codec::code_of_entry(entries[i]),
        ),
{
    assert(entries.take(i + 1).drop_last() =~= entries.take(i));
}

/// The first entries' data begins the data of all.
pub proof fn data_starts_with(entries: Seq<DataEntryView>, i: int)
    requires
        0 <= i <= entries.len(),
    ensures
        data_of(entries.take(i)).len() <= data_of(entries).len(),
        data_of(entries) == data_of(entries.take(i)) + data_of(entries).skip(
            data_of(entries.take(i)).len() as int,
        ),
    decreases entries.len() - i,
{
    let head = data_of(entries.take(i));
    if i == entries.len() {
        assert(entries.take(i) =~= entries);
        assert(data_of(entries) =~= head + data_of(entries).skip(head.len() as int));
    } else {
        data_starts_with(entries, i + 1);
        data_of_prefix(entries, i);
        let next = data_of(entries.take(i + 1));
        assert(data_of(entries) =~= head + data_of(entries).skip(head.len() as int)) by {
            assert(data_of(entries).take(next.len() as int) =~= next);
            assert forall|k: int| 0 <= k < head.len() implies data_of(entries)[k] == head[k] by {
                assert(data_of(entries)[k] == next[k]);
            }
        }
    }
}

/// The bytes of a table, given those of its entries and of its footer.
pub fn finish_table(data: Vec<u8>, footer: Vec<u8>) -> (image: Vec<u8>)
    ensures
        image@ == data@ + footer@ + crate::bytes::be_bytes(footer@.len(), 8) + magic(),
{
    let mut image = data;
    let mut code = footer;
    let mut len = be_bytes_u64(code.len() as u64);
    image.append(&mut code);
    image.append(&mut len);
    image.push(82);
    image.push(75);
    image.push(86);
    image.push(83);
    image.push(83);
    image.push(84);
    image.push(48);
    image.push(49);
    assert(image@ =~= data@ + footer@ + crate::bytes::be_bytes(footer@.len(), 8) + magic());
    image
}

/// Lays out a table that accounts for all commands up to `max_index`.
pub fn encode_table(entries: &Vec<DataEntry>, max_index: LogIndex) -> (image: Result<TableImage, LsmError>)
    requires
        entries@.len() * 10 <= usize::MAX - 7,
    ensures
        match image {
            Ok(image) => all_fit(entries.deep_view()) && holds(
                image.bytes@,
                entries.deep_view(),
                image.footer@,
            ) && image.footer@.2 == max_index,
            Err(error) => !all_fit(entries.deep_view()) && error == LsmError::FrameTooLarge,
        },
{
    let ghost views = entries.deep_view();
    let mut bytes: Vec<u8> = Vec::new();
    let mut index: Vec<IndexEntry> = Vec::new();
    let mut keys: Vec<&str> = Vec::new();
    let mut i: usize = 0;
    assert(views.take(0) =~= Seq::empty());
    while i < entries.len()
        invariant
            i <= entries@.len(),
            entries@.len() * 10 <= usize::MAX - 7,
            views == entries.deep_view(),
            bytes@ == data_of(views.take(i as int)),
            bytes@.len() <= usize::MAX,
            index@.len() == (i + 15) / 16,
            forall|j: int|
                0 <= j < index@.len() ==> (#[trigger] index@[j]).key@ == views[16 * j].1.0
                    && index@[j].offset == data_of(views.take(16 * j)).len(),
            keys@.len() == i,
            forall|j: int| 0 <= j < i ==> (#[trigger] keys@[j])@ == views[j].1.0,
            forall|j: int|
                0 <= j < i ==> crate::lsm::codec::entry_is_storable(#[trigger] views[j]),
        decreases entries@.len() - i,
    {
        let entry = &entries[i];
        assert(views[i as int] == entry@);
        if i % INDEX_STRIDE == 0 {
            index.push(IndexEntry { key: entry.record.key.clone(), offset: bytes.len() as u64 });
        }
        match encode_entry(entry) {
            Ok(code) => {
                let mut code = code;
                bytes.append(&mut code);
            },
            Err(error) => {
                assert(crate::lsm::codec::entry_len(views[i as int]) > u32::MAX);
                return Err(error);
            },
        }
        proof {
            data_of_prefix(views, i as int);
            assert(views.take(i + 1).drop_last() =~= views.take(i as int));
            assert(bytes@.len() == bytes.len());
        }
        keys.push(entry.record.key.as_str());
        i = i + 1;
    }
    assert(views.take(views.len() as int) =~= views);
    assert(all_fit(views)) by {
        assert forall|j: int| 0 <= j < views.len() implies crate::lsm::codec::entry_len(
            #[trigger] views[j],
        ) <= u32::MAX by {
            crate::lsm::codec::entry_code_len(views[j]);
        }
    }
    let bloom = BloomFilter::new(&keys);
    let footer = SstableFooter { index, bloom, max_index };
    proof {
        assert(keys@.map_values(|key: &str| key@) =~= keys_of(views));
        assert(footer@.0 =~= sparse(views));
    }
    let code = encode_footer(&footer);
    let bytes = finish_table(bytes, code);
    assert(bytes@ =~= image_of(views, footer@));
    assert(bytes@.len() == bytes.len());
    Ok(TableImage { bytes, footer })
}

/// The length that a table's trailer gives for the footer.
pub open spec fn footer_len(bytes: Seq<u8>) -> nat {
    crate::bytes::be_value(bytes.subrange(bytes.len() - 16, bytes.len() - 8))
}

/// Whether the footer that the trailer speaks of is within the table.
pub open spec fn trailer_is_sane(bytes: Seq<u8>) -> bool {
    bytes.len() >= 16 ==> footer_len(bytes) <= bytes.len() - 16
}

/// Where the entries of a table end.
pub open spec fn data_end_of(bytes: Seq<u8>) -> int {
    bytes.len() - 16 - footer_len(bytes)
}

/// Whether the footer that the trailer speaks of is within the table.
pub fn trailer_fits(image: &[u8]) -> (fits: bool)
    ensures
        fits == trailer_is_sane(image@),
{
    let len: usize = image.len();
    len < 16 || be_number(image, len - 16, 8) <= (len - 16) as u64
}

/// Whether a footer that can be read at all is within the table.
pub open spec fn footer_is_sane(bytes: Seq<u8>) -> bool {
    bytes.len() >= 16 && bytes.skip(bytes.len() - 8) == magic() ==> trailer_is_sane(bytes)
}

/// Whether a table ends with the magic bytes.
fn has_magic(image: &[u8]) -> (has: bool)
    requires
        image@.len() >= 16,
    ensures
        has == (image@.skip(image@.len() - 8) == magic()),
{
    let len: usize = image.len();
    let ghost tail = image@.skip(len - 8);
    let has = image[len - 8] == 82 && image[len - 7] == 75 && image[len - 6] == 86 && image[len - 5]
        == 83 && image[len - 4] == 83 && image[len - 3] == 84 && image[len - 2] == 48 && image[len
        - 1] == 49;
    proof {
        if has {
            assert(tail =~= magic());
        } else if tail == magic() {
            assert(tail[0] == 82 && tail[1] == 75 && tail[2] == 86 && tail[3] == 83 && tail[4] == 83
                && tail[5] == 84 && tail[6] == 48 && tail[7] == 49);
        }
    }
    has
}

/// Whether a footer that can be read at all is within the table.
pub fn footer_fits(image: &[u8]) -> (fits: bool)
    ensures
        fits == footer_is_sane(image@),
{
    image.len() < TRAILER_LEN || !has_magic(image) || trailer_fits(image)
}

/// The outcome of reading a table's footer.
pub open spec fn footer_in(bytes: Seq<u8>) -> Result<FooterView, LsmError> {
    if bytes.len() < 16 {
        Err(LsmError::TableTooSmall)
    } else if bytes.skip(bytes.len() - 8) != magic() {
        Err(LsmError::BadMagic)
    } else {
        match crate::lsm::codec::footer_meaning(
            bytes.subrange(data_end_of(bytes), bytes.len() - 16),
        ) {
            Some(footer) => Ok(footer),
            None => Err(LsmError::CorruptFooter),
        }
    }
}

/// Reads the footer of a table.
pub fn read_footer(image: &[u8]) -> (footer: Result<SstableFooter, LsmError>)
    requires
        footer_is_sane(image@),
    ensures
        footer_in(image@) == match footer {
            Ok(footer) => Ok(footer@),
            Err(error) => Err(error),
        },
{
    let len: usize = image.len();
    if len < TRAILER_LEN {
        return Err(LsmError::TableTooSmall);
    }
    if !has_magic(image) {
        return Err(LsmError::BadMagic);
    }
    let footer_len: usize = be_number(image, len - TRAILER_LEN, 8) as usize;
    let start: usize = len - TRAILER_LEN - footer_len;
    let code = vstd::slice::slice_subrange(image, start, len - TRAILER_LEN);
    match decode_footer(code) {
        Some(footer) => Ok(footer),
        None => Err(LsmError::CorruptFooter),
    }
}

/// Finds where the entries of a table end.
pub fn data_end(image: &[u8]) -> (end: Result<usize, LsmError>)
    requires
        trailer_is_sane(image@),
    ensures
        match end {
            Ok(end) => image@.len() >= 16 && end == data_end_of(image@),
            Err(error) => image@.len() < 16 && error == LsmError::TableTooSmall,
        },
{
    let len: usize = image.len();
    if len < TRAILER_LEN {
        return Err(LsmError::TableTooSmall);
    }
    Ok(len - TRAILER_LEN - be_number(image, len - TRAILER_LEN, 8) as usize)
}

/// What stands at a position among framed entries.
pub enum EntryAt {
    /// Nothing more.
    Nothing,
    /// Something that is no entry.
    Bad(LsmError),
    /// An entry, and where the next one stands.
    Entry(DataEntryView, int),
}

/// What stands at a position among framed entries.
pub open spec fn entry_at(bytes: Seq<u8>, at: int) -> EntryAt {
    match crate::bytes::frame_at(bytes, at) {
        FrameAt::End => EntryAt::Nothing,
        FrameAt::Torn => EntryAt::Bad(LsmError::TornFrame),
        FrameAt::Whole { start, end } => match crate::lsm::codec::entry_meaning(
            bytes.subrange(start as int, end as int),
        ) {
            Some(entry) => EntryAt::Entry(entry, crate::bytes::frame_end(bytes, at)),
            None => EntryAt::Bad(LsmError::CorruptFrame),
        },
    }
}

/// The outcome of reading the entries from a position up to `end`.
pub open spec fn entries_from(bytes: Seq<u8>, at: int, end: int) -> Result<
    Seq<DataEntryView>,
    LsmError,
>
    decreases
            if at < end {
                end - at
            } else {
                0
            },
{
    if at >= end {
        Ok(Seq::empty())
    } else {
        match entry_at(bytes, at) {
            EntryAt::Nothing => Ok(Seq::empty()),
            EntryAt::Bad(error) => Err(error),
            EntryAt::Entry(entry, next) => match entries_from(bytes, next, end) {
                Ok(rest) => Ok(seq![entry] + rest),
                Err(error) => Err(error),
            },
        }
    }
}

/// The outcome of looking for a key among the entries from a position up to
/// `end`: the search stops at the first key that is not before it.
pub open spec fn lookup_from(bytes: Seq<u8>, at: int, end: int, key: Seq<char>) -> Result<
    Option<Option<Seq<char>>>,
    LsmError,
>
    decreases
            if at < end {
                end - at
            } else {
                0
            },
{
    if at >= end {
        Ok(None)
    } else {
        match entry_at(bytes, at) {
            EntryAt::Nothing => Ok(None),
            EntryAt::Bad(error) => Err(error),
            EntryAt::Entry(entry, next) => if crate::text::text_before(entry.1.0, key) {
                lookup_from(bytes, next, end, key)
            } else if entry.1.0 == key {
                Ok(Some(entry.1.1))
            } else {
                Ok(None)
            },
        }
    }
}

/// Reads the entry at a position.
fn read_entry_at(image: &[u8], at: usize) -> (entry: Result<Option<(DataEntry, usize)>, LsmError>)
    requires
        at <= image@.len(),
    ensures
        match entry {
            Ok(Some((entry, next))) => at < next <= image@.len() && entry_at(image@, at as int)
                == EntryAt::Entry(entry@, next as int),
            Ok(None) => entry_at(image@, at as int) == EntryAt::Nothing,
            Err(error) => entry_at(image@, at as int) == EntryAt::Bad(error),
        },
{
    match read_frame_at(image, at) {
        FrameAt::End => Ok(None),
        FrameAt::Torn => Err(LsmError::TornFrame),
        FrameAt::Whole { start, end } => {
            match decode_entry(vstd::slice::slice_subrange(image, start, end)) {
                Some(entry) => Ok(Some((entry, end))),
                None => Err(LsmError::CorruptFrame),
            }
        },
    }
}

/// Reads all entries of a table.
pub fn read_all_entries(image: &[u8]) -> (entries: Result<Vec<DataEntry>, LsmError>)
    requires
        trailer_is_sane(image@),
    ensures
        entries_in(image@) == match entries {
            Ok(entries) => Ok(entries.deep_view()),
            Err(error) => Err(error),
        },
{
    let end: usize = match data_end(image) {
        Ok(end) => end,
        Err(error) => {
            return Err(error);
        },
    };
    let mut entries: Vec<DataEntry> = Vec::new();
    let mut at: usize = 0;
    assert(entries.deep_view() =~= Seq::empty());
    while at < end
        invariant
            at <= image@.len(),
            image@.len() >= 16,
            end == data_end_of(image@),
            end <= image@.len(),
            entries_in(image@) == match entries_from(image@, at as int, end as int) {
                Ok(rest) => Ok(entries.deep_view() + rest),
                Err(error) => Err(error),
            },
        decreases image@.len() - at,
    {
        match read_entry_at(image, at) {
            Ok(Some((entry, next))) => {
                let ghost before = entries.deep_view();
                entries.push(entry);
                proof {
                    assert(entries.deep_view() =~= before.push(entry@));
                    match entries_from(image@, next as int, end as int) {
                        Ok(rest) => {
                            assert(before + (seq![entry@] + rest) =~= entries.deep_view() + rest);
                        },
                        Err(_) => {},
                    }
                }
                at = next;
            },
            Ok(None) => {
                assert(entries.deep_view() + Seq::<DataEntryView>::empty() =~= entries.deep_view());
                return Ok(entries);
            },
            Err(error) => {
                return Err(error);
            },
        }
    }
    assert(entries.deep_view() + Seq::<DataEntryView>::empty() =~= entries.deep_view());
    Ok(entries)
}

/// The outcome of reading all entries of a table.
pub open spec fn entries_in(bytes: Seq<u8>) -> Result<Seq<DataEntryView>, LsmError> {
    if bytes.len() < 16 {
        Err(LsmError::TableTooSmall)
    } else {
        entries_from(bytes, 0, data_end_of(bytes))
    }
}

/// How many leading keys of a sparse index are not after a key.
pub open spec fn keys_up_to(index: IndexView, key: Seq<char>) -> nat
    decreases index.len(),
{
    if index.len() == 0 || crate::text::text_before(key, index[0].0) {
        0
    } else {
        1 + keys_up_to(index.drop_first(), key)
    }
}

/// Where a search for a key starts.
pub open spec fn search_start(index: IndexView, key: Seq<char>) -> int {
    let count = keys_up_to(index, key);
    let slot = if count > 0 {
        count - 1
    } else {
        0
    };
    if slot < index.len() {
        index[slot].1 as int
    } else {
        0
    }
}

/// The outcome of looking for a key in a table: nothing, a deletion or a value.
pub open spec fn lookup_in(index: IndexView, bytes: Seq<u8>, key: Seq<char>) -> Result<
    Option<Option<Seq<char>>>,
    LsmError,
> {
    if bytes.len() < 16 {
        Err(LsmError::TableTooSmall)
    } else {
        lookup_from(bytes, search_start(index, key), data_end_of(bytes), key)
    }
}

/// Looks for a key in a table, from the nearest place that its sparse index
/// gives.
pub fn lookup_table(index: &Vec<IndexEntry>, image: &[u8], key: &str) -> (value: Result<
    Option<Option<String>>,
    LsmError,
>)
    requires
        trailer_is_sane(image@),
    ensures
        lookup_in(crate::lsm::codec::index_view(index@), image@, key@) == match value {
            Ok(Some(value)) => Ok(Some(crate::node::text_of(value))),
            Ok(None) => Ok(None),
            Err(error) => Err(error),
        },
{
    let ghost view = crate::lsm::codec::index_view(index@);
    let mut count: usize = 0;
    assert(view.skip(0) =~= view);
    while count < index.len() && !matches!(
        compare_text(key, index[count].key.as_str()),
        Position::Before
    )
        invariant
            count <= index@.len(),
            view == crate::lsm::codec::index_view(index@),
            keys_up_to(view, key@) == count + keys_up_to(view.skip(count as int), key@),
        decreases index@.len() - count,
    {
        assert(view.skip(count as int)[0] == view[count as int]);
        assert(view.skip(count as int).drop_first() =~= view.skip(count + 1));
        count = count + 1;
    }
    proof {
        if count < index@.len() {
            assert(view.skip(count as int)[0] == view[count as int]);
        }
    }
    assert(keys_up_to(view, key@) == count);
    let end: usize = match data_end(image) {
        Ok(end) => end,
        Err(error) => {
            return Err(error);
        },
    };
    let slot: usize = if count > 0 {
        count - 1
    } else {
        0
    };
    let start: u64 = if slot < index.len() {
        index[slot].offset
    } else {
        0
    };
    if start >= end as u64 {
        return Ok(None);
    }
    let mut at: usize = start as usize;
    while at < end
        invariant
            at <= image@.len(),
            end <= image@.len(),
            image@.len() >= 16,
            end == data_end_of(image@),
            view == crate::lsm::codec::index_view(index@),
            lookup_in(view, image@, key@) == lookup_from(image@, at as int, end as int, key@),
        decreases image@.len() - at,
    {
        match read_entry_at(image, at) {
            Ok(Some((entry, next))) => {
                match compare_text(entry.record.key.as_str(), key) {
                    Position::Before => {
                        at = next;
                    },
                    Position::Same => {
                        proof {
                            crate::text::text_before_irreflexive(key@);
                        }
                        return Ok(Some(entry.record.value));
                    },
                    Position::After => {
                        return Ok(None);
                    },
                }
            },
            Ok(None) => {
                return Ok(None);
            },
            Err(error) => {
                return Err(error);
            },
        }
    }
    Ok(None)
}

} // verus!
