//! What is read back from a table.
use crate::lsm::codec::FooterView;
use crate::lsm::record::DataEntryView;
use crate::lsm::table::EntryAt;
use vstd::prelude::*;

verus! {

/// What entries say of a key: nothing, a deletion or a value.
pub open spec fn find(entries: Seq<DataEntryView>, key: Seq<char>) -> Option<Option<Seq<char>>> {
    if exists|i: int| 0 <= i < entries.len() && #[trigger] entries[i].1.0 == key {
        Some(entries[choose|i: int| 0 <= i < entries.len() && #[trigger] entries[i].1.0 == key].1.1)
    } else {
        None
    }
}

/// Among entries in key order, the entry of a key is what is found.
pub proof fn find_at(entries: Seq<DataEntryView>, i: int)
    requires
        crate::lsm::table::by_key(entries),
        0 <= i < entries.len(),
    ensures
        find(entries, entries[i].1.0) == Some(entries[i].1.1),
{
    let key = entries[i].1.0;
    let j = choose|j: int| 0 <= j < entries.len() && #[trigger] entries[j].1.0 == key;
    crate::text::text_before_irreflexive(key);
    assert(i == j);
}

/// The trailer of an image leads to the footer, which is read back.
pub proof fn footer_is_read_back(bytes: Seq<u8>, entries: Seq<DataEntryView>, footer: FooterView)
    requires
        crate::lsm::table::holds(bytes, entries, footer),
    ensures
        crate::lsm::table::trailer_is_sane(bytes),
        crate::lsm::table::data_end_of(bytes) == crate::lsm::table::data_of(entries).len(),
        crate::lsm::table::footer_in(bytes) == Ok::<FooterView, crate::lsm::record::LsmError>(footer),
{
    let code = crate::lsm::codec::code_of_footer(footer);
    let data = crate::lsm::table::data_of(entries);
    let len = crate::bytes::be_bytes(code.len(), 8);
    crate::bytes::radix_powers();
    crate::bytes::be_round_trip(code.len(), 8);
    let n = bytes.len() as int;
    assert(bytes.subrange(n - 16, n - 8) =~= len);
    assert(bytes.skip(n - 8) =~= crate::lsm::table::magic());
    assert(bytes.subrange(data.len() as int, n - 16) =~= code);
}

/// At the place of an entry in an image stands that entry.
proof fn entry_is_read_back(
    bytes: Seq<u8>,
    entries: Seq<DataEntryView>,
    footer: FooterView,
    i: int,
)
    requires
        crate::lsm::table::holds(bytes, entries, footer),
        0 <= i < entries.len(),
    ensures
        ({
            let at = crate::lsm::table::data_of(entries.take(i)).len() as int;
            let next = crate::lsm::table::data_of(entries.take(i + 1)).len() as int;
            &&& at < next <= crate::lsm::table::data_of(entries).len()
            &&& crate::lsm::table::entry_at(bytes, at) == EntryAt::Entry(entries[i], next)
        }),
{
    let head = crate::lsm::table::data_of(entries.take(i));
    let payload = crate::lsm::codec::code_of_entry(entries[i]);
    let next = crate::lsm::table::data_of(entries.take(i + 1));
    crate::lsm::table::data_of_prefix(entries, i);
    crate::lsm::table::data_starts_with(entries, i + 1);
    crate::bytes::radix_powers();
    crate::bytes::be_round_trip(payload.len(), 4);
    let tail = bytes.skip(next.len() as int);
    assert(bytes =~= head + crate::bytes::framed(payload) + tail) by {
        let data = crate::lsm::table::data_of(entries);
        assert(data.take(next.len() as int) =~= next);
        assert(bytes.take(next.len() as int) =~= next);
    }
    crate::bytes::frame_is_read_back(head, payload, tail);
    assert(crate::lsm::codec::entry_is_storable(entries[i]));
}

/// All entries are read back from an image.
pub proof fn entries_are_read_back(bytes: Seq<u8>, entries: Seq<DataEntryView>, footer: FooterView)
    requires
        crate::lsm::table::holds(bytes, entries, footer),
    ensures
        crate::lsm::table::entries_in(bytes) == Ok::<
            Seq<DataEntryView>,
            crate::lsm::record::LsmError,
        >(entries),
{
    footer_is_read_back(bytes, entries, footer);
    assert(entries.take(0) =~= Seq::empty());
    rest_is_read_back(bytes, entries, footer, 0);
    assert(entries.skip(0) =~= entries);
}

proof fn rest_is_read_back(
    bytes: Seq<u8>,
    entries: Seq<DataEntryView>,
    footer: FooterView,
    i: int,
)
    requires
        crate::lsm::table::holds(bytes, entries, footer),
        0 <= i <= entries.len(),
    ensures
        crate::lsm::table::entries_from(
            bytes,
            crate::lsm::table::data_of(entries.take(i)).len() as int,
            crate::lsm::table::data_of(entries).len() as int,
        ) == Ok::<Seq<DataEntryView>, crate::lsm::record::LsmError>(entries.skip(i)),
    decreases entries.len() - i,
{
    if i == entries.len() {
        assert(entries.take(i) =~= entries);
        assert(entries.skip(i) =~= Seq::empty());
    } else {
        entry_is_read_back(bytes, entries, footer, i);
        rest_is_read_back(bytes, entries, footer, i + 1);
        assert(seq![entries[i]] + entries.skip(i + 1) =~= entries.skip(i));
    }
}

/// A search that starts where no earlier entry has the key finds what the
/// entries say of it.
proof fn search_finds(
    bytes: Seq<u8>,
    entries: Seq<DataEntryView>,
    footer: FooterView,
    key: Seq<char>,
    i: int,
)
    requires
        crate::lsm::table::holds(bytes, entries, footer),
        crate::lsm::table::by_key(entries),
        0 <= i <= entries.len(),
        forall|j: int| 0 <= j < i ==> crate::text::text_before(#[trigger] entries[j].1.0, key),
    ensures
        crate::lsm::table::lookup_from(
            bytes,
            crate::lsm::table::data_of(entries.take(i)).len() as int,
            crate::lsm::table::data_of(entries).len() as int,
            key,
        ) == Ok::<Option<Option<Seq<char>>>, crate::lsm::record::LsmError>(find(entries, key)),
    decreases entries.len() - i,
{
    crate::text::text_before_irreflexive(key);
    if i == entries.len() {
        assert(entries.take(i) =~= entries);
    } else {
        entry_is_read_back(bytes, entries, footer, i);
        if crate::text::text_before(entries[i].1.0, key) {
            search_finds(bytes, entries, footer, key, i + 1);
        } else if entries[i].1.0 == key {
            find_at(entries, i);
        } else {
            crate::text::text_order_is_total(entries[i].1.0, key);
            if exists|j: int| 0 <= j < entries.len() && #[trigger] entries[j].1.0 == key {
                let j = choose|j: int| 0 <= j < entries.len() && #[trigger] entries[j].1.0 == key;
                assert(i < j);
                crate::text::text_before_transitive(key, entries[i].1.0, key);
            }
        }
    }
}

proof fn keys_up_to_bounds(index: crate::lsm::codec::IndexView, key: Seq<char>)
    ensures
        crate::lsm::table::keys_up_to(index, key) <= index.len(),
        forall|j: int|
            0 <= j < crate::lsm::table::keys_up_to(index, key) ==> !crate::text::text_before(
                key,
                #[trigger] index[j].0,
            ),
    decreases index.len(),
{
    if index.len() > 0 && !crate::text::text_before(key, index[0].0) {
        keys_up_to_bounds(index.drop_first(), key);
        assert forall|j: int| 0 <= j < crate::lsm::table::keys_up_to(index, key) implies
            !crate::text::text_before(key, #[trigger] index[j].0) by {
            if j > 0 {
                assert(index[j] == index.drop_first()[j - 1]);
            }
        }
    }
}

/// A key is found in an image exactly as its entries have it.
pub proof fn key_is_found(
    bytes: Seq<u8>,
    entries: Seq<DataEntryView>,
    footer: FooterView,
    key: Seq<char>,
)
    requires
        crate::lsm::table::holds(bytes, entries, footer),
        crate::lsm::table::by_key(entries),
    ensures
        crate::lsm::table::lookup_in(footer.0, bytes, key) == Ok::<
            Option<Option<Seq<char>>>,
            crate::lsm::record::LsmError,
        >(find(entries, key)),
{
    footer_is_read_back(bytes, entries, footer);
    keys_up_to_bounds(footer.0, key);
    let count = crate::lsm::table::keys_up_to(footer.0, key);
    let slot = if count > 0 {
        count - 1
    } else {
        0
    };
    if slot < footer.0.len() {
        let i = 16 * slot;
        assert(footer.0[slot] == crate::lsm::table::sparse(entries)[slot]);
        crate::lsm::table::data_starts_with(entries, i);
        assert forall|j: int| 0 <= j < i implies crate::text::text_before(
            #[trigger] entries[j].1.0,
            key,
        ) by {
            assert(crate::text::text_before(entries[j].1.0, entries[i].1.0));
            assert(!crate::text::text_before(key, footer.0[slot].0));
            crate::text::text_order_is_total(entries[i].1.0, key);
            if crate::text::text_before(entries[i].1.0, key) {
                crate::text::text_before_transitive(entries[j].1.0, entries[i].1.0, key);
            }
        }
        search_finds(bytes, entries, footer, key, i);
    } else {
        assert(entries.take(0) =~= Seq::empty());
        search_finds(bytes, entries, footer, key, 0);
    }
}

/// The filter of an image admits every key that its entries speak of.
pub proof fn filter_admits(
    bytes: Seq<u8>,
    entries: Seq<DataEntryView>,
    footer: FooterView,
    key: Seq<char>,
)
    requires
        crate::lsm::table::holds(bytes, entries, footer),
        find(entries, key) is Some,
    ensures
        crate::lsm::bloom::may_hold(footer.1, key),
{
    let i = choose|i: int| 0 <= i < entries.len() && #[trigger] entries[i].1.0 == key;
    assert(crate::lsm::table::keys_of(entries)[i] == key);
    crate::lsm::bloom::no_false_negatives(footer.1, crate::lsm::table::keys_of(entries), key);
}

} // verus!
