//! The tree: what goes to disk when, what a read finds, and what is counted.
use crate::lsm::bloom::BloomView;
use crate::lsm::codec::FooterView;
use crate::lsm::record::{DataEntryView, LsmError, RecordView, WalFrameView};
use crate::lsm::store::{DiskActionView, OperationView, Step};
use crate::lsm::tree::{FileView, LsmOptions, LsmState, MemtableView, TableView};
use crate::types::{Command, LogIndex};
use vstd::prelude::*;

verus! {

/// Nothing is left to do.
pub open spec fn is_over(step: Step) -> bool {
    step matches Ok((operation, action)) && operation is Over && action is Nothing
}

/// Bytes are a payload behind its length in four bytes.
pub open spec fn is_frame_of(bytes: Seq<u8>, payload: Seq<u8>) -> bool {
    &&& bytes.len() == payload.len() + 4
    &&& bytes.skip(4) == payload
    &&& bytes[0] * 0x100_0000 + bytes[1] * 0x1_0000 + bytes[2] * 0x100 + bytes[3]
        == payload.len()
}

proof fn framing_frames(payload: Seq<u8>)
    requires
        payload.len() <= u32::MAX,
    ensures
        is_frame_of(crate::bytes::framed(payload), payload),
{
    let bytes = crate::bytes::framed(payload);
    let head = crate::bytes::be_bytes(payload.len(), 4);
    crate::bytes::radix_powers();
    crate::bytes::be_round_trip(payload.len(), 4);
    assert(bytes.skip(4) =~= payload);
    reveal_with_fuel(crate::bytes::be_value, 5);
    assert(head.drop_last().drop_last().drop_last().drop_last() =~= Seq::empty());
    assert(bytes[0] == head[0] && bytes[1] == head[1] && bytes[2] == head[2] && bytes[3]
        == head[3]);
}

/// A frame is its payload behind its length; payloads up to sixteen mebibytes are
/// sent, longer ones are refused, and so are lengths above that when they are read.
pub proof fn frames_carry_their_length(payload: Seq<u8>, header: Seq<u8>)
    ensures
        payload.len() <= 16777216 ==> crate::net::frame_of(payload) is Ok && is_frame_of(
            crate::net::frame_of(payload)->Ok_0,
            payload,
        ),
        payload.len() > 16777216 ==> crate::net::frame_of(payload) == Err::<
            Seq<u8>,
            crate::net::NetError,
        >(crate::net::NetError::FrameTooLarge),
        header.len() == 4 ==> ({
            let len = header[0] * 0x100_0000 + header[1] * 0x1_0000 + header[2] * 0x100 + header[3];
            crate::net::length_in(header) == if len <= 16777216 {
                Ok::<nat, crate::net::NetError>(len as nat)
            } else {
                Err(crate::net::NetError::FrameTooLarge)
            }
        }),
{
    if payload.len() <= 16777216 {
        framing_frames(payload);
    }
    if header.len() == 4 {
        reveal_with_fuel(crate::bytes::be_value, 5);
        assert(header.drop_last().drop_last().drop_last().drop_last() =~= Seq::empty());
    }
}

/// A command goes to the log before anything else, as a frame with its index and
/// what it stores. One that is applied already is left alone, one further ahead
/// than the next is refused, and so is one whose frame would be too long.
pub proof fn commands_go_to_the_log_first(state: LsmState, frame: WalFrameView, step: Step)
    requires
        crate::lsm::store::applies(state, frame, step),
    ensures
        frame.0 <= state.last_applied ==> is_over(step),
        frame.0 > state.last_applied + 1 ==> step == Step::Err(LsmError::IndexGap),
        frame.0 == state.last_applied + 1 ==> ({
            let code = crate::lsm::codec::code_of_frame(frame);
            &&& code.len() > 0xffff_ffff ==> step == Step::Err(LsmError::FrameTooLarge)
            &&& code.len() <= 0xffff_ffff ==> {
                &&& step matches Ok((operation, action))
                &&& operation == OperationView::Appending(frame)
                &&& action matches DiskActionView::AppendLog(bytes)
                &&& is_frame_of(bytes, code)
                &&& crate::lsm::codec::wal_meaning(bytes.skip(4)) == Some(frame)
            }
        }),
{
    crate::lsm::codec::frame_code_len(frame);
    let code = crate::lsm::codec::code_of_frame(frame);
    if code.len() <= 0xffff_ffff {
        framing_frames(code);
    }
}

/// What a record takes in memory: the bytes of its texts, and sixteen more.
pub open spec fn weight(key: Seq<char>, value: Option<Seq<char>>) -> int {
    vstd::utf8::encode_utf8(key).len() + match value {
        Some(value) => vstd::utf8::encode_utf8(value).len() as int,
        None => 0,
    } + 16
}

/// What a frame that is recorded does to a tree: its record stands under its key, a
/// deletion too, with the index; the memory grows by the record's weight; nothing
/// else changes but the index applied last.
pub open spec fn takes_in(before: LsmState, frame: WalFrameView, after: LsmState) -> bool {
    &&& after.last_applied == frame.0
    &&& after.tables == before.tables
    &&& after.options == before.options
    &&& after.disk_reads == before.disk_reads
    &&& after.compactions == before.compactions
    &&& frame.1 is None ==> after.memtable == before.memtable && after.memtable_bytes
        == before.memtable_bytes
    &&& frame.1 matches Some((key, value)) ==> {
        let sum = before.memtable_bytes + weight(key, value);
        &&& after.memtable.contains_key(key)
        &&& after.memtable[key] == (value, frame.0)
        &&& after.memtable_bytes == if sum <= usize::MAX {
            sum
        } else {
            usize::MAX as int
        }
        &&& forall|other: Seq<char>|
            #![trigger after.memtable.contains_key(other)]
            #![trigger before.memtable.contains_key(other)]
            other != key ==> after.memtable.contains_key(other) == before.memtable.contains_key(
                other,
            ) && (before.memtable.contains_key(other) ==> after.memtable[other]
                == before.memtable[other])
    }
}

/// An id is the lowest above those of all tables, and above zero.
pub open spec fn is_next_id(id: int, tables: Seq<TableView>) -> bool {
    &&& id > 0
    &&& forall|i: int| 0 <= i < tables.len() ==> (#[trigger] tables[i]).0 < id
    &&& id > 1 ==> exists|i: int| 0 <= i < tables.len() && (#[trigger] tables[i]).0 == id - 1
}

proof fn highest_id_is_next(tables: Seq<TableView>)
    ensures
        is_next_id(crate::lsm::tree::highest_id(tables) + 1, tables),
    decreases tables.len(),
{
    let id = crate::lsm::tree::highest_id(tables) + 1;
    if tables.len() > 0 {
        let less = tables.drop_last();
        highest_id_is_next(less);
        assert forall|i: int| 0 <= i < tables.len() implies (#[trigger] tables[i]).0 < id by {
            crate::lsm::tree_laws::highest_id_bounds(tables, i);
        }
        if id > 1 {
            if tables.last().0 == id - 1 {
                assert(tables[tables.len() - 1].0 == id - 1);
            } else {
                let i = choose|i: int| 0 <= i < less.len() && (#[trigger] less[i]).0 == id - 1;
                assert(tables[i].0 == id - 1);
            }
        }
    }
}

/// Bytes hold a table with exactly what a memtable holds.
pub open spec fn holds_memory(bytes: Seq<u8>, memtable: MemtableView) -> bool {
    &&& crate::lsm::table::entries_in(bytes) matches Ok(entries)
    &&& forall|key: Seq<char>, value: Option<Seq<char>>, index: LogIndex|
        (memtable.contains_key(key) && memtable[key] == (value, index))
            <==> #[trigger] entries.contains((index, (key, value)))
}

proof fn images_hold_memory(memtable: MemtableView, table: TableView, bytes: Seq<u8>)
    requires
        crate::lsm::store::images(memtable, table, bytes),
    ensures
        holds_memory(bytes, memtable),
{
    let entries = choose|entries: Seq<DataEntryView>| #[trigger]
        crate::lsm::tree::lists(entries, memtable) && crate::lsm::table::holds(
            bytes,
            entries,
            table.1,
        );
    crate::lsm::table_laws::entries_are_read_back(bytes, entries, table.1);
    assert forall|key: Seq<char>, value: Option<Seq<char>>, index: LogIndex|
        (memtable.contains_key(key) && memtable[key] == (value, index))
            <==> #[trigger] entries.contains((index, (key, value))) by {
        if memtable.contains_key(key) && memtable[key] == (value, index) {
            let i = choose|i: int| 0 <= i < entries.len() && #[trigger] entries[i].1.0 == key;
            assert(entries[i] == (index, (key, value)));
        }
        if entries.contains((index, (key, value))) {
            let i = choose|i: int| 0 <= i < entries.len() && entries[i] == (index, (key, value));
            assert(memtable.contains_key(entries[i].1.0));
        }
    }
}

/// A flush writes what is in memory as a new table, with the lowest id above all
/// others, that accounts for every command applied so far. It fails only if a record
/// is too long for a frame.
pub open spec fn writes_memory(state: LsmState, step: Step) -> bool {
    match step {
        Ok((OperationView::Flushing(table), DiskActionView::WriteTable(id, bytes))) => {
            &&& id == table.0
            &&& is_next_id(id as int, state.tables)
            &&& table.1.2 == state.last_applied
            &&& holds_memory(bytes, state.memtable)
            &&& crate::lsm::table::footer_in(bytes) == Ok::<FooterView, LsmError>(table.1)
        },
        Err(error) => {
            &&& error == LsmError::FrameTooLarge
            &&& exists|key: Seq<char>| #[trigger]
                state.memtable.contains_key(key) && crate::lsm::codec::code_of_entry(
                    (state.memtable[key].1, (key, state.memtable[key].0)),
                ).len() > 0xffff_ffff
        },
        _ => false,
    }
}

/// A flush does nothing exactly if there is nothing in memory.
pub proof fn flushes_write_what_is_in_memory(state: LsmState, step: Step)
    requires
        crate::lsm::store::flushes(state, step),
    ensures
        (forall|key: Seq<char>| !(#[trigger] state.memtable.contains_key(key))) ==> is_over(step),
        (exists|key: Seq<char>| #[trigger] state.memtable.contains_key(key)) ==> writes_memory(
            state,
            step,
        ),
{
    if exists|key: Seq<char>| #[trigger] state.memtable.contains_key(key) {
        let key = choose|key: Seq<char>| #[trigger] state.memtable.contains_key(key);
        assert(state.memtable != MemtableView::empty());
        highest_id_is_next(state.tables);
        match step {
            Ok((OperationView::Flushing(table), DiskActionView::WriteTable(id, bytes))) => {
                images_hold_memory(state.memtable, table, bytes);
                let entries = choose|entries: Seq<DataEntryView>| #[trigger]
                    crate::lsm::tree::lists(entries, state.memtable) && crate::lsm::table::holds(
                        bytes,
                        entries,
                        table.1,
                    );
                crate::lsm::table_laws::footer_is_read_back(bytes, entries, table.1);
            },
            Err(error) => {
                let entries = choose|entries: Seq<DataEntryView>| #[trigger]
                    crate::lsm::tree::lists(entries, state.memtable)
                        && !crate::lsm::table::all_fit(entries);
                let i = choose|i: int|
                    0 <= i < entries.len() && crate::lsm::codec::entry_len(#[trigger] entries[i])
                        > u32::MAX;
                crate::lsm::codec::entry_code_len(entries[i]);
                assert(state.memtable.contains_key(entries[i].1.0));
                assert(entries[i] == (
                    state.memtable[entries[i].1.0].1,
                    (entries[i].1.0, state.memtable[entries[i].1.0].0),
                ));
            },
            _ => {},
        }
    } else {
        assert(state.memtable =~= MemtableView::empty());
    }
}

/// A command that is in the log is taken into memory. From the size on that the
/// options give, memory is then flushed; before, nothing more is to do.
pub proof fn logged_commands_are_taken_into_memory(
    before: LsmState,
    index: LogIndex,
    command: Command,
    after: LsmState,
    step: Step,
)
    requires
        crate::lsm::store::goes_on(
            before,
            OperationView::Appending((index, crate::lsm::record::stored_by(command))),
            after,
            step,
        ),
    ensures
        command is Noop ==> takes_in(before, (index, None), after),
        command matches Command::Put { key, value } ==> takes_in(
            before,
            (index, Some((key@, Some(value@)))),
            after,
        ),
        command matches Command::Delete { key } ==> takes_in(
            before,
            (index, Some((key@, None))),
            after,
        ),
        after.memtable_bytes < after.options.memtable_bytes ==> is_over(step),
        after.memtable_bytes >= after.options.memtable_bytes ==> {
            &&& (forall|key: Seq<char>| !(#[trigger] after.memtable.contains_key(key)))
                ==> is_over(step)
            &&& (exists|key: Seq<char>| #[trigger] after.memtable.contains_key(key))
                ==> writes_memory(after, step)
        },
{
    if after.is_flush_due() {
        flushes_write_what_is_in_memory(after, step);
    }
}

/// Once the table of a flush is written, it is the newest of the tables, memory is
/// empty, and the log is emptied next; nothing else changes.
pub proof fn flushed_tables_come_first(
    before: LsmState,
    table: TableView,
    after: LsmState,
    step: Step,
)
    requires
        crate::lsm::store::goes_on(before, OperationView::Flushing(table), after, step),
    ensures
        after.tables.len() == before.tables.len() + 1,
        after.tables[0] == table,
        after.tables.skip(1) == before.tables,
        after.memtable == MemtableView::empty(),
        after.memtable_bytes == 0,
        after.last_applied == before.last_applied,
        after.options == before.options,
        after.disk_reads == before.disk_reads,
        after.compactions == before.compactions,
        step matches Ok((operation, action)) && operation is Emptying && action is EmptyLog,
{
}

/// A compaction reads all tables, newest first, if there are two or more; the tree is
/// then without them. With fewer there is nothing to do.
pub open spec fn reads_all_tables(before: LsmState, after: LsmState, step: Step) -> bool {
    &&& before.tables.len() < 2 ==> after == before && is_over(step)
    &&& before.tables.len() >= 2 ==> {
        &&& after.tables.len() == 0
        &&& after == (LsmState { tables: after.tables, ..before })
        &&& step matches Ok((operation, action))
        &&& operation == OperationView::Reading(before.tables)
        &&& action matches DiskActionView::ReadTables(ids)
        &&& ids.len() == before.tables.len()
        &&& forall|i: int| 0 <= i < ids.len() ==> #[trigger] ids[i] == before.tables[i].0
    }
}

/// Compacting begins by reading all tables. After a flush it begins if there are as
/// many tables as the options give or more, and not otherwise.
pub proof fn compactions_read_all_tables(before: LsmState, after: LsmState, step: Step)
    ensures
        crate::lsm::store::compacts(before, after, step) ==> reads_all_tables(before, after, step),
        crate::lsm::store::goes_on(before, OperationView::Emptying, after, step) ==> {
            &&& before.tables.len() >= before.options.compaction_threshold ==> reads_all_tables(
                before,
                after,
                step,
            )
            &&& before.tables.len() < before.options.compaction_threshold ==> after == before
                && is_over(step)
        },
{
}

/// An entry is the first of its key.
pub open spec fn is_first(entries: Seq<DataEntryView>, i: int) -> bool {
    &&& 0 <= i < entries.len()
    &&& forall|j: int| 0 <= j < i ==> (#[trigger] entries[j]).1.0 != entries[i].1.0
}

proof fn first_is_kept(entries: Seq<DataEntryView>, i: int)
    requires
        is_first(entries, i),
    ensures
        crate::lsm::tree::firsts(entries).contains_key(entries[i].1.0),
        crate::lsm::tree::firsts(entries)[entries[i].1.0] == entries[i],
    decreases entries.len(),
{
    let less = entries.drop_last();
    if i < less.len() {
        assert(is_first(less, i)) by {
            assert forall|j: int| 0 <= j < i implies (#[trigger] less[j]).1.0 != less[i].1.0 by {
                assert(entries[j].1.0 != entries[i].1.0);
            }
        }
        first_is_kept(less, i);
    } else if crate::lsm::tree::firsts(less).contains_key(entries[i].1.0) {
        let k = kept_is_first(less, entries[i].1.0);
        assert(entries[k].1.0 != entries[i].1.0);
    }
}

proof fn kept_is_first(entries: Seq<DataEntryView>, key: Seq<char>) -> (i: int)
    requires
        crate::lsm::tree::firsts(entries).contains_key(key),
    ensures
        is_first(entries, i),
        entries[i].1.0 == key,
        crate::lsm::tree::firsts(entries)[key] == entries[i],
    decreases entries.len(),
{
    let less = entries.drop_last();
    if crate::lsm::tree::firsts(less).contains_key(key) {
        let i = kept_is_first(less, key);
        assert(is_first(entries, i)) by {
            assert forall|j: int| 0 <= j < i implies (#[trigger] entries[j]).1.0
                != entries[i].1.0 by {
                assert(less[j].1.0 != less[i].1.0);
            }
        }
        i
    } else {
        let i = less.len() as int;
        assert(is_first(entries, i)) by {
            assert forall|j: int| 0 <= j < i implies (#[trigger] entries[j]).1.0
                != entries[i].1.0 by {
                if less[j].1.0 == key {
                    let k = first_place_of(less, key, j);
                    first_is_kept(less, k);
                }
            }
        }
        i
    }
}

proof fn first_place_of(entries: Seq<DataEntryView>, key: Seq<char>, j: int) -> (k: int)
    requires
        0 <= j < entries.len(),
        entries[j].1.0 == key,
    ensures
        is_first(entries, k),
        entries[k].1.0 == key,
    decreases j,
{
    if is_first(entries, j) {
        j
    } else {
        let i = choose|i: int| 0 <= i < j && (#[trigger] entries[i]).1.0 == entries[j].1.0;
        first_place_of(entries, key, i)
    }
}

/// Of the entries of several tables, newest table first, a merge keeps the first of
/// every key and drops the others, and deletions too; what it keeps is in key order.
pub proof fn the_newest_record_is_kept(
    merged: Seq<DataEntryView>,
    from: Seq<DataEntryView>,
    i: int,
    j: int,
)
    requires
        crate::lsm::tree::merges(merged, from),
    ensures
        is_first(from, i) ==> (merged.contains(from[i]) <==> from[i].1.1 is Some),
        0 <= i < merged.len() ==> exists|k: int|
            #[trigger] is_first(from, k) && from[k] == merged[i] && from[k].1.1 is Some,
        0 <= i < j < merged.len() ==> crate::text::text_before(merged[i].1.0, merged[j].1.0),
{
    if is_first(from, i) {
        first_is_kept(from, i);
        if from[i].1.1 is Some {
            let key = from[i].1.0;
            assert(crate::lsm::tree::firsts(from).contains_key(key));
            let k = choose|k: int| 0 <= k < merged.len() && #[trigger] merged[k].1.0 == key;
            assert(merged[k] == from[i]);
        }
        if merged.contains(from[i]) {
            let k = choose|k: int| 0 <= k < merged.len() && merged[k] == from[i];
            assert(merged[k].1.1 is Some);
        }
    }
    if 0 <= i < merged.len() {
        assert(merged[i].1.1 is Some);
        let k = kept_is_first(from, merged[i].1.0);
        assert(is_first(from, k) && from[k] == merged[i]);
    }
    if 0 <= i < j < merged.len() {
        assert(crate::text::text_before(merged[i].1.0, merged[j].1.0));
    }
}

/// The entries of tables are those of the first, then those of the next; if one
/// cannot be read, the fault of the first such one is the outcome.
pub proof fn tables_are_read_one_behind_the_other(images: Seq<Seq<u8>>, image: Seq<u8>)
    ensures
        crate::lsm::tree::all_entries_in(Seq::empty()) == Ok::<Seq<DataEntryView>, LsmError>(
            Seq::empty(),
        ),
        crate::lsm::tree::all_entries_in(images) matches Err(error)
            ==> crate::lsm::tree::all_entries_in(images.push(image)) == Err::<
            Seq<DataEntryView>,
            LsmError,
        >(error),
        crate::lsm::tree::all_entries_in(images) matches Ok(entries) ==> {
            &&& crate::lsm::table::entries_in(image) matches Ok(more)
                ==> crate::lsm::tree::all_entries_in(images.push(image)) == Ok::<
                Seq<DataEntryView>,
                LsmError,
            >(entries + more)
            &&& crate::lsm::table::entries_in(image) matches Err(error)
                ==> crate::lsm::tree::all_entries_in(images.push(image)) == Err::<
                Seq<DataEntryView>,
                LsmError,
            >(error)
        },
{
    assert(images.push(image).drop_last() =~= images);
}

/// An index is the highest that any of the tables accounts for, or zero.
pub open spec fn is_highest_index(index: LogIndex, tables: Seq<TableView>) -> bool {
    &&& forall|i: int| 0 <= i < tables.len() ==> (#[trigger] tables[i]).1.2 <= index
    &&& index > 0 ==> exists|i: int| 0 <= i < tables.len() && (#[trigger] tables[i]).1.2 == index
}

proof fn highest_index_is_highest(tables: Seq<TableView>)
    ensures
        is_highest_index(crate::lsm::tree::highest_index(tables), tables),
    decreases tables.len(),
{
    let index = crate::lsm::tree::highest_index(tables);
    if tables.len() > 0 {
        let less = tables.drop_last();
        highest_index_is_highest(less);
        assert forall|i: int| 0 <= i < tables.len() implies (#[trigger] tables[i]).1.2 <= index by {
            crate::lsm::tree_laws::highest_index_bounds(tables, i);
        }
        if index > 0 {
            if tables.last().1.2 == index {
                assert(tables[tables.len() - 1].1.2 == index);
            } else {
                let i = choose|i: int| 0 <= i < less.len() && (#[trigger] less[i]).1.2 == index;
                assert(tables[i].1.2 == index);
            }
        }
    }
}

/// Once its tables are read, a compaction writes one table with what a merge keeps of
/// them, that accounts for what they did, and whose id is above theirs and above any
/// that a flush may take meanwhile. Where nothing is kept, the log is marked with the
/// index applied last. If a table cannot be read, its fault is the outcome.
pub proof fn compactions_write_what_is_kept(
    state: LsmState,
    old_tables: Seq<TableView>,
    read: Seq<Seq<u8>>,
    step: Step,
)
    requires
        crate::lsm::store::merges_on(state, old_tables, read, step),
    ensures
        crate::lsm::tree::all_entries_in(read) matches Err(error) ==> step == Step::Err(error),
        crate::lsm::tree::all_entries_in(read) matches Ok(from) ==> match step {
            Ok((OperationView::Marking(old), DiskActionView::AppendLog(bytes))) => {
                &&& old == old_tables
                &&& forall|i: int| #[trigger] is_first(from, i) ==> from[i].1.1 is None
                &&& crate::lsm::codec::wal_meaning(bytes.skip(4)) == Some(
                    (state.last_applied, None::<RecordView>),
                )
            },
            Ok((OperationView::Merging(old, table), DiskActionView::WriteTable(id, bytes))) => {
                &&& old == old_tables
                &&& id == table.0
                &&& forall|i: int| 0 <= i < old.len() ==> (#[trigger] old[i]).0 < id
                &&& forall|i: int|
                    0 <= i < state.tables.len() ==> (#[trigger] state.tables[i]).0 < id - 1
                &&& is_highest_index(table.1.2, old)
                &&& crate::lsm::table::footer_in(bytes) == Ok::<FooterView, LsmError>(table.1)
                &&& crate::lsm::table::entries_in(bytes) matches Ok(merged)
                &&& merged.len() > 0
                &&& forall|i: int| #[trigger]
                    is_first(from, i) ==> (merged.contains(from[i]) <==> from[i].1.1 is Some)
                &&& forall|k: int|
                    0 <= k < merged.len() ==> exists|i: int| #[trigger]
                        is_first(from, i) && from[i] == #[trigger] merged[k]
            },
            Err(error) => {
                &&& error == LsmError::FrameTooLarge
                &&& exists|i: int| #[trigger]
                    is_first(from, i) && from[i].1.1 is Some
                        && crate::lsm::codec::code_of_entry(from[i]).len() > 0xffff_ffff
            },
            _ => false,
        },
{
    match crate::lsm::tree::all_entries_in(read) {
        Ok(from) => match step {
            Ok((OperationView::Marking(old), DiskActionView::AppendLog(bytes))) => {
                let code = crate::lsm::codec::code_of_frame(crate::lsm::store::mark_of(state));
                framing_frames(code);
                assert forall|i: int| #[trigger] is_first(from, i) implies from[i].1.1 is None by {
                    the_newest_record_is_kept(Seq::empty(), from, i, i);
                    assert(!Seq::<DataEntryView>::empty().contains(from[i]));
                }
            },
            Ok((OperationView::Merging(old, table), DiskActionView::WriteTable(id, bytes))) => {
                let merged = choose|merged: Seq<DataEntryView>| #[trigger]
                    crate::lsm::tree::merges(merged, from) && merged.len() > 0
                        && crate::lsm::table::holds(bytes, merged, table.1);
                crate::lsm::table_laws::entries_are_read_back(bytes, merged, table.1);
                crate::lsm::table_laws::footer_is_read_back(bytes, merged, table.1);
                highest_index_is_highest(old_tables);
                assert forall|i: int| 0 <= i < old.len() implies (#[trigger] old[i]).0 < id by {
                    crate::lsm::tree_laws::highest_id_bounds(old, i);
                }
                assert forall|i: int| 0 <= i < state.tables.len() implies (
                #[trigger] state.tables[i]).0 < id - 1 by {
                    crate::lsm::tree_laws::highest_id_bounds(state.tables, i);
                }
                assert forall|i: int| #[trigger] is_first(from, i) implies (merged.contains(from[i])
                    <==> from[i].1.1 is Some) by {
                    the_newest_record_is_kept(merged, from, i, i);
                }
                assert forall|k: int| 0 <= k < merged.len() implies exists|i: int| #[trigger]
                    is_first(from, i) && from[i] == #[trigger] merged[k] by {
                    the_newest_record_is_kept(merged, from, k, k);
                }
            },
            Err(error) => {
                let merged = choose|merged: Seq<DataEntryView>| #[trigger]
                    crate::lsm::tree::merges(merged, from) && !crate::lsm::table::all_fit(merged);
                let k = choose|k: int|
                    0 <= k < merged.len() && crate::lsm::codec::entry_len(#[trigger] merged[k])
                        > u32::MAX;
                crate::lsm::codec::entry_code_len(merged[k]);
                the_newest_record_is_kept(merged, from, k, k);
            },
            _ => {},
        },
        Err(_) => {},
    }
}

/// Every table has another id.
pub open spec fn ids_differ(tables: Seq<TableView>) -> bool {
    forall|i: int, j: int|
        0 <= i < j < tables.len() ==> (#[trigger] tables[i]).0 != (#[trigger] tables[j]).0
}

/// Tables are in descending order of their ids.
pub open spec fn newest_come_first(tables: Seq<TableView>) -> bool {
    forall|i: int, j: int|
        0 <= i < j < tables.len() ==> (#[trigger] tables[i]).0 > (#[trigger] tables[j]).0
}

/// The oldest of the old tables is removed next, until none is left.
pub open spec fn removes_oldest(old_tables: Seq<TableView>, step: Step) -> bool {
    &&& old_tables.len() == 0 ==> is_over(step)
    &&& old_tables.len() > 0 ==> {
        &&& step matches Ok((operation, action))
        &&& operation == OperationView::Removing(old_tables)
        &&& action == DiskActionView::RemoveTable(old_tables[old_tables.len() - 1].0)
    }
}

/// A compaction counts once its outcome is on disk: the new table is among the
/// tables, which are in descending order, memory is as it was, and the old tables
/// are removed, the oldest first.
pub proof fn compacted_tables_replace_the_old(
    before: LsmState,
    old_tables: Seq<TableView>,
    table: TableView,
    after: LsmState,
    step: Step,
    x: TableView,
)
    requires
        crate::lsm::store::goes_on(before, OperationView::Merging(old_tables, table), after, step),
        ids_differ(before.tables),
        forall|i: int| 0 <= i < before.tables.len() ==> (#[trigger] before.tables[i]).0 != table.0,
    ensures
        newest_come_first(after.tables),
        after.tables.contains(x) <==> x == table || before.tables.contains(x),
        after.compactions == if before.compactions < usize::MAX {
            before.compactions + 1
        } else {
            usize::MAX as int
        },
        after == (LsmState { tables: after.tables, compactions: after.compactions, ..before }),
        removes_oldest(old_tables, step),
{
    let all = before.tables.push(table);
    assert(ids_differ(all));
    crate::lsm::tree_laws::sorting_keeps(all);
    assert(after.tables.contains(x) == all.contains(x));
    if all.contains(x) {
        let i = choose|i: int| 0 <= i < all.len() && all[i] == x;
        if i < before.tables.len() {
            assert(before.tables[i] == x);
        }
    }
    if before.tables.contains(x) {
        let i = choose|i: int| 0 <= i < before.tables.len() && before.tables[i] == x;
        assert(all[i] == x);
    }
    assert(all[before.tables.len() as int] == table);
}

/// So it does where nothing was kept; then there is no new table.
pub proof fn old_tables_go_without_a_new_one(
    before: LsmState,
    old_tables: Seq<TableView>,
    after: LsmState,
    step: Step,
    x: TableView,
)
    requires
        crate::lsm::store::goes_on(before, OperationView::Marking(old_tables), after, step),
        ids_differ(before.tables),
    ensures
        newest_come_first(after.tables),
        after.tables.contains(x) <==> before.tables.contains(x),
        after.compactions == if before.compactions < usize::MAX {
            before.compactions + 1
        } else {
            usize::MAX as int
        },
        after == (LsmState { tables: after.tables, compactions: after.compactions, ..before }),
        removes_oldest(old_tables, step),
{
    crate::lsm::tree_laws::sorting_keeps(before.tables);
    assert(after.tables.contains(x) == before.tables.contains(x));
}

/// When the oldest of the old tables is removed, the others follow; the tree does not
/// change. An operation that is over stays over.
pub proof fn removal_goes_on(
    before: LsmState,
    old_tables: Seq<TableView>,
    after: LsmState,
    step: Step,
)
    ensures
        crate::lsm::store::goes_on(before, OperationView::Removing(old_tables), after, step)
            && old_tables.len() > 0 ==> after == before && removes_oldest(
            old_tables.take(old_tables.len() - 1),
            step,
        ),
        crate::lsm::store::goes_on(before, OperationView::Over, after, step) ==> after == before
            && is_over(step),
{
    if old_tables.len() > 0 {
        assert(old_tables.drop_last() =~= old_tables.take(old_tables.len() - 1));
    }
}

/// Opening takes the tables from their files, newest first, and then what the log
/// holds. If a table cannot be read or the log is corrupt, that is the outcome, the
/// tables' fault first. Nothing is counted yet.
pub proof fn opening_reads_tables_and_then_the_log(
    files: Seq<FileView>,
    wal: Seq<u8>,
    options: LsmOptions,
    tables: Seq<TableView>,
    x: TableView,
)
    requires
        crate::lsm::tree::tables_in(files) == Ok::<Seq<TableView>, LsmError>(tables) ==> ids_differ(
            tables,
        ),
    ensures
        crate::lsm::tree::tables_in(files) matches Err(error) ==> LsmState::opened(
            files,
            wal,
            options,
        ) == Err::<(LsmState, Option<int>), LsmError>(error),
        crate::lsm::tree::tables_in(files) is Ok ==> {
            &&& crate::lsm::wal::wal_in(wal) matches Err(error) ==> LsmState::opened(
                files,
                wal,
                options,
            ) == Err::<(LsmState, Option<int>), LsmError>(error)
            &&& crate::lsm::wal::wal_in(wal) matches Ok((frames, torn)) ==> {
                &&& LsmState::opened(files, wal, options) matches Ok((state, cut))
                &&& cut == torn
                &&& state.options == options
                &&& state.disk_reads == 0
                &&& state.compactions == 0
                &&& exists|start: LsmState|
                    {
                        &&& state == #[trigger] start.replayed(frames)
                        &&& start.memtable == MemtableView::empty()
                        &&& start.memtable_bytes == 0
                        &&& is_highest_index(start.last_applied, start.tables)
                    }
                &&& crate::lsm::tree::tables_in(files)->Ok_0 == tables ==> {
                    &&& newest_come_first(state.tables)
                    &&& state.tables.contains(x) <==> tables.contains(x)
                    &&& frames.len() == 0 ==> {
                        &&& state.memtable == MemtableView::empty()
                        &&& state.memtable_bytes == 0
                        &&& is_highest_index(state.last_applied, state.tables)
                    }
                }
            }
        },
{
    if crate::lsm::tree::tables_in(files) is Ok {
        let tables = crate::lsm::tree::tables_in(files)->Ok_0;
        let sorted = crate::lsm::tree::newest_first(tables);
        let start = LsmState::over(sorted, options);
        match crate::lsm::wal::wal_in(wal) {
            Ok((frames, torn)) => {
                replaying_keeps(start, frames);
                highest_index_is_highest(sorted);
                assert(is_highest_index(start.last_applied, start.tables));
                assert(LsmState::opened(files, wal, options)->Ok_0.0 == start.replayed(frames));
                if ids_differ(tables) {
                    crate::lsm::tree_laws::sorting_keeps(tables);
                    assert(sorted.contains(x) == tables.contains(x));
                }
            },
            Err(_) => {},
        }
    }
}

proof fn replaying_keeps(state: LsmState, frames: Seq<WalFrameView>)
    ensures
        ({
            let after = state.replayed(frames);
            &&& after.tables == state.tables
            &&& after.options == state.options
            &&& after.disk_reads == state.disk_reads
            &&& after.compactions == state.compactions
        }),
    decreases frames.len(),
{
    if frames.len() > 0 {
        replaying_keeps(state, frames.drop_last());
    }
}

/// The log is taken frame by frame: one that the tree accounts for already is left
/// out, any other is taken in as when its command was applied.
pub proof fn logged_frames_are_taken_in_order(
    state: LsmState,
    frames: Seq<WalFrameView>,
    frame: WalFrameView,
)
    ensures
        state.replayed(Seq::empty()) == state,
        frame.0 <= state.replayed(frames).last_applied ==> state.replayed(frames.push(frame))
            == state.replayed(frames),
        frame.0 > state.replayed(frames).last_applied ==> takes_in(
            state.replayed(frames),
            frame,
            state.replayed(frames.push(frame)),
        ),
{
    assert(frames.push(frame).drop_last() =~= frames);
}

/// Every file is a table with the file's id and footer; the first that cannot be
/// read is the outcome.
pub proof fn files_are_tables(files: Seq<FileView>, file: FileView)
    ensures
        crate::lsm::tree::tables_in(Seq::empty()) == Ok::<Seq<TableView>, LsmError>(Seq::empty()),
        crate::lsm::tree::tables_in(files) matches Err(error) ==> crate::lsm::tree::tables_in(
            files.push(file),
        ) == Err::<Seq<TableView>, LsmError>(error),
        crate::lsm::tree::tables_in(files) matches Ok(tables) ==> {
            &&& crate::lsm::table::footer_in(file.1) matches Ok(footer)
                ==> crate::lsm::tree::tables_in(files.push(file)) == Ok::<
                Seq<TableView>,
                LsmError,
            >(tables.push((file.0, footer)))
            &&& crate::lsm::table::footer_in(file.1) matches Err(error)
                ==> crate::lsm::tree::tables_in(files.push(file)) == Err::<
                Seq<TableView>,
                LsmError,
            >(error)
        },
{
    assert(files.push(file).drop_last() =~= files);
}

/// A file shorter than sixteen bytes is too small for a table; one that does not end
/// with the letters of the format is none; its footer stands before the last sixteen
/// bytes, in the length that the first eight of these give.
pub proof fn tables_end_with_their_footer(bytes: Seq<u8>, len: int)
    requires
        bytes.len() >= 16 ==> len == crate::bytes::be_value(
            bytes.subrange(bytes.len() - 16, bytes.len() - 8),
        ),
    ensures
        bytes.len() < 16 ==> crate::lsm::table::footer_in(bytes) == Err::<FooterView, LsmError>(
            LsmError::TableTooSmall,
        ),
        bytes.len() < 16 ==> crate::lsm::table::entries_in(bytes) == Err::<
            Seq<DataEntryView>,
            LsmError,
        >(LsmError::TableTooSmall),
        bytes.len() >= 16 ==> ({
            let n = bytes.len();
            let named = bytes[n - 8] == 'R' as u8 && bytes[n - 7] == 'K' as u8 && bytes[n - 6]
                == 'V' as u8 && bytes[n - 5] == 'S' as u8 && bytes[n - 4] == 'S' as u8 && bytes[n
                - 3] == 'T' as u8 && bytes[n - 2] == '0' as u8 && bytes[n - 1] == '1' as u8;
            let footer = crate::lsm::codec::footer_meaning(bytes.subrange(n - 16 - len, n - 16));
            &&& !named ==> crate::lsm::table::footer_in(bytes) == Err::<FooterView, LsmError>(
                LsmError::BadMagic,
            )
            &&& named && footer is None ==> crate::lsm::table::footer_in(bytes) == Err::<
                FooterView,
                LsmError,
            >(LsmError::CorruptFooter)
            &&& named && footer is Some ==> crate::lsm::table::footer_in(bytes) == Ok::<
                FooterView,
                LsmError,
            >(footer->Some_0)
        }),
{
    if bytes.len() >= 16 {
        let n = bytes.len();
        let tail = bytes.skip(n - 8);
        let magic = crate::lsm::table::magic();
        assert(tail[0] == bytes[n - 8] && tail[1] == bytes[n - 7] && tail[2] == bytes[n - 6]
            && tail[3] == bytes[n - 5] && tail[4] == bytes[n - 4] && tail[5] == bytes[n - 3]
            && tail[6] == bytes[n - 2] && tail[7] == bytes[n - 1]);
        if bytes[n - 8] == 82 && bytes[n - 7] == 75 && bytes[n - 6] == 86 && bytes[n - 5] == 83
            && bytes[n - 4] == 83 && bytes[n - 3] == 84 && bytes[n - 2] == 48 && bytes[n - 1]
            == 49 {
            assert(tail =~= magic);
        }
    }
}

/// What stands at a place of a table: the length of an entry in four bytes, and the
/// entry, and then the next one. A length without its entry is torn, and an entry that
/// means nothing is corrupt.
pub open spec fn entry_stands(bytes: Seq<u8>, at: int, entry: DataEntryView, next: int) -> bool {
    &&& at + 4 <= next <= bytes.len()
    &&& next - at - 4 == bytes[at] * 0x100_0000 + bytes[at + 1] * 0x1_0000 + bytes[at + 2] * 0x100
        + bytes[at + 3]
    &&& crate::lsm::codec::entry_meaning(bytes.subrange(at + 4, next)) == Some(entry)
}

/// No whole entry stands at a place, for this reason.
pub open spec fn entry_is_damaged(bytes: Seq<u8>, at: int, error: LsmError) -> bool {
    let next = at + 4 + bytes[at] * 0x100_0000 + bytes[at + 1] * 0x1_0000 + bytes[at + 2] * 0x100
        + bytes[at + 3];
    if at + 4 > bytes.len() || next > bytes.len() {
        error == LsmError::TornFrame
    } else {
        error == LsmError::CorruptFrame && crate::lsm::codec::entry_meaning(
            bytes.subrange(at + 4, next),
        ) is None
    }
}

/// The entries of a table are read one behind the other up to its data's end, and a
/// damaged one is the outcome. A search for a key goes on past the keys before it and
/// ends at the first that is not: with what stands there if that is the key, with
/// nothing if it is not.
pub proof fn entries_are_read_one_behind_the_other(
    bytes: Seq<u8>,
    at: int,
    end: int,
    entry: DataEntryView,
    next: int,
    error: LsmError,
    key: Seq<char>,
)
    requires
        0 <= at < bytes.len() <= usize::MAX,
        at < end,
    ensures
        crate::lsm::table::entries_from(bytes, end, end) == Ok::<Seq<DataEntryView>, LsmError>(
            Seq::empty(),
        ),
        crate::lsm::table::lookup_from(bytes, end, end, key) == Ok::<
            Option<Option<Seq<char>>>,
            LsmError,
        >(None),
        entry_stands(bytes, at, entry, next) ==> {
            &&& crate::lsm::table::entries_from(bytes, at, end)
                == match crate::lsm::table::entries_from(bytes, next, end) {
                Ok(rest) => Ok(seq![entry] + rest),
                Err(error) => Err(error),
            }
            &&& crate::lsm::table::lookup_from(bytes, at, end, key) == if crate::text::text_before(
                entry.1.0,
                key,
            ) {
                crate::lsm::table::lookup_from(bytes, next, end, key)
            } else if entry.1.0 == key {
                Ok(Some(entry.1.1))
            } else {
                Ok(None)
            }
        },
        entry_is_damaged(bytes, at, error) ==> {
            &&& crate::lsm::table::entries_from(bytes, at, end) == Err::<
                Seq<DataEntryView>,
                LsmError,
            >(error)
            &&& crate::lsm::table::lookup_from(bytes, at, end, key) == Err::<
                Option<Option<Seq<char>>>,
                LsmError,
            >(error)
        },
{
    if at + 4 <= bytes.len() {
        let head = bytes.subrange(at, at + 4);
        reveal_with_fuel(crate::bytes::be_value, 5);
        assert(head.drop_last().drop_last().drop_last().drop_last() =~= Seq::empty());
    }
}

/// The data of a table ends where its footer begins, and is read from the start; a
/// search begins at the last place of the index whose key is not after the one looked
/// for, or at the first.
pub proof fn tables_are_searched_from_the_nearest_place(
    bytes: Seq<u8>,
    index: Seq<(Seq<char>, u64)>,
    key: Seq<char>,
    slot: int,
)
    requires
        bytes.len() >= 16,
        0 <= slot < index.len(),
        forall|i: int| 0 < i <= slot ==> !crate::text::text_before(key, (#[trigger] index[i]).0),
        slot > 0 ==> !crate::text::text_before(key, index[0].0),
        slot + 1 < index.len() ==> crate::text::text_before(key, index[slot + 1].0),
    ensures
        ({
            let end = bytes.len() - 16 - crate::bytes::be_value(
                bytes.subrange(bytes.len() - 16, bytes.len() - 8),
            );
            &&& crate::lsm::table::entries_in(bytes) == crate::lsm::table::entries_from(
                bytes,
                0,
                end,
            )
            &&& crate::lsm::table::lookup_in(index, bytes, key)
                == crate::lsm::table::lookup_from(bytes, index[slot].1 as int, end, key)
        }),
{
    keys_are_counted(index, key, slot);
}

proof fn keys_are_counted(index: Seq<(Seq<char>, u64)>, key: Seq<char>, slot: int)
    requires
        0 <= slot < index.len(),
        forall|i: int| 0 < i <= slot ==> !crate::text::text_before(key, (#[trigger] index[i]).0),
        slot > 0 ==> !crate::text::text_before(key, index[0].0),
        slot + 1 < index.len() ==> crate::text::text_before(key, index[slot + 1].0),
    ensures
        crate::lsm::table::keys_up_to(index, key) == if crate::text::text_before(key, index[0].0) {
            0
        } else {
            (slot + 1) as nat
        },
    decreases slot,
{
    reveal_with_fuel(crate::lsm::table::keys_up_to, 2);
    let rest = index.drop_first();
    if slot + 1 < index.len() {
        assert(rest[slot] == index[slot + 1]);
    }
    if !crate::text::text_before(key, index[0].0) {
        if slot > 0 {
            assert(rest[0] == index[1]);
            assert(!crate::text::text_before(key, index[1].0));
            assert forall|i: int| 0 < i <= slot - 1 implies !crate::text::text_before(
                key,
                (#[trigger] rest[i]).0,
            ) by {
                assert(rest[i] == index[i + 1]);
            }
            keys_are_counted(rest, key, slot - 1);
        } else if rest.len() > 0 {
            assert(rest[0] == index[1]);
        }
    }
}

/// The index of a table names every sixteenth of its entries.
pub proof fn every_sixteenth_entry_is_indexed(
    bytes: Seq<u8>,
    entries: Seq<DataEntryView>,
    footer: FooterView,
    i: int,
)
    requires
        crate::lsm::table::holds(bytes, entries, footer),
    ensures
        footer.0.len() * 16 >= entries.len(),
        footer.0.len() * 16 < entries.len() + 16,
        0 <= i < footer.0.len() ==> footer.0[i].0 == entries[16 * i].1.0,
{
}

/// A read looks for a key in memory; only if it is not there, in the tables from the
/// first on.
pub proof fn memory_is_read_first(state: LsmState, images: Seq<Seq<u8>>, key: Seq<char>)
    ensures
        state.memtable.contains_key(key) ==> {
            &&& crate::lsm::tree_laws::read(state, images, key) == Ok::<
                Option<Option<Seq<char>>>,
                LsmError,
            >(Some(state.memtable[key].0))
            &&& crate::lsm::tree_laws::reads(state, images, key) == 0
        },
        !state.memtable.contains_key(key) ==> {
            &&& crate::lsm::tree_laws::read(state, images, key) == crate::lsm::tree_laws::search(
                state.tables,
                images,
                key,
                0,
            )
            &&& crate::lsm::tree_laws::reads(state, images, key)
                == crate::lsm::tree_laws::lookups(state.tables, images, key, 0)
        },
{
}

proof fn probe_skips(tables: Seq<TableView>, key: Seq<char>, from: int)
    requires
        0 <= from < tables.len(),
    ensures
        !crate::lsm::bloom::may_hold(tables[from].1.1, key) ==> crate::lsm::tree::probe(
            tables,
            key,
            from,
        ) == crate::lsm::tree::probe(tables, key, from + 1),
        crate::lsm::tree::probe(tables, key, from + 1) matches Some(place) ==> from < place
            < tables.len(),
    decreases tables.len() - from,
{
    if from + 1 < tables.len() {
        probe_skips(tables, key, from + 1);
    }
}

/// A table whose filter denies a key is not read. One that is read counts, and what it
/// says of the key, a value or a deletion, is the outcome; only if it says nothing is
/// the next table asked. Without a table left nothing is found.
pub proof fn tables_are_asked_in_order(
    tables: Seq<TableView>,
    images: Seq<Seq<u8>>,
    key: Seq<char>,
    from: int,
)
    requires
        0 <= from,
    ensures
        from >= tables.len() ==> crate::lsm::tree_laws::search(tables, images, key, from) == Ok::<
            Option<Option<Seq<char>>>,
            LsmError,
        >(None) && crate::lsm::tree_laws::lookups(tables, images, key, from) == 0,
        from < tables.len() && !crate::lsm::bloom::may_hold(tables[from].1.1, key) ==> {
            &&& crate::lsm::tree_laws::search(tables, images, key, from)
                == crate::lsm::tree_laws::search(tables, images, key, from + 1)
            &&& crate::lsm::tree_laws::lookups(tables, images, key, from)
                == crate::lsm::tree_laws::lookups(tables, images, key, from + 1)
        },
        from < tables.len() && crate::lsm::bloom::may_hold(tables[from].1.1, key) ==> ({
            let said = crate::lsm::table::lookup_in(tables[from].1.0, images[from], key);
            let nothing = said matches Ok(found) && found is None;
            &&& !nothing ==> {
                &&& crate::lsm::tree_laws::search(tables, images, key, from) == said
                &&& crate::lsm::tree_laws::lookups(tables, images, key, from) == 1
            }
            &&& nothing ==> {
                &&& crate::lsm::tree_laws::search(tables, images, key, from)
                    == crate::lsm::tree_laws::search(tables, images, key, from + 1)
                &&& crate::lsm::tree_laws::lookups(tables, images, key, from) == 1
                    + crate::lsm::tree_laws::lookups(tables, images, key, from + 1)
            }
        }),
{
    if from < tables.len() {
        probe_skips(tables, key, from);
    }
}

/// A filter has ten bits for each of its keys, and ten for none. A key has seven bits
/// in it; the filter may hold a key exactly if they are all set, and holds no others
/// than those of its keys.
pub proof fn filters_have_seven_bits_for_a_key(
    filter: BloomView,
    keys: Seq<Seq<char>>,
    key: Seq<char>,
)
    ensures
        crate::lsm::bloom::may_hold(filter, key) <==> forall|i: int|
            0 <= i < 7 ==> crate::lsm::bloom::has_bit(
                filter.0,
                #[trigger] crate::lsm::bloom::bit_position(key, i, filter.1),
            ),
        crate::lsm::bloom::filter_of(filter, keys) ==> {
            &&& keys.len() == 0 ==> filter.1 == 10
            &&& keys.len() > 0 ==> filter.1 == 10 * keys.len()
            &&& filter.0.len() * 8 >= filter.1
            &&& filter.0.len() * 8 < filter.1 + 8
            &&& keys.contains(key) ==> crate::lsm::bloom::may_hold(filter, key)
            &&& keys.len() == 0 ==> !crate::lsm::bloom::may_hold(filter, key)
            &&& forall|position: int|
                0 <= position < filter.0.len() * 8 && #[trigger] crate::lsm::bloom::has_bit(
                    filter.0,
                    position,
                ) ==> exists|k: int, i: int|
                    0 <= k < keys.len() && 0 <= i < 7 && position
                        == #[trigger] crate::lsm::bloom::bit_position(keys[k], i, filter.1)
        },
{
    if crate::lsm::bloom::filter_of(filter, keys) {
        if keys.contains(key) {
            crate::lsm::bloom::no_false_negatives(filter, keys, key);
        }
        if keys.len() == 0 {
            let position = crate::lsm::bloom::bit_position(key, 0, filter.1);
            assert(0 <= position < filter.1);
            assert(!crate::lsm::bloom::has_bit(filter.0, position));
        }
    }
}

/// The bits of a key lie within the filter, a hash apart from each other; the hashes
/// take byte after byte.
pub proof fn bits_are_a_hash_apart(key: Seq<char>, i: int, bits: usize, bytes: Seq<u8>, byte: u8, seed: u64)
    requires
        bits > 0,
    ensures
        0 <= crate::lsm::bloom::bit_position(key, i, bits) < bits,
        crate::lsm::bloom::hash_of(Seq::empty(), seed) == seed,
        crate::lsm::bloom::hash_of(bytes.push(byte), seed) == (crate::lsm::bloom::hash_of(
            bytes,
            seed,
        ) ^ byte as u64).wrapping_mul(0x100_0000_01b3),
        crate::lsm::bloom::first_hash(key) == crate::lsm::bloom::hash_of(
            vstd::utf8::encode_utf8(key),
            0xcbf2_9ce4_8422_2325,
        ),
        crate::lsm::bloom::second_hash(key) == crate::lsm::bloom::hash_of(
            vstd::utf8::encode_utf8(key),
            0x9e37_79b9_7f4a_7c15,
        ) | 1,
        0 <= i < 7 ==> crate::lsm::bloom::bit_position(key, i, bits)
            == crate::lsm::bloom::first_hash(key).wrapping_add(
            (i as u64).wrapping_mul(crate::lsm::bloom::second_hash(key)),
        ) as usize as int % bits as int,
{
    assert(bytes.push(byte).drop_last() =~= bytes);
}

/// A log whose frames can all be read is read as those frames; one with a whole frame
/// whose payload means nothing is corrupt; a rest that is no whole frame is left out,
/// and the log is to be cut there.
pub proof fn logs_are_read_frame_by_frame(bytes: Seq<u8>, at: int)
    requires
        0 <= at <= bytes.len() <= usize::MAX,
    ensures
        at == bytes.len() ==> crate::lsm::wal::wal_from(bytes, at) == Ok::<
            (Seq<WalFrameView>, Option<int>),
            LsmError,
        >((Seq::empty(), None)),
        at < bytes.len() < at + 4 ==> crate::lsm::wal::wal_from(bytes, at) == Ok::<
            (Seq<WalFrameView>, Option<int>),
            LsmError,
        >((Seq::empty(), Some(at))),
        at + 4 <= bytes.len() ==> ({
            let len = bytes[at] * 0x100_0000 + bytes[at + 1] * 0x1_0000 + bytes[at + 2] * 0x100
                + bytes[at + 3];
            let end = at + 4 + len;
            let meaning = crate::lsm::codec::wal_meaning(bytes.subrange(at + 4, end));
            &&& end > bytes.len() ==> crate::lsm::wal::wal_from(bytes, at) == Ok::<
                (Seq<WalFrameView>, Option<int>),
                LsmError,
            >((Seq::empty(), Some(at)))
            &&& end <= bytes.len() && meaning is None ==> crate::lsm::wal::wal_from(bytes, at)
                == Err::<(Seq<WalFrameView>, Option<int>), LsmError>(LsmError::CorruptFrame)
            &&& end <= bytes.len() && meaning is Some ==> crate::lsm::wal::wal_from(bytes, at)
                == match crate::lsm::wal::wal_from(bytes, end) {
                Ok((rest, torn)) => Ok((seq![meaning->Some_0] + rest, torn)),
                Err(error) => Err(error),
            }
        }),
        crate::lsm::wal::wal_in(bytes) == crate::lsm::wal::wal_from(bytes, 0),
{
    if at + 4 <= bytes.len() {
        let head = bytes.subrange(at, at + 4);
        reveal_with_fuel(crate::bytes::be_value, 5);
        assert(head.drop_last().drop_last().drop_last().drop_last() =~= Seq::empty());
    }
}

/// Where no options are given, a mebibyte is kept in memory, and four tables are
/// compacted.
pub proof fn a_mebibyte_is_kept_in_memory()
    ensures
        LsmOptions::standard().memtable_bytes == 1024 * 1024,
        LsmOptions::standard().compaction_threshold == 4,
{
}

/// Table files are named `sst-`, twenty digits and `.sst`; while a table is written,
/// its file is named otherwise and not taken for one.
pub proof fn tables_are_found_by_their_names(id: u64, name: Seq<char>)
    ensures
        crate::lsm::files::id_in(crate::lsm::files::table_name(id)) == Some(id as nat),
        crate::lsm::files::id_in(crate::lsm::files::draft_name(id)) is None,
        crate::lsm::files::id_in(name) is Some ==> name.len() >= 8 && name.take(4) == "sst-"@
            && name.skip(name.len() - 4) == ".sst"@,
        name.len() >= 8 && name.take(4) == "sst-"@ && name.skip(name.len() - 4) == ".sst"@
            ==> crate::lsm::files::id_in(name) == crate::numbers::number_in(
            name.subrange(4, name.len() - 4),
            0xffff_ffff_ffff_ffff,
        ),
{
    crate::lsm::files::id_is_read_back(id);
    crate::lsm::files::drafts_are_no_tables(id);
}

/// A key that is added to a filter sets its seven bits and no others; none is cleared.
pub proof fn adding_a_key_sets_its_bits(
    before: BloomView,
    key: Seq<char>,
    after: BloomView,
    position: int,
)
    requires
        crate::lsm::bloom::adds_key(before, key, after),
        0 <= position < before.0.len() * 8,
    ensures
        after.1 == before.1,
        after.0.len() == before.0.len(),
        crate::lsm::bloom::has_bit(before.0, position) ==> crate::lsm::bloom::has_bit(
            after.0,
            position,
        ),
        !crate::lsm::bloom::has_bit(before.0, position) ==> (crate::lsm::bloom::has_bit(
            after.0,
            position,
        ) <==> exists|i: int|
            0 <= i < 7 && position == #[trigger] crate::lsm::bloom::bit_position(key, i, before.1)),
        crate::lsm::bloom::has_bit(before.0, position) <==> before.0[position / 8] & (1u8 << (
        position % 8) as u8) != 0,
{
}

/// A table can be read if its footer lies within its bytes, and a filter if it has a
/// byte for every eight of its bits.
pub proof fn footers_lie_within_their_tables(bytes: Seq<u8>, filter: BloomView)
    ensures
        crate::lsm::table::trailer_is_sane(bytes) <==> bytes.len() < 16 || crate::bytes::be_value(
            bytes.subrange(bytes.len() - 16, bytes.len() - 8),
        ) + 16 <= bytes.len(),
        crate::lsm::bloom::sound(filter) <==> filter.1 > 0 && filter.0.len() * 8 >= filter.1,
{
}

/// A read finds the value that was written last under its key, and nothing where that
/// was a deletion or nothing was written; a table that cannot be read is the outcome.
/// The tables that it read are counted, and nothing else changes.
pub proof fn reads_find_what_was_written_last(
    state: LsmState,
    images: Seq<Seq<u8>>,
    key: Seq<char>,
)
    ensures
        ({
            let (after, found) = crate::lsm::store::gets(state, images, key);
            let count = state.disk_reads + crate::lsm::tree_laws::lookups(
                state.tables,
                images,
                key,
                0,
            );
            let on_disk = crate::lsm::tree_laws::search(state.tables, images, key, 0);
            &&& after == (LsmState { disk_reads: after.disk_reads, ..state })
            &&& state.memtable.contains_key(key) ==> {
                &&& after.disk_reads == state.disk_reads
                &&& found == Ok::<Option<Seq<char>>, LsmError>(state.memtable[key].0)
            }
            &&& !state.memtable.contains_key(key) ==> {
                &&& after.disk_reads == if count <= usize::MAX {
                    count
                } else {
                    usize::MAX as int
                }
                &&& on_disk matches Err(error) ==> found == Err::<Option<Seq<char>>, LsmError>(
                    error,
                )
                &&& on_disk matches Ok(None) ==> found == Ok::<Option<Seq<char>>, LsmError>(None)
                &&& on_disk matches Ok(Some(value)) ==> found == Ok::<
                    Option<Seq<char>>,
                    LsmError,
                >(value)
            }
        }),
{
}

} // verus!
