//! What a tree promises: what is written is read back, a flush and a compaction
//! change no value, and neither does a restart at any moment.
use crate::lsm::record::{DataEntryView, LsmError, WalFrameView};
use crate::lsm::tree::{FileView, LsmOptions, LsmState, MemtableView, TableView};
use crate::types::{Command, LogIndex};
use vstd::prelude::*;

verus! {

/// What tables' entries, newest first, say of a key: nothing, a deletion or a
/// value.
pub open spec fn found_in(data: Seq<Seq<DataEntryView>>, key: Seq<char>) -> Option<
    Option<Seq<char>>,
>
    decreases data.len(),
{
    if data.len() == 0 {
        None
    } else {
        match crate::lsm::table_laws::find(data[0], key) {
            Some(value) => Some(value),
            None => found_in(data.drop_first(), key),
        }
    }
}

/// What a memtable over tables' entries says of a key.
pub open spec fn content(
    memtable: MemtableView,
    data: Seq<Seq<DataEntryView>>,
    key: Seq<char>,
) -> Option<Option<Seq<char>>> {
    if memtable.contains_key(key) {
        Some(memtable[key].0)
    } else {
        found_in(data, key)
    }
}

/// The value under a key: a deletion counts as none.
pub open spec fn value_of(found: Option<Option<Seq<char>>>) -> Option<Seq<char>> {
    match found {
        Some(value) => value,
        None => None,
    }
}

/// The value that a memtable over tables' entries has under a key.
pub open spec fn value(
    memtable: MemtableView,
    data: Seq<Seq<DataEntryView>>,
    key: Seq<char>,
) -> Option<Seq<char>> {
    value_of(content(memtable, data, key))
}

/// The images hold the data that the tables speak of.
pub open spec fn backed(
    tables: Seq<TableView>,
    images: Seq<Seq<u8>>,
    data: Seq<Seq<DataEntryView>>,
) -> bool {
    &&& tables.len() == images.len() == data.len()
    &&& forall|i: int|
        0 <= i < tables.len() ==> crate::lsm::table::holds(
            images[i],
            data[i],
            (#[trigger] tables[i]).1,
        ) && crate::lsm::table::by_key(data[i])
}

/// The outcome of a read that goes through the tables from a place on.
pub open spec fn search(
    tables: Seq<TableView>,
    images: Seq<Seq<u8>>,
    key: Seq<char>,
    from: int,
) -> Result<Option<Option<Seq<char>>>, LsmError>
    decreases tables.len() - from,
    when 0 <= from
{
    match crate::lsm::tree::probe(tables, key, from) {
        Some(place) => if from <= place < tables.len() {
            match crate::lsm::table::lookup_in(tables[place].1.0, images[place], key) {
                Ok(Some(value)) => Ok(Some(value)),
                Ok(None) => search(tables, images, key, place + 1),
                Err(error) => Err(error),
            }
        } else {
            Ok(None)
        },
        None => Ok(None),
    }
}

/// How many tables a read looks into that goes through them from a place on.
pub open spec fn lookups(
    tables: Seq<TableView>,
    images: Seq<Seq<u8>>,
    key: Seq<char>,
    from: int,
) -> nat
    decreases tables.len() - from, 0int,
    when 0 <= from
{
    match crate::lsm::tree::probe(tables, key, from) {
        Some(place) => if from <= place < tables.len() {
            1 + further_lookups(tables, images, key, place)
        } else {
            0
        },
        None => 0,
    }
}

/// How many tables a read looks into after that in a place.
pub open spec fn further_lookups(
    tables: Seq<TableView>,
    images: Seq<Seq<u8>>,
    key: Seq<char>,
    place: int,
) -> nat
    decreases tables.len() - place - 1, 1int,
    when 0 <= place
{
    match crate::lsm::table::lookup_in(tables[place].1.0, images[place], key) {
        Ok(None) => lookups(tables, images, key, place + 1),
        _ => 0,
    }
}

/// How many tables a read looks into.
pub open spec fn reads(state: LsmState, images: Seq<Seq<u8>>, key: Seq<char>) -> nat {
    if state.memtable.contains_key(key) {
        0
    } else {
        lookups(state.tables, images, key, 0)
    }
}

/// The outcome of a read.
pub open spec fn read(state: LsmState, images: Seq<Seq<u8>>, key: Seq<char>) -> Result<
    Option<Option<Seq<char>>>,
    LsmError,
> {
    if state.memtable.contains_key(key) {
        Ok(Some(state.memtable[key].0))
    } else {
        search(state.tables, images, key, 0)
    }
}

proof fn probe_bounds(tables: Seq<TableView>, key: Seq<char>, from: int)
    requires
        0 <= from,
    ensures
        match crate::lsm::tree::probe(tables, key, from) {
            Some(place) => from <= place < tables.len() && forall|i: int|
                from <= i < place ==> !crate::lsm::bloom::may_hold((#[trigger] tables[i]).1.1, key),
            None => forall|i: int|
                from <= i < tables.len() ==> !crate::lsm::bloom::may_hold(
                    (#[trigger] tables[i]).1.1,
                    key,
                ),
        },
    decreases tables.len() - from,
{
    if from < tables.len() && !crate::lsm::bloom::may_hold(tables[from].1.1, key) {
        probe_bounds(tables, key, from + 1);
    }
}

/// Tables before a place that say nothing of a key can be left out.
proof fn silent_tables(data: Seq<Seq<DataEntryView>>, key: Seq<char>, from: int, to: int)
    requires
        0 <= from <= to <= data.len(),
        forall|i: int|
            from <= i < to ==> crate::lsm::table_laws::find(#[trigger] data[i], key) is None,
    ensures
        found_in(data.skip(from), key) == found_in(data.skip(to), key),
    decreases to - from,
{
    if from < to {
        assert(data.skip(from)[0] == data[from]);
        assert(data.skip(from).drop_first() =~= data.skip(from + 1));
        silent_tables(data, key, from + 1, to);
    }
}

proof fn search_finds(
    tables: Seq<TableView>,
    images: Seq<Seq<u8>>,
    data: Seq<Seq<DataEntryView>>,
    key: Seq<char>,
    from: int,
)
    requires
        backed(tables, images, data),
        0 <= from <= tables.len(),
    ensures
        search(tables, images, key, from) == Ok::<Option<Option<Seq<char>>>, LsmError>(
            found_in(data.skip(from), key),
        ),
    decreases tables.len() - from,
{
    probe_bounds(tables, key, from);
    let place = crate::lsm::tree::probe(tables, key, from);
    let to = match place {
        Some(place) => place,
        None => tables.len() as int,
    };
    assert forall|i: int| from <= i < to implies crate::lsm::table_laws::find(
        #[trigger] data[i],
        key,
    ) is None by {
        let table = tables[i];
        if crate::lsm::table_laws::find(data[i], key) is Some {
            crate::lsm::table_laws::filter_admits(images[i], data[i], table.1, key);
        }
    }
    silent_tables(data, key, from, to);
    match place {
        Some(place) => {
            let table = tables[place];
            crate::lsm::table_laws::key_is_found(images[place], data[place], table.1, key);
            assert(data.skip(place)[0] == data[place]);
            assert(data.skip(place).drop_first() =~= data.skip(place + 1));
            search_finds(tables, images, data, key, place + 1);
        },
        None => {
            assert(data.skip(to) =~= Seq::empty());
        },
    }
}

/// A read gives what was stored last under the key.
pub proof fn read_gives_content(
    state: LsmState,
    images: Seq<Seq<u8>>,
    data: Seq<Seq<DataEntryView>>,
    key: Seq<char>,
)
    requires
        backed(state.tables, images, data),
    ensures
        state.filters_are_sound(),
        read(state, images, key) == Ok::<Option<Option<Seq<char>>>, LsmError>(
            content(state.memtable, data, key),
        ),
{
    search_finds(state.tables, images, data, key, 0);
    assert(data.skip(0) =~= data);
}

/// Recording a command has the effect on the stored values that the command has
/// on any key-value machine.
pub proof fn recorded_is_written(
    state: LsmState,
    data: Seq<Seq<DataEntryView>>,
    index: LogIndex,
    command: Command,
    key: Seq<char>,
)
    ensures
        ({
            let after = state.recorded((index, crate::lsm::record::stored_by(command)));
            value(after.memtable, data, key) == match command {
                Command::Put { key: named, value: put } if named@ == key => Some(put@),
                Command::Delete { key: named } if named@ == key => None,
                _ => value(state.memtable, data, key),
            }
        }),
{
}

/// A flush changes no value.
pub proof fn flush_keeps_values(
    memtable: MemtableView,
    entries: Seq<DataEntryView>,
    data: Seq<Seq<DataEntryView>>,
    key: Seq<char>,
)
    requires
        crate::lsm::tree::lists(entries, memtable),
    ensures
        content(MemtableView::empty(), seq![entries] + data, key) == content(memtable, data, key),
{
    let all = seq![entries] + data;
    assert(all[0] == entries);
    assert(all.drop_first() =~= data);
    if memtable.contains_key(key) {
        let i = choose|i: int| 0 <= i < entries.len() && #[trigger] entries[i].1.0 == key;
        crate::lsm::table_laws::find_at(entries, i);
    } else {
        assert(crate::lsm::table_laws::find(entries, key) is None);
    }
}

/// The entries of tables, one table behind the other.
pub open spec fn flattened(data: Seq<Seq<DataEntryView>>) -> Seq<DataEntryView>
    decreases data.len(),
{
    if data.len() == 0 {
        Seq::empty()
    } else {
        flattened(data.drop_last()) + data.last()
    }
}

/// All entries of the tables are read back.
pub proof fn all_entries_are_read_back(
    tables: Seq<TableView>,
    images: Seq<Seq<u8>>,
    data: Seq<Seq<DataEntryView>>,
)
    requires
        backed(tables, images, data),
    ensures
        crate::lsm::tree::all_entries_in(images) == Ok::<Seq<DataEntryView>, LsmError>(
            flattened(data),
        ),
    decreases data.len(),
{
    if data.len() > 0 {
        let n = data.len() - 1;
        let table = tables[n];
        crate::lsm::table_laws::entries_are_read_back(images[n], data[n], table.1);
        assert(backed(tables.drop_last(), images.drop_last(), data.drop_last())) by {
            assert forall|i: int| 0 <= i < n implies crate::lsm::table::holds(
                images.drop_last()[i],
                data.drop_last()[i],
                (#[trigger] tables.drop_last()[i]).1,
            ) && crate::lsm::table::by_key(data.drop_last()[i]) by {
                let table = tables[i];
            }
        }
        all_entries_are_read_back(tables.drop_last(), images.drop_last(), data.drop_last());
    }
}

/// The first entry of a key in `earlier + entries`.
proof fn firsts_of_sum(earlier: Seq<DataEntryView>, entries: Seq<DataEntryView>, key: Seq<char>)
    requires
        crate::lsm::table::by_key(entries),
    ensures
        ({
            let sum = crate::lsm::tree::firsts(earlier + entries);
            let first = crate::lsm::tree::firsts(earlier);
            if first.contains_key(key) {
                sum.contains_key(key) && sum[key] == first[key]
            } else {
                match crate::lsm::table_laws::find(entries, key) {
                    Some(value) => sum.contains_key(key) && sum[key].1.1 == value && (exists|i: int|
                        0 <= i < entries.len() && sum[key] == #[trigger] entries[i]),
                    None => !sum.contains_key(key),
                }
            }
        }),
    decreases entries.len(),
{
    if entries.len() == 0 {
        assert(earlier + entries =~= earlier);
    } else {
        let less = entries.drop_last();
        let last = entries.last();
        assert((earlier + entries).drop_last() =~= earlier + less);
        assert((earlier + entries).last() == last);
        assert(crate::lsm::table::by_key(less)) by {
            assert forall|i: int, j: int| 0 <= i < j < less.len() implies crate::text::text_before(
                #[trigger] less[i].1.0,
                #[trigger] less[j].1.0,
            ) by {
                assert(entries[i].1.0 == less[i].1.0 && entries[j].1.0 == less[j].1.0);
            }
        }
        firsts_of_sum(earlier, less, key);
        let n = entries.len() - 1;
        crate::text::text_before_irreflexive(key);
        if last.1.0 == key {
            crate::lsm::table_laws::find_at(entries, n);
            if crate::lsm::table_laws::find(less, key) is Some {
                let i = choose|i: int| 0 <= i < less.len() && #[trigger] less[i].1.0 == key;
                assert(crate::text::text_before(entries[i].1.0, entries[n].1.0));
            }
            assert(entries[n] == last);
        } else {
            if crate::lsm::table_laws::find(less, key) is Some {
                let i = choose|i: int| 0 <= i < less.len() && #[trigger] less[i].1.0 == key;
                crate::lsm::table_laws::find_at(less, i);
                crate::lsm::table_laws::find_at(entries, i);
                assert(entries[i] == less[i]);
                let sum = crate::lsm::tree::firsts(earlier + less);
                if !crate::lsm::tree::firsts(earlier).contains_key(key) {
                    let k = choose|k: int| 0 <= k < less.len() && sum[key] == #[trigger] less[k];
                    assert(entries[k] == less[k]);
                }
            } else if crate::lsm::table_laws::find(entries, key) is Some {
                let i = choose|i: int| 0 <= i < entries.len() && #[trigger] entries[i].1.0 == key;
                assert(less[i].1.0 == key);
            }
        }
    }
}

proof fn found_in_push(data: Seq<Seq<DataEntryView>>, entries: Seq<DataEntryView>, key: Seq<char>)
    ensures
        found_in(data.push(entries), key) == match found_in(data, key) {
            Some(value) => Some(value),
            None => crate::lsm::table_laws::find(entries, key),
        },
    decreases data.len(),
{
    let all = data.push(entries);
    if data.len() == 0 {
        assert(all.drop_first() =~= Seq::empty());
    } else {
        assert(all.drop_first() =~= data.drop_first().push(entries));
        found_in_push(data.drop_first(), entries, key);
    }
}

/// The first entry of a key is what the tables say of it.
proof fn firsts_are_found(data: Seq<Seq<DataEntryView>>, key: Seq<char>)
    requires
        forall|i: int| 0 <= i < data.len() ==> crate::lsm::table::by_key(#[trigger] data[i]),
    ensures
        ({
            let first = crate::lsm::tree::firsts(flattened(data));
            found_in(data, key) == if first.contains_key(key) {
                Some(first[key].1.1)
            } else {
                None
            }
        }),
    decreases data.len(),
{
    if data.len() > 0 {
        firsts_are_found(data.drop_last(), key);
        assert(crate::lsm::table::by_key(data[data.len() - 1]));
        firsts_of_sum(flattened(data.drop_last()), data.last(), key);
        found_in_push(data.drop_last(), data.last(), key);
        assert(data.drop_last().push(data.last()) =~= data);
    }
}

/// The tables that a compaction leaves.
pub open spec fn merged_data(merged: Seq<DataEntryView>) -> Seq<Seq<DataEntryView>> {
    if merged.len() == 0 {
        Seq::empty()
    } else {
        seq![merged]
    }
}

/// What the first tables say of a key, all say.
proof fn found_early(data: Seq<Seq<DataEntryView>>, k: int, key: Seq<char>)
    requires
        0 <= k <= data.len(),
    ensures
        found_in(data.take(k), key) is Some ==> found_in(data, key) == found_in(data.take(k), key),
    decreases data.len(),
{
    let some = data.take(k);
    if k > 0 {
        assert(some[0] == data[0]);
        assert(some.drop_first() =~= data.drop_first().take(k - 1));
        found_early(data.drop_first(), k - 1, key);
    }
}

/// A compaction changes no value, however many of the old tables still stand
/// behind its table: all, some of the newest, or none.
pub proof fn compaction_keeps_values(
    memtable: MemtableView,
    data: Seq<Seq<DataEntryView>>,
    merged: Seq<DataEntryView>,
    left: int,
    key: Seq<char>,
)
    requires
        forall|i: int| 0 <= i < data.len() ==> crate::lsm::table::by_key(#[trigger] data[i]),
        crate::lsm::tree::merges(merged, flattened(data)),
        0 <= left <= data.len(),
    ensures
        value(memtable, merged_data(merged) + data.take(left), key) == value(memtable, data, key),
{
    let from = flattened(data);
    let first = crate::lsm::tree::firsts(from);
    firsts_are_found(data, key);
    found_early(data, left, key);
    let both = merged_data(merged) + data.take(left);
    if merged.len() == 0 {
        assert(both =~= data.take(left));
    } else {
        assert(both[0] == merged);
        assert(both.drop_first() =~= data.take(left));
    }
    if crate::lsm::table_laws::find(merged, key) is Some {
        let i = choose|i: int| 0 <= i < merged.len() && #[trigger] merged[i].1.0 == key;
        crate::lsm::table_laws::find_at(merged, i);
        assert(first[merged[i].1.0] == merged[i]);
    } else if first.contains_key(key) && first[key].1.1 is Some {
        let i = choose|i: int| 0 <= i < merged.len() && #[trigger] merged[i].1.0 == key;
        assert(crate::lsm::table_laws::find(merged, key) is Some);
    }
}

/// Behind the first tables the old ones have nothing to say any more: as they go,
/// the last first, no value changes.
pub open spec fn superseded(
    front: Seq<Seq<DataEntryView>>,
    old_data: Seq<Seq<DataEntryView>>,
) -> bool {
    forall|memtable: MemtableView, left: int, key: Seq<char>|
        0 <= left <= old_data.len() ==> #[trigger] value(
            memtable,
            front + old_data.take(left),
            key,
        ) == value(memtable, front + old_data, key)
}

/// Tables are superseded by what they are merged into.
pub proof fn merged_supersedes(data: Seq<Seq<DataEntryView>>, merged: Seq<DataEntryView>)
    requires
        forall|i: int| 0 <= i < data.len() ==> crate::lsm::table::by_key(#[trigger] data[i]),
        crate::lsm::tree::merges(merged, flattened(data)),
    ensures
        superseded(merged_data(merged), data),
{
    assert forall|memtable: MemtableView, left: int, key: Seq<char>|
        0 <= left <= data.len() implies #[trigger] value(
        memtable,
        merged_data(merged) + data.take(left),
        key,
    ) == value(memtable, merged_data(merged) + data, key) by {
        compaction_keeps_values(memtable, data, merged, left, key);
        compaction_keeps_values(memtable, data, merged, data.len() as int, key);
        assert(data.take(data.len() as int) =~= data);
    }
}

/// The memtable that the frames after an index make.
pub open spec fn kept(frames: Seq<WalFrameView>, after: int) -> MemtableView
    decreases frames.len(),
{
    if frames.len() == 0 {
        Map::empty()
    } else {
        let before = kept(frames.drop_last(), after);
        match frames.last().1 {
            Some((key, value)) => if frames.last().0 > after {
                before.insert(key, (value, frames.last().0))
            } else {
                before
            },
            None => before,
        }
    }
}

/// Frames with ascending indexes; one that repeats an index stores nothing.
pub open spec fn ascending(frames: Seq<WalFrameView>) -> bool {
    forall|i: int, j: int|
        0 <= i < j < frames.len() ==> (#[trigger] frames[i]).0 < (#[trigger] frames[j]).0
            || frames[i].0 == frames[j].0 && frames[j].1 is None
}

/// The last index that tables up to an index and the frames of a log account for.
pub open spec fn accounted(frames: Seq<WalFrameView>, tabled: LogIndex) -> LogIndex {
    if frames.len() > 0 && frames.last().0 > tabled {
        frames.last().0
    } else {
        tabled
    }
}

/// Tables with descending ids.
pub open spec fn descending(tables: Seq<TableView>) -> bool {
    forall|i: int, j: int|
        0 <= i < j < tables.len() ==> (#[trigger] tables[i]).0 > (#[trigger] tables[j]).0
}

/// A file holds the image of one of the tables.
pub open spec fn is_file_of(
    file: FileView,
    tables: Seq<TableView>,
    images: Seq<Seq<u8>>,
) -> bool {
    exists|i: int| 0 <= i < tables.len() && file == ((#[trigger] tables[i]).0, images[i])
}

/// The files are those of the tables, each once, in any order.
pub open spec fn files_of(
    files: Seq<FileView>,
    tables: Seq<TableView>,
    images: Seq<Seq<u8>>,
) -> bool {
    &&& files.no_duplicates()
    &&& forall|i: int|
        0 <= i < tables.len() ==> files.contains(((#[trigger] tables[i]).0, images[i]))
    &&& forall|k: int|
        0 <= k < files.len() ==> is_file_of(#[trigger] files[k], tables, images)
}

/// What lies on disk for a tree.
pub struct Disk {
    pub files: Seq<FileView>,
    pub frames: Seq<WalFrameView>,
    pub images: Seq<Seq<u8>>,
    pub data: Seq<Seq<DataEntryView>>,
    /// The memtable is what the frames after this index make.
    pub cut: LogIndex,
}

/// A tree and its disk agree: the files hold the tables, files and log account for
/// all that is applied, the frames after the cut make the memtable, and it is no
/// different to replay earlier ones too.
#[verifier::opaque]
pub open spec fn durable(state: LsmState, disk: Disk) -> bool {
    &&& backed(state.tables, disk.images, disk.data)
    &&& descending(state.tables)
    &&& files_of(disk.files, state.tables, disk.images)
    &&& crate::lsm::wal::storable(disk.frames)
    &&& crate::lsm::wal::wal_of(disk.frames).len() <= usize::MAX
    &&& ascending(disk.frames)
    &&& forall|i: int|
        0 <= i < disk.frames.len() ==> (#[trigger] disk.frames[i]).0 <= state.last_applied
    &&& state.last_applied == accounted(
        disk.frames,
        crate::lsm::tree::highest_index(state.tables),
    )
    &&& crate::lsm::tree::highest_index(state.tables) <= disk.cut <= state.last_applied
    &&& state.memtable == kept(disk.frames, disk.cut as int)
    &&& forall|after: int, key: Seq<char>|
        0 <= after <= disk.cut ==> #[trigger] value(kept(disk.frames, after), disk.data, key) == value(
            state.memtable,
            disk.data,
            key,
        )
}

/// The same tables, in whatever order and number.
pub open spec fn same_tables(a: Seq<TableView>, b: Seq<TableView>) -> bool {
    forall|x: TableView|
        #![trigger a.contains(x)]
        #![trigger b.contains(x)]
        a.contains(x) == b.contains(x)
}

proof fn placed_keeps(tables: Seq<TableView>, table: TableView)
    requires
        descending(tables),
        forall|i: int| 0 <= i < tables.len() ==> (#[trigger] tables[i]).0 != table.0,
    ensures
        descending(crate::lsm::tree::placed(tables, table)),
        same_tables(crate::lsm::tree::placed(tables, table), tables.push(table)),
    decreases tables.len(),
{
    let after = crate::lsm::tree::placed(tables, table);
    if tables.len() == 0 || tables.last().0 >= table.0 {
        assert forall|i: int, j: int| 0 <= i < j < after.len() implies (#[trigger] after[i]).0 > (
        #[trigger] after[j]).0 by {
            if j == tables.len() {
                assert(tables[i].0 >= tables.last().0);
                assert(tables[tables.len() - 1].0 != table.0);
            }
        }
    } else {
        let less = tables.drop_last();
        placed_keeps(less, table);
        let head = crate::lsm::tree::placed(less, table);
        let last = tables.last();
        assert forall|i: int, j: int| 0 <= i < j < after.len() implies (#[trigger] after[i]).0 > (
        #[trigger] after[j]).0 by {
            if j == head.len() {
                assert(head.contains(head[i]));
                assert(less.push(table).contains(head[i]));
                let k = choose|k: int| 0 <= k <= less.len() && less.push(table)[k] == head[i];
                if k < less.len() {
                    assert(tables[k].0 > tables[tables.len() - 1].0);
                }
            }
        }
        assert forall|x: TableView|
            #![trigger after.contains(x)]
            #![trigger tables.push(table).contains(x)]
            after.contains(x) == tables.push(table).contains(x) by {
            if after.contains(x) {
                let i = choose|i: int| 0 <= i < after.len() && after[i] == x;
                if i < head.len() {
                    assert(head.contains(x));
                    assert(less.push(table).contains(x));
                    let k = choose|k: int| 0 <= k <= less.len() && less.push(table)[k] == x;
                    assert(tables.push(table)[if k < less.len() { k } else { k + 1 }] == x);
                } else {
                    assert(tables.push(table)[less.len() as int] == x);
                }
            }
            if tables.push(table).contains(x) {
                let k = choose|k: int| 0 <= k <= tables.len() && tables.push(table)[k] == x;
                if k == less.len() {
                    assert(after[head.len() as int] == x);
                } else {
                    assert(less.push(table)[if k < less.len() { k } else { k - 1 }] == x);
                    assert(less.push(table).contains(x));
                    assert(head.contains(x));
                    let i = choose|i: int| 0 <= i < head.len() && head[i] == x;
                    assert(after[i] == x);
                }
            }
        }
    }
}

pub proof fn sorting_keeps(tables: Seq<TableView>)
    requires
        forall|i: int, j: int|
            0 <= i < j < tables.len() ==> (#[trigger] tables[i]).0 != (#[trigger] tables[j]).0,
    ensures
        descending(crate::lsm::tree::newest_first(tables)),
        same_tables(crate::lsm::tree::newest_first(tables), tables),
    decreases tables.len(),
{
    if tables.len() > 0 {
        let less = tables.drop_last();
        let last = tables.last();
        sorting_keeps(less);
        let sorted = crate::lsm::tree::newest_first(less);
        assert forall|i: int| 0 <= i < sorted.len() implies (#[trigger] sorted[i]).0 != last.0 by {
            assert(sorted.contains(sorted[i]));
            assert(less.contains(sorted[i]));
            let k = choose|k: int| 0 <= k < less.len() && less[k] == sorted[i];
            assert(tables[k].0 != tables[tables.len() - 1].0);
        }
        placed_keeps(sorted, last);
        let after = crate::lsm::tree::newest_first(tables);
        assert forall|x: TableView|
            #![trigger after.contains(x)]
            #![trigger tables.contains(x)]
            after.contains(x) == tables.contains(x) by {
            if after.contains(x) {
                assert(sorted.push(last).contains(x));
                let k = choose|k: int| 0 <= k <= sorted.len() && sorted.push(last)[k] == x;
                if k < sorted.len() {
                    assert(sorted[k] == x);
                    assert(sorted.contains(x));
                    assert(less.contains(x));
                    let i = choose|i: int| 0 <= i < less.len() && less[i] == x;
                    assert(tables[i] == x);
                } else {
                    assert(tables[tables.len() - 1] == x);
                }
            }
            if tables.contains(x) {
                let i = choose|i: int| 0 <= i < tables.len() && tables[i] == x;
                if i < less.len() {
                    assert(less[i] == x);
                    assert(less.contains(x));
                    assert(sorted.contains(x));
                    let k = choose|k: int| 0 <= k < sorted.len() && sorted[k] == x;
                    assert(sorted.push(last)[k] == x);
                } else {
                    assert(sorted.push(last)[sorted.len() as int] == x);
                }
                assert(sorted.push(last).contains(x));
            }
        }
    }
}

pub proof fn descending_is_unique(a: Seq<TableView>, b: Seq<TableView>)
    requires
        descending(a),
        descending(b),
        same_tables(a, b),
    ensures
        a == b,
    decreases a.len(),
{
    if a.len() == 0 {
        if b.len() > 0 {
            assert(b.contains(b[0]));
        }
        assert(a =~= b);
    } else {
        assert(a.contains(a[0]));
        assert(b.contains(a[0]));
        let k = choose|k: int| 0 <= k < b.len() && b[k] == a[0];
        assert(b.contains(b[0]));
        assert(a.contains(b[0]));
        let m = choose|m: int| 0 <= m < a.len() && a[m] == b[0];
        if k > 0 {
            assert(b[0].0 > b[k].0);
            if m > 0 {
                assert(a[0].0 > a[m].0);
            }
        }
        assert(a[0] == b[0]);
        let x = a.drop_first();
        let y = b.drop_first();
        assert forall|i: int, j: int| 0 <= i < j < x.len() implies (#[trigger] x[i]).0 > (
        #[trigger] x[j]).0 by {
            assert(a[i + 1].0 > a[j + 1].0);
        }
        assert forall|i: int, j: int| 0 <= i < j < y.len() implies (#[trigger] y[i]).0 > (
        #[trigger] y[j]).0 by {
            assert(b[i + 1].0 > b[j + 1].0);
        }
        assert forall|t: TableView|
            #![trigger x.contains(t)]
            #![trigger y.contains(t)]
            x.contains(t) == y.contains(t) by {
            if x.contains(t) {
                let i = choose|i: int| 0 <= i < x.len() && x[i] == t;
                assert(a[i + 1] == t && a[0].0 > a[i + 1].0);
                assert(a.contains(t));
                assert(b.contains(t));
                let j = choose|j: int| 0 <= j < b.len() && b[j] == t;
                assert(y[j - 1] == t);
            }
            if y.contains(t) {
                let i = choose|i: int| 0 <= i < y.len() && y[i] == t;
                assert(b[i + 1] == t && b[0].0 > b[i + 1].0);
                assert(b.contains(t));
                assert(a.contains(t));
                let j = choose|j: int| 0 <= j < a.len() && a[j] == t;
                assert(x[j - 1] == t);
            }
        }
        descending_is_unique(x, y);
        assert(a =~= seq![a[0]] + x);
        assert(b =~= seq![b[0]] + y);
    }
}

/// The tables that a file's bytes are read as.
pub open spec fn loaded(files: Seq<FileView>) -> Seq<TableView> {
    files.map_values(|file: FileView| (file.0, crate::lsm::table::footer_in(file.1)->Ok_0))
}

pub proof fn loading_reads(files: Seq<FileView>)
    requires
        forall|k: int|
            0 <= k < files.len() ==> crate::lsm::table::footer_in((#[trigger] files[k]).1) is Ok,
    ensures
        crate::lsm::tree::tables_in(files) == Ok::<Seq<TableView>, LsmError>(loaded(files)),
    decreases files.len(),
{
    if files.len() > 0 {
        loading_reads(files.drop_last());
        assert(files[files.len() - 1] == files.last());
        assert(loaded(files) =~= loaded(files.drop_last()).push(
            (files.last().0, crate::lsm::table::footer_in(files.last().1)->Ok_0),
        ));
    } else {
        assert(loaded(files) =~= Seq::empty());
    }
}

/// The files of tables, listed in any order, are loaded as these tables.
pub proof fn files_are_loaded(
    files: Seq<FileView>,
    tables: Seq<TableView>,
    images: Seq<Seq<u8>>,
    data: Seq<Seq<DataEntryView>>,
)
    requires
        backed(tables, images, data),
        descending(tables),
        files_of(files, tables, images),
    ensures
        crate::lsm::tree::all_sane(files),
        crate::lsm::tree::tables_in(files) is Ok,
        crate::lsm::tree::newest_first(crate::lsm::tree::tables_in(files)->Ok_0) == tables,
{
    let found = loaded(files);
    assert forall|k: int| 0 <= k < files.len() implies crate::lsm::table::trailer_is_sane(
        (#[trigger] files[k]).1,
    ) && crate::lsm::table::footer_in(files[k].1) is Ok && tables.contains(found[k]) by {
        let i = file_is_loaded(files[k], tables, images, data);
        assert(found[k] == tables[i]);
    }
    loading_reads(files);
    assert forall|i: int, j: int| 0 <= i < j < found.len() implies (#[trigger] found[i]).0 != (
    #[trigger] found[j]).0 by {
        let a = file_is_loaded(files[i], tables, images, data);
        let b = file_is_loaded(files[j], tables, images, data);
        assert(files[i] != files[j]);
        assert(a != b);
        if a < b {
            assert(tables[a].0 > tables[b].0);
        } else {
            assert(tables[b].0 > tables[a].0);
        }
    }
    sorting_keeps(found);
    assert forall|x: TableView|
        #![trigger found.contains(x)]
        #![trigger tables.contains(x)]
        found.contains(x) == tables.contains(x) by {
        if found.contains(x) {
            let k = choose|k: int| 0 <= k < found.len() && found[k] == x;
            assert(tables.contains(found[k])) by {
                let i = file_is_loaded(files[k], tables, images, data);
                assert(found[k] == tables[i]);
            }
        }
        if tables.contains(x) {
            let i = choose|i: int| 0 <= i < tables.len() && tables[i] == x;
            assert(files.contains((tables[i].0, images[i])));
            let k = choose|k: int| 0 <= k < files.len() && files[k] == (tables[i].0, images[i]);
            crate::lsm::table_laws::footer_is_read_back(images[i], data[i], tables[i].1);
            assert(found[k] == x);
        }
    }
    let sorted = crate::lsm::tree::newest_first(found);
    assert(same_tables(sorted, tables)) by {
        assert forall|x: TableView|
            #![trigger sorted.contains(x)]
            #![trigger tables.contains(x)]
            sorted.contains(x) == tables.contains(x) by {
            assert(found.contains(x) == tables.contains(x));
        }
    }
    descending_is_unique(sorted, tables);
}

proof fn file_is_loaded(
    file: FileView,
    tables: Seq<TableView>,
    images: Seq<Seq<u8>>,
    data: Seq<Seq<DataEntryView>>,
) -> (i: int)
    requires
        backed(tables, images, data),
        is_file_of(file, tables, images),
    ensures
        0 <= i < tables.len(),
        file == (tables[i].0, images[i]),
        crate::lsm::table::trailer_is_sane(file.1),
        crate::lsm::table::footer_in(file.1) == Ok::<crate::lsm::codec::FooterView, LsmError>(
            tables[i].1,
        ),
{
    let i = choose|i: int| 0 <= i < tables.len() && file == ((#[trigger] tables[i]).0, images[i]);
    crate::lsm::table_laws::footer_is_read_back(images[i], data[i], tables[i].1);
    i
}

/// Replaying ascending frames records those after the last applied index.
proof fn replay_keeps_later(state: LsmState, frames: Seq<WalFrameView>)
    requires
        ascending(frames),
        state.memtable == MemtableView::empty(),
    ensures
        ({
            let after = state.replayed(frames);
            &&& after.memtable == kept(frames, state.last_applied as int)
            &&& after.tables == state.tables
            &&& after.last_applied == if frames.len() > 0 && frames.last().0 > state.last_applied {
                frames.last().0
            } else {
                state.last_applied
            }
        }),
    decreases frames.len(),
{
    if frames.len() > 0 {
        let less = frames.drop_last();
        assert(ascending(less)) by {
            assert forall|i: int, j: int| 0 <= i < j < less.len() implies (#[trigger] less[i]).0 < (
            #[trigger] less[j]).0 || less[i].0 == less[j].0 && less[j].1 is None by {
                assert(frames[i].0 <= frames[j].0);
            }
        }
        replay_keeps_later(state, less);
        if less.len() > 0 {
            assert(frames[less.len() - 1].0 <= frames[less.len() as int].0);
        }
    }
}

/// A restart keeps every value and the last applied index, and the tree that
/// comes out agrees with its disk.
pub proof fn restart_keeps_values(state: LsmState, disk: Disk, options: LsmOptions)
    requires
        durable(state, disk),
    ensures
        crate::lsm::tree::all_sane(disk.files),
        ({
            let opened = LsmState::opened(
                disk.files,
                crate::lsm::wal::wal_of(disk.frames),
                options,
            );
            &&& opened matches Ok((again, torn))
            &&& torn is None
            &&& again.tables == state.tables
            &&& again.last_applied == state.last_applied
            &&& durable(
                again,
                Disk { cut: crate::lsm::tree::highest_index(state.tables), ..disk },
            )
            &&& forall|key: Seq<char>|
                #![trigger value(again.memtable, disk.data, key)]
                value(again.memtable, disk.data, key) == value(state.memtable, disk.data, key)
        }),
{
    reveal(durable);
    files_are_loaded(disk.files, state.tables, disk.images, disk.data);
    crate::lsm::wal::frames_are_read_back(disk.frames);
    let base = LsmState::over(state.tables, options);
    replay_keeps_later(base, disk.frames);
    let again = base.replayed(disk.frames);
    let cut = crate::lsm::tree::highest_index(state.tables);
    assert(again.memtable == kept(disk.frames, cut as int));
    if disk.frames.len() > 0 {
        assert(disk.frames[disk.frames.len() - 1].0 <= state.last_applied);
    }
    assert forall|i: int| 0 <= i < disk.frames.len() implies (#[trigger] disk.frames[i]).0
        <= again.last_applied by {
        if i < disk.frames.len() - 1 {
            assert(disk.frames[i].0 <= disk.frames[disk.frames.len() - 1].0);
        }
    }
    assert forall|key: Seq<char>|
        #![trigger value(again.memtable, disk.data, key)]
        value(again.memtable, disk.data, key) == value(state.memtable, disk.data, key) by {
        assert(value(kept(disk.frames, cut as int), disk.data, key) == value(
            state.memtable,
            disk.data,
            key,
        ));
    }
}

/// A frame that was cut short while it was appended is as if it had never been
/// appended, and the log is to be cut where it starts.
pub proof fn torn_append_is_ignored(
    state: LsmState,
    disk: Disk,
    options: LsmOptions,
    frame: WalFrameView,
    left: int,
)
    requires
        durable(state, disk),
        crate::lsm::codec::frame_is_storable(frame),
        0 < left < crate::bytes::framed(crate::lsm::codec::code_of_frame(frame)).len(),
        crate::lsm::wal::wal_of(disk.frames).len() + left <= usize::MAX,
    ensures
        ({
            let good = crate::lsm::wal::wal_of(disk.frames);
            let tail = crate::bytes::framed(crate::lsm::codec::code_of_frame(frame)).take(left);
            &&& LsmState::opened(disk.files, good, options) is Ok
            &&& LsmState::opened(disk.files, good + tail, options) == Ok::<
                (LsmState, Option<int>),
                LsmError,
            >((LsmState::opened(disk.files, good, options)->Ok_0.0, Some(good.len() as int)))
        }),
{
    reveal(durable);
    restart_keeps_values(state, disk, options);
    crate::lsm::wal::frames_are_read_back(disk.frames);
    crate::lsm::wal::torn_tail_is_ignored(disk.frames, frame, left);
}

/// Once a command's frame is in the log, the command survives a restart, whether
/// or not the tree had recorded it.
pub proof fn append_is_durable(state: LsmState, disk: Disk, frame: WalFrameView)
    requires
        durable(state, disk),
        frame.0 == state.last_applied + 1,
        crate::lsm::codec::frame_is_storable(frame),
        crate::lsm::wal::wal_of(disk.frames.push(frame)).len() <= usize::MAX,
    ensures
        durable(state.recorded(frame), Disk { frames: disk.frames.push(frame), ..disk }),
{
    reveal(durable);
    let after = state.recorded(frame);
    let frames = disk.frames.push(frame);
    assert(frames.drop_last() =~= disk.frames);
    assert(ascending(frames)) by {
        assert forall|i: int, j: int| 0 <= i < j < frames.len() implies (#[trigger] frames[i]).0 < (
        #[trigger] frames[j]).0 || frames[i].0 == frames[j].0 && frames[j].1 is None by {
            assert(frames[i] == disk.frames[i]);
            if j < disk.frames.len() {
                assert(frames[j] == disk.frames[j]);
            }
        }
    }
    assert forall|i: int| 0 <= i < frames.len() implies crate::lsm::codec::frame_is_storable(
        #[trigger] frames[i],
    ) && frames[i].0 <= after.last_applied by {
        if i < disk.frames.len() {
            assert(frames[i] == disk.frames[i]);
        }
    }
    assert forall|past: int, key: Seq<char>| 0 <= past <= disk.cut implies #[trigger] value(
        kept(frames, past),
        disk.data,
        key,
    ) == value(after.memtable, disk.data, key) by {
        assert(value(kept(disk.frames, past), disk.data, key) == value(
            state.memtable,
            disk.data,
            key,
        ));
    }
}

/// What is kept of a key comes from a frame after the given index.
proof fn kept_comes_from(frames: Seq<WalFrameView>, after: int, key: Seq<char>) -> (i: int)
    requires
        kept(frames, after).contains_key(key),
    ensures
        0 <= i < frames.len(),
        frames[i].0 > after,
        frames[i] == (kept(frames, after)[key].1, Some((key, kept(frames, after)[key].0))),
    decreases frames.len(),
{
    let last = frames.len() - 1;
    match frames[last].1 {
        Some((named, _)) if named == key && frames[last].0 > after => last,
        _ => {
            let i = kept_comes_from(frames.drop_last(), after, key);
            assert(frames.drop_last()[i] == frames[i]);
            i
        },
    }
}

/// A frame after the given index leaves its key among what is kept, at its own
/// index or a later one.
proof fn kept_holds(frames: Seq<WalFrameView>, after: int, i: int)
    requires
        ascending(frames),
        0 <= i < frames.len(),
        frames[i].0 > after,
        frames[i].1 is Some,
    ensures
        kept(frames, after).contains_key(frames[i].1->Some_0.0),
        kept(frames, after)[frames[i].1->Some_0.0].1 >= frames[i].0,
    decreases frames.len(),
{
    let last = frames.len() - 1;
    if i < last {
        let less = frames.drop_last();
        assert(ascending(less)) by {
            assert forall|a: int, b: int| 0 <= a < b < less.len() implies (#[trigger] less[a]).0 < (
            #[trigger] less[b]).0 || less[a].0 == less[b].0 && less[b].1 is None by {
                assert(frames[a].0 <= frames[b].0);
            }
        }
        assert(less[i] == frames[i]);
        kept_holds(less, after, i);
        assert(frames[i].0 <= frames[last].0);
    }
}

/// A key with a frame after `later` has the same kept of it after `earlier`.
proof fn kept_agree(frames: Seq<WalFrameView>, earlier: int, later: int, key: Seq<char>)
    requires
        ascending(frames),
        earlier <= later,
        kept(frames, later).contains_key(key),
    ensures
        kept(frames, earlier).contains_key(key),
        kept(frames, earlier)[key] == kept(frames, later)[key],
    decreases frames.len(),
{
    let last = frames.len() - 1;
    let less = frames.drop_last();
    assert(ascending(less)) by {
        assert forall|a: int, b: int| 0 <= a < b < less.len() implies (#[trigger] less[a]).0 < (
        #[trigger] less[b]).0 || less[a].0 == less[b].0 && less[b].1 is None by {
            assert(frames[a].0 <= frames[b].0);
        }
    }
    match frames[last].1 {
        Some((named, _)) if named == key && frames[last].0 > later => {},
        _ => {
            kept_agree(less, earlier, later, key);
            let i = kept_comes_from(less, later, key);
            assert(less[i] == frames[i]);
            assert(frames[i].0 <= frames[last].0);
        },
    }
}

pub proof fn highest_index_bounds(tables: Seq<TableView>, i: int)
    requires
        0 <= i < tables.len(),
    ensures
        tables[i].1.2 <= crate::lsm::tree::highest_index(tables),
    decreases tables.len(),
{
    if i < tables.len() - 1 {
        highest_index_bounds(tables.drop_last(), i);
    }
}

pub proof fn highest_index_is_bounded(tables: Seq<TableView>, bound: int)
    requires
        0 <= bound,
        forall|i: int| 0 <= i < tables.len() ==> (#[trigger] tables[i]).1.2 <= bound,
    ensures
        crate::lsm::tree::highest_index(tables) <= bound,
    decreases tables.len(),
{
    if tables.len() > 0 {
        assert(tables[tables.len() - 1].1.2 <= bound);
        assert forall|i: int| 0 <= i < tables.drop_last().len() implies (
        #[trigger] tables.drop_last()[i]).1.2 <= bound by {
            assert(tables[i].1.2 <= bound);
        }
        highest_index_is_bounded(tables.drop_last(), bound);
    }
}

pub proof fn highest_id_bounds(tables: Seq<TableView>, i: int)
    requires
        0 <= i < tables.len(),
    ensures
        tables[i].0 <= crate::lsm::tree::highest_id(tables),
    decreases tables.len(),
{
    if i < tables.len() - 1 {
        highest_id_bounds(tables.drop_last(), i);
    }
}

/// A table above all others goes before them, and its file to theirs.
proof fn new_table_is_backed(
    tables: Seq<TableView>,
    files: Seq<FileView>,
    images: Seq<Seq<u8>>,
    data: Seq<Seq<DataEntryView>>,
    table: TableView,
    image: Seq<u8>,
    entries: Seq<DataEntryView>,
)
    requires
        backed(tables, images, data),
        descending(tables),
        files_of(files, tables, images),
        table.0 > crate::lsm::tree::highest_id(tables),
        crate::lsm::table::holds(image, entries, table.1),
        crate::lsm::table::by_key(entries),
    ensures
        backed(seq![table] + tables, seq![image] + images, seq![entries] + data),
        descending(seq![table] + tables),
        files_of(files.push((table.0, image)), seq![table] + tables, seq![image] + images),
{
    let new_tables = seq![table] + tables;
    let new_images = seq![image] + images;
    let new_data = seq![entries] + data;
    let new_files = files.push((table.0, image));
    assert forall|i: int| 0 <= i < new_tables.len() implies crate::lsm::table::holds(
        new_images[i],
        new_data[i],
        (#[trigger] new_tables[i]).1,
    ) && crate::lsm::table::by_key(new_data[i]) by {
        if i > 0 {
            let old_table = tables[i - 1];
        }
    }
    assert forall|i: int, j: int| 0 <= i < j < new_tables.len() implies (#[trigger] new_tables[i]).0
        > (#[trigger] new_tables[j]).0 by {
        highest_id_bounds(tables, j - 1);
        if i > 0 {
            assert(tables[i - 1].0 > tables[j - 1].0);
        }
    }
    assert forall|k: int| 0 <= k < files.len() implies (#[trigger] files[k]).0 != table.0
        && is_file_of(files[k], new_tables, new_images) by {
        assert(is_file_of(files[k], tables, images));
        let i = choose|i: int|
            0 <= i < tables.len() && files[k] == ((#[trigger] tables[i]).0, images[i]);
        highest_id_bounds(tables, i);
        assert(new_tables[i + 1] == tables[i]);
        assert(new_images[i + 1] == images[i]);
    }
    assert forall|k: int| 0 <= k < new_files.len() implies is_file_of(
        #[trigger] new_files[k],
        new_tables,
        new_images,
    ) by {
        if k < files.len() {
            assert(new_files[k] == files[k]);
        } else {
            assert(new_tables[0] == table && new_images[0] == image);
        }
    }
    assert forall|i: int| 0 <= i < new_tables.len() implies new_files.contains(
        ((#[trigger] new_tables[i]).0, new_images[i]),
    ) by {
        if i > 0 {
            let file = (tables[i - 1].0, images[i - 1]);
            assert(files.contains(file));
            let k = choose|k: int| 0 <= k < files.len() && files[k] == file;
            assert(new_files[k] == file);
        } else {
            assert(new_files[files.len() as int] == (table.0, image));
        }
    }
    assert(new_files.no_duplicates()) by {
        assert forall|i: int, j: int| 0 <= i < j < new_files.len() implies new_files[i]
            != new_files[j] by {
            assert(files[i] == new_files[i]);
            if j < files.len() {
                assert(files[j] == new_files[j]);
            }
        }
    }
}

/// As soon as the table of a flush is written, a restart keeps every value, with
/// the log not emptied yet.
pub proof fn written_table_is_durable(
    state: LsmState,
    disk: Disk,
    table: TableView,
    image: Seq<u8>,
    entries: Seq<DataEntryView>,
)
    requires
        durable(state, disk),
        table.0 == state.flush_id(),
        table.1.2 == state.last_applied,
        crate::lsm::tree::lists(entries, state.memtable),
        crate::lsm::table::holds(image, entries, table.1),
    ensures
        durable(
            state.flushed(table),
            Disk {
                files: disk.files.push((table.0, image)),
                images: seq![image] + disk.images,
                data: seq![entries] + disk.data,
                cut: state.last_applied,
                ..disk
            },
        ),
        crate::lsm::tree::highest_index(state.flushed(table).tables) == state.last_applied,
{
    reveal(durable);
    let after = state.flushed(table);
    let tables = seq![table] + state.tables;
    let data = seq![entries] + disk.data;
    assert(after.tables =~= tables);
    new_table_is_backed(
        state.tables,
        disk.files,
        disk.images,
        disk.data,
        table,
        image,
        entries,
    );
    let cut = crate::lsm::tree::highest_index(tables);
    assert(tables[0] == table);
    highest_index_bounds(tables, 0);
    assert forall|i: int| 0 <= i < tables.len() implies (#[trigger] tables[i]).1.2
        <= state.last_applied by {
        if i > 0 {
            assert(tables[i] == state.tables[i - 1]);
            highest_index_bounds(state.tables, i - 1);
        }
    }
    highest_index_is_bounded(tables, state.last_applied as int);
    assert(cut == state.last_applied);
    assert forall|key: Seq<char>| #[trigger]
        kept(disk.frames, cut as int).contains_key(key) implies false by {
        let k = kept_comes_from(disk.frames, cut as int, key);
        assert(disk.frames[k].0 <= state.last_applied);
    }
    assert(kept(disk.frames, cut as int) =~= MemtableView::empty());
    assert forall|past: int, key: Seq<char>| 0 <= past <= cut implies #[trigger] value(
        kept(disk.frames, past),
        data,
        key,
    ) == value(after.memtable, data, key) by {
        flush_keeps_values(state.memtable, entries, disk.data, key);
        assert(data[0] == entries);
        assert(data.drop_first() =~= disk.data);
        if kept(disk.frames, past).contains_key(key) {
            if past <= disk.cut {
                assert(value(kept(disk.frames, past), disk.data, key) == value(
                    state.memtable,
                    disk.data,
                    key,
                ));
            } else {
                kept_agree(disk.frames, disk.cut as int, past, key);
            }
        }
    }
}

/// Once the table of a flush is written, the log can be emptied.
pub proof fn emptied_log_is_durable(state: LsmState, disk: Disk)
    requires
        durable(state, disk),
        state.memtable == MemtableView::empty(),
        crate::lsm::tree::highest_index(state.tables) == state.last_applied,
    ensures
        durable(state, Disk { frames: Seq::empty(), ..disk }),
{
    reveal(durable);
    let none = Seq::<WalFrameView>::empty();
    assert(crate::lsm::wal::wal_of(none).len() == 0);
    assert forall|past: int, key: Seq<char>| 0 <= past <= disk.cut implies #[trigger] value(
        kept(none, past),
        disk.data,
        key,
    ) == value(state.memtable, disk.data, key) by {
        assert(kept(none, past) =~= state.memtable);
    }
}

/// Once a mark is in the log, the log alone accounts for all that is applied.
pub proof fn mark_is_durable(state: LsmState, disk: Disk)
    requires
        durable(state, disk),
        crate::lsm::codec::frame_is_storable(crate::lsm::store::mark_of(state)),
        crate::lsm::wal::wal_of(
            disk.frames.push(crate::lsm::store::mark_of(state)),
        ).len() <= usize::MAX,
    ensures
        durable(
            state,
            Disk { frames: disk.frames.push(crate::lsm::store::mark_of(state)), ..disk },
        ),
        accounted(disk.frames.push(crate::lsm::store::mark_of(state)), 0) == state.last_applied,
{
    reveal(durable);
    let frame = crate::lsm::store::mark_of(state);
    let frames = disk.frames.push(frame);
    assert(frames.drop_last() =~= disk.frames);
    assert(frames.last() == frame);
    assert(ascending(frames)) by {
        assert forall|i: int, j: int| 0 <= i < j < frames.len() implies (#[trigger] frames[i]).0 < (
        #[trigger] frames[j]).0 || frames[i].0 == frames[j].0 && frames[j].1 is None by {
            assert(frames[i] == disk.frames[i]);
            if j < disk.frames.len() {
                assert(frames[j] == disk.frames[j]);
            }
        }
    }
    assert forall|i: int| 0 <= i < frames.len() implies crate::lsm::codec::frame_is_storable(
        #[trigger] frames[i],
    ) && frames[i].0 <= state.last_applied by {
        if i < disk.frames.len() {
            assert(frames[i] == disk.frames[i]);
        }
    }
    assert forall|past: int, key: Seq<char>| 0 <= past <= disk.cut implies #[trigger] value(
        kept(frames, past),
        disk.data,
        key,
    ) == value(state.memtable, disk.data, key) by {
        assert(value(kept(disk.frames, past), disk.data, key) == value(
            state.memtable,
            disk.data,
            key,
        ));
    }
}

/// As soon as the table of a compaction is written, a restart keeps every value,
/// with none of the old tables removed yet.
pub proof fn merged_table_is_durable(
    state: LsmState,
    disk: Disk,
    table: TableView,
    image: Seq<u8>,
    merged: Seq<DataEntryView>,
)
    requires
        durable(state, disk),
        table.0 > crate::lsm::tree::highest_id(state.tables),
        table.1.2 == crate::lsm::tree::highest_index(state.tables),
        merged.len() > 0,
        crate::lsm::tree::merges(merged, flattened(disk.data)),
        crate::lsm::table::holds(image, merged, table.1),
    ensures
        durable(
            LsmState { tables: seq![table] + state.tables, ..state },
            Disk {
                files: disk.files.push((table.0, image)),
                images: seq![image] + disk.images,
                data: seq![merged] + disk.data,
                ..disk
            },
        ),
        forall|key: Seq<char>|
            #![trigger value(state.memtable, seq![merged] + disk.data, key)]
            value(state.memtable, seq![merged] + disk.data, key) == value(
                state.memtable,
                disk.data,
                key,
            ),
{
    reveal(durable);
    let tables = seq![table] + state.tables;
    let data = seq![merged] + disk.data;
    new_table_is_backed(
        state.tables,
        disk.files,
        disk.images,
        disk.data,
        table,
        image,
        merged,
    );
    let bound = crate::lsm::tree::highest_index(state.tables) as int;
    assert forall|i: int| 0 <= i < tables.len() implies (#[trigger] tables[i]).1.2 <= bound by {
        if i > 0 {
            assert(tables[i] == state.tables[i - 1]);
            highest_index_bounds(state.tables, i - 1);
        }
    }
    highest_index_is_bounded(tables, bound);
    assert(tables[0] == table);
    highest_index_bounds(tables, 0);
    all_by_key(state.tables, disk.images, disk.data);
    let all = disk.data.len() as int;
    assert(disk.data.take(all) =~= disk.data);
    assert(merged_data(merged) + disk.data == data);
    assert forall|key: Seq<char>|
        #![trigger value(state.memtable, data, key)]
        value(state.memtable, data, key) == value(state.memtable, disk.data, key) by {
        compaction_keeps_values(state.memtable, disk.data, merged, all, key);
    }
    assert forall|past: int, key: Seq<char>| 0 <= past <= disk.cut implies #[trigger] value(
        kept(disk.frames, past),
        data,
        key,
    ) == value(state.memtable, data, key) by {
        compaction_keeps_values(kept(disk.frames, past), disk.data, merged, all, key);
        compaction_keeps_values(state.memtable, disk.data, merged, all, key);
        assert(value(kept(disk.frames, past), disk.data, key) == value(
            state.memtable,
            disk.data,
            key,
        ));
    }
}

pub proof fn all_by_key(
    tables: Seq<TableView>,
    images: Seq<Seq<u8>>,
    data: Seq<Seq<DataEntryView>>,
)
    requires
        backed(tables, images, data),
    ensures
        forall|i: int| 0 <= i < data.len() ==> crate::lsm::table::by_key(#[trigger] data[i]),
{
    assert forall|i: int| 0 <= i < data.len() implies crate::lsm::table::by_key(
        #[trigger] data[i],
    ) by {
        let table = tables[i];
    }
}

/// A single table is the newest.
pub proof fn one_table_is_first(none: Seq<TableView>, table: TableView)
    requires
        none.len() == 0,
    ensures
        crate::lsm::tree::newest_first(none.push(table)) == seq![table],
        crate::lsm::tree::highest_index(seq![table]) == table.1.2,
{
    reveal_with_fuel(crate::lsm::tree::newest_first, 2);
    reveal_with_fuel(crate::lsm::tree::highest_index, 2);
    assert(none.push(table).drop_last() =~= none);
    assert(none =~= Seq::empty());
    assert(seq![table].drop_last() =~= Seq::empty());
    assert(crate::lsm::tree::newest_first(none.push(table)) =~= seq![table]);
}

/// All files but the one with an id.
pub open spec fn without_file(files: Seq<FileView>, id: u64) -> Seq<FileView> {
    files.filter(|file: FileView| file.0 != id)
}

/// What lies on disk after the file of the last table was removed.
pub open spec fn shortened(disk: Disk, id: u64) -> Disk {
    Disk {
        files: without_file(disk.files, id),
        images: disk.images.drop_last(),
        data: disk.data.drop_last(),
        ..disk
    }
}

/// Without the last table its file is not among the tables' files, and the others
/// are.
proof fn last_file_goes(
    files: Seq<FileView>,
    tables: Seq<TableView>,
    images: Seq<Seq<u8>>,
    data: Seq<Seq<DataEntryView>>,
)
    requires
        backed(tables, images, data),
        descending(tables),
        files_of(files, tables, images),
        tables.len() > 0,
    ensures
        backed(tables.drop_last(), images.drop_last(), data.drop_last()),
        descending(tables.drop_last()),
        files_of(
            without_file(files, tables.last().0),
            tables.drop_last(),
            images.drop_last(),
        ),
{
    let less = tables.drop_last();
    let fewer = images.drop_last();
    let last = tables.len() - 1;
    let id = tables.last().0;
    let left = without_file(files, id);
    assert forall|i: int| 0 <= i < less.len() implies crate::lsm::table::holds(
        fewer[i],
        data.drop_last()[i],
        (#[trigger] less[i]).1,
    ) && crate::lsm::table::by_key(data.drop_last()[i]) by {
        let table = tables[i];
    }
    assert forall|i: int, j: int| 0 <= i < j < less.len() implies (#[trigger] less[i]).0 > (
    #[trigger] less[j]).0 by {
        assert(tables[i].0 > tables[j].0);
    }
    others_stay_distinct(files, id);
    assert forall|i: int| 0 <= i < less.len() implies left.contains(
        ((#[trigger] less[i]).0, fewer[i]),
    ) by {
        let file = (tables[i].0, images[i]);
        assert(tables[i].0 > tables[last].0);
        assert(files.contains(file));
        others_stay(files, id, file);
    }
    assert forall|k: int| 0 <= k < left.len() implies is_file_of(#[trigger] left[k], less, fewer) by {
        let file = left[k];
        assert(left.contains(file));
        others_stay(files, id, file);
        let m = choose|m: int| 0 <= m < files.len() && files[m] == file;
        assert(is_file_of(files[m], tables, images));
        let i = choose|i: int| 0 <= i < tables.len() && file == ((#[trigger] tables[i]).0, images[i]);
        assert(i < last);
        assert(less[i] == tables[i]);
    }
}

proof fn others_stay(files: Seq<FileView>, id: u64, file: FileView)
    ensures
        without_file(files, id).contains(file) <==> files.contains(file) && file.0 != id,
    decreases files.len(),
{
    reveal(Seq::filter);
    if files.len() > 0 {
        let less = files.drop_last();
        let last = files.last();
        others_stay(less, id, file);
        if files.contains(file) {
            let i = choose|i: int| 0 <= i < files.len() && files[i] == file;
            if i < less.len() {
                assert(less[i] == file);
            }
        }
        if less.contains(file) {
            let i = choose|i: int| 0 <= i < less.len() && less[i] == file;
            assert(files[i] == file);
        }
        assert(files[files.len() - 1] == last);
        let head = without_file(less, id);
        if last.0 != id {
            assert(without_file(files, id) == head.push(last));
            if head.contains(file) {
                let i = choose|i: int| 0 <= i < head.len() && head[i] == file;
                assert(head.push(last)[i] == file);
            }
            assert(head.push(last)[head.len() as int] == last);
        }
    }
}

proof fn others_stay_distinct(files: Seq<FileView>, id: u64)
    requires
        files.no_duplicates(),
    ensures
        without_file(files, id).no_duplicates(),
    decreases files.len(),
{
    reveal(Seq::filter);
    if files.len() > 0 {
        let less = files.drop_last();
        let last = files.last();
        assert(less.no_duplicates()) by {
            assert forall|i: int, j: int| 0 <= i < j < less.len() implies less[i] != less[j] by {
                assert(files[i] != files[j]);
            }
        }
        others_stay_distinct(less, id);
        others_stay(less, id, last);
        if less.contains(last) {
            let i = choose|i: int| 0 <= i < less.len() && less[i] == last;
            assert(files[i] == files[files.len() - 1]);
        }
        let head = without_file(less, id);
        if last.0 != id {
            assert forall|i: int, j: int| 0 <= i < j < head.push(last).len() implies head.push(last)[i]
                != head.push(last)[j] by {
                if j == head.len() {
                    assert(head.contains(head[i]));
                }
            }
        }
    }
}

/// As long as tables that are superseded go the oldest first, every value stays
/// what it was, and so it is after a restart in between.
pub proof fn removal_is_durable(state: LsmState, disk: Disk, front: int)
    requires
        durable(state, disk),
        0 <= front < state.tables.len(),
        superseded(disk.data.take(front), disk.data.skip(front)),
        state.last_applied == accounted(
            disk.frames,
            crate::lsm::tree::highest_index(state.tables.take(front)),
        ),
    ensures
        durable(
            LsmState { tables: state.tables.drop_last(), ..state },
            shortened(disk, state.tables.last().0),
        ),
        superseded(disk.data.drop_last().take(front), disk.data.drop_last().skip(front)),
        forall|key: Seq<char>|
            #![trigger value(state.memtable, disk.data.drop_last(), key)]
            value(state.memtable, disk.data.drop_last(), key) == value(
                state.memtable,
                disk.data,
                key,
            ),
{
    reveal(durable);
    let less = state.tables.drop_last();
    let data = disk.data.drop_last();
    let head = disk.data.take(front);
    let tail = disk.data.skip(front);
    let n = tail.len() as int;
    assert(data.take(front) =~= head);
    assert(data.skip(front) =~= tail.take(n - 1));
    assert(head + tail =~= disk.data);
    assert(head + tail.take(n - 1) =~= data);
    last_file_goes(disk.files, state.tables, disk.images, disk.data);
    assert forall|i: int| 0 <= i < less.len() implies (#[trigger] less[i]).1.2
        <= crate::lsm::tree::highest_index(state.tables) by {
        assert(less[i] == state.tables[i]);
        highest_index_bounds(state.tables, i);
    }
    highest_index_is_bounded(less, crate::lsm::tree::highest_index(state.tables) as int);
    let first = state.tables.take(front);
    assert forall|i: int| 0 <= i < first.len() implies (#[trigger] first[i]).1.2
        <= crate::lsm::tree::highest_index(less) by {
        assert(first[i] == less[i]);
        highest_index_bounds(less, i);
    }
    highest_index_is_bounded(first, crate::lsm::tree::highest_index(less) as int);
    assert forall|memtable: MemtableView, key: Seq<char>|
        #![trigger value(memtable, data, key)]
        value(memtable, data, key) == value(memtable, disk.data, key) by {
        assert(value(memtable, head + tail.take(n - 1), key) == value(memtable, head + tail, key));
    }
    assert(superseded(head, tail.take(n - 1))) by {
        assert forall|memtable: MemtableView, left: int, key: Seq<char>|
            0 <= left <= tail.take(n - 1).len() implies #[trigger] value(
            memtable,
            head + tail.take(n - 1).take(left),
            key,
        ) == value(memtable, head + tail.take(n - 1), key) by {
            assert(tail.take(n - 1).take(left) =~= tail.take(left));
            assert(value(memtable, head + tail.take(left), key) == value(
                memtable,
                head + tail,
                key,
            ));
            assert(value(memtable, head + tail.take(n - 1), key) == value(
                memtable,
                head + tail,
                key,
            ));
        }
    }
    assert forall|past: int, key: Seq<char>| 0 <= past <= disk.cut implies #[trigger] value(
        kept(disk.frames, past),
        data,
        key,
    ) == value(state.memtable, data, key) by {
        assert(value(kept(disk.frames, past), disk.data, key) == value(
            state.memtable,
            disk.data,
            key,
        ));
        assert(value(state.memtable, data, key) == value(state.memtable, disk.data, key));
    }
}

/// A new tree agrees with its empty disk.
pub proof fn new_tree_is_durable(options: LsmOptions)
    ensures
        LsmState::opened(Seq::empty(), Seq::empty(), options) == Ok::<
            (LsmState, Option<int>),
            LsmError,
        >((LsmState::over(Seq::empty(), options), None)),
        durable(
            LsmState::over(Seq::empty(), options),
            Disk {
                files: Seq::empty(),
                frames: Seq::empty(),
                images: Seq::empty(),
                data: Seq::empty(),
                cut: 0,
            },
        ),
{
    reveal(durable);
    let none = Seq::<WalFrameView>::empty();
    assert(crate::lsm::wal::wal_of(none) =~= Seq::empty());
    crate::lsm::wal::frames_are_read_back(none);
    assert(crate::lsm::tree::newest_first(Seq::empty()) =~= Seq::empty());
    assert(kept(none, 0) =~= MemtableView::empty());
    assert forall|past: int, key: Seq<char>| 0 <= past <= 0 implies #[trigger] value(
        kept(none, past),
        Seq::empty(),
        key,
    ) == value(MemtableView::empty(), Seq::empty(), key) by {
        assert(kept(none, past) =~= MemtableView::empty());
    }
}

} // verus!
