//! No value is lost between two actions on disk.
use crate::lsm::record::{DataEntryView, LsmError, WalFrameView};
use crate::lsm::store::{DiskActionView, OperationView, Step};
use crate::lsm::tree::{FileView, LsmOptions, LsmState, MemtableView, TableView};
use crate::lsm::tree_laws::Disk;
use crate::state_machine::KvState;
use crate::types::{Command, LogIndex};
use vstd::prelude::*;

verus! {

/// What lies on disk: table files and the log.
pub struct Storage {
    pub files: Seq<FileView>,
    pub log: Seq<u8>,
}

/// The value under each key.
pub type Values = spec_fn(Seq<char>) -> Option<Seq<char>>;

/// The values after a frame was applied.
pub open spec fn written(values: Values, frame: WalFrameView) -> Values {
    |key: Seq<char>|
        match frame.1 {
            Some((named, value)) => if named == key {
                value
            } else {
                values(key)
            },
            None => values(key),
        }
}

/// A disk is laid out in these files and this log.
pub open spec fn laid_out(disk: Disk, storage: Storage) -> bool {
    disk.files == storage.files && crate::lsm::wal::wal_of(disk.frames) == storage.log
}

/// A tree with its disk has these values.
pub open spec fn has_values(state: LsmState, disk: Disk, values: Values) -> bool {
    forall|key: Seq<char>| #[trigger]
        values(key) == crate::lsm::tree_laws::value(state.memtable, disk.data, key)
}

/// A tree agrees with what lies on disk, and the two have these values.
pub open spec fn agrees(state: LsmState, storage: Storage, values: Values) -> bool {
    exists|disk: Disk| #[trigger]
        crate::lsm::tree_laws::durable(state, disk) && laid_out(disk, storage) && has_values(
            state,
            disk,
            values,
        )
}

/// A tree that is opened on what lies on disk has these values, and has applied
/// all up to this index.
pub open spec fn recoverable(storage: Storage, values: Values, applied: LogIndex) -> bool {
    &&& crate::lsm::tree::all_sane(storage.files)
    &&& forall|options: LsmOptions|
        {
            &&& (#[trigger] LsmState::opened(storage.files, storage.log, options)) matches Ok(
                (state, torn),
            )
            &&& torn is None
            &&& state.last_applied == applied
            &&& agrees(state, storage, values)
        }
}

/// What lies on disk after an action.
pub open spec fn done(storage: Storage, action: DiskActionView) -> Storage {
    match action {
        DiskActionView::AppendLog(bytes) => Storage { log: storage.log + bytes, ..storage },
        DiskActionView::WriteTable(id, bytes) => Storage {
            files: storage.files.push((id, bytes)),
            ..storage
        },
        DiskActionView::EmptyLog => Storage { log: Seq::empty(), ..storage },
        DiskActionView::ReadTables(_) => storage,
        DiskActionView::RemoveTable(id) => Storage {
            files: crate::lsm::tree_laws::without_file(storage.files, id),
            ..storage
        },
        DiskActionView::Nothing => storage,
    }
}

/// A tree with other tables.
pub open spec fn with_tables(state: LsmState, tables: Seq<TableView>) -> LsmState {
    LsmState { tables, ..state }
}

/// Tables are merged into one, which accounts for all that they did.
pub open spec fn merging(
    disk: Disk,
    old_tables: Seq<TableView>,
    table: TableView,
    image: Seq<u8>,
    merged: Seq<DataEntryView>,
) -> bool {
    &&& crate::lsm::tree::merges(merged, crate::lsm::tree_laws::flattened(disk.data))
    &&& merged.len() > 0
    &&& crate::lsm::table::holds(image, merged, table.1)
    &&& table.0 > crate::lsm::tree::highest_id(old_tables)
    &&& table.1.2 == crate::lsm::tree::highest_index(old_tables)
}

/// A table into which others are merged is not written yet.
pub open spec fn merge_is_planned(
    state: LsmState,
    old_tables: Seq<TableView>,
    table: TableView,
    image: Seq<u8>,
    storage: Storage,
    values: Values,
) -> bool {
    exists|disk: Disk, merged: Seq<DataEntryView>|
        {
            &&& crate::lsm::tree_laws::durable(with_tables(state, old_tables), disk)
            &&& #[trigger] laid_out(disk, storage)
            &&& has_values(state, disk, values)
            &&& #[trigger] merging(disk, old_tables, table, image, merged)
        }
}

/// Nothing is left of tables, and that all they did is applied is not marked in
/// the log yet.
pub open spec fn mark_is_planned(
    state: LsmState,
    old_tables: Seq<TableView>,
    storage: Storage,
    values: Values,
) -> bool {
    exists|disk: Disk|
        {
            &&& crate::lsm::tree_laws::durable(with_tables(state, old_tables), disk)
            &&& #[trigger] laid_out(disk, storage)
            &&& has_values(state, disk, values)
            &&& crate::lsm::tree::merges(
                Seq::empty(),
                crate::lsm::tree_laws::flattened(disk.data),
            )
        }
}

/// Behind the tables of a tree lie old ones that have nothing to say any more.
pub open spec fn outdated(state: LsmState, old_tables: Seq<TableView>, disk: Disk) -> bool {
    let count = state.tables.len() as int;
    &&& crate::lsm::tree_laws::durable(with_tables(state, state.tables + old_tables), disk)
    &&& crate::lsm::tree_laws::superseded(disk.data.take(count), disk.data.skip(count))
    &&& state.last_applied == crate::lsm::tree_laws::accounted(
        disk.frames,
        crate::lsm::tree::highest_index(state.tables),
    )
}

/// Old tables are still to be removed.
pub open spec fn removal_is_planned(
    state: LsmState,
    old_tables: Seq<TableView>,
    storage: Storage,
    values: Values,
) -> bool {
    exists|disk: Disk|
        {
            &&& #[trigger] outdated(state, old_tables, disk)
            &&& laid_out(disk, storage)
            &&& has_values(state, disk, values)
        }
}

/// An operation is underway: its next action is not done yet, and the values are
/// those from before it.
pub open spec fn underway(
    state: LsmState,
    operation: OperationView,
    action: DiskActionView,
    storage: Storage,
    values: Values,
) -> bool {
    match operation {
        OperationView::Appending(frame) => {
            let code = crate::bytes::framed(crate::lsm::codec::code_of_frame(frame));
            &&& agrees(state, storage, values)
            &&& frame.0 == state.last_applied + 1
            &&& crate::lsm::codec::frame_is_storable(frame)
            &&& action == DiskActionView::AppendLog(code)
        },
        OperationView::Flushing(table) => {
            &&& agrees(state, storage, values)
            &&& state.memtable != MemtableView::empty()
            &&& table.0 == state.flush_id()
            &&& table.1.2 == state.last_applied
            &&& action matches DiskActionView::WriteTable(id, image)
            &&& id == table.0
            &&& crate::lsm::store::images(state.memtable, table, image)
        },
        OperationView::Emptying => {
            &&& agrees(state, storage, values)
            &&& state.memtable == MemtableView::empty()
            &&& crate::lsm::tree::highest_index(state.tables) == state.last_applied
            &&& action == DiskActionView::EmptyLog
        },
        OperationView::Reading(old_tables) => {
            &&& agrees(with_tables(state, old_tables), storage, values)
            &&& state.tables == Seq::<TableView>::empty()
            &&& action == DiskActionView::ReadTables(crate::lsm::store::ids_of(old_tables))
        },
        OperationView::Merging(old_tables, table) => {
            &&& state.tables == Seq::<TableView>::empty()
            &&& action matches DiskActionView::WriteTable(id, image)
            &&& id == table.0
            &&& merge_is_planned(state, old_tables, table, image, storage, values)
        },
        OperationView::Marking(old_tables) => {
            let frame = crate::lsm::store::mark_of(state);
            let code = crate::bytes::framed(crate::lsm::codec::code_of_frame(frame));
            &&& state.tables == Seq::<TableView>::empty()
            &&& crate::lsm::codec::frame_is_storable(frame)
            &&& action == DiskActionView::AppendLog(code)
            &&& mark_is_planned(state, old_tables, storage, values)
        },
        OperationView::Removing(old_tables) => {
            &&& old_tables.len() > 0
            &&& action == DiskActionView::RemoveTable(old_tables.last().0)
            &&& removal_is_planned(state, old_tables, storage, values)
        },
        OperationView::Over => {
            &&& agrees(state, storage, values)
            &&& action == DiskActionView::Nothing
        },
    }
}

/// The values after an operation's action: only an append changes any.
pub open spec fn values_after(values: Values, operation: OperationView) -> Values {
    match operation {
        OperationView::Appending(frame) => written(values, frame),
        _ => values,
    }
}

/// A tree stores what a key-value machine in memory holds: a command has the same
/// effect on both.
pub proof fn tree_applies_like_a_machine(
    values: Values,
    data: Map<Seq<char>, Seq<char>>,
    index: LogIndex,
    command: Command,
    key: Seq<char>,
)
    requires
        values(key) == (KvState { data, last_applied: 0 }).lookup(key),
    ensures
        written(values, (index, crate::lsm::record::stored_by(command)))(key) == (KvState {
            data: KvState::written(data, command),
            last_applied: 0,
        }).lookup(key),
{
}

/// What agrees with a tree can be recovered.
pub proof fn agreed_is_recoverable(state: LsmState, storage: Storage, values: Values)
    requires
        agrees(state, storage, values),
    ensures
        recoverable(storage, values, state.last_applied),
{
    let disk = choose|disk: Disk| #[trigger]
        crate::lsm::tree_laws::durable(state, disk) && laid_out(disk, storage) && has_values(
            state,
            disk,
            values,
        );
    crate::lsm::tree_laws::restart_keeps_values(state, disk, state.options);
    assert forall|options: LsmOptions|
        {
            &&& (#[trigger] LsmState::opened(storage.files, storage.log, options)) matches Ok(
                (again, torn),
            )
            &&& torn is None
            &&& again.last_applied == state.last_applied
            &&& agrees(again, storage, values)
        } by {
        crate::lsm::tree_laws::restart_keeps_values(state, disk, options);
        let again = LsmState::opened(storage.files, storage.log, options)->Ok_0.0;
        let cut = Disk { cut: crate::lsm::tree::highest_index(state.tables), ..disk };
        assert(crate::lsm::tree_laws::durable(again, cut));
        assert(laid_out(cut, storage));
        assert(has_values(again, cut, values)) by {
            assert forall|key: Seq<char>| #[trigger]
                values(key) == crate::lsm::tree_laws::value(again.memtable, cut.data, key) by {
                assert(crate::lsm::tree_laws::value(again.memtable, disk.data, key)
                    == crate::lsm::tree_laws::value(state.memtable, disk.data, key));
            }
        }
    }
}

/// A new tree agrees with an empty disk, and has no values.
pub proof fn new_tree_agrees(options: LsmOptions)
    ensures
        agrees(
            LsmState::over(Seq::empty(), options),
            (Storage { files: Seq::empty(), log: Seq::empty() }),
            (|key: Seq<char>| None),
        ),
{
    let state = LsmState::over(Seq::empty(), options);
    let disk = Disk {
        files: Seq::empty(),
        frames: Seq::empty(),
        images: Seq::empty(),
        data: Seq::empty(),
        cut: 0,
    };
    crate::lsm::tree_laws::new_tree_is_durable(options);
    assert(crate::lsm::tree_laws::durable(state, disk));
    assert(laid_out(disk, Storage { files: Seq::empty(), log: Seq::empty() }));
    assert(has_values(state, disk, |key: Seq<char>| None));
}

/// A read of a tree that agrees with its disk gives the value under the key.
pub proof fn read_gives_value(
    state: LsmState,
    storage: Storage,
    values: Values,
    images: Seq<Seq<u8>>,
    key: Seq<char>,
)
    requires
        agrees(state, storage, values),
        images.len() == state.tables.len(),
        forall|i: int|
            0 <= i < images.len() ==> storage.files.contains(
                ((#[trigger] state.tables[i]).0, images[i]),
            ),
    ensures
        state.filters_are_sound(),
        crate::lsm::tree_laws::read(state, images, key) matches Ok(found)
            && crate::lsm::tree_laws::value_of(found) == values(key),
{
    let disk = disk_of(state, storage, values);
    files_are_read(state, disk, state.tables, images);
    crate::lsm::tree_laws::read_gives_content(state, images, disk.data, key);
}

/// An apply begins on a tree that agrees with its disk.
pub proof fn apply_begins_underway(
    state: LsmState,
    frame: WalFrameView,
    storage: Storage,
    values: Values,
    operation: OperationView,
    action: DiskActionView,
)
    requires
        agrees(state, storage, values),
        crate::lsm::store::applies(state, frame, Step::Ok((operation, action))),
    ensures
        underway(state, operation, action, storage, values),
{
}

/// A flush begins on a tree that agrees with its disk.
pub proof fn flush_begins_underway(
    state: LsmState,
    storage: Storage,
    values: Values,
    operation: OperationView,
    action: DiskActionView,
)
    requires
        agrees(state, storage, values),
        crate::lsm::store::flushes(state, Step::Ok((operation, action))),
    ensures
        underway(state, operation, action, storage, values),
{
}

/// A compaction begins on a tree that agrees with its disk.
pub proof fn compaction_begins_underway(
    before: LsmState,
    after: LsmState,
    storage: Storage,
    values: Values,
    operation: OperationView,
    action: DiskActionView,
)
    requires
        agrees(before, storage, values),
        crate::lsm::store::compacts(before, after, Step::Ok((operation, action))),
    ensures
        underway(after, operation, action, storage, values),
{
    if before.tables.len() >= 2 {
        assert(with_tables(after, before.tables) =~= before);
    }
}

/// The disk that agrees with a tree.
proof fn disk_of(state: LsmState, storage: Storage, values: Values) -> (disk: Disk)
    requires
        agrees(state, storage, values),
    ensures
        crate::lsm::tree_laws::durable(state, disk),
        laid_out(disk, storage),
        has_values(state, disk, values),
{
    choose|disk: Disk| #[trigger]
        crate::lsm::tree_laws::durable(state, disk) && laid_out(disk, storage) && has_values(
            state,
            disk,
            values,
        )
}

proof fn append_agrees(
    state: LsmState,
    frame: WalFrameView,
    action: DiskActionView,
    storage: Storage,
    values: Values,
)
    requires
        underway(state, OperationView::Appending(frame), action, storage, values),
        done(storage, action).log.len() <= usize::MAX,
    ensures
        agrees(state.recorded(frame), done(storage, action), written(values, frame)),
{
    let disk = disk_of(state, storage, values);
    let next = Disk { frames: disk.frames.push(frame), ..disk };
    let after = state.recorded(frame);
    crate::lsm::wal::append_extends(disk.frames, frame);
    crate::lsm::tree_laws::append_is_durable(state, disk, frame);
    assert(laid_out(next, done(storage, action)));
    assert(has_values(after, next, written(values, frame))) by {
        assert forall|key: Seq<char>| #[trigger]
            written(values, frame)(key) == crate::lsm::tree_laws::value(
                after.memtable,
                next.data,
                key,
            ) by {
            assert(values(key) == crate::lsm::tree_laws::value(state.memtable, disk.data, key));
        }
    }
}

proof fn flush_agrees(
    state: LsmState,
    table: TableView,
    action: DiskActionView,
    storage: Storage,
    values: Values,
)
    requires
        underway(state, OperationView::Flushing(table), action, storage, values),
    ensures
        agrees(state.flushed(table), done(storage, action), values),
        crate::lsm::tree::highest_index(state.flushed(table).tables) == state.last_applied,
{
    let disk = disk_of(state, storage, values);
    let image = action->WriteTable_1;
    let entries = choose|entries: Seq<DataEntryView>| #[trigger]
        crate::lsm::tree::lists(entries, state.memtable) && crate::lsm::table::holds(
            image,
            entries,
            table.1,
        );
    let after = state.flushed(table);
    let next = Disk {
        files: disk.files.push((table.0, image)),
        images: seq![image] + disk.images,
        data: seq![entries] + disk.data,
        cut: state.last_applied,
        ..disk
    };
    crate::lsm::tree_laws::written_table_is_durable(state, disk, table, image, entries);
    assert(laid_out(next, done(storage, action)));
    assert(has_values(after, next, values)) by {
        assert forall|key: Seq<char>| #[trigger]
            values(key) == crate::lsm::tree_laws::value(after.memtable, next.data, key) by {
            assert(values(key) == crate::lsm::tree_laws::value(state.memtable, disk.data, key));
            crate::lsm::tree_laws::flush_keeps_values(state.memtable, entries, disk.data, key);
        }
    }
}

proof fn emptying_agrees(
    state: LsmState,
    action: DiskActionView,
    storage: Storage,
    values: Values,
)
    requires
        underway(state, OperationView::Emptying, action, storage, values),
    ensures
        agrees(state, done(storage, action), values),
{
    let disk = disk_of(state, storage, values);
    let next = Disk { frames: Seq::empty(), ..disk };
    crate::lsm::tree_laws::emptied_log_is_durable(state, disk);
    assert(laid_out(next, done(storage, action)));
    assert(has_values(state, next, values)) by {
        assert forall|key: Seq<char>| #[trigger]
            values(key) == crate::lsm::tree_laws::value(state.memtable, next.data, key) by {
            assert(values(key) == crate::lsm::tree_laws::value(state.memtable, disk.data, key));
        }
    }
}

/// A tree agrees with its disk, however many compactions it counts.
proof fn compactions_do_not_matter(a: LsmState, b: LsmState, disk: Disk)
    requires
        crate::lsm::tree_laws::durable(a, disk),
        a.tables == b.tables,
        a.memtable == b.memtable,
        a.last_applied == b.last_applied,
    ensures
        crate::lsm::tree_laws::durable(b, disk),
{
    reveal(crate::lsm::tree_laws::durable);
}

/// Old tables go, the oldest first, or nothing is left to do.
proof fn removal_begins(
    state: LsmState,
    old_tables: Seq<TableView>,
    disk: Disk,
    storage: Storage,
    values: Values,
    next: OperationView,
    next_action: DiskActionView,
)
    requires
        outdated(state, old_tables, disk),
        laid_out(disk, storage),
        has_values(state, disk, values),
        crate::lsm::store::removal(old_tables) == Step::Ok((next, next_action)),
    ensures
        underway(state, next, next_action, storage, values),
{
    if old_tables.len() == 0 {
        assert(state.tables + old_tables =~= state.tables);
        assert(with_tables(state, state.tables + old_tables) =~= state);
    } else {
        assert(removal_is_planned(state, old_tables, storage, values));
    }
}

proof fn merge_agrees(
    state: LsmState,
    old_tables: Seq<TableView>,
    table: TableView,
    action: DiskActionView,
    storage: Storage,
    values: Values,
    next: OperationView,
    next_action: DiskActionView,
)
    requires
        underway(state, OperationView::Merging(old_tables, table), action, storage, values),
        crate::lsm::store::removal(old_tables) == Step::Ok((next, next_action)),
    ensures
        underway(
            state.compacted(Some(table)),
            next,
            next_action,
            done(storage, action),
            values,
        ),
{
    let image = action->WriteTable_1;
    let (disk, merged) = choose|disk: Disk, merged: Seq<DataEntryView>|
        {
            &&& crate::lsm::tree_laws::durable(with_tables(state, old_tables), disk)
            &&& #[trigger] laid_out(disk, storage)
            &&& has_values(state, disk, values)
            &&& #[trigger] merging(disk, old_tables, table, image, merged)
        };
    let before = with_tables(state, old_tables);
    let after = state.compacted(Some(table));
    let full = LsmState { tables: seq![table] + before.tables, ..before };
    let next_disk = Disk {
        files: disk.files.push((table.0, image)),
        images: seq![image] + disk.images,
        data: seq![merged] + disk.data,
        ..disk
    };
    crate::lsm::tree_laws::merged_table_is_durable(before, disk, table, image, merged);
    crate::lsm::tree_laws::one_table_is_first(state.tables, table);
    assert(after.tables =~= seq![table]);
    compactions_do_not_matter(full, with_tables(after, after.tables + old_tables), next_disk);
    assert(next_disk.data.take(1) =~= crate::lsm::tree_laws::merged_data(merged));
    assert(next_disk.data.skip(1) =~= disk.data);
    assert(state.last_applied == crate::lsm::tree_laws::accounted(
        disk.frames,
        crate::lsm::tree::highest_index(old_tables),
    ) && crate::lsm::tree_laws::backed(old_tables, disk.images, disk.data)) by {
        reveal(crate::lsm::tree_laws::durable);
    }
    crate::lsm::tree_laws::all_by_key(old_tables, disk.images, disk.data);
    crate::lsm::tree_laws::merged_supersedes(disk.data, merged);
    assert(outdated(after, old_tables, next_disk));
    assert(laid_out(next_disk, done(storage, action)));
    assert(has_values(after, next_disk, values)) by {
        assert forall|key: Seq<char>| #[trigger]
            values(key) == crate::lsm::tree_laws::value(after.memtable, next_disk.data, key) by {
            assert(values(key) == crate::lsm::tree_laws::value(state.memtable, disk.data, key));
            assert(crate::lsm::tree_laws::value(state.memtable, seq![merged] + disk.data, key)
                == crate::lsm::tree_laws::value(state.memtable, disk.data, key));
        }
    }
    removal_begins(
        after,
        old_tables,
        next_disk,
        done(storage, action),
        values,
        next,
        next_action,
    );
}

proof fn mark_agrees(
    state: LsmState,
    old_tables: Seq<TableView>,
    action: DiskActionView,
    storage: Storage,
    values: Values,
    next: OperationView,
    next_action: DiskActionView,
)
    requires
        underway(state, OperationView::Marking(old_tables), action, storage, values),
        done(storage, action).log.len() <= usize::MAX,
        crate::lsm::store::removal(old_tables) == Step::Ok((next, next_action)),
    ensures
        underway(state.compacted(None), next, next_action, done(storage, action), values),
{
    let disk = choose|disk: Disk|
        {
            &&& crate::lsm::tree_laws::durable(with_tables(state, old_tables), disk)
            &&& #[trigger] laid_out(disk, storage)
            &&& has_values(state, disk, values)
            &&& crate::lsm::tree::merges(
                Seq::empty(),
                crate::lsm::tree_laws::flattened(disk.data),
            )
        };
    let frame = crate::lsm::store::mark_of(state);
    let before = with_tables(state, old_tables);
    let after = state.compacted(None);
    let next_disk = Disk { frames: disk.frames.push(frame), ..disk };
    let nothing = Seq::<DataEntryView>::empty();
    crate::lsm::wal::append_extends(disk.frames, frame);
    crate::lsm::tree_laws::mark_is_durable(before, disk);
    assert(after.tables =~= Seq::empty());
    assert(after.tables + old_tables =~= old_tables);
    compactions_do_not_matter(before, with_tables(after, after.tables + old_tables), next_disk);
    assert(next_disk.data.take(0) =~= crate::lsm::tree_laws::merged_data(nothing));
    assert(next_disk.data.skip(0) =~= disk.data);
    assert(crate::lsm::tree_laws::backed(old_tables, disk.images, disk.data)) by {
        reveal(crate::lsm::tree_laws::durable);
    }
    crate::lsm::tree_laws::all_by_key(old_tables, disk.images, disk.data);
    crate::lsm::tree_laws::merged_supersedes(disk.data, nothing);
    assert(outdated(after, old_tables, next_disk));
    assert(laid_out(next_disk, done(storage, action)));
    assert(has_values(after, next_disk, values)) by {
        assert forall|key: Seq<char>| #[trigger]
            values(key) == crate::lsm::tree_laws::value(after.memtable, next_disk.data, key) by {
            assert(values(key) == crate::lsm::tree_laws::value(state.memtable, disk.data, key));
        }
    }
    removal_begins(
        after,
        old_tables,
        next_disk,
        done(storage, action),
        values,
        next,
        next_action,
    );
}

proof fn removal_agrees(
    state: LsmState,
    old_tables: Seq<TableView>,
    action: DiskActionView,
    storage: Storage,
    values: Values,
    next: OperationView,
    next_action: DiskActionView,
)
    requires
        underway(state, OperationView::Removing(old_tables), action, storage, values),
        crate::lsm::store::removal(old_tables.drop_last()) == Step::Ok((next, next_action)),
    ensures
        underway(state, next, next_action, done(storage, action), values),
{
    let disk = choose|disk: Disk|
        {
            &&& #[trigger] outdated(state, old_tables, disk)
            &&& laid_out(disk, storage)
            &&& has_values(state, disk, values)
        };
    let count = state.tables.len() as int;
    let full = with_tables(state, state.tables + old_tables);
    let less = old_tables.drop_last();
    let id = old_tables.last().0;
    let next_disk = crate::lsm::tree_laws::shortened(disk, id);
    assert(full.tables.take(count) =~= state.tables);
    assert(full.tables.last() == old_tables.last());
    assert(full.tables.drop_last() =~= state.tables + less);
    crate::lsm::tree_laws::removal_is_durable(full, disk, count);
    assert(outdated(state, less, next_disk));
    assert(laid_out(next_disk, done(storage, action)));
    assert(has_values(state, next_disk, values)) by {
        assert forall|key: Seq<char>| #[trigger]
            values(key) == crate::lsm::tree_laws::value(state.memtable, next_disk.data, key) by {
            assert(values(key) == crate::lsm::tree_laws::value(state.memtable, disk.data, key));
            assert(crate::lsm::tree_laws::value(state.memtable, disk.data.drop_last(), key)
                == crate::lsm::tree_laws::value(state.memtable, disk.data, key));
        }
    }
    removal_begins(state, less, next_disk, done(storage, action), values, next, next_action);
}

/// At every moment of an operation, a tree opened on what lies on disk has the
/// values that it had, and has applied as much.
pub proof fn underway_is_recoverable(
    state: LsmState,
    operation: OperationView,
    action: DiskActionView,
    storage: Storage,
    values: Values,
)
    requires
        underway(state, operation, action, storage, values),
    ensures
        recoverable(storage, values, state.last_applied),
{
    match operation {
        OperationView::Reading(old_tables) => {
            agreed_is_recoverable(with_tables(state, old_tables), storage, values);
        },
        OperationView::Merging(old_tables, table) => {
            let image = action->WriteTable_1;
            let (disk, merged) = choose|disk: Disk, merged: Seq<DataEntryView>|
                {
                    &&& crate::lsm::tree_laws::durable(with_tables(state, old_tables), disk)
                    &&& #[trigger] laid_out(disk, storage)
                    &&& has_values(state, disk, values)
                    &&& #[trigger] merging(disk, old_tables, table, image, merged)
                };
            old_tables_agree(state, old_tables, disk, storage, values);
        },
        OperationView::Marking(old_tables) => {
            let disk = choose|disk: Disk|
                {
                    &&& crate::lsm::tree_laws::durable(with_tables(state, old_tables), disk)
                    &&& #[trigger] laid_out(disk, storage)
                    &&& has_values(state, disk, values)
                    &&& crate::lsm::tree::merges(
                        Seq::empty(),
                        crate::lsm::tree_laws::flattened(disk.data),
                    )
                };
            old_tables_agree(state, old_tables, disk, storage, values);
        },
        OperationView::Removing(old_tables) => {
            let disk = choose|disk: Disk|
                {
                    &&& #[trigger] outdated(state, old_tables, disk)
                    &&& laid_out(disk, storage)
                    &&& has_values(state, disk, values)
                };
            old_tables_agree(state, state.tables + old_tables, disk, storage, values);
        },
        _ => {
            agreed_is_recoverable(state, storage, values);
        },
    }
}

proof fn old_tables_agree(
    state: LsmState,
    tables: Seq<TableView>,
    disk: Disk,
    storage: Storage,
    values: Values,
)
    requires
        crate::lsm::tree_laws::durable(with_tables(state, tables), disk),
        laid_out(disk, storage),
        has_values(state, disk, values),
    ensures
        recoverable(storage, values, state.last_applied),
{
    let full = with_tables(state, tables);
    assert(has_values(full, disk, values)) by {
        assert forall|key: Seq<char>| #[trigger]
            values(key) == crate::lsm::tree_laws::value(full.memtable, disk.data, key) by {
            assert(values(key) == crate::lsm::tree_laws::value(state.memtable, disk.data, key));
        }
    }
    agreed_is_recoverable(full, storage, values);
}

/// Nothing is lost between two actions of an operation: once an action is done, a
/// tree opened on what lies on disk has the values from before, with an append
/// those of its command, and it has applied as much as the tree; and the operation
/// goes on from there.
pub proof fn actions_keep_values(
    before: LsmState,
    operation: OperationView,
    action: DiskActionView,
    storage: Storage,
    values: Values,
    after: LsmState,
    step: Step,
)
    requires
        underway(before, operation, action, storage, values),
        done(storage, action).log.len() <= usize::MAX,
        crate::lsm::store::goes_on(before, operation, after, step),
    ensures
        recoverable(storage, values, before.last_applied),
        recoverable(done(storage, action), values_after(values, operation), after.last_applied),
        step matches Ok((next, next_action)) ==> underway(
            after,
            next,
            next_action,
            done(storage, action),
            values_after(values, operation),
        ),
{
    let later = done(storage, action);
    underway_is_recoverable(before, operation, action, storage, values);
    match operation {
        OperationView::Appending(frame) => {
            append_agrees(before, frame, action, storage, values);
            agreed_is_recoverable(after, later, written(values, frame));
        },
        OperationView::Flushing(table) => {
            flush_agrees(before, table, action, storage, values);
            agreed_is_recoverable(after, later, values);
        },
        OperationView::Emptying => {
            emptying_agrees(before, action, storage, values);
            agreed_is_recoverable(before, later, values);
            if before.is_compaction_due() && before.tables.len() >= 2 {
                assert(with_tables(after, before.tables) =~= before);
            }
        },
        OperationView::Merging(old_tables, table) => {
            let (next, next_action) = step->Ok_0;
            merge_agrees(before, old_tables, table, action, storage, values, next, next_action);
            underway_is_recoverable(after, next, next_action, later, values);
        },
        OperationView::Marking(old_tables) => {
            let (next, next_action) = step->Ok_0;
            mark_agrees(before, old_tables, action, storage, values, next, next_action);
            underway_is_recoverable(after, next, next_action, later, values);
        },
        OperationView::Removing(old_tables) => {
            let (next, next_action) = step->Ok_0;
            removal_agrees(before, old_tables, action, storage, values, next, next_action);
            underway_is_recoverable(after, next, next_action, later, values);
        },
        OperationView::Over => {},
        OperationView::Reading(_) => {},
    }
}

/// What is read of a tree's table files is what they hold.
proof fn files_are_read(
    state: LsmState,
    disk: Disk,
    tables: Seq<TableView>,
    read: Seq<Seq<u8>>,
)
    requires
        crate::lsm::tree_laws::durable(state, disk),
        tables == state.tables,
        read.len() == tables.len(),
        forall|i: int|
            0 <= i < read.len() ==> disk.files.contains(((#[trigger] tables[i]).0, read[i])),
    ensures
        read == disk.images,
        crate::lsm::tree_laws::backed(tables, disk.images, disk.data),
{
    reveal(crate::lsm::tree_laws::durable);
    assert forall|i: int| 0 <= i < read.len() implies read[i] == disk.images[i] by {
        let file = (tables[i].0, read[i]);
        assert(disk.files.contains(file));
        let k = choose|k: int| 0 <= k < disk.files.len() && disk.files[k] == file;
        assert(crate::lsm::tree_laws::is_file_of(disk.files[k], tables, disk.images));
        let j = choose|j: int|
            0 <= j < tables.len() && disk.files[k] == ((#[trigger] tables[j]).0, disk.images[j]);
        assert(i == j);
    }
    assert(read =~= disk.images);
}

/// A compaction that has read its tables goes on with a table to write, or with a
/// mark in the log where nothing is left.
proof fn merging_begins(
    state: LsmState,
    old_tables: Seq<TableView>,
    disk: Disk,
    storage: Storage,
    values: Values,
    next: OperationView,
    next_action: DiskActionView,
)
    requires
        state.tables == Seq::<TableView>::empty(),
        crate::lsm::tree_laws::durable(with_tables(state, old_tables), disk),
        laid_out(disk, storage),
        has_values(state, disk, values),
        crate::lsm::tree::all_entries_in(disk.images) == Ok::<Seq<DataEntryView>, LsmError>(
            crate::lsm::tree_laws::flattened(disk.data),
        ),
        crate::lsm::store::merges_on(
            state,
            old_tables,
            disk.images,
            Step::Ok((next, next_action)),
        ),
    ensures
        underway(state, next, next_action, storage, values),
{
    let from = crate::lsm::tree_laws::flattened(disk.data);
    match next {
        OperationView::Merging(_, table) => {
            let image = next_action->WriteTable_1;
            let merged = choose|merged: Seq<DataEntryView>| #[trigger]
                crate::lsm::tree::merges(merged, from) && merged.len() > 0
                    && crate::lsm::table::holds(image, merged, table.1);
            assert(merging(disk, old_tables, table, image, merged));
            assert(merge_is_planned(state, old_tables, table, image, storage, values));
        },
        _ => {
            assert(mark_is_planned(state, old_tables, storage, values));
        },
    }
}

/// A compaction whose tables were read goes on, with no value lost.
pub proof fn reading_keeps_values(
    state: LsmState,
    old_tables: Seq<TableView>,
    action: DiskActionView,
    storage: Storage,
    values: Values,
    read: Seq<Seq<u8>>,
    step: Step,
)
    requires
        underway(state, OperationView::Reading(old_tables), action, storage, values),
        read.len() == old_tables.len(),
        forall|i: int|
            0 <= i < read.len() ==> storage.files.contains(
                ((#[trigger] old_tables[i]).0, read[i]),
            ),
        crate::lsm::store::merges_on(state, old_tables, read, step),
    ensures
        recoverable(storage, values, state.last_applied),
        step matches Ok((next, next_action)) ==> underway(
            state,
            next,
            next_action,
            storage,
            values,
        ),
{
    let before = with_tables(state, old_tables);
    agreed_is_recoverable(before, storage, values);
    let disk = disk_of(before, storage, values);
    files_are_read(before, disk, old_tables, read);
    crate::lsm::tree_laws::all_entries_are_read_back(old_tables, disk.images, disk.data);
    assert(has_values(state, disk, values)) by {
        assert forall|key: Seq<char>| #[trigger]
            values(key) == crate::lsm::tree_laws::value(state.memtable, disk.data, key) by {
            assert(values(key) == crate::lsm::tree_laws::value(before.memtable, disk.data, key));
        }
    }
    if let Ok((next, next_action)) = step {
        merging_begins(state, old_tables, disk, storage, values, next, next_action);
    }
}

} // verus!
