//! A tree that is opened on any directory is the same when it is opened again.
use crate::bytes::FrameAt;
use crate::lsm::machine_laws::Moment;
use crate::lsm::record::{LsmError, WalFrameView};
use crate::lsm::store::{DiskActionView, OperationView, Step};
use crate::lsm::store_laws::Storage;
use crate::lsm::tree::{FileView, LsmOptions, LsmState, TableView};
use crate::types::LogIndex;
use vstd::prelude::*;

verus! {

/// Trees with the same memtable, the same tables and as much applied. How often
/// each has read from disk and compacted does not matter.
pub open spec fn same_tree(a: LsmState, b: LsmState) -> bool {
    &&& a.memtable == b.memtable
    &&& a.memtable_bytes == b.memtable_bytes
    &&& a.tables == b.tables
    &&& a.last_applied == b.last_applied
    &&& a.options == b.options
}

/// Such trees are read alike.
pub proof fn same_trees_read_alike(
    a: LsmState,
    b: LsmState,
    images: Seq<Seq<u8>>,
    key: Seq<char>,
)
    requires
        same_tree(a, b),
    ensures
        crate::lsm::tree_laws::read(a, images, key) == crate::lsm::tree_laws::read(b, images, key),
{
}

/// A tree that is opened on what lies on disk is this one.
pub open spec fn reopens(state: LsmState, storage: Storage) -> bool {
    &&& LsmState::opened(storage.files, storage.log, state.options) matches Ok((again, torn))
    &&& torn is None
    &&& same_tree(again, state)
}

/// What lies on disk after a tree was opened: a torn log is cut.
pub open spec fn mended(storage: Storage, torn: Option<int>) -> Storage {
    match torn {
        Some(at) => Storage { log: storage.log.take(at), ..storage },
        None => storage,
    }
}

/// A log is read as whole frames.
pub open spec fn reads_as(log: Seq<u8>, frames: Seq<WalFrameView>) -> bool {
    crate::lsm::wal::wal_in(log) == Ok::<(Seq<WalFrameView>, Option<int>), LsmError>((frames, None))
}

/// Where a log is torn it can be cut, and then holds the same frames.
proof fn cut_log_reads(bytes: Seq<u8>, at: int, from: int)
    requires
        0 <= from <= bytes.len() <= usize::MAX,
        crate::lsm::wal::wal_from(bytes, from) matches Ok((_, torn)) && torn == Some(at),
    ensures
        from <= at <= bytes.len(),
        crate::lsm::wal::wal_from(bytes.take(at), from) == Ok::<
            (Seq<WalFrameView>, Option<int>),
            LsmError,
        >((crate::lsm::wal::wal_from(bytes, from)->Ok_0.0, None)),
    decreases bytes.len() - from,
{
    match crate::bytes::frame_at(bytes, from) {
        FrameAt::Whole { start, end } => {
            let next = crate::bytes::frame_end(bytes, from);
            cut_log_reads(bytes, at, next);
            let less = bytes.take(at);
            assert(less.subrange(from, from + 4) =~= bytes.subrange(from, from + 4));
            assert(less.subrange(start as int, end as int) =~= bytes.subrange(
                start as int,
                end as int,
            ));
        },
        _ => {},
    }
}

/// A frame that is appended to a log is read behind all that it holds.
proof fn appended_frame_reads(log: Seq<u8>, frame: WalFrameView, from: int)
    requires
        0 <= from <= log.len(),
        crate::lsm::codec::frame_is_storable(frame),
        log.len() + crate::bytes::framed(crate::lsm::codec::code_of_frame(frame)).len()
            <= usize::MAX,
        crate::lsm::wal::wal_from(log, from) matches Ok((_, torn)) && torn is None,
    ensures
        crate::lsm::wal::wal_from(
            log + crate::bytes::framed(crate::lsm::codec::code_of_frame(frame)),
            from,
        ) == Ok::<(Seq<WalFrameView>, Option<int>), LsmError>(
            (crate::lsm::wal::wal_from(log, from)->Ok_0.0.push(frame), None),
        ),
    decreases log.len() - from,
{
    let payload = crate::lsm::codec::code_of_frame(frame);
    let more = log + crate::bytes::framed(payload);
    match crate::bytes::frame_at(log, from) {
        FrameAt::Whole { start, end } => {
            let next = crate::bytes::frame_end(log, from);
            appended_frame_reads(log, frame, next);
            assert(more.subrange(from, from + 4) =~= log.subrange(from, from + 4));
            assert(more.subrange(start as int, end as int) =~= log.subrange(
                start as int,
                end as int,
            ));
            let first = crate::lsm::codec::wal_meaning(
                log.subrange(start as int, end as int),
            )->Some_0;
            let rest = crate::lsm::wal::wal_from(log, next)->Ok_0.0;
            assert(seq![first] + rest.push(frame) =~= (seq![first] + rest).push(frame));
        },
        FrameAt::End => {
            assert(more + Seq::<u8>::empty() =~= more);
            crate::bytes::radix_powers();
            crate::bytes::be_round_trip(payload.len(), 4);
            crate::bytes::frame_is_read_back(log, payload, Seq::empty());
            let end = crate::bytes::frame_end(more, from);
            assert(crate::lsm::wal::wal_from(more, end) == Ok::<
                (Seq<WalFrameView>, Option<int>),
                LsmError,
            >((Seq::empty(), None)));
            assert(seq![frame] + Seq::<WalFrameView>::empty() =~= Seq::<WalFrameView>::empty().push(
                frame,
            ));
        },
        FrameAt::Torn => {},
    }
}

/// Trees that have come to the same memtable and index.
pub open spec fn same_memory(a: LsmState, b: LsmState) -> bool {
    &&& a.memtable == b.memtable
    &&& a.memtable_bytes == b.memtable_bytes
    &&& a.last_applied == b.last_applied
}

/// A replay touches no table, and takes such trees to such trees.
proof fn replays_alike(a: LsmState, b: LsmState, frames: Seq<WalFrameView>)
    requires
        same_memory(a, b),
    ensures
        same_memory(a.replayed(frames), b.replayed(frames)),
        a.replayed(frames).tables == a.tables,
        a.replayed(frames).options == a.options,
        a.replayed(frames).last_applied >= a.last_applied,
    decreases frames.len(),
{
    if frames.len() > 0 {
        replays_alike(a, b, frames.drop_last());
    }
}

/// Every record of a log is later than an index.
pub open spec fn records_after(frames: Seq<WalFrameView>, index: LogIndex) -> bool {
    forall|i: int|
        0 <= i < frames.len() && (#[trigger] frames[i]).1 is Some ==> frames[i].0 > index
}

/// Over tables that account for no record of the log, a replay makes the same of it
/// as over none, but for what is applied where the log ends early.
proof fn replay_needs_no_tables(a: LsmState, b: LsmState, frames: Seq<WalFrameView>)
    requires
        a.memtable == b.memtable,
        a.memtable_bytes == b.memtable_bytes,
        b.last_applied <= a.last_applied,
        records_after(frames, a.last_applied),
    ensures
        ({
            let x = a.replayed(frames);
            let y = b.replayed(frames);
            &&& x.memtable == y.memtable
            &&& x.memtable_bytes == y.memtable_bytes
            &&& x.last_applied == y.last_applied || y.last_applied <= x.last_applied
                == a.last_applied
        }),
    decreases frames.len(),
{
    if frames.len() > 0 {
        let less = frames.drop_last();
        assert forall|i: int| 0 <= i < less.len() && (#[trigger] less[i]).1 is Some implies less[i].0
            > a.last_applied by {
            assert(less[i] == frames[i]);
        }
        replay_needs_no_tables(a, b, less);
        replays_alike(a, a, less);
        assert(frames.last() == frames[frames.len() - 1]);
    }
}

/// A table with the highest id is the newest.
proof fn newest_goes_first(tables: Seq<TableView>, table: TableView)
    requires
        forall|i: int| 0 <= i < tables.len() ==> (#[trigger] tables[i]).0 < table.0,
    ensures
        crate::lsm::tree::placed(tables, table) == seq![table] + tables,
    decreases tables.len(),
{
    if tables.len() > 0 {
        let less = tables.drop_last();
        assert(tables[tables.len() - 1].0 < table.0);
        assert forall|i: int| 0 <= i < less.len() implies (#[trigger] less[i]).0 < table.0 by {
            assert(tables[i].0 < table.0);
        }
        newest_goes_first(less, table);
        assert((seq![table] + less).push(tables.last()) =~= seq![table] + tables);
    } else {
        assert(tables.push(table) =~= seq![table] + tables);
    }
}

/// A file with the highest id is loaded as the newest table.
proof fn new_file_is_loaded(
    files: Seq<FileView>,
    tables: Seq<TableView>,
    file: FileView,
    table: TableView,
)
    requires
        crate::lsm::tree::tables_in(files) is Ok,
        crate::lsm::tree::newest_first(crate::lsm::tree::tables_in(files)->Ok_0) == tables,
        table.0 > crate::lsm::tree::highest_id(tables),
        file.0 == table.0,
        crate::lsm::table::footer_in(file.1) == Ok::<crate::lsm::codec::FooterView, LsmError>(
            table.1,
        ),
    ensures
        crate::lsm::tree::tables_in(files.push(file)) is Ok,
        crate::lsm::tree::newest_first(crate::lsm::tree::tables_in(files.push(file))->Ok_0)
            == seq![table] + tables,
{
    let before = crate::lsm::tree::tables_in(files)->Ok_0;
    assert(files.push(file).drop_last() =~= files);
    assert(before.push(table).drop_last() =~= before);
    assert forall|i: int| 0 <= i < tables.len() implies (#[trigger] tables[i]).0 < table.0 by {
        crate::lsm::tree_laws::highest_id_bounds(tables, i);
    }
    newest_goes_first(tables, table);
}

/// A newer table accounts for as much as the tree has applied.
proof fn newest_accounts(tables: Seq<TableView>, table: TableView)
    requires
        crate::lsm::tree::highest_index(tables) <= table.1.2,
    ensures
        crate::lsm::tree::highest_index(seq![table] + tables) == table.1.2,
{
    let all = seq![table] + tables;
    assert(all[0] == table);
    crate::lsm::tree_laws::highest_index_bounds(all, 0);
    assert forall|i: int| 0 <= i < all.len() implies (#[trigger] all[i]).1.2 <= table.1.2 by {
        if i > 0 {
            assert(all[i] == tables[i - 1]);
            crate::lsm::tree_laws::highest_index_bounds(tables, i - 1);
        }
    }
    crate::lsm::tree_laws::highest_index_is_bounded(all, table.1.2 as int);
}

/// All files but those with one of several ids.
pub open spec fn without_files(files: Seq<FileView>, ids: Seq<u64>) -> Seq<FileView> {
    files.filter(|file: FileView| !ids.contains(file.0))
}

/// Removing one file of several leaves the others to be removed.
proof fn one_file_less(files: Seq<FileView>, ids: Seq<u64>)
    requires
        ids.len() > 0,
    ensures
        without_files(
            crate::lsm::tree_laws::without_file(files, ids.last()),
            ids.drop_last(),
        ) == without_files(files, ids),
    decreases files.len(),
{
    reveal(Seq::filter);
    let less = ids.drop_last();
    if files.len() > 0 {
        let file = files.last();
        one_file_less(files.drop_last(), ids);
        let head = crate::lsm::tree_laws::without_file(files.drop_last(), ids.last());
        if ids.contains(file.0) {
            let i = choose|i: int| 0 <= i < ids.len() && ids[i] == file.0;
            if i < less.len() {
                assert(less[i] == file.0);
                assert(less.contains(file.0));
            }
        }
        if less.contains(file.0) {
            let i = choose|i: int| 0 <= i < less.len() && less[i] == file.0;
            assert(ids[i] == file.0);
        }
        assert(ids[ids.len() - 1] == ids.last());
        if file.0 != ids.last() {
            assert(head.push(file).drop_last() =~= head);
        }
    }
}

proof fn all_files_go(files: Seq<FileView>, ids: Seq<u64>)
    requires
        forall|k: int| 0 <= k < files.len() ==> ids.contains((#[trigger] files[k]).0),
    ensures
        without_files(files, ids) == Seq::<FileView>::empty(),
    decreases files.len(),
{
    reveal(Seq::filter);
    if files.len() > 0 {
        let less = files.drop_last();
        assert forall|k: int| 0 <= k < less.len() implies ids.contains((#[trigger] less[k]).0) by {
            assert(less[k] == files[k]);
        }
        all_files_go(less, ids);
        assert(ids.contains(files[files.len() - 1].0));
    }
}

proof fn no_file_goes(files: Seq<FileView>)
    ensures
        without_files(files, Seq::empty()) == files,
    decreases files.len(),
{
    reveal(Seq::filter);
    if files.len() > 0 {
        no_file_goes(files.drop_last());
        assert(files.drop_last().push(files.last()) =~= files);
    } else {
        assert(files =~= Seq::empty());
    }
}

proof fn placing_keeps_ids(tables: Seq<TableView>, table: TableView, id: u64)
    ensures
        crate::lsm::store::ids_of(crate::lsm::tree::placed(tables, table)).contains(id)
            == (crate::lsm::store::ids_of(tables).contains(id) || id == table.0),
    decreases tables.len(),
{
    let ids = crate::lsm::store::ids_of(tables);
    if tables.len() == 0 || tables.last().0 >= table.0 {
        pushing_adds_id(tables, table, id);
    } else {
        let less = tables.drop_last();
        placing_keeps_ids(less, table, id);
        pushing_adds_id(crate::lsm::tree::placed(less, table), tables.last(), id);
        pushing_adds_id(less, tables.last(), id);
        assert(less.push(tables.last()) =~= tables);
    }
}

proof fn pushing_adds_id(tables: Seq<TableView>, table: TableView, id: u64)
    ensures
        crate::lsm::store::ids_of(tables.push(table)).contains(id) == (crate::lsm::store::ids_of(
            tables,
        ).contains(id) || id == table.0),
{
    let ids = crate::lsm::store::ids_of(tables);
    let more = crate::lsm::store::ids_of(tables.push(table));
    assert(more =~= ids.push(table.0));
    if ids.contains(id) {
        let i = choose|i: int| 0 <= i < ids.len() && ids[i] == id;
        assert(more[i] == id);
    }
    assert(more[ids.len() as int] == table.0);
}

/// Every file has the id of a table.
proof fn files_have_ids(files: Seq<FileView>, k: int)
    requires
        crate::lsm::tree::tables_in(files) is Ok,
        0 <= k < files.len(),
    ensures
        crate::lsm::store::ids_of(
            crate::lsm::tree::newest_first(crate::lsm::tree::tables_in(files)->Ok_0),
        ).contains(files[k].0),
    decreases files.len(),
{
    let less = files.drop_last();
    let tables = crate::lsm::tree::tables_in(less)->Ok_0;
    let table = (files.last().0, crate::lsm::table::footer_in(files.last().1)->Ok_0);
    assert(tables.push(table).drop_last() =~= tables);
    placing_keeps_ids(crate::lsm::tree::newest_first(tables), table, files[k].0);
    if k < less.len() {
        files_have_ids(less, k);
    }
}

/// A compaction's mark is safe: no record of the log is accounted for by the tables
/// that go.
pub open spec fn mark_is_safe(moment: Moment) -> bool {
    moment.operation matches OperationView::Marking(old_tables) ==> exists|
        frames: Seq<WalFrameView>,
    | #[trigger]
        reads_as(moment.storage.log, frames) && records_after(
            frames,
            crate::lsm::tree::highest_index(old_tables),
        )
}

/// At every moment, what is still to be done leads to a tree that reopens.
pub open spec fn on_course(moment: Moment) -> bool {
    let state = moment.state;
    let storage = moment.storage;
    match moment.operation {
        OperationView::Appending(frame) => {
            let code = crate::bytes::framed(crate::lsm::codec::code_of_frame(frame));
            &&& reopens(state, storage)
            &&& frame.0 > state.last_applied
            &&& crate::lsm::codec::frame_is_storable(frame)
            &&& moment.action == DiskActionView::AppendLog(code)
        },
        OperationView::Flushing(table) => {
            &&& reopens(state, storage)
            &&& table.0 == state.flush_id()
            &&& table.1.2 == state.last_applied
            &&& moment.action matches DiskActionView::WriteTable(id, image)
            &&& id == table.0
            &&& crate::lsm::store::images(state.memtable, table, image)
        },
        OperationView::Emptying => {
            &&& reopens(state, Storage { log: Seq::empty(), ..storage })
            &&& moment.action == DiskActionView::EmptyLog
        },
        OperationView::Reading(old_tables) => {
            &&& reopens(crate::lsm::store_laws::with_tables(state, old_tables), storage)
            &&& state.tables == Seq::<TableView>::empty()
        },
        OperationView::Merging(old_tables, table) => {
            &&& reopens(crate::lsm::store_laws::with_tables(state, old_tables), storage)
            &&& state.tables == Seq::<TableView>::empty()
            &&& table.0 > crate::lsm::tree::highest_id(old_tables)
            &&& table.1.2 == crate::lsm::tree::highest_index(old_tables)
            &&& moment.action matches DiskActionView::WriteTable(id, image)
            &&& id == table.0
            &&& crate::lsm::table::footer_in(image) == Ok::<
                crate::lsm::codec::FooterView,
                LsmError,
            >(table.1)
        },
        OperationView::Marking(old_tables) => {
            let mark = crate::lsm::store::mark_of(state);
            let code = crate::bytes::framed(crate::lsm::codec::code_of_frame(mark));
            &&& reopens(crate::lsm::store_laws::with_tables(state, old_tables), storage)
            &&& state.tables == Seq::<TableView>::empty()
            &&& crate::lsm::codec::frame_is_storable(mark)
            &&& moment.action == DiskActionView::AppendLog(code)
        },
        OperationView::Removing(old_tables) => {
            let ids = crate::lsm::store::ids_of(old_tables);
            &&& old_tables.len() > 0
            &&& reopens(state, Storage { files: without_files(storage.files, ids), ..storage })
            &&& moment.action == DiskActionView::RemoveTable(old_tables.last().0)
        },
        OperationView::Over => reopens(state, storage) && moment.action == DiskActionView::Nothing,
    }
}

/// The frames of a log on which a tree reopens.
proof fn frames_of(state: LsmState, storage: Storage) -> (frames: Seq<WalFrameView>)
    requires
        reopens(state, storage),
    ensures
        reads_as(storage.log, frames),
        same_memory(LsmState::over(state.tables, state.options).replayed(frames), state),
        crate::lsm::tree::tables_in(storage.files) is Ok,
        crate::lsm::tree::newest_first(crate::lsm::tree::tables_in(storage.files)->Ok_0)
            == state.tables,
        crate::lsm::tree::highest_index(state.tables) <= state.last_applied,
{
    let frames = crate::lsm::wal::wal_in(storage.log)->Ok_0.0;
    let tables = crate::lsm::tree::newest_first(
        crate::lsm::tree::tables_in(storage.files)->Ok_0,
    );
    let base = LsmState::over(tables, state.options);
    replays_alike(base, base, frames);
    frames
}

/// What tables and frames make reopens.
proof fn reopens_by(state: LsmState, storage: Storage, frames: Seq<WalFrameView>)
    requires
        reads_as(storage.log, frames),
        same_memory(LsmState::over(state.tables, state.options).replayed(frames), state),
        crate::lsm::tree::tables_in(storage.files) is Ok,
        crate::lsm::tree::newest_first(crate::lsm::tree::tables_in(storage.files)->Ok_0)
            == state.tables,
    ensures
        reopens(state, storage),
{
    let base = LsmState::over(state.tables, state.options);
    replays_alike(base, base, frames);
}

proof fn append_reopens(state: LsmState, storage: Storage, frame: WalFrameView, after: Storage)
    requires
        reopens(state, storage),
        frame.0 > state.last_applied,
        crate::lsm::codec::frame_is_storable(frame),
        after == (Storage {
            log: storage.log + crate::bytes::framed(crate::lsm::codec::code_of_frame(frame)),
            ..storage
        }),
        after.log.len() <= usize::MAX,
    ensures
        reopens(state.recorded(frame), after),
{
    let frames = frames_of(state, storage);
    appended_frame_reads(storage.log, frame, 0);
    assert(frames.push(frame).drop_last() =~= frames);
    reopens_by(state.recorded(frame), after, frames.push(frame));
}

proof fn flush_reopens(state: LsmState, storage: Storage, table: TableView, image: Seq<u8>)
    requires
        reopens(state, storage),
        table.0 == state.flush_id(),
        table.1.2 == state.last_applied,
        crate::lsm::store::images(state.memtable, table, image),
    ensures
        reopens(
            state.flushed(table),
            Storage { files: storage.files.push((table.0, image)), log: Seq::empty() },
        ),
{
    let frames = frames_of(state, storage);
    let entries = choose|entries: Seq<crate::lsm::record::DataEntryView>| #[trigger]
        crate::lsm::tree::lists(entries, state.memtable) && crate::lsm::table::holds(
            image,
            entries,
            table.1,
        );
    crate::lsm::table_laws::footer_is_read_back(image, entries, table.1);
    new_file_is_loaded(storage.files, state.tables, (table.0, image), table);
    newest_accounts(state.tables, table);
    let after = state.flushed(table);
    let next = Storage { files: storage.files.push((table.0, image)), log: Seq::empty() };
    assert(after.tables =~= seq![table] + state.tables);
    reopens_by(after, next, Seq::empty());
}

/// Once the old files are gone, only the new one is there.
proof fn merge_reopens(
    state: LsmState,
    old_tables: Seq<TableView>,
    storage: Storage,
    table: TableView,
    image: Seq<u8>,
)
    requires
        reopens(crate::lsm::store_laws::with_tables(state, old_tables), storage),
        state.tables == Seq::<TableView>::empty(),
        table.0 > crate::lsm::tree::highest_id(old_tables),
        table.1.2 == crate::lsm::tree::highest_index(old_tables),
        crate::lsm::table::footer_in(image) == Ok::<crate::lsm::codec::FooterView, LsmError>(
            table.1,
        ),
    ensures
        reopens(
            state.compacted(Some(table)),
            Storage {
                files: without_files(
                    storage.files.push((table.0, image)),
                    crate::lsm::store::ids_of(old_tables),
                ),
                ..storage
            },
        ),
{
    reveal(Seq::filter);
    let before = crate::lsm::store_laws::with_tables(state, old_tables);
    let frames = frames_of(before, storage);
    let ids = crate::lsm::store::ids_of(old_tables);
    let file = (table.0, image);
    let after = state.compacted(Some(table));
    assert forall|k: int| 0 <= k < storage.files.len() implies ids.contains(
        (#[trigger] storage.files[k]).0,
    ) by {
        files_have_ids(storage.files, k);
    }
    all_files_go(storage.files, ids);
    assert(!ids.contains(table.0)) by {
        if ids.contains(table.0) {
            let i = choose|i: int| 0 <= i < ids.len() && ids[i] == table.0;
            crate::lsm::tree_laws::highest_id_bounds(old_tables, i);
        }
    }
    let more = storage.files.push(file);
    assert(more.drop_last() =~= storage.files);
    let next = Storage { files: without_files(more, ids), ..storage };
    assert(next.files =~= seq![file]);
    crate::lsm::tree_laws::one_table_is_first(state.tables, table);
    assert(after.tables == seq![table]);
    let none = Seq::<FileView>::empty();
    assert(crate::lsm::tree::tables_in(none) == Ok::<Seq<TableView>, LsmError>(Seq::empty()));
    assert(seq![file].drop_last() =~= none);
    assert(crate::lsm::tree::tables_in(seq![file]) == Ok::<Seq<TableView>, LsmError>(
        Seq::<TableView>::empty().push(table),
    ));
    crate::lsm::tree_laws::one_table_is_first(Seq::empty(), table);
    replays_alike(
        LsmState::over(old_tables, state.options),
        LsmState::over(after.tables, state.options),
        frames,
    );
    reopens_by(after, next, frames);
}

/// Once the old files are gone, the log alone keeps account.
proof fn mark_reopens(moment: Moment, old_tables: Seq<TableView>, log: Seq<u8>)
    requires
        on_course(moment),
        mark_is_safe(moment),
        moment.operation == OperationView::Marking(old_tables),
        log == crate::lsm::store_laws::done(moment.storage, moment.action).log,
        log.len() <= usize::MAX,
    ensures
        reopens(
            moment.state.compacted(None),
            Storage {
                files: without_files(moment.storage.files, crate::lsm::store::ids_of(old_tables)),
                log,
            },
        ),
{
    let state = moment.state;
    let storage = moment.storage;
    let before = crate::lsm::store_laws::with_tables(state, old_tables);
    let frames = frames_of(before, storage);
    let mark = crate::lsm::store::mark_of(state);
    let ids = crate::lsm::store::ids_of(old_tables);
    let after = state.compacted(None);
    assert forall|k: int| 0 <= k < storage.files.len() implies ids.contains(
        (#[trigger] storage.files[k]).0,
    ) by {
        files_have_ids(storage.files, k);
    }
    all_files_go(storage.files, ids);
    appended_frame_reads(storage.log, mark, 0);
    let base = LsmState::over(old_tables, state.options);
    let none = LsmState::over(Seq::empty(), state.options);
    replay_needs_no_tables(base, none, frames);
    assert(frames.push(mark).drop_last() =~= frames);
    assert(after.tables =~= Seq::empty());
    let next = Storage { files: without_files(storage.files, ids), log };
    assert(crate::lsm::tree::tables_in(next.files) == Ok::<Seq<TableView>, LsmError>(Seq::empty()));
    reopens_by(after, next, frames.push(mark));
}

/// Old files go one by one.
proof fn removal_is_on_course(moment: Moment, old_tables: Seq<TableView>)
    requires
        reopens(
            moment.state,
            Storage {
                files: without_files(
                    moment.storage.files,
                    crate::lsm::store::ids_of(old_tables),
                ),
                ..moment.storage
            },
        ),
        crate::lsm::store::removal(old_tables) == Step::Ok((moment.operation, moment.action)),
    ensures
        on_course(moment),
{
    if old_tables.len() == 0 {
        assert(crate::lsm::store::ids_of(old_tables) =~= Seq::empty());
        no_file_goes(moment.storage.files);
        assert(moment.storage == Storage { files: moment.storage.files, ..moment.storage });
    }
}

/// Each action takes a tree further on its course.
proof fn course_is_kept(before: Moment, after: Moment)
    requires
        on_course(before),
        mark_is_safe(before),
        crate::lsm::machine_laws::follows(before, after),
    ensures
        on_course(after),
{
    let state = before.state;
    let storage = before.storage;
    match before.operation {
        OperationView::Appending(frame) => {
            append_reopens(state, storage, frame, after.storage);
        },
        OperationView::Flushing(table) => {
            flush_reopens(state, storage, table, before.action->WriteTable_1);
        },
        OperationView::Emptying => {
            if state.is_compaction_due() && state.tables.len() >= 2 {
                assert(crate::lsm::store_laws::with_tables(after.state, state.tables) =~= state);
            }
        },
        OperationView::Reading(old_tables) => {
            reading_is_kept(before, old_tables, after);
        },
        OperationView::Merging(old_tables, table) => {
            merge_reopens(state, old_tables, storage, table, before.action->WriteTable_1);
            removal_is_on_course(after, old_tables);
        },
        OperationView::Marking(old_tables) => {
            mark_reopens(before, old_tables, after.storage.log);
            removal_is_on_course(after, old_tables);
        },
        OperationView::Removing(old_tables) => {
            let ids = crate::lsm::store::ids_of(old_tables);
            one_file_less(storage.files, ids);
            assert(crate::lsm::store::ids_of(old_tables.drop_last()) =~= ids.drop_last());
            removal_is_on_course(after, old_tables.drop_last());
        },
        OperationView::Over => {},
    }
}

proof fn reading_is_kept(before: Moment, old_tables: Seq<TableView>, after: Moment)
    requires
        on_course(before),
        before.operation == OperationView::Reading(old_tables),
        crate::lsm::machine_laws::follows(before, after),
    ensures
        on_course(after),
{
    let step = Step::Ok((after.operation, after.action));
    let read = choose|read: Seq<Seq<u8>>|
        {
            &&& read.len() == old_tables.len()
            &&& forall|i: int|
                0 <= i < read.len() ==> before.storage.files.contains(
                    ((#[trigger] old_tables[i]).0, read[i]),
                )
            &&& #[trigger] crate::lsm::store::merges_on(before.state, old_tables, read, step)
        };
    if let OperationView::Merging(_, table) = after.operation {
        let image = after.action->WriteTable_1;
        let from = crate::lsm::tree::all_entries_in(read)->Ok_0;
        let merged = choose|merged: Seq<crate::lsm::record::DataEntryView>| #[trigger]
            crate::lsm::tree::merges(merged, from) && merged.len() > 0 && crate::lsm::table::holds(
                image,
                merged,
                table.1,
            );
        crate::lsm::table_laws::footer_is_read_back(image, merged, table.1);
    }
}

proof fn run_stays_on_course(moments: Seq<Moment>, i: int)
    requires
        crate::lsm::machine_laws::runs(moments),
        0 <= i < moments.len(),
        on_course(moments[0]),
        forall|k: int| 0 <= k < moments.len() ==> mark_is_safe(#[trigger] moments[k]),
    ensures
        on_course(moments[i]),
    decreases i,
{
    if i > 0 {
        let j = i - 1;
        run_stays_on_course(moments, j);
        assert(crate::lsm::machine_laws::follows(moments[j], moments[i]));
        course_is_kept(moments[j], moments[i]);
    }
}

/// A tree with what lies on disk.
pub struct Store {
    pub state: LsmState,
    pub storage: Storage,
}

/// What is asked of a tree.
pub enum Call {
    Apply(WalFrameView),
    Flush,
    Compact,
}

/// A call goes well: it begins so, runs through these moments, and ends with the
/// tree and the disk in this state.
pub open spec fn goes_well(before: Store, call: Call, moments: Seq<Moment>, after: Store) -> bool {
    &&& crate::lsm::machine_laws::runs(moments)
    &&& moments[0].storage == before.storage
    &&& ({
        let step = Step::Ok((moments[0].operation, moments[0].action));
        match call {
            Call::Apply(frame) => moments[0].state == before.state && crate::lsm::store::applies(
                before.state,
                frame,
                step,
            ),
            Call::Flush => moments[0].state == before.state && crate::lsm::store::flushes(
                before.state,
                step,
            ),
            Call::Compact => crate::lsm::store::compacts(before.state, moments[0].state, step),
        }
    })
    &&& moments.last().operation is Over
    &&& after.state == moments.last().state
    &&& after.storage == moments.last().storage
    &&& forall|k: int| 0 <= k < moments.len() ==> mark_is_safe(#[trigger] moments[k])
}

/// Calls that all go well, from a tree opened on whatever lies in a directory.
pub open spec fn served(
    storage: Storage,
    options: LsmOptions,
    stores: Seq<Store>,
    calls: Seq<Call>,
    runs: Seq<Seq<Moment>>,
) -> bool {
    &&& storage.log.len() <= usize::MAX
    &&& stores.len() == calls.len() + 1
    &&& runs.len() == calls.len()
    &&& LsmState::opened(storage.files, storage.log, options) matches Ok((state, torn))
    &&& stores[0].state == state
    &&& stores[0].storage == mended(storage, torn)
    &&& forall|i: int, j: int|
        0 <= i && j == i + 1 && j < stores.len() ==> goes_well(
            #[trigger] stores[i],
            calls[i],
            runs[i],
            #[trigger] stores[j],
        )
}

/// A call that goes well leaves a tree that reopens.
proof fn call_reopens(before: Store, call: Call, moments: Seq<Moment>, after: Store)
    requires
        reopens(before.state, before.storage),
        goes_well(before, call, moments, after),
    ensures
        reopens(after.state, after.storage),
{
    if call is Compact && before.state.tables.len() >= 2 {
        assert(crate::lsm::store_laws::with_tables(
            moments[0].state,
            before.state.tables,
        ) =~= before.state);
    }
    assert(on_course(moments[0]));
    run_stays_on_course(moments, moments.len() - 1);
}

/// A tree that was opened on any directory, and has served whatever applies,
/// flushes and compactions that all went well, is the same when the directory is
/// opened again: it has applied as much and is read alike. Where a compaction
/// leaves no table, no record in the log may be one that the tables accounted for.
pub proof fn reopened_tree_is_the_same(
    storage: Storage,
    options: LsmOptions,
    stores: Seq<Store>,
    calls: Seq<Call>,
    runs: Seq<Seq<Moment>>,
    at: int,
)
    requires
        served(storage, options, stores, calls, runs),
        0 <= at < stores.len(),
    ensures
        reopens(stores[at].state, stores[at].storage),
        stores[at].state.options == options,
    decreases at,
{
    let (first, torn) = LsmState::opened(storage.files, storage.log, options)->Ok_0;
    let frames = crate::lsm::wal::wal_in(storage.log)->Ok_0.0;
    let tables = crate::lsm::tree::newest_first(
        crate::lsm::tree::tables_in(storage.files)->Ok_0,
    );
    let base = LsmState::over(tables, options);
    replays_alike(base, base, frames);
    if at == 0 {
        if let Some(cut) = torn {
            cut_log_reads(storage.log, cut, 0);
        }
    } else {
        reopened_tree_is_the_same(storage, options, stores, calls, runs, at - 1);
        assert(goes_well(stores[at - 1], calls[at - 1], runs[at - 1], stores[at]));
        call_reopens(stores[at - 1], calls[at - 1], runs[at - 1], stores[at]);
        options_stay(runs[at - 1], runs[at - 1].len() - 1);
    }
}

proof fn options_stay(moments: Seq<Moment>, i: int)
    requires
        crate::lsm::machine_laws::runs(moments),
        0 <= i < moments.len(),
    ensures
        moments[i].state.options == moments[0].state.options,
    decreases i,
{
    if i > 0 {
        let j = i - 1;
        options_stay(moments, j);
        assert(crate::lsm::machine_laws::follows(moments[j], moments[i]));
    }
}

/// Where no two files have the same id, the order in which they are listed does not
/// matter.
pub proof fn listing_order_does_not_matter(
    files: Seq<FileView>,
    listing: Seq<FileView>,
    log: Seq<u8>,
    options: LsmOptions,
)
    requires
        forall|i: int, j: int|
            0 <= i < j < files.len() ==> (#[trigger] files[i]).0 != (#[trigger] files[j]).0,
        forall|i: int, j: int|
            0 <= i < j < listing.len() ==> (#[trigger] listing[i]).0 != (#[trigger] listing[j]).0,
        forall|file: FileView|
            #![trigger files.contains(file)]
            #![trigger listing.contains(file)]
            files.contains(file) == listing.contains(file),
        LsmState::opened(files, log, options) is Ok,
    ensures
        LsmState::opened(listing, log, options) == LsmState::opened(files, log, options),
{
    all_are_read(files);
    crate::lsm::tree_laws::loading_reads(files);
    assert forall|k: int| 0 <= k < listing.len() implies crate::lsm::table::footer_in(
        (#[trigger] listing[k]).1,
    ) is Ok by {
        assert(listing.contains(listing[k]));
        assert(files.contains(listing[k]));
        let i = choose|i: int| 0 <= i < files.len() && files[i] == listing[k];
        assert(crate::lsm::table::footer_in(files[i].1) is Ok);
    }
    crate::lsm::tree_laws::loading_reads(listing);
    let a = crate::lsm::tree_laws::loaded(files);
    let b = crate::lsm::tree_laws::loaded(listing);
    assert forall|i: int, j: int| 0 <= i < j < a.len() implies (#[trigger] a[i]).0 != (
    #[trigger] a[j]).0 by {
        assert(files[i].0 != files[j].0);
    }
    assert forall|i: int, j: int| 0 <= i < j < b.len() implies (#[trigger] b[i]).0 != (
    #[trigger] b[j]).0 by {
        assert(listing[i].0 != listing[j].0);
    }
    crate::lsm::tree_laws::sorting_keeps(a);
    crate::lsm::tree_laws::sorting_keeps(b);
    loads_alike(files, listing);
    loads_alike(listing, files);
    let x = crate::lsm::tree::newest_first(a);
    let y = crate::lsm::tree::newest_first(b);
    assert(crate::lsm::tree_laws::same_tables(x, y)) by {
        assert forall|t: TableView|
            #![trigger x.contains(t)]
            #![trigger y.contains(t)]
            x.contains(t) == y.contains(t) by {
            assert(a.contains(t) == b.contains(t));
        }
    }
    crate::lsm::tree_laws::descending_is_unique(x, y);
}

proof fn all_are_read(files: Seq<FileView>)
    requires
        crate::lsm::tree::tables_in(files) is Ok,
    ensures
        forall|k: int|
            0 <= k < files.len() ==> crate::lsm::table::footer_in((#[trigger] files[k]).1) is Ok,
    decreases files.len(),
{
    if files.len() > 0 {
        let less = files.drop_last();
        all_are_read(less);
        assert forall|k: int| 0 <= k < files.len() implies crate::lsm::table::footer_in(
            (#[trigger] files[k]).1,
        ) is Ok by {
            if k < less.len() {
                assert(less[k] == files[k]);
            }
        }
    }
}

proof fn loads_alike(files: Seq<FileView>, listing: Seq<FileView>)
    requires
        forall|file: FileView|
            #![trigger files.contains(file)]
            files.contains(file) ==> listing.contains(file),
    ensures
        forall|table: TableView|
            #![trigger crate::lsm::tree_laws::loaded(files).contains(table)]
            crate::lsm::tree_laws::loaded(files).contains(table)
                ==> crate::lsm::tree_laws::loaded(listing).contains(table),
{
    let a = crate::lsm::tree_laws::loaded(files);
    let b = crate::lsm::tree_laws::loaded(listing);
    assert forall|table: TableView| #![trigger a.contains(table)] a.contains(table) implies b.contains(
        table,
    ) by {
        let i = choose|i: int| 0 <= i < a.len() && a[i] == table;
        assert(files.contains(files[i]));
        let j = choose|j: int| 0 <= j < listing.len() && listing[j] == files[i];
        assert(b[j] == table);
    }
}

} // verus!
