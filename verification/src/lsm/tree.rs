//! The tree: a sorted map in memory, backed by tables and a write-ahead log.
//!
//! The tree decides what is written and read; its caller does the writing and
//! reading, in the order that [`crate::lsm::store`] gives. A read goes:
//! [`LsmTree::begin_get`], and as long as a table is asked for, read it and
//! [`LsmTree::continue_get`].
use crate::lsm::codec::{encode_wal_frame, FooterView, SstableFooter};
use crate::lsm::record::{
    record_from_command, record_size, DataEntry, DataEntryView, LsmError, Record, RecordView,
    WalFrame, WalFrameView,
};
use crate::lsm::table::{
    encode_table, footer_fits, lookup_table, read_all_entries, read_footer, TableImage,
};
use crate::lsm::wal::read_wal_frames;
use crate::text::TextMap;
use crate::types::{Command, LogIndex};
use vstd::prelude::*;

verus! {

/// When the tree flushes and compacts.
#[derive(Clone, Copy, Debug, PartialEq, Eq, Structural)]
pub struct LsmOptions {
    /// The size in memory from which on the memtable is flushed.
    pub memtable_bytes: usize,
    /// The number of tables from which on they are compacted.
    pub compaction_threshold: usize,
}

impl LsmOptions {
    /// The options where none are given.
    pub open spec fn standard() -> LsmOptions {
        LsmOptions { memtable_bytes: 1048576, compaction_threshold: 4 }
    }
}

impl Default for LsmOptions {
    fn default() -> (options: Self)
        ensures
            options == LsmOptions::standard(),
    {
        LsmOptions { memtable_bytes: 1024 * 1024, compaction_threshold: 4 }
    }
}

/// A table that the tree knows of.
#[derive(Debug)]
pub struct Sstable {
    pub id: u64,
    pub footer: SstableFooter,
}

/// The content of an [`Sstable`].
pub type TableView = (u64, FooterView);

impl View for Sstable {
    type V = TableView;

    open spec fn view(&self) -> TableView {
        (self.id, self.footer@)
    }
}

impl DeepView for Sstable {
    type V = TableView;

    open spec fn deep_view(&self) -> TableView {
        self@
    }
}

/// The content of a table, where there is one.
pub open spec fn table_or_none(table: Option<Sstable>) -> Option<TableView> {
    match table {
        Some(table) => Some(table@),
        None => None,
    }
}

/// A table file as it lies on disk.
#[derive(Debug)]
pub struct TableFile {
    pub id: u64,
    pub bytes: Vec<u8>,
}

/// The content of a [`TableFile`].
pub type FileView = (u64, Seq<u8>);

impl DeepView for TableFile {
    type V = FileView;

    open spec fn deep_view(&self) -> FileView {
        (self.id, self.bytes@)
    }
}

/// A table to be written under an id.
#[derive(Debug)]
pub struct TablePlan {
    pub id: u64,
    pub image: TableImage,
}

/// The next step of a read.
#[derive(Debug, PartialEq, Eq)]
pub enum GetStep {
    /// The key was written last with this value, or deleted.
    Found(Option<String>),
    /// The table in this place is to be read.
    Read(usize),
    /// Nothing is stored under the key.
    Missing,
}

/// The content of a memtable.
pub type MemtableView = Map<Seq<char>, (Option<Seq<char>>, LogIndex)>;

/// The content of a memtable.
pub open spec fn memtable_view(
    memtable: Map<Seq<char>, (Option<String>, LogIndex)>,
) -> MemtableView {
    memtable.map_values(|kept: (Option<String>, LogIndex)| (crate::node::text_of(kept.0), kept.1))
}

/// The entries of a memtable in key order.
pub open spec fn lists(entries: Seq<DataEntryView>, memtable: MemtableView) -> bool {
    &&& crate::lsm::table::by_key(entries)
    &&& forall|i: int|
        0 <= i < entries.len() ==> memtable.contains_key((#[trigger] entries[i]).1.0)
            && memtable[entries[i].1.0] == (entries[i].1.1, entries[i].0)
    &&& forall|key: Seq<char>| #[trigger]
        memtable.contains_key(key) ==> exists|i: int|
            0 <= i < entries.len() && #[trigger] entries[i].1.0 == key
}

/// The highest table id, or zero.
pub open spec fn highest_id(tables: Seq<TableView>) -> u64
    decreases tables.len(),
{
    if tables.len() == 0 {
        0
    } else if tables.last().0 > highest_id(tables.drop_last()) {
        tables.last().0
    } else {
        highest_id(tables.drop_last())
    }
}

/// The highest log index in any table, or zero.
pub open spec fn highest_index(tables: Seq<TableView>) -> LogIndex
    decreases tables.len(),
{
    if tables.len() == 0 {
        0
    } else if tables.last().1.2 > highest_index(tables.drop_last()) {
        tables.last().1.2
    } else {
        highest_index(tables.drop_last())
    }
}

/// A table put behind those whose id is not lower than its own.
pub open spec fn placed(tables: Seq<TableView>, table: TableView) -> Seq<TableView>
    decreases tables.len(),
{
    if tables.len() == 0 || tables.last().0 >= table.0 {
        tables.push(table)
    } else {
        placed(tables.drop_last(), table).push(tables.last())
    }
}

/// Tables in descending order of their ids; those with equal ids keep their
/// order.
pub open spec fn newest_first(tables: Seq<TableView>) -> Seq<TableView>
    decreases tables.len(),
{
    if tables.len() == 0 {
        Seq::empty()
    } else {
        placed(newest_first(tables.drop_last()), tables.last())
    }
}

/// Every file has a footer within its bytes.
pub open spec fn all_sane(files: Seq<FileView>) -> bool {
    forall|i: int|
        0 <= i < files.len() ==> crate::lsm::table::trailer_is_sane((#[trigger] files[i]).1)
}

/// The tables that files hold, or the error of the first that cannot be read.
pub open spec fn tables_in(files: Seq<FileView>) -> Result<Seq<TableView>, LsmError>
    decreases files.len(),
{
    if files.len() == 0 {
        Ok(Seq::empty())
    } else {
        match tables_in(files.drop_last()) {
            Ok(tables) => match crate::lsm::table::footer_in(files.last().1) {
                Ok(footer) => Ok(tables.push((files.last().0, footer))),
                Err(error) => Err(error),
            },
            Err(error) => Err(error),
        }
    }
}

/// Every file that is read has its footer within its bytes: all up to the first
/// that cannot be read.
#[verifier::opaque]
pub open spec fn can_load(files: Seq<FileView>) -> bool {
    forall|i: int|
        0 <= i < files.len() && tables_in(files.take(i)) is Ok
            ==> crate::lsm::table::footer_is_sane((#[trigger] files[i]).1)
}

/// The entries of several tables, one table behind the other, or the error of
/// the first that cannot be read.
pub open spec fn all_entries_in(images: Seq<Seq<u8>>) -> Result<Seq<DataEntryView>, LsmError>
    decreases images.len(),
{
    if images.len() == 0 {
        Ok(Seq::empty())
    } else {
        match all_entries_in(images.drop_last()) {
            Ok(entries) => match crate::lsm::table::entries_in(images.last()) {
                Ok(more) => Ok(entries + more),
                Err(error) => Err(error),
            },
            Err(error) => Err(error),
        }
    }
}

/// The first entry of every key.
pub open spec fn firsts(entries: Seq<DataEntryView>) -> Map<Seq<char>, DataEntryView>
    decreases entries.len(),
{
    if entries.len() == 0 {
        Map::empty()
    } else {
        let earlier = firsts(entries.drop_last());
        if earlier.contains_key(entries.last().1.0) {
            earlier
        } else {
            earlier.insert(entries.last().1.0, entries.last())
        }
    }
}

/// Entries in key order that are the first of their key and no deletions: all
/// such entries of `from`, and no others.
pub open spec fn merges(merged: Seq<DataEntryView>, from: Seq<DataEntryView>) -> bool {
    &&& crate::lsm::table::by_key(merged)
    &&& forall|i: int|
        0 <= i < merged.len() ==> (#[trigger] merged[i]).1.1 is Some && firsts(from).contains_key(
            merged[i].1.0,
        ) && firsts(from)[merged[i].1.0] == merged[i]
    &&& forall|key: Seq<char>| #[trigger]
        firsts(from).contains_key(key) && firsts(from)[key].1.1 is Some ==> exists|i: int|
            0 <= i < merged.len() && #[trigger] merged[i].1.0 == key
}

/// The lengths of images together.
pub open spec fn total_len(images: Seq<Seq<u8>>) -> nat
    decreases images.len(),
{
    if images.len() == 0 {
        0
    } else {
        total_len(images.drop_last()) + images.last().len()
    }
}

/// The first place from `from` on whose table may hold a key.
pub open spec fn probe(tables: Seq<TableView>, key: Seq<char>, from: int) -> Option<int>
    decreases tables.len() - from,
{
    if from < 0 || from >= tables.len() {
        None
    } else if crate::lsm::bloom::may_hold(tables[from].1.1, key) {
        Some(from)
    } else {
        probe(tables, key, from + 1)
    }
}

/// The content of a tree.
#[verifier::ext_equal]
pub struct LsmState {
    pub memtable: MemtableView,
    pub memtable_bytes: usize,
    pub tables: Seq<TableView>,
    pub options: LsmOptions,
    pub last_applied: LogIndex,
    pub disk_reads: usize,
    pub compactions: usize,
}

impl LsmState {
    /// A tree over tables, with nothing in memory.
    pub open spec fn over(tables: Seq<TableView>, options: LsmOptions) -> LsmState {
        LsmState {
            memtable: Map::empty(),
            memtable_bytes: 0,
            tables,
            options,
            last_applied: highest_index(tables),
            disk_reads: 0,
            compactions: 0,
        }
    }

    /// The tree after a frame was recorded.
    pub open spec fn recorded(self, frame: WalFrameView) -> LsmState {
        match frame.1 {
            Some((key, value)) => LsmState {
                memtable: self.memtable.insert(key, (value, frame.0)),
                memtable_bytes: grown(self.memtable_bytes, (key, value)),
                last_applied: frame.0,
                ..self
            },
            None => LsmState { last_applied: frame.0, ..self },
        }
    }

    /// The tree after those of the frames were recorded that it lacked.
    pub open spec fn replayed(self, frames: Seq<WalFrameView>) -> LsmState
        decreases frames.len(),
    {
        if frames.len() == 0 {
            self
        } else {
            let before = self.replayed(frames.drop_last());
            if frames.last().0 <= before.last_applied {
                before
            } else {
                before.recorded(frames.last())
            }
        }
    }

    /// The outcome of opening a tree over table files and a write-ahead log: the
    /// tree and, where the log's last frame is torn, the length to cut it to.
    pub open spec fn opened(files: Seq<FileView>, wal: Seq<u8>, options: LsmOptions) -> Result<
        (LsmState, Option<int>),
        LsmError,
    > {
        match tables_in(files) {
            Ok(tables) => match crate::lsm::wal::wal_in(wal) {
                Ok((frames, torn)) => Ok(
                    (LsmState::over(newest_first(tables), options).replayed(frames), torn),
                ),
                Err(error) => Err(error),
            },
            Err(error) => Err(error),
        }
    }

    /// Whether the memtable is due to be flushed.
    pub open spec fn is_flush_due(self) -> bool {
        self.memtable_bytes >= self.options.memtable_bytes
    }

    /// Whether the tables are due to be compacted.
    pub open spec fn is_compaction_due(self) -> bool {
        self.tables.len() >= self.options.compaction_threshold
    }

    /// The tree after its memtable went into a table.
    pub open spec fn flushed(self, table: TableView) -> LsmState {
        LsmState {
            memtable: Map::empty(),
            memtable_bytes: 0,
            tables: self.tables.insert(0, table),
            ..self
        }
    }

    /// The tree after its tables were handed out for a compaction.
    pub open spec fn without_tables(self) -> LsmState {
        LsmState { tables: Seq::empty(), ..self }
    }

    /// The tree after a compaction, with the table that came out of it.
    pub open spec fn compacted(self, table: Option<TableView>) -> LsmState {
        LsmState {
            tables: newest_first(
                match table {
                    Some(table) => self.tables.push(table),
                    None => self.tables,
                },
            ),
            compactions: self.compactions.saturating_add(1),
            ..self
        }
    }

    /// The id of the table that a flush writes.
    pub open spec fn flush_id(self) -> int {
        highest_id(self.tables) + 1
    }

    /// The id of the table that a compaction of `old` tables writes: above theirs
    /// and above that of the next flush.
    pub open spec fn compaction_id(self, old_tables: Seq<TableView>) -> int {
        if highest_id(old_tables) > self.flush_id() {
            highest_id(old_tables) + 1
        } else {
            self.flush_id() + 1
        }
    }

    /// The tree after the table in a place was chosen to be read.
    pub open spec fn probed(self, place: Option<int>) -> LsmState {
        match place {
            Some(_) => LsmState { disk_reads: self.disk_reads.saturating_add(1), ..self },
            None => self,
        }
    }

    /// All filters have room for their bits.
    pub open spec fn filters_are_sound(self) -> bool {
        forall|i: int|
            0 <= i < self.tables.len() ==> crate::lsm::bloom::sound((#[trigger] self.tables[i]).1.1)
    }
}

/// The size in memory after a record came in, at most `usize::MAX`.
pub open spec fn grown(bytes: usize, record: RecordView) -> usize {
    let sum = bytes + crate::lsm::record::size_of_record(record);
    if sum <= usize::MAX {
        sum as usize
    } else {
        usize::MAX
    }
}

/// What a read has come to, as far as the tables' bytes are not needed.
pub open spec fn step_view(step: GetStep) -> (Option<Option<Seq<char>>>, Option<int>) {
    match step {
        GetStep::Found(value) => (Some(crate::node::text_of(value)), None),
        GetStep::Read(place) => (None, Some(place as int)),
        GetStep::Missing => (None, None),
    }
}

/// The tree.
#[derive(Debug)]
pub struct LsmTree {
    memtable: TextMap<(Option<String>, LogIndex)>,
    memtable_bytes: usize,
    tables: Vec<Sstable>,
    options: LsmOptions,
    last_applied: LogIndex,
    disk_reads: usize,
    compactions: usize,
}

impl View for LsmTree {
    type V = LsmState;

    closed spec fn view(&self) -> LsmState {
        LsmState {
            memtable: memtable_view(self.memtable@),
            memtable_bytes: self.memtable_bytes,
            tables: self.tables.deep_view(),
            options: self.options,
            last_applied: self.last_applied,
            disk_reads: self.disk_reads,
            compactions: self.compactions,
        }
    }
}

/// Puts tables in descending order of their ids.
fn sort_newest_first(tables: Vec<Sstable>) -> (sorted: Vec<Sstable>)
    ensures
        sorted.deep_view() == newest_first(tables.deep_view()),
{
    let mut sorted: Vec<Sstable> = Vec::new();
    let ghost all = tables.deep_view();
    let ghost mut done: int = 0;
    assert(all.take(0) =~= Seq::empty());
    assert(sorted.deep_view() =~= Seq::empty());
    for table in it: tables
        invariant
            done == it.index(),
            it.seq() == tables@,
            all == tables.deep_view(),
            sorted.deep_view() == newest_first(all.take(done)),
    {
        let mut at: usize = sorted.len();
        let ghost before = sorted.deep_view();
        let ghost id = table.id;
        let ghost view = table@;
        assert(before.take(before.len() as int) =~= before);
        assert(before.skip(before.len() as int) =~= Seq::empty());
        assert(placed(before, view) =~= placed(before, view) + before.skip(before.len() as int));
        while at > 0 && sorted[at - 1].id < table.id
            invariant
                at <= sorted@.len(),
                before == sorted.deep_view(),
                view == table@,
                placed(before, view) == placed(before.take(at as int), view) + before.skip(
                    at as int,
                ),
            decreases at,
        {
            proof {
                let head = before.take(at as int);
                assert(head.last() == sorted@[at - 1]@);
                assert(head.drop_last() =~= before.take(at - 1));
                assert(placed(head, view) == placed(before.take(at - 1), view).push(head.last()));
                assert(placed(before.take(at - 1), view).push(head.last()) + before.skip(at as int)
                    =~= placed(before.take(at - 1), view) + before.skip(at - 1));
            }
            at = at - 1;
        }
        proof {
            let head = before.take(at as int);
            if at > 0 {
                assert(head.last() == sorted@[at - 1]@);
            }
            assert(placed(head, view) == head.push(view));
        }
        sorted.insert(at, table);
        proof {
            assert(sorted.deep_view() =~= before.insert(at as int, view));
            assert(before.insert(at as int, view) =~= before.take(at as int).push(view)
                + before.skip(at as int));
            assert(all[done] == view);
            assert(all.take(done + 1).drop_last() =~= all.take(done));
            done = done + 1;
        }
    }
    assert(all.take(all.len() as int) =~= all);
    sorted
}

/// Reads the footers of table files.
pub fn load_tables(files: &Vec<TableFile>) -> (tables: Result<Vec<Sstable>, LsmError>)
    requires
        can_load(files.deep_view()),
    ensures
        tables_in(files.deep_view()) == match tables {
            Ok(tables) => Ok(tables.deep_view()),
            Err(error) => Err(error),
        },
{
    let ghost views = files.deep_view();
    let mut tables: Vec<Sstable> = Vec::new();
    let mut i: usize = 0;
    assert(views.take(0) =~= Seq::empty());
    assert(tables.deep_view() =~= Seq::empty());
    while i < files.len()
        invariant
            i <= files@.len(),
            views == files.deep_view(),
            can_load(views),
            tables_in(views.take(i as int)) == Ok::<Seq<TableView>, LsmError>(tables.deep_view()),
        decreases files@.len() - i,
    {
        assert(views[i as int] == files@[i as int].deep_view());
        assert(views.take(i + 1).drop_last() =~= views.take(i as int));
        assert(crate::lsm::table::footer_is_sane(views[i as int].1)) by {
            reveal(can_load);
        }
        match read_footer(files[i].bytes.as_slice()) {
            Ok(footer) => {
                let ghost before = tables.deep_view();
                tables.push(Sstable { id: files[i].id, footer });
                assert(tables.deep_view() =~= before.push((views[i as int].0, footer@)));
            },
            Err(error) => {
                proof {
                    first_error_stays(views, i + 1, error);
                }
                return Err(error);
            },
        }
        i = i + 1;
    }
    assert(views.take(views.len() as int) =~= views);
    Ok(tables)
}

/// Whether every table file that is read has its footer within its bytes.
pub fn tables_fit(files: &Vec<TableFile>) -> (fit: bool)
    ensures
        fit == can_load(files.deep_view()),
{
    let ghost views = files.deep_view();
    let mut i: usize = 0;
    assert(views.take(0) =~= Seq::empty());
    while i < files.len()
        invariant
            i <= files@.len(),
            views == files.deep_view(),
            tables_in(views.take(i as int)) is Ok,
            forall|j: int|
                0 <= j < i ==> crate::lsm::table::footer_is_sane((#[trigger] views[j]).1),
        decreases files@.len() - i,
    {
        assert(views[i as int] == files@[i as int].deep_view());
        assert(views.take(i + 1).drop_last() =~= views.take(i as int));
        if !footer_fits(files[i].bytes.as_slice()) {
            assert(!can_load(views)) by {
                reveal(can_load);
            }
            return false;
        }
        if read_footer(files[i].bytes.as_slice()).is_err() {
            proof {
                reveal(can_load);
                let error = tables_in(views.take(i + 1))->Err_0;
                assert forall|j: int| 0 <= j < views.len() && tables_in(views.take(j)) is Ok implies
                    crate::lsm::table::footer_is_sane((#[trigger] views[j]).1) by {
                    if j > i {
                        assert(views.take(j).take(i + 1) =~= views.take(i + 1));
                        first_error_stays(views.take(j), i + 1, error);
                    }
                }
            }
            return true;
        }
        i = i + 1;
    }
    assert(can_load(views)) by {
        reveal(can_load);
    }
    true
}

/// Files with a footer within their bytes, each of them, can be loaded.
pub proof fn sane_files_load(files: Seq<FileView>)
    requires
        all_sane(files),
    ensures
        can_load(files),
{
    reveal(can_load);
}

proof fn first_error_stays(files: Seq<FileView>, i: int, error: LsmError)
    requires
        0 <= i <= files.len(),
        tables_in(files.take(i)) == Err::<Seq<TableView>, LsmError>(error),
    ensures
        tables_in(files) == Err::<Seq<TableView>, LsmError>(error),
    decreases files.len() - i,
{
    if i == files.len() {
        assert(files.take(i) =~= files);
    } else {
        assert(files.take(i + 1).drop_last() =~= files.take(i));
        first_error_stays(files, i + 1, error);
    }
}

/// The lowest id above those of tables.
fn next_table_id(tables: &Vec<Sstable>) -> (id: u64)
    requires
        highest_id(tables.deep_view()) < u64::MAX,
    ensures
        id == highest_id(tables.deep_view()) + 1,
{
    highest_id_of(tables) + 1
}

/// The highest id of tables, or zero.
pub fn highest_id_of(tables: &Vec<Sstable>) -> (id: u64)
    ensures
        id == highest_id(tables.deep_view()),
{
    let ghost views = tables.deep_view();
    let mut id: u64 = 0;
    let mut i: usize = 0;
    assert(views.take(0) =~= Seq::empty());
    while i < tables.len()
        invariant
            i <= tables@.len(),
            views == tables.deep_view(),
            id == highest_id(views.take(i as int)),
        decreases tables@.len() - i,
    {
        assert(views[i as int] == tables@[i as int]@);
        assert(views.take(i + 1).drop_last() =~= views.take(i as int));
        if tables[i].id > id {
            id = tables[i].id;
        }
        i = i + 1;
    }
    assert(views.take(views.len() as int) =~= views);
    id
}

fn max_index(tables: &Vec<Sstable>) -> (index: LogIndex)
    ensures
        index == highest_index(tables.deep_view()),
{
    let ghost views = tables.deep_view();
    let mut index: LogIndex = 0;
    let mut i: usize = 0;
    assert(views.take(0) =~= Seq::empty());
    while i < tables.len()
        invariant
            i <= tables@.len(),
            views == tables.deep_view(),
            index == highest_index(views.take(i as int)),
        decreases tables@.len() - i,
    {
        assert(views[i as int] == tables@[i as int]@);
        assert(views.take(i + 1).drop_last() =~= views.take(i as int));
        if tables[i].footer.max_index > index {
            index = tables[i].footer.max_index;
        }
        i = i + 1;
    }
    assert(views.take(views.len() as int) =~= views);
    index
}

impl LsmTree {
    /// Opens a tree over its table files, in any order, and its write-ahead log.
    /// With it comes the length to cut the log to, where its last frame is torn.
    pub fn open(files: &Vec<TableFile>, wal: &[u8], options: LsmOptions) -> (tree: Result<
        (Self, Option<usize>),
        LsmError,
    >)
        requires
            can_load(files.deep_view()),
        ensures
            LsmState::opened(files.deep_view(), wal@, options) == match tree {
                Ok((tree, torn_at)) => Ok(
                    (
                        tree@,
                        match torn_at {
                            Some(at) => Some(at as int),
                            None => None,
                        },
                    ),
                ),
                Err(error) => Err(error),
            },
    {
        let tables = match load_tables(files) {
            Ok(tables) => sort_newest_first(tables),
            Err(error) => {
                return Err(error);
            },
        };
        let reading = match read_wal_frames(wal) {
            Ok(reading) => reading,
            Err(error) => {
                return Err(error);
            },
        };
        let last_applied: LogIndex = max_index(&tables);
        let mut tree = LsmTree {
            memtable: TextMap::new(),
            memtable_bytes: 0,
            tables,
            options,
            last_applied,
            disk_reads: 0,
            compactions: 0,
        };
        assert(tree@ =~= LsmState::over(tables.deep_view(), options)) by {
            assert(memtable_view(tree.memtable@) =~= Map::empty());
        }
        tree.replay(reading.frames);
        Ok((tree, reading.torn_at))
    }

    /// Records those of a log's frames that the tree lacks.
    pub fn replay(&mut self, frames: Vec<WalFrame>)
        ensures
            final(self)@ == old(self)@.replayed(frames.deep_view()),
    {
        let ghost base = self@;
        let ghost views = frames.deep_view();
        let ghost mut done: int = 0;
        assert(views.take(0) =~= Seq::empty());
        for frame in it: frames
            invariant
                done == it.index(),
                it.seq() == frames@,
                views == frames.deep_view(),
                self@ == base.replayed(views.take(done)),
        {
            proof {
                assert(views[done] == frame@);
                assert(views.take(done + 1).drop_last() =~= views.take(done));
                done = done + 1;
            }
            if frame.index > self.last_applied {
                self.record(frame.index, frame.record);
            }
        }
        assert(views.take(views.len() as int) =~= views);
    }

    /// Takes a record into the memtable.
    fn record(&mut self, index: LogIndex, record: Option<Record>)
        ensures
            final(self)@ == old(self)@.recorded(WalFrame { index, record }@),
            final(self).keys_in_memory() <= old(self).keys_in_memory() + 1,
    {
        let ghost before = self@;
        let ghost frame = WalFrame { index, record }@;
        match record {
            Some(record) => {
                self.memtable_bytes = self.memtable_bytes.saturating_add(record_size(&record));
                let ghost old_map = self.memtable@;
                let ghost key = record.key@;
                self.memtable.insert(record.key, (record.value, index));
                assert(memtable_view(self.memtable@) =~= memtable_view(old_map).insert(
                    key,
                    (crate::node::text_of(record.value), index),
                ));
            },
            None => {},
        }
        self.last_applied = index;
        assert(self@ =~= before.recorded(frame));
    }

    /// The bytes to append to the write-ahead log before a command is recorded;
    /// none where the command is recorded already.
    pub fn plan_apply(&self, index: LogIndex, command: &Command) -> (plan: Result<
        Option<Vec<u8>>,
        LsmError,
    >)
        ensures
            ({
                let frame = (index, crate::lsm::record::stored_by(*command));
                match plan {
                    Ok(None) => index <= self@.last_applied,
                    Ok(Some(bytes)) => index == self@.last_applied + 1
                        && crate::lsm::codec::frame_is_storable(frame) && bytes@
                        == crate::bytes::framed(crate::lsm::codec::code_of_frame(frame)),
                    Err(LsmError::IndexGap) => index > self@.last_applied + 1,
                    Err(LsmError::FrameTooLarge) => index == self@.last_applied + 1
                        && crate::lsm::codec::frame_len(frame) > u32::MAX,
                    Err(_) => false,
                }
            }),
    {
        if index <= self.last_applied {
            return Ok(None);
        }
        if index != self.last_applied + 1 {
            return Err(LsmError::IndexGap);
        }
        let record = record_from_command(command);
        match encode_wal_frame(index, record) {
            Ok(bytes) => Ok(Some(bytes)),
            Err(error) => Err(error),
        }
    }

    /// The bytes to append to the write-ahead log to keep account of what is
    /// applied, where no table is left that does.
    pub fn plan_mark(&self) -> (bytes: Vec<u8>)
        ensures
            ({
                let frame = (self@.last_applied, None::<RecordView>);
                &&& crate::lsm::codec::frame_is_storable(frame)
                &&& bytes@ == crate::bytes::framed(crate::lsm::codec::code_of_frame(frame))
            }),
    {
        match encode_wal_frame(self.last_applied, None) {
            Ok(bytes) => bytes,
            Err(_) => Vec::new(),
        }
    }

    /// Records a command whose frame is in the write-ahead log.
    pub fn record_applied(&mut self, index: LogIndex, command: &Command)
        requires
            index == old(self)@.last_applied + 1,
        ensures
            final(self)@ == old(self)@.recorded((index, crate::lsm::record::stored_by(*command))),
            final(self).keys_in_memory() <= old(self).keys_in_memory() + 1,
    {
        let record = record_from_command(command);
        self.record(index, record);
    }

    /// Whether the memtable is due to be flushed.
    pub fn flush_due(&self) -> (due: bool)
        ensures
            due == self@.is_flush_due(),
    {
        self.memtable_bytes >= self.options.memtable_bytes
    }

    /// How many keys the memtable holds.
    pub closed spec fn keys_in_memory(&self) -> nat {
        self.memtable.in_order().len()
    }

    /// How many keys the memtable holds.
    pub fn memtable_len(&self) -> (len: usize)
        ensures
            len == self.keys_in_memory(),
    {
        self.memtable.as_slice().len()
    }

    /// The table that a flush writes; none where the memtable is empty.
    pub fn plan_flush(&self) -> (plan: Result<Option<TablePlan>, LsmError>)
        requires
            self.keys_in_memory() * 10 <= usize::MAX - 7,
            highest_id(self@.tables) < u64::MAX,
        ensures
            match plan {
                Ok(None) => self@.memtable == MemtableView::empty(),
                Ok(Some(plan)) => self@.memtable != MemtableView::empty() && plan.id
                    == self@.flush_id() && plan.image.footer@.2 == self@.last_applied && exists|entries: Seq<DataEntryView>| #[trigger]
                    lists(entries, self@.memtable) && crate::lsm::table::holds(
                        plan.image.bytes@,
                        entries,
                        plan.image.footer@,
                    ),
                Err(error) => error == LsmError::FrameTooLarge && exists|
                    entries: Seq<DataEntryView>,
                | #[trigger]
                    lists(entries, self@.memtable) && !crate::lsm::table::all_fit(entries),
            },
    {
        if self.memtable.is_empty() {
            assert(self@.memtable =~= Map::empty());
            return Ok(None);
        }
        let kept = self.memtable.as_slice();
        let mut entries: Vec<DataEntry> = Vec::new();
        let mut i: usize = 0;
        while i < kept.len()
            invariant
                i <= kept@.len(),
                entries@.len() == i,
                forall|j: int|
                    0 <= j < i ==> (#[trigger] entries@[j])@ == (
                        kept@[j].1.1,
                        (kept@[j].0@, crate::node::text_of(kept@[j].1.0)),
                    ),
            decreases kept@.len() - i,
        {
            entries.push(
                DataEntry {
                    index: kept[i].1.1,
                    record: Record {
                        key: kept[i].0.clone(),
                        value: match &kept[i].1.0 {
                            Some(value) => Some(value.clone()),
                            None => None,
                        },
                    },
                },
            );
            i = i + 1;
        }
        proof {
            let views = entries.deep_view();
            assert forall|j: int| 0 <= j < views.len() implies #[trigger] views[j] == (
                kept@[j].1.1,
                (kept@[j].0@, crate::node::text_of(kept@[j].1.0)),
            ) by {
                assert(views[j] == entries@[j]@);
            }
            assert(lists(views, self@.memtable)) by {
                assert forall|j: int| 0 <= j < views.len() implies self@.memtable.contains_key(
                    (#[trigger] views[j]).1.0,
                ) && self@.memtable[views[j].1.0] == (views[j].1.1, views[j].0) by {
                    crate::text::entry_is_mapped(kept@, j);
                }
                assert forall|key: Seq<char>| #[trigger]
                    self@.memtable.contains_key(key) implies exists|j: int|
                    0 <= j < views.len() && #[trigger] views[j].1.0 == key by {
                    assert(self.memtable@.contains_key(key));
                    let j = choose|j: int| 0 <= j < kept@.len() && #[trigger] kept@[j].0@ == key;
                    assert(views[j].1.0 == key);
                }
            }
            let first = kept@[0].0@;
            crate::text::entry_is_mapped(kept@, 0);
            assert(self@.memtable.contains_key(first));
        }
        let id: u64 = next_table_id(&self.tables);
        match encode_table(&entries, self.last_applied) {
            Ok(image) => Ok(Some(TablePlan { id, image })),
            Err(error) => Err(error),
        }
    }

    /// Takes in the table that holds what the memtable held, which is emptied.
    pub fn flush(&mut self, table: Sstable)
        ensures
            final(self)@ == old(self)@.flushed(table@),
    {
        let ghost before = self@;
        let ghost view = table@;
        self.tables.insert(0, table);
        self.memtable = TextMap::new();
        self.memtable_bytes = 0;
        proof {
            assert(self@.tables =~= before.tables.insert(0, view));
            assert(self@.memtable =~= Map::empty());
            assert(self@ =~= before.flushed(view));
        }
    }

    /// Whether the tables are due to be compacted.
    pub fn compaction_due(&self) -> (due: bool)
        ensures
            due == self@.is_compaction_due(),
    {
        self.tables.len() >= self.options.compaction_threshold
    }

    /// Hands out the tables for a compaction, newest first; none where fewer
    /// than two are there.
    pub fn begin_compaction(&mut self) -> (tables: Option<Vec<Sstable>>)
        ensures
            match tables {
                Some(tables) => old(self)@.tables.len() >= 2 && tables.deep_view() == old(
                    self,
                )@.tables && final(self)@ == old(self)@.without_tables(),
                None => old(self)@.tables.len() < 2 && final(self)@ == old(self)@,
            },
    {
        if self.tables.len() < 2 {
            return None;
        }
        let ghost before = self@;
        let mut tables: Vec<Sstable> = Vec::new();
        std::mem::swap(&mut tables, &mut self.tables);
        assert(self@ =~= before.without_tables()) by {
            assert(self.tables.deep_view() =~= Seq::empty());
        }
        Some(tables)
    }

    /// The table that a compaction of `old` tables writes, given their images,
    /// newest first; none where nothing but deletions is left.
    pub fn plan_compaction(&self, old_tables: &Vec<Sstable>, images: &Vec<Vec<u8>>) -> (plan: Result<
        Option<TablePlan>,
        LsmError,
    >)
        requires
            forall|i: int|
                0 <= i < images@.len() ==> crate::lsm::table::trailer_is_sane(
                    (#[trigger] images@[i])@,
                ),
            total_len(images.deep_view()) * 3 <= usize::MAX - 7,
            highest_id(self@.tables) < u64::MAX - 1,
            highest_id(old_tables.deep_view()) < u64::MAX,
        ensures
            match all_entries_in(images.deep_view()) {
                Ok(from) => match plan {
                    Ok(None) => merges(Seq::empty(), from),
                    Ok(Some(plan)) => plan.id == self@.compaction_id(old_tables.deep_view())
                        && plan.image.footer@.2 == highest_index(old_tables.deep_view()) && exists|merged: Seq<DataEntryView>| #[trigger]
                        merges(merged, from) && merged.len() > 0 && crate::lsm::table::holds(
                            plan.image.bytes@,
                            merged,
                            plan.image.footer@,
                        ),
                    Err(error) => error == LsmError::FrameTooLarge && exists|
                        merged: Seq<DataEntryView>,
                    | #[trigger] merges(merged, from) && !crate::lsm::table::all_fit(merged),
                },
                Err(error) => plan == Err::<Option<TablePlan>, LsmError>(error),
            },
    {
        let entries = match merge_tables(images) {
            Ok(entries) => entries,
            Err(error) => {
                return Err(error);
            },
        };
        if entries.len() == 0 {
            assert(entries.deep_view() =~= Seq::empty());
            return Ok(None);
        }
        let own: u64 = next_table_id(&self.tables);
        let theirs: u64 = highest_id_of(old_tables);
        let id: u64 = if theirs > own {
            theirs + 1
        } else {
            own + 1
        };
        match encode_table(&entries, max_index(old_tables)) {
            Ok(image) => Ok(Some(TablePlan { id, image })),
            Err(error) => Err(error),
        }
    }

    /// Takes in the table that came out of a compaction.
    pub fn compact(&mut self, table: Option<Sstable>)
        ensures
            final(self)@ == old(self)@.compacted(table_or_none(table)),
    {
        let ghost before = self@;
        let ghost view = table_or_none(table);
        let mut tables: Vec<Sstable> = Vec::new();
        std::mem::swap(&mut tables, &mut self.tables);
        match table {
            Some(table) => {
                tables.push(table);
                assert(tables.deep_view() =~= before.tables.push(table@));
            },
            None => {},
        }
        self.tables = sort_newest_first(tables);
        self.compactions = self.compactions.saturating_add(1);
        assert(self@ =~= before.compacted(view));
    }

    /// Whether all filters have room for their bits, as those of written tables
    /// do.
    pub fn is_readable(&self) -> (readable: bool)
        ensures
            readable == self@.filters_are_sound(),
    {
        let mut i: usize = 0;
        while i < self.tables.len()
            invariant
                i <= self.tables@.len(),
                forall|j: int|
                    0 <= j < i ==> crate::lsm::bloom::sound((#[trigger] self@.tables[j]).1.1),
            decreases self.tables@.len() - i,
        {
            assert(self@.tables[i as int] == self.tables@[i as int]@);
            if !self.tables[i].footer.bloom.is_sound() {
                return false;
            }
            i = i + 1;
        }
        true
    }

    /// Starts a read: a key in memory is found there, otherwise the first table
    /// is asked for that may hold it.
    pub fn begin_get(&mut self, key: &str) -> (step: GetStep)
        requires
            old(self)@.filters_are_sound(),
        ensures
            old(self)@.memtable.contains_key(key@) ==> step_view(step) == (
                Some(old(self)@.memtable[key@].0),
                None::<int>,
            ) && final(self)@ == old(self)@,
            !old(self)@.memtable.contains_key(key@) ==> ({
                let place = probe(old(self)@.tables, key@, 0);
                step_view(step) == (None::<Option<Seq<char>>>, place) && final(self)@ == old(
                    self,
                )@.probed(place)
            }),
            step matches GetStep::Read(place) ==> place < old(self)@.tables.len(),
    {
        match self.memtable.get(key) {
            Some((value, _)) => {
                let value = match value {
                    Some(value) => Some(value.clone()),
                    None => None,
                };
                assert(self@.memtable.contains_key(key@));
                return GetStep::Found(value);
            },
            None => {},
        }
        assert(!self@.memtable.contains_key(key@));
        self.next_probe(key, 0)
    }

    /// Goes on with a read, given the image of the table that was asked for.
    pub fn continue_get(&mut self, key: &str, place: usize, image: &[u8]) -> (step: Result<
        GetStep,
        LsmError,
    >)
        requires
            old(self)@.filters_are_sound(),
            place < old(self)@.tables.len(),
            crate::lsm::table::trailer_is_sane(image@),
        ensures
            match crate::lsm::table::lookup_in(
                old(self)@.tables[place as int].1.0,
                image@,
                key@,
            ) {
                Ok(Some(value)) => step is Ok && step_view(step->Ok_0) == (Some(value), None::<int>)
                    && final(self)@ == old(self)@,
                Ok(None) => ({
                    let next = probe(old(self)@.tables, key@, place + 1);
                    step is Ok && step_view(step->Ok_0) == (None::<Option<Seq<char>>>, next)
                        && final(self)@ == old(self)@.probed(next)
                }),
                Err(error) => step == Err::<GetStep, LsmError>(error) && final(self)@ == old(self)@,
            },
            step matches Ok(GetStep::Read(next)) ==> place < next < old(self)@.tables.len(),
    {
        assert(self@.tables[place as int] == self.tables@[place as int]@);
        match lookup_table(&self.tables[place].footer.index, image, key) {
            Ok(Some(value)) => Ok(GetStep::Found(value)),
            Ok(None) => {
                assert(self.tables@.len() == self.tables.len());
                Ok(self.next_probe(key, place + 1))
            },
            Err(error) => Err(error),
        }
    }

    /// Asks for the first table from a place on that may hold a key.
    fn next_probe(&mut self, key: &str, from: usize) -> (step: GetStep)
        requires
            old(self)@.filters_are_sound(),
        ensures
            ({
                let place = probe(old(self)@.tables, key@, from as int);
                step_view(step) == (None::<Option<Seq<char>>>, place) && final(self)@ == old(
                    self,
                )@.probed(place)
            }),
            step matches GetStep::Read(place) ==> from <= place < old(self)@.tables.len(),
    {
        let ghost before = self@;
        let mut place: usize = from;
        while place < self.tables.len()
            invariant
                from <= place,
                self@ == before,
                before == old(self)@,
                before.filters_are_sound(),
                probe(before.tables, key@, from as int) == probe(before.tables, key@, place as int),
            decreases self.tables@.len() - place,
        {
            assert(self@.tables[place as int] == self.tables@[place as int]@);
            if self.tables[place].footer.bloom.might_contain(key) {
                self.disk_reads = self.disk_reads.saturating_add(1);
                assert(self@ =~= before.probed(Some(place as int)));
                return GetStep::Read(place);
            }
            place = place + 1;
        }
        GetStep::Missing
    }

    /// The id of the table in a place.
    pub fn table_id(&self, place: usize) -> (id: u64)
        requires
            place < self@.tables.len(),
        ensures
            id == self@.tables[place as int].0,
    {
        assert(self@.tables[place as int] == self.tables@[place as int]@);
        self.tables[place].id
    }

    /// The highest id of the tables, or zero.
    pub fn highest_table_id(&self) -> (id: u64)
        ensures
            id == highest_id(self@.tables),
    {
        highest_id_of(&self.tables)
    }

    /// The number of tables.
    pub fn sstable_count(&self) -> (count: usize)
        ensures
            count == self@.tables.len(),
    {
        self.tables.len()
    }

    /// How often a table was asked for by a read.
    pub fn disk_read_count(&self) -> (count: usize)
        ensures
            count == self@.disk_reads,
    {
        self.disk_reads
    }

    /// The size of the memtable.
    pub fn memtable_size_bytes(&self) -> (size: usize)
        ensures
            size == self@.memtable_bytes,
    {
        self.memtable_bytes
    }

    /// How many compactions there were.
    pub fn compactions_total(&self) -> (count: usize)
        ensures
            count == self@.compactions,
    {
        self.compactions
    }

    /// The log index of the last recorded command.
    pub fn last_applied(&self) -> (index: LogIndex)
        ensures
            index == self@.last_applied,
    {
        self.last_applied
    }

    /// When the tree flushes and compacts.
    pub fn options(&self) -> (options: LsmOptions)
        ensures
            options == self@.options,
    {
        self.options
    }
}

proof fn entries_are_few(bytes: Seq<u8>, at: int, end: int)
    requires
        0 <= at,
        end <= bytes.len(),
    ensures
        crate::lsm::table::entries_from(bytes, at, end) matches Ok(entries) ==> entries.len() * 4
            <= if at <= bytes.len() {
            bytes.len() - at
        } else {
            0
        },
    decreases
            if at < end {
                end - at
            } else {
                0
            },
{
    if at < end {
        match crate::lsm::table::entry_at(bytes, at) {
            crate::lsm::table::EntryAt::Entry(_, next) => {
                entries_are_few(bytes, next, end);
            },
            _ => {},
        }
    }
}

proof fn first_bad_image_stays(images: Seq<Seq<u8>>, i: int, error: LsmError)
    requires
        0 <= i <= images.len(),
        all_entries_in(images.take(i)) == Err::<Seq<DataEntryView>, LsmError>(error),
    ensures
        all_entries_in(images) == Err::<Seq<DataEntryView>, LsmError>(error),
    decreases images.len() - i,
{
    if i == images.len() {
        assert(images.take(i) =~= images);
    } else {
        assert(images.take(i + 1).drop_last() =~= images.take(i));
        first_bad_image_stays(images, i + 1, error);
    }
}

/// Content of the entries of a merge.
spec fn merging_view(merging: Map<Seq<char>, DataEntry>) -> Map<Seq<char>, DataEntryView> {
    merging.map_values(|entry: DataEntry| entry@)
}

/// Merges the entries of tables, newest first: the first entry of a key counts,
/// and deletions are dropped.
pub fn merge_tables(images: &Vec<Vec<u8>>) -> (entries: Result<Vec<DataEntry>, LsmError>)
    requires
        forall|i: int|
            0 <= i < images@.len() ==> crate::lsm::table::trailer_is_sane((#[trigger] images@[i])@),
    ensures
        match all_entries_in(images.deep_view()) {
            Ok(from) => entries is Ok && merges(entries->Ok_0.deep_view(), from)
                && entries->Ok_0@.len() * 4 <= total_len(images.deep_view()),
            Err(error) => entries == Err::<Vec<DataEntry>, LsmError>(error),
        },
{
    let ghost views = images.deep_view();
    let mut from: Vec<DataEntry> = Vec::new();
    let mut i: usize = 0;
    assert(views.take(0) =~= Seq::empty());
    assert(from.deep_view() =~= Seq::empty());
    while i < images.len()
        invariant
            i <= images@.len(),
            views == images.deep_view(),
            forall|j: int|
                0 <= j < images@.len() ==> crate::lsm::table::trailer_is_sane(
                    (#[trigger] images@[j])@,
                ),
            all_entries_in(views.take(i as int)) == Ok::<Seq<DataEntryView>, LsmError>(
                from.deep_view(),
            ),
            from@.len() * 4 <= total_len(views.take(i as int)),
        decreases images@.len() - i,
    {
        assert(views[i as int] == images@[i as int]@);
        assert(views.take(i + 1).drop_last() =~= views.take(i as int));
        let mut more = match read_all_entries(images[i].as_slice()) {
            Ok(more) => more,
            Err(error) => {
                proof {
                    first_bad_image_stays(views, i + 1, error);
                }
                return Err(error);
            },
        };
        let ghost before = from.deep_view();
        let ghost added = more.deep_view();
        proof {
            entries_are_few(
                views[i as int],
                0,
                crate::lsm::table::data_end_of(views[i as int]),
            );
        }
        from.append(&mut more);
        assert(from.deep_view() =~= before + added);
        i = i + 1;
    }
    assert(views.take(views.len() as int) =~= views);
    Ok(merge_entries(from))
}

/// The first entry of every key in key order, with deletions dropped.
pub fn merge_entries(from: Vec<DataEntry>) -> (entries: Vec<DataEntry>)
    ensures
        merges(entries.deep_view(), from.deep_view()),
        entries@.len() <= from@.len(),
{
    let ghost views = from.deep_view();
    let mut merging: TextMap<DataEntry> = TextMap::new();
    let ghost mut done: int = 0;
    assert(merging_view(merging@) =~= Map::empty());
    assert(views.take(0) =~= Seq::empty());
    for entry in it: from
        invariant
            done == it.index(),
            it.seq() == from@,
            views == from.deep_view(),
            merging_view(merging@) == firsts(views.take(done)),
    {
        proof {
            assert(views[done] == entry@);
            assert(views.take(done + 1).drop_last() =~= views.take(done));
            done = done + 1;
        }
        let ghost before = merging@;
        let known = match merging.get(entry.record.key.as_str()) {
            Some(_) => true,
            None => false,
        };
        assert(known == merging_view(before).contains_key(entry@.1.0));
        if !known {
            let key = entry.record.key.clone();
            let ghost view = entry@;
            merging.insert(key, entry);
            assert(merging_view(merging@) =~= merging_view(before).insert(view.1.0, view));
        }
    }
    assert(views.take(views.len() as int) =~= views);
    let kept = merging.as_slice();
    proof {
        firsts_are_few(views, kept@);
    }
    let mut entries: Vec<DataEntry> = Vec::new();
    let ghost mut places: Seq<int> = Seq::empty();
    let mut k: usize = 0;
    while k < kept.len()
        invariant
            k <= kept@.len(),
            entries@.len() <= k,
            places.len() == entries@.len(),
            forall|j: int|
                0 <= j < places.len() ==> 0 <= #[trigger] places[j] < k && entries@[j]
                    == kept@[places[j]].1 && kept@[places[j]].1@.1.1 is Some,
            forall|j: int, l: int| 0 <= j < l < places.len() ==> places[j] < places[l],
            forall|m: int|
                0 <= m < k && (#[trigger] kept@[m]).1@.1.1 is Some ==> exists|j: int|
                    0 <= j < places.len() && #[trigger] places[j] == m,
        decreases kept@.len() - k,
    {
        let ghost before = places;
        let ghost shorter = entries@;
        if kept[k].1.record.value.is_some() {
            entries.push(kept[k].1.clone());
            proof {
                places = places.push(k as int);
                assert(places[before.len() as int] == k);
            }
        }
        proof {
            assert forall|m: int| 0 <= m < k + 1 && (#[trigger] kept@[m]).1@.1.1 is Some implies exists|
                j: int,
            | 0 <= j < places.len() && #[trigger] places[j] == m by {
                if m < k {
                    let j = choose|j: int| 0 <= j < before.len() && #[trigger] before[j] == m;
                    assert(places[j] == m);
                } else {
                    assert(places[before.len() as int] == k);
                }
            }
        }
        k = k + 1;
    }
    proof {
        merged_entries(merging@, kept@, views, entries@, places);
        assert(entries.deep_view() =~= entries@.map_values(|entry: DataEntry| entry@));
    }
    entries
}

/// The keys of a map of first entries are no more than the entries.
proof fn firsts_are_few(from: Seq<DataEntryView>, kept: Seq<(String, DataEntry)>)
    requires
        crate::text::ascending(kept),
        merging_view(crate::text::map_of(kept)) == firsts(from),
    ensures
        kept.len() <= from.len(),
{
    firsts_are_finite(from);
    let keys = kept.map_values(|pair: (String, DataEntry)| pair.0@);
    assert(keys.no_duplicates()) by {
        assert forall|i: int, j: int| 0 <= i < keys.len() && 0 <= j < keys.len() && i != j implies keys[i]
            != keys[j] by {
            crate::text::text_before_irreflexive(keys[i]);
            if i < j {
                assert(crate::text::text_before(kept[i].0@, kept[j].0@));
            } else {
                assert(crate::text::text_before(kept[j].0@, kept[i].0@));
            }
        }
    }
    keys.unique_seq_to_set();
    assert(keys.to_set().subset_of(firsts(from).dom())) by {
        assert forall|key: Seq<char>| #[trigger] keys.to_set().contains(key) implies firsts(
            from,
        ).dom().contains(key) by {
            let i = choose|i: int| 0 <= i < keys.len() && keys[i] == key;
            crate::text::entry_is_mapped(kept, i);
            assert(merging_view(crate::text::map_of(kept)).contains_key(key));
        }
    }
    vstd::set_lib::lemma_len_subset(keys.to_set(), firsts(from).dom());
}

proof fn firsts_are_finite(from: Seq<DataEntryView>)
    ensures
        firsts(from).dom().finite(),
        firsts(from).dom().len() <= from.len(),
    decreases from.len(),
{
    if from.len() > 0 {
        firsts_are_finite(from.drop_last());
    }
}

/// Those of the kept entries that are no deletions are the merged entries.
proof fn merged_entries(
    merging: Map<Seq<char>, DataEntry>,
    kept: Seq<(String, DataEntry)>,
    from: Seq<DataEntryView>,
    entries: Seq<DataEntry>,
    places: Seq<int>,
)
    requires
        crate::text::ascending(kept),
        merging == crate::text::map_of(kept),
        merging_view(merging) == firsts(from),
        places.len() == entries.len(),
        forall|j: int|
            0 <= j < places.len() ==> 0 <= #[trigger] places[j] < kept.len() && entries[j]
                == kept[places[j]].1 && kept[places[j]].1@.1.1 is Some,
        forall|j: int, l: int| 0 <= j < l < places.len() ==> places[j] < places[l],
        forall|m: int|
            0 <= m < kept.len() && (#[trigger] kept[m]).1@.1.1 is Some ==> exists|j: int|
                0 <= j < places.len() && #[trigger] places[j] == m,
    ensures
        merges(entries.map_values(|entry: DataEntry| entry@), from),
{
    let merged = entries.map_values(|entry: DataEntry| entry@);
    keys_match(from);
    assert forall|j: int| 0 <= j < merged.len() implies (#[trigger] merged[j]).1.1 is Some && firsts(
        from,
    ).contains_key(merged[j].1.0) && firsts(from)[merged[j].1.0] == merged[j] && merged[j].1.0
        == kept[places[j]].0@ by {
        let m = places[j];
        crate::text::entry_is_mapped(kept, m);
        let key = kept[m].0@;
        assert(merging_view(merging).contains_key(key));
        assert(merging_view(merging)[key] == kept[m].1@);
    }
    assert(crate::lsm::table::by_key(merged)) by {
        assert forall|i: int, j: int| 0 <= i < j < merged.len() implies crate::text::text_before(
            #[trigger] merged[i].1.0,
            #[trigger] merged[j].1.0,
        ) by {
            assert(merged[i].1.0 == kept[places[i]].0@);
            assert(merged[j].1.0 == kept[places[j]].0@);
            assert(places[i] < places[j]);
        }
    }
    assert forall|key: Seq<char>| #[trigger]
        firsts(from).contains_key(key) && firsts(from)[key].1.1 is Some implies exists|i: int|
        0 <= i < merged.len() && #[trigger] merged[i].1.0 == key by {
        assert(merging_view(merging).contains_key(key));
        let m = choose|m: int| 0 <= m < kept.len() && #[trigger] kept[m].0@ == key;
        crate::text::entry_is_mapped(kept, m);
        assert(merging_view(merging)[key] == kept[m].1@);
        let j = choose|j: int| 0 <= j < places.len() && #[trigger] places[j] == m;
        assert(merged[j].1.0 == key);
    }
}

/// Every first entry stands under its own key.
pub proof fn keys_match(from: Seq<DataEntryView>)
    ensures
        forall|key: Seq<char>| #[trigger]
            firsts(from).contains_key(key) ==> firsts(from)[key].1.0 == key,
    decreases from.len(),
{
    if from.len() > 0 {
        keys_match(from.drop_last());
        assert forall|key: Seq<char>| #[trigger] firsts(from).contains_key(key) implies firsts(
            from,
        )[key].1.0 == key by {
            assert(firsts(from.drop_last()).contains_key(key) || key == from.last().1.0);
        }
    }
}

} // verus!
