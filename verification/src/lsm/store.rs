//! Applying, flushing and compacting as series of actions on disk.
//!
//! An operation begins with [`LsmTree::begin_apply`], [`LsmTree::begin_flush`] or
//! [`LsmTree::begin_compact`]. Each names an action on disk. Once that is done,
//! [`LsmTree::resume`] names the next, or [`LsmTree::resume_read`] where tables
//! were to be read, until nothing is left to do.
use crate::lsm::record::{DataEntryView, LsmError, WalFrameView};
use crate::lsm::table::trailer_fits;
use crate::lsm::tree::{
    highest_id_of, GetStep, LsmState, LsmTree, MemtableView, Sstable, TablePlan, TableView,
};
use crate::types::{Command, LogIndex};
use vstd::prelude::*;

verus! {

/// What is to be done on disk.
#[derive(Debug, PartialEq, Eq)]
pub enum DiskAction {
    /// Append the bytes to the log, durably.
    AppendLog(Vec<u8>),
    /// Write the table file with this id, whole and durably.
    WriteTable { id: u64, bytes: Vec<u8> },
    /// Empty the log, durably.
    EmptyLog,
    /// Read the table files with these ids, in this order.
    ReadTables(Vec<u64>),
    /// Remove the table file with this id, durably.
    RemoveTable(u64),
    /// Nothing: the operation is over.
    Nothing,
}

/// An operation whose next action is being done.
#[derive(Debug)]
pub enum Operation {
    /// The frame of a command is appended.
    Appending { index: LogIndex, command: Command },
    /// The table of a flush is written.
    Flushing(Sstable),
    /// The log is emptied after a flush.
    Emptying,
    /// The tables are read for a compaction.
    Reading(Vec<Sstable>),
    /// The table of a compaction is written.
    Merging { old_tables: Vec<Sstable>, table: Sstable },
    /// What is applied is marked in the log, since a compaction leaves no table.
    Marking(Vec<Sstable>),
    /// The oldest of the old tables is removed after a compaction.
    Removing(Vec<Sstable>),
    /// Nothing is left to do.
    Over,
}

/// The content of a [`DiskAction`].
pub enum DiskActionView {
    AppendLog(Seq<u8>),
    WriteTable(u64, Seq<u8>),
    EmptyLog,
    ReadTables(Seq<u64>),
    RemoveTable(u64),
    Nothing,
}

/// The content of an [`Operation`].
pub enum OperationView {
    Appending(WalFrameView),
    Flushing(TableView),
    Emptying,
    Reading(Seq<TableView>),
    Merging(Seq<TableView>, TableView),
    Marking(Seq<TableView>),
    Removing(Seq<TableView>),
    Over,
}

impl View for DiskAction {
    type V = DiskActionView;

    open spec fn view(&self) -> DiskActionView {
        match *self {
            DiskAction::AppendLog(bytes) => DiskActionView::AppendLog(bytes@),
            DiskAction::WriteTable { id, bytes } => DiskActionView::WriteTable(id, bytes@),
            DiskAction::EmptyLog => DiskActionView::EmptyLog,
            DiskAction::ReadTables(ids) => DiskActionView::ReadTables(ids@),
            DiskAction::RemoveTable(id) => DiskActionView::RemoveTable(id),
            DiskAction::Nothing => DiskActionView::Nothing,
        }
    }
}

impl View for Operation {
    type V = OperationView;

    open spec fn view(&self) -> OperationView {
        match *self {
            Operation::Appending { index, command } => OperationView::Appending(
                (index, crate::lsm::record::stored_by(command)),
            ),
            Operation::Flushing(table) => OperationView::Flushing(table@),
            Operation::Emptying => OperationView::Emptying,
            Operation::Reading(tables) => OperationView::Reading(tables.deep_view()),
            Operation::Merging { old_tables, table } => OperationView::Merging(
                old_tables.deep_view(),
                table@,
            ),
            Operation::Marking(tables) => OperationView::Marking(tables.deep_view()),
            Operation::Removing(tables) => OperationView::Removing(tables.deep_view()),
            Operation::Over => OperationView::Over,
        }
    }
}

/// An operation and its next action, or why it failed.
pub type Step = Result<(OperationView, DiskActionView), LsmError>;

/// The content of an operation and its next action.
pub open spec fn step_view(step: Result<(Operation, DiskAction), LsmError>) -> Step {
    match step {
        Ok((operation, action)) => Ok((operation@, action@)),
        Err(error) => Err(error),
    }
}

/// An operation that is over.
pub open spec fn over() -> Step {
    Ok((OperationView::Over, DiskActionView::Nothing))
}

/// The ids of tables.
pub open spec fn ids_of(tables: Seq<TableView>) -> Seq<u64> {
    tables.map_values(|table: TableView| table.0)
}

/// How the apply of a command begins: its frame goes to the log, unless it is
/// applied already.
pub open spec fn applies(state: LsmState, frame: WalFrameView, step: Step) -> bool {
    if frame.0 <= state.last_applied {
        step == over()
    } else if frame.0 != state.last_applied + 1 {
        step == Step::Err(LsmError::IndexGap)
    } else if crate::lsm::codec::frame_len(frame) > u32::MAX {
        step == Step::Err(LsmError::FrameTooLarge)
    } else {
        &&& crate::lsm::codec::frame_is_storable(frame)
        &&& step == Step::Ok(
            (
                OperationView::Appending(frame),
                DiskActionView::AppendLog(
                    crate::bytes::framed(crate::lsm::codec::code_of_frame(frame)),
                ),
            ),
        )
    }
}

/// A table image with the entries of a memtable.
pub open spec fn images(memtable: MemtableView, table: TableView, bytes: Seq<u8>) -> bool {
    exists|entries: Seq<DataEntryView>| #[trigger]
        crate::lsm::tree::lists(entries, memtable) && crate::lsm::table::holds(
            bytes,
            entries,
            table.1,
        )
}

/// How a flush begins: the memtable is written as a table, if anything is in it.
pub open spec fn flushes(state: LsmState, step: Step) -> bool {
    if state.memtable == MemtableView::empty() {
        step == over()
    } else {
        match step {
            Ok((OperationView::Flushing(table), DiskActionView::WriteTable(id, bytes))) => {
                &&& id == table.0 == state.flush_id()
                &&& table.1.2 == state.last_applied
                &&& images(state.memtable, table, bytes)
            },
            Err(error) => error == LsmError::FrameTooLarge && exists|
                entries: Seq<DataEntryView>,
            | #[trigger]
                crate::lsm::tree::lists(entries, state.memtable) && !crate::lsm::table::all_fit(
                    entries,
                ),
            _ => false,
        }
    }
}

/// How a compaction begins: the tables are read, if there are two or more.
pub open spec fn compacts(before: LsmState, after: LsmState, step: Step) -> bool {
    if before.tables.len() < 2 {
        after == before && step == over()
    } else {
        &&& after == before.without_tables()
        &&& step == Step::Ok(
            (
                OperationView::Reading(before.tables),
                DiskActionView::ReadTables(ids_of(before.tables)),
            ),
        )
    }
}

/// How old tables, listed newest first, are removed: the oldest goes next, until
/// none is left. So a key that a newer table deletes never comes back from an
/// older one.
pub open spec fn removal(old_tables: Seq<TableView>) -> Step {
    if old_tables.len() == 0 {
        over()
    } else {
        Ok(
            (
                OperationView::Removing(old_tables),
                DiskActionView::RemoveTable(old_tables.last().0),
            ),
        )
    }
}

/// The frame that keeps account of what is applied and stores nothing.
pub open spec fn mark_of(state: LsmState) -> WalFrameView {
    (state.last_applied, None)
}

/// How an operation goes on once its action is done.
pub open spec fn goes_on(
    before: LsmState,
    operation: OperationView,
    after: LsmState,
    step: Step,
) -> bool {
    match operation {
        OperationView::Appending(frame) => {
            &&& after == before.recorded(frame)
            &&& if after.is_flush_due() {
                flushes(after, step)
            } else {
                step == over()
            }
        },
        OperationView::Flushing(table) => {
            &&& after == before.flushed(table)
            &&& step == Step::Ok((OperationView::Emptying, DiskActionView::EmptyLog))
        },
        OperationView::Emptying => if before.is_compaction_due() {
            compacts(before, after, step)
        } else {
            after == before && step == over()
        },
        OperationView::Reading(_) => false,
        OperationView::Merging(old_tables, table) => {
            &&& after == before.compacted(Some(table))
            &&& step == removal(old_tables)
        },
        OperationView::Marking(old_tables) => {
            &&& after == before.compacted(None)
            &&& step == removal(old_tables)
        },
        OperationView::Removing(old_tables) => {
            &&& after == before
            &&& step == removal(
                if old_tables.len() > 0 {
                    old_tables.drop_last()
                } else {
                    old_tables
                },
            )
        },
        OperationView::Over => after == before && step == over(),
    }
}

/// A table image with entries merged from others.
pub open spec fn merges_into(
    from: Seq<DataEntryView>,
    table: TableView,
    bytes: Seq<u8>,
) -> bool {
    exists|merged: Seq<DataEntryView>| #[trigger]
        crate::lsm::tree::merges(merged, from) && merged.len() > 0 && crate::lsm::table::holds(
            bytes,
            merged,
            table.1,
        )
}

/// How a compaction goes on once its tables are read: what they hold is merged
/// into one, which is written and accounts for all that they did. Where nothing
/// but deletions is left, the log keeps that account.
pub open spec fn merges_on(
    state: LsmState,
    old_tables: Seq<TableView>,
    read: Seq<Seq<u8>>,
    step: Step,
) -> bool {
    match crate::lsm::tree::all_entries_in(read) {
        Ok(from) => match step {
            Ok((OperationView::Marking(old), DiskActionView::AppendLog(bytes))) => {
                &&& old == old_tables
                &&& crate::lsm::tree::merges(Seq::empty(), from)
                &&& crate::lsm::codec::frame_is_storable(mark_of(state))
                &&& bytes == crate::bytes::framed(
                    crate::lsm::codec::code_of_frame(mark_of(state)),
                )
            },
            Ok((OperationView::Merging(old, table), DiskActionView::WriteTable(id, bytes))) => {
                &&& old == old_tables
                &&& id == table.0 == state.compaction_id(old_tables)
                &&& table.1.2 == crate::lsm::tree::highest_index(old_tables)
                &&& merges_into(from, table, bytes)
            },
            Err(error) => error == LsmError::FrameTooLarge && exists|
                merged: Seq<DataEntryView>,
            | #[trigger]
                crate::lsm::tree::merges(merged, from) && !crate::lsm::table::all_fit(merged),
            _ => false,
        },
        Err(error) => step == Step::Err(error),
    }
}

/// A tree after a read, which it counts, and what was found: the value under the key,
/// none where it was deleted or never written.
pub open spec fn gets(state: LsmState, images: Seq<Seq<u8>>, key: Seq<char>) -> (
    LsmState,
    Result<Option<Seq<char>>, LsmError>,
) {
    (
        LsmState {
            disk_reads: capped(
                state.disk_reads + crate::lsm::tree_laws::reads(state, images, key),
            ),
            ..state
        },
        match crate::lsm::tree_laws::read(state, images, key) {
            Ok(found) => Ok(crate::lsm::tree_laws::value_of(found)),
            Err(error) => Err(error),
        },
    )
}

/// A count, at most `usize::MAX`.
pub open spec fn capped(count: int) -> usize {
    if count <= usize::MAX {
        count as usize
    } else {
        usize::MAX
    }
}

/// A read that has come to a step ends as the whole read does.
spec fn comes_to(
    state: LsmState,
    images: Seq<Seq<u8>>,
    key: Seq<char>,
    step: GetStep,
) -> bool {
    let outcome = crate::lsm::tree_laws::read(state, images, key);
    match step {
        GetStep::Found(value) => outcome == Ok::<Option<Option<Seq<char>>>, LsmError>(
            Some(crate::node::text_of(value)),
        ),
        GetStep::Missing => outcome == Ok::<Option<Option<Seq<char>>>, LsmError>(None),
        GetStep::Read(place) => place < state.tables.len() && outcome == match crate::lsm::table::lookup_in(
            state.tables[place as int].1.0,
            images[place as int],
            key,
        ) {
            Ok(Some(value)) => Ok(Some(value)),
            Ok(None) => crate::lsm::tree_laws::search(state.tables, images, key, place + 1),
            Err(error) => Err(error),
        },
    }
}

proof fn total_len_grows(images: Seq<Seq<u8>>, i: int)
    requires
        0 <= i <= images.len(),
    ensures
        crate::lsm::tree::total_len(images.take(i)) <= crate::lsm::tree::total_len(images),
    decreases images.len() - i,
{
    if i == images.len() {
        assert(images.take(i) =~= images);
    } else {
        assert(images.take(i + 1).drop_last() =~= images.take(i));
        total_len_grows(images, i + 1);
    }
}

fn table_ids(tables: &Vec<Sstable>) -> (ids: Vec<u64>)
    ensures
        ids@ == ids_of(tables.deep_view()),
{
    let mut ids: Vec<u64> = Vec::new();
    let mut i: usize = 0;
    while i < tables.len()
        invariant
            i <= tables@.len(),
            ids@.len() == i,
            forall|j: int| 0 <= j < i ==> #[trigger] ids@[j] == tables@[j].id,
        decreases tables@.len() - i,
    {
        ids.push(tables[i].id);
        i = i + 1;
    }
    assert(ids@ =~= ids_of(tables.deep_view()));
    ids
}

/// Has the oldest table removed, if one is left.
fn remove_oldest(old_tables: Vec<Sstable>) -> (step: (Operation, DiskAction))
    ensures
        Step::Ok((step.0@, step.1@)) == removal(old_tables.deep_view()),
{
    let count: usize = old_tables.len();
    if count == 0 {
        return (Operation::Over, DiskAction::Nothing);
    }
    let id: u64 = old_tables[count - 1].id;
    assert(old_tables.deep_view().last() == old_tables@[count - 1]@);
    (Operation::Removing(old_tables), DiskAction::RemoveTable(id))
}

/// The table of a plan, and its action.
fn write_plan(plan: TablePlan) -> (written: (Sstable, DiskAction))
    ensures
        written.0@ == (plan.id, plan.image.footer@),
        written.1@ == DiskActionView::WriteTable(plan.id, plan.image.bytes@),
{
    let TablePlan { id, image } = plan;
    (Sstable { id, footer: image.footer }, DiskAction::WriteTable { id, bytes: image.bytes })
}

impl LsmTree {
    /// Whether a key more, and a table more, can be counted.
    pub open spec fn has_room(&self) -> bool {
        &&& (self.keys_in_memory() + 1) * 10 <= usize::MAX - 7
        &&& crate::lsm::tree::highest_id(self@.tables) < u64::MAX
    }

    /// Whether a key more, and a table more, can be counted.
    pub fn can_grow(&self) -> (can: bool)
        ensures
            can == self.has_room(),
    {
        self.memtable_len() < (usize::MAX - 7) / 10 && self.highest_table_id() < u64::MAX
    }

    /// Begins to apply a command.
    pub fn begin_apply(&self, index: LogIndex, command: Command) -> (step: Result<
        (Operation, DiskAction),
        LsmError,
    >)
        ensures
            applies(
                self@,
                (index, crate::lsm::record::stored_by(command)),
                step_view(step),
            ),
    {
        proof {
            crate::lsm::codec::frame_code_len((index, crate::lsm::record::stored_by(command)));
        }
        match self.plan_apply(index, &command) {
            Ok(Some(bytes)) => Ok(
                (Operation::Appending { index, command }, DiskAction::AppendLog(bytes)),
            ),
            Ok(None) => Ok((Operation::Over, DiskAction::Nothing)),
            Err(error) => Err(error),
        }
    }

    /// Reads a key, with the images of all tables at hand, newest first.
    pub fn get_mut(&mut self, key: &str, tables: &Vec<Vec<u8>>) -> (value: Result<
        Option<String>,
        LsmError,
    >)
        requires
            old(self)@.filters_are_sound(),
            tables@.len() == old(self)@.tables.len(),
            forall|i: int|
                0 <= i < tables@.len() ==> crate::lsm::table::trailer_is_sane(
                    (#[trigger] tables@[i])@,
                ),
        ensures
            (
                final(self)@,
                match value {
                    Ok(value) => Ok(crate::node::text_of(value)),
                    Err(error) => Err(error),
                },
            ) == gets(old(self)@, tables.deep_view(), key@),
    {
        let ghost before = self@;
        let ghost images = tables.deep_view();
        let mut step = self.begin_get(key);
        let ghost mut made: nat = match step {
            GetStep::Read(_) => 1,
            _ => 0,
        };
        loop
            invariant
                before == old(self)@,
                images == tables.deep_view(),
                before.filters_are_sound(),
                tables@.len() == before.tables.len(),
                forall|i: int|
                    0 <= i < tables@.len() ==> crate::lsm::table::trailer_is_sane(
                        (#[trigger] tables@[i])@,
                    ),
                self@ == (LsmState { disk_reads: capped(before.disk_reads + made), ..before }),
                crate::lsm::tree_laws::reads(before, images, key@) == made + match step {
                    GetStep::Read(place) => crate::lsm::tree_laws::further_lookups(
                        before.tables,
                        images,
                        key@,
                        place as int,
                    ),
                    _ => 0,
                },
                comes_to(before, images, key@, step),
            decreases
                    match step {
                        GetStep::Read(place) => before.tables.len() - place,
                        _ => 0,
                    },
        {
            match step {
                GetStep::Found(value) => {
                    return Ok(value);
                },
                GetStep::Missing => {
                    return Ok(None);
                },
                GetStep::Read(place) => {
                    assert(images[place as int] == tables@[place as int]@);
                    match self.continue_get(key, place, tables[place].as_slice()) {
                        Ok(next) => {
                            proof {
                                if let GetStep::Read(_) = next {
                                    made = made + 1;
                                }
                            }
                            step = next;
                        },
                        Err(error) => {
                            return Err(error);
                        },
                    }
                },
            }
        }
    }

    /// Begins to flush the memtable.
    pub fn begin_flush(&self) -> (step: Result<(Operation, DiskAction), LsmError>)
        requires
            self.keys_in_memory() * 10 <= usize::MAX - 7,
            crate::lsm::tree::highest_id(self@.tables) < u64::MAX,
        ensures
            flushes(self@, step_view(step)),
    {
        match self.plan_flush() {
            Ok(Some(plan)) => {
                let (table, action) = write_plan(plan);
                assert(images(self@.memtable, table@, plan.image.bytes@));
                Ok((Operation::Flushing(table), action))
            },
            Ok(None) => Ok((Operation::Over, DiskAction::Nothing)),
            Err(error) => Err(error),
        }
    }

    /// Begins to compact the tables.
    pub fn begin_compact(&mut self) -> (step: Result<(Operation, DiskAction), LsmError>)
        ensures
            compacts(old(self)@, final(self)@, step_view(step)),
    {
        match self.begin_compaction() {
            Some(tables) => {
                let ids = table_ids(&tables);
                Ok((Operation::Reading(tables), DiskAction::ReadTables(ids)))
            },
            None => Ok((Operation::Over, DiskAction::Nothing)),
        }
    }

    /// Goes on with an operation whose action is done. One that waits for tables
    /// goes on with [`LsmTree::resume_read`] instead.
    pub fn resume(&mut self, operation: Operation) -> (step: Result<
        (Operation, DiskAction),
        LsmError,
    >)
        requires
            !(operation is Reading),
            operation matches Operation::Appending { index, command } ==> index
                == old(self)@.last_applied + 1 && old(self).has_room(),
        ensures
            goes_on(old(self)@, operation@, final(self)@, step_view(step)),
    {
        match operation {
            Operation::Appending { index, command } => {
                self.record_applied(index, &command);
                if self.flush_due() {
                    self.begin_flush()
                } else {
                    Ok((Operation::Over, DiskAction::Nothing))
                }
            },
            Operation::Flushing(table) => {
                self.flush(table);
                Ok((Operation::Emptying, DiskAction::EmptyLog))
            },
            Operation::Emptying => if self.compaction_due() {
                self.begin_compact()
            } else {
                Ok((Operation::Over, DiskAction::Nothing))
            },
            Operation::Reading(_) => Ok((Operation::Over, DiskAction::Nothing)),
            Operation::Merging { old_tables, table } => {
                self.compact(Some(table));
                Ok(remove_oldest(old_tables))
            },
            Operation::Marking(old_tables) => {
                self.compact(None);
                Ok(remove_oldest(old_tables))
            },
            Operation::Removing(old_tables) => {
                let mut old_tables = old_tables;
                let ghost before = old_tables.deep_view();
                let _ = old_tables.pop();
                proof {
                    if before.len() > 0 {
                        assert(old_tables.deep_view() =~= before.drop_last());
                    } else {
                        assert(old_tables.deep_view() =~= before);
                    }
                }
                Ok(remove_oldest(old_tables))
            },
            Operation::Over => Ok((Operation::Over, DiskAction::Nothing)),
        }
    }

    /// Whether tables that were read can be merged: each has a footer within its
    /// bytes, and what is counted stays within bounds.
    pub open spec fn accepts(
        &self,
        old_tables: Seq<TableView>,
        read: Seq<Seq<u8>>,
    ) -> bool {
        &&& forall|i: int|
            0 <= i < read.len() ==> crate::lsm::table::trailer_is_sane(#[trigger] read[i])
        &&& crate::lsm::tree::total_len(read) * 3 <= usize::MAX - 7
        &&& crate::lsm::tree::highest_id(self@.tables) < u64::MAX - 1
        &&& crate::lsm::tree::highest_id(old_tables) < u64::MAX
    }

    /// Whether tables that were read can be merged.
    pub fn can_merge(&self, old_tables: &Vec<Sstable>, read: &Vec<Vec<u8>>) -> (can: bool)
        ensures
            can == self.accepts(old_tables.deep_view(), read.deep_view()),
    {
        let ghost views = read.deep_view();
        let limit: usize = (usize::MAX - 7) / 3;
        let mut len: usize = 0;
        let mut i: usize = 0;
        assert(views.take(0) =~= Seq::empty());
        while i < read.len()
            invariant
                i <= read@.len(),
                views == read.deep_view(),
                limit == (usize::MAX - 7) / 3,
                len == crate::lsm::tree::total_len(views.take(i as int)),
                len <= limit,
                forall|j: int|
                    0 <= j < i ==> crate::lsm::table::trailer_is_sane(#[trigger] views[j]),
            decreases read@.len() - i,
        {
            assert(views[i as int] == read@[i as int]@);
            assert(views.take(i + 1).drop_last() =~= views.take(i as int));
            if !trailer_fits(read[i].as_slice()) {
                return false;
            }
            if read[i].len() > limit - len {
                proof {
                    total_len_grows(views, i + 1);
                }
                return false;
            }
            len = len + read[i].len();
            i = i + 1;
        }
        assert(views.take(views.len() as int) =~= views);
        self.highest_table_id() < u64::MAX - 1 && highest_id_of(old_tables) < u64::MAX
    }

    /// Goes on with a compaction whose tables were read.
    pub fn resume_read(&self, old_tables: Vec<Sstable>, read: &Vec<Vec<u8>>) -> (step: Result<
        (Operation, DiskAction),
        LsmError,
    >)
        requires
            self.accepts(old_tables.deep_view(), read.deep_view()),
        ensures
            merges_on(self@, old_tables.deep_view(), read.deep_view(), step_view(step)),
    {
        assert forall|i: int| 0 <= i < read@.len() implies crate::lsm::table::trailer_is_sane(
            (#[trigger] read@[i])@,
        ) by {
            assert(read.deep_view()[i] == read@[i]@);
        }
        match self.plan_compaction(&old_tables, read) {
            Ok(Some(plan)) => {
                let (table, action) = write_plan(plan);
                Ok((Operation::Merging { old_tables, table }, action))
            },
            Ok(None) => {
                let mark = self.plan_mark();
                Ok((Operation::Marking(old_tables), DiskAction::AppendLog(mark)))
            },
            Err(error) => Err(error),
        }
    }
}

} // verus!
