//! A tree and a machine in memory that are fed the same commands stay alike.
use crate::lsm::store::{DiskActionView, OperationView, Step};
use crate::lsm::store_laws::{Storage, Values};
use crate::lsm::tree::{LsmOptions, LsmState, TableView};
use crate::state_machine::KvState;
use crate::types::{Command, LogIndex};
use vstd::prelude::*;

verus! {

/// A tree in the middle of an operation: the action is to be done next.
pub struct Moment {
    pub state: LsmState,
    pub operation: OperationView,
    pub action: DiskActionView,
    pub storage: Storage,
}

/// Tables are read, and the compaction goes on with what they hold.
pub open spec fn reads_on(before: Moment, old_tables: Seq<TableView>, after: Moment) -> bool {
    exists|read: Seq<Seq<u8>>|
        {
            &&& read.len() == old_tables.len()
            &&& forall|i: int|
                0 <= i < read.len() ==> before.storage.files.contains(
                    ((#[trigger] old_tables[i]).0, read[i]),
                )
            &&& #[trigger] crate::lsm::store::merges_on(
                before.state,
                old_tables,
                read,
                Step::Ok((after.operation, after.action)),
            )
        }
}

/// An action is done, and the operation goes on.
pub open spec fn follows(before: Moment, after: Moment) -> bool {
    match before.operation {
        OperationView::Reading(old_tables) => {
            &&& after.state == before.state
            &&& after.storage == before.storage
            &&& reads_on(before, old_tables, after)
        },
        _ => {
            &&& after.storage == crate::lsm::store_laws::done(before.storage, before.action)
            &&& after.storage.log.len() <= usize::MAX
            &&& crate::lsm::store::goes_on(
                before.state,
                before.operation,
                after.state,
                Step::Ok((after.operation, after.action)),
            )
        },
    }
}

/// An operation runs through these moments.
pub open spec fn runs(moments: Seq<Moment>) -> bool {
    &&& moments.len() > 0
    &&& forall|i: int, j: int|
        0 <= i && j == i + 1 && j < moments.len() ==> follows(
            #[trigger] moments[i],
            #[trigger] moments[j],
        )
}

/// The moments of an operation. It comes to its end, or it is cut short by a crash
/// at the last of them, and a tree is opened on what lies on disk.
pub struct Course {
    pub moments: Seq<Moment>,
    pub crash: Option<LsmOptions>,
}

/// A tree with what lies on disk, and a machine in memory.
pub struct Pair {
    pub state: LsmState,
    pub storage: Storage,
    pub machine: KvState,
}

/// An operation that began with a step takes one tree to another.
pub open spec fn leads_to(before: Pair, step: Step, course: Course, after: Pair) -> bool {
    let moments = course.moments;
    &&& runs(moments)
    &&& moments[0].state == before.state
    &&& moments[0].storage == before.storage
    &&& step == Step::Ok((moments[0].operation, moments[0].action))
    &&& after.storage == moments.last().storage
    &&& match course.crash {
        None => moments.last().operation is Over && after.state == moments.last().state,
        Some(options) => LsmState::opened(
            after.storage.files,
            after.storage.log,
            options,
        ) matches Ok((state, _)) && after.state == state,
    }
}

/// What happens to a tree and a machine.
pub enum Event {
    /// Both are given a command. Where the tree crashes before anything is done,
    /// neither has it.
    Apply(LogIndex, Command, Course),
    /// The tree is flushed.
    Flush(Course),
    /// The tree is compacted, from this state on.
    Compact(LsmState, Course),
    /// The tree is opened anew.
    Open(LsmOptions),
}

/// An event takes a tree and a machine to others.
pub open spec fn happens(before: Pair, event: Event, after: Pair) -> bool {
    match event {
        Event::Apply(index, command, course) => {
            let frame = (index, crate::lsm::record::stored_by(command));
            if index > before.state.last_applied + 1 {
                &&& after.state == before.state
                &&& after.storage == before.storage
                &&& after.machine == before.machine.apply(index, command).0
            } else {
                &&& exists|step: Step| #[trigger]
                    crate::lsm::store::applies(before.state, frame, step) && leads_to(
                        before,
                        step,
                        course,
                        after,
                    )
                &&& after.machine == if course.moments.len() > 1 || course.crash is None {
                    before.machine.apply(index, command).0
                } else {
                    before.machine
                }
            }
        },
        Event::Flush(course) => {
            &&& exists|step: Step| #[trigger]
                crate::lsm::store::flushes(before.state, step) && leads_to(
                    before,
                    step,
                    course,
                    after,
                )
            &&& after.machine == before.machine
        },
        Event::Compact(from, course) => {
            &&& exists|step: Step| #[trigger]
                crate::lsm::store::compacts(before.state, from, step) && leads_to(
                    Pair { state: from, ..before },
                    step,
                    course,
                    after,
                )
            &&& after.machine == before.machine
        },
        Event::Open(options) => {
            &&& LsmState::opened(before.storage.files, before.storage.log, options) matches Ok(
                (state, _),
            )
            &&& after.state == state
            &&& after.storage == before.storage
            &&& after.machine == before.machine
        },
    }
}

/// What is read of a machine.
pub open spec fn values_of(machine: KvState) -> Values {
    |key: Seq<char>| machine.lookup(key)
}

/// A tree has applied as much as a machine, and stores the same.
pub open spec fn alike(pair: Pair) -> bool {
    &&& pair.state.last_applied == pair.machine.last_applied
    &&& crate::lsm::store_laws::agrees(pair.state, pair.storage, values_of(pair.machine))
}

/// Events in order, from a new tree and a new machine on.
pub open spec fn history(pairs: Seq<Pair>, events: Seq<Event>, options: LsmOptions) -> bool {
    &&& pairs.len() == events.len() + 1
    &&& pairs[0].state == LsmState::over(Seq::empty(), options)
    &&& pairs[0].storage.files == Seq::<crate::lsm::tree::FileView>::empty()
    &&& pairs[0].storage.log == Seq::<u8>::empty()
    &&& pairs[0].machine == KvState::initial()
    &&& forall|i: int, j: int|
        0 <= i && j == i + 1 && j < pairs.len() ==> happens(
            #[trigger] pairs[i],
            events[i],
            #[trigger] pairs[j],
        )
}

/// Values that agree on every key go for one another.
proof fn same_values_agree(state: LsmState, storage: Storage, a: Values, b: Values)
    requires
        crate::lsm::store_laws::agrees(state, storage, a),
        forall|key: Seq<char>| #[trigger] a(key) == b(key),
    ensures
        crate::lsm::store_laws::agrees(state, storage, b),
{
    assert(a =~= b);
}

/// Only an operation's first action may append a command, and only that changes
/// how much is applied.
proof fn moment_follows(before: Moment, after: Moment, values: Values)
    requires
        follows(before, after),
        crate::lsm::store_laws::underway(
            before.state,
            before.operation,
            before.action,
            before.storage,
            values,
        ),
    ensures
        crate::lsm::store_laws::underway(
            after.state,
            after.operation,
            after.action,
            after.storage,
            crate::lsm::store_laws::values_after(values, before.operation),
        ),
        !(after.operation is Appending),
        after.state.last_applied == match before.operation {
            OperationView::Appending(frame) => frame.0,
            _ => before.state.last_applied,
        },
{
    let step = Step::Ok((after.operation, after.action));
    match before.operation {
        OperationView::Reading(old_tables) => {
            let read = choose|read: Seq<Seq<u8>>|
                {
                    &&& read.len() == old_tables.len()
                    &&& forall|i: int|
                        0 <= i < read.len() ==> before.storage.files.contains(
                            ((#[trigger] old_tables[i]).0, read[i]),
                        )
                    &&& #[trigger] crate::lsm::store::merges_on(
                        before.state,
                        old_tables,
                        read,
                        step,
                    )
                };
            crate::lsm::store_laws::reading_keeps_values(
                before.state,
                old_tables,
                before.action,
                before.storage,
                values,
                read,
                step,
            );
        },
        _ => {
            crate::lsm::store_laws::actions_keep_values(
                before.state,
                before.operation,
                before.action,
                before.storage,
                values,
                after.state,
                step,
            );
        },
    }
}

/// The values at a moment of an operation.
spec fn values_at(values: Values, moments: Seq<Moment>, i: int) -> Values {
    if i == 0 {
        values
    } else {
        crate::lsm::store_laws::values_after(values, moments[0].operation)
    }
}

/// How much is applied at a moment of an operation.
spec fn applied_at(moments: Seq<Moment>, i: int) -> LogIndex {
    match moments[0].operation {
        OperationView::Appending(frame) if i > 0 => frame.0,
        _ => moments[0].state.last_applied,
    }
}

proof fn run_goes_on(moments: Seq<Moment>, values: Values, i: int)
    requires
        runs(moments),
        0 <= i < moments.len(),
        crate::lsm::store_laws::underway(
            moments[0].state,
            moments[0].operation,
            moments[0].action,
            moments[0].storage,
            values,
        ),
    ensures
        crate::lsm::store_laws::underway(
            moments[i].state,
            moments[i].operation,
            moments[i].action,
            moments[i].storage,
            values_at(values, moments, i),
        ),
        i > 0 ==> !(moments[i].operation is Appending),
        moments[i].state.last_applied == applied_at(moments, i),
    decreases i,
{
    if i > 0 {
        let j = i - 1;
        run_goes_on(moments, values, j);
        assert(follows(moments[j], moments[i]));
        moment_follows(moments[j], moments[i], values_at(values, moments, j));
    }
}

/// Where an operation leads, the tree agrees with what lies on disk.
proof fn course_agrees(before: Pair, step: Step, course: Course, after: Pair, values: Values)
    requires
        leads_to(before, step, course, after),
        crate::lsm::store_laws::underway(
            course.moments[0].state,
            course.moments[0].operation,
            course.moments[0].action,
            course.moments[0].storage,
            values,
        ),
    ensures
        crate::lsm::store_laws::agrees(
            after.state,
            after.storage,
            values_at(values, course.moments, course.moments.len() - 1),
        ),
        after.state.last_applied == applied_at(course.moments, course.moments.len() - 1),
{
    let last = course.moments.len() - 1;
    let moment = course.moments[last];
    run_goes_on(course.moments, values, last);
    if let Some(options) = course.crash {
        crate::lsm::store_laws::underway_is_recoverable(
            moment.state,
            moment.operation,
            moment.action,
            moment.storage,
            values_at(values, course.moments, last),
        );
        let opened = LsmState::opened(after.storage.files, after.storage.log, options);
        assert(opened is Ok);
    }
}

/// A command given to a tree and a machine that are alike leaves them alike.
proof fn apply_keeps_alike(
    before: Pair,
    index: LogIndex,
    command: Command,
    course: Course,
    after: Pair,
)
    requires
        alike(before),
        happens(before, Event::Apply(index, command, course), after),
    ensures
        alike(after),
{
    let frame = (index, crate::lsm::record::stored_by(command));
    let values = values_of(before.machine);
    if index <= before.state.last_applied + 1 {
        let step = choose|step: Step| #[trigger]
            crate::lsm::store::applies(before.state, frame, step) && leads_to(
                before,
                step,
                course,
                after,
            );
        let moments = course.moments;
        crate::lsm::store_laws::apply_begins_underway(
            before.state,
            frame,
            before.storage,
            values,
            moments[0].operation,
            moments[0].action,
        );
        course_agrees(before, step, course, after, values);
        let reached = values_at(values, moments, moments.len() - 1);
        assert forall|key: Seq<char>| #[trigger]
            reached(key) == values_of(after.machine)(key) by {
            if index > before.state.last_applied {
                crate::lsm::store_laws::tree_applies_like_a_machine(
                    values,
                    before.machine.data,
                    index,
                    command,
                    key,
                );
            }
        }
        same_values_agree(after.state, after.storage, reached, values_of(after.machine));
    }
}

/// A flush or a compaction of a tree that is like a machine leaves it so.
proof fn tending_keeps_alike(before: Pair, event: Event, after: Pair)
    requires
        alike(before),
        happens(before, event, after),
        event is Flush || event is Compact,
    ensures
        alike(after),
{
    let values = values_of(before.machine);
    match event {
        Event::Flush(course) => {
            let step = choose|step: Step| #[trigger]
                crate::lsm::store::flushes(before.state, step) && leads_to(
                    before,
                    step,
                    course,
                    after,
                );
            let first = course.moments[0];
            crate::lsm::store_laws::flush_begins_underway(
                before.state,
                before.storage,
                values,
                first.operation,
                first.action,
            );
            course_agrees(before, step, course, after, values);
        },
        Event::Compact(from, course) => {
            let middle = Pair { state: from, ..before };
            let step = choose|step: Step| #[trigger]
                crate::lsm::store::compacts(before.state, from, step) && leads_to(
                    middle,
                    step,
                    course,
                    after,
                );
            let first = course.moments[0];
            crate::lsm::store_laws::compaction_begins_underway(
                before.state,
                from,
                before.storage,
                values,
                first.operation,
                first.action,
            );
            course_agrees(middle, step, course, after, values);
        },
        _ => {},
    }
}

/// A tree and a machine in memory that are given the same commands have always
/// applied as much and store the same, through flushes, compactions, restarts and
/// crashes between two actions.
pub proof fn tree_is_like_a_machine(
    pairs: Seq<Pair>,
    events: Seq<Event>,
    options: LsmOptions,
    at: int,
)
    requires
        history(pairs, events, options),
        0 <= at < pairs.len(),
    ensures
        alike(pairs[at]),
    decreases at,
{
    if at == 0 {
        let pair = pairs[0];
        let none: Values = |key: Seq<char>| None;
        crate::lsm::store_laws::new_tree_agrees(options);
        assert(pair.storage == Storage { files: Seq::empty(), log: Seq::empty() });
        assert forall|key: Seq<char>| #[trigger] none(key) == values_of(pair.machine)(key) by {}
        same_values_agree(pair.state, pair.storage, none, values_of(pair.machine));
    } else {
        let before = pairs[at - 1];
        let after = pairs[at];
        tree_is_like_a_machine(pairs, events, options, at - 1);
        assert(happens(before, events[at - 1], after));
        match events[at - 1] {
            Event::Apply(index, command, course) => {
                apply_keeps_alike(before, index, command, course, after);
            },
            Event::Open(again) => {
                crate::lsm::store_laws::agreed_is_recoverable(
                    before.state,
                    before.storage,
                    values_of(before.machine),
                );
                let opened = LsmState::opened(before.storage.files, before.storage.log, again);
                assert(opened is Ok);
            },
            _ => {
                tending_keeps_alike(before, events[at - 1], after);
            },
        }
    }
}

/// Such a tree can be read, and a read finds what a read of the machine does.
pub proof fn tree_reads_like_a_machine(
    pairs: Seq<Pair>,
    events: Seq<Event>,
    options: LsmOptions,
    at: int,
    images: Seq<Seq<u8>>,
    key: Seq<char>,
)
    requires
        history(pairs, events, options),
        0 <= at < pairs.len(),
        images.len() == pairs[at].state.tables.len(),
        forall|i: int|
            0 <= i < images.len() ==> pairs[at].storage.files.contains(
                ((#[trigger] pairs[at].state.tables[i]).0, images[i]),
            ),
    ensures
        pairs[at].state.filters_are_sound(),
        forall|i: int|
            0 <= i < images.len() ==> crate::lsm::table::trailer_is_sane(#[trigger] images[i]),
        crate::lsm::tree_laws::read(pairs[at].state, images, key) matches Ok(found)
            && crate::lsm::tree_laws::value_of(found) == pairs[at].machine.lookup(key),
{
    let pair = pairs[at];
    tree_is_like_a_machine(pairs, events, options, at);
    crate::lsm::store_laws::agreed_is_recoverable(
        pair.state,
        pair.storage,
        values_of(pair.machine),
    );
    assert forall|i: int| 0 <= i < images.len() implies crate::lsm::table::trailer_is_sane(
        #[trigger] images[i],
    ) by {
        let file = (pair.state.tables[i].0, images[i]);
        assert(pair.storage.files.contains(file));
        let k = choose|k: int| 0 <= k < pair.storage.files.len() && pair.storage.files[k] == file;
        assert(crate::lsm::table::trailer_is_sane(pair.storage.files[k].1));
    }
    crate::lsm::store_laws::read_gives_value(
        pair.state,
        pair.storage,
        values_of(pair.machine),
        images,
        key,
    );
}

} // verus!
