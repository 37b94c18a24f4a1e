//! The key-value machine in memory: what a command does, and what a read finds.
use crate::state_machine::{KvState, MemoryStateMachine, StateMachine, StateMachineError};
use crate::types::{Command, LogIndex};
use vstd::prelude::*;

verus! {

/// A command names a key: it puts a value there or deletes it.
pub open spec fn names(command: Command, key: Seq<char>) -> bool {
    match command {
        Command::Put { key: named, .. } => named@ == key,
        Command::Delete { key: named } => named@ == key,
        Command::Noop => false,
    }
}

/// A machine takes the next command of the log and no other: one that it has
/// applied is skipped, one further ahead is refused, and neither changes anything.
/// A command that puts a value leaves that value under its key; one that deletes a
/// key leaves nothing there; what stands under other keys stays.
pub proof fn commands_are_applied_once_and_in_order(
    state: KvState,
    index: LogIndex,
    command: Command,
    key: Seq<char>,
)
    ensures
        ({
            let (after, outcome) = state.apply(index, command);
            &&& index <= state.last_applied ==> after == state && outcome is Ok
            &&& index > state.last_applied + 1 ==> after == state && outcome == Err::<
                (),
                StateMachineError,
            >(StateMachineError::IndexGap)
            &&& index == state.last_applied + 1 ==> {
                &&& outcome is Ok
                &&& after.last_applied == index
                &&& command matches Command::Put { key: named, value } ==> named@ == key
                    ==> after.data.contains_key(key) && after.data[key] == value@
                &&& command matches Command::Delete { key: named } ==> named@ == key
                    ==> !after.data.contains_key(key)
                &&& !names(command, key) ==> {
                    &&& after.data.contains_key(key) == state.data.contains_key(key)
                    &&& state.data.contains_key(key) ==> after.data[key] == state.data[key]
                }
            }
        }),
{
}

/// A read finds exactly what stands under the key.
pub proof fn reads_find_the_value(state: KvState, key: Seq<char>, value: Seq<char>)
    ensures
        state.lookup(key) == Some(value) <==> state.data.contains_key(key) && state.data[key]
            == value,
        state.lookup(key) is None <==> !state.data.contains_key(key),
{
}

/// The machine in memory does so too: of whatever `apply` and `get` may do.
pub proof fn memory_machines_do_so(
    pre: MemoryStateMachine,
    index: LogIndex,
    command: Command,
    post: MemoryStateMachine,
    outcome: Result<(), StateMachineError>,
    key: Seq<char>,
    found: Result<Option<Seq<char>>, StateMachineError>,
)
    requires
        MemoryStateMachine::applies(pre, index, command, post, outcome),
        post.reads(key, found),
    ensures
        index <= pre@.last_applied + 1 <==> outcome is Ok,
        outcome is Err ==> outcome == Err::<(), StateMachineError>(StateMachineError::IndexGap),
        index != pre@.last_applied + 1 ==> post@ == pre@,
        index == pre@.last_applied + 1 ==> post.applied() == index,
        found is Ok,
        index == pre@.last_applied + 1 ==> {
            &&& command matches Command::Put { key: named, value } ==> named@ == key
                ==> found->Ok_0 == Some(value@)
            &&& command matches Command::Delete { key: named } ==> named@ == key
                ==> found->Ok_0 is None
        },
        index != pre@.last_applied + 1 || !names(command, key) ==> {
            &&& pre@.data.contains_key(key) ==> found->Ok_0 == Some(pre@.data[key])
            &&& !pre@.data.contains_key(key) ==> found->Ok_0 is None
        },
{
    commands_are_applied_once_and_in_order(pre@, index, command, key);
    match outcome {
        Ok(done) => assert(done == ()),
        Err(_) => {},
    }
}

/// A new machine holds nothing and has applied nothing.
pub proof fn new_machines_hold_nothing(key: Seq<char>)
    ensures
        KvState::initial().last_applied == 0,
        !KvState::initial().data.contains_key(key),
        KvState::initial().lookup(key) is None,
{
}

} // verus!
