//! What a node applies its committed commands to.
use crate::text::TextMap;
use crate::types::{Command, LogIndex};
use vstd::prelude::*;

verus! {

/// Why a state machine refused to apply a command or to serve a read.
#[derive(Clone, Copy, Debug, PartialEq, Eq, Structural)]
pub enum StateMachineError {
    /// The command's index is not the one after the last applied.
    IndexGap,
    /// The machine's storage failed.
    Storage,
}

/// The text that a read found, or why it failed.
pub open spec fn read_outcome(
    outcome: Result<Option<String>, StateMachineError>,
) -> Result<Option<Seq<char>>, StateMachineError> {
    match outcome {
        Ok(Some(text)) => Ok(Some(text@)),
        Ok(None) => Ok(None),
        Err(error) => Err(error),
    }
}

/// A machine driven by the committed entries of the log, in log order.
///
/// Verified implementations must say in `applied` how far they have come: the
/// default fixes no index, so nothing can be shown to meet it. In `applies` and
/// `reads` they say which outcomes they allow, any where they say nothing. A node
/// promises no more than what follows from the three.
pub trait StateMachine: std::fmt::Debug + Sized {
    /// The index of the last command the machine has applied.
    open spec fn applied(&self) -> LogIndex {
        arbitrary()
    }

    /// Whether applying `command` at `index` may take the machine from `pre`
    /// to `post` and end in `outcome`.
    open spec fn applies(
        pre: Self,
        index: LogIndex,
        command: Command,
        post: Self,
        outcome: Result<(), StateMachineError>,
    ) -> bool {
        true
    }

    /// Whether reading `key` may end in `outcome`.
    open spec fn reads(
        &self,
        key: Seq<char>,
        outcome: Result<Option<Seq<char>>, StateMachineError>,
    ) -> bool {
        true
    }

    fn apply(&mut self, index: LogIndex, command: &Command) -> (outcome: Result<
        (),
        StateMachineError,
    >)
        ensures
            Self::applies(*old(self), index, *command, *final(self), outcome),
    ;

    fn get(&self, key: &str) -> (outcome: Result<Option<String>, StateMachineError>)
        ensures
            self.reads(key@, read_outcome(outcome)),
    ;

    fn last_applied(&self) -> (index: LogIndex)
        ensures
            index == self.applied(),
    ;
}

/// The content of a key-value machine.
#[verifier::ext_equal]
pub struct KvState {
    pub data: Map<Seq<char>, Seq<char>>,
    pub last_applied: LogIndex,
}

impl KvState {
    /// The state of a machine that has applied nothing.
    pub open spec fn initial() -> KvState {
        KvState { data: Map::empty(), last_applied: 0 }
    }

    /// What a command makes of the data.
    pub open spec fn written(data: Map<Seq<char>, Seq<char>>, command: Command) -> Map<
        Seq<char>,
        Seq<char>,
    > {
        match command {
            Command::Noop => data,
            Command::Put { key, value } => data.insert(key@, value@),
            Command::Delete { key } => data.remove(key@),
        }
    }

    /// The effect of applying `command` at `index`: what is applied already is
    /// skipped, and an index further ahead than the next is refused.
    pub open spec fn apply(self, index: LogIndex, command: Command) -> (
        KvState,
        Result<(), StateMachineError>,
    ) {
        if index <= self.last_applied {
            (self, Ok(()))
        } else if index > self.last_applied + 1 {
            (self, Err(StateMachineError::IndexGap))
        } else {
            (KvState { data: KvState::written(self.data, command), last_applied: index }, Ok(()))
        }
    }

    /// The value under a key.
    pub open spec fn lookup(self, key: Seq<char>) -> Option<Seq<char>> {
        if self.data.contains_key(key) {
            Some(self.data[key])
        } else {
            None
        }
    }

    /// A read of a key that the next command puts gives the value put.
    pub proof fn put_is_read_back(self, key: String, value: String)
        requires
            self.last_applied < usize::MAX,
        ensures
            self.apply((self.last_applied + 1) as LogIndex, Command::Put { key, value }).0.lookup(
                key@,
            ) == Some(value@),
    {
    }

    /// A read of a key that the next command deletes finds nothing.
    pub proof fn delete_is_read_back(self, key: String)
        requires
            self.last_applied < usize::MAX,
        ensures
            self.apply((self.last_applied + 1) as LogIndex, Command::Delete { key }).0.lookup(key@)
                is None,
    {
    }

    /// A command leaves alone every key that it does not name.
    pub proof fn other_keys_are_kept(self, index: LogIndex, command: Command, key: Seq<char>)
        requires
            command matches Command::Put { key: named, .. } ==> named@ != key,
            command matches Command::Delete { key: named } ==> named@ != key,
        ensures
            self.apply(index, command).0.lookup(key) == self.lookup(key),
    {
    }

    /// The data after several commands.
    pub open spec fn written_by(data: Map<Seq<char>, Seq<char>>, commands: Seq<Command>) -> Map<
        Seq<char>,
        Seq<char>,
    >
        decreases commands.len(),
    {
        if commands.len() == 0 {
            data
        } else {
            KvState::written(KvState::written_by(data, commands.drop_last()), commands.last())
        }
    }

    /// Writing the last commands once more changes nothing.
    pub proof fn replay_converges(data: Map<Seq<char>, Seq<char>>, commands: Seq<Command>, from: int)
        requires
            0 <= from <= commands.len(),
        ensures
            KvState::written_by(KvState::written_by(data, commands), commands.skip(from))
                == KvState::written_by(data, commands),
    {
        let all = KvState::written_by(data, commands);
        let again = KvState::written_by(all, commands.skip(from));
        assert forall|key: Seq<char>|
            #![trigger again.contains_key(key)]
            #![trigger all.contains_key(key)]
            again.contains_key(key) == all.contains_key(key) && (all.contains_key(key)
                ==> again[key] == all[key]) by {
            KvState::last_writer_counts(all, data, commands, from, key);
        }
        assert(again =~= all);
    }

    /// What is under a key after commands that include the last ones of
    /// `commands` is decided by these, unless none of them names the key.
    proof fn last_writer_counts(
        base: Map<Seq<char>, Seq<char>>,
        data: Map<Seq<char>, Seq<char>>,
        commands: Seq<Command>,
        from: int,
        key: Seq<char>,
    )
        requires
            0 <= from <= commands.len(),
        ensures
            ({
                let again = KvState::written_by(base, commands.skip(from));
                let once = KvState::written_by(data, commands);
                ||| again.contains_key(key) == once.contains_key(key) && (once.contains_key(key)
                    ==> again[key] == once[key])
                ||| again.contains_key(key) == base.contains_key(key) && (base.contains_key(key)
                    ==> again[key] == base[key])
            }),
        decreases commands.len(),
    {
        if from < commands.len() {
            let less = commands.drop_last();
            assert(commands.skip(from).drop_last() =~= less.skip(from));
            assert(commands.skip(from).last() == commands.last());
            KvState::last_writer_counts(base, data, less, from, key);
        } else {
            assert(commands.skip(from) =~= Seq::empty());
        }
    }

    /// Applying the same command at the same index a second time changes
    /// nothing and succeeds if the first did.
    pub proof fn apply_is_idempotent(self, index: LogIndex, command: Command)
        ensures
            self.apply(index, command).0.apply(index, command) == self.apply(index, command),
    {
    }
}

/// A key-value machine held in memory.
#[derive(Debug)]
pub struct MemoryStateMachine {
    data: TextMap<String>,
    last_applied: LogIndex,
}

impl View for MemoryStateMachine {
    type V = KvState;

    closed spec fn view(&self) -> KvState {
        KvState {
            data: self.data@.map_values(|text: String| text@),
            last_applied: self.last_applied,
        }
    }
}

impl MemoryStateMachine {
    pub fn new() -> (machine: Self)
        ensures
            machine@ == KvState::initial(),
    {
        let machine = MemoryStateMachine { data: TextMap::new(), last_applied: 0 };
        assert(machine@.data =~= Map::empty());
        machine
    }
}

impl Default for MemoryStateMachine {
    fn default() -> (machine: Self)
        ensures
            machine@ == KvState::initial(),
    {
        MemoryStateMachine::new()
    }
}

impl StateMachine for MemoryStateMachine {
    open spec fn applied(&self) -> LogIndex {
        self@.last_applied
    }

    open spec fn applies(
        pre: Self,
        index: LogIndex,
        command: Command,
        post: Self,
        outcome: Result<(), StateMachineError>,
    ) -> bool {
        (post@, outcome) == pre@.apply(index, command)
    }

    open spec fn reads(
        &self,
        key: Seq<char>,
        outcome: Result<Option<Seq<char>>, StateMachineError>,
    ) -> bool {
        outcome == Ok::<Option<Seq<char>>, StateMachineError>(self@.lookup(key))
    }

    fn apply(&mut self, index: LogIndex, command: &Command) -> (outcome: Result<
        (),
        StateMachineError,
    >) {
        if index <= self.last_applied {
            return Ok(());
        }
        if index != self.last_applied + 1 {
            return Err(StateMachineError::IndexGap);
        }
        match command {
            Command::Noop => {},
            Command::Put { key, value } => {
                self.data.insert(key.clone(), value.clone());
            },
            Command::Delete { key } => {
                self.data.remove(key.as_str());
            },
        }
        self.last_applied = index;
        assert(self@.data =~= KvState::written(old(self)@.data, *command));
        Ok(())
    }

    fn get(&self, key: &str) -> (outcome: Result<Option<String>, StateMachineError>) {
        match self.data.get(key) {
            Some(value) => Ok(Some(value.clone())),
            None => Ok(None),
        }
    }

    fn last_applied(&self) -> (index: LogIndex) {
        self.last_applied
    }
}

} // verus!
