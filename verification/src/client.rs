//! A client: its arguments, and how it looks for the leader.
use crate::text::same_text;
use crate::types::{ClientReply, ClientRequest};
use vstd::prelude::*;
use vstd::string::*;

verus! {

/// How often a client asks every peer.
pub const MAX_ATTEMPTS: usize = 10;

/// How long a client waits after a peer that did not answer.
pub const RETRY_PAUSE_MS: u64 = 20;

/// Why a client's arguments were refused, or its request came to nothing.
#[derive(Clone, Copy, Debug, PartialEq, Eq, Structural)]
pub enum ClientError {
    /// There are too few arguments.
    NotEnoughArgs,
    /// No argument is a command.
    NoCommand,
    /// The command has too few or too many arguments.
    Usage,
    /// No peer served the request.
    NoLeader,
}

impl ClientError {
    /// What a user is told.
    pub open spec fn text(self) -> Seq<char> {
        match self {
            ClientError::NotEnoughArgs => "not enough args"@,
            ClientError::NoCommand => "command must be 'set' or 'get'"@,
            ClientError::Usage => "usage: raft-client <peer>... set <key> <value> | raft-client <peer>... get <key>"@,
            ClientError::NoLeader => "no leader found after 10 attempts"@,
        }
    }

    /// What a user is told.
    pub fn message(&self) -> (message: &'static str)
        ensures
            message@ == self.text(),
    {
        match self {
            ClientError::NotEnoughArgs => "not enough args",
            ClientError::NoCommand => "command must be 'set' or 'get'",
            ClientError::Usage => "usage: raft-client <peer>... set <key> <value> | raft-client <peer>... get <key>",
            ClientError::NoLeader => "no leader found after 10 attempts",
        }
    }
}

/// A request and the peers to ask.
#[derive(Debug)]
pub struct ClientCall {
    pub peers: Vec<String>,
    pub request: ClientRequest,
}

/// The content of a request.
pub enum RequestView {
    Put(Seq<char>, Seq<char>),
    Delete(Seq<char>),
    Get(Seq<char>),
    LocalGet(Seq<char>),
}

/// The content of a request.
pub open spec fn request_view(request: ClientRequest) -> RequestView {
    match request {
        ClientRequest::Put { key, value } => RequestView::Put(key@, value@),
        ClientRequest::Delete { key } => RequestView::Delete(key@),
        ClientRequest::Get { key } => RequestView::Get(key@),
        ClientRequest::LocalGet { key } => RequestView::LocalGet(key@),
    }
}

/// A word that is a command.
pub open spec fn is_command(word: Seq<char>) -> bool {
    word == "set"@ || word == "get"@
}

/// The place of the first command among arguments; their number where there is
/// none.
pub open spec fn command_place(arguments: Seq<Seq<char>>) -> int
    decreases arguments.len(),
{
    if arguments.len() == 0 || is_command(arguments[0]) {
        0
    } else {
        1 + command_place(arguments.drop_first())
    }
}

/// What a client's arguments, without the program's name, ask for, and of whom.
pub open spec fn call_in(arguments: Seq<Seq<char>>) -> Result<
    (Seq<Seq<char>>, RequestView),
    ClientError,
> {
    let place = command_place(arguments);
    if arguments.len() < 3 {
        Err(ClientError::NotEnoughArgs)
    } else if place >= arguments.len() {
        Err(ClientError::NoCommand)
    } else {
        let words = arguments.skip(place);
        if words[0] == "set"@ && words.len() == 3 {
            Ok((arguments.take(place), RequestView::Put(words[1], words[2])))
        } else if words[0] == "get"@ && words.len() == 2 {
            Ok((arguments.take(place), RequestView::Get(words[1])))
        } else {
            Err(ClientError::Usage)
        }
    }
}

/// Reads a client's arguments, without the program's name.
pub fn parse_call(arguments: &Vec<String>) -> (call: Result<ClientCall, ClientError>)
    ensures
        call_in(crate::config::texts(arguments@)) == match call {
            Ok(call) => Ok((crate::config::texts(call.peers@), request_view(call.request))),
            Err(error) => Err(error),
        },
{
    let ghost words = crate::config::texts(arguments@);
    if arguments.len() < 3 {
        return Err(ClientError::NotEnoughArgs);
    }
    let mut peers: Vec<String> = Vec::new();
    let mut place: usize = 0;
    assert(words.skip(0) =~= words);
    assert(crate::config::texts(peers@) =~= words.take(0));
    while place < arguments.len() && !same_text(arguments[place].as_str(), "set") && !same_text(
        arguments[place].as_str(),
        "get",
    )
        invariant
            place <= arguments@.len(),
            words == crate::config::texts(arguments@),
            crate::config::texts(peers@) == words.take(place as int),
            command_place(words) == place + command_place(words.skip(place as int)),
        decreases arguments@.len() - place,
    {
        assert(words[place as int] == arguments@[place as int]@);
        assert(words.skip(place as int)[0] == words[place as int]);
        assert(words.skip(place as int).drop_first() =~= words.skip(place + 1));
        let ghost before = peers@;
        peers.push(arguments[place].clone());
        proof {
            assert(crate::config::texts(before).len() == place);
            assert forall|j: int| 0 <= j < peers@.len() implies #[trigger] crate::config::texts(
                peers@,
            )[j] == words[j] by {
                if j < place {
                    assert(peers@[j] == before[j]);
                    assert(crate::config::texts(before)[j] == words.take(place as int)[j]);
                }
            }
            assert(crate::config::texts(peers@) =~= words.take(place + 1));
        }
        place = place + 1;
    }
    if place == arguments.len() {
        return Err(ClientError::NoCommand);
    }
    assert(words[place as int] == arguments@[place as int]@);
    assert(words.skip(place as int)[0] == words[place as int]);
    let left: usize = arguments.len() - place;
    if same_text(arguments[place].as_str(), "set") {
        proof {
            reveal_strlit("set");
            reveal_strlit("get");
            assert("set"@[0] != "get"@[0]);
        }
        if left == 3 {
            assert(words.skip(place as int)[1] == arguments@[place + 1]@);
            assert(words.skip(place as int)[2] == arguments@[place + 2]@);
            let key = arguments[place + 1].clone();
            let value = arguments[place + 2].clone();
            return Ok(ClientCall { peers, request: ClientRequest::Put { key, value } });
        }
    } else if left == 2 {
        assert(words.skip(place as int)[1] == arguments@[place + 1]@);
        let key = arguments[place + 1].clone();
        return Ok(ClientCall { peers, request: ClientRequest::Get { key } });
    }
    Err(ClientError::Usage)
}

/// The next step of a client that looks for the leader.
#[derive(Clone, Copy, Debug, PartialEq, Eq, Structural)]
pub enum RedirectStep {
    /// Ask the peer in this place.
    Ask(usize),
    /// The last answer is the one.
    Done,
    /// Nobody is left to ask.
    GiveUp,
}

/// The `n`-th peer to ask, counted from zero: all in turn, ten times over.
pub open spec fn asked(peers: nat, n: nat) -> RedirectStep {
    if n < MAX_ATTEMPTS * peers {
        RedirectStep::Ask((n % peers) as usize)
    } else {
        RedirectStep::GiveUp
    }
}

/// A reply came, and it reports success.
pub open spec fn reports_success(answer: Option<&ClientReply>) -> bool {
    answer is Some && answer->Some_0.success
}

/// How many peers were asked before the next one, and the next step, once the
/// `n`-th peer was asked and reported success or not.
pub open spec fn search_goes_on(peers: nat, n: nat, success: bool) -> (nat, RedirectStep) {
    if success {
        (n, RedirectStep::Done)
    } else {
        (n + 1, asked(peers, n + 1))
    }
}

/// How long to wait before the next peer is asked, after an answer or none.
pub open spec fn pause_after(answered: bool) -> u64 {
    if answered {
        0
    } else {
        RETRY_PAUSE_MS
    }
}

/// A client that looks for the leader among its peers.
#[derive(Debug)]
pub struct Redirect {
    peers: usize,
    attempt: usize,
    place: usize,
}

impl Redirect {
    /// The number of peers.
    pub closed spec fn size(&self) -> nat {
        self.peers as nat
    }

    /// How many peers were asked before the one that is asked now.
    pub closed spec fn count(&self) -> nat {
        (self.attempt * self.peers + self.place) as nat
    }

    /// Either a peer is being asked or none is left.
    #[verifier::type_invariant]
    spec fn in_range(self) -> bool {
        &&& self.attempt <= MAX_ATTEMPTS
        &&& self.attempt < MAX_ATTEMPTS ==> self.place < self.peers
        &&& self.attempt == MAX_ATTEMPTS ==> self.place == 0
    }

    /// Starts with the first peer.
    pub fn start(peers: usize) -> (redirect: Self)
        ensures
            redirect.size() == peers,
            redirect.count() == 0,
    {
        if peers == 0 {
            Redirect { peers, attempt: MAX_ATTEMPTS, place: 0 }
        } else {
            Redirect { peers, attempt: 0, place: 0 }
        }
    }

    /// The peer that is asked now.
    pub fn current(&self) -> (step: RedirectStep)
        ensures
            step == asked(self.size(), self.count()),
    {
        proof {
            use_type_invariant(&*self);
            if self.attempt < MAX_ATTEMPTS {
                ask_is_within(self.attempt as int, self.peers as int, self.place as int);
            }
        }
        if self.attempt < MAX_ATTEMPTS {
            RedirectStep::Ask(self.place)
        } else {
            RedirectStep::GiveUp
        }
    }

    /// Takes an answer, or that none came: a reply that reports success ends the
    /// search, anything else leads to the next peer.
    pub fn advance(&mut self, answer: Option<&ClientReply>) -> (step: RedirectStep)
        requires
            old(self).count() < MAX_ATTEMPTS * old(self).size(),
        ensures
            final(self).size() == old(self).size(),
            (final(self).count(), step) == search_goes_on(
                old(self).size(),
                old(self).count(),
                reports_success(answer),
            ),
    {
        proof {
            use_type_invariant(&*self);
        }
        match answer {
            Some(reply) => {
                if reply.success {
                    return RedirectStep::Done;
                }
            },
            None => {},
        }
        assert(self.attempt < MAX_ATTEMPTS);
        let ghost before = *self;
        if self.place + 1 < self.peers {
            *self = Redirect { peers: self.peers, attempt: self.attempt, place: self.place + 1 };
        } else {
            proof {
                assert((before.attempt + 1) * before.peers == before.attempt * before.peers
                    + before.peers) by (nonlinear_arith);
            }
            *self = Redirect { peers: self.peers, attempt: self.attempt + 1, place: 0 };
        }
        self.current()
    }
}

proof fn ask_is_within(attempt: int, peers: int, place: int)
    requires
        0 <= attempt < MAX_ATTEMPTS,
        0 <= place < peers,
    ensures
        attempt * peers + place < MAX_ATTEMPTS * peers,
        (attempt * peers + place) % peers == place,
{
    assert(attempt * peers + place < MAX_ATTEMPTS * peers) by (nonlinear_arith)
        requires
            0 <= attempt < MAX_ATTEMPTS,
            0 <= place < peers,
            MAX_ATTEMPTS == 10,
    ;
    vstd::arithmetic::div_mod::lemma_fundamental_div_mod_converse(
        attempt * peers + place,
        peers,
        attempt,
        place,
    );
}

/// How long to wait before the next peer is asked.
pub fn pause_ms(answer: Option<&ClientReply>) -> (pause: u64)
    ensures
        pause == pause_after(answer is Some),
{
    match answer {
        Some(_) => 0,
        None => RETRY_PAUSE_MS,
    }
}

/// Every peer is asked in every attempt.
pub proof fn every_peer_is_asked(peers: nat, attempt: nat, place: nat)
    requires
        attempt < MAX_ATTEMPTS,
        place < peers <= usize::MAX,
    ensures
        asked(peers, attempt * peers + place) == RedirectStep::Ask(place as usize),
{
    ask_is_within(attempt as int, peers as int, place as int);
}

} // verus!
