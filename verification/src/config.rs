//! The arguments of a node.
use crate::numbers::parse_usize;
use crate::types::NodeId;
use vstd::prelude::*;
use vstd::string::*;

verus! {

/// Why a node's arguments were refused.
#[derive(Clone, Copy, Debug, PartialEq, Eq, Structural)]
pub enum ConfigError {
    /// There are too few arguments.
    Usage,
    /// The node's id is no number.
    InvalidNodeId,
    /// A peer is not of the form `id=addr`.
    PeerForm,
    /// A peer's id is no number.
    InvalidPeerId,
    /// The node is not among its peers.
    MissingSelf,
}

impl ConfigError {
    /// What an operator is told.
    pub open spec fn text(self) -> Seq<char> {
        match self {
            ConfigError::Usage => "usage: raft-node <id> <state-file> <id=addr>..."@,
            ConfigError::InvalidNodeId => "invalid node id"@,
            ConfigError::PeerForm => "peer must be id=addr"@,
            ConfigError::InvalidPeerId => "invalid peer id"@,
            ConfigError::MissingSelf => "missing self address"@,
        }
    }

    /// What an operator is told.
    pub fn message(&self) -> (message: &'static str)
        ensures
            message@ == self.text(),
    {
        match self {
            ConfigError::Usage => "usage: raft-node <id> <state-file> <id=addr>...",
            ConfigError::InvalidNodeId => "invalid node id",
            ConfigError::PeerForm => "peer must be id=addr",
            ConfigError::InvalidPeerId => "invalid peer id",
            ConfigError::MissingSelf => "missing self address",
        }
    }
}

/// The addresses of the cluster's members, in the order in which they were first
/// named.
pub type Addresses = Seq<(NodeId, Seq<char>)>;

/// The first place of a character in a text.
pub open spec fn first_of(text: Seq<char>, c: char) -> Option<int>
    decreases text.len(),
{
    if text.len() == 0 {
        None
    } else if text[0] == c {
        Some(0)
    } else {
        match first_of(text.drop_first(), c) {
            Some(place) => Some(place + 1),
            None => None,
        }
    }
}

/// The first place of a member among addresses; their number where it is not
/// there.
pub open spec fn place_of(addresses: Addresses, id: NodeId) -> int
    decreases addresses.len(),
{
    if addresses.len() == 0 || addresses[0].0 == id {
        0
    } else {
        1 + place_of(addresses.drop_first(), id)
    }
}

/// The addresses with that of one member changed or added.
pub open spec fn with_address(addresses: Addresses, id: NodeId, address: Seq<char>) -> Addresses {
    let place = place_of(addresses, id);
    if place < addresses.len() {
        addresses.update(place, (id, address))
    } else {
        addresses.push((id, address))
    }
}

/// The member that an argument names.
pub open spec fn peer_in(argument: Seq<char>) -> Result<(NodeId, Seq<char>), ConfigError> {
    match first_of(argument, '=') {
        Some(place) => match crate::numbers::number_in(argument.take(place), usize::MAX as nat) {
            Some(id) => Ok((id as NodeId, argument.skip(place + 1))),
            None => Err(ConfigError::InvalidPeerId),
        },
        None => Err(ConfigError::PeerForm),
    }
}

/// The members that arguments name; a later argument for the same member counts.
pub open spec fn peers_in(arguments: Seq<Seq<char>>) -> Result<Addresses, ConfigError>
    decreases arguments.len(),
{
    if arguments.len() == 0 {
        Ok(Seq::empty())
    } else {
        match peers_in(arguments.drop_last()) {
            Ok(before) => match peer_in(arguments.last()) {
                Ok((id, address)) => Ok(with_address(before, id, address)),
                Err(error) => Err(error),
            },
            Err(error) => Err(error),
        }
    }
}

/// What a node is told.
pub struct ConfigView {
    pub id: NodeId,
    pub peers: Addresses,
    pub state_path: Seq<char>,
}

/// What a node's arguments, the program's name first, tell it.
pub open spec fn config_in(arguments: Seq<Seq<char>>) -> Result<ConfigView, ConfigError> {
    if arguments.len() < 5 {
        Err(ConfigError::Usage)
    } else {
        match crate::numbers::number_in(arguments[1], usize::MAX as nat) {
            Some(id) => match peers_in(arguments.skip(3)) {
                Ok(peers) => if place_of(peers, id as NodeId) < peers.len() {
                    Ok(ConfigView { id: id as NodeId, peers, state_path: arguments[2] })
                } else {
                    Err(ConfigError::MissingSelf)
                },
                Err(error) => Err(error),
            },
            None => Err(ConfigError::InvalidNodeId),
        }
    }
}

/// What a node is told.
#[derive(Debug)]
pub struct Config {
    pub id: NodeId,
    pub peers: Vec<(NodeId, String)>,
    pub state_path: String,
}

/// The content of addresses.
pub open spec fn addresses_view(peers: Seq<(NodeId, String)>) -> Addresses {
    peers.map_values(|peer: (NodeId, String)| (peer.0, peer.1@))
}

impl View for Config {
    type V = ConfigView;

    open spec fn view(&self) -> ConfigView {
        ConfigView {
            id: self.id,
            peers: addresses_view(self.peers@),
            state_path: self.state_path@,
        }
    }
}

/// Texts of strings.
pub open spec fn texts(strings: Seq<String>) -> Seq<Seq<char>> {
    strings.map_values(|string: String| string@)
}

/// Finds the first place of a character in a text.
fn find_char(text: &str, c: char) -> (place: Option<usize>)
    ensures
        first_of(text@, c) == match place {
            Some(place) => Some(place as int),
            None => None,
        },
        place matches Some(place) ==> place < text@.len(),
{
    let len: usize = text.unicode_len();
    let mut i: usize = 0;
    assert(text@.skip(0) =~= text@);
    while i < len
        invariant
            i <= len,
            len == text@.len(),
            first_of(text@, c) == match first_of(text@.skip(i as int), c) {
                Some(place) => Some(place + i),
                None => None,
            },
        decreases len - i,
    {
        assert(text@.skip(i as int).drop_first() =~= text@.skip(i + 1));
        if text.get_char(i) == c {
            return Some(i);
        }
        i = i + 1;
    }
    None
}

/// Finds a member among addresses.
pub fn find_peer(peers: &Vec<(NodeId, String)>, id: NodeId) -> (place: usize)
    ensures
        place == place_of(addresses_view(peers@), id),
        place <= peers@.len(),
        place < peers@.len() ==> peers@[place as int].0 == id,
{
    let ghost views = addresses_view(peers@);
    let mut place: usize = 0;
    assert(views.skip(0) =~= views);
    while place < peers.len() && peers[place].0 != id
        invariant
            place <= peers@.len(),
            views == addresses_view(peers@),
            place_of(views, id) == place + place_of(views.skip(place as int), id),
        decreases peers@.len() - place,
    {
        assert(views.skip(place as int)[0] == views[place as int]);
        assert(views.skip(place as int).drop_first() =~= views.skip(place + 1));
        place = place + 1;
    }
    proof {
        if place < peers@.len() {
            assert(views.skip(place as int)[0] == views[place as int]);
        }
    }
    place
}

/// Reads the member that an argument names.
fn parse_peer(argument: &str) -> (peer: Result<(NodeId, String), ConfigError>)
    ensures
        peer_in(argument@) == match peer {
            Ok((id, address)) => Ok((id, address@)),
            Err(error) => Err(error),
        },
{
    let len: usize = argument.unicode_len();
    match find_char(argument, '=') {
        Some(place) => {
            let name = argument.substring_char(0, place);
            assert(name@ =~= argument@.take(place as int));
            match parse_usize(name) {
                Some(id) => {
                    let address = argument.substring_char(place + 1, len);
                    assert(address@ =~= argument@.skip(place + 1));
                    Ok((id, String::from_str(address)))
                },
                None => Err(ConfigError::InvalidPeerId),
            }
        },
        None => Err(ConfigError::PeerForm),
    }
}

proof fn first_bad_peer_stays(arguments: Seq<Seq<char>>, n: int, error: ConfigError)
    requires
        0 <= n <= arguments.len(),
        peers_in(arguments.take(n)) == Err::<Addresses, ConfigError>(error),
    ensures
        peers_in(arguments) == Err::<Addresses, ConfigError>(error),
    decreases arguments.len() - n,
{
    if n == arguments.len() {
        assert(arguments.take(n) =~= arguments);
    } else {
        assert(arguments.take(n + 1).drop_last() =~= arguments.take(n));
        first_bad_peer_stays(arguments, n + 1, error);
    }
}

/// Reads the members that arguments from the fourth on name.
fn parse_peers(arguments: &Vec<String>) -> (peers: Result<Vec<(NodeId, String)>, ConfigError>)
    requires
        arguments@.len() >= 3,
    ensures
        peers_in(texts(arguments@).skip(3)) == match peers {
            Ok(peers) => Ok(addresses_view(peers@)),
            Err(error) => Err(error),
        },
{
    let ghost given = texts(arguments@).skip(3);
    let mut peers: Vec<(NodeId, String)> = Vec::new();
    let mut i: usize = 3;
    assert(given.take(0) =~= Seq::empty());
    assert(addresses_view(peers@) =~= Seq::empty());
    while i < arguments.len()
        invariant
            3 <= i <= arguments@.len(),
            given == texts(arguments@).skip(3),
            peers_in(given.take(i - 3)) == Ok::<Addresses, ConfigError>(addresses_view(peers@)),
        decreases arguments@.len() - i,
    {
        assert(given.take(i - 3 + 1).drop_last() =~= given.take(i - 3));
        assert(given[i - 3] == arguments@[i as int]@);
        match parse_peer(arguments[i].as_str()) {
            Ok((id, address)) => {
                let place: usize = find_peer(&peers, id);
                let ghost before = addresses_view(peers@);
                let ghost text = address@;
                if place < peers.len() {
                    peers.set(place, (id, address));
                } else {
                    peers.push((id, address));
                }
                assert(addresses_view(peers@) =~= with_address(before, id, text));
            },
            Err(error) => {
                proof {
                    first_bad_peer_stays(given, i - 3 + 1, error);
                }
                return Err(error);
            },
        }
        i = i + 1;
    }
    assert(given.take(given.len() as int) =~= given);
    Ok(peers)
}

/// The address of a member.
pub open spec fn address_in(addresses: Addresses, id: NodeId) -> Option<Seq<char>> {
    let place = place_of(addresses, id);
    if place < addresses.len() {
        Some(addresses[place].1)
    } else {
        None
    }
}

/// The ids of the members other than one, in their order.
pub open spec fn others_in(addresses: Addresses, id: NodeId) -> Seq<NodeId>
    decreases addresses.len(),
{
    if addresses.len() == 0 {
        Seq::empty()
    } else if addresses.last().0 != id {
        others_in(addresses.drop_last(), id).push(addresses.last().0)
    } else {
        others_in(addresses.drop_last(), id)
    }
}

impl Config {
    pub fn from_args(arguments: &Vec<String>) -> (config: Result<Self, ConfigError>)
        ensures
            config_in(texts(arguments@)) == match config {
                Ok(config) => Ok(config@),
                Err(error) => Err(error),
            },
    {
        if arguments.len() < 5 {
            return Err(ConfigError::Usage);
        }
        assert(texts(arguments@)[1] == arguments@[1]@);
        assert(texts(arguments@)[2] == arguments@[2]@);
        let id: NodeId = match parse_usize(arguments[1].as_str()) {
            Some(id) => id,
            None => {
                return Err(ConfigError::InvalidNodeId);
            },
        };
        let peers = match parse_peers(arguments) {
            Ok(peers) => peers,
            Err(error) => {
                return Err(error);
            },
        };
        if find_peer(&peers, id) == peers.len() {
            return Err(ConfigError::MissingSelf);
        }
        Ok(Config { id, peers, state_path: arguments[2].clone() })
    }

    /// The ids of the other members.
    pub fn peer_ids(&self) -> (ids: Vec<NodeId>)
        ensures
            ids@ == others_in(self@.peers, self.id),
            ids@.len() <= self.peers@.len(),
    {
        let ghost views = self@.peers;
        let mut ids: Vec<NodeId> = Vec::new();
        let mut i: usize = 0;
        assert(views.take(0) =~= Seq::empty());
        while i < self.peers.len()
            invariant
                i <= self.peers@.len(),
                views == addresses_view(self.peers@),
                ids@ == others_in(views.take(i as int), self.id),
                ids@.len() <= i,
            decreases self.peers@.len() - i,
        {
            assert(views[i as int].0 == self.peers@[i as int].0);
            assert(views.take(i + 1).drop_last() =~= views.take(i as int));
            if self.peers[i].0 != self.id {
                ids.push(self.peers[i].0);
            }
            i = i + 1;
        }
        assert(views.take(views.len() as int) =~= views);
        ids
    }

    /// The address of a member.
    pub fn address(&self, id: NodeId) -> (address: Option<&str>)
        ensures
            address_in(self@.peers, id) == match address {
                Some(address) => Some(address@),
                None => None,
            },
    {
        let place: usize = find_peer(&self.peers, id);
        if place < self.peers.len() {
            assert(self@.peers[place as int].1 == self.peers@[place as int].1@);
            Some(self.peers[place].1.as_str())
        } else {
            None
        }
    }
}

pub(crate) proof fn place_is_found(addresses: Addresses, id: NodeId)
    ensures
        0 <= place_of(addresses, id) <= addresses.len(),
        place_of(addresses, id) < addresses.len() ==> addresses[place_of(addresses, id)].0 == id,
        forall|i: int|
            0 <= i < place_of(addresses, id) ==> (#[trigger] addresses[i]).0 != id,
    decreases addresses.len(),
{
    if addresses.len() > 0 && addresses[0].0 != id {
        place_is_found(addresses.drop_first(), id);
        assert forall|i: int| 0 <= i < place_of(addresses, id) implies (
        #[trigger] addresses[i]).0 != id by {
            if i > 0 {
                assert(addresses.drop_first()[i - 1] == addresses[i]);
            }
        }
    }
}

/// A member is named once, however often it occurs in the arguments.
pub proof fn members_are_named_once(arguments: Seq<Seq<char>>)
    ensures
        peers_in(arguments) matches Ok(peers) ==> forall|i: int, j: int|
            0 <= i < j < peers.len() ==> (#[trigger] peers[i]).0 != (#[trigger] peers[j]).0,
    decreases arguments.len(),
{
    if arguments.len() > 0 {
        members_are_named_once(arguments.drop_last());
        match (peers_in(arguments.drop_last()), peer_in(arguments.last())) {
            (Ok(before), Ok((id, address))) => {
                place_is_found(before, id);
                let after = with_address(before, id, address);
                assert forall|i: int, j: int| 0 <= i < j < after.len() implies (
                #[trigger] after[i]).0 != (#[trigger] after[j]).0 by {
                    if j < before.len() {
                        assert(before[i].0 != before[j].0);
                    } else {
                        assert(before[i].0 != id);
                    }
                }
            },
            _ => {},
        }
    }
}

/// A port a thousand above another, if there is such a port.
pub open spec fn metrics_port_for(port: u16) -> Option<u16> {
    if port + 1000 <= u16::MAX {
        Some((port + 1000) as u16)
    } else {
        None
    }
}

/// The port of the metrics listener where none is given: a thousand above the
/// node's own, if there is such a port.
pub fn metrics_port(port: u16) -> (metrics: Option<u16>)
    ensures
        metrics == metrics_port_for(port),
{
    port.checked_add(1000)
}

/// The name of the directory of a node's tree.
pub open spec fn tree_name(name: Option<Seq<char>>) -> Seq<char> {
    let base = match name {
        Some(name) => name,
        None => "node.bin"@,
    };
    base + ".lsm"@
}

/// The name of the directory of a node's tree, beside its state file; a path
/// without a name stands for one to `node.bin`.
pub fn lsm_dir_name(name: Option<&str>) -> (dir: String)
    ensures
        dir@ == tree_name(
            match name {
                Some(name) => Some(name@),
                None => None,
            },
        ),
{
    let mut dir = match name {
        Some(name) => String::from_str(name),
        None => String::from_str("node.bin"),
    };
    dir.append(".lsm");
    dir
}

} // verus!
