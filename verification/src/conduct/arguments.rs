//! What arguments and numbers mean, and how a client looks for the leader.
use crate::client::{ClientError, RedirectStep, RequestView};
use crate::config::{Addresses, ConfigError, ConfigView};
use crate::types::NodeId;
use vstd::prelude::*;

verus! {

/// The worth of a character as a digit.
pub open spec fn worth(c: char) -> nat {
    (c as int - '0' as int) as nat
}

/// A character is one of the ten digits.
pub open spec fn ten(c: char) -> bool {
    '0' <= c <= '9'
}

/// A digit stands for itself, and a further digit makes a number ten times as much
/// and adds what it is worth; above the limit there is no number.
pub proof fn digits_count_in_tens(digits: Seq<char>, c: char, n: nat, limit: nat)
    requires
        ten(c),
    ensures
        crate::numbers::number_in(seq![c], limit) == if worth(c) <= limit {
            Some(worth(c))
        } else {
            None
        },
        crate::numbers::number_in(digits, limit) == Some(n) ==> crate::numbers::number_in(
            digits.push(c),
            limit,
        ) == if n * 10 + worth(c) <= limit {
            Some((n * 10 + worth(c)) as nat)
        } else {
            None
        },
{
    assert(seq![c].drop_last() =~= Seq::empty());
    assert(crate::numbers::digits_value(Seq::empty()) == 0);
    assert(crate::numbers::digits_value(seq![c]) == worth(c));
    assert(crate::numbers::is_digit(c));
    assert(crate::numbers::unsigned_part(seq![c]) =~= seq![c]);
    let part = crate::numbers::unsigned_part(digits);
    let longer = crate::numbers::unsigned_part(digits.push(c));
    if crate::numbers::number_in(digits, limit) == Some(n) {
        assert(longer =~= part.push(c));
        assert(longer.drop_last() =~= part);
        assert forall|i: int| 0 <= i < longer.len() implies crate::numbers::is_digit(
            #[trigger] longer[i],
        ) by {
            if i < part.len() {
                assert(longer[i] == part[i]);
            }
        }
    }
}

/// A plus sign before digits does not change the number; a text without digits, or
/// with any other character, is no number, and a limit refuses exactly the numbers
/// above it.
pub proof fn only_digits_are_numbers(text: Seq<char>, limit: nat, more: nat, i: int)
    ensures
        text.len() == 0 ==> crate::numbers::number_in(text, limit) is None,
        crate::numbers::number_in("+"@, limit) is None,
        0 <= i < text.len() && !ten(text[i]) && (i > 0 || text[i] != '+')
            ==> crate::numbers::number_in(text, limit) is None,
        text.len() > 0 && ten(text[0]) ==> crate::numbers::number_in("+"@ + text, limit)
            == crate::numbers::number_in(text, limit),
        crate::numbers::number_in(text, limit) matches Some(n) ==> n <= limit,
        crate::numbers::number_in(text, limit) == match crate::numbers::number_in(
            text,
            limit + more,
        ) {
            Some(n) => if n <= limit {
                Some(n)
            } else {
                None
            },
            None => None,
        },
{
    reveal_strlit("+");
    if 0 <= i < text.len() && !ten(text[i]) && (i > 0 || text[i] != '+') {
        let part = crate::numbers::unsigned_part(text);
        let at: int = if text[0] == '+' { i - 1 } else { i };
        assert(part[at] == text[i]);
        assert(!crate::numbers::is_digit(part[at]));
    }
    if text.len() > 0 && ten(text[0]) {
        assert(crate::numbers::unsigned_part("+"@ + text) =~= text);
    }
}

/// A written number is read back as it was, has only digits, and begins with a zero
/// only if it is zero.
pub proof fn written_numbers_are_read_back(n: nat, limit: nat)
    requires
        n <= limit,
    ensures
        crate::numbers::number_in(crate::numbers::decimal(n), limit) == Some(n),
        crate::numbers::decimal(n)[0] == '0' ==> n == 0,
        n == 0 ==> crate::numbers::decimal(n).len() == 1,
        forall|i: int|
            0 <= i < crate::numbers::decimal(n).len() ==> ten(
                #[trigger] crate::numbers::decimal(n)[i],
            ),
    decreases n,
{
    crate::numbers::number_is_read_back(n, limit);
    crate::numbers::decimal_is_read_back(n);
    let text = crate::numbers::decimal(n);
    assert forall|i: int| 0 <= i < text.len() implies ten(#[trigger] text[i]) by {
        assert(crate::numbers::is_digit(text[i]));
    }
    if n >= 10 {
        written_numbers_are_read_back(n / 10, limit);
        assert(crate::numbers::decimal(n)[0] == crate::numbers::decimal(n / 10)[0]);
    }
}

/// The character stands first at a place.
pub open spec fn stands_first(text: Seq<char>, c: char, place: int) -> bool {
    &&& 0 <= place < text.len()
    &&& text[place] == c
    &&& forall|i: int| 0 <= i < place ==> #[trigger] text[i] != c
}

proof fn first_place(text: Seq<char>, c: char)
    ensures
        crate::config::first_of(text, c) matches Some(place) ==> stands_first(text, c, place),
        crate::config::first_of(text, c) is None ==> !text.contains(c),
    decreases text.len(),
{
    if text.len() > 0 && text[0] != c {
        let rest = text.drop_first();
        first_place(rest, c);
        match crate::config::first_of(rest, c) {
            Some(place) => {
                assert forall|i: int| 0 <= i < place + 1 implies #[trigger] text[i] != c by {
                    if i > 0 {
                        assert(rest[i - 1] == text[i]);
                    }
                }
            },
            None => {
                if text.contains(c) {
                    let i = choose|i: int| 0 <= i < text.len() && text[i] == c;
                    assert(rest[i - 1] == c);
                }
            },
        }
    }
}

/// A member is an id and an address with the first equals sign between them. An
/// argument without such a sign is of the wrong form; one whose id is no number
/// that fits is refused for its id.
pub proof fn members_are_ids_and_addresses(argument: Seq<char>, place: int)
    ensures
        !argument.contains('=') ==> crate::config::peer_in(argument) == Err::<
            (NodeId, Seq<char>),
            ConfigError,
        >(ConfigError::PeerForm),
        stands_first(argument, '=', place) ==> crate::config::peer_in(argument)
            == match crate::numbers::number_in(argument.take(place), usize::MAX as nat) {
            Some(id) => Ok((id as NodeId, argument.skip(place + 1))),
            None => Err(ConfigError::InvalidPeerId),
        },
{
    first_place(argument, '=');
    if stands_first(argument, '=', place) {
        assert(argument.contains('='));
        let found = crate::config::first_of(argument, '=')->Some_0;
        assert(argument[found] == '=');
        assert(found == place) by {
            if found < place {
                assert(argument[found] != '=');
            }
            if place < found {
                assert(argument[place] != '=');
            }
        }
    }
}

/// An argument names a member with an address.
pub open spec fn says(argument: Seq<char>, id: NodeId, address: Seq<char>) -> bool {
    crate::config::peer_in(argument) == Ok::<(NodeId, Seq<char>), ConfigError>((id, address))
}

/// An argument names a member.
pub open spec fn says_of(argument: Seq<char>, id: NodeId) -> bool {
    crate::config::peer_in(argument) matches Ok((named, _)) && named == id
}

/// The last of several arguments that names a member gives its address.
pub open spec fn last_said(arguments: Seq<Seq<char>>, i: int, id: NodeId, address: Seq<char>) -> bool {
    &&& 0 <= i < arguments.len()
    &&& says(arguments[i], id, address)
    &&& forall|j: int| i < j < arguments.len() ==> !says_of(#[trigger] arguments[j], id)
}

/// Members are exactly those that the arguments name, each with the address that
/// the last argument for it gives.
pub proof fn the_last_address_counts(
    arguments: Seq<Seq<char>>,
    peers: Addresses,
    i: int,
    id: NodeId,
    address: Seq<char>,
)
    requires
        crate::config::peers_in(arguments) == Ok::<Addresses, ConfigError>(peers),
    ensures
        last_said(arguments, i, id, address) ==> peers.contains((id, address)),
        peers.contains((id, address)) ==> exists|k: int| last_said(arguments, k, id, address),
    decreases arguments.len(),
{
    if arguments.len() > 0 {
        let less = arguments.drop_last();
        let before = crate::config::peers_in(less)->Ok_0;
        let (named, given) = crate::config::peer_in(arguments.last())->Ok_0;
        crate::config::members_are_named_once(less);
        crate::config::place_is_found(before, named);
        let place = crate::config::place_of(before, named);
        the_last_address_counts(less, before, i, id, address);
        if last_said(arguments, i, id, address) {
            if i < less.len() {
                assert(less[i] == arguments[i]);
                assert(!says_of(arguments[less.len() as int], id));
                assert(last_said(less, i, id, address)) by {
                    assert forall|j: int| i < j < less.len() implies !says_of(
                        #[trigger] less[j],
                        id,
                    ) by {
                        assert(!says_of(arguments[j], id));
                    }
                }
                let at = choose|at: int| 0 <= at < before.len() && before[at] == (id, address);
                assert(peers[at] == (id, address));
            } else if place < before.len() {
                assert(peers[place] == (id, address));
            } else {
                assert(peers[before.len() as int] == (id, address));
            }
        }
        if peers.contains((id, address)) {
            let at = choose|at: int| 0 <= at < peers.len() && peers[at] == (id, address);
            if id == named {
                if at < before.len() && at != place {
                    assert(before[at].0 == named);
                    if place < before.len() {
                        assert(before[at].0 != before[place].0);
                    }
                }
                assert(given == address);
                assert(last_said(arguments, less.len() as int, id, address));
            } else {
                assert(before[at] == (id, address));
                assert(before.contains((id, address)));
                let k = choose|k: int| last_said(less, k, id, address);
                assert(less[k] == arguments[k]);
                assert(last_said(arguments, k, id, address)) by {
                    assert forall|j: int| k < j < arguments.len() implies !says_of(
                        #[trigger] arguments[j],
                        id,
                    ) by {
                        if j < less.len() {
                            assert(!says_of(less[j], id));
                        }
                    }
                }
            }
        }
    }
}

/// Arguments are refused exactly if one of them is, and then for what is wrong with
/// the first such one.
pub proof fn the_first_fault_counts(arguments: Seq<Seq<char>>, i: int)
    requires
        0 <= i < arguments.len(),
    ensures
        crate::config::peer_in(arguments[i]) is Err ==> crate::config::peers_in(arguments) is Err,
        crate::config::peer_in(arguments[i]) is Err && (forall|j: int|
            0 <= j < i ==> crate::config::peer_in(#[trigger] arguments[j]) is Ok)
            ==> crate::config::peers_in(arguments)->Err_0 == crate::config::peer_in(
            arguments[i],
        )->Err_0,
        (forall|j: int|
            0 <= j < arguments.len() ==> crate::config::peer_in(#[trigger] arguments[j]) is Ok)
            ==> crate::config::peers_in(arguments) is Ok,
    decreases arguments.len(),
{
    let less = arguments.drop_last();
    assert forall|j: int| 0 <= j < less.len() implies #[trigger] less[j] == arguments[j] by {}
    if less.len() == 0 {
        assert(crate::config::peers_in(less) is Ok);
    } else {
        the_first_fault_counts(less, if i < less.len() { i } else { 0 });
        if (forall|j: int|
            0 <= j < i ==> crate::config::peer_in(#[trigger] arguments[j]) is Ok) && i == less.len() {
            assert forall|j: int| 0 <= j < less.len() implies crate::config::peer_in(
                #[trigger] less[j],
            ) is Ok by {
                assert(crate::config::peer_in(arguments[j]) is Ok);
            }
        }
        if forall|j: int|
            0 <= j < arguments.len() ==> crate::config::peer_in(#[trigger] arguments[j]) is Ok {
            assert forall|j: int| 0 <= j < less.len() implies crate::config::peer_in(
                #[trigger] less[j],
            ) is Ok by {
                assert(crate::config::peer_in(arguments[j]) is Ok);
            }
            assert(crate::config::peer_in(arguments[less.len() as int]) is Ok);
        }
    }
}

/// A node is told its id by the first argument after the program's name, its state
/// file by the second, and the members by the others, of which there are at least
/// two; it must itself be one of them.
pub proof fn nodes_are_told_by_their_arguments(arguments: Seq<Seq<char>>)
    ensures
        ({
            let told = crate::config::config_in(arguments);
            let id = crate::numbers::number_in(arguments[1], usize::MAX as nat);
            let peers = crate::config::peers_in(arguments.skip(3));
            &&& arguments.len() < 5 <==> told == Err::<ConfigView, ConfigError>(ConfigError::Usage)
            &&& arguments.len() >= 5 ==> {
                &&& id is None ==> told == Err::<ConfigView, ConfigError>(
                    ConfigError::InvalidNodeId,
                )
                &&& id is Some && peers is Err ==> told == Err::<ConfigView, ConfigError>(
                    peers->Err_0,
                )
                &&& id is Some && peers is Ok ==> {
                    &&& (forall|i: int|
                        0 <= i < peers->Ok_0.len() ==> (#[trigger] peers->Ok_0[i]).0 != id->Some_0)
                        ==> told == Err::<ConfigView, ConfigError>(ConfigError::MissingSelf)
                    &&& (exists|i: int|
                        0 <= i < peers->Ok_0.len() && (#[trigger] peers->Ok_0[i]).0 == id->Some_0)
                        ==> {
                        &&& told is Ok
                        &&& told->Ok_0.id == id->Some_0
                        &&& told->Ok_0.state_path == arguments[2]
                        &&& told->Ok_0.peers == peers->Ok_0
                    }
                }
            }
        }),
{
    let id = crate::numbers::number_in(arguments[1], usize::MAX as nat);
    let peers = crate::config::peers_in(arguments.skip(3));
    peers_are_not_refused_for_their_number(arguments.skip(3));
    if id is Some && peers is Ok {
        let id = id->Some_0 as NodeId;
        crate::config::place_is_found(peers->Ok_0, id);
    }
}

proof fn peers_are_not_refused_for_their_number(arguments: Seq<Seq<char>>)
    ensures
        crate::config::peers_in(arguments) matches Err(error) ==> error != ConfigError::Usage,
    decreases arguments.len(),
{
    if arguments.len() > 0 {
        peers_are_not_refused_for_their_number(arguments.drop_last());
    }
}

/// The peers of a node are the other members, each once, in their order.
pub proof fn peers_are_the_other_members(addresses: Addresses, id: NodeId, other: NodeId)
    requires
        forall|i: int, j: int|
            0 <= i < j < addresses.len() ==> (#[trigger] addresses[i]).0 != (
            #[trigger] addresses[j]).0,
    ensures
        ({
            let others = crate::config::others_in(addresses, id);
            &&& others.contains(other) <==> other != id && exists|i: int|
                0 <= i < addresses.len() && (#[trigger] addresses[i]).0 == other
            &&& forall|i: int, j: int| 0 <= i < j < others.len() ==> others[i] != others[j]
        }),
    decreases addresses.len(),
{
    if addresses.len() > 0 {
        let less = addresses.drop_last();
        let before = crate::config::others_in(less, id);
        let others = crate::config::others_in(addresses, id);
        peers_are_the_other_members(less, id, other);
        peers_are_the_other_members(less, id, addresses.last().0);
        assert(!before.contains(addresses.last().0)) by {
            if before.contains(addresses.last().0) {
                let i = choose|i: int|
                    0 <= i < less.len() && (#[trigger] less[i]).0 == addresses.last().0;
                assert(addresses[i].0 != addresses[less.len() as int].0);
            }
        }
        if others.contains(other) {
            let at = choose|at: int| 0 <= at < others.len() && others[at] == other;
            if at < before.len() {
                assert(before[at] == other);
                let i = choose|i: int| 0 <= i < less.len() && (#[trigger] less[i]).0 == other;
                assert(addresses[i].0 == other);
            } else {
                assert(addresses[less.len() as int].0 == other);
            }
        }
        if other != id && exists|i: int|
            0 <= i < addresses.len() && (#[trigger] addresses[i]).0 == other {
            let i = choose|i: int| 0 <= i < addresses.len() && (#[trigger] addresses[i]).0 == other;
            if i < less.len() {
                assert(less[i].0 == other);
                let at = choose|at: int| 0 <= at < before.len() && before[at] == other;
                assert(others[at] == other);
            } else {
                assert(others.last() == other);
            }
        }
    }
}

/// The address of a member is the one beside its id; who is no member has none.
pub proof fn members_have_their_addresses(addresses: Addresses, i: int, id: NodeId)
    requires
        forall|i: int, j: int|
            0 <= i < j < addresses.len() ==> (#[trigger] addresses[i]).0 != (
            #[trigger] addresses[j]).0,
    ensures
        0 <= i < addresses.len() && addresses[i].0 == id ==> crate::config::address_in(
            addresses,
            id,
        ) == Some(addresses[i].1),
        (forall|j: int| 0 <= j < addresses.len() ==> (#[trigger] addresses[j]).0 != id)
            ==> crate::config::address_in(addresses, id) is None,
{
    crate::config::place_is_found(addresses, id);
    let place = crate::config::place_of(addresses, id);
    if 0 <= i < addresses.len() && addresses[i].0 == id {
        if i < place {
            assert(addresses[i].0 != id);
        }
        if place < i {
            assert(addresses[place].0 != addresses[i].0);
        }
    }
}

/// Metrics are served a thousand ports above, if there is such a port.
pub proof fn metrics_are_served_a_thousand_ports_above(port: u16)
    ensures
        port <= 64535 ==> (crate::config::metrics_port_for(port) matches Some(metrics) && metrics
            == port + 1000),
        port > 64535 ==> crate::config::metrics_port_for(port) is None,
{
}

/// The first of a client's arguments that is a command.
pub open spec fn command_at(arguments: Seq<Seq<char>>, place: int) -> bool {
    &&& 0 <= place < arguments.len()
    &&& arguments[place] == "set"@ || arguments[place] == "get"@
    &&& forall|i: int|
        0 <= i < place ==> #[trigger] arguments[i] != "set"@ && arguments[i] != "get"@
}

proof fn command_is_found(arguments: Seq<Seq<char>>)
    ensures
        ({
            let place = crate::client::command_place(arguments);
            &&& 0 <= place <= arguments.len()
            &&& place < arguments.len() ==> command_at(arguments, place)
            &&& place == arguments.len() ==> forall|i: int|
                0 <= i < arguments.len() ==> #[trigger] arguments[i] != "set"@ && arguments[i]
                    != "get"@
        }),
    decreases arguments.len(),
{
    if arguments.len() > 0 && !crate::client::is_command(arguments[0]) {
        let rest = arguments.drop_first();
        command_is_found(rest);
        let place = crate::client::command_place(arguments);
        assert forall|i: int| 0 <= i < place implies #[trigger] arguments[i] != "set"@
            && arguments[i] != "get"@ by {
            if i > 0 {
                assert(rest[i - 1] == arguments[i]);
            }
        }
    }
}

/// A client's arguments are the peers to ask, a command, and what it takes: a key
/// and a value to set, a key to get. Fewer than three are not enough; without a
/// command there is nothing to do; a command with more or less than it takes is
/// refused.
pub proof fn clients_ask_for_what_they_are_told(arguments: Seq<Seq<char>>, place: int)
    ensures
        ({
            let call = crate::client::call_in(arguments);
            let refused = |error: ClientError|
                call == Err::<(Seq<Seq<char>>, RequestView), ClientError>(error);
            &&& arguments.len() < 3 <==> refused(ClientError::NotEnoughArgs)
            &&& arguments.len() >= 3 && (forall|i: int|
                0 <= i < arguments.len() ==> #[trigger] arguments[i] != "set"@ && arguments[i]
                    != "get"@) ==> refused(ClientError::NoCommand)
            &&& arguments.len() >= 3 && command_at(arguments, place) ==> {
                let left = arguments.len() - place - 1;
                let peers = arguments.take(place);
                &&& arguments[place] == "set"@ && left == 2 ==> call == Ok::<
                    (Seq<Seq<char>>, RequestView),
                    ClientError,
                >((peers, RequestView::Put(arguments[place + 1], arguments[place + 2])))
                &&& arguments[place] == "get"@ && left == 1 ==> call == Ok::<
                    (Seq<Seq<char>>, RequestView),
                    ClientError,
                >((peers, RequestView::Get(arguments[place + 1])))
                &&& arguments[place] == "set"@ && left != 2 ==> refused(ClientError::Usage)
                &&& arguments[place] == "get"@ && left != 1 ==> refused(ClientError::Usage)
            }
        }),
{
    reveal_strlit("set");
    reveal_strlit("get");
    assert("set"@[0] != "get"@[0]);
    command_is_found(arguments);
    let found = crate::client::command_place(arguments);
    if command_at(arguments, place) {
        if found < place {
            assert(arguments[found] != "set"@);
        }
        if place < found {
            assert(arguments[place] != "set"@);
        }
        assert(found == place);
    }
}

/// A client asks the first peer first, and after the last one the first again, until
/// it has asked each of them ten times; with nobody to ask it gives up at once.
pub proof fn peers_are_asked_in_turn(peers: nat, n: nat)
    requires
        peers <= usize::MAX,
    ensures
        peers > 0 ==> crate::client::asked(peers, 0) == RedirectStep::Ask(0),
        n >= 10 * peers <==> crate::client::asked(peers, n) == RedirectStep::GiveUp,
        n < 10 * peers ==> (crate::client::asked(peers, n) matches RedirectStep::Ask(place)
            && place < peers),
        n + 1 < 10 * peers ==> (crate::client::asked(peers, n) matches RedirectStep::Ask(place)
            && crate::client::asked(peers, n + 1) == RedirectStep::Ask(
            if place + 1 == peers {
                0
            } else {
                (place + 1) as usize
            },
        )),
{
    if peers > 0 {
        let p = peers as int;
        let m = n as int;
        vstd::arithmetic::div_mod::lemma_fundamental_div_mod(m, p);
        vstd::arithmetic::div_mod::lemma_mod_bound(m, p);
        vstd::arithmetic::div_mod::lemma_small_mod(0, peers);
        let q = m / p;
        let r = m % p;
        if r + 1 == p {
            assert((q + 1) * p == p * q + p) by (nonlinear_arith);
            vstd::arithmetic::div_mod::lemma_fundamental_div_mod_converse(m + 1, p, q + 1, 0);
        } else {
            assert(q * p == p * q) by (nonlinear_arith);
            vstd::arithmetic::div_mod::lemma_fundamental_div_mod_converse(m + 1, p, q, r + 1);
        }
    }
}

/// A reply that reports success ends the search; any other, or none, leads to the
/// next peer. A client waits twenty milliseconds after a peer that did not answer,
/// and not at all after one that did.
pub proof fn the_search_ends_with_success(peers: nat, n: nat)
    ensures
        crate::client::search_goes_on(peers, n, true).1 == RedirectStep::Done,
        crate::client::search_goes_on(peers, n, true).0 == n,
        crate::client::search_goes_on(peers, n, false).0 == n + 1,
        crate::client::search_goes_on(peers, n, false).1 == crate::client::asked(peers, n + 1),
        crate::client::search_goes_on(peers, n, false).1 != RedirectStep::Done,
        crate::client::pause_after(true) == 0,
        crate::client::pause_after(false) == 20,
{
}

/// A reply reports success exactly if it came and says so.
pub proof fn only_replies_report_success(reply: crate::types::ClientReply)
    ensures
        crate::client::reports_success(Some(&reply)) == reply.success,
        !crate::client::reports_success(None),
{
}

/// A number with zeros before it is at least as long as its width, longer only where its
/// digits are, and is read back as it was.
pub proof fn padded_numbers_are_as_wide_as_told(n: nat, width: nat, limit: nat)
    requires
        n <= limit,
    ensures
        ({
            let text = crate::numbers::padded(n, width);
            let digits = crate::numbers::decimal(n);
            &&& digits.len() <= width ==> text.len() == width
            &&& digits.len() > width ==> text == digits
            &&& crate::numbers::number_in(text, limit) == Some(n)
            &&& text.skip(text.len() - digits.len()) == digits
        }),
{
    let text = crate::numbers::padded(n, width);
    let digits = crate::numbers::decimal(n);
    crate::numbers::decimal_is_read_back(n);
    crate::numbers::leading_zeros_do_not_count(digits, (width - digits.len()) as int);
    assert(text.skip(text.len() - digits.len()) =~= digits);
    if digits.len() > width {
        assert(text =~= digits);
    }
    assert(crate::numbers::is_digit(text[0]));
}

/// Whoever gives wrong arguments is told what was wrong with them.
pub proof fn faults_are_told_in_words(client: ClientError, node: ConfigError)
    ensures
        client.text() == match client {
            ClientError::NotEnoughArgs => "not enough args"@,
            ClientError::NoCommand => "command must be 'set' or 'get'"@,
            ClientError::Usage => "usage: raft-client <peer>... set <key> <value> | raft-client <peer>... get <key>"@,
            ClientError::NoLeader => "no leader found after 10 attempts"@,
        },
        node.text() == match node {
            ConfigError::Usage => "usage: raft-node <id> <state-file> <id=addr>..."@,
            ConfigError::InvalidNodeId => "invalid node id"@,
            ConfigError::PeerForm => "peer must be id=addr"@,
            ConfigError::InvalidPeerId => "invalid peer id"@,
            ConfigError::MissingSelf => "missing self address"@,
        },
{
}

} // verus!
