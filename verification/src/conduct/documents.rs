//! Texts that are written for others: sections, answers, names, and what is sent to
//! whom.
use crate::types::{MessageView, NodeId};
use vstd::prelude::*;

verus! {

/// A pattern stands in a text at a place and at none before.
pub open spec fn first_at(text: Seq<char>, pattern: Seq<char>, place: int) -> bool {
    &&& 0 <= place
    &&& place + pattern.len() <= text.len()
    &&& text.subrange(place, place + pattern.len()) == pattern
    &&& forall|i: int|
        0 <= i < place ==> #[trigger] text.subrange(i, i + pattern.len()) != pattern
}

/// A pattern stands nowhere in a text.
pub open spec fn nowhere(text: Seq<char>, pattern: Seq<char>) -> bool {
    forall|i: int|
        0 <= i <= text.len() - pattern.len() ==> #[trigger] text.subrange(i, i + pattern.len())
            != pattern
}

proof fn search_goes_up(text: Seq<char>, pattern: Seq<char>, at: int)
    requires
        0 <= at,
        forall|i: int|
            0 <= i < at && i <= text.len() - pattern.len() ==> #[trigger] text.subrange(
                i,
                i + pattern.len(),
            ) != pattern,
    ensures
        crate::sections::find_from(text, pattern, at) matches Some(place) ==> first_at(
            text,
            pattern,
            place,
        ),
        crate::sections::find_from(text, pattern, at) is None ==> nowhere(text, pattern),
    decreases text.len() + 1 - at,
{
    if at <= text.len() - pattern.len() && text.subrange(at, at + pattern.len()) != pattern {
        search_goes_up(text, pattern, at + 1);
    }
}

proof fn first_is_found(text: Seq<char>, pattern: Seq<char>, place: int)
    requires
        first_at(text, pattern, place),
    ensures
        crate::sections::find_from(text, pattern, 0) == Some(place),
{
    search_goes_up(text, pattern, 0);
    match crate::sections::find_from(text, pattern, 0) {
        Some(found) => {
            if found < place {
                assert(text.subrange(found, found + pattern.len()) != pattern);
            }
            if place < found {
                assert(text.subrange(place, place + pattern.len()) != pattern);
            }
        },
        None => {
            assert(text.subrange(place, place + pattern.len()) != pattern);
        },
    }
}

/// A section reaches from the first marker that opens it to the first that closes it.
/// What is between them is replaced by the content, without white space at its end,
/// on lines of its own; all that is outside, and the markers, stay. Without one of the
/// markers the document stays as it is.
pub proof fn one_section_is_replaced(
    document: Seq<char>,
    name: Seq<char>,
    content: Seq<char>,
    start: int,
    end: int,
)
    ensures
        ({
            let opening = "<!-- "@ + name + ":start -->"@;
            let closing = "<!-- "@ + name + ":end -->"@;
            let after = crate::sections::replaced(document, name, content);
            &&& first_at(document, opening, start) && first_at(document, closing, end) ==> after
                == document.take(start + opening.len()) + "\n"@ + crate::sections::trimmed(content)
                + "\n"@ + document.skip(end)
            &&& nowhere(document, opening) || nowhere(document, closing) ==> after == document
        }),
{
    let opening = "<!-- "@ + name + ":start -->"@;
    let closing = "<!-- "@ + name + ":end -->"@;
    if first_at(document, opening, start) && first_at(document, closing, end) {
        first_is_found(document, opening, start);
        first_is_found(document, closing, end);
    }
    if nowhere(document, opening) {
        search_goes_up(document, opening, 0);
        if let Some(place) = crate::sections::find_from(document, opening, 0) {
            assert(document.subrange(place, place + opening.len()) != opening);
        }
    }
    if nowhere(document, closing) {
        search_goes_up(document, closing, 0);
        if let Some(place) = crate::sections::find_from(document, closing, 0) {
            assert(document.subrange(place, place + closing.len()) != closing);
        }
    }
}

/// Both tables of the document are replaced, each in its own section.
pub proof fn both_tables_are_replaced(
    document: Seq<char>,
    replication: Seq<char>,
    metrics: Seq<char>,
)
    ensures
        crate::sections::with_tables(document, replication, metrics) == crate::sections::replaced(
            crate::sections::replaced(document, "replication"@, replication),
            "metrics"@,
            metrics,
        ),
{
}

/// Trimming takes white space from the end of a text, all of it, and nothing else.
pub proof fn only_white_space_is_trimmed(text: Seq<char>, i: int)
    ensures
        ({
            let rest = crate::sections::trimmed(text);
            &&& rest.len() <= text.len()
            &&& rest == text.take(rest.len() as int)
            &&& rest.len() <= i < text.len() ==> crate::sections::is_space(text[i])
            &&& rest.len() > 0 ==> !crate::sections::is_space(rest.last())
        }),
    decreases text.len(),
{
    if text.len() > 0 && crate::sections::is_space(text.last()) {
        let less = text.drop_last();
        only_white_space_is_trimmed(less, i);
        let rest = crate::sections::trimmed(text);
        assert(rest =~= text.take(rest.len() as int));
        if rest.len() <= i < less.len() {
            assert(less[i] == text[i]);
        }
    } else {
        assert(text =~= text.take(text.len() as int));
    }
}

/// Of the plain characters, blanks, tabs and ends of lines and pages are white space.
pub proof fn blanks_are_white_space(c: char)
    requires
        c < '\u{80}',
    ensures
        crate::sections::is_space(c) <==> c == ' ' || c == '\t' || c == '\n' || c == '\u{b}' || c
            == '\u{c}' || c == '\r',
{
}

/// A request for the metrics begins with `GET /metrics ` and may go on with anything.
pub proof fn metrics_are_asked_for_by_path(request: Seq<u8>, rest: Seq<u8>)
    ensures
        crate::server::asks_for_metrics(vstd::utf8::encode_utf8("GET /metrics "@) + rest),
        crate::server::asks_for_metrics(request) ==> exists|more: Seq<u8>|
            request == #[trigger] (vstd::utf8::encode_utf8("GET /metrics "@) + more),
{
    let wanted = vstd::utf8::encode_utf8("GET /metrics "@);
    assert((wanted + rest).take(wanted.len() as int) =~= wanted);
    if crate::server::asks_for_metrics(request) {
        assert(request =~= wanted + request.skip(wanted.len() as int));
    }
}

/// Metrics are answered with their text, whole and last, and its length in bytes; any
/// other request is told that there is nothing.
pub proof fn metrics_are_answered_whole(body: Seq<char>)
    ensures
        crate::server::metrics_answer(Some(body))
            == "HTTP/1.1 200 OK\r\nContent-Type: text/plain; version=0.0.4; charset=utf-8\r\nContent-Length: "@
            + crate::numbers::decimal(vstd::utf8::encode_utf8(body).len())
            + "\r\nConnection: close\r\n\r\n"@ + body,
        crate::server::metrics_answer(None)
            == "HTTP/1.1 404 Not Found\r\nContent-Type: text/plain; charset=utf-8\r\nContent-Length: "@
            + crate::numbers::decimal(vstd::utf8::encode_utf8("not found\n"@).len())
            + "\r\nConnection: close\r\n\r\nnot found\n"@,
{
    reveal_strlit("HTTP/1.1 ");
    reveal_strlit("200 OK");
    reveal_strlit("404 Not Found");
    reveal_strlit("\r\nContent-Type: ");
    reveal_strlit("text/plain; version=0.0.4; charset=utf-8");
    reveal_strlit("text/plain; charset=utf-8");
    reveal_strlit("\r\nContent-Length: ");
    reveal_strlit("\r\nConnection: close\r\n\r\n");
    reveal_strlit("not found\n");
    reveal_strlit("\r\nConnection: close\r\n\r\nnot found\n");
    reveal_strlit("HTTP/1.1 200 OK\r\nContent-Type: text/plain; version=0.0.4; charset=utf-8\r\nContent-Length: ");
    reveal_strlit("HTTP/1.1 404 Not Found\r\nContent-Type: text/plain; charset=utf-8\r\nContent-Length: ");
    let size = crate::numbers::decimal(vstd::utf8::encode_utf8(body).len());
    let none = crate::numbers::decimal(vstd::utf8::encode_utf8("not found\n"@).len());
    assert("HTTP/1.1 "@ + "200 OK"@ + "\r\nContent-Type: "@
        + "text/plain; version=0.0.4; charset=utf-8"@ + "\r\nContent-Length: "@
        =~= "HTTP/1.1 200 OK\r\nContent-Type: text/plain; version=0.0.4; charset=utf-8\r\nContent-Length: "@);
    assert("HTTP/1.1 "@ + "404 Not Found"@ + "\r\nContent-Type: "@ + "text/plain; charset=utf-8"@
        + "\r\nContent-Length: "@
        =~= "HTTP/1.1 404 Not Found\r\nContent-Type: text/plain; charset=utf-8\r\nContent-Length: "@);
    assert(crate::server::metrics_answer(None)
        =~= "HTTP/1.1 404 Not Found\r\nContent-Type: text/plain; charset=utf-8\r\nContent-Length: "@
        + none + "\r\nConnection: close\r\n\r\nnot found\n"@);
}

/// A state file is written under another name first, and a tree stands in a directory
/// beside it; without a name they are those of `state.bin` and `node.bin`.
pub proof fn files_are_named_after_the_state(name: Seq<char>)
    ensures
        crate::storage::draft_name(Some(name)) == "."@ + name + ".tmp"@,
        crate::storage::draft_name(Some(name)) != name,
        crate::storage::draft_name(None) == crate::storage::draft_name(Some("state.bin"@)),
        crate::config::tree_name(Some(name)) == name + ".lsm"@,
        crate::config::tree_name(Some(name)) != name,
        crate::config::tree_name(None) == crate::config::tree_name(Some("node.bin"@)),
{
    reveal_strlit(".");
    reveal_strlit(".tmp");
    reveal_strlit(".lsm");
    assert(crate::storage::draft_name(Some(name)).len() == name.len() + 5);
    assert(crate::config::tree_name(Some(name)).len() == name.len() + 4);
}

/// The messages for a peer, in their order.
pub open spec fn addressed(messages: Seq<MessageView>, peer: NodeId) -> Seq<MessageView>
    decreases messages.len(),
{
    if messages.len() == 0 {
        Seq::empty()
    } else if messages.last().to == peer {
        addressed(messages.drop_last(), peer).push(messages.last())
    } else {
        addressed(messages.drop_last(), peer)
    }
}

proof fn filtering_addresses(messages: Seq<MessageView>, peer: NodeId)
    ensures
        crate::server::for_peer(messages, peer) == addressed(messages, peer),
    decreases messages.len(),
{
    reveal(Seq::filter);
    if messages.len() > 0 {
        filtering_addresses(messages.drop_last(), peer);
    }
}

/// Every peer that is written to gets one group with all of its messages in their
/// order, and no others.
pub proof fn peers_get_all_their_messages(
    groups: Seq<(NodeId, Seq<MessageView>)>,
    messages: Seq<MessageView>,
    peer: NodeId,
    i: int,
    j: int,
)
    requires
        crate::server::groups_of(groups, messages),
    ensures
        0 <= i < groups.len() && groups[i].0 == peer ==> groups[i].1 == addressed(messages, peer)
            && groups[i].1.len() > 0,
        0 <= i < j < groups.len() ==> groups[i].0 != groups[j].0,
        0 <= i < messages.len() && messages[i].to == peer ==> exists|k: int|
            0 <= k < groups.len() && (#[trigger] groups[k]).0 == peer,
{
    filtering_addresses(messages, peer);
    if 0 <= i < messages.len() && messages[i].to == peer {
        let k = choose|k: int|
            0 <= k < groups.len() && (#[trigger] groups[k]).0 == messages[i].to;
        assert(groups[k].0 == peer);
    }
}

/// Texts are ordered by their bytes: at the first place where they differ, the lower
/// byte comes first, and a text comes before every longer one that begins with it.
pub proof fn texts_are_ordered_by_their_bytes(
    start: Seq<u8>,
    x: u8,
    y: u8,
    s: Seq<u8>,
    t: Seq<u8>,
    a: Seq<char>,
    b: Seq<char>,
)
    ensures
        x != y ==> (crate::text::bytes_before(start + seq![x] + s, start + seq![y] + t) <==> x < y),
        crate::text::bytes_before(start, start + seq![y] + t),
        !crate::text::bytes_before(start + seq![y] + t, start),
        !crate::text::bytes_before(start, start),
        crate::text::text_before(a, b) <==> crate::text::bytes_before(
            vstd::utf8::encode_utf8(a),
            vstd::utf8::encode_utf8(b),
        ),
{
    let one = start + seq![x] + s;
    let two = start + seq![y] + t;
    let n = start.len() as int;
    assert(one[n] == x && two[n] == y);
    assert forall|i: int| 0 <= i < n implies #[trigger] one[i] == start[i] && two[i]
        == start[i] by {}
    if x < y {
        assert(crate::text::bytes_split_at(one, two, n));
    }
    if x > y && crate::text::bytes_before(one, two) {
        let k = choose|k: int| crate::text::bytes_split_at(one, two, k);
        if k < n {
            assert(one[k] == two[k]);
        } else if k > n {
            assert(one[n] == two[n]);
        }
    }
    assert(crate::text::bytes_split_at(start, two, n));
    if crate::text::bytes_before(two, start) {
        let k = choose|k: int| crate::text::bytes_split_at(two, start, k);
        assert(two[k] == start[k]);
    }
}

} // verus!
