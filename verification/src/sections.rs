//! Generated sections of a document.
use crate::text::same_text;
use vstd::prelude::*;
use vstd::string::*;

verus! {

/// White space.
pub open spec fn is_space(c: char) -> bool {
    ||| '\u{9}' <= c <= '\u{d}'
    ||| c == ' '
    ||| c == '\u{85}'
    ||| c == '\u{a0}'
    ||| c == '\u{1680}'
    ||| '\u{2000}' <= c <= '\u{200a}'
    ||| c == '\u{2028}'
    ||| c == '\u{2029}'
    ||| c == '\u{202f}'
    ||| c == '\u{205f}'
    ||| c == '\u{3000}'
}

fn is_white_space(c: char) -> (is: bool)
    ensures
        is == is_space(c),
{
    ('\u{9}' <= c && c <= '\u{d}') || c == ' ' || c == '\u{85}' || c == '\u{a0}' || c == '\u{1680}'
        || ('\u{2000}' <= c && c <= '\u{200a}') || c == '\u{2028}' || c == '\u{2029}' || c
        == '\u{202f}' || c == '\u{205f}' || c == '\u{3000}'
}

/// A text without the white space at its end.
pub open spec fn trimmed(text: Seq<char>) -> Seq<char>
    decreases text.len(),
{
    if text.len() > 0 && is_space(text.last()) {
        trimmed(text.drop_last())
    } else {
        text
    }
}

/// A text without the white space at its end.
fn trim_end(text: &str) -> (rest: &str)
    ensures
        rest@ == trimmed(text@),
{
    let mut len: usize = text.unicode_len();
    assert(text@.take(len as int) =~= text@);
    while len > 0 && is_white_space(text.get_char(len - 1))
        invariant
            len <= text@.len(),
            trimmed(text@) == trimmed(text@.take(len as int)),
        decreases len,
    {
        assert(text@.take(len as int).drop_last() =~= text@.take(len - 1));
        len = len - 1;
    }
    let rest = text.substring_char(0, len);
    assert(rest@ =~= text@.take(len as int));
    rest
}

/// Whether a pattern stands at a place in a text.
pub open spec fn stands_at(text: Seq<char>, pattern: Seq<char>, at: int) -> bool {
    0 <= at <= text.len() - pattern.len() && text.subrange(at, at + pattern.len()) == pattern
}

/// The first place of a pattern in a text, from a place on.
pub open spec fn find_from(text: Seq<char>, pattern: Seq<char>, at: int) -> Option<int>
    decreases text.len() + 1 - at,
{
    if at < 0 || at > text.len() - pattern.len() {
        None
    } else if stands_at(text, pattern, at) {
        Some(at)
    } else {
        find_from(text, pattern, at + 1)
    }
}

/// Finds the first place of a pattern in a text.
fn find(text: &str, pattern: &str) -> (place: Option<usize>)
    ensures
        find_from(text@, pattern@, 0) == match place {
            Some(place) => Some(place as int),
            None => None,
        },
        place matches Some(place) ==> place + pattern@.len() <= text@.len(),
{
    let len: usize = text.unicode_len();
    let width: usize = pattern.unicode_len();
    if width > len {
        return None;
    }
    let mut at: usize = 0;
    while at <= len - width
        invariant
            width <= len,
            at <= len - width + 1,
            len == text@.len(),
            width == pattern@.len(),
            find_from(text@, pattern@, 0) == find_from(text@, pattern@, at as int),
        decreases len - width + 1 - at,
    {
        let here = text.substring_char(at, at + width);
        if same_text(here, pattern) {
            return Some(at);
        }
        if at == len - width {
            assert(find_from(text@, pattern@, at + 1) is None);
            return None;
        }
        at = at + 1;
    }
    None
}

/// The line that opens a section.
pub open spec fn start_marker(name: Seq<char>) -> Seq<char> {
    "<!-- "@ + name + ":start -->"@
}

/// The line that closes a section.
pub open spec fn end_marker(name: Seq<char>) -> Seq<char> {
    "<!-- "@ + name + ":end -->"@
}

/// A document with a section replaced; one without the section's markers stays as
/// it is.
pub open spec fn replaced(document: Seq<char>, name: Seq<char>, content: Seq<char>) -> Seq<char> {
    match (
        find_from(document, start_marker(name), 0),
        find_from(document, end_marker(name), 0),
    ) {
        (Some(start), Some(end)) => document.take(start + start_marker(name).len()) + "\n"@
            + trimmed(content) + "\n"@ + document.skip(end),
        _ => document,
    }
}

/// Replaces a section of a document.
pub fn replace_section(document: &str, name: &str, content: &str) -> (text: String)
    ensures
        text@ == replaced(document@, name@, content@),
{
    let mut start = String::from_str("<!-- ");
    start.append(name);
    start.append(":start -->");
    let mut end = String::from_str("<!-- ");
    end.append(name);
    end.append(":end -->");
    let len: usize = document.unicode_len();
    match (find(document, start.as_str()), find(document, end.as_str())) {
        (Some(first), Some(last)) => {
            let head = document.substring_char(0, first + start.as_str().unicode_len());
            assert(head@ =~= document@.take(first + start_marker(name@).len()));
            let tail = document.substring_char(last, len);
            assert(tail@ =~= document@.skip(last as int));
            let mut text = String::from_str(head);
            text.append("\n");
            text.append(trim_end(content));
            text.append("\n");
            text.append(tail);
            text
        },
        _ => String::from_str(document),
    }
}

proof fn found_place(text: Seq<char>, pattern: Seq<char>, at: int)
    requires
        0 <= at,
    ensures
        find_from(text, pattern, at) matches Some(place) ==> at <= place && stands_at(
            text,
            pattern,
            place,
        ),
    decreases text.len() + 1 - at,
{
    if at <= text.len() - pattern.len() && !stands_at(text, pattern, at) {
        found_place(text, pattern, at + 1);
    }
}

/// What stands before and after a section is kept, where the section is closed
/// after it is opened.
pub proof fn surroundings_are_kept(
    document: Seq<char>,
    name: Seq<char>,
    content: Seq<char>,
    start: int,
    end: int,
)
    requires
        find_from(document, start_marker(name), 0) == Some(start),
        find_from(document, end_marker(name), 0) == Some(end),
        start + start_marker(name).len() <= end,
    ensures
        ({
            let after = replaced(document, name, content);
            let head = start + start_marker(name).len();
            let tail = document.len() - end;
            &&& after.len() >= head + tail
            &&& after.take(head) == document.take(head)
            &&& after.skip(after.len() - tail) == document.skip(end)
        }),
{
    found_place(document, start_marker(name), 0);
    found_place(document, end_marker(name), 0);
    let after = replaced(document, name, content);
    let head = start + start_marker(name).len();
    let tail = document.len() - end;
    assert(after.take(head) =~= document.take(head));
    assert(after.skip(after.len() - tail) =~= document.skip(end));
}

/// The document with both generated tables replaced.
pub open spec fn with_tables(
    document: Seq<char>,
    replication: Seq<char>,
    metrics: Seq<char>,
) -> Seq<char> {
    replaced(replaced(document, "replication"@, replication), "metrics"@, metrics)
}

/// The document with both generated tables replaced.
pub fn update_readme(document: &str, replication: &str, metrics: &str) -> (text: String)
    ensures
        text@ == with_tables(document@, replication@, metrics@),
{
    let once = replace_section(document, "replication", replication);
    replace_section(once.as_str(), "metrics", metrics)
}

} // verus!
