//! The names of table files.
use crate::numbers::{parse_number, push_padded};
use crate::text::same_text;
use vstd::prelude::*;
use vstd::string::*;

verus! {

/// The name of the file of a table.
pub open spec fn table_name(id: u64) -> Seq<char> {
    "sst-"@ + crate::numbers::padded(id as nat, 20) + ".sst"@
}

/// The name under which a table is written before it is renamed.
pub open spec fn draft_name(id: u64) -> Seq<char> {
    ".sst-"@ + crate::numbers::padded(id as nat, 20) + ".tmp"@
}

/// The id in the name of a table file; other files have none.
pub open spec fn id_in(name: Seq<char>) -> Option<nat> {
    if name.len() >= 8 && name.take(4) == "sst-"@ && name.skip(name.len() - 4) == ".sst"@ {
        crate::numbers::number_in(name.subrange(4, name.len() - 4), u64::MAX as nat)
    } else {
        None
    }
}

/// The id of a table is read back from its file's name.
pub proof fn id_is_read_back(id: u64)
    ensures
        id_in(table_name(id)) == Some(id as nat),
{
    reveal_strlit("sst-");
    reveal_strlit(".sst");
    let name = table_name(id);
    let digits = crate::numbers::padded(id as nat, 20);
    let plain = crate::numbers::decimal(id as nat);
    crate::numbers::decimal_is_read_back(id as nat);
    let count = (20 - plain.len()) as int;
    crate::numbers::leading_zeros_do_not_count(plain, count);
    assert(name.take(4) =~= "sst-"@);
    assert(name.skip(name.len() - 4) =~= ".sst"@);
    assert(name.subrange(4, name.len() - 4) =~= digits);
    assert(digits.len() > 0);
    assert(crate::numbers::is_digit(digits[0]));
}

/// A table that is still being written is not taken for a table.
pub proof fn drafts_are_no_tables(id: u64)
    ensures
        id_in(draft_name(id)) is None,
{
    reveal_strlit(".sst-");
    reveal_strlit("sst-");
    assert(draft_name(id)[0] == '.');
    if draft_name(id).len() >= 8 {
        assert(draft_name(id).take(4)[0] == '.');
    }
}

/// Different tables have different file names.
pub proof fn names_differ(a: u64, b: u64)
    requires
        a != b,
    ensures
        table_name(a) != table_name(b),
{
    id_is_read_back(a);
    id_is_read_back(b);
}

/// The name of the file of a table.
pub fn table_file_name(id: u64) -> (name: String)
    ensures
        name@ == table_name(id),
{
    let mut name = String::new();
    name.append("sst-");
    push_padded(&mut name, id, 20);
    name.append(".sst");
    assert(name@ =~= table_name(id));
    name
}

/// The name under which a table is written before it is renamed.
pub fn draft_file_name(id: u64) -> (name: String)
    ensures
        name@ == draft_name(id),
{
    let mut name = String::new();
    name.append(".sst-");
    push_padded(&mut name, id, 20);
    name.append(".tmp");
    assert(name@ =~= draft_name(id));
    name
}

/// The id in the name of a table file.
pub fn table_id_of(name: &str) -> (id: Option<u64>)
    ensures
        id_in(name@) == match id {
            Some(id) => Some(id as nat),
            None => None,
        },
{
    let len: usize = name.unicode_len();
    if len < 8 {
        return None;
    }
    let head = name.substring_char(0, 4);
    let tail = name.substring_char(len - 4, len);
    assert(head@ =~= name@.take(4));
    assert(tail@ =~= name@.skip(len - 4));
    if !same_text(head, "sst-") || !same_text(tail, ".sst") {
        return None;
    }
    parse_number(name.substring_char(4, len - 4), u64::MAX)
}

} // verus!
