//! What pictures and tables show.
use crate::charts::SampleView;
use crate::cluster_state::ClusterState;
use crate::node_state::NodeState;
use crate::state_machine::KvState;
use crate::types::{Command, LogEntry, NodeId, Role};
use vstd::prelude::*;

verus! {

/// A text holds another.
pub open spec fn holds(text: Seq<char>, part: Seq<char>) -> bool {
    exists|at: int|
        0 <= at <= text.len() - part.len() && #[trigger] text.subrange(at, at + part.len()) == part
}

proof fn left_is_held(a: Seq<char>, b: Seq<char>, part: Seq<char>)
    requires
        holds(a, part),
    ensures
        holds(a + b, part),
{
    let at = choose|at: int|
        0 <= at <= a.len() - part.len() && #[trigger] a.subrange(at, at + part.len()) == part;
    assert((a + b).subrange(at, at + part.len()) =~= part);
}

proof fn right_is_held(a: Seq<char>, b: Seq<char>, part: Seq<char>)
    requires
        holds(b, part),
    ensures
        holds(a + b, part),
{
    let at = choose|at: int|
        0 <= at <= b.len() - part.len() && #[trigger] b.subrange(at, at + part.len()) == part;
    let there = a.len() + at;
    assert((a + b).subrange(there, there + part.len()) =~= part);
}

proof fn all_is_held(text: Seq<char>)
    ensures
        holds(text, text),
{
    let at: int = 0;
    assert(text.subrange(at, at + text.len()) =~= text);
}

/// In the middle of three texts is the second.
proof fn middle_is_held(a: Seq<char>, part: Seq<char>, b: Seq<char>)
    ensures
        holds(a + part + b, part),
{
    all_is_held(part);
    right_is_held(a, part, part);
    left_is_held(a + part, b, part);
}

/// A sample shows the role of every node, in the order of their ids.
pub proof fn samples_show_every_role(
    state: ClusterState,
    time_ms: u64,
    note: Option<Seq<char>>,
    i: int,
)
    requires
        state.nodes.len() <= usize::MAX,
    ensures
        ({
            let sample = crate::charts::sampled(state, time_ms, note);
            &&& sample.time_ms == time_ms
            &&& sample.note == note
            &&& sample.roles.len() == state.nodes.len()
            &&& 0 <= i < state.nodes.len() ==> sample.roles[i].0 == i && sample.roles[i].1
                == state.nodes[i].role
        }),
{
}

/// In a picture the three characters of markup stand as entities, and all others for
/// themselves; what is written one behind the other is escaped so.
pub proof fn markup_stands_as_entities(a: Seq<char>, b: Seq<char>, c: char)
    ensures
        crate::picture::escaped(Seq::empty()) == Seq::<char>::empty(),
        crate::picture::escaped(a + b) == crate::picture::escaped(a) + crate::picture::escaped(b),
        crate::picture::escaped(seq!['&']) == "&amp;"@,
        crate::picture::escaped(seq!['<']) == "&lt;"@,
        crate::picture::escaped(seq!['>']) == "&gt;"@,
        c != '&' && c != '<' && c != '>' ==> crate::picture::escaped(seq![c]) == seq![c],
    decreases b.len(),
{
    reveal_with_fuel(crate::picture::escaped, 2);
    assert(seq!['&'].drop_last() =~= Seq::empty());
    assert(seq!['<'].drop_last() =~= Seq::empty());
    assert(seq!['>'].drop_last() =~= Seq::empty());
    assert(seq![c].drop_last() =~= Seq::empty());
    assert(Seq::<char>::empty() + "&amp;"@ =~= "&amp;"@);
    assert(Seq::<char>::empty() + "&lt;"@ =~= "&lt;"@);
    assert(Seq::<char>::empty() + "&gt;"@ =~= "&gt;"@);
    assert(Seq::<char>::empty() + seq![c] =~= seq![c]);
    if b.len() == 0 {
        assert(a + b =~= a);
        assert(crate::picture::escaped(a) + Seq::<char>::empty() =~= crate::picture::escaped(a));
    } else {
        markup_stands_as_entities(a, b.drop_last(), c);
        assert((a + b).drop_last() =~= a + b.drop_last());
        assert((a + b).last() == b.last());
        assert(crate::picture::escaped(a + b) =~= crate::picture::escaped(a)
            + crate::picture::escaped(b));
    }
}

/// A number below zero has a minus sign before its digits.
pub proof fn negative_numbers_have_a_sign(n: int)
    ensures
        n >= 0 ==> crate::numbers::signed(n) == crate::numbers::decimal(n as nat),
        n < 0 ==> crate::numbers::signed(n) == "-"@ + crate::numbers::decimal((-n) as nat),
{
}

/// The letter and the color of a role.
pub open spec fn letter(role: Role) -> Seq<char> {
    match role {
        Role::Follower => "F"@,
        Role::Candidate => "C"@,
        Role::Leader => "L"@,
    }
}

/// The letter and the color of a role.
pub open spec fn color(role: Role) -> Seq<char> {
    match role {
        Role::Follower => "#374151"@,
        Role::Candidate => "#d97706"@,
        Role::Leader => "#16a34a"@,
    }
}

proof fn cells_show_roles(roles: Seq<(NodeId, Role)>, x: int, row: int)
    requires
        0 <= row < roles.len(),
    ensures
        holds(
            crate::charts::cells(roles, x),
            crate::picture::box_text(x, 72 + row * 48, 44, 28, 6, color(roles[row].1), false),
        ),
        holds(
            crate::charts::cells(roles, x),
            crate::picture::label_text(
                x + 17,
                72 + row * 48 + 19,
                "#fff7ed"@,
                13,
                true,
                letter(roles[row].1),
            ),
        ),
    decreases roles.len(),
{
    let y = 72 + (roles.len() - 1) * 48;
    let before = crate::charts::cells(roles.drop_last(), x);
    let shape = crate::picture::box_text(x, y, 44, 28, 6, color(roles.last().1), false);
    let name = crate::picture::label_text(x + 17, y + 19, "#fff7ed"@, 13, true, letter(roles.last().1));
    assert(crate::charts::cells(roles, x) =~= before + shape + name);
    if row == roles.len() - 1 {
        middle_is_held(before, shape, name);
        all_is_held(name);
        right_is_held(before + shape, name, name);
    } else {
        let held = crate::picture::box_text(x, 72 + row * 48, 44, 28, 6, color(roles[row].1), false);
        let told = crate::picture::label_text(
            x + 17,
            72 + row * 48 + 19,
            "#fff7ed"@,
            13,
            true,
            letter(roles[row].1),
        );
        cells_show_roles(roles.drop_last(), x, row);
        left_is_held(before, shape, held);
        left_is_held(before + shape, name, held);
        left_is_held(before, shape, told);
        left_is_held(before + shape, name, told);
    }
}

proof fn columns_are_held(samples: Seq<SampleView>, height: int, k: int, part: Seq<char>)
    requires
        0 <= k < samples.len(),
        holds(crate::charts::column(samples[k], 88 + k * 56, height), part),
    ensures
        holds(crate::charts::columns(samples, height), part),
    decreases samples.len(),
{
    let last = crate::charts::column(samples.last(), 88 + (samples.len() - 1) * 56, height);
    let before = crate::charts::columns(samples.drop_last(), height);
    if k == samples.len() - 1 {
        right_is_held(before, last, part);
    } else {
        columns_are_held(samples.drop_last(), height, k, part);
        left_is_held(before, last, part);
    }
}

/// A timeline shows the role of every node in every sample, by its letter and its
/// color, in a column for the sample and a row for the node; over the column stands
/// the time, under it the note.
pub proof fn timelines_show_every_role(
    title: Seq<char>,
    samples: Seq<SampleView>,
    k: int,
    row: int,
)
    requires
        0 <= k < samples.len(),
        0 <= row < samples[k].roles.len(),
    ensures
        ({
            let picture = crate::charts::timeline(title, samples);
            let x = 88 + k * 56;
            let y = 72 + row * 48;
            let role = samples[k].roles[row].1;
            let height = 72 + samples[0].roles.len() as int * 48 + 48;
            &&& holds(picture, crate::picture::box_text(x, y, 44, 28, 6, color(role), false))
            &&& holds(
                picture,
                crate::picture::label_text(x + 17, y + 19, "#fff7ed"@, 13, true, letter(role)),
            )
            &&& holds(
                picture,
                crate::picture::label_text(
                    x,
                    66,
                    "#6b7280"@,
                    10,
                    false,
                    crate::numbers::decimal(samples[k].time_ms as nat) + "ms"@,
                ),
            )
            &&& samples[k].note matches Some(note) ==> holds(
                picture,
                crate::picture::label_text(
                    x,
                    height - 18,
                    "#f87171"@,
                    11,
                    false,
                    crate::picture::escaped(note),
                ),
            )
        }),
{
    let picture = crate::charts::timeline(title, samples);
    let x = 88 + k * 56;
    let y = 72 + row * 48;
    let role = samples[k].roles[row].1;
    let height = 72 + samples[0].roles.len() as int * 48 + 48;
    let shape = crate::picture::box_text(x, y, 44, 28, 6, color(role), false);
    let name = crate::picture::label_text(x + 17, y + 19, "#fff7ed"@, 13, true, letter(role));
    let time = crate::picture::label_text(
        x,
        66,
        "#6b7280"@,
        10,
        false,
        crate::numbers::decimal(samples[k].time_ms as nat) + "ms"@,
    );
    let cells = crate::charts::cells(samples[k].roles, x);
    let column = crate::charts::column(samples[k], x, height);
    cells_show_roles(samples[k].roles, x, row);
    all_is_held(time);
    match samples[k].note {
        Some(note) => {
            let told = crate::picture::label_text(
                x,
                height - 18,
                "#f87171"@,
                11,
                false,
                crate::picture::escaped(note),
            );
            right_is_held(time + told, cells, shape);
            right_is_held(time + told, cells, name);
            left_is_held(time, told, time);
            left_is_held(time + told, cells, time);
            all_is_held(told);
            right_is_held(time, told, told);
            left_is_held(time + told, cells, told);
            timeline_holds_columns(title, samples, k, told);
        },
        None => {
            right_is_held(time, cells, shape);
            right_is_held(time, cells, name);
            left_is_held(time, cells, time);
        },
    }
    timeline_holds_columns(title, samples, k, shape);
    timeline_holds_columns(title, samples, k, name);
    timeline_holds_columns(title, samples, k, time);
}

proof fn timeline_holds_columns(
    title: Seq<char>,
    samples: Seq<SampleView>,
    k: int,
    part: Seq<char>,
)
    requires
        0 <= k < samples.len(),
        holds(
            crate::charts::column(
                samples[k],
                88 + k * 56,
                72 + samples[0].roles.len() as int * 48 + 48,
            ),
            part,
        ),
    ensures
        holds(crate::charts::timeline(title, samples), part),
{
    let count = samples[0].roles.len();
    let height = 72 + count as int * 48 + 48;
    let columns = crate::charts::columns(samples, height);
    columns_are_held(samples, height, k, part);
    let head = crate::picture::canvas_text(920, height)
        + "<rect width=\"100%\" height=\"100%\" fill=\"#101114\"/>\n"@ + crate::picture::label_text(
        24,
        34,
        "#f4f1ea"@,
        20,
        true,
        "raft-kv · "@ + title,
    ) + crate::picture::label_text(
        24,
        56,
        "#9ca3af"@,
        12,
        false,
        "green leader · yellow candidate · gray follower"@,
    ) + crate::charts::row_names(count);
    right_is_held(head, columns, part);
    left_is_held(head + columns, "</svg>\n"@, part);
}

/// The word for a role.
pub open spec fn word(role: Role) -> Seq<char> {
    match role {
        Role::Follower => "Follower"@,
        Role::Candidate => "Candidate"@,
        Role::Leader => "Leader"@,
    }
}

/// A command in words.
pub open spec fn words(command: Command) -> Seq<char> {
    match command {
        Command::Noop => "noop"@,
        Command::Put { key, value } => "set "@ + key@ + "="@ + value@,
        Command::Delete { key } => "delete "@ + key@,
    }
}

/// The value under a key, or a sign for none.
pub open spec fn value_of(node: NodeState<KvState>, key: Seq<char>) -> Seq<char> {
    if node.data.data.contains_key(key) {
        node.data.data[key]
    } else {
        "∅"@
    }
}

/// Commands are called by what they do, one after the other with commas between.
pub proof fn logs_are_told_in_words(log: Seq<LogEntry>, entry: LogEntry)
    ensures
        crate::charts::command_name(entry.command) == words(entry.command),
        crate::charts::log_words(Seq::empty()) == Seq::<char>::empty(),
        crate::charts::log_words(seq![entry]) == words(entry.command),
        log.len() > 0 ==> crate::charts::log_words(log.push(entry)) == crate::charts::log_words(log)
            + ", "@ + words(entry.command),
{
    if log.len() > 0 {
        assert(log.push(entry).drop_last() =~= log);
    }
}

proof fn rows_are_held(nodes: Seq<NodeState<KvState>>, i: int)
    requires
        0 <= i < nodes.len(),
    ensures
        holds(
            crate::charts::replication_rows(nodes),
            crate::charts::replication_row(nodes[i], i as nat),
        ),
    decreases nodes.len(),
{
    let before = crate::charts::replication_rows(nodes.drop_last());
    let last = crate::charts::replication_row(nodes.last(), (nodes.len() - 1) as nat);
    let part = crate::charts::replication_row(nodes[i], i as nat);
    if i == nodes.len() - 1 {
        all_is_held(last);
        right_is_held(before, last, part);
    } else {
        rows_are_held(nodes.drop_last(), i);
        left_is_held(before, last, part);
    }
}

/// The table of a cluster has a row for every node, with its role, its term, how far
/// it has committed and applied, its log, and what it holds.
pub proof fn tables_tell_of_every_node(state: ClusterState, i: int)
    requires
        0 <= i < state.nodes.len(),
    ensures
        ({
            let node = state.nodes[i];
            holds(
                crate::charts::replication_report(state),
                "| "@ + crate::numbers::decimal(i as nat) + " | "@ + word(node.role) + " | "@
                    + crate::numbers::decimal(node.current_term as nat) + " | "@
                    + crate::numbers::decimal(node.commit_index as nat) + " | "@
                    + crate::numbers::decimal(node.last_applied as nat) + " | ["@
                    + crate::charts::log_words(node.log) + "] | foo="@ + value_of(node, "foo"@)
                    + " |\n"@,
            )
        }),
{
    rows_are_held(state.nodes, i);
    right_is_held(
        "| node | role | term | commit | applied | log | kv |\n|---:|---|---:|---:|---:|---|---|\n"@,
        crate::charts::replication_rows(state.nodes),
        crate::charts::replication_row(state.nodes[i], i as nat),
    );
}

proof fn dashboard_rows_are_held(nodes: Seq<NodeState<KvState>>, i: int, part: Seq<char>)
    requires
        0 <= i < nodes.len(),
        holds(crate::charts::dashboard_row(nodes[i], i as nat, 112 + i * 54), part),
    ensures
        holds(crate::charts::dashboard_rows(nodes), part),
    decreases nodes.len(),
{
    let before = crate::charts::dashboard_rows(nodes.drop_last());
    let last = crate::charts::dashboard_row(
        nodes.last(),
        (nodes.len() - 1) as nat,
        112 + (nodes.len() - 1) * 54,
    );
    if i == nodes.len() - 1 {
        right_is_held(before, last, part);
    } else {
        dashboard_rows_are_held(nodes.drop_last(), i, part);
        left_is_held(before, last, part);
    }
}

/// The name of a role on a badge.
pub open spec fn title(role: Role) -> Seq<char> {
    match role {
        Role::Follower => "FOLLOWER"@,
        Role::Candidate => "CANDIDATE"@,
        Role::Leader => "LEADER"@,
    }
}

/// A dashboard shows of every node its name, its role, how far it has committed, and
/// what it holds, in a row of its own; and above all rows the leader, its term and how
/// far it has committed.
pub proof fn dashboards_show_every_node(state: ClusterState, leader: NodeId, i: int)
    requires
        0 <= i < state.nodes.len(),
        leader < state.nodes.len(),
    ensures
        ({
            let picture = crate::charts::dashboard(state, leader);
            let node = state.nodes[i];
            let chief = state.nodes[leader as int];
            let y = 112 + i * 54;
            let line = |x: int, body: Seq<char>|
                crate::picture::label_text(x, y + 25, "#e6e1d9"@, 13, false, body);
            &&& holds(
                picture,
                crate::picture::label_text(
                    58,
                    y + 25,
                    "#e6e1d9"@,
                    14,
                    false,
                    "node-"@ + crate::numbers::decimal(i as nat),
                ),
            )
            &&& holds(
                picture,
                crate::picture::label_text(166, y + 24, "#0f1115"@, 12, true, title(node.role)),
            )
            &&& holds(
                picture,
                crate::picture::label_text(
                    520,
                    y + 25,
                    "#8b949e"@,
                    13,
                    false,
                    "commit "@ + crate::numbers::decimal(node.commit_index as nat),
                ),
            )
            &&& holds(picture, line(650, "foo="@ + value_of(node, "foo"@)))
            &&& holds(picture, line(770, "baz="@ + value_of(node, "baz"@)))
            &&& holds(
                picture,
                crate::picture::label_text(
                    36,
                    74,
                    "#8b949e"@,
                    14,
                    false,
                    "term "@ + crate::numbers::decimal(chief.current_term as nat),
                ),
            )
            &&& holds(
                picture,
                crate::picture::label_text(
                    160,
                    74,
                    "#3fb950"@,
                    14,
                    false,
                    "leader node-"@ + crate::numbers::decimal(leader as nat),
                ),
            )
            &&& holds(
                picture,
                crate::picture::label_text(
                    360,
                    74,
                    "#8b949e"@,
                    14,
                    false,
                    "commit index "@ + crate::numbers::decimal(chief.commit_index as nat),
                ),
            )
        }),
{
    let node = state.nodes[i];
    let chief = state.nodes[leader as int];
    let y = 112 + i * 54;
    let (fill, name) = crate::charts::badge(node.role);
    let p0 = crate::picture::box_text(36, y, 888, 40, 10, "#171a21"@, true);
    let p1 = crate::picture::label_text(
        58,
        y + 25,
        "#e6e1d9"@,
        14,
        false,
        "node-"@ + crate::numbers::decimal(i as nat),
    );
    let p2 = crate::picture::box_text(150, y + 8, 92, 24, 12, fill, false);
    let p3 = crate::picture::label_text(166, y + 24, "#0f1115"@, 12, true, title(node.role));
    let p4 = crate::picture::label_text(278, y + 25, "#8b949e"@, 13, false, "log"@);
    let p5 = crate::picture::label_text(318, y + 25, "#3fb950"@, 16, false, "██████████"@);
    let p6 = crate::picture::label_text(
        520,
        y + 25,
        "#8b949e"@,
        13,
        false,
        "commit "@ + crate::numbers::decimal(node.commit_index as nat),
    );
    let p7 = crate::picture::label_text(
        650,
        y + 25,
        "#e6e1d9"@,
        13,
        false,
        "foo="@ + value_of(node, "foo"@),
    );
    let p8 = crate::picture::label_text(
        770,
        y + 25,
        "#e6e1d9"@,
        13,
        false,
        "baz="@ + value_of(node, "baz"@),
    );
    let row = crate::charts::dashboard_row(node, i as nat, y);
    assert(row == p0 + p1 + p2 + p3 + p4 + p5 + p6 + p7 + p8);
    every_part_is_held(p0, p1, p2, p3, p4, p5, p6, p7, p8);
    let h0 = crate::picture::shell_text(960, 430, "raft-kv · live cluster snapshot"@);
    let h1 = crate::picture::label_text(
        36,
        74,
        "#8b949e"@,
        14,
        false,
        "term "@ + crate::numbers::decimal(chief.current_term as nat),
    );
    let h2 = crate::picture::label_text(
        160,
        74,
        "#3fb950"@,
        14,
        false,
        "leader node-"@ + crate::numbers::decimal(leader as nat),
    );
    let h3 = crate::picture::label_text(
        360,
        74,
        "#8b949e"@,
        14,
        false,
        "commit index "@ + crate::numbers::decimal(chief.commit_index as nat),
    );
    let rows = crate::charts::dashboard_rows(state.nodes);
    let end = "</svg>\n"@;
    dashboard_holds_rows(state, leader, i, p1);
    dashboard_holds_rows(state, leader, i, p3);
    dashboard_holds_rows(state, leader, i, p6);
    dashboard_holds_rows(state, leader, i, p7);
    dashboard_holds_rows(state, leader, i, p8);
    let picture = crate::charts::dashboard(state, leader);
    assert(picture == h0 + h1 + h2 + h3 + rows + end);
    let none = Seq::<char>::empty();
    every_part_is_held(h0, h1, h2, h3, rows, end, none, none, none);
    assert(picture =~= h0 + h1 + h2 + h3 + rows + end + none + none + none);
}

proof fn every_part_is_held(
    p0: Seq<char>,
    p1: Seq<char>,
    p2: Seq<char>,
    p3: Seq<char>,
    p4: Seq<char>,
    p5: Seq<char>,
    p6: Seq<char>,
    p7: Seq<char>,
    p8: Seq<char>,
)
    ensures
        ({
            let all = p0 + p1 + p2 + p3 + p4 + p5 + p6 + p7 + p8;
            &&& holds(all, p1)
            &&& holds(all, p2)
            &&& holds(all, p3)
            &&& holds(all, p6)
            &&& holds(all, p7)
            &&& holds(all, p8)
        }),
{
    let a2 = p0 + p1 + p2;
    let a3 = a2 + p3;
    let a4 = a3 + p4;
    let a5 = a4 + p5;
    let a6 = a5 + p6;
    let a7 = a6 + p7;
    middle_is_held(p0, p1, p2);
    left_is_held(a2, p3, p1);
    left_is_held(a3, p4, p1);
    left_is_held(a4, p5, p1);
    left_is_held(a5, p6, p1);
    left_is_held(a6, p7, p1);
    left_is_held(a7, p8, p1);
    middle_is_held(p0 + p1, p2, p3);
    left_is_held(a3, p4, p2);
    left_is_held(a4, p5, p2);
    left_is_held(a5, p6, p2);
    left_is_held(a6, p7, p2);
    left_is_held(a7, p8, p2);
    middle_is_held(a2, p3, p4);
    left_is_held(a4, p5, p3);
    left_is_held(a5, p6, p3);
    left_is_held(a6, p7, p3);
    left_is_held(a7, p8, p3);
    middle_is_held(a5, p6, p7);
    left_is_held(a7, p8, p6);
    middle_is_held(a6, p7, p8);
    all_is_held(p8);
    right_is_held(a7, p8, p8);
}

proof fn dashboard_holds_rows(state: ClusterState, leader: NodeId, i: int, part: Seq<char>)
    requires
        0 <= i < state.nodes.len(),
        holds(crate::charts::dashboard_row(state.nodes[i], i as nat, 112 + i * 54), part),
    ensures
        holds(crate::charts::dashboard(state, leader), part),
{
    let chief = state.nodes[leader as int];
    let rows = crate::charts::dashboard_rows(state.nodes);
    dashboard_rows_are_held(state.nodes, i, part);
    let head = crate::picture::shell_text(960, 430, "raft-kv · live cluster snapshot"@)
        + crate::picture::label_text(
        36,
        74,
        "#8b949e"@,
        14,
        false,
        "term "@ + crate::numbers::decimal(chief.current_term as nat),
    ) + crate::picture::label_text(
        160,
        74,
        "#3fb950"@,
        14,
        false,
        "leader node-"@ + crate::numbers::decimal(leader as nat),
    ) + crate::picture::label_text(
        360,
        74,
        "#8b949e"@,
        14,
        false,
        "commit index "@ + crate::numbers::decimal(chief.commit_index as nat),
    );
    right_is_held(head, rows, part);
    left_is_held(head + rows, "</svg>\n"@, part);
}

proof fn entries_are_held(log: Seq<LogEntry>, y: int, k: int)
    requires
        0 <= k < log.len(),
    ensures
        holds(
            crate::charts::ledger_entries(log, y),
            crate::picture::label_text(
                260 + k * 150,
                y + 21,
                "#e6e1d9"@,
                12,
                false,
                crate::picture::escaped(words(log[k].command)),
            ),
        ),
    decreases log.len(),
{
    let x = 248 + (log.len() - 1) * 150;
    let before = crate::charts::ledger_entries(log.drop_last(), y);
    let shape = crate::picture::box_text(x, y, 132, 32, 8, "#21262d"@, true);
    let last = crate::picture::label_text(
        x + 12,
        y + 21,
        "#e6e1d9"@,
        12,
        false,
        crate::picture::escaped(words(log.last().command)),
    );
    if k == log.len() - 1 {
        all_is_held(last);
        right_is_held(before + shape, last, last);
    } else {
        let part = crate::picture::label_text(
            260 + k * 150,
            y + 21,
            "#e6e1d9"@,
            12,
            false,
            crate::picture::escaped(words(log[k].command)),
        );
        entries_are_held(log.drop_last(), y, k);
        left_is_held(before, shape, part);
        left_is_held(before + shape, last, part);
    }
}

proof fn ledger_rows_are_held(nodes: Seq<NodeState<KvState>>, i: int, part: Seq<char>)
    requires
        0 <= i < nodes.len(),
        holds(crate::charts::ledger_row(nodes[i], i as nat, 88 + i * 58), part),
    ensures
        holds(crate::charts::ledger_rows(nodes), part),
    decreases nodes.len(),
{
    let before = crate::charts::ledger_rows(nodes.drop_last());
    let last = crate::charts::ledger_row(
        nodes.last(),
        (nodes.len() - 1) as nat,
        88 + (nodes.len() - 1) * 58,
    );
    if i == nodes.len() - 1 {
        right_is_held(before, last, part);
    } else {
        ledger_rows_are_held(nodes.drop_last(), i, part);
        left_is_held(before, last, part);
    }
}

/// A ledger shows every entry of every node's log, in a row for the node and a column
/// for the entry, beside the node's name and role.
pub proof fn ledgers_show_every_entry(state: ClusterState, i: int, k: int)
    requires
        0 <= i < state.nodes.len(),
        0 <= k < state.nodes[i].log.len(),
    ensures
        ({
            let picture = crate::charts::ledger(state);
            let node = state.nodes[i];
            let y = 88 + i * 58;
            &&& holds(
                picture,
                crate::picture::label_text(
                    260 + k * 150,
                    y + 21,
                    "#e6e1d9"@,
                    12,
                    false,
                    crate::picture::escaped(words(node.log[k].command)),
                ),
            )
            &&& holds(
                picture,
                crate::picture::label_text(
                    38,
                    y + 22,
                    "#e6e1d9"@,
                    14,
                    false,
                    "node-"@ + crate::numbers::decimal(i as nat),
                ),
            )
            &&& holds(
                picture,
                crate::picture::label_text(136, y + 20, "#0f1115"@, 12, true, title(node.role)),
            )
        }),
{
    let node = state.nodes[i];
    let y = 88 + i * 58;
    let (fill, name) = crate::charts::badge(node.role);
    let p0 = crate::picture::label_text(
        38,
        y + 22,
        "#e6e1d9"@,
        14,
        false,
        "node-"@ + crate::numbers::decimal(i as nat),
    );
    let p1 = crate::picture::box_text(120, y + 4, 92, 24, 12, fill, false);
    let p2 = crate::picture::label_text(136, y + 20, "#0f1115"@, 12, true, title(node.role));
    let p3 = crate::charts::ledger_entries(node.log, y);
    let p4 = crate::picture::label_text(820, y + 22, "#3fb950"@, 14, false, "commit ✓"@);
    let entry = crate::picture::label_text(
        260 + k * 150,
        y + 21,
        "#e6e1d9"@,
        12,
        false,
        crate::picture::escaped(words(node.log[k].command)),
    );
    let row = crate::charts::ledger_row(node, i as nat, y);
    assert(row == p0 + p1 + p2 + p3 + p4);
    entries_are_held(node.log, y, k);
    right_is_held(p0 + p1 + p2, p3, entry);
    left_is_held(p0 + p1 + p2 + p3, p4, entry);
    all_is_held(p0);
    left_is_held(p0, p1, p0);
    left_is_held(p0 + p1, p2, p0);
    left_is_held(p0 + p1 + p2, p3, p0);
    left_is_held(p0 + p1 + p2 + p3, p4, p0);
    middle_is_held(p0 + p1, p2, p3);
    left_is_held(p0 + p1 + p2 + p3, p4, p2);
    let head = crate::picture::shell_text(960, 410, "replicated log ledger"@);
    let rows = crate::charts::ledger_rows(state.nodes);
    ledger_rows_are_held(state.nodes, i, entry);
    ledger_rows_are_held(state.nodes, i, p0);
    ledger_rows_are_held(state.nodes, i, p2);
    right_is_held(head, rows, entry);
    right_is_held(head, rows, p0);
    right_is_held(head, rows, p2);
    left_is_held(head + rows, "</svg>\n"@, entry);
    left_is_held(head + rows, "</svg>\n"@, p0);
    left_is_held(head + rows, "</svg>\n"@, p2);
}

/// The measured times stand in the table, each in its row.
pub proof fn times_stand_in_their_rows(election_ms: u64, failover_ms: u64, replication_ms: u64)
    ensures
        ({
            let table = crate::charts::times_report(election_ms, failover_ms, replication_ms);
            let time = |ms: u64| crate::numbers::decimal(ms as nat);
            &&& holds(table, "| first leader elected | "@ + time(election_ms) + " ms"@)
            &&& holds(table, "| failover after leader kill | "@ + time(failover_ms) + " ms"@)
            &&& holds(table, "| write visible on all nodes | "@ + time(replication_ms) + " ms"@)
        }),
{
    let t1 = "| metric | value |\n|---|---:|\n| cluster size tested | 5 nodes |\n| election timeout | 150–300 ms |\n| heartbeat interval | 50 ms |\n| first leader elected | "@;
    let t2 = " ms simulated |\n| failover after leader kill | "@;
    let t3 = " ms simulated |\n| write visible on all nodes | "@;
    let t4 = " ms simulated |\n| fault tolerance | 2 failed nodes in a 5-node cluster |\n| process-level TCP tests | 3 integration tests |\n"@;
    let a = crate::numbers::decimal(election_ms as nat);
    let b = crate::numbers::decimal(failover_ms as nat);
    let c = crate::numbers::decimal(replication_ms as nat);
    let table = crate::charts::times_report(election_ms, failover_ms, replication_ms);
    reveal_strlit("| metric | value |\n|---|---:|\n| cluster size tested | 5 nodes |\n| election timeout | 150–300 ms |\n| heartbeat interval | 50 ms |\n| first leader elected | ");
    reveal_strlit(" ms simulated |\n| failover after leader kill | ");
    reveal_strlit(" ms simulated |\n| write visible on all nodes | ");
    reveal_strlit(" ms simulated |\n| fault tolerance | 2 failed nodes in a 5-node cluster |\n| process-level TCP tests | 3 integration tests |\n");
    reveal_strlit("| first leader elected | ");
    reveal_strlit("| failover after leader kill | ");
    reveal_strlit("| write visible on all nodes | ");
    reveal_strlit(" ms");
    let n1 = "| first leader elected | "@;
    let n2 = "| failover after leader kill | "@;
    let n3 = "| write visible on all nodes | "@;
    let s1 = t1.take(t1.len() - n1.len());
    let s2 = t2.take(t2.len() - n2.len());
    let s3 = t3.take(t3.len() - n3.len());
    let m = " ms"@;
    assert(t1 =~= s1 + n1);
    assert(t2 =~= s2 + n2);
    assert(t3 =~= s3 + n3);
    assert(t2 =~= m + t2.skip(3));
    assert(t3 =~= m + t3.skip(3));
    assert(t4 =~= m + t4.skip(3));
    assert(table == t1 + a + t2 + b + t3 + c + t4);
    let r1 = n1 + a + m;
    let r2 = n2 + b + m;
    let r3 = n3 + c + m;
    assert(table =~= s1 + r1 + (t2.skip(3) + b + t3 + c + t4));
    middle_is_held(s1, r1, t2.skip(3) + b + t3 + c + t4);
    assert(table =~= (t1 + a + s2) + r2 + (t3.skip(3) + c + t4));
    middle_is_held(t1 + a + s2, r2, t3.skip(3) + c + t4);
    assert(table =~= (t1 + a + t2 + b + s3) + r3 + t4.skip(3));
    middle_is_held(t1 + a + t2 + b + s3, r3, t4.skip(3));
}

/// A line of text in a picture tells where it stands, and holds the text.
pub proof fn lines_hold_their_text(
    x: int,
    y: int,
    fill: Seq<char>,
    size: int,
    bold: bool,
    body: Seq<char>,
)
    ensures
        ({
            let line = crate::picture::label_text(x, y, fill, size, bold, body);
            &&& holds(
                line,
                "<text x=\""@ + crate::numbers::signed(x) + "\" y=\""@ + crate::numbers::signed(y)
                    + "\" fill=\""@ + fill,
            )
            &&& holds(line, body + "</text>\n"@)
        }),
{
    let place = "<text x=\""@ + crate::numbers::signed(x) + "\" y=\""@ + crate::numbers::signed(y)
        + "\" fill=\""@ + fill;
    let font =
        "\" font-family=\"ui-monospace, SFMono-Regular, Menlo, monospace\" font-size=\""@;
    let open = place + font + crate::numbers::signed(size);
    let weight = if bold {
        "\" font-weight=\"700\">"@
    } else {
        "\">"@
    };
    all_is_held(place);
    left_is_held(place, font, place);
    left_is_held(place + font, crate::numbers::signed(size), place);
    left_is_held(open, weight, place);
    left_is_held(open + weight, body, place);
    left_is_held(open + weight + body, "</text>\n"@, place);
    let end = body + "</text>\n"@;
    all_is_held(end);
    right_is_held(open + weight, end, end);
    assert(open + weight + body + "</text>\n"@ =~= open + weight + end);
}

} // verus!
