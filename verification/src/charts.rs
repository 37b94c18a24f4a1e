//! Pictures and tables of a cluster's state.
use crate::cluster::Cluster;
use crate::cluster_state::ClusterState;
use crate::node::Node;
use crate::node_state::NodeState;
use crate::numbers::push_decimal;
use crate::picture::{canvas, escape, finish_svg, label, rounded_box, svg_shell};
use crate::state_machine::KvState;
use crate::types::{Command, LogEntry, NodeId, Role};
use vstd::prelude::*;
use vstd::string::*;

verus! {

/// The roles of all nodes at one time.
#[derive(Debug)]
pub struct Sample {
    pub time_ms: u64,
    pub roles: Vec<(NodeId, Role)>,
    pub note: Option<String>,
}

/// The content of a [`Sample`].
#[verifier::ext_equal]
pub struct SampleView {
    pub time_ms: u64,
    pub roles: Seq<(NodeId, Role)>,
    pub note: Option<Seq<char>>,
}

impl View for Sample {
    type V = SampleView;

    open spec fn view(&self) -> SampleView {
        SampleView {
            time_ms: self.time_ms,
            roles: self.roles@,
            note: crate::node::text_of(self.note),
        }
    }
}

impl DeepView for Sample {
    type V = SampleView;

    open spec fn deep_view(&self) -> SampleView {
        self@
    }
}

/// The roles of a cluster's nodes.
pub open spec fn roles_in(state: ClusterState) -> Seq<(NodeId, Role)> {
    Seq::new(state.nodes.len(), |i: int| (i as NodeId, state.nodes[i].role))
}

/// A sample of a cluster.
pub open spec fn sampled(state: ClusterState, time_ms: u64, note: Option<Seq<char>>) -> SampleView {
    SampleView { time_ms, roles: roles_in(state), note }
}

/// Takes a sample of a cluster.
pub fn sample(cluster: &Cluster, time_ms: u64, note: Option<String>) -> (sample: Sample)
    requires
        cluster.wf(),
    ensures
        sample@ == sampled(cluster@, time_ms, crate::node::text_of(note)),
{
    let nodes = cluster.nodes();
    let mut roles: Vec<(NodeId, Role)> = Vec::new();
    let mut i: usize = 0;
    while i < nodes.len()
        invariant
            i <= nodes@.len(),
            nodes@.len() == cluster@.nodes.len(),
            forall|j: int|
                0 <= j < nodes@.len() ==> (#[trigger] nodes@[j]).0 == j && nodes@[j].1.kv()
                    == cluster@.nodes[j],
            roles@.len() == i,
            forall|j: int|
                0 <= j < i ==> #[trigger] roles@[j] == (j as NodeId, cluster@.nodes[j].role),
        decreases nodes@.len() - i,
    {
        assert(nodes@[i as int].1.kv() == cluster@.nodes[i as int]);
        roles.push((nodes[i].0, nodes[i].1.role()));
        i = i + 1;
    }
    assert(roles@ =~= roles_in(cluster@));
    Sample { time_ms, roles, note }
}

/// The color and the letter of a role in a timeline.
pub open spec fn cell_style(role: Role) -> (Seq<char>, Seq<char>) {
    match role {
        Role::Follower => ("#374151"@, "F"@),
        Role::Candidate => ("#d97706"@, "C"@),
        Role::Leader => ("#16a34a"@, "L"@),
    }
}

/// The cells of a column of a timeline.
pub open spec fn cells(roles: Seq<(NodeId, Role)>, x: int) -> Seq<char>
    decreases roles.len(),
{
    if roles.len() == 0 {
        Seq::empty()
    } else {
        let y = 72 + (roles.len() - 1) * 48;
        let (fill, letter) = cell_style(roles.last().1);
        cells(roles.drop_last(), x) + crate::picture::box_text(x, y, 44, 28, 6, fill, false)
            + crate::picture::label_text(x + 17, y + 19, "#fff7ed"@, 13, true, letter)
    }
}

/// A column of a timeline.
pub open spec fn column(sample: SampleView, x: int, height: int) -> Seq<char> {
    let time = crate::picture::label_text(
        x,
        66,
        "#6b7280"@,
        10,
        false,
        crate::numbers::decimal(sample.time_ms as nat) + "ms"@,
    );
    let noted = match sample.note {
        Some(note) => time + crate::picture::label_text(
            x,
            height - 18,
            "#f87171"@,
            11,
            false,
            crate::picture::escaped(note),
        ),
        None => time,
    };
    noted + cells(sample.roles, x)
}

/// The columns of a timeline.
pub open spec fn columns(samples: Seq<SampleView>, height: int) -> Seq<char>
    decreases samples.len(),
{
    if samples.len() == 0 {
        Seq::empty()
    } else {
        columns(samples.drop_last(), height) + column(
            samples.last(),
            88 + (samples.len() - 1) * 56,
            height,
        )
    }
}

/// The names of the rows of a timeline.
pub open spec fn row_names(count: nat) -> Seq<char>
    decreases count,
{
    if count == 0 {
        Seq::empty()
    } else {
        row_names((count - 1) as nat) + crate::picture::label_text(
            24,
            72 + (count - 1) * 48 + 22,
            "#d1d5db"@,
            13,
            false,
            "node "@ + crate::numbers::decimal((count - 1) as nat),
        )
    }
}

/// The number of rows of a timeline.
pub open spec fn row_count(samples: Seq<SampleView>) -> nat {
    if samples.len() == 0 {
        0
    } else {
        samples[0].roles.len()
    }
}

/// A timeline of the nodes' roles.
pub open spec fn timeline(title: Seq<char>, samples: Seq<SampleView>) -> Seq<char> {
    let height = 72 + row_count(samples) as int * 48 + 48;
    crate::picture::finished(
        crate::picture::canvas_text(920, height)
            + "<rect width=\"100%\" height=\"100%\" fill=\"#101114\"/>\n"@
            + crate::picture::label_text(24, 34, "#f4f1ea"@, 20, true, "raft-kv · "@ + title)
            + crate::picture::label_text(
            24,
            56,
            "#9ca3af"@,
            12,
            false,
            "green leader · yellow candidate · gray follower"@,
        ) + row_names(row_count(samples)) + columns(samples, height),
    )
}

/// A timeline whose coordinates are not too large.
pub open spec fn fits(samples: Seq<SampleView>) -> bool {
    &&& 88 + samples.len() * 56 <= i32::MAX
    &&& forall|i: int|
        0 <= i < samples.len() ==> 72 + (#[trigger] samples[i]).roles.len() * 48 + 48 <= i32::MAX
}

fn draw_cells(roles: &Vec<(NodeId, Role)>, x: i64) -> (text: String)
    requires
        72 + roles@.len() * 48 + 48 <= i32::MAX,
        0 <= x <= i32::MAX,
    ensures
        text@ == cells(roles@, x as int),
{
    let mut text = String::new();
    let mut row: usize = 0;
    assert(roles@.take(0) =~= Seq::empty());
    while row < roles.len()
        invariant
            row <= roles@.len(),
            72 + roles@.len() * 48 + 48 <= i32::MAX,
            0 <= x <= i32::MAX,
            text@ == cells(roles@.take(row as int), x as int),
        decreases roles@.len() - row,
    {
        let y: i64 = 72 + row as i64 * 48;
        let (fill, letter) = match roles[row].1 {
            Role::Follower => ("#374151", "F"),
            Role::Candidate => ("#d97706", "C"),
            Role::Leader => ("#16a34a", "L"),
        };
        assert(roles@.take(row + 1).drop_last() =~= roles@.take(row as int));
        text.append(rounded_box(x, y, 44, 28, 6, fill, false).as_str());
        text.append(label(x + 17, y + 19, "#fff7ed", 13, true, letter).as_str());
        row = row + 1;
    }
    assert(roles@.take(row as int) =~= roles@);
    text
}

fn draw_column(sample: &Sample, x: i64, height: i64) -> (text: String)
    requires
        72 + sample.roles@.len() * 48 + 48 <= i32::MAX,
        0 <= x <= i32::MAX,
        0 <= height <= i32::MAX,
    ensures
        text@ == column(sample@, x as int, height as int),
{
    let mut time = crate::numbers::decimal_text(sample.time_ms);
    time.append("ms");
    let mut text = label(x, 66, "#6b7280", 10, false, time.as_str());
    match &sample.note {
        Some(note) => {
            text.append(
                label(x, height - 18, "#f87171", 11, false, escape(note.as_str()).as_str()).as_str(),
            );
        },
        None => {},
    }
    text.append(draw_cells(&sample.roles, x).as_str());
    text
}

/// Draws a timeline of the nodes' roles.
pub fn render_svg(title: &str, samples: &Vec<Sample>) -> (picture: String)
    requires
        fits(samples.deep_view()),
    ensures
        picture@ == timeline(title@, samples.deep_view()),
{
    let ghost views = samples.deep_view();
    let count: usize = if samples.len() == 0 {
        0
    } else {
        assert(views[0] == samples@[0]@);
        samples[0].roles.len()
    };
    assert(count == row_count(views));
    let height: i64 = 72 + count as i64 * 48 + 48;
    let mut svg = canvas(920, height);
    svg.append("<rect width=\"100%\" height=\"100%\" fill=\"#101114\"/>\n");
    let mut name = String::from_str("raft-kv · ");
    name.append(title);
    svg.append(label(24, 34, "#f4f1ea", 20, true, name.as_str()).as_str());
    svg.append(
        label(24, 56, "#9ca3af", 12, false, "green leader · yellow candidate · gray follower").as_str(),
    );
    let mut names = String::new();
    let mut node: usize = 0;
    while node < count
        invariant
            node <= count,
            72 + count * 48 + 48 <= i32::MAX,
            names@ == row_names(node as nat),
        decreases count - node,
    {
        let y: i64 = 72 + node as i64 * 48;
        let mut name = String::from_str("node ");
        push_decimal(&mut name, node as u64);
        names.append(label(24, y + 22, "#d1d5db", 13, false, name.as_str()).as_str());
        node = node + 1;
    }
    svg.append(names.as_str());
    let mut grid = String::new();
    let mut i: usize = 0;
    assert(views.take(0) =~= Seq::empty());
    while i < samples.len()
        invariant
            i <= samples@.len(),
            views == samples.deep_view(),
            fits(views),
            0 <= height <= i32::MAX,
            grid@ == columns(views.take(i as int), height as int),
        decreases samples@.len() - i,
    {
        let x: i64 = 88 + i as i64 * 56;
        assert(views[i as int] == samples@[i as int]@);
        assert(views.take(i + 1).drop_last() =~= views.take(i as int));
        grid.append(draw_column(&samples[i], x, height).as_str());
        i = i + 1;
    }
    assert(views.take(i as int) =~= views);
    svg.append(grid.as_str());
    finish_svg(svg)
}

/// What a command is called.
pub open spec fn command_name(command: Command) -> Seq<char> {
    match command {
        Command::Noop => "noop"@,
        Command::Put { key, value } => "set "@ + key@ + "="@ + value@,
        Command::Delete { key } => "delete "@ + key@,
    }
}

/// What a command is called.
pub fn command_label(command: &Command) -> (name: String)
    ensures
        name@ == command_name(*command),
{
    match command {
        Command::Noop => String::from_str("noop"),
        Command::Put { key, value } => {
            let mut name = String::from_str("set ");
            name.append(key.as_str());
            name.append("=");
            name.append(value.as_str());
            name
        },
        Command::Delete { key } => {
            let mut name = String::from_str("delete ");
            name.append(key.as_str());
            name
        },
    }
}

/// The color and the name of a role.
pub open spec fn badge(role: Role) -> (Seq<char>, Seq<char>) {
    match role {
        Role::Follower => ("#8b949e"@, "FOLLOWER"@),
        Role::Candidate => ("#d29922"@, "CANDIDATE"@),
        Role::Leader => ("#3fb950"@, "LEADER"@),
    }
}

/// The color and the name of a role.
pub fn role_style(role: Role) -> (style: (&'static str, &'static str))
    ensures
        (style.0@, style.1@) == badge(role),
{
    match role {
        Role::Follower => ("#8b949e", "FOLLOWER"),
        Role::Candidate => ("#d29922", "CANDIDATE"),
        Role::Leader => ("#3fb950", "LEADER"),
    }
}

/// A value as it is shown, with a sign for none.
pub open spec fn shown(value: Option<Seq<char>>) -> Seq<char> {
    match value {
        Some(value) => value,
        None => "∅"@,
    }
}

/// The value that a node has under a key, as it is shown.
fn shown_value(node: &Node, key: &str) -> (value: String)
    ensures
        value@ == shown(node.kv().data.lookup(key@)),
{
    match node.get(key) {
        Some(value) => value,
        None => String::from_str("∅"),
    }
}

/// A row of the dashboard.
pub open spec fn dashboard_row(node: NodeState<KvState>, id: nat, y: int) -> Seq<char> {
    let (fill, name) = badge(node.role);
    crate::picture::box_text(36, y, 888, 40, 10, "#171a21"@, true) + crate::picture::label_text(
        58,
        y + 25,
        "#e6e1d9"@,
        14,
        false,
        "node-"@ + crate::numbers::decimal(id),
    ) + crate::picture::box_text(150, y + 8, 92, 24, 12, fill, false) + crate::picture::label_text(
        166,
        y + 24,
        "#0f1115"@,
        12,
        true,
        name,
    ) + crate::picture::label_text(278, y + 25, "#8b949e"@, 13, false, "log"@)
        + crate::picture::label_text(318, y + 25, "#3fb950"@, 16, false, "██████████"@)
        + crate::picture::label_text(
        520,
        y + 25,
        "#8b949e"@,
        13,
        false,
        "commit "@ + crate::numbers::decimal(node.commit_index as nat),
    ) + crate::picture::label_text(
        650,
        y + 25,
        "#e6e1d9"@,
        13,
        false,
        "foo="@ + shown(node.data.lookup("foo"@)),
    ) + crate::picture::label_text(
        770,
        y + 25,
        "#e6e1d9"@,
        13,
        false,
        "baz="@ + shown(node.data.lookup("baz"@)),
    )
}

/// The rows of the dashboard.
pub open spec fn dashboard_rows(nodes: Seq<NodeState<KvState>>) -> Seq<char>
    decreases nodes.len(),
{
    if nodes.len() == 0 {
        Seq::empty()
    } else {
        dashboard_rows(nodes.drop_last()) + dashboard_row(
            nodes.last(),
            (nodes.len() - 1) as nat,
            112 + (nodes.len() - 1) * 54,
        )
    }
}

/// A dashboard of a cluster and its leader.
pub open spec fn dashboard(state: ClusterState, leader: NodeId) -> Seq<char> {
    let node = state.nodes[leader as int];
    crate::picture::finished(
        crate::picture::shell_text(960, 430, "raft-kv · live cluster snapshot"@)
            + crate::picture::label_text(
            36,
            74,
            "#8b949e"@,
            14,
            false,
            "term "@ + crate::numbers::decimal(node.current_term as nat),
        ) + crate::picture::label_text(
            160,
            74,
            "#3fb950"@,
            14,
            false,
            "leader node-"@ + crate::numbers::decimal(leader as nat),
        ) + crate::picture::label_text(
            360,
            74,
            "#8b949e"@,
            14,
            false,
            "commit index "@ + crate::numbers::decimal(node.commit_index as nat),
        ) + dashboard_rows(state.nodes),
    )
}

fn numbered(text: &str, n: u64) -> (name: String)
    ensures
        name@ == text@ + crate::numbers::decimal(n as nat),
{
    let mut name = String::from_str(text);
    push_decimal(&mut name, n);
    name
}

fn valued(text: &str, node: &Node, key: &str) -> (name: String)
    ensures
        name@ == text@ + shown(node.kv().data.lookup(key@)),
{
    let mut name = String::from_str(text);
    name.append(shown_value(node, key).as_str());
    name
}

fn draw_dashboard_row(node: &Node, id: NodeId, y: i64) -> (text: String)
    requires
        0 <= y <= i32::MAX,
    ensures
        text@ == dashboard_row(node.kv(), id as nat, y as int),
{
    let (fill, name) = role_style(node.role());
    let mut text = rounded_box(36, y, 888, 40, 10, "#171a21", true);
    text.append(
        label(58, y + 25, "#e6e1d9", 14, false, numbered("node-", id as u64).as_str()).as_str(),
    );
    text.append(rounded_box(150, y + 8, 92, 24, 12, fill, false).as_str());
    text.append(label(166, y + 24, "#0f1115", 12, true, name).as_str());
    text.append(label(278, y + 25, "#8b949e", 13, false, "log").as_str());
    text.append(label(318, y + 25, "#3fb950", 16, false, "██████████").as_str());
    text.append(
        label(
            520,
            y + 25,
            "#8b949e",
            13,
            false,
            numbered("commit ", node.commit_index() as u64).as_str(),
        ).as_str(),
    );
    text.append(
        label(650, y + 25, "#e6e1d9", 13, false, valued("foo=", node, "foo").as_str()).as_str(),
    );
    text.append(
        label(770, y + 25, "#e6e1d9", 13, false, valued("baz=", node, "baz").as_str()).as_str(),
    );
    text
}

/// Draws a dashboard of a cluster and its leader.
pub fn render_dashboard_svg(cluster: &Cluster, leader: NodeId) -> (picture: String)
    requires
        cluster.wf(),
        leader < cluster@.nodes.len(),
        112 + cluster@.nodes.len() * 54 <= i32::MAX,
    ensures
        picture@ == dashboard(cluster@, leader),
{
    let ghost states = cluster@.nodes;
    let mut svg = svg_shell(960, 430, "raft-kv · live cluster snapshot");
    let first = cluster.node(leader);
    svg.append(
        label(36, 74, "#8b949e", 14, false, numbered("term ", first.current_term()).as_str()).as_str(),
    );
    svg.append(
        label(160, 74, "#3fb950", 14, false, numbered("leader node-", leader as u64).as_str()).as_str(),
    );
    svg.append(
        label(
            360,
            74,
            "#8b949e",
            14,
            false,
            numbered("commit index ", first.commit_index() as u64).as_str(),
        ).as_str(),
    );
    let ids = cluster.node_ids();
    let mut rows = String::new();
    let mut row: usize = 0;
    assert(states.take(0) =~= Seq::empty());
    while row < ids.len()
        invariant
            row <= ids@.len(),
            ids@.len() == states.len(),
            forall|i: int| 0 <= i < ids@.len() ==> #[trigger] ids@[i] == i,
            states == cluster@.nodes,
            112 + states.len() * 54 <= i32::MAX,
            rows@ == dashboard_rows(states.take(row as int)),
        decreases ids@.len() - row,
    {
        assert(states.take(row + 1).drop_last() =~= states.take(row as int));
        let id: NodeId = ids[row];
        rows.append(draw_dashboard_row(cluster.node(id), id, 112 + row as i64 * 54).as_str());
        row = row + 1;
    }
    assert(states.take(row as int) =~= states);
    svg.append(rows.as_str());
    finish_svg(svg)
}

/// The entries of a row of the ledger.
pub open spec fn ledger_entries(log: Seq<LogEntry>, y: int) -> Seq<char>
    decreases log.len(),
{
    if log.len() == 0 {
        Seq::empty()
    } else {
        let x = 248 + (log.len() - 1) * 150;
        ledger_entries(log.drop_last(), y) + crate::picture::box_text(
            x,
            y,
            132,
            32,
            8,
            "#21262d"@,
            true,
        ) + crate::picture::label_text(
            x + 12,
            y + 21,
            "#e6e1d9"@,
            12,
            false,
            crate::picture::escaped(command_name(log.last().command)),
        )
    }
}

/// A row of the ledger.
pub open spec fn ledger_row(node: NodeState<KvState>, id: nat, y: int) -> Seq<char> {
    let (fill, name) = badge(node.role);
    crate::picture::label_text(
        38,
        y + 22,
        "#e6e1d9"@,
        14,
        false,
        "node-"@ + crate::numbers::decimal(id),
    ) + crate::picture::box_text(120, y + 4, 92, 24, 12, fill, false) + crate::picture::label_text(
        136,
        y + 20,
        "#0f1115"@,
        12,
        true,
        name,
    ) + ledger_entries(node.log, y) + crate::picture::label_text(
        820,
        y + 22,
        "#3fb950"@,
        14,
        false,
        "commit ✓"@,
    )
}

/// The rows of the ledger.
pub open spec fn ledger_rows(nodes: Seq<NodeState<KvState>>) -> Seq<char>
    decreases nodes.len(),
{
    if nodes.len() == 0 {
        Seq::empty()
    } else {
        ledger_rows(nodes.drop_last()) + ledger_row(
            nodes.last(),
            (nodes.len() - 1) as nat,
            88 + (nodes.len() - 1) * 58,
        )
    }
}

/// A ledger of the nodes' logs.
pub open spec fn ledger(state: ClusterState) -> Seq<char> {
    crate::picture::finished(
        crate::picture::shell_text(960, 410, "replicated log ledger"@) + ledger_rows(state.nodes),
    )
}

/// A ledger whose coordinates are not too large.
pub open spec fn ledger_fits(state: ClusterState) -> bool {
    &&& 88 + state.nodes.len() * 58 <= i32::MAX
    &&& forall|i: int|
        0 <= i < state.nodes.len() ==> 248 + (#[trigger] state.nodes[i]).log.len() * 150 <= i32::MAX
}

fn draw_ledger_row(node: &Node, id: NodeId, y: i64) -> (text: String)
    requires
        0 <= y <= i32::MAX,
        248 + node.kv().log.len() * 150 <= i32::MAX,
    ensures
        text@ == ledger_row(node.kv(), id as nat, y as int),
{
    let (fill, name) = role_style(node.role());
    let mut text = label(
        38,
        y + 22,
        "#e6e1d9",
        14,
        false,
        numbered("node-", id as u64).as_str(),
    );
    text.append(rounded_box(120, y + 4, 92, 24, 12, fill, false).as_str());
    text.append(label(136, y + 20, "#0f1115", 12, true, name).as_str());
    let log = node.log();
    let mut entries = String::new();
    let mut col: usize = 0;
    assert(log@.take(0) =~= Seq::empty());
    while col < log.len()
        invariant
            col <= log@.len(),
            0 <= y <= i32::MAX,
            248 + log@.len() * 150 <= i32::MAX,
            entries@ == ledger_entries(log@.take(col as int), y as int),
        decreases log@.len() - col,
    {
        let x: i64 = 248 + col as i64 * 150;
        assert(log@.take(col + 1).drop_last() =~= log@.take(col as int));
        entries.append(rounded_box(x, y, 132, 32, 8, "#21262d", true).as_str());
        entries.append(
            label(
                x + 12,
                y + 21,
                "#e6e1d9",
                12,
                false,
                escape(command_label(&log[col].command).as_str()).as_str(),
            ).as_str(),
        );
        col = col + 1;
    }
    assert(log@.take(col as int) =~= log@);
    text.append(entries.as_str());
    text.append(label(820, y + 22, "#3fb950", 14, false, "commit ✓").as_str());
    text
}

/// Whether a ledger's coordinates are not too large.
pub fn is_drawable(cluster: &Cluster) -> (drawable: bool)
    requires
        cluster.wf(),
    ensures
        drawable == ledger_fits(cluster@),
{
    let ids = cluster.node_ids();
    if ids.len() as u64 > (i32::MAX as u64 - 88) / 58 {
        return false;
    }
    let mut row: usize = 0;
    while row < ids.len()
        invariant
            row <= ids@.len(),
            ids@.len() == cluster@.nodes.len(),
            forall|i: int| 0 <= i < ids@.len() ==> #[trigger] ids@[i] == i,
            forall|i: int|
                0 <= i < row ==> 248 + (#[trigger] cluster@.nodes[i]).log.len() * 150 <= i32::MAX,
        decreases ids@.len() - row,
    {
        let len: usize = cluster.node(ids[row]).log().len();
        if len as u64 > (i32::MAX as u64 - 248) / 150 {
            assert(248 + cluster@.nodes[row as int].log.len() * 150 > i32::MAX);
            return false;
        }
        row = row + 1;
    }
    true
}

/// Draws a ledger of the nodes' logs.
pub fn render_log_ledger_svg(cluster: &Cluster) -> (picture: String)
    requires
        cluster.wf(),
        ledger_fits(cluster@),
    ensures
        picture@ == ledger(cluster@),
{
    let ghost states = cluster@.nodes;
    let mut svg = svg_shell(960, 410, "replicated log ledger");
    let ids = cluster.node_ids();
    let mut rows = String::new();
    let mut row: usize = 0;
    assert(states.take(0) =~= Seq::empty());
    while row < ids.len()
        invariant
            row <= ids@.len(),
            ids@.len() == states.len(),
            forall|i: int| 0 <= i < ids@.len() ==> #[trigger] ids@[i] == i,
            states == cluster@.nodes,
            ledger_fits(cluster@),
            rows@ == ledger_rows(states.take(row as int)),
        decreases ids@.len() - row,
    {
        assert(states.take(row + 1).drop_last() =~= states.take(row as int));
        let id: NodeId = ids[row];
        let node = cluster.node(id);
        assert(node.kv() == states[row as int]);
        rows.append(draw_ledger_row(node, id, 88 + row as i64 * 58).as_str());
        row = row + 1;
    }
    assert(states.take(row as int) =~= states);
    svg.append(rows.as_str());
    finish_svg(svg)
}

/// The name of a role.
pub open spec fn role_word(role: Role) -> Seq<char> {
    match role {
        Role::Follower => "Follower"@,
        Role::Candidate => "Candidate"@,
        Role::Leader => "Leader"@,
    }
}

fn role_text(role: Role) -> (word: &'static str)
    ensures
        word@ == role_word(role),
{
    match role {
        Role::Follower => "Follower",
        Role::Candidate => "Candidate",
        Role::Leader => "Leader",
    }
}

/// The commands of a log, separated by commas.
pub open spec fn log_words(log: Seq<LogEntry>) -> Seq<char>
    decreases log.len(),
{
    if log.len() == 0 {
        Seq::empty()
    } else if log.len() == 1 {
        command_name(log[0].command)
    } else {
        log_words(log.drop_last()) + ", "@ + command_name(log.last().command)
    }
}

fn log_text(log: &[LogEntry]) -> (text: String)
    ensures
        text@ == log_words(log@),
{
    let mut text = String::new();
    let mut i: usize = 0;
    assert(log@.take(0) =~= Seq::empty());
    while i < log.len()
        invariant
            i <= log@.len(),
            text@ == log_words(log@.take(i as int)),
        decreases log@.len() - i,
    {
        assert(log@.take(i + 1).drop_last() =~= log@.take(i as int));
        let name = command_label(&log[i].command);
        if i == 0 {
            text = name;
        } else {
            text.append(", ");
            text.append(name.as_str());
        }
        i = i + 1;
    }
    assert(log@.take(i as int) =~= log@);
    text
}

/// A row of the replication table.
pub open spec fn replication_row(node: NodeState<KvState>, id: nat) -> Seq<char> {
    "| "@ + crate::numbers::decimal(id) + " | "@ + role_word(node.role) + " | "@
        + crate::numbers::decimal(node.current_term as nat) + " | "@ + crate::numbers::decimal(
        node.commit_index as nat,
    ) + " | "@ + crate::numbers::decimal(node.last_applied as nat) + " | ["@ + log_words(node.log)
        + "] | foo="@ + shown(node.data.lookup("foo"@)) + " |\n"@
}

fn replication_line(node: &Node, id: NodeId) -> (text: String)
    ensures
        text@ == replication_row(node.kv(), id as nat),
{
    let mut text = String::from_str("| ");
    push_decimal(&mut text, id as u64);
    text.append(" | ");
    text.append(role_text(node.role()));
    text.append(" | ");
    push_decimal(&mut text, node.current_term());
    text.append(" | ");
    push_decimal(&mut text, node.commit_index() as u64);
    text.append(" | ");
    push_decimal(&mut text, node.last_applied() as u64);
    text.append(" | [");
    text.append(log_text(node.log()).as_str());
    text.append("] | foo=");
    text.append(shown_value(node, "foo").as_str());
    text.append(" |\n");
    text
}

/// The rows of the replication table.
pub open spec fn replication_rows(nodes: Seq<NodeState<KvState>>) -> Seq<char>
    decreases nodes.len(),
{
    if nodes.len() == 0 {
        Seq::empty()
    } else {
        replication_rows(nodes.drop_last()) + replication_row(
            nodes.last(),
            (nodes.len() - 1) as nat,
        )
    }
}

/// A table of what the nodes hold.
pub open spec fn replication_report(state: ClusterState) -> Seq<char> {
    "| node | role | term | commit | applied | log | kv |\n|---:|---|---:|---:|---:|---|---|\n"@
        + replication_rows(state.nodes)
}

/// Writes a table of what the nodes hold.
pub fn replication_text(cluster: &Cluster) -> (text: String)
    requires
        cluster.wf(),
    ensures
        text@ == replication_report(cluster@),
{
    let ghost states = cluster@.nodes;
    let ids = cluster.node_ids();
    let mut rows = String::new();
    let mut row: usize = 0;
    assert(states.take(0) =~= Seq::empty());
    while row < ids.len()
        invariant
            row <= ids@.len(),
            ids@.len() == states.len(),
            forall|i: int| 0 <= i < ids@.len() ==> #[trigger] ids@[i] == i,
            states == cluster@.nodes,
            rows@ == replication_rows(states.take(row as int)),
        decreases ids@.len() - row,
    {
        assert(states.take(row + 1).drop_last() =~= states.take(row as int));
        let id: NodeId = ids[row];
        rows.append(replication_line(cluster.node(id), id).as_str());
        row = row + 1;
    }
    assert(states.take(row as int) =~= states);
    let mut text = String::from_str(
        "| node | role | term | commit | applied | log | kv |\n|---:|---|---:|---:|---:|---|---|\n",
    );
    text.append(rows.as_str());
    text
}

/// A table of measured times.
pub open spec fn times_report(election_ms: u64, failover_ms: u64, replication_ms: u64) -> Seq<
    char,
> {
    "| metric | value |\n|---|---:|\n| cluster size tested | 5 nodes |\n| election timeout | 150–300 ms |\n| heartbeat interval | 50 ms |\n| first leader elected | "@
        + crate::numbers::decimal(election_ms as nat)
        + " ms simulated |\n| failover after leader kill | "@ + crate::numbers::decimal(
        failover_ms as nat,
    ) + " ms simulated |\n| write visible on all nodes | "@ + crate::numbers::decimal(
        replication_ms as nat,
    )
        + " ms simulated |\n| fault tolerance | 2 failed nodes in a 5-node cluster |\n| process-level TCP tests | 3 integration tests |\n"@
}

/// Writes a table of measured times.
pub fn times_text(election_ms: u64, failover_ms: u64, replication_ms: u64) -> (text: String)
    ensures
        text@ == times_report(election_ms, failover_ms, replication_ms),
{
    let mut text = String::from_str(
        "| metric | value |\n|---|---:|\n| cluster size tested | 5 nodes |\n| election timeout | 150–300 ms |\n| heartbeat interval | 50 ms |\n| first leader elected | ",
    );
    push_decimal(&mut text, election_ms);
    text.append(" ms simulated |\n| failover after leader kill | ");
    push_decimal(&mut text, failover_ms);
    text.append(" ms simulated |\n| write visible on all nodes | ");
    push_decimal(&mut text, replication_ms);
    text.append(
        " ms simulated |\n| fault tolerance | 2 failed nodes in a 5-node cluster |\n| process-level TCP tests | 3 integration tests |\n",
    );
    text
}

} // verus!
