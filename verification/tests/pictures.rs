use raft_kv::charts::{
    command_label, is_drawable, render_dashboard_svg, render_log_ledger_svg, render_svg,
    replication_text, role_style, sample, times_text, Sample,
};
use raft_kv::demo::{
    committed_cluster, election_trace, failover_trace, first_time_until, metrics_table,
    replication_table, sample_until, Goal,
};
use raft_kv::picture::{draw_arrow, draw_obs_arrow, escape, finish_svg, svg_shell};
use raft_kv::posters::{
    render_failover_story_svg, render_lsm_storage_svg, render_observability_svg,
};
use raft_kv::{Cluster, Command, Role};

const FONT: &str = r##"font-family="ui-monospace, SFMono-Regular, Menlo, monospace""##;

fn text(x: i32, y: i32, fill: &str, size: i32, bold: bool, body: &str) -> String {
    let weight = if bold { r##" font-weight="700""## } else { "" };
    format!("<text x=\"{x}\" y=\"{y}\" fill=\"{fill}\" {FONT} font-size=\"{size}\"{weight}>{body}</text>\n")
}

#[test]
fn markup_is_escaped() {
    assert_eq!(escape("a<b> & c"), "a&lt;b&gt; &amp; c");
    assert_eq!(escape("&lt;"), "&amp;lt;");
    assert_eq!(escape(""), "");
}

#[test]
fn a_picture_has_a_frame_and_a_title() {
    let expected = format!(
        "<svg xmlns=\"http://www.w3.org/2000/svg\" width=\"960\" height=\"430\" viewBox=\"0 0 960 430\">\n\
         <rect width=\"100%\" height=\"100%\" rx=\"18\" fill=\"#0f1115\"/>\n\
         <rect x=\"18\" y=\"18\" width=\"924\" height=\"394\" rx=\"14\" fill=\"#11161d\" stroke=\"#30363d\"/>\n\
         {}</svg>\n",
        text(36, 48, "#e6e1d9", 20, true, "a &amp; b")
    );
    assert_eq!(finish_svg(svg_shell(960, 430, "a & b")), expected);
}

#[test]
fn arrows_carry_their_captions() {
    let mut svg = String::from("-");
    draw_arrow(&mut svg, 198, 136, 250, 136, "append");
    let line = "<line x1=\"198\" y1=\"136\" x2=\"250\" y2=\"136\" stroke=\"#58a6ff\" stroke-width=\"2\" marker-end=\"url(#arrow)\"/>\n";
    assert_eq!(svg, format!("-{line}{}", text(206, 128, "#8b949e", 11, false, "append")));
    let mut svg = String::new();
    draw_obs_arrow(&mut svg, 742, 196, 780, 196, "");
    assert_eq!(
        svg,
        "<line x1=\"742\" y1=\"196\" x2=\"780\" y2=\"196\" stroke=\"#58a6ff\" stroke-width=\"2\" marker-end=\"url(#obs-arrow)\"/>\n"
    );
    // Halves are cut towards zero.
    let mut svg = String::new();
    draw_obs_arrow(&mut svg, -3, 0, 0, 1, "x");
    assert!(svg.contains("<text x=\"-23\" y=\"-8\""));
}

#[test]
fn a_timeline_has_a_cell_per_node_and_sample() {
    let samples = vec![
        Sample {
            time_ms: 0,
            roles: vec![(0, Role::Follower), (1, Role::Candidate)],
            note: Some("a<b".to_string()),
        },
        Sample { time_ms: 50, roles: vec![(0, Role::Leader), (1, Role::Follower)], note: None },
    ];
    let mut expected = format!(
        "<svg xmlns=\"http://www.w3.org/2000/svg\" width=\"920\" height=\"216\" viewBox=\"0 0 920 216\">\n\
         <rect width=\"100%\" height=\"100%\" fill=\"#101114\"/>\n{}{}{}{}",
        text(24, 34, "#f4f1ea", 20, true, "raft-kv · T<"),
        text(24, 56, "#9ca3af", 12, false, "green leader · yellow candidate · gray follower"),
        text(24, 94, "#d1d5db", 13, false, "node 0"),
        text(24, 142, "#d1d5db", 13, false, "node 1"),
    );
    let cell = |x: i32, y: i32, fill: &str, letter: &str| {
        format!(
            "<rect x=\"{x}\" y=\"{y}\" width=\"44\" height=\"28\" rx=\"6\" fill=\"{fill}\"/>\n{}",
            text(x + 17, y + 19, "#fff7ed", 13, true, letter)
        )
    };
    expected.push_str(&text(88, 66, "#6b7280", 10, false, "0ms"));
    expected.push_str(&text(88, 198, "#f87171", 11, false, "a&lt;b"));
    expected.push_str(&cell(88, 72, "#374151", "F"));
    expected.push_str(&cell(88, 120, "#d97706", "C"));
    expected.push_str(&text(144, 66, "#6b7280", 10, false, "50ms"));
    expected.push_str(&cell(144, 72, "#16a34a", "L"));
    expected.push_str(&cell(144, 120, "#374151", "F"));
    expected.push_str("</svg>\n");
    assert_eq!(render_svg("T<", &samples), expected);
}

#[test]
fn commands_and_roles_have_labels() {
    assert_eq!(command_label(&Command::Noop), "noop");
    assert_eq!(command_label(&Command::Put { key: "k".into(), value: "v".into() }), "set k=v");
    assert_eq!(command_label(&Command::Delete { key: "k".into() }), "delete k");
    assert_eq!(role_style(Role::Follower), ("#8b949e", "FOLLOWER"));
    assert_eq!(role_style(Role::Candidate), ("#d29922", "CANDIDATE"));
    assert_eq!(role_style(Role::Leader), ("#3fb950", "LEADER"));
}

#[test]
fn a_dashboard_shows_every_node() {
    let cluster = committed_cluster().unwrap();
    let leader = cluster.leader().unwrap();
    let mut expected = svg_shell(960, 430, "raft-kv · live cluster snapshot");
    let node = cluster.node(leader);
    expected.push_str(&text(36, 74, "#8b949e", 14, false, &format!("term {}", node.current_term())));
    expected.push_str(&text(160, 74, "#3fb950", 14, false, &format!("leader node-{leader}")));
    expected.push_str(&text(
        360,
        74,
        "#8b949e",
        14,
        false,
        &format!("commit index {}", node.commit_index()),
    ));
    for id in 0..5 {
        let node = cluster.node(id);
        let y = 112 + id as i32 * 54;
        let (fill, label) = role_style(node.role());
        expected.push_str(&format!("<rect x=\"36\" y=\"{y}\" width=\"888\" height=\"40\" rx=\"10\" fill=\"#171a21\" stroke=\"#30363d\"/>\n"));
        expected.push_str(&text(58, y + 25, "#e6e1d9", 14, false, &format!("node-{id}")));
        expected.push_str(&format!("<rect x=\"150\" y=\"{}\" width=\"92\" height=\"24\" rx=\"12\" fill=\"{fill}\"/>\n", y + 8));
        expected.push_str(&text(166, y + 24, "#0f1115", 12, true, label));
        expected.push_str(&text(278, y + 25, "#8b949e", 13, false, "log"));
        expected.push_str(&text(318, y + 25, "#3fb950", 16, false, "██████████"));
        let commit = format!("commit {}", node.commit_index());
        expected.push_str(&text(520, y + 25, "#8b949e", 13, false, &commit));
        let shown = |key: &str| node.get(key).unwrap_or("∅".to_string());
        expected.push_str(&text(650, y + 25, "#e6e1d9", 13, false, &format!("foo={}", shown("foo"))));
        expected.push_str(&text(770, y + 25, "#e6e1d9", 13, false, &format!("baz={}", shown("baz"))));
    }
    expected.push_str("</svg>\n");
    assert_eq!(render_dashboard_svg(&cluster, leader), expected);
}

#[test]
fn a_ledger_shows_every_entry() {
    let cluster = committed_cluster().unwrap();
    assert!(is_drawable(&cluster));
    let mut expected = svg_shell(960, 410, "replicated log ledger");
    for id in 0..5 {
        let node = cluster.node(id);
        let y = 88 + id as i32 * 58;
        let (fill, label) = role_style(node.role());
        expected.push_str(&text(38, y + 22, "#e6e1d9", 14, false, &format!("node-{id}")));
        expected.push_str(&format!("<rect x=\"120\" y=\"{}\" width=\"92\" height=\"24\" rx=\"12\" fill=\"{fill}\"/>\n", y + 4));
        expected.push_str(&text(136, y + 20, "#0f1115", 12, true, label));
        for (column, entry) in node.log().iter().enumerate() {
            let x = 248 + column as i32 * 150;
            expected.push_str(&format!("<rect x=\"{x}\" y=\"{y}\" width=\"132\" height=\"32\" rx=\"8\" fill=\"#21262d\" stroke=\"#30363d\"/>\n"));
            expected.push_str(&text(x + 12, y + 21, "#e6e1d9", 12, false, &command_label(&entry.command)));
        }
        expected.push_str(&text(820, y + 22, "#3fb950", 14, false, "commit ✓"));
    }
    expected.push_str("</svg>\n");
    assert_eq!(render_log_ledger_svg(&cluster), expected);
}

#[test]
fn tables_list_nodes_and_times() {
    let cluster = Cluster::new(2);
    assert_eq!(
        replication_text(&cluster),
        "| node | role | term | commit | applied | log | kv |\n|---:|---|---:|---:|---:|---|---|\n\
         | 0 | Follower | 0 | 0 | 0 | [] | foo=∅ |\n| 1 | Follower | 0 | 0 | 0 | [] | foo=∅ |\n"
    );
    assert_eq!(
        times_text(1, 22, 333),
        "| metric | value |\n|---|---:|\n| cluster size tested | 5 nodes |\n| election timeout | 150–300 ms |\n| heartbeat interval | 50 ms |\n| first leader elected | 1 ms simulated |\n| failover after leader kill | 22 ms simulated |\n| write visible on all nodes | 333 ms simulated |\n| fault tolerance | 2 failed nodes in a 5-node cluster |\n| process-level TCP tests | 3 integration tests |\n"
    );
}

#[test]
fn posters_are_whole_pictures() {
    let story = render_failover_story_svg();
    let storage = render_lsm_storage_svg();
    let loops = render_observability_svg();
    assert!(story.starts_with(&svg_shell(960, 360, "leader failure · election · recovery")));
    assert!(storage.starts_with(&svg_shell(960, 430, "LSM storage path")));
    assert!(loops.starts_with(&svg_shell(960, 390, "live observability loop")));
    assert!(story.contains("<circle cx=\"587\" cy=\"122\" r=\"18\" fill=\"#d29922\"/>\n"));
    assert!(story.contains(&text(736, 232, "#8b949e", 13, false, "writes continue")));
    assert!(storage.contains(&text(470, 296, "#e6e1d9", 15, true, "bloom filter")));
    assert!(storage.contains(&text(709, 211, "#8b949e", 11, false, "read file")));
    assert!(loops.contains(&text(66, 280, "#8b949e", 11, false, "/metrics + logs")));
    assert!(loops.contains(&text(592, 212, "#8b949e", 12, false, "preloaded dashboard")));
    for (picture, texts, rects, lines) in
        [(&story, 17, 6, 0), (&storage, 22, 9, 7), (&loops, 22, 8, 5)]
    {
        assert!(picture.ends_with("</svg>\n"));
        assert_eq!(picture.matches("<text ").count(), texts);
        assert_eq!(picture.matches("</text>\n").count(), texts);
        assert_eq!(picture.matches("<rect ").count(), rects);
        assert_eq!(picture.matches("<line ").count(), lines);
    }
}

#[test]
fn an_election_ends_with_a_leader() {
    let samples = election_trace();
    for (k, taken) in samples.iter().enumerate() {
        assert_eq!(taken.time_ms, 50 * k as u64);
        assert_eq!(taken.roles.len(), 5);
        let led = taken.roles.iter().any(|(_, role)| *role == Role::Leader);
        assert_eq!(led, k + 1 == samples.len());
    }
    assert!(render_svg("Election", &samples).contains("raft-kv · Election"));
}

#[test]
fn a_failover_starts_with_the_end_of_a_leader() {
    let samples = failover_trace().unwrap();
    assert_eq!(samples.len(), 13);
    let old = samples[0].roles.iter().position(|(_, role)| *role == Role::Leader).unwrap();
    assert_eq!(samples[0].note, Some(format!("kill node {old}")));
    assert_eq!(samples[12].time_ms, 600);
    assert!(samples[1..].iter().all(|taken| taken.note.is_none()));
    let last: Vec<usize> = (0..5).filter(|id| samples[12].roles[*id].1 == Role::Leader).collect();
    assert!(last.iter().any(|id| *id != old));
}

#[test]
fn a_write_gets_everywhere() {
    let table = replication_table().unwrap();
    assert_eq!(table.lines().count(), 7);
    assert_eq!(table.matches("| [noop, set foo=bar] | foo=bar |").count(), 5);
    assert_eq!(table.matches("| Leader |").count(), 1);
}

#[test]
fn measured_times_are_reported() {
    let table = metrics_table().unwrap();
    let value = |name: &str| -> u64 {
        let line = table.lines().find(|line| line.contains(name)).unwrap();
        line.split(' ').nth(line.split(' ').count() - 4).unwrap().parse().unwrap()
    };
    assert!((150..=320).contains(&value("first leader elected")));
    assert!((50..=700).contains(&value("failover after leader kill")));
    assert!(value("write visible on all nodes") <= 150);
}

#[test]
fn waiting_ends_with_the_goal_or_the_deadline() {
    let mut cluster = Cluster::new(3);
    let samples = sample_until(&mut cluster, 100, &Goal::Led);
    assert_eq!(samples.len(), 3);
    assert_eq!(sample(&cluster, 7, None).roles.len(), 3);
    let mut cluster = Cluster::new(3);
    assert_eq!(first_time_until(&mut cluster, 100, &Goal::Led), 102);
    let waited = first_time_until(&mut cluster, 1000, &Goal::Led);
    assert!(waited > 0 && waited < 300);
    assert_eq!(first_time_until(&mut cluster, 1000, &Goal::Led), 0);
    let leader = cluster.leader().unwrap();
    assert!(Goal::Led.is_met(&cluster));
    assert!(!Goal::LedByOther(leader).is_met(&cluster));
    let goal = Goal::Holds { key: "a".into(), value: "b".into() };
    assert!(!goal.is_met(&cluster));
}

#[test]
fn sampling_leaves_a_cluster_after_its_last_wait() {
    let mut cluster = Cluster::new(3);
    assert_eq!(sample_until(&mut cluster, 100, &Goal::Led).len(), 3);
    assert_eq!(cluster.now(), 3 * 51);
    let samples = sample_until(&mut cluster, 1000, &Goal::Led);
    assert!(samples.len() > 1 && samples.len() < 20);
    assert_eq!(cluster.now(), 3 * 51 + (samples.len() as u64 - 1) * 51);
    assert!(Goal::Led.is_met(&cluster));
}
