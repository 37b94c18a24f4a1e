//! Pictures that explain the system.
use crate::picture::{
    draw_arrow, draw_obs_arrow, escape, finish_svg, label, rounded_box, svg_shell,
};
use crate::numbers::push_signed;
use vstd::prelude::*;
use vstd::string::*;

verus! {

/// One panel of the failover story.
pub open spec fn panel_text(
    x: int,
    number: Seq<char>,
    title: Seq<char>,
    first: Seq<char>,
    second: Seq<char>,
    color: Seq<char>,
) -> Seq<char> {
    crate::picture::box_text(x, 86, 198, 210, 16, "#171a21"@, true) + "<circle cx=\""@
        + crate::numbers::signed(x + 99) + "\" cy=\"122\" r=\"18\" fill=\""@ + color + "\"/>\n<text x=\""@
        + crate::numbers::signed(x + 99)
        + "\" y=\"128\" text-anchor=\"middle\" fill=\"#0f1115\" font-family=\"ui-monospace, SFMono-Regular, Menlo, monospace\" font-size=\"14\" font-weight=\"700\">"@
        + number + "</text>\n"@ + crate::picture::label_text(
        x + 22,
        168,
        "#e6e1d9"@,
        16,
        true,
        title,
    ) + crate::picture::label_text(x + 22, 206, "#8b949e"@, 13, false, first)
        + crate::picture::label_text(x + 22, 232, "#8b949e"@, 13, false, second)
}

fn panel(x: i64, number: &str, title: &str, first: &str, second: &str, color: &str) -> (text: String)
    requires
        0 <= x <= 10000,
    ensures
        text@ == panel_text(x as int, number@, title@, first@, second@, color@),
{
    let mut text = rounded_box(x, 86, 198, 210, 16, "#171a21", true);
    text.append("<circle cx=\"");
    push_signed(&mut text, x + 99);
    text.append("\" cy=\"122\" r=\"18\" fill=\"");
    text.append(color);
    text.append("\"/>\n<text x=\"");
    push_signed(&mut text, x + 99);
    text.append(
        "\" y=\"128\" text-anchor=\"middle\" fill=\"#0f1115\" font-family=\"ui-monospace, SFMono-Regular, Menlo, monospace\" font-size=\"14\" font-weight=\"700\">",
    );
    text.append(number);
    text.append("</text>\n");
    text.append(label(x + 22, 168, "#e6e1d9", 16, true, title).as_str());
    text.append(label(x + 22, 206, "#8b949e", 13, false, first).as_str());
    text.append(label(x + 22, 232, "#8b949e", 13, false, second).as_str());
    text
}

/// The story of a failover: the leader crashes, another one is elected.
pub open spec fn failover_story() -> Seq<char> {
    crate::picture::finished(
        crate::picture::shell_text(960, 360, "leader failure · election · recovery"@)
            + panel_text(36, "1"@, "steady state"@, "node-4 leads"@, "logs are aligned"@, "#3fb950"@)
            + panel_text(262, "2"@, "leader crashes"@, "node-4 stops"@, "heartbeats expire"@, "#f85149"@)
            + panel_text(488, "3"@, "new election"@, "node-3 asks"@, "majority votes"@, "#d29922"@)
            + panel_text(714, "4"@, "recovered"@, "node-3 leads"@, "writes continue"@, "#3fb950"@)
    )
}

/// The story of a failover.
pub fn render_failover_story_svg() -> (picture: String)
    ensures
        picture@ == failover_story(),
{
    let mut svg = svg_shell(960, 360, "leader failure · election · recovery");
    svg.append(panel(36, "1", "steady state", "node-4 leads", "logs are aligned", "#3fb950").as_str());
    svg.append(panel(262, "2", "leader crashes", "node-4 stops", "heartbeats expire", "#f85149").as_str());
    svg.append(panel(488, "3", "new election", "node-3 asks", "majority votes", "#d29922").as_str());
    svg.append(panel(714, "4", "recovered", "node-3 leads", "writes continue", "#3fb950").as_str());
    finish_svg(svg)
}

/// A box with a title and a subtitle.
pub open spec fn titled_box(
    x: int,
    y: int,
    width: int,
    height: int,
    radius: int,
    fill: Seq<char>,
    inset: int,
    title: (Seq<char>, int, int),
    subtitle: (Seq<char>, int),
) -> Seq<char> {
    crate::picture::box_text(x, y, width, height, radius, fill, true) + crate::picture::label_text(
        x + inset,
        y + title.1,
        "#e6e1d9"@,
        title.2,
        true,
        crate::picture::escaped(title.0),
    ) + crate::picture::label_text(
        x + inset,
        y + subtitle.1,
        "#8b949e"@,
        12,
        false,
        crate::picture::escaped(subtitle.0),
    )
}

/// A box of the storage picture.
pub open spec fn storage_box(
    title: Seq<char>,
    subtitle: Seq<char>,
    x: int,
    y: int,
    fill: Seq<char>,
) -> Seq<char> {
    titled_box(x, y, 150, 76, 14, fill, 18, (title, 32, 15), (subtitle, 56))
}

fn draw_storage_box(svg: &mut String, title: &str, subtitle: &str, x: i64, y: i64, fill: &str)
    requires
        0 <= x <= 10000,
        0 <= y <= 10000,
    ensures
        final(svg)@ == old(svg)@ + storage_box(title@, subtitle@, x as int, y as int, fill@),
{
    let mut text = rounded_box(x, y, 150, 76, 14, fill, true);
    text.append(label(x + 18, y + 32, "#e6e1d9", 15, true, escape(title).as_str()).as_str());
    text.append(label(x + 18, y + 56, "#8b949e", 12, false, escape(subtitle).as_str()).as_str());
    svg.append(text.as_str());
}

/// How a command gets to disk, and a key is found there.
pub open spec fn storage_path() -> Seq<char> {
    crate::picture::finished(
        crate::picture::shell_text(960, 430, "LSM storage path"@)
            + "<defs><marker id=\"arrow\" markerWidth=\"8\" markerHeight=\"8\" refX=\"7\" refY=\"4\" orient=\"auto\"><path d=\"M0,0 L8,4 L0,8 Z\" fill=\"#58a6ff\"/></marker></defs>\n"@
            + storage_box("Raft commit"@, "ordered command"@, 48, 98, "#21262d"@)
            + storage_box("WAL fsync"@, "durable first"@, 250, 98, "#1f2a36"@)
            + storage_box("memtable"@, "BTreeMap"@, 452, 98, "#173322"@)
            + storage_box("SSTable"@, "sorted file"@, 654, 98, "#2d2438"@)
            + storage_box("get key"@, "point read"@, 48, 264, "#21262d"@)
            + storage_box("bloom filter"@, "skip misses"@, 452, 264, "#2d2a1f"@)
            + storage_box("sparse index"@, "seek nearby"@, 654, 264, "#2d2a1f"@)
            + crate::picture::arrow_text(198, 136, 250, 136, "arrow"@, 18, "append"@)
            + crate::picture::arrow_text(400, 136, 452, 136, "arrow"@, 18, "apply"@)
            + crate::picture::arrow_text(602, 136, 654, 136, "arrow"@, 18, "flush"@)
            + crate::picture::arrow_text(198, 302, 452, 302, "arrow"@, 18, "miss"@)
            + crate::picture::arrow_text(602, 302, 654, 302, "arrow"@, 18, "maybe"@)
            + crate::picture::arrow_text(727, 264, 727, 174, "arrow"@, 18, "read file"@)
            + crate::picture::arrow_text(527, 264, 527, 174, "arrow"@, 18, ""@)
            + "<path d=\"M123 264 C123 220 500 220 527 174\" fill=\"none\" stroke=\"#3fb950\" stroke-width=\"2\" stroke-dasharray=\"6 6\"/>\n<path d=\"M527 264 C527 226 692 220 727 174\" fill=\"none\" stroke=\"#d29922\" stroke-width=\"2\" stroke-dasharray=\"6 6\"/>\n"@
            + crate::picture::label_text(52, 388, "#8b949e"@, 12, false, "writes flow left to right · reads start at memtable, then bloom/index/SSTable"@),
    )
}

/// How a command gets to disk, and a key is found there.
pub fn render_lsm_storage_svg() -> (picture: String)
    ensures
        picture@ == storage_path(),
{
    let mut svg = svg_shell(960, 430, "LSM storage path");
    svg.append("<defs><marker id=\"arrow\" markerWidth=\"8\" markerHeight=\"8\" refX=\"7\" refY=\"4\" orient=\"auto\"><path d=\"M0,0 L8,4 L0,8 Z\" fill=\"#58a6ff\"/></marker></defs>\n");
    draw_storage_box(&mut svg, "Raft commit", "ordered command", 48, 98, "#21262d");
    draw_storage_box(&mut svg, "WAL fsync", "durable first", 250, 98, "#1f2a36");
    draw_storage_box(&mut svg, "memtable", "BTreeMap", 452, 98, "#173322");
    draw_storage_box(&mut svg, "SSTable", "sorted file", 654, 98, "#2d2438");
    draw_storage_box(&mut svg, "get key", "point read", 48, 264, "#21262d");
    draw_storage_box(&mut svg, "bloom filter", "skip misses", 452, 264, "#2d2a1f");
    draw_storage_box(&mut svg, "sparse index", "seek nearby", 654, 264, "#2d2a1f");
    draw_arrow(&mut svg, 198, 136, 250, 136, "append");
    draw_arrow(&mut svg, 400, 136, 452, 136, "apply");
    draw_arrow(&mut svg, 602, 136, 654, 136, "flush");
    draw_arrow(&mut svg, 198, 302, 452, 302, "miss");
    draw_arrow(&mut svg, 602, 302, 654, 302, "maybe");
    draw_arrow(&mut svg, 727, 264, 727, 174, "read file");
    draw_arrow(&mut svg, 527, 264, 527, 174, "");
    svg.append("<path d=\"M123 264 C123 220 500 220 527 174\" fill=\"none\" stroke=\"#3fb950\" stroke-width=\"2\" stroke-dasharray=\"6 6\"/>\n<path d=\"M527 264 C527 226 692 220 727 174\" fill=\"none\" stroke=\"#d29922\" stroke-width=\"2\" stroke-dasharray=\"6 6\"/>\n");
    svg.append(label(52, 388, "#8b949e", 12, false, "writes flow left to right · reads start at memtable, then bloom/index/SSTable").as_str());
    finish_svg(svg)
}

/// A node in the observability picture.
pub open spec fn scraped_node(name: Seq<char>, y: int) -> Seq<char> {
    crate::picture::box_text(48, y, 150, 52, 13, "#21262d"@, true) + crate::picture::label_text(
        66,
        y + 22,
        "#e6e1d9"@,
        14,
        true,
        crate::picture::escaped(name),
    ) + crate::picture::label_text(66, y + 40, "#8b949e"@, 11, false, "/metrics + logs"@)
}

fn draw_scraped_node(svg: &mut String, name: &str, y: i64)
    requires
        0 <= y <= 10000,
    ensures
        final(svg)@ == old(svg)@ + scraped_node(name@, y as int),
{
    let mut text = rounded_box(48, y, 150, 52, 13, "#21262d", true);
    text.append(label(66, y + 22, "#e6e1d9", 14, true, escape(name).as_str()).as_str());
    text.append(label(66, y + 40, "#8b949e", 11, false, "/metrics + logs").as_str());
    svg.append(text.as_str());
}

/// A service in the observability picture.
pub open spec fn service_box(
    title: Seq<char>,
    subtitle: Seq<char>,
    x: int,
    y: int,
    fill: Seq<char>,
) -> Seq<char> {
    titled_box(x, y, 170, 82, 16, fill, 20, (title, 34, 16), (subtitle, 58))
}

fn draw_service_box(svg: &mut String, title: &str, subtitle: &str, x: i64, y: i64, fill: &str)
    requires
        0 <= x <= 10000,
        0 <= y <= 10000,
    ensures
        final(svg)@ == old(svg)@ + service_box(title@, subtitle@, x as int, y as int, fill@),
{
    let mut text = rounded_box(x, y, 170, 82, 16, fill, true);
    text.append(label(x + 20, y + 34, "#e6e1d9", 16, true, escape(title).as_str()).as_str());
    text.append(label(x + 20, y + 58, "#8b949e", 12, false, escape(subtitle).as_str()).as_str());
    svg.append(text.as_str());
}

/// How the metrics of the nodes get to a dashboard.
pub open spec fn observability_loop() -> Seq<char> {
    crate::picture::finished(
        crate::picture::shell_text(960, 390, "live observability loop"@)
            + "<defs><marker id=\"obs-arrow\" markerWidth=\"8\" markerHeight=\"8\" refX=\"7\" refY=\"4\" orient=\"auto\"><path d=\"M0,0 L8,4 L0,8 Z\" fill=\"#58a6ff\"/></marker></defs>\n"@
            + scraped_node("raft-node 0"@, 100)
            + scraped_node("raft-node 1"@, 170)
            + scraped_node("raft-node 2"@, 240)
            + service_box("Prometheus"@, "scrapes every 2s"@, 336, 154, "#1f2a36"@)
            + service_box("Grafana"@, "preloaded dashboard"@, 572, 154, "#2d2438"@)
            + crate::picture::box_text(780, 96, 130, 198, 16, "#11161d"@, true)
            + crate::picture::label_text(802, 126, "#e6e1d9"@, 14, true, "panels"@)
            + crate::picture::label_text(802, 154, "#8b949e"@, 12, false, "role map"@)
            + crate::picture::label_text(802, 180, "#8b949e"@, 12, false, "term"@)
            + crate::picture::label_text(802, 206, "#8b949e"@, 12, false, "commit index"@)
            + crate::picture::label_text(802, 232, "#8b949e"@, 12, false, "replication lag"@)
            + crate::picture::label_text(802, 258, "#8b949e"@, 12, false, "compactions"@)
            + crate::picture::arrow_text(198, 126, 336, 178, "obs-arrow"@, 22, "/metrics"@)
            + crate::picture::arrow_text(198, 196, 336, 196, "obs-arrow"@, 22, "/metrics"@)
            + crate::picture::arrow_text(198, 266, 336, 214, "obs-arrow"@, 22, "/metrics"@)
            + crate::picture::arrow_text(506, 196, 572, 196, "obs-arrow"@, 22, "PromQL"@)
            + crate::picture::arrow_text(742, 196, 780, 196, "obs-arrow"@, 22, ""@)
            + "<path d=\"M198 306 C320 342 555 342 702 248\" fill=\"none\" stroke=\"#8b949e\" stroke-width=\"2\" stroke-dasharray=\"6 6\"/>\n"@
            + crate::picture::label_text(52, 342, "#8b949e"@, 12, false, "logs stay local by default · set RAFT_KV_LOG=json for structured JSON"@),
    )
}

/// How the metrics of the nodes get to a dashboard.
pub fn render_observability_svg() -> (picture: String)
    ensures
        picture@ == observability_loop(),
{
    let mut svg = svg_shell(960, 390, "live observability loop");
    svg.append("<defs><marker id=\"obs-arrow\" markerWidth=\"8\" markerHeight=\"8\" refX=\"7\" refY=\"4\" orient=\"auto\"><path d=\"M0,0 L8,4 L0,8 Z\" fill=\"#58a6ff\"/></marker></defs>\n");
    draw_scraped_node(&mut svg, "raft-node 0", 100);
    draw_scraped_node(&mut svg, "raft-node 1", 170);
    draw_scraped_node(&mut svg, "raft-node 2", 240);
    draw_service_box(&mut svg, "Prometheus", "scrapes every 2s", 336, 154, "#1f2a36");
    draw_service_box(&mut svg, "Grafana", "preloaded dashboard", 572, 154, "#2d2438");
    svg.append(rounded_box(780, 96, 130, 198, 16, "#11161d", true).as_str());
    svg.append(label(802, 126, "#e6e1d9", 14, true, "panels").as_str());
    svg.append(label(802, 154, "#8b949e", 12, false, "role map").as_str());
    svg.append(label(802, 180, "#8b949e", 12, false, "term").as_str());
    svg.append(label(802, 206, "#8b949e", 12, false, "commit index").as_str());
    svg.append(label(802, 232, "#8b949e", 12, false, "replication lag").as_str());
    svg.append(label(802, 258, "#8b949e", 12, false, "compactions").as_str());
    draw_obs_arrow(&mut svg, 198, 126, 336, 178, "/metrics");
    draw_obs_arrow(&mut svg, 198, 196, 336, 196, "/metrics");
    draw_obs_arrow(&mut svg, 198, 266, 336, 214, "/metrics");
    draw_obs_arrow(&mut svg, 506, 196, 572, 196, "PromQL");
    draw_obs_arrow(&mut svg, 742, 196, 780, 196, "");
    svg.append("<path d=\"M198 306 C320 342 555 342 702 248\" fill=\"none\" stroke=\"#8b949e\" stroke-width=\"2\" stroke-dasharray=\"6 6\"/>\n");
    svg.append(label(52, 342, "#8b949e", 12, false, "logs stay local by default · set RAFT_KV_LOG=json for structured JSON").as_str());
    finish_svg(svg)
}

} // verus!
