//! The metrics of a node.
use crate::numbers::decimal_text;
use crate::text::same_text;
use vstd::prelude::*;
use vstd::string::*;

verus! {

/// The error of a failed registration or encoding in `prometheus`.
#[verifier::external_type_specification]
#[verifier::external_body]
pub struct ExPrometheusError(prometheus::Error);

/// What `prometheus` makes of a gauge.
pub uninterp spec fn gauge_rendering(label: Seq<char>, node: Seq<char>, name: Seq<char>, help: Seq<char>, value: i64) -> Option<Seq<char>>;

/// What `prometheus` makes of a counter.
pub uninterp spec fn counter_rendering(label: Seq<char>, node: Seq<char>, name: Seq<char>, help: Seq<char>, value: u64) -> Option<Seq<char>>;

/// What `prometheus` makes of gauges that a label tells apart.
pub uninterp spec fn gauges_rendering(label: Seq<char>, node: Seq<char>, name: Seq<char>, help: Seq<char>, dimension: Seq<char>, samples: Seq<(Seq<char>, i64)>) -> Option<Seq<char>>;

/// The content of labelled samples.
pub open spec fn samples_view(samples: Seq<(String, i64)>) -> Seq<(Seq<char>, i64)> {
    samples.map_values(|sample: (String, i64)| (sample.0@, sample.1))
}

/// The text that came out, if any did.
pub open spec fn text_or_none(text: Result<String, prometheus::Error>) -> Option<Seq<char>> {
    match text {
        Ok(text) => Some(text@),
        Err(_) => None,
    }
}

/// Registers one `prometheus::IntGauge` in a `prometheus::Registry` of its own
/// with a common label, sets it, and encodes what `Registry::gather` gives with
/// `prometheus::TextEncoder`. Claims that the text depends on the arguments
/// alone.
#[verifier::external_body]
fn gauge_text(label: &str, node: &str, name: &str, help: &str, value: i64) -> (text: Result<
    String,
    prometheus::Error,
>)
    ensures
        text_or_none(text) == gauge_rendering(label@, node@, name@, help@, value),
{
    let labels = [(label.to_string(), node.to_string())].into();
    let registry = prometheus::Registry::new_custom(None, Some(labels))?;
    let gauge = prometheus::IntGauge::with_opts(prometheus::Opts::new(name, help))?;
    registry.register(Box::new(gauge.clone()))?;
    gauge.set(value);
    prometheus::TextEncoder::new().encode_to_string(&registry.gather())
}

/// Registers one `prometheus::IntCounter` in a `prometheus::Registry` of its own
/// with a common label, raises it by `IntCounter::inc_by` from zero to a value,
/// and encodes what `Registry::gather` gives with `prometheus::TextEncoder`.
/// Claims that the text depends on the arguments alone.
#[verifier::external_body]
fn counter_text(label: &str, node: &str, name: &str, help: &str, value: u64) -> (text: Result<
    String,
    prometheus::Error,
>)
    ensures
        text_or_none(text) == counter_rendering(label@, node@, name@, help@, value),
{
    let labels = [(label.to_string(), node.to_string())].into();
    let registry = prometheus::Registry::new_custom(None, Some(labels))?;
    let counter = prometheus::IntCounter::with_opts(prometheus::Opts::new(name, help))?;
    registry.register(Box::new(counter.clone()))?;
    counter.inc_by(value);
    prometheus::TextEncoder::new().encode_to_string(&registry.gather())
}

/// Registers one `prometheus::IntGaugeVec` with one label in a
/// `prometheus::Registry` of its own with a common label, sets the gauge of each
/// label value in turn, and encodes what `Registry::gather` gives with
/// `prometheus::TextEncoder`. Claims that the text depends on the arguments
/// alone: the registry hands the gauges out in the order of their label values.
#[verifier::external_body]
fn gauges_text(
    label: &str,
    node: &str,
    name: &str,
    help: &str,
    dimension: &str,
    samples: &Vec<(String, i64)>,
) -> (text: Result<String, prometheus::Error>)
    ensures
        text_or_none(text) == gauges_rendering(
            label@,
            node@,
            name@,
            help@,
            dimension@,
            samples_view(samples@),
        ),
{
    let labels = [(label.to_string(), node.to_string())].into();
    let registry = prometheus::Registry::new_custom(None, Some(labels))?;
    let opts = prometheus::Opts::new(name, help);
    let gauges = prometheus::IntGaugeVec::new(opts, &[dimension])?;
    registry.register(Box::new(gauges.clone()))?;
    for (value, number) in samples {
        gauges.with_label_values(&[value.as_str()]).set(*number);
    }
    prometheus::TextEncoder::new().encode_to_string(&registry.gather())
}

/// Why metrics could not be rendered.
#[derive(Clone, Copy, Debug, PartialEq, Eq, Structural)]
pub enum MetricsError {
    /// A metric could not be registered or encoded.
    Rendering,
}

/// The largest value that a gauge can show stands for all above it.
pub open spec fn saturated(value: int) -> i64 {
    if value <= i64::MAX {
        value as i64
    } else {
        i64::MAX
    }
}

fn saturating_i64(value: u64) -> (shown: i64)
    ensures
        shown == saturated(value as int),
{
    if value <= i64::MAX as u64 {
        value as i64
    } else {
        i64::MAX
    }
}

/// What the metrics of a node show.
#[verifier::ext_equal]
pub struct MetricsState {
    pub node_id: usize,
    pub term: i64,
    /// For each of the roles whether it is the node's, once that is known.
    pub roles: Seq<(Seq<char>, i64)>,
    pub commit_index: i64,
    pub last_applied: i64,
    pub elections: u64,
    pub leader_changes: u64,
    pub writes: u64,
    /// How far each follower is behind, in the order in which they came up.
    pub lags: Seq<(usize, i64)>,
    pub memtable_bytes: i64,
    pub sstables: i64,
    pub compactions: u64,
}

/// One for the role that is the node's, zero for the others.
pub open spec fn one_hot(role: Seq<char>) -> Seq<(Seq<char>, i64)> {
    seq![
        ("follower"@, flag("follower"@ == role)),
        ("candidate"@, flag("candidate"@ == role)),
        ("leader"@, flag("leader"@ == role)),
    ]
}

/// One for true, zero for false.
pub open spec fn flag(is: bool) -> i64 {
    if is {
        1
    } else {
        0
    }
}

/// The first place of a follower among lags.
pub open spec fn place_of(lags: Seq<(usize, i64)>, follower: usize) -> int
    decreases lags.len(),
{
    if lags.len() == 0 || lags[0].0 == follower {
        0
    } else {
        1 + place_of(lags.drop_first(), follower)
    }
}

/// The lags with that of one follower changed or added.
pub open spec fn with_lag(lags: Seq<(usize, i64)>, follower: usize, lag: i64) -> Seq<(usize, i64)> {
    let place = place_of(lags, follower);
    if place < lags.len() {
        lags.update(place, (follower, lag))
    } else {
        lags.push((follower, lag))
    }
}

/// All texts one behind the other, if none is missing.
pub open spec fn joined(texts: Seq<Option<Seq<char>>>) -> Option<Seq<char>>
    decreases texts.len(),
{
    if texts.len() == 0 {
        Some(Seq::empty())
    } else {
        match (joined(texts.drop_last()), texts.last()) {
            (Some(before), Some(text)) => Some(before + text),
            _ => None,
        }
    }
}

impl MetricsState {
    /// What shows before anything has happened.
    pub open spec fn initial(node_id: usize) -> MetricsState {
        MetricsState {
            node_id,
            term: 0,
            roles: Seq::empty(),
            commit_index: 0,
            last_applied: 0,
            elections: 0,
            leader_changes: 0,
            writes: 0,
            lags: Seq::empty(),
            memtable_bytes: 0,
            sstables: 0,
            compactions: 0,
        }
    }

    /// Showing a node's state.
    pub open spec fn with_raft_state(
        self,
        term: u64,
        role: Seq<char>,
        commit_index: usize,
        last_applied: usize,
    ) -> MetricsState {
        MetricsState {
            term: saturated(term as int),
            roles: one_hot(role),
            commit_index: saturated(commit_index as int),
            last_applied: saturated(last_applied as int),
            ..self
        }
    }

    /// Showing how far a follower is behind.
    pub open spec fn with_replication_lag(self, follower: usize, lag: usize) -> MetricsState {
        MetricsState { lags: with_lag(self.lags, follower, saturated(lag as int)), ..self }
    }

    /// Showing the state of a node's tree.
    pub open spec fn with_lsm_state(self, memtable_bytes: usize, sstable_count: usize)
        -> MetricsState {
        MetricsState {
            memtable_bytes: saturated(memtable_bytes as int),
            sstables: saturated(sstable_count as int),
            ..self
        }
    }

    /// Raising the count of compactions to a total.
    pub open spec fn with_compactions(self, total: usize) -> MetricsState {
        MetricsState {
            compactions: if total > self.compactions {
                total as u64
            } else {
                self.compactions
            },
            ..self
        }
    }

    /// One more election.
    pub open spec fn with_election(self) -> MetricsState {
        MetricsState { elections: self.elections.wrapping_add(1), ..self }
    }

    /// One more change of leader.
    pub open spec fn with_leader_change(self) -> MetricsState {
        MetricsState { leader_changes: self.leader_changes.wrapping_add(1), ..self }
    }

    /// One more write.
    pub open spec fn with_write(self) -> MetricsState {
        MetricsState { writes: self.writes.wrapping_add(1), ..self }
    }

    /// The count of compactions never goes down.
    pub proof fn compactions_only_grow(self, total: usize)
        ensures
            self.with_compactions(total).compactions >= self.compactions,
            self.with_compactions(total).compactions >= total,
    {
    }

    /// Of the roles that show, exactly the node's own shows one.
    pub proof fn one_role_shows(self, term: u64, role: crate::types::Role, commit: usize, applied: usize)
        ensures
            ({
                let shown = self.with_raft_state(
                    term,
                    crate::node::role_name(role),
                    commit,
                    applied,
                ).roles;
                &&& shown.len() == 3
                &&& forall|i: int|
                    0 <= i < 3 ==> (#[trigger] shown[i]).1 == flag(
                        shown[i].0 == crate::node::role_name(role),
                    )
                &&& shown[0].1 + shown[1].1 + shown[2].1 == 1
            }),
    {
        reveal_strlit("follower");
        reveal_strlit("candidate");
        reveal_strlit("leader");
        assert("follower"@[0] != "candidate"@[0]);
        assert("follower"@[0] != "leader"@[0]);
        assert("candidate"@[0] != "leader"@[0]);
    }

    pub open spec fn gauge(self, name: Seq<char>, help: Seq<char>, value: i64) -> Option<Seq<char>> {
        gauge_rendering("node"@, crate::numbers::decimal(self.node_id as nat), name, help, value)
    }

    pub open spec fn counter(self, name: Seq<char>, help: Seq<char>, value: u64) -> Option<
        Seq<char>,
    > {
        counter_rendering("node"@, crate::numbers::decimal(self.node_id as nat), name, help, value)
    }

    /// The lags under the followers' ids as text.
    pub open spec fn lag_samples(self) -> Seq<(Seq<char>, i64)> {
        self.lags.map_values(
            |lag: (usize, i64)| (crate::numbers::decimal(lag.0 as nat), lag.1),
        )
    }

    /// The texts of all metrics in the order of their names; that of the write
    /// latency is given.
    pub open spec fn texts(self, latency: Seq<char>) -> Seq<Option<Seq<char>>> {
        let node = crate::numbers::decimal(self.node_id as nat);
        seq![
            self.counter(
                "lsm_compactions_total"@,
                "Total LSM compactions completed."@,
                self.compactions,
            ),
            self.gauge(
                "lsm_memtable_size_bytes"@,
                "Current LSM memtable size in bytes."@,
                self.memtable_bytes,
            ),
            self.gauge(
                "lsm_sstable_count"@,
                "Current number of LSM SSTables."@,
                self.sstables,
            ),
            self.gauge(
                "raft_commit_index"@,
                "Highest committed Raft log index."@,
                self.commit_index,
            ),
            self.counter(
                "raft_elections_total"@,
                "Total elections started by this node."@,
                self.elections,
            ),
            self.gauge(
                "raft_last_applied"@,
                "Highest applied Raft log index."@,
                self.last_applied,
            ),
            self.counter(
                "raft_leader_changes_total"@,
                "Total observed leader changes."@,
                self.leader_changes,
            ),
            gauges_rendering(
                "node"@,
                node,
                "raft_replication_lag"@,
                "Leader-side commit_index minus follower match_index."@,
                "follower"@,
                self.lag_samples(),
            ),
            gauges_rendering(
                "node"@,
                node,
                "raft_state"@,
                "Current Raft role as one-hot gauges."@,
                "role"@,
                self.roles,
            ),
            self.gauge("raft_term"@, "Current Raft term."@, self.term),
            Some(latency),
            self.counter(
                "raft_writes_total"@,
                "Client writes whose handlers observed leader-side commit and apply."@,
                self.writes,
            ),
        ]
    }
}

/// The metrics of a node. The histogram of write latencies is kept by the caller,
/// who hands in its text when the metrics are rendered.
#[derive(Debug)]
pub struct NodeMetrics {
    node_id: usize,
    term: i64,
    roles: Vec<(String, i64)>,
    commit_index: i64,
    last_applied: i64,
    elections: u64,
    leader_changes: u64,
    writes: u64,
    lags: Vec<(usize, i64)>,
    memtable_bytes: i64,
    sstables: i64,
    compactions: u64,
}

impl View for NodeMetrics {
    type V = MetricsState;

    closed spec fn view(&self) -> MetricsState {
        MetricsState {
            node_id: self.node_id,
            term: self.term,
            roles: samples_view(self.roles@),
            commit_index: self.commit_index,
            last_applied: self.last_applied,
            elections: self.elections,
            leader_changes: self.leader_changes,
            writes: self.writes,
            lags: self.lags@,
            memtable_bytes: self.memtable_bytes,
            sstables: self.sstables,
            compactions: self.compactions,
        }
    }
}

fn flag_of(is: bool) -> (shown: i64)
    ensures
        shown == flag(is),
{
    if is {
        1
    } else {
        0
    }
}

impl NodeMetrics {
    pub fn new(node_id: usize) -> (metrics: Self)
        ensures
            metrics@ == MetricsState::initial(node_id),
    {
        let metrics = NodeMetrics {
            node_id,
            term: 0,
            roles: Vec::new(),
            commit_index: 0,
            last_applied: 0,
            elections: 0,
            leader_changes: 0,
            writes: 0,
            lags: Vec::new(),
            memtable_bytes: 0,
            sstables: 0,
            compactions: 0,
        };
        assert(metrics@ =~= MetricsState::initial(node_id)) by {
            assert(samples_view(metrics.roles@) =~= Seq::empty());
        }
        metrics
    }

    pub fn set_raft_state(
        &mut self,
        term: u64,
        role: &str,
        commit_index: usize,
        last_applied: usize,
    )
        ensures
            final(self)@ == old(self)@.with_raft_state(term, role@, commit_index, last_applied),
    {
        self.term = saturating_i64(term);
        let mut roles: Vec<(String, i64)> = Vec::new();
        roles.push((String::from_str("follower"), flag_of(same_text("follower", role))));
        roles.push((String::from_str("candidate"), flag_of(same_text("candidate", role))));
        roles.push((String::from_str("leader"), flag_of(same_text("leader", role))));
        assert(samples_view(roles@) =~= one_hot(role@));
        self.roles = roles;
        self.commit_index = saturating_i64(commit_index as u64);
        self.last_applied = saturating_i64(last_applied as u64);
    }

    pub fn set_replication_lag(&mut self, follower: usize, lag: usize)
        ensures
            final(self)@ == old(self)@.with_replication_lag(follower, lag),
    {
        let shown: i64 = saturating_i64(lag as u64);
        let ghost before = self.lags@;
        let mut place: usize = 0;
        assert(before.skip(0) =~= before);
        while place < self.lags.len() && self.lags[place].0 != follower
            invariant
                place <= self.lags@.len(),
                self.lags@ == before,
                place_of(before, follower) == place + place_of(
                    before.skip(place as int),
                    follower,
                ),
            decreases self.lags@.len() - place,
        {
            assert(before.skip(place as int).drop_first() =~= before.skip(place + 1));
            place = place + 1;
        }
        if place < self.lags.len() {
            self.lags.set(place, (follower, shown));
        } else {
            self.lags.push((follower, shown));
        }
    }

    pub fn set_lsm_state(&mut self, memtable_bytes: usize, sstable_count: usize)
        ensures
            final(self)@ == old(self)@.with_lsm_state(memtable_bytes, sstable_count),
    {
        self.memtable_bytes = saturating_i64(memtable_bytes as u64);
        self.sstables = saturating_i64(sstable_count as u64);
    }

    /// Raises the count of compactions to a total; a lower total changes nothing.
    pub fn set_lsm_compactions_total(&mut self, total: usize)
        ensures
            final(self)@ == old(self)@.with_compactions(total),
    {
        let target: u64 = total as u64;
        if target > self.compactions {
            self.compactions = target;
        }
    }

    pub fn inc_elections(&mut self)
        ensures
            final(self)@ == old(self)@.with_election(),
    {
        self.elections = self.elections.wrapping_add(1);
    }

    pub fn inc_leader_changes(&mut self)
        ensures
            final(self)@ == old(self)@.with_leader_change(),
    {
        self.leader_changes = self.leader_changes.wrapping_add(1);
    }

    /// Counts a write; its latency goes into the caller's histogram.
    pub fn observe_write(&mut self)
        ensures
            final(self)@ == old(self)@.with_write(),
    {
        self.writes = self.writes.wrapping_add(1);
    }

    /// The text of all metrics, given that of the write latency.
    pub fn render(&self, latency: &str) -> (text: Result<String, MetricsError>)
        ensures
            joined(self@.texts(latency@)) == match text {
                Ok(text) => Some(text@),
                Err(_) => None,
            },
    {
        let node = decimal_text(self.node_id as u64);
        let node = node.as_str();
        let lags = self.lag_samples();
        let mut texts: Vec<Option<String>> = Vec::new();
        texts.push(
            ok_text(
                counter_text(
                    "node",
                    node,
                    "lsm_compactions_total",
                    "Total LSM compactions completed.",
                    self.compactions,
                ),
            ),
        );
        texts.push(
            ok_text(
                gauge_text(
                    "node",
                    node,
                    "lsm_memtable_size_bytes",
                    "Current LSM memtable size in bytes.",
                    self.memtable_bytes,
                ),
            ),
        );
        texts.push(
            ok_text(
                gauge_text(
                    "node",
                    node,
                    "lsm_sstable_count",
                    "Current number of LSM SSTables.",
                    self.sstables,
                ),
            ),
        );
        texts.push(
            ok_text(
                gauge_text(
                    "node",
                    node,
                    "raft_commit_index",
                    "Highest committed Raft log index.",
                    self.commit_index,
                ),
            ),
        );
        texts.push(
            ok_text(
                counter_text(
                    "node",
                    node,
                    "raft_elections_total",
                    "Total elections started by this node.",
                    self.elections,
                ),
            ),
        );
        texts.push(
            ok_text(
                gauge_text(
                    "node",
                    node,
                    "raft_last_applied",
                    "Highest applied Raft log index.",
                    self.last_applied,
                ),
            ),
        );
        texts.push(
            ok_text(
                counter_text(
                    "node",
                    node,
                    "raft_leader_changes_total",
                    "Total observed leader changes.",
                    self.leader_changes,
                ),
            ),
        );
        texts.push(
            ok_text(
                gauges_text(
                    "node",
                    node,
                    "raft_replication_lag",
                    "Leader-side commit_index minus follower match_index.",
                    "follower",
                    &lags,
                ),
            ),
        );
        texts.push(
            ok_text(
                gauges_text(
                    "node",
                    node,
                    "raft_state",
                    "Current Raft role as one-hot gauges.",
                    "role",
                    &self.roles,
                ),
            ),
        );
        texts.push(
            ok_text(gauge_text("node", node, "raft_term", "Current Raft term.", self.term)),
        );
        texts.push(Some(String::from_str(latency)));
        texts.push(
            ok_text(
                counter_text(
                    "node",
                    node,
                    "raft_writes_total",
                    "Client writes whose handlers observed leader-side commit and apply.",
                    self.writes,
                ),
            ),
        );
        assert(texts_view(texts@) =~= self@.texts(latency@));
        join_texts(&texts)
    }

    fn lag_samples(&self) -> (samples: Vec<(String, i64)>)
        ensures
            samples_view(samples@) == self@.lag_samples(),
    {
        let mut samples: Vec<(String, i64)> = Vec::new();
        let mut i: usize = 0;
        while i < self.lags.len()
            invariant
                i <= self.lags@.len(),
                samples@.len() == i,
                forall|j: int|
                    0 <= j < i ==> (#[trigger] samples@[j]).0@ == crate::numbers::decimal(
                        self.lags@[j].0 as nat,
                    ) && samples@[j].1 == self.lags@[j].1,
            decreases self.lags@.len() - i,
        {
            samples.push((decimal_text(self.lags[i].0 as u64), self.lags[i].1));
            i = i + 1;
        }
        assert(samples_view(samples@) =~= self@.lag_samples());
        samples
    }
}

/// The content of texts that may be missing.
pub open spec fn texts_view(texts: Seq<Option<String>>) -> Seq<Option<Seq<char>>> {
    texts.map_values(|text: Option<String>| crate::node::text_of(text))
}

fn ok_text(text: Result<String, prometheus::Error>) -> (some: Option<String>)
    ensures
        crate::node::text_of(some) == text_or_none(text),
{
    match text {
        Ok(text) => Some(text),
        Err(_) => None,
    }
}

/// Puts texts one behind the other.
pub fn join_texts(texts: &Vec<Option<String>>) -> (text: Result<String, MetricsError>)
    ensures
        joined(texts_view(texts@)) == match text {
            Ok(text) => Some(text@),
            Err(_) => None,
        },
{
    let ghost views = texts_view(texts@);
    let mut text = String::new();
    let mut i: usize = 0;
    assert(views.take(0) =~= Seq::empty());
    while i < texts.len()
        invariant
            i <= texts@.len(),
            views == texts_view(texts@),
            joined(views.take(i as int)) == Some(text@),
        decreases texts@.len() - i,
    {
        assert(views.take(i + 1).drop_last() =~= views.take(i as int));
        assert(views[i as int] == crate::node::text_of(texts@[i as int]));
        match &texts[i] {
            Some(next) => {
                text.append(next.as_str());
            },
            None => {
                proof {
                    gap_stays(views, i + 1);
                }
                return Err(MetricsError::Rendering);
            },
        }
        i = i + 1;
    }
    assert(views.take(views.len() as int) =~= views);
    Ok(text)
}

proof fn gap_stays(texts: Seq<Option<Seq<char>>>, n: int)
    requires
        0 <= n <= texts.len(),
        joined(texts.take(n)) is None,
    ensures
        joined(texts) is None,
    decreases texts.len() - n,
{
    if n == texts.len() {
        assert(texts.take(n) =~= texts);
    } else {
        assert(texts.take(n + 1).drop_last() =~= texts.take(n));
        gap_stays(texts, n + 1);
    }
}

} // verus!
