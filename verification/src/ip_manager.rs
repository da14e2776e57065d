//! The upstream node pool: a set of proxy endpoints keyed by address, each
//! with cumulative statistics and an administrative/health state. One entry
//! owns everything known about a node, so removing it purges the node
//! atomically.

use vstd::prelude::*;
use vstd::string::StringExecFns;
use crate::bytes::utf8_of;
use crate::config::IPPoolConfig;
use crate::utils::{endpoint_utf8, make_endpoint, random_below};

verus! {

/// How many samples a node needs before its health is classified.
pub const HEALTH_MIN_SAMPLES: u64 = 5;

#[derive(Debug, Clone, Copy, PartialEq, Eq, Structural)]
pub enum RotationStrategy {
    Random,
    RoundRobin,
    LeastUsed,
    PerformanceBased,
}

impl RotationStrategy {
    /// The strategy a configuration tag names; unknown tags fall back to
    /// round-robin.
    pub open spec fn of_tag(tag: Seq<char>) -> RotationStrategy {
        if tag == "random"@ {
            RotationStrategy::Random
        } else if tag == "leastused"@ {
            RotationStrategy::LeastUsed
        } else if tag == "performance"@ {
            RotationStrategy::PerformanceBased
        } else {
            RotationStrategy::RoundRobin
        }
    }

    /// Parse a rotation-strategy tag.
    pub fn from_tag(tag: &String) -> (r: RotationStrategy)
        ensures
            r == RotationStrategy::of_tag(tag@),
    {
        if *tag == String::from_str("random") {
            RotationStrategy::Random
        } else if *tag == String::from_str("leastused") {
            RotationStrategy::LeastUsed
        } else if *tag == String::from_str("performance") {
            RotationStrategy::PerformanceBased
        } else {
            RotationStrategy::RoundRobin
        }
    }
}

#[derive(Debug, Clone, Copy, PartialEq, Eq, Structural)]
pub enum HealthStatus {
    Healthy,
    Degraded,
    Unhealthy,
    Unknown,
}

/// An upstream proxy endpoint, keyed uniquely by `address`.
#[derive(Debug)]
pub struct IPInfo {
    pub address: String,
    pub port: u16,
    pub country: Option<String>,
    pub isp: Option<String>,
}

fn clone_opt_string(o: &Option<String>) -> (r: Option<String>)
    ensures
        r == *o,
{
    match o {
        Some(s) => Some(s.clone()),
        None => None,
    }
}

impl Clone for IPInfo {
    fn clone(&self) -> (res: Self)
        ensures
            res == *self,
    {
        IPInfo {
            address: self.address.clone(),
            port: self.port,
            country: clone_opt_string(&self.country),
            isp: clone_opt_string(&self.isp),
        }
    }
}

#[derive(Debug, Clone)]
pub struct AddIPRequest {
    pub address: String,
    pub port: u16,
    pub country: Option<String>,
    pub isp: Option<String>,
    pub enabled: Option<bool>,
}

#[derive(Debug, Clone)]
pub struct UpdateIPRequest {
    pub address: String,
    pub port: Option<u16>,
    pub country: Option<String>,
    pub isp: Option<String>,
    pub enabled: Option<bool>,
}

/// A read-only projection of one node's statistics and state.
#[derive(Debug, Clone, Copy, PartialEq, Eq, Structural)]
pub struct IPStatsSnapshot {
    pub total_uses: u64,
    pub total_failures: u64,
    pub avg_latency_ms: u64,
    pub enabled: bool,
    pub health_status: HealthStatus,
    pub use_count: u64,
    pub success_count: u64,
    pub failure_count: u64,
    pub latency_ms: u64,
}

/// Running aggregates over every attempt through a node. Kept apart from
/// `NodeState`: the average integrates all attempts, while
/// `NodeState::latency_ms` reflects the last success.
#[derive(Debug, Clone, Copy, PartialEq, Eq, Structural)]
pub struct NodeStats {
    pub total_uses: u64,
    pub total_failures: u64,
    pub avg_latency_ms: u64,
    pub last_failure_ms: Option<u64>,
}

/// Mutable per-node state: the admin switch, classified health, and the
/// outcome counters.
#[derive(Debug, Clone, Copy, PartialEq, Eq, Structural)]
pub struct NodeState {
    pub enabled: bool,
    pub health_status: HealthStatus,
    pub use_count: u64,
    pub success_count: u64,
    pub failure_count: u64,
    pub latency_ms: u64,
    pub last_used_ms: u64,
}

impl NodeState {
    /// A fresh node: enabled, health unknown, no samples, 100 ms assumed
    /// latency.
    pub fn new() -> (r: NodeState)
        ensures
            r == (NodeState {
                enabled: true,
                health_status: HealthStatus::Unknown,
                use_count: 0,
                success_count: 0,
                failure_count: 0,
                latency_ms: 100,
                last_used_ms: 0,
            }),
    {
        NodeState {
            enabled: true,
            health_status: HealthStatus::Unknown,
            use_count: 0,
            success_count: 0,
            failure_count: 0,
            latency_ms: 100,
            last_used_ms: 0,
        }
    }
}

/// Everything the pool knows about one endpoint.
#[derive(Debug)]
pub struct Node {
    pub info: IPInfo,
    pub stats: NodeStats,
    pub state: NodeState,
}

/// A node can be handed out when its admin switch is on and it is not
/// classified unhealthy.
pub open spec fn node_available(n: Node) -> bool {
    n.state.enabled && n.state.health_status != HealthStatus::Unhealthy
}

/// Health from the outcome counters: failure rate at or above 0.6 is
/// unhealthy, at or above 0.3 degraded, below that healthy.
pub open spec fn classify_health(success: u64, failure: u64) -> HealthStatus {
    if failure * 10 >= (success + failure) * 6 {
        HealthStatus::Unhealthy
    } else if failure * 10 >= (success + failure) * 3 {
        HealthStatus::Degraded
    } else {
        HealthStatus::Healthy
    }
}

/// Increment that stops at the numeric ceiling instead of wrapping.
pub open spec fn inc_sat(x: u64) -> u64 {
    if x < u64::MAX {
        (x + 1) as u64
    } else {
        x
    }
}

/// The running mean after folding one more sample into an average over
/// `n` attempts (`n` counts the new sample).
pub open spec fn fold_mean(old_avg: u64, sample: u64, n: u64) -> int
    recommends
        n > 0,
{
    (old_avg * (n - 1) + sample) / (n as int)
}

pub struct IPManager {
    pub nodes: Vec<Node>,
    pub current_index: usize,
    pub strategy: RotationStrategy,
    pub health_check_interval_secs: u64,
}

impl IPManager {
    /// Key uniqueness and the counter invariant: every node's recorded
    /// outcomes never outnumber its attempts.
    pub open spec fn wf(&self) -> bool {
        &&& forall|i: int, j: int|
            0 <= i < j < self.nodes@.len() ==> #[trigger] self.nodes@[i].info.address@
                != #[trigger] self.nodes@[j].info.address@
        &&& forall|i: int|
            0 <= i < self.nodes@.len() ==> (#[trigger] self.nodes@[i].state.success_count
                + self.nodes@[i].state.failure_count) <= self.nodes@[i].state.use_count
    }

    /// Whether some node has this address.
    pub open spec fn has_addr(&self, a: Seq<char>) -> bool {
        exists|i: int| 0 <= i < self.nodes@.len() && #[trigger] self.nodes@[i].info.address@ == a
    }

    /// Build a pool from configuration: one fresh node per configured
    /// endpoint, in order; duplicate addresses beyond the first are dropped
    /// so that the key invariant holds.
    pub fn new(config: IPPoolConfig) -> (r: IPManager)
        ensures
            r.wf(),
            r.current_index == 0,
            r.strategy == RotationStrategy::of_tag(config.strategy@),
            r.nodes@.len() <= config.ips@.len(),
            forall|i: int|
                0 <= i < r.nodes@.len() ==> (#[trigger] r.nodes@[i].state) == NodeState::spec_fresh()
                    && r.nodes@[i].stats == NodeStats::spec_fresh(),
            forall|a: Seq<char>|
                r.has_addr(a) <==> exists|i: int|
                    0 <= i < config.ips@.len() && (#[trigger] config.ips@[i].address@) == a,
    {
        let strategy = RotationStrategy::from_tag(&config.strategy);
        let mut mgr = IPManager {
            nodes: Vec::new(),
            current_index: 0,
            strategy,
            health_check_interval_secs: config.health_check_interval_secs,
        };
        let ips = config.ips;
        let mut k: usize = 0;
        while k < ips.len()
            invariant
                k <= ips@.len(),
                mgr.wf(),
                mgr.nodes@.len() <= k,
                mgr.strategy == strategy,
                mgr.current_index == 0,
                forall|i: int|
                    0 <= i < mgr.nodes@.len() ==> (#[trigger] mgr.nodes@[i].state)
                        == NodeState::spec_fresh() && mgr.nodes@[i].stats == NodeStats::spec_fresh(),
                forall|a: Seq<char>|
                    mgr.has_addr(a) <==> exists|i: int|
                        0 <= i < k && (#[trigger] ips@[i].address@) == a,
            decreases ips@.len() - k,
        {
            let ip = &ips[k];
            let req = AddIPRequest {
                address: ip.address.clone(),
                port: ip.port,
                country: clone_opt_string(&ip.country),
                isp: clone_opt_string(&ip.isp),
                enabled: None,
            };
            mgr.add_node(req);
            k += 1;
        }
        mgr
    }

    /// Locate a node by address: the index of the entry carrying it.
    fn find_node(&self, address: &str) -> (r: Option<usize>)
        ensures
            r.is_some() <==> self.has_addr(address@),
            r matches Some(i) ==> i < self.nodes@.len() && self.nodes@[i as int].info.address@
                == address@,
    {
        let key = address.to_owned();
        let mut i: usize = 0;
        while i < self.nodes.len()
            invariant
                key@ == address@,
                i <= self.nodes@.len(),
                forall|j: int| 0 <= j < i ==> #[trigger] self.nodes@[j].info.address@ != address@,
            decreases self.nodes@.len() - i,
        {
            if self.nodes[i].info.address == key {
                return Some(i);
            }
            i += 1;
        }
        None
    }

    /// Add a node if its address is not yet present; reports whether it was
    /// inserted.
    pub fn add_node(&mut self, req: AddIPRequest) -> (inserted: bool)
        requires
            old(self).wf(),
        ensures
            final(self).wf(),
            inserted <==> !old(self).has_addr(req.address@),
            !inserted ==> *final(self) == *old(self),
            inserted ==> final(self).nodes@.len() == old(self).nodes@.len() + 1
                && final(self).nodes@ == old(self).nodes@.push(final(self).nodes@.last())
                && final(self).nodes@.last().info.address@ == req.address@
                && final(self).nodes@.last().info.port == req.port
                && final(self).nodes@.last().info.country == req.country
                && final(self).nodes@.last().info.isp == req.isp
                && final(self).nodes@.last().state == NodeState::spec_fresh()
                && final(self).nodes@.last().stats == NodeStats::spec_fresh(),
            final(self).current_index == old(self).current_index,
            final(self).strategy == old(self).strategy,
            forall|a: Seq<char>|
                #[trigger] final(self).has_addr(a) <==> (old(self).has_addr(a) || a
                    == req.address@),
    {
        if self.find_node(&req.address).is_some() {
            assert(self.nodes@ =~= old(self).nodes@);
            return false;
        }
        let node = Node {
            info: IPInfo {
                address: req.address,
                port: req.port,
                country: req.country,
                isp: req.isp,
            },
            stats: NodeStats::fresh(),
            state: NodeState::new(),
        };
        self.nodes.push(node);
        proof {
            assert forall|a: Seq<char>| #[trigger] self.has_addr(a) implies (old(self).has_addr(a)
                || a == self.nodes@.last().info.address@) by {
                let i = choose|i: int|
                    0 <= i < self.nodes@.len() && #[trigger] self.nodes@[i].info.address@ == a;
                if i < self.nodes@.len() - 1 {
                    assert(old(self).nodes@[i].info.address@ == a);
                }
            }
            assert forall|a: Seq<char>| (old(self).has_addr(a) || a
                == self.nodes@.last().info.address@) implies #[trigger] self.has_addr(a) by {
                if old(self).has_addr(a) {
                    let i = choose|i: int|
                        0 <= i < old(self).nodes@.len()
                            && #[trigger] old(self).nodes@[i].info.address@ == a;
                    assert(self.nodes@[i].info.address@ == a);
                } else {
                    assert(self.nodes@[self.nodes@.len() - 1].info.address@ == a);
                }
            }
        }
        true
    }

    /// Remove the node with this address, with its statistics and state;
    /// reports whether anything was removed.
    pub fn remove_node(&mut self, address: &str) -> (removed: bool)
        requires
            old(self).wf(),
        ensures
            final(self).wf(),
            removed <==> old(self).has_addr(address@),
            !removed ==> *final(self) == *old(self),
            removed ==> exists|i: int|
                0 <= i < old(self).nodes@.len() && old(self).nodes@[i].info.address@ == address@
                    && final(self).nodes@ == old(self).nodes@.remove(i),
            !final(self).has_addr(address@),
            final(self).strategy == old(self).strategy,
    {
        match self.find_node(address) {
            Some(i) => {
                let ghost prev = self.nodes@;
                self.nodes.remove(i);
                proof {
                    assert(self.nodes@ =~= prev.remove(i as int));
                    assert forall|p: int|
                        0 <= p < self.nodes@.len() implies #[trigger] self.nodes@[p] == (if p < i {
                        prev[p]
                    } else {
                        prev[p + 1]
                    }) by {}
                    assert(!self.has_addr(address@)) by {
                        if self.has_addr(address@) {
                            let j = choose|j: int|
                                0 <= j < self.nodes@.len()
                                    && #[trigger] self.nodes@[j].info.address@ == address@;
                            if j < i {
                                assert(prev[j].info.address@ == prev[i as int].info.address@);
                            } else {
                                assert(prev[j + 1].info.address@ == prev[i as int].info.address@);
                            }
                        }
                    }
                }
                true
            },
            None => {
                assert(self.nodes@ =~= old(self).nodes@);
                false
            },
        }
    }
}

/// The node after one attempt through it has been recorded: the aggregates
/// always count the attempt; the outcome bumps the matching counter (held
/// back only at the numeric ceiling, so that outcomes never outnumber
/// attempts); a success refreshes the last-seen latency; and once the node
/// has `HEALTH_MIN_SAMPLES` outcomes its health is re-classified.
pub open spec fn spec_record(n: Node, success: bool, latency_ms: u64, now_ms: u64) -> Node {
    let total = inc_sat(n.stats.total_uses);
    let stats1 = NodeStats {
        total_uses: total,
        total_failures: if success {
            n.stats.total_failures
        } else {
            inc_sat(n.stats.total_failures)
        },
        avg_latency_ms: fold_mean(n.stats.avg_latency_ms, latency_ms, total) as u64,
        last_failure_ms: if success {
            n.stats.last_failure_ms
        } else {
            Some(now_ms)
        },
    };
    let use1 = inc_sat(n.state.use_count);
    let succ1 = if success && n.state.success_count + n.state.failure_count < use1 {
        (n.state.success_count + 1) as u64
    } else {
        n.state.success_count
    };
    let fail1 = if !success && n.state.success_count + n.state.failure_count < use1 {
        (n.state.failure_count + 1) as u64
    } else {
        n.state.failure_count
    };
    let state1 = NodeState {
        enabled: n.state.enabled,
        health_status: if succ1 + fail1 >= HEALTH_MIN_SAMPLES {
            classify_health(succ1, fail1)
        } else {
            n.state.health_status
        },
        use_count: use1,
        success_count: succ1,
        failure_count: fail1,
        latency_ms: if success {
            latency_ms
        } else {
            n.state.latency_ms
        },
        last_used_ms: if success {
            now_ms
        } else {
            n.state.last_used_ms
        },
    };
    Node { info: n.info, stats: stats1, state: state1 }
}

/// A fold of one sample into a running mean never leaves the range spanned
/// by the mean and the sample.
pub proof fn lemma_fold_mean_bounded(a: u64, b: u64, n: u64)
    requires
        n > 0,
    ensures
        0 <= fold_mean(a, b, n) <= if a >= b {
            a as int
        } else {
            b as int
        },
{
    let m: int = if a >= b {
        a as int
    } else {
        b as int
    };
    assert(a * (n - 1) + b <= m * n) by (nonlinear_arith)
        requires
            n > 0,
            a <= m,
            b <= m,
    ;
    assert((a * (n - 1) + b) / (n as int) <= m) by (nonlinear_arith)
        requires
            n > 0,
            a * (n - 1) + b <= m * n,
    ;
    assert((a * (n - 1) + b) / (n as int) >= 0) by (nonlinear_arith)
        requires
            n > 0,
            a * (n - 1) + b >= 0,
    ;
}

impl IPManager {
    /// How many nodes the pool holds.
    pub fn len(&self) -> (r: usize)
        ensures
            r == self.nodes@.len(),
    {
        self.nodes.len()
    }

    /// Whether the pool holds no node.
    pub fn is_empty(&self) -> (r: bool)
        ensures
            r == (self.nodes@.len() == 0),
    {
        self.nodes.len() == 0
    }

    /// Copies of every node's endpoint descriptor, in insertion order.
    pub fn get_all_ips(&self) -> (r: Vec<IPInfo>)
        ensures
            r@.len() == self.nodes@.len(),
            forall|i: int| 0 <= i < r@.len() ==> #[trigger] r@[i] == self.nodes@[i].info,
    {
        let mut out: Vec<IPInfo> = Vec::new();
        let mut i: usize = 0;
        while i < self.nodes.len()
            invariant
                i <= self.nodes@.len(),
                out@.len() == i,
                forall|j: int| 0 <= j < i ==> #[trigger] out@[j] == self.nodes@[j].info,
            decreases self.nodes@.len() - i,
        {
            out.push(self.nodes[i].info.clone());
            i += 1;
        }
        out
    }

    /// The first node's `address:port`, the endpoint used when chaining
    /// through the pool; `None` exactly when the pool is empty.
    pub fn get_proxy_endpoint(&self) -> (r: Option<String>)
        ensures
            r.is_some() <==> self.nodes@.len() > 0,
            r matches Some(s) ==> utf8_of(s@) == endpoint_utf8(
                self.nodes@[0].info.address@,
                self.nodes@[0].info.port,
            ),
    {
        if self.nodes.len() == 0 {
            None
        } else {
            Some(make_endpoint(&self.nodes[0].info.address, self.nodes[0].info.port))
        }
    }

    /// A copy of the node with this address.
    pub fn get_node(&self, address: &str) -> (r: Option<IPInfo>)
        ensures
            r.is_some() <==> self.has_addr(address@),
            r matches Some(info) ==> exists|i: int|
                0 <= i < self.nodes@.len() && (#[trigger] self.nodes@[i].info) == info
                    && info.address@ == address@,
    {
        match self.find_node(address) {
            Some(i) => Some(self.nodes[i].info.clone()),
            None => None,
        }
    }

    /// A snapshot of one node's statistics and state.
    pub fn get_ip_stats(&self, address: &str) -> (r: Option<IPStatsSnapshot>)
        ensures
            r.is_some() <==> self.has_addr(address@),
            r matches Some(s) ==> exists|i: int|
                0 <= i < self.nodes@.len() && #[trigger] self.nodes@[i].info.address@ == address@
                    && s == (IPStatsSnapshot {
                    total_uses: self.nodes@[i].stats.total_uses,
                    total_failures: self.nodes@[i].stats.total_failures,
                    avg_latency_ms: self.nodes@[i].stats.avg_latency_ms,
                    enabled: self.nodes@[i].state.enabled,
                    health_status: self.nodes@[i].state.health_status,
                    use_count: self.nodes@[i].state.use_count,
                    success_count: self.nodes@[i].state.success_count,
                    failure_count: self.nodes@[i].state.failure_count,
                    latency_ms: self.nodes@[i].state.latency_ms,
                }),
    {
        match self.find_node(address) {
            Some(i) => {
                let n = &self.nodes[i];
                Some(
                    IPStatsSnapshot {
                        total_uses: n.stats.total_uses,
                        total_failures: n.stats.total_failures,
                        avg_latency_ms: n.stats.avg_latency_ms,
                        enabled: n.state.enabled,
                        health_status: n.state.health_status,
                        use_count: n.state.use_count,
                        success_count: n.state.success_count,
                        failure_count: n.state.failure_count,
                        latency_ms: n.state.latency_ms,
                    },
                )
            },
            None => None,
        }
    }

    /// Patch a node's port, tags, or admin switch; the address itself is
    /// immutable. Reports whether the node exists.
    pub fn update_node(&mut self, address: &str, req: UpdateIPRequest) -> (found: bool)
        requires
            old(self).wf(),
        ensures
            final(self).wf(),
            found <==> old(self).has_addr(address@),
            !found ==> *final(self) == *old(self),
            found ==> exists|i: int|
                0 <= i < old(self).nodes@.len()
                    && #[trigger] old(self).nodes@[i].info.address@ == address@
                    && final(self).nodes@ == old(self).nodes@.update(
                    i,
                    Node {
                        info: IPInfo {
                            address: old(self).nodes@[i].info.address,
                            port: match req.port {
                                Some(p) => p,
                                None => old(self).nodes@[i].info.port,
                            },
                            country: match req.country {
                                Some(c) => Some(c),
                                None => old(self).nodes@[i].info.country,
                            },
                            isp: match req.isp {
                                Some(s) => Some(s),
                                None => old(self).nodes@[i].info.isp,
                            },
                        },
                        stats: old(self).nodes@[i].stats,
                        state: NodeState {
                            enabled: match req.enabled {
                                Some(e) => e,
                                None => old(self).nodes@[i].state.enabled,
                            },
                            ..old(self).nodes@[i].state
                        },
                    },
                ),
            final(self).strategy == old(self).strategy,
            final(self).current_index == old(self).current_index,
    {
        let idx = match self.find_node(address) {
            Some(i) => i,
            None => {
                return false;
            },
        };
        let ghost old_nodes = self.nodes@;
        let n = &self.nodes[idx];
        let new_info = IPInfo {
            address: n.info.address.clone(),
            port: match req.port {
                Some(p) => p,
                None => n.info.port,
            },
            country: match req.country {
                Some(c) => Some(c),
                None => clone_opt_string(&n.info.country),
            },
            isp: match req.isp {
                Some(s) => Some(s),
                None => clone_opt_string(&n.info.isp),
            },
        };
        let new_state = NodeState {
            enabled: match req.enabled {
                Some(e) => e,
                None => n.state.enabled,
            },
            ..n.state
        };
        let new_node = Node { info: new_info, stats: n.stats, state: new_state };
        self.nodes.set(idx, new_node);
        proof {
            assert forall|p: int, q: int|
                0 <= p < q < self.nodes@.len() implies #[trigger] self.nodes@[p].info.address@
                != #[trigger] self.nodes@[q].info.address@ by {
                assert(self.nodes@[p].info.address@ == old_nodes[p].info.address@);
                assert(self.nodes@[q].info.address@ == old_nodes[q].info.address@);
            }
        }
        true
    }

    /// Flip a node's admin switch; returns the new setting, or `None` when
    /// no node has this address.
    pub fn toggle_node(&mut self, address: &str) -> (r: Option<bool>)
        requires
            old(self).wf(),
        ensures
            final(self).wf(),
            r.is_some() <==> old(self).has_addr(address@),
            r.is_none() ==> *final(self) == *old(self),
            r matches Some(enabled) ==> exists|i: int|
                0 <= i < old(self).nodes@.len()
                    && #[trigger] old(self).nodes@[i].info.address@ == address@ && enabled == !old(
                    self,
                ).nodes@[i].state.enabled && final(self).nodes@ == old(self).nodes@.update(
                    i,
                    Node {
                        state: NodeState { enabled, ..old(self).nodes@[i].state },
                        ..old(self).nodes@[i]
                    },
                ),
            final(self).strategy == old(self).strategy,
            final(self).current_index == old(self).current_index,
    {
        let idx = match self.find_node(address) {
            Some(i) => i,
            None => {
                return None;
            },
        };
        let ghost old_nodes = self.nodes@;
        let n = &self.nodes[idx];
        let enabled = !n.state.enabled;
        let new_node = Node {
            info: n.info.clone(),
            stats: n.stats,
            state: NodeState { enabled, ..n.state },
        };
        self.nodes.set(idx, new_node);
        proof {
            assert forall|p: int, q: int|
                0 <= p < q < self.nodes@.len() implies #[trigger] self.nodes@[p].info.address@
                != #[trigger] self.nodes@[q].info.address@ by {
                assert(self.nodes@[p].info.address@ == old_nodes[p].info.address@);
                assert(self.nodes@[q].info.address@ == old_nodes[q].info.address@);
            }
        }
        Some(enabled)
    }

    /// Record the outcome of one attempt through a node: always counts the
    /// attempt, folds the latency into the running mean, bumps the outcome
    /// counter, and re-classifies health once enough samples exist. Unknown
    /// addresses are ignored.
    pub fn record_result(&mut self, ip: &str, success: bool, latency_ms: u64, now_ms: u64)
        requires
            old(self).wf(),
        ensures
            final(self).wf(),
            !old(self).has_addr(ip@) ==> *final(self) == *old(self),
            old(self).has_addr(ip@) ==> exists|i: int|
                0 <= i < old(self).nodes@.len()
                    && #[trigger] old(self).nodes@[i].info.address@ == ip@ && final(self).nodes@
                    == old(self).nodes@.update(
                    i,
                    spec_record(old(self).nodes@[i], success, latency_ms, now_ms),
                ),
            final(self).strategy == old(self).strategy,
            final(self).current_index == old(self).current_index,
    {
        let idx = match self.find_node(ip) {
            Some(i) => i,
            None => {
                return ;
            },
        };
        let ghost old_nodes = self.nodes@;
        let n = &self.nodes[idx];
        let total = if n.stats.total_uses < u64::MAX {
            n.stats.total_uses + 1
        } else {
            n.stats.total_uses
        };
        assert(total >= 1);
        proof {
            lemma_fold_mean_bounded(n.stats.avg_latency_ms, latency_ms, total);
            assert((n.stats.avg_latency_ms as int) * (total - 1) + latency_ms < 0x1_0000_0000_0000_0000_0000_0000_0000_0000int)
                by (nonlinear_arith)
                requires
                    n.stats.avg_latency_ms <= 0xFFFF_FFFF_FFFF_FFFFu64,
                    total <= 0xFFFF_FFFF_FFFF_FFFFu64,
                    latency_ms <= 0xFFFF_FFFF_FFFF_FFFFu64,
                    total >= 1,
            ;
        }
        let avg_wide: u128 = ((n.stats.avg_latency_ms as u128) * ((total - 1) as u128)
            + latency_ms as u128) / (total as u128);
        let new_stats = NodeStats {
            total_uses: total,
            total_failures: if success {
                n.stats.total_failures
            } else if n.stats.total_failures < u64::MAX {
                n.stats.total_failures + 1
            } else {
                n.stats.total_failures
            },
            avg_latency_ms: avg_wide as u64,
            last_failure_ms: if success {
                n.stats.last_failure_ms
            } else {
                Some(now_ms)
            },
        };
        let use1 = if n.state.use_count < u64::MAX {
            n.state.use_count + 1
        } else {
            n.state.use_count
        };
        let outcomes_below = n.state.success_count < u64::MAX && n.state.failure_count < u64::MAX
            && ((n.state.success_count as u128) + (n.state.failure_count as u128)) < (
        use1 as u128);
        let succ1 = if success && outcomes_below {
            n.state.success_count + 1
        } else {
            n.state.success_count
        };
        let fail1 = if !success && outcomes_below {
            n.state.failure_count + 1
        } else {
            n.state.failure_count
        };
        let samples = succ1 as u128 + fail1 as u128;
        let new_health = if samples >= HEALTH_MIN_SAMPLES as u128 {
            if (fail1 as u128) * 10 >= samples * 6 {
                HealthStatus::Unhealthy
            } else if (fail1 as u128) * 10 >= samples * 3 {
                HealthStatus::Degraded
            } else {
                HealthStatus::Healthy
            }
        } else {
            n.state.health_status
        };
        let new_state = NodeState {
            enabled: n.state.enabled,
            health_status: new_health,
            use_count: use1,
            success_count: succ1,
            failure_count: fail1,
            latency_ms: if success {
                latency_ms
            } else {
                n.state.latency_ms
            },
            last_used_ms: if success {
                now_ms
            } else {
                n.state.last_used_ms
            },
        };
        let new_node = Node { info: n.info.clone(), stats: new_stats, state: new_state };
        proof {
            assert(new_node == spec_record(old_nodes[idx as int], success, latency_ms, now_ms));
        }
        self.nodes.set(idx, new_node);
        proof {
            assert forall|p: int, q: int|
                0 <= p < q < self.nodes@.len() implies #[trigger] self.nodes@[p].info.address@
                != #[trigger] self.nodes@[q].info.address@ by {
                assert(self.nodes@[p].info.address@ == old_nodes[p].info.address@);
                assert(self.nodes@[q].info.address@ == old_nodes[q].info.address@);
            }
        }
    }
}

/// Whether any node of the sequence is available.
pub open spec fn any_available(nodes: Seq<Node>) -> bool {
    exists|i: int| 0 <= i < nodes.len() && node_available(#[trigger] nodes[i])
}

/// Numerator of a node's success rate: its successes.
pub open spec fn rate_num(n: Node) -> int {
    n.state.success_count as int
}

/// Denominator of a node's success rate: its attempts, at least one.
pub open spec fn rate_den(n: Node) -> int {
    if n.state.use_count >= 1 {
        n.state.use_count as int
    } else {
        1
    }
}

/// `a` ranks at least as high as `b` for performance-based selection:
/// strictly higher success rate, or an equal rate and no higher latency.
pub open spec fn perf_at_least(a: Node, b: Node) -> bool {
    ||| rate_num(a) * rate_den(b) > rate_num(b) * rate_den(a)
    ||| (rate_num(a) * rate_den(b) == rate_num(b) * rate_den(a) && a.state.latency_ms
        <= b.state.latency_ms)
}

/// The performance ranking is transitive, so a single pass can find a best
/// node.
proof fn lemma_perf_trans(a: Node, b: Node, c: Node)
    requires
        perf_at_least(a, b),
        perf_at_least(b, c),
    ensures
        perf_at_least(a, c),
{
    let na = rate_num(a);
    let da = rate_den(a);
    let nb = rate_num(b);
    let db = rate_den(b);
    let nc = rate_num(c);
    let dc = rate_den(c);
    if na * db == nb * da && nb * dc == nc * db {
        assert(na * dc == nc * da) by (nonlinear_arith)
            requires
                na * db == nb * da,
                nb * dc == nc * db,
                da >= 1,
                db >= 1,
                dc >= 1,
        ;
    } else {
        assert(na * dc > nc * da) by (nonlinear_arith)
            requires
                na * db >= nb * da,
                nb * dc >= nc * db,
                na * db > nb * da || nb * dc > nc * db,
                da >= 1,
                db >= 1,
                dc >= 1,
        ;
    }
}

impl IPManager {
    fn select_random(&self) -> (r: IPInfo)
        requires
            self.nodes@.len() > 0,
        ensures
            any_available(self.nodes@) ==> exists|i: int|
                0 <= i < self.nodes@.len() && node_available(#[trigger] self.nodes@[i]) && r
                    == self.nodes@[i].info,
            !any_available(self.nodes@) ==> r == self.nodes@[0].info,
    {
        let mut avail: Vec<usize> = Vec::new();
        let mut i: usize = 0;
        while i < self.nodes.len()
            invariant
                i <= self.nodes@.len(),
                forall|k: int|
                    0 <= k < avail@.len() ==> (#[trigger] avail@[k]) < self.nodes@.len()
                        && node_available(self.nodes@[avail@[k] as int]),
                avail@.len() == 0 ==> forall|j: int|
                    0 <= j < i ==> !node_available(#[trigger] self.nodes@[j]),
            decreases self.nodes@.len() - i,
        {
            if self.nodes[i].state.enabled && !matches!(
                self.nodes[i].state.health_status,
                HealthStatus::Unhealthy,
            ) {
                avail.push(i);
            }
            i += 1;
        }
        if avail.len() == 0 {
            self.nodes[0].info.clone()
        } else {
            let k = random_below(avail.len());
            let idx = avail[k];
            self.nodes[idx].info.clone()
        }
    }

    fn select_round_robin(&mut self) -> (r: IPInfo)
        requires
            old(self).nodes@.len() > 0,
        ensures
            final(self).nodes@ == old(self).nodes@,
            final(self).strategy == old(self).strategy,
            any_available(old(self).nodes@) ==> exists|i: int|
                0 <= i < old(self).nodes@.len() && node_available(#[trigger] old(self).nodes@[i])
                    && r == old(self).nodes@[i].info,
            !any_available(old(self).nodes@) ==> r == old(self).nodes@[0].info,
    {
        let len = self.nodes.len();
        let mut cur = self.current_index % len;
        let ghost s0 = cur as int;
        proof {
            vstd::arithmetic::div_mod::lemma_small_mod(cur as nat, len as nat);
        }
        let mut k: usize = 0;
        while k < len
            invariant
                self.nodes@ == old(self).nodes@,
                self.strategy == old(self).strategy,
                len == self.nodes@.len(),
                0 < len,
                k <= len,
                cur < len,
                0 <= s0 < len,
                cur == (s0 + k) % (len as int),
                forall|m: int|
                    1 <= m <= k ==> !node_available(
                        #[trigger] self.nodes@[(s0 + m) % (len as int)],
                    ),
            decreases len - k,
        {
            cur = (cur + 1) % len;
            self.current_index = cur;
            proof {
                vstd::arithmetic::div_mod::lemma_add_mod_noop(s0 + k, 1, len as int);
                if len > 1 {
                    vstd::arithmetic::div_mod::lemma_small_mod(1nat, len as nat);
                }
            }
            if self.nodes[cur].state.enabled && !matches!(
                self.nodes[cur].state.health_status,
                HealthStatus::Unhealthy,
            ) {
                assert(node_available(self.nodes@[(s0 + (k + 1)) % (len as int)]));
                return self.nodes[cur].info.clone();
            }
            k += 1;
        }
        proof {
            assert forall|j: int| 0 <= j < len implies !node_available(
                #[trigger] self.nodes@[j],
            ) by {
                let li = len as int;
                let t = (j + li - 1 - s0) % li;
                vstd::arithmetic::div_mod::lemma_fundamental_div_mod(j + li - 1 - s0, li);
                let q = (j + li - 1 - s0) / li;
                assert(j + li - 1 - s0 == li * q + t);
                let m = t + 1;
                assert(1 <= m <= len);
                assert(s0 + m == j + li - li * q);
                assert(li * (1 - q) == li - li * q) by (nonlinear_arith);
                assert((s0 + m) % li == j) by {
                    assert(s0 + m == li * (1 - q) + j);
                    vstd::arithmetic::div_mod::lemma_mod_multiples_vanish(1 - q, j, li);
                    vstd::arithmetic::div_mod::lemma_small_mod(j as nat, li as nat);
                };
                assert(!node_available(self.nodes@[(s0 + m) % li]));
            }
        }
        self.nodes[0].info.clone()
    }

    fn select_least_used(&self) -> (r: IPInfo)
        requires
            self.nodes@.len() > 0,
        ensures
            any_available(self.nodes@) ==> exists|i: int|
                0 <= i < self.nodes@.len() && node_available(#[trigger] self.nodes@[i]) && r
                    == self.nodes@[i].info && forall|j: int|
                    0 <= j < self.nodes@.len() && node_available(#[trigger] self.nodes@[j])
                        ==> self.nodes@[i].state.use_count <= self.nodes@[j].state.use_count,
            !any_available(self.nodes@) ==> r == self.nodes@[0].info,
    {
        let mut best: Option<usize> = None;
        let mut i: usize = 0;
        while i < self.nodes.len()
            invariant
                i <= self.nodes@.len(),
                best matches Some(b) ==> b < self.nodes@.len() && node_available(
                    self.nodes@[b as int],
                ) && forall|j: int|
                    0 <= j < i && node_available(#[trigger] self.nodes@[j])
                        ==> self.nodes@[b as int].state.use_count
                        <= self.nodes@[j].state.use_count,
                best.is_none() ==> forall|j: int|
                    0 <= j < i ==> !node_available(#[trigger] self.nodes@[j]),
            decreases self.nodes@.len() - i,
        {
            if self.nodes[i].state.enabled && !matches!(
                self.nodes[i].state.health_status,
                HealthStatus::Unhealthy,
            ) {
                match best {
                    Some(b) => {
                        if self.nodes[i].state.use_count < self.nodes[b].state.use_count {
                            best = Some(i);
                        }
                    },
                    None => {
                        best = Some(i);
                    },
                }
            }
            i += 1;
        }
        match best {
            Some(b) => self.nodes[b].info.clone(),
            None => self.nodes[0].info.clone(),
        }
    }

    fn select_performance_based(&self) -> (r: IPInfo)
        requires
            self.nodes@.len() > 0,
        ensures
            any_available(self.nodes@) ==> exists|i: int|
                0 <= i < self.nodes@.len() && node_available(#[trigger] self.nodes@[i]) && r
                    == self.nodes@[i].info && forall|j: int|
                    0 <= j < self.nodes@.len() && node_available(#[trigger] self.nodes@[j])
                        ==> perf_at_least(self.nodes@[i], self.nodes@[j]),
            !any_available(self.nodes@) ==> r == self.nodes@[0].info,
    {
        let mut best: Option<usize> = None;
        let mut i: usize = 0;
        while i < self.nodes.len()
            invariant
                i <= self.nodes@.len(),
                best matches Some(b) ==> b < self.nodes@.len() && node_available(
                    self.nodes@[b as int],
                ) && forall|j: int|
                    0 <= j < i && node_available(#[trigger] self.nodes@[j]) ==> perf_at_least(
                        self.nodes@[b as int],
                        self.nodes@[j],
                    ),
                best.is_none() ==> forall|j: int|
                    0 <= j < i ==> !node_available(#[trigger] self.nodes@[j]),
            decreases self.nodes@.len() - i,
        {
            if self.nodes[i].state.enabled && !matches!(
                self.nodes[i].state.health_status,
                HealthStatus::Unhealthy,
            ) {
                match best {
                    Some(b) => {
                        if self.perf_better(i, b) {
                            proof {
                                let ghost bi = b as int;
                                assert forall|j: int|
                                    0 <= j < i + 1 && node_available(#[trigger] self.nodes@[j])
                                        implies perf_at_least(
                                    self.nodes@[i as int],
                                    self.nodes@[j],
                                ) by {
                                    if j < i {
                                        lemma_perf_trans(
                                            self.nodes@[i as int],
                                            self.nodes@[bi],
                                            self.nodes@[j],
                                        );
                                    }
                                }
                            }
                            best = Some(i);
                        } else {
                            proof {
                                assert(perf_at_least(
                                    self.nodes@[b as int],
                                    self.nodes@[i as int],
                                ));
                            }
                        }
                    },
                    None => {
                        best = Some(i);
                    },
                }
            }
            i += 1;
        }
        match best {
            Some(b) => self.nodes[b].info.clone(),
            None => self.nodes[0].info.clone(),
        }
    }

    /// Whether node `i` strictly outranks node `b`: a higher success rate,
    /// or an equal rate with lower latency.
    fn perf_better(&self, i: usize, b: usize) -> (r: bool)
        requires
            i < self.nodes@.len(),
            b < self.nodes@.len(),
        ensures
            r ==> perf_at_least(self.nodes@[i as int], self.nodes@[b as int]),
            !r ==> perf_at_least(self.nodes@[b as int], self.nodes@[i as int]),
    {
        let ni = self.nodes[i].state.success_count;
        let di = if self.nodes[i].state.use_count >= 1 {
            self.nodes[i].state.use_count
        } else {
            1
        };
        let nb = self.nodes[b].state.success_count;
        let db = if self.nodes[b].state.use_count >= 1 {
            self.nodes[b].state.use_count
        } else {
            1
        };
        proof {
            vstd::arithmetic::mul::lemma_mul_upper_bound(
                ni as int,
                u64::MAX as int,
                db as int,
                u64::MAX as int,
            );
            vstd::arithmetic::mul::lemma_mul_upper_bound(
                nb as int,
                u64::MAX as int,
                di as int,
                u64::MAX as int,
            );
        }
        let cross_i = (ni as u128) * (db as u128);
        let cross_b = (nb as u128) * (di as u128);
        if cross_i > cross_b {
            true
        } else if cross_i == cross_b {
            self.nodes[i].state.latency_ms < self.nodes[b].state.latency_ms
        } else {
            false
        }
    }

    /// Pick one upstream node for the next request, by the configured
    /// strategy. `None` exactly when the pool is empty; when any node is
    /// available, an available one is returned, otherwise the first node
    /// stands in.
    pub fn select_ip(&mut self) -> (r: Option<IPInfo>)
        requires
            old(self).wf(),
        ensures
            final(self).wf(),
            final(self).nodes@ == old(self).nodes@,
            final(self).strategy == old(self).strategy,
            r.is_some() <==> old(self).nodes@.len() > 0,
            r matches Some(ip) ==> exists|i: int|
                0 <= i < old(self).nodes@.len() && (#[trigger] old(self).nodes@[i].info) == ip,
            r matches Some(ip) ==> (any_available(old(self).nodes@) ==> exists|i: int|
                0 <= i < old(self).nodes@.len() && node_available(#[trigger] old(self).nodes@[i])
                    && old(self).nodes@[i].info == ip),
            r matches Some(ip) ==> (!any_available(old(self).nodes@) ==> ip == old(
                self,
            ).nodes@[0].info),
    {
        if self.nodes.len() == 0 {
            return None;
        }
        let picked = match self.strategy {
            RotationStrategy::Random => self.select_random(),
            RotationStrategy::RoundRobin => self.select_round_robin(),
            RotationStrategy::LeastUsed => self.select_least_used(),
            RotationStrategy::PerformanceBased => self.select_performance_based(),
        };
        proof {
            if any_available(self.nodes@) {
                let i = choose|i: int|
                    0 <= i < self.nodes@.len() && node_available(#[trigger] self.nodes@[i])
                        && picked == self.nodes@[i].info;
                assert(0 <= i < self.nodes@.len() && self.nodes@[i].info == picked);
            }
        }
        Some(picked)
    }
}

/// For every node of a well-formed pool, recorded successes and failures
/// together never outnumber recorded attempts.
pub proof fn lemma_outcomes_bounded(m: IPManager, i: int)
    requires
        m.wf(),
        0 <= i < m.nodes@.len(),
    ensures
        m.nodes@[i].state.success_count + m.nodes@[i].state.failure_count
            <= m.nodes@[i].state.use_count,
{
}

/// Once a node has at least `HEALTH_MIN_SAMPLES` outcomes, recording an
/// outcome classifies its health: a failure rate at or above 0.6 makes it
/// unhealthy, and a clean record makes it healthy.
pub proof fn lemma_health_classification(success: u64, failure: u64)
    requires
        success + failure >= HEALTH_MIN_SAMPLES,
    ensures
        failure * 10 >= (success + failure) * 6 ==> classify_health(success, failure)
            == HealthStatus::Unhealthy,
        failure == 0 ==> classify_health(success, failure) == HealthStatus::Healthy,
{
}

/// Recording an outcome on a node that reaches the sample floor leaves its
/// health exactly as `classify_health` says.
pub proof fn lemma_record_reclassifies(n: Node, success: bool, latency_ms: u64, now_ms: u64)
    requires
        n.state.success_count + n.state.failure_count <= n.state.use_count,
    ensures
        ({
            let n1 = spec_record(n, success, latency_ms, now_ms);
            n1.state.success_count + n1.state.failure_count >= HEALTH_MIN_SAMPLES
                ==> n1.state.health_status == classify_health(
                n1.state.success_count,
                n1.state.failure_count,
            )
        }),
{
}

impl NodeStats {
    /// The aggregates of a node that has seen no attempt.
    pub open spec fn spec_fresh() -> NodeStats {
        NodeStats { total_uses: 0, total_failures: 0, avg_latency_ms: 100, last_failure_ms: None }
    }

    pub fn fresh() -> (r: NodeStats)
        ensures
            r == NodeStats::spec_fresh(),
    {
        NodeStats { total_uses: 0, total_failures: 0, avg_latency_ms: 100, last_failure_ms: None }
    }
}

impl NodeState {
    /// The state `NodeState::new` constructs.
    pub open spec fn spec_fresh() -> NodeState {
        NodeState {
            enabled: true,
            health_status: HealthStatus::Unknown,
            use_count: 0,
            success_count: 0,
            failure_count: 0,
            latency_ms: 100,
            last_used_ms: 0,
        }
    }
}

} // verus!
