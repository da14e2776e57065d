//! Scoring of downstream target endpooints, independent of the upstream
//! node pool: per-target latency and reliability statistics, an
//! availability filter, and three load-balancing policies.

use vstd::prelude::*;
use vstd::string::StringExecFns;
use crate::config::RoutingConfig;
use crate::ip_manager::{inc_sat, fold_mean};

verus! {

#[derive(Debug, Clone, Copy, PartialEq, Eq, Structural)]
pub enum RouteType {
    Direct,
    Proxy,
}

/// How a target is chosen among the available ones; unknown configuration
/// tags fall back to fastest-response.
#[derive(Debug, Clone, Copy, PartialEq, Eq, Structural)]
pub enum LoadBalancing {
    RoundRobin,
    LeastConnections,
    Fastest,
}

impl LoadBalancing {
    pub open spec fn of_tag(tag: Seq<char>) -> LoadBalancing {
        if tag == "roundrobin"@ {
            LoadBalancing::RoundRobin
        } else if tag == "leastconnections"@ {
            LoadBalancing::LeastConnections
        } else {
            LoadBalancing::Fastest
        }
    }

    pub fn from_tag(tag: &String) -> (r: LoadBalancing)
        ensures
            r == LoadBalancing::of_tag(tag@),
    {
        if *tag == String::from_str("roundrobin") {
            LoadBalancing::RoundRobin
        } else if *tag == String::from_str("leastconnections") {
            LoadBalancing::LeastConnections
        } else {
            LoadBalancing::Fastest
        }
    }
}

/// A snapshot of one target as the routing decision reports it.
/// `reliability_permille` is successes per thousand requests; `load` is
/// the current connection gauge.
#[derive(Debug)]
pub struct RouteTarget {
    pub ip: String,
    pub port: u16,
    pub latency_ms: u64,
    pub reliability_permille: u32,
    pub load: u32,
}

impl Clone for RouteTarget {
    fn clone(&self) -> (res: Self)
        ensures
            res == *self,
    {
        RouteTarget {
            ip: self.ip.clone(),
            port: self.port,
            latency_ms: self.latency_ms,
            reliability_permille: self.reliability_permille,
            load: self.load,
        }
    }
}

#[derive(Debug)]
pub struct RoutingDecision {
    pub selected_target: Option<RouteTarget>,
    pub route_type: RouteType,
    pub estimated_latency_ms: u64,
    pub fallback_targets: Vec<RouteTarget>,
}

/// Per-target running statistics.
#[derive(Debug, Clone, Copy, PartialEq, Eq, Structural)]
pub struct TargetStats {
    pub total_requests: u64,
    pub successful_requests: u64,
    pub avg_latency_ms: u64,
    pub current_connections: u32,
}

impl TargetStats {
    /// A target that has seen no request: assumed reliable, 100 ms.
    pub open spec fn spec_fresh() -> TargetStats {
        TargetStats {
            total_requests: 0,
            successful_requests: 0,
            avg_latency_ms: 100,
            current_connections: 0,
        }
    }
}

#[derive(Debug)]
pub struct TargetEntry {
    pub ip: String,
    pub port: u16,
    pub stats: TargetStats,
}

/// Reliability in thousandths: successes per thousand requests; a target
/// without requests counts as fully reliable until proven otherwise.
pub open spec fn reliability_permille(st: TargetStats) -> int {
    if st.total_requests > 0 {
        st.successful_requests * 1000 / (st.total_requests as int)
    } else {
        1000
    }
}

/// The availability filter: fast enough and reliable enough.
pub open spec fn target_available(e: TargetEntry, max_latency_ms: u64, min_rel: u32) -> bool {
    e.stats.avg_latency_ms < max_latency_ms && reliability_permille(e.stats) >= min_rel
}

pub open spec fn any_target_available(ts: Seq<TargetEntry>, max_latency_ms: u64, min_rel: u32) -> bool {
    exists|i: int|
        0 <= i < ts.len() && target_available(#[trigger] ts[i], max_latency_ms, min_rel)
}

/// The snapshot `select_route` reports for one target.
pub open spec fn spec_snapshot(e: TargetEntry) -> RouteTarget {
    RouteTarget {
        ip: e.ip,
        port: e.port,
        latency_ms: e.stats.avg_latency_ms,
        reliability_permille: (reliability_permille(e.stats)) as u32,
        load: e.stats.current_connections,
    }
}

/// The target's statistics after one recorded attempt: the attempt always
/// counts (held back only at the numeric ceiling), the latency folds into
/// the running mean, and a success bumps the success counter.
pub open spec fn spec_record_target(st: TargetStats, success: bool, latency_ms: u64) -> TargetStats {
    let total1 = inc_sat(st.total_requests);
    TargetStats {
        total_requests: total1,
        successful_requests: if success && st.successful_requests < total1 {
            (st.successful_requests + 1) as u64
        } else {
            st.successful_requests
        },
        avg_latency_ms: fold_mean(st.avg_latency_ms, latency_ms, total1) as u64,
        current_connections: st.current_connections,
    }
}

/// The slot a round-robin probe visits on its `m`-th step from `cur0`.
pub open spec fn probe_index(cur0: int, m: int, len: int) -> int {
    if cur0 + m < len {
        cur0 + m
    } else {
        cur0 + m - len
    }
}

/// The ordered fallback list: a snapshot of every available target except
/// the chosen one.
pub open spec fn fallback_list(
    ts: Seq<TargetEntry>,
    max_latency_ms: u64,
    min_rel: u32,
    chosen: int,
) -> Seq<RouteTarget>
    decreases ts.len(),
{
    if ts.len() == 0 {
        Seq::empty()
    } else {
        fallback_list(ts.drop_last(), max_latency_ms, min_rel, chosen) + (if chosen != ts.len()
            - 1 && target_available(ts.last(), max_latency_ms, min_rel) {
            seq![spec_snapshot(ts.last())]
        } else {
            Seq::empty()
        })
    }
}

pub struct SmartRouter {
    pub targets: Vec<TargetEntry>,
    pub current_index: usize,
    pub policy: LoadBalancing,
    pub max_latency_threshold_ms: u64,
    pub min_reliability_permille: u32,
    pub fallback_enabled: bool,
}

impl SmartRouter {
    /// Key uniqueness and the counter invariant: successes never outnumber
    /// requests.
    pub open spec fn wf(&self) -> bool {
        &&& forall|i: int, j: int|
            0 <= i < j < self.targets@.len() ==> #[trigger] self.targets@[i].ip@
                != #[trigger] self.targets@[j].ip@
        &&& forall|i: int|
            0 <= i < self.targets@.len() ==> (#[trigger] self.targets@[i]).stats.successful_requests
                <= self.targets@[i].stats.total_requests
    }

    pub open spec fn has_ip(&self, a: Seq<char>) -> bool {
        exists|i: int| 0 <= i < self.targets@.len() && #[trigger] self.targets@[i].ip@ == a
    }

    /// An empty router with the configured policy and thresholds.
    pub fn new(config: RoutingConfig) -> (r: SmartRouter)
        ensures
            r.wf(),
            r.targets@.len() == 0,
            r.current_index == 0,
            r.policy == LoadBalancing::of_tag(config.load_balancing@),
            r.max_latency_threshold_ms == config.max_latency_threshold_ms,
            r.min_reliability_permille == config.min_reliability_permille,
            r.fallback_enabled == config.fallback_enabled,
    {
        SmartRouter {
            targets: Vec::new(),
            current_index: 0,
            policy: LoadBalancing::from_tag(&config.load_balancing),
            max_latency_threshold_ms: config.max_latency_threshold_ms,
            min_reliability_permille: config.min_reliability_permille,
            fallback_enabled: config.fallback_enabled,
        }
    }

    fn find_target(&self, ip: &str) -> (r: Option<usize>)
        ensures
            r.is_some() <==> self.has_ip(ip@),
            r matches Some(i) ==> i < self.targets@.len() && self.targets@[i as int].ip@ == ip@,
    {
        let key = ip.to_owned();
        let mut i: usize = 0;
        while i < self.targets.len()
            invariant
                key@ == ip@,
                i <= self.targets@.len(),
                forall|j: int| 0 <= j < i ==> #[trigger] self.targets@[j].ip@ != ip@,
            decreases self.targets@.len() - i,
        {
            if self.targets[i].ip == key {
                return Some(i);
            }
            i += 1;
        }
        None
    }

    /// Register a target; one entry per address, so a second registration
    /// of the same address changes nothing.
    pub fn add_target(&mut self, ip: &str, port: u16)
        requires
            old(self).wf(),
        ensures
            final(self).wf(),
            old(self).has_ip(ip@) ==> *final(self) == *old(self),
            !old(self).has_ip(ip@) ==> final(self).targets@.len() == old(self).targets@.len() + 1
                && final(self).targets@.drop_last() == old(self).targets@
                && final(self).targets@.last().ip@ == ip@ && final(self).targets@.last().port
                == port && final(self).targets@.last().stats == TargetStats::spec_fresh(),
            final(self).policy == old(self).policy,
            final(self).current_index == old(self).current_index,
            final(self).max_latency_threshold_ms == old(self).max_latency_threshold_ms,
            final(self).min_reliability_permille == old(self).min_reliability_permille,
    {
        if self.find_target(ip).is_some() {
            return ;
        }
        let entry = TargetEntry {
            ip: ip.to_owned(),
            port,
            stats: TargetStats {
                total_requests: 0,
                successful_requests: 0,
                avg_latency_ms: 100,
                current_connections: 0,
            },
        };
        self.targets.push(entry);
    }

    /// Record the outcome of one attempt to a target; unknown addresses
    /// are ignored.
    pub fn record_result(&mut self, ip: &str, success: bool, latency_ms: u64)
        requires
            old(self).wf(),
        ensures
            final(self).wf(),
            !old(self).has_ip(ip@) ==> *final(self) == *old(self),
            old(self).has_ip(ip@) ==> exists|i: int|
                0 <= i < old(self).targets@.len() && #[trigger] old(self).targets@[i].ip@ == ip@
                    && final(self).targets@ == old(self).targets@.update(
                    i,
                    TargetEntry {
                        ip: old(self).targets@[i].ip,
                        port: old(self).targets@[i].port,
                        stats: spec_record_target(old(self).targets@[i].stats, success, latency_ms),
                    },
                ),
            final(self).policy == old(self).policy,
            final(self).current_index == old(self).current_index,
            final(self).max_latency_threshold_ms == old(self).max_latency_threshold_ms,
            final(self).min_reliability_permille == old(self).min_reliability_permille,
    {
        let idx = match self.find_target(ip) {
            Some(i) => i,
            None => {
                return ;
            },
        };
        let ghost old_targets = self.targets@;
        let e = &self.targets[idx];
        let total1 = if e.stats.total_requests < u64::MAX {
            e.stats.total_requests + 1
        } else {
            e.stats.total_requests
        };
        assert(total1 >= 1);
        proof {
            crate::ip_manager::lemma_fold_mean_bounded(e.stats.avg_latency_ms, latency_ms, total1);
            assert((e.stats.avg_latency_ms as int) * (total1 - 1) + latency_ms < 0x1_0000_0000_0000_0000_0000_0000_0000_0000int)
                by (nonlinear_arith)
                requires
                    e.stats.avg_latency_ms <= 0xFFFF_FFFF_FFFF_FFFFu64,
                    total1 <= 0xFFFF_FFFF_FFFF_FFFFu64,
                    latency_ms <= 0xFFFF_FFFF_FFFF_FFFFu64,
                    total1 >= 1,
            ;
        }
        let avg_wide: u128 = ((e.stats.avg_latency_ms as u128) * ((total1 - 1) as u128)
            + latency_ms as u128) / (total1 as u128);
        let new_stats = TargetStats {
            total_requests: total1,
            successful_requests: if success && e.stats.successful_requests < total1 {
                e.stats.successful_requests + 1
            } else {
                e.stats.successful_requests
            },
            avg_latency_ms: avg_wide as u64,
            current_connections: e.stats.current_connections,
        };
        let new_entry = TargetEntry { ip: e.ip.clone(), port: e.port, stats: new_stats };
        vstd::pervasive::VecAdditionalExecFns::set(&mut self.targets, idx, new_entry);
        proof {
            assert forall|p: int, q: int| 0 <= p < q < self.targets@.len() implies #[trigger] self
                .targets@[p].ip@ != #[trigger] self.targets@[q].ip@ by {
                assert(self.targets@[p].ip@ == old_targets[p].ip@);
                assert(self.targets@[q].ip@ == old_targets[q].ip@);
            }
        }
    }

    /// Whether the target at `i` passes the availability filter.
    fn is_available(&self, i: usize) -> (r: bool)
        requires
            self.wf(),
            i < self.targets@.len(),
        ensures
            r == target_available(
                self.targets@[i as int],
                self.max_latency_threshold_ms,
                self.min_reliability_permille,
            ),
    {
        let e = &self.targets[i];
        let rel: u64 = if e.stats.total_requests > 0 {
            proof {
                assert((e.stats.successful_requests as int) * 1000 <= (
                e.stats.total_requests as int) * 1000) by (nonlinear_arith)
                    requires
                        e.stats.successful_requests <= e.stats.total_requests,
                ;
                assert((e.stats.successful_requests as int) * 1000 / (
                e.stats.total_requests as int) <= 1000) by (nonlinear_arith)
                    requires
                        e.stats.total_requests > 0,
                        (e.stats.successful_requests as int) * 1000 <= (
                        e.stats.total_requests as int) * 1000,
                ;
            }
            (((e.stats.successful_requests as u128) * 1000 / (e.stats.total_requests as u128))
                as u64)
        } else {
            1000
        };
        e.stats.avg_latency_ms < self.max_latency_threshold_ms && rel
            >= self.min_reliability_permille as u64
    }

    /// The reported snapshot of the target at `i`.
    fn snapshot(&self, i: usize) -> (r: RouteTarget)
        requires
            self.wf(),
            i < self.targets@.len(),
        ensures
            r == spec_snapshot(self.targets@[i as int]),
    {
        let e = &self.targets[i];
        let rel: u64 = if e.stats.total_requests > 0 {
            proof {
                assert((e.stats.successful_requests as int) * 1000 <= (
                e.stats.total_requests as int) * 1000) by (nonlinear_arith)
                    requires
                        e.stats.successful_requests <= e.stats.total_requests,
                ;
                assert((e.stats.successful_requests as int) * 1000 / (
                e.stats.total_requests as int) <= 1000) by (nonlinear_arith)
                    requires
                        e.stats.total_requests > 0,
                        (e.stats.successful_requests as int) * 1000 <= (
                        e.stats.total_requests as int) * 1000,
                ;
            }
            (((e.stats.successful_requests as u128) * 1000 / (e.stats.total_requests as u128))
                as u64)
        } else {
            1000
        };
        RouteTarget {
            ip: e.ip.clone(),
            port: e.port,
            latency_ms: e.stats.avg_latency_ms,
            reliability_permille: rel as u32,
            load: e.stats.current_connections,
        }
    }

    /// The available target with the lowest running-mean latency.
    fn fastest_select(&self) -> (r: usize)
        requires
            self.wf(),
            any_target_available(
                self.targets@,
                self.max_latency_threshold_ms,
                self.min_reliability_permille,
            ),
        ensures
            r < self.targets@.len(),
            target_available(
                self.targets@[r as int],
                self.max_latency_threshold_ms,
                self.min_reliability_permille,
            ),
            forall|j: int|
                0 <= j < self.targets@.len() && target_available(
                    #[trigger] self.targets@[j],
                    self.max_latency_threshold_ms,
                    self.min_reliability_permille,
                ) ==> self.targets@[r as int].stats.avg_latency_ms
                    <= self.targets@[j].stats.avg_latency_ms,
    {
        let mut best: Option<usize> = None;
        let mut i: usize = 0;
        while i < self.targets.len()
            invariant
                self.wf(),
                i <= self.targets@.len(),
                best matches Some(b) ==> b < self.targets@.len() && target_available(
                    self.targets@[b as int],
                    self.max_latency_threshold_ms,
                    self.min_reliability_permille,
                ) && forall|j: int|
                    0 <= j < i && target_available(
                        #[trigger] self.targets@[j],
                        self.max_latency_threshold_ms,
                        self.min_reliability_permille,
                    ) ==> self.targets@[b as int].stats.avg_latency_ms
                        <= self.targets@[j].stats.avg_latency_ms,
                best.is_none() ==> forall|j: int|
                    0 <= j < i ==> !target_available(
                        #[trigger] self.targets@[j],
                        self.max_latency_threshold_ms,
                        self.min_reliability_permille,
                    ),
            decreases self.targets@.len() - i,
        {
            if self.is_available(i) {
                match best {
                    Some(b) => {
                        if self.targets[i].stats.avg_latency_ms
                            < self.targets[b].stats.avg_latency_ms {
                            best = Some(i);
                        }
                    },
                    None => {
                        best = Some(i);
                    },
                }
            }
            i += 1;
        }
        match best {
            Some(b) => b,
            None => {
                proof {
                    assert(false);
                }
                0
            },
        }
    }

    /// The available target with the fewest current connections.
    fn least_connections_select(&self) -> (r: usize)
        requires
            self.wf(),
            any_target_available(
                self.targets@,
                self.max_latency_threshold_ms,
                self.min_reliability_permille,
            ),
        ensures
            r < self.targets@.len(),
            target_available(
                self.targets@[r as int],
                self.max_latency_threshold_ms,
                self.min_reliability_permille,
            ),
            forall|j: int|
                0 <= j < self.targets@.len() && target_available(
                    #[trigger] self.targets@[j],
                    self.max_latency_threshold_ms,
                    self.min_reliability_permille,
                ) ==> self.targets@[r as int].stats.current_connections
                    <= self.targets@[j].stats.current_connections,
    {
        let mut best: Option<usize> = None;
        let mut i: usize = 0;
        while i < self.targets.len()
            invariant
                self.wf(),
                i <= self.targets@.len(),
                best matches Some(b) ==> b < self.targets@.len() && target_available(
                    self.targets@[b as int],
                    self.max_latency_threshold_ms,
                    self.min_reliability_permille,
                ) && forall|j: int|
                    0 <= j < i && target_available(
                        #[trigger] self.targets@[j],
                        self.max_latency_threshold_ms,
                        self.min_reliability_permille,
                    ) ==> self.targets@[b as int].stats.current_connections
                        <= self.targets@[j].stats.current_connections,
                best.is_none() ==> forall|j: int|
                    0 <= j < i ==> !target_available(
                        #[trigger] self.targets@[j],
                        self.max_latency_threshold_ms,
                        self.min_reliability_permille,
                    ),
            decreases self.targets@.len() - i,
        {
            if self.is_available(i) {
                match best {
                    Some(b) => {
                        if self.targets[i].stats.current_connections
                            < self.targets[b].stats.current_connections {
                            best = Some(i);
                        }
                    },
                    None => {
                        best = Some(i);
                    },
                }
            }
            i += 1;
        }
        match best {
            Some(b) => b,
            None => {
                proof {
                    assert(false);
                }
                0
            },
        }
    }

    /// Linear probe from just past the last choice, skipping unavailable
    /// targets; advances the rotation index.
    fn round_robin_select(&mut self) -> (r: usize)
        requires
            old(self).wf(),
            any_target_available(
                old(self).targets@,
                old(self).max_latency_threshold_ms,
                old(self).min_reliability_permille,
            ),
        ensures
            final(self).targets == old(self).targets,
            final(self).policy == old(self).policy,
            final(self).max_latency_threshold_ms == old(self).max_latency_threshold_ms,
            final(self).min_reliability_permille == old(self).min_reliability_permille,
            final(self).fallback_enabled == old(self).fallback_enabled,
            r < old(self).targets@.len(),
            target_available(
                old(self).targets@[r as int],
                old(self).max_latency_threshold_ms,
                old(self).min_reliability_permille,
            ),
    {
        let len = self.targets.len();
        let cur0 = self.current_index % len;
        let mut k: usize = 0;
        while k < len
            invariant
                self.targets == old(self).targets,
                self.policy == old(self).policy,
                self.max_latency_threshold_ms == old(self).max_latency_threshold_ms,
                self.min_reliability_permille == old(self).min_reliability_permille,
                self.fallback_enabled == old(self).fallback_enabled,
                self.wf(),
                len == self.targets@.len(),
                0 < len,
                cur0 < len,
                k <= len,
                forall|m: int|
                    1 <= m <= k ==> !target_available(
                        #[trigger] self.targets@[probe_index(cur0 as int, m, len as int)],
                        self.max_latency_threshold_ms,
                        self.min_reliability_permille,
                    ),
            decreases len - k,
        {
            let step = k + 1;
            let idx = if cur0 >= len - step {
                cur0 - (len - step)
            } else {
                cur0 + step
            };
            assert(idx == probe_index(cur0 as int, step as int, len as int));
            self.current_index = idx;
            if self.is_available(idx) {
                return idx;
            }
            k += 1;
        }
        proof {
            assert forall|j: int|
                0 <= j < len implies !target_available(
                #[trigger] self.targets@[j],
                self.max_latency_threshold_ms,
                self.min_reliability_permille,
            ) by {
                let m: int = if j > cur0 {
                    j - cur0
                } else {
                    j + len - cur0
                };
                assert(1 <= m <= len);
                assert(probe_index(cur0 as int, m, len as int) == j);
                assert(!target_available(
                    self.targets@[probe_index(cur0 as int, m, len as int)],
                    self.max_latency_threshold_ms,
                    self.min_reliability_permille,
                ));
            }
            assert(false);
        }
        0
    }

    /// Pick the best route under the configured policy. When no target is
    /// registered the decision is to go direct; when none passes the
    /// availability filter the first target stands in with no fallbacks;
    /// otherwise an available target is chosen by the policy and every
    /// other available target is listed as a fallback.
    pub fn select_route(&mut self) -> (r: RoutingDecision)
        requires
            old(self).wf(),
        ensures
            final(self).wf(),
            final(self).targets == old(self).targets,
            final(self).policy == old(self).policy,
            final(self).max_latency_threshold_ms == old(self).max_latency_threshold_ms,
            final(self).min_reliability_permille == old(self).min_reliability_permille,
            old(self).targets@.len() == 0 ==> (*final(self) == *old(self)
                && r.selected_target.is_none() && r.route_type == RouteType::Direct
                && r.estimated_latency_ms == u64::MAX && r.fallback_targets@.len() == 0),
            old(self).targets@.len() > 0 ==> (r.route_type == RouteType::Proxy
                && r.selected_target.is_some()),
            old(self).targets@.len() > 0 && !any_target_available(
                old(self).targets@,
                old(self).max_latency_threshold_ms,
                old(self).min_reliability_permille,
            ) ==> (r.selected_target == Some(spec_snapshot(old(self).targets@[0]))
                && r.estimated_latency_ms == old(self).targets@[0].stats.avg_latency_ms
                && r.fallback_targets@.len() == 0),
            old(self).targets@.len() > 0 && any_target_available(
                old(self).targets@,
                old(self).max_latency_threshold_ms,
                old(self).min_reliability_permille,
            ) ==> exists|c: int|
                {
                    &&& 0 <= c < old(self).targets@.len()
                    &&& target_available(
                        #[trigger] old(self).targets@[c],
                        old(self).max_latency_threshold_ms,
                        old(self).min_reliability_permille,
                    )
                    &&& r.selected_target == Some(spec_snapshot(old(self).targets@[c]))
                    &&& r.estimated_latency_ms == old(self).targets@[c].stats.avg_latency_ms
                    &&& r.fallback_targets@ == fallback_list(
                        old(self).targets@,
                        old(self).max_latency_threshold_ms,
                        old(self).min_reliability_permille,
                        c,
                    )
                    &&& (old(self).policy == LoadBalancing::Fastest ==> forall|j: int|
                        0 <= j < old(self).targets@.len() && target_available(
                            #[trigger] old(self).targets@[j],
                            old(self).max_latency_threshold_ms,
                            old(self).min_reliability_permille,
                        ) ==> old(self).targets@[c].stats.avg_latency_ms
                            <= old(self).targets@[j].stats.avg_latency_ms)
                    &&& (old(self).policy == LoadBalancing::LeastConnections ==> forall|j: int|
                        0 <= j < old(self).targets@.len() && target_available(
                            #[trigger] old(self).targets@[j],
                            old(self).max_latency_threshold_ms,
                            old(self).min_reliability_permille,
                        ) ==> old(self).targets@[c].stats.current_connections
                            <= old(self).targets@[j].stats.current_connections)
                },
    {
        if self.targets.len() == 0 {
            return RoutingDecision {
                selected_target: None,
                route_type: RouteType::Direct,
                estimated_latency_ms: u64::MAX,
                fallback_targets: Vec::new(),
            };
        }
        let mut any: bool = false;
        let mut i: usize = 0;
        while i < self.targets.len()
            invariant
                self.wf(),
                i <= self.targets@.len(),
                any <==> exists|j: int|
                    0 <= j < i && target_available(
                        #[trigger] self.targets@[j],
                        self.max_latency_threshold_ms,
                        self.min_reliability_permille,
                    ),
                *self == *old(self),
            decreases self.targets@.len() - i,
        {
            if self.is_available(i) {
                any = true;
            }
            i += 1;
        }
        if !any {
            let best = self.snapshot(0);
            let est = best.latency_ms;
            return RoutingDecision {
                selected_target: Some(best),
                route_type: RouteType::Proxy,
                estimated_latency_ms: est,
                fallback_targets: Vec::new(),
            };
        }
        let chosen = match self.policy {
            LoadBalancing::RoundRobin => self.round_robin_select(),
            LoadBalancing::LeastConnections => self.least_connections_select(),
            LoadBalancing::Fastest => self.fastest_select(),
        };
        let selected = self.snapshot(chosen);
        let est = selected.latency_ms;
        let mut fallbacks: Vec<RouteTarget> = Vec::new();
        let ghost ts = self.targets@;
        proof {
            assert(ts.subrange(0, 0) =~= Seq::<TargetEntry>::empty());
        }
        let mut f: usize = 0;
        while f < self.targets.len()
            invariant
                self.wf(),
                self.targets@ == ts,
                f <= ts.len(),
                chosen < ts.len(),
                fallbacks@ == fallback_list(
                    ts.subrange(0, f as int),
                    self.max_latency_threshold_ms,
                    self.min_reliability_permille,
                    chosen as int,
                ),
            decreases ts.len() - f,
        {
            proof {
                assert(ts.subrange(0, f + 1).drop_last() =~= ts.subrange(0, f as int));
                assert(ts.subrange(0, f + 1).last() == ts[f as int]);
            }
            if f != chosen && self.is_available(f) {
                fallbacks.push(self.snapshot(f));
            }
            f += 1;
        }
        proof {
            assert(ts.subrange(0, ts.len() as int) =~= ts);
        }
        RoutingDecision {
            selected_target: Some(selected),
            route_type: RouteType::Proxy,
            estimated_latency_ms: est,
            fallback_targets: fallbacks,
        }
    }
}

} // verus!
