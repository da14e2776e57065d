//! Threshold and baseline-ratio anomaly detection with a per-type cooldown.
//! Each pass compares the fresh metrics against the pre-update baseline,
//! appends the new samples afterwards (so a spike cannot dilute its own
//! baseline), and keeps a bounded event history.

use vstd::prelude::*;
use vstd::string::StringExecFns;
use crate::config::AnomalyDetectionConfig;

verus! {

/// Minimum interval between two alerts of the same type.
pub const ALERT_COOLDOWN_MS: u64 = 30_000;

/// How long baseline samples are retained.
pub const HISTORY_WINDOW_MS: u64 = 300_000;

/// Bound on the event history ring.
pub const MAX_EVENT_HISTORY: usize = 200;

/// Bound on a request-rate sample (in milli-requests per second) so that
/// the baseline comparison fits machine arithmetic.
pub const RATE_MILLI_CAP: u64 = 0x100_0000_0000;

/// Bound on the configured spike multiplier (in thousandths), for the same
/// reason.
pub const SPIKE_THRESHOLD_CAP: u64 = 0x10_0000;

#[derive(Debug, Clone, Copy, PartialEq, Eq, Hash, Structural)]
pub enum AnomalyType {
    TrafficSpike,
    LatencySpike,
    ErrorRateHigh,
    ConnectionFlood,
}

#[derive(Debug, Clone, Copy, PartialEq, Eq, Structural)]
pub enum Severity {
    Low,
    Medium,
    High,
}

/// One emitted anomaly. `value_milli` and `threshold_milli` carry the
/// observed value and the crossed threshold in thousandths of the metric's
/// base unit (milli-requests per second, milliseconds, thousandths of the
/// error ratio, milli-connections).
#[derive(Debug)]
pub struct AnomalyEvent {
    pub id: String,
    pub timestamp_ms: u64,
    pub anomaly_type: AnomalyType,
    pub value_milli: u64,
    pub threshold_milli: u64,
    pub description: String,
    pub severity: Severity,
}

impl Clone for AnomalyEvent {
    fn clone(&self) -> (res: Self)
        ensures
            res == *self,
    {
        AnomalyEvent {
            id: self.id.clone(),
            timestamp_ms: self.timestamp_ms,
            anomaly_type: self.anomaly_type,
            value_milli: self.value_milli,
            threshold_milli: self.threshold_milli,
            description: self.description.clone(),
            severity: self.severity,
        }
    }
}

/// When each anomaly type last fired.
#[derive(Debug, Clone, Copy, PartialEq, Eq, Structural)]
pub struct LastAlert {
    pub traffic_spike: Option<u64>,
    pub latency_spike: Option<u64>,
    pub error_rate: Option<u64>,
    pub connection_flood: Option<u64>,
}

/// A type that fired at `t` stays suppressed until `t + ALERT_COOLDOWN_MS`
/// (a pass whose clock runs behind the alert is suppressed too).
pub open spec fn on_cooldown(last: Option<u64>, now: u64) -> bool {
    match last {
        Some(t) => now < t + ALERT_COOLDOWN_MS,
        None => false,
    }
}

/// The sum of the sampled values in a series of `(timestamp, value)` pairs.
pub open spec fn sum_rates(s: Seq<(u64, u64)>) -> int
    decreases s.len(),
{
    if s.len() == 0 {
        0
    } else {
        sum_rates(s.drop_last()) + s.last().1
    }
}

/// How many leading samples are older than the cutoff.
pub open spec fn pairs_evict_len(s: Seq<(u64, u64)>, cutoff: u64) -> int
    decreases s.len(),
{
    if s.len() == 0 || s[0].0 >= cutoff {
        0
    } else {
        1 + pairs_evict_len(s.drop_first(), cutoff)
    }
}

/// A series after evicting its stale prefix.
pub open spec fn pairs_evict(s: Seq<(u64, u64)>, cutoff: u64) -> Seq<(u64, u64)> {
    s.skip(pairs_evict_len(s, cutoff))
}

/// The cutoff below which baseline samples are dropped.
pub open spec fn history_cutoff(now: u64) -> u64 {
    if now >= HISTORY_WINDOW_MS {
        (now - HISTORY_WINDOW_MS) as u64
    } else {
        0
    }
}

/// A traffic spike fires when the type is off cooldown, at least five
/// baseline samples exist, and the current rate exceeds the baseline
/// average times the configured multiplier:
/// `cur > (sum/n) · (thr/1000)`, compared exactly by cross-multiplication.
pub open spec fn spike_fires(
    rates: Seq<(u64, u64)>,
    thr_permille: u64,
    last: Option<u64>,
    cur_milli: u64,
    now: u64,
) -> bool {
    &&& !on_cooldown(last, now)
    &&& rates.len() >= 5
    &&& cur_milli * rates.len() * 1000 > sum_rates(rates) * thr_permille
}

/// A spike twice over the threshold is high severity.
pub open spec fn spike_high(rates: Seq<(u64, u64)>, thr_permille: u64, cur_milli: u64) -> bool {
    cur_milli * rates.len() * 1000 > sum_rates(rates) * thr_permille * 2
}

pub open spec fn latency_fires(last: Option<u64>, cur_ms: u64, threshold_ms: u64, now: u64) -> bool {
    !on_cooldown(last, now) && cur_ms > threshold_ms
}

pub open spec fn error_fires(
    last: Option<u64>,
    cur_permille: u64,
    threshold_permille: u32,
    now: u64,
) -> bool {
    !on_cooldown(last, now) && cur_permille > threshold_permille
}

pub open spec fn flood_fires(last: Option<u64>, conns: u32, threshold: u32, now: u64) -> bool {
    !on_cooldown(last, now) && conns > threshold
}

/// The threshold a traffic spike crossed, in milli-requests per second:
/// the baseline average scaled by the configured multiplier.
pub open spec fn spike_threshold_milli(rates: Seq<(u64, u64)>, thr_permille: u64) -> u64
    recommends
        rates.len() > 0,
{
    crate::traffic_analyzer::clamp64(
        sum_rates(rates) * thr_permille / ((rates.len() * 1000) as int),
    )
}

/// Whether this anomaly type is still suppressed at `now`.
fn cooled(last: &Option<u64>, now: u64) -> (r: bool)
    ensures
        r == on_cooldown(*last, now),
{
    match last {
        Some(t) => {
            if now >= *t {
                now - *t < ALERT_COOLDOWN_MS
            } else {
                true
            }
        },
        None => false,
    }
}

/// Within the cooldown interval after an alert, a second detection pass
/// cannot fire the same type again, whatever the metrics show: two passes
/// for one type inside `ALERT_COOLDOWN_MS` yield at most one event of it.
pub proof fn lemma_cooldown_suppresses(
    rates: Seq<(u64, u64)>,
    thr_permille: u64,
    cur_milli: u64,
    cur_ms: u64,
    threshold_ms: u64,
    cur_permille: u64,
    threshold_permille: u32,
    conns: u32,
    conn_threshold: u32,
    fired_at: u64,
    now: u64,
)
    requires
        now < fired_at + ALERT_COOLDOWN_MS,
    ensures
        !spike_fires(rates, thr_permille, Some(fired_at), cur_milli, now),
        !latency_fires(Some(fired_at), cur_ms, threshold_ms, now),
        !error_fires(Some(fired_at), cur_permille, threshold_permille, now),
        !flood_fires(Some(fired_at), conns, conn_threshold, now),
{
}

/// The event ring after appending new events, oldest dropped beyond the
/// bound.
pub open spec fn cap_front(s: Seq<AnomalyEvent>, cap: int) -> Seq<AnomalyEvent> {
    if s.len() > cap {
        s.skip(s.len() - cap)
    } else {
        s
    }
}

/// Relies on `uuid::Uuid::new_v4` and its `Display` form: a fresh random
/// identifier rendered as 36 hyphenated characters.
#[verifier::external_body]
fn new_event_id() -> (r: String)
    ensures
        r@.len() == 36,
{
    uuid::Uuid::new_v4().to_string()
}

/// Evaluate the traffic-spike condition against the current baseline:
/// whether it fires, whether it is twice over, and the crossed threshold.
fn spike_check(rates: &Vec<(u64, u64)>, thr_permille: u64, last: &Option<u64>, rate_milli: u64, now_ms: u64) -> (r: (
    bool,
    bool,
    u64,
))
    requires
        forall|i: int| 0 <= i < rates@.len() ==> (#[trigger] rates@[i]).1 <= RATE_MILLI_CAP,
        thr_permille <= SPIKE_THRESHOLD_CAP,
        rate_milli <= RATE_MILLI_CAP,
    ensures
        r.0 == spike_fires(rates@, thr_permille, *last, rate_milli, now_ms),
        r.1 == spike_high(rates@, thr_permille, rate_milli),
        rates@.len() > 0 ==> r.2 == spike_threshold_milli(rates@, thr_permille),
{
    let ghost rates1 = rates@;
    let n = rates.len();
    let mut sum: u128 = 0;
    let mut i: usize = 0;
    while i < n
        invariant
            i <= n,
            n == rates@.len(),
            rates@ == rates1,
            forall|k: int| 0 <= k < rates1.len() ==> (#[trigger] rates1[k]).1 <= RATE_MILLI_CAP,
            sum == sum_rates(rates1.subrange(0, i as int)),
            sum <= (i as int) * (RATE_MILLI_CAP as int),
        decreases n - i,
    {
        proof {
            assert(rates1.subrange(0, i + 1).drop_last() =~= rates1.subrange(0, i as int));
            assert(rates1.subrange(0, i + 1).last() == rates1[i as int]);
            assert((i + 1) * (RATE_MILLI_CAP as int) == (i as int) * (RATE_MILLI_CAP as int)
                + (RATE_MILLI_CAP as int)) by (nonlinear_arith);
        }
        sum = sum + rates[i].1 as u128;
        i += 1;
    }
    proof {
        assert(rates1.subrange(0, rates1.len() as int) =~= rates1);
        assert(sum <= (rates1.len() as int) * (RATE_MILLI_CAP as int));
        assert((rate_milli as int) * (rates1.len() as int) <= (RATE_MILLI_CAP as int) * (
        rates1.len() as int)) by (nonlinear_arith)
            requires
                rate_milli <= RATE_MILLI_CAP,
                rates1.len() >= 0,
        ;
        assert((RATE_MILLI_CAP as int) * (rates1.len() as int) * 1000 < 0x1_0000_0000_0000_0000_0000_0000_0000_0000int)
            by (nonlinear_arith)
            requires
                rates1.len() <= 0xFFFF_FFFF_FFFF_FFFFint,
        ;
        assert((rate_milli as int) * (rates1.len() as int) * 1000 <= (RATE_MILLI_CAP as int)
            * (rates1.len() as int) * 1000) by (nonlinear_arith)
            requires
                (rate_milli as int) * (rates1.len() as int) <= (RATE_MILLI_CAP as int) * (
                rates1.len() as int),
        ;
        assert(sum * (thr_permille as int) <= (rates1.len() as int)
            * (RATE_MILLI_CAP as int) * (SPIKE_THRESHOLD_CAP as int)) by (nonlinear_arith)
            requires
                sum <= (rates1.len() as int) * (RATE_MILLI_CAP as int),
                thr_permille <= SPIKE_THRESHOLD_CAP,
                sum >= 0,
        ;
        assert((rates1.len() as int) * (RATE_MILLI_CAP as int) * (SPIKE_THRESHOLD_CAP as int)
            * 2 < 0x1_0000_0000_0000_0000_0000_0000_0000_0000int) by (nonlinear_arith)
            requires
                rates1.len() <= 0xFFFF_FFFF_FFFF_FFFFint,
        ;
    }
    let lhs = (rate_milli as u128) * (n as u128) * 1000;
    let rhs = sum * (thr_permille as u128);
    let sp_cool = cooled(last, now_ms);
    let sp = !sp_cool && n >= 5 && lhs > rhs;
    let sp_is_high = lhs > rhs * 2;
    let thr_milli = if n > 0 {
        let thr_milli_wide = rhs / ((n as u128) * 1000);
        if thr_milli_wide > u64::MAX as u128 {
            u64::MAX
        } else {
            thr_milli_wide as u64
        }
    } else {
        0
    };
    (sp, sp_is_high, thr_milli)
}

pub struct AnomalyDetector {
    pub config: AnomalyDetectionConfig,
    pub request_rates: Vec<(u64, u64)>,
    pub latency_history: Vec<(u64, u64)>,
    pub error_rates: Vec<(u64, u64)>,
    pub event_history: Vec<AnomalyEvent>,
    pub last_alert: LastAlert,
}

/// Drop the samples of a series that fell out of the retention window.
fn evict_pairs(v: &mut Vec<(u64, u64)>, cutoff: u64)
    ensures
        final(v)@ == pairs_evict(old(v)@, cutoff),
{
    while v.len() > 0 && v[0].0 < cutoff
        invariant
            pairs_evict(old(v)@, cutoff) == pairs_evict(v@, cutoff),
        decreases v@.len(),
    {
        let ghost pre = v@;
        v.remove(0);
        proof {
            assert(v@ =~= pre.drop_first());
            lemma_pairs_evict_len_bounds(pre.drop_first(), cutoff);
            assert(pairs_evict_len(pre, cutoff) == 1 + pairs_evict_len(pre.drop_first(), cutoff));
            assert(pre.skip(pairs_evict_len(pre, cutoff)) =~= pre.drop_first().skip(
                pairs_evict_len(pre.drop_first(), cutoff),
            ));
        }
    }
    proof {
        assert(pairs_evict_len(v@, cutoff) == 0);
        assert(v@.skip(0) =~= v@);
    }
}

/// The eviction count never passes the end of the series.
pub proof fn lemma_pairs_evict_len_bounds(s: Seq<(u64, u64)>, cutoff: u64)
    ensures
        0 <= pairs_evict_len(s, cutoff) <= s.len(),
    decreases s.len(),
{
    if s.len() > 0 && s[0].0 < cutoff {
        lemma_pairs_evict_len_bounds(s.drop_first(), cutoff);
    }
}

/// Eviction keeps only samples that were already in the series.
proof fn lemma_pairs_evict_elements(s: Seq<(u64, u64)>, cutoff: u64)
    ensures
        forall|i: int|
            0 <= i < pairs_evict(s, cutoff).len() ==> exists|j: int|
                0 <= j < s.len() && #[trigger] pairs_evict(s, cutoff)[i] == s[j],
{
    lemma_pairs_evict_len_bounds(s, cutoff);
    let k = pairs_evict_len(s, cutoff);
    assert forall|i: int| 0 <= i < pairs_evict(s, cutoff).len() implies exists|j: int|
        0 <= j < s.len() && #[trigger] pairs_evict(s, cutoff)[i] == s[j] by {
        assert(pairs_evict(s, cutoff)[i] == s[k + i]);
    }
}

impl AnomalyDetector {
    /// Configured bounds that keep the baseline comparison inside machine
    /// arithmetic, and sampled rates inside their cap.
    pub open spec fn wf(&self) -> bool {
        &&& self.config.spike_threshold_permille <= SPIKE_THRESHOLD_CAP
        &&& forall|i: int|
            0 <= i < self.request_rates@.len() ==> (#[trigger] self.request_rates@[i]).1
                <= RATE_MILLI_CAP
    }

    /// A detector with empty baselines and history.
    pub fn new(config: AnomalyDetectionConfig) -> (r: AnomalyDetector)
        requires
            config.spike_threshold_permille <= SPIKE_THRESHOLD_CAP,
        ensures
            r.wf(),
            r.config == config,
            r.request_rates@.len() == 0,
            r.latency_history@.len() == 0,
            r.error_rates@.len() == 0,
            r.event_history@.len() == 0,
            r.last_alert == (LastAlert {
                traffic_spike: None,
                latency_spike: None,
                error_rate: None,
                connection_flood: None,
            }),
    {
        AnomalyDetector {
            config,
            request_rates: Vec::new(),
            latency_history: Vec::new(),
            error_rates: Vec::new(),
            event_history: Vec::new(),
            last_alert: LastAlert {
                traffic_spike: None,
                latency_spike: None,
                error_rate: None,
                connection_flood: None,
            },
        }
    }

    /// One detection pass at `now_ms`. The metrics are compared against
    /// the baselines as they stood before this pass; the new samples are
    /// appended afterwards. Every returned event is also appended to the
    /// bounded history and stamps its type's cooldown. Exactly the fired
    /// conditions produce events, one per type, each carrying the observed
    /// value and the crossed threshold.
    #[verifier::rlimit(100)]
    #[verifier::spinoff_prover]
    pub fn detect(
        &mut self,
        rate_milli: u64,
        avg_latency_ms: u64,
        error_rate_permille: u64,
        active_connections: u32,
        now_ms: u64,
    ) -> (r: Vec<AnomalyEvent>)
        requires
            old(self).wf(),
            rate_milli <= RATE_MILLI_CAP,
        ensures
            final(self).wf(),
            final(self).config == old(self).config,
            !old(self).config.enabled ==> (*final(self) == *old(self) && r@.len() == 0),
            old(self).config.enabled ==> ({
                let cut = history_cutoff(now_ms);
                let rates1 = pairs_evict(old(self).request_rates@, cut);
                let sp = spike_fires(
                    rates1,
                    old(self).config.spike_threshold_permille,
                    old(self).last_alert.traffic_spike,
                    rate_milli,
                    now_ms,
                );
                let lt = latency_fires(
                    old(self).last_alert.latency_spike,
                    avg_latency_ms,
                    old(self).config.latency_threshold_ms,
                    now_ms,
                );
                let er = error_fires(
                    old(self).last_alert.error_rate,
                    error_rate_permille,
                    old(self).config.error_rate_threshold_permille,
                    now_ms,
                );
                let fl = flood_fires(
                    old(self).last_alert.connection_flood,
                    active_connections,
                    old(self).config.connection_threshold,
                    now_ms,
                );
                &&& final(self).request_rates@ == rates1.push((now_ms, rate_milli))
                &&& final(self).latency_history@ == pairs_evict(
                    old(self).latency_history@,
                    cut,
                ).push((now_ms, avg_latency_ms))
                &&& final(self).error_rates@ == pairs_evict(old(self).error_rates@, cut).push(
                    (now_ms, error_rate_permille),
                )
                &&& r@.len() == (if sp {
                    1int
                } else {
                    0
                }) + (if lt {
                    1int
                } else {
                    0
                }) + (if er {
                    1int
                } else {
                    0
                }) + (if fl {
                    1int
                } else {
                    0
                })
                &&& sp <==> exists|i: int|
                    0 <= i < r@.len() && (#[trigger] r@[i]).anomaly_type
                        == AnomalyType::TrafficSpike
                &&& lt <==> exists|i: int|
                    0 <= i < r@.len() && (#[trigger] r@[i]).anomaly_type
                        == AnomalyType::LatencySpike
                &&& er <==> exists|i: int|
                    0 <= i < r@.len() && (#[trigger] r@[i]).anomaly_type
                        == AnomalyType::ErrorRateHigh
                &&& fl <==> exists|i: int|
                    0 <= i < r@.len() && (#[trigger] r@[i]).anomaly_type
                        == AnomalyType::ConnectionFlood
                &&& forall|i: int|
                    0 <= i < r@.len() ==> (#[trigger] r@[i]).timestamp_ms == now_ms
                        && r@[i].id@.len() == 36
                &&& forall|i: int|
                    0 <= i < r@.len() && (#[trigger] r@[i]).anomaly_type
                        == AnomalyType::TrafficSpike ==> r@[i].value_milli == rate_milli
                        && r@[i].threshold_milli == spike_threshold_milli(
                        rates1,
                        old(self).config.spike_threshold_permille,
                    ) && r@[i].severity == (if spike_high(
                        rates1,
                        old(self).config.spike_threshold_permille,
                        rate_milli,
                    ) {
                        Severity::High
                    } else {
                        Severity::Medium
                    })
                &&& forall|i: int|
                    0 <= i < r@.len() && (#[trigger] r@[i]).anomaly_type
                        == AnomalyType::LatencySpike ==> r@[i].value_milli == avg_latency_ms
                        && r@[i].threshold_milli == old(self).config.latency_threshold_ms
                        && r@[i].severity == Severity::Medium
                &&& forall|i: int|
                    0 <= i < r@.len() && (#[trigger] r@[i]).anomaly_type
                        == AnomalyType::ErrorRateHigh ==> r@[i].value_milli == error_rate_permille
                        && r@[i].threshold_milli == old(
                        self,
                    ).config.error_rate_threshold_permille && r@[i].severity == Severity::High
                &&& forall|i: int|
                    0 <= i < r@.len() && (#[trigger] r@[i]).anomaly_type
                        == AnomalyType::ConnectionFlood ==> r@[i].value_milli
                        == active_connections * 1000 && r@[i].threshold_milli == old(
                        self,
                    ).config.connection_threshold * 1000 && r@[i].severity == Severity::High
                &&& final(self).last_alert == (LastAlert {
                    traffic_spike: if sp {
                        Some(now_ms)
                    } else {
                        old(self).last_alert.traffic_spike
                    },
                    latency_spike: if lt {
                        Some(now_ms)
                    } else {
                        old(self).last_alert.latency_spike
                    },
                    error_rate: if er {
                        Some(now_ms)
                    } else {
                        old(self).last_alert.error_rate
                    },
                    connection_flood: if fl {
                        Some(now_ms)
                    } else {
                        old(self).last_alert.connection_flood
                    },
                })
                &&& final(self).event_history@ == cap_front(
                    old(self).event_history@ + r@,
                    MAX_EVENT_HISTORY as int,
                )
            }),
    {
        if !self.config.enabled {
            return Vec::new();
        }
        let cutoff = if now_ms >= HISTORY_WINDOW_MS {
            now_ms - HISTORY_WINDOW_MS
        } else {
            0
        };
        proof {
            lemma_pairs_evict_elements(self.request_rates@, cutoff);
        }
        evict_pairs(&mut self.request_rates, cutoff);
        evict_pairs(&mut self.latency_history, cutoff);
        evict_pairs(&mut self.error_rates, cutoff);
        let ghost rates1 = self.request_rates@;
        assert(forall|i: int|
            0 <= i < rates1.len() ==> (#[trigger] rates1[i]).1 <= RATE_MILLI_CAP);
        let mut events: Vec<AnomalyEvent> = Vec::new();

        // Traffic spike: compare against the baseline average by
        // cross-multiplication, which is exact.
        let spike_result = spike_check(
            &self.request_rates,
            self.config.spike_threshold_permille,
            &self.last_alert.traffic_spike,
            rate_milli,
            now_ms,
        );
        let sp = spike_result.0;
        let sp_is_high = spike_result.1;
        if sp {
            let thr_milli = spike_result.2;
            events.push(
                AnomalyEvent {
                    id: new_event_id(),
                    timestamp_ms: now_ms,
                    anomaly_type: AnomalyType::TrafficSpike,
                    value_milli: rate_milli,
                    threshold_milli: thr_milli,
                    description: String::from_str(
                        "Traffic spike detected: request rate above the baseline threshold",
                    ),
                    severity: if sp_is_high {
                        Severity::High
                    } else {
                        Severity::Medium
                    },
                },
            );
        }

        // Latency spike.
        let lt_cool = cooled(&self.last_alert.latency_spike, now_ms);
        let lt = !lt_cool && avg_latency_ms > self.config.latency_threshold_ms;
        if lt {
            events.push(
                AnomalyEvent {
                    id: new_event_id(),
                    timestamp_ms: now_ms,
                    anomaly_type: AnomalyType::LatencySpike,
                    value_milli: avg_latency_ms,
                    threshold_milli: self.config.latency_threshold_ms,
                    description: String::from_str("High latency: above the configured threshold"),
                    severity: Severity::Medium,
                },
            );
        }

        // Error rate.
        let er_cool = cooled(&self.last_alert.error_rate, now_ms);
        let er = !er_cool && error_rate_permille > self.config.error_rate_threshold_permille
            as u64;
        if er {
            events.push(
                AnomalyEvent {
                    id: new_event_id(),
                    timestamp_ms: now_ms,
                    anomaly_type: AnomalyType::ErrorRateHigh,
                    value_milli: error_rate_permille,
                    threshold_milli: self.config.error_rate_threshold_permille as u64,
                    description: String::from_str(
                        "High error rate: above the configured threshold",
                    ),
                    severity: Severity::High,
                },
            );
        }

        // Connection flood.
        let fl_cool = cooled(&self.last_alert.connection_flood, now_ms);
        let fl = !fl_cool && active_connections > self.config.connection_threshold;
        if fl {
            events.push(
                AnomalyEvent {
                    id: new_event_id(),
                    timestamp_ms: now_ms,
                    anomaly_type: AnomalyType::ConnectionFlood,
                    value_milli: (active_connections as u64) * 1000,
                    threshold_milli: (self.config.connection_threshold as u64) * 1000,
                    description: String::from_str(
                        "Connection flood: active connections above the configured threshold",
                    ),
                    severity: Severity::High,
                },
            );
        }

        // Append the fresh samples after detection, so a spike does not
        // dilute its own baseline.
        self.request_rates.push((now_ms, rate_milli));
        self.latency_history.push((now_ms, avg_latency_ms));
        self.error_rates.push((now_ms, error_rate_permille));

        // Stamp cooldowns and extend the bounded history.
        if sp {
            self.last_alert.traffic_spike = Some(now_ms);
        }
        if lt {
            self.last_alert.latency_spike = Some(now_ms);
        }
        if er {
            self.last_alert.error_rate = Some(now_ms);
        }
        if fl {
            self.last_alert.connection_flood = Some(now_ms);
        }
        let ghost hist0 = self.event_history@;
        let ghost snap2 = *self;
        let mut e: usize = 0;
        while e < events.len()
            invariant
                e <= events@.len(),
                self.event_history@ == hist0 + events@.subrange(0, e as int),
                self.config == snap2.config,
                self.request_rates == snap2.request_rates,
                self.latency_history == snap2.latency_history,
                self.error_rates == snap2.error_rates,
                self.last_alert == snap2.last_alert,
            decreases events@.len() - e,
        {
            proof {
                assert(hist0 + events@.subrange(0, e + 1) =~= (hist0 + events@.subrange(
                    0,
                    e as int,
                )).push(events@[e as int]));
            }
            self.event_history.push(events[e].clone());
            e += 1;
        }
        proof {
            assert(events@.subrange(0, events@.len() as int) =~= events@);
        }
        let ghost full = hist0 + events@;
        while self.event_history.len() > MAX_EVENT_HISTORY
            invariant
                cap_front(full, MAX_EVENT_HISTORY as int) == cap_front(
                    self.event_history@,
                    MAX_EVENT_HISTORY as int,
                ),
                self.config == snap2.config,
                self.request_rates == snap2.request_rates,
                self.latency_history == snap2.latency_history,
                self.error_rates == snap2.error_rates,
                self.last_alert == snap2.last_alert,
            decreases self.event_history@.len(),
        {
            let ghost pre = self.event_history@;
            self.event_history.remove(0);
            proof {
                assert(self.event_history@ =~= pre.drop_first());
                assert(pre.skip(pre.len() - MAX_EVENT_HISTORY) =~= pre.drop_first().skip(
                    pre.len() - 1 - MAX_EVENT_HISTORY,
                ));
                if pre.drop_first().len() > MAX_EVENT_HISTORY as int {
                } else {
                    assert(pre.drop_first().skip(0) =~= pre.drop_first());
                }
            }
        }
        proof {
            if self.event_history@.len() <= MAX_EVENT_HISTORY as int {
                assert(cap_front(self.event_history@, MAX_EVENT_HISTORY as int)
                    == self.event_history@);
            }
            if sp {
                assert(events@[0].anomaly_type == AnomalyType::TrafficSpike);
            }
            if lt {
                let idx: int = if sp {
                    1
                } else {
                    0
                };
                assert(events@[idx].anomaly_type == AnomalyType::LatencySpike);
            }
            if er {
                let idx: int = (if sp {
                    1int
                } else {
                    0
                }) + (if lt {
                    1int
                } else {
                    0
                });
                assert(events@[idx].anomaly_type == AnomalyType::ErrorRateHigh);
            }
            if fl {
                let idx: int = (if sp {
                    1int
                } else {
                    0
                }) + (if lt {
                    1int
                } else {
                    0
                }) + (if er {
                    1int
                } else {
                    0
                });
                assert(events@[idx].anomaly_type == AnomalyType::ConnectionFlood);
            }
        }
        events
    }

    /// A copy of the bounded event history, oldest first.
    pub fn get_event_history(&self) -> (r: Vec<AnomalyEvent>)
        ensures
            r@.len() == self.event_history@.len(),
            forall|i: int| 0 <= i < r@.len() ==> #[trigger] r@[i] == self.event_history@[i],
    {
        let mut out: Vec<AnomalyEvent> = Vec::new();
        let mut i: usize = 0;
        while i < self.event_history.len()
            invariant
                i <= self.event_history@.len(),
                out@.len() == i,
                forall|j: int| 0 <= j < i ==> #[trigger] out@[j] == self.event_history@[j],
            decreases self.event_history@.len() - i,
        {
            out.push(self.event_history[i].clone());
            i += 1;
        }
        out
    }
}

} // verus!
