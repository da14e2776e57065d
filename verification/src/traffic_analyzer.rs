//! Rolling-window traffic statistics: per-request observations and byte
//! transfers enter a history, entries older than the window are evicted,
//! and the published statistics are recomputed from what remains — counts,
//! rates, mean latency, latency percentiles, and an error rate.

use vstd::prelude::*;
use vstd::relations::sorted_by;
use vstd::seq_lib::lemma_sorted_unique;
use vstd::seq_lib::to_multiset_insert;
use vstd::seq_lib::to_multiset_build;

verus! {

/// Requests slower than this count as errors when no explicit outcome is
/// attached to a sample.
pub const ERROR_LATENCY_MS: u64 = 10_000;

/// One completed request's observation.
#[derive(Debug, Clone)]
pub struct RequestInfo {
    pub timestamp_ms: u64,
    pub size: u64,
    pub latency_ms: u64,
    pub protocol: String,
    pub success: bool,
}

/// One transfer-size sample: bytes seen at a moment, inbound or outbound.
#[derive(Debug, Clone, Copy, PartialEq, Eq, Structural)]
pub struct ByteRecord {
    pub timestamp_ms: u64,
    pub bytes: u64,
    pub inbound: bool,
}

/// The published view over the current window. Rates are in thousandths
/// (`requests_per_sec_milli = 1500` stands for 1.5 req/s); the error rate
/// is in thousandths of the request count.
#[derive(Debug, Clone, Copy, PartialEq, Eq, Structural)]
pub struct TrafficStats {
    pub total_requests: u64,
    pub total_bytes_in: u64,
    pub total_bytes_out: u64,
    pub active_connections: u32,
    pub requests_per_sec_milli: u64,
    pub bytes_per_sec_milli: u64,
    pub avg_latency_ms: u64,
    pub p50_latency_ms: u64,
    pub p95_latency_ms: u64,
    pub p99_latency_ms: u64,
    pub error_count: u64,
    pub error_rate_permille: u64,
}

impl Default for TrafficStats {
    /// All-zero statistics: what an analyzer publishes before any sample.
    fn default() -> (r: TrafficStats)
        ensures
            r == TrafficStats::spec_zero(),
    {
        TrafficStats {
            total_requests: 0,
            total_bytes_in: 0,
            total_bytes_out: 0,
            active_connections: 0,
            requests_per_sec_milli: 0,
            bytes_per_sec_milli: 0,
            avg_latency_ms: 0,
            p50_latency_ms: 0,
            p95_latency_ms: 0,
            p99_latency_ms: 0,
            error_count: 0,
            error_rate_permille: 0,
        }
    }
}

impl TrafficStats {
    pub open spec fn spec_zero() -> TrafficStats {
        TrafficStats {
            total_requests: 0,
            total_bytes_in: 0,
            total_bytes_out: 0,
            active_connections: 0,
            requests_per_sec_milli: 0,
            bytes_per_sec_milli: 0,
            avg_latency_ms: 0,
            p50_latency_ms: 0,
            p95_latency_ms: 0,
            p99_latency_ms: 0,
            error_count: 0,
            error_rate_permille: 0,
        }
    }
}

/// A sample at `ts` still falls inside the window ending at `now`.
pub open spec fn in_window(ts: u64, now: u64, window_ms: u64) -> bool {
    ts + window_ms > now
}

/// The cutoff below which samples are evicted.
pub open spec fn spec_cutoff(now: u64, window_ms: u64) -> u64 {
    if now >= window_ms {
        (now - window_ms) as u64
    } else {
        0
    }
}

/// How many leading request samples are older than the cutoff.
pub open spec fn req_evict_len(h: Seq<RequestInfo>, cutoff: u64) -> int
    decreases h.len(),
{
    if h.len() == 0 || h[0].timestamp_ms >= cutoff {
        0
    } else {
        1 + req_evict_len(h.drop_first(), cutoff)
    }
}

/// The request history after evicting its stale prefix.
pub open spec fn req_evict(h: Seq<RequestInfo>, cutoff: u64) -> Seq<RequestInfo> {
    h.skip(req_evict_len(h, cutoff))
}

/// How many leading byte samples are older than the cutoff.
pub open spec fn bytes_evict_len(h: Seq<ByteRecord>, cutoff: u64) -> int
    decreases h.len(),
{
    if h.len() == 0 || h[0].timestamp_ms >= cutoff {
        0
    } else {
        1 + bytes_evict_len(h.drop_first(), cutoff)
    }
}

/// The byte history after evicting its stale prefix.
pub open spec fn bytes_evict(h: Seq<ByteRecord>, cutoff: u64) -> Seq<ByteRecord> {
    h.skip(bytes_evict_len(h, cutoff))
}

/// The request samples inside the window.
pub open spec fn windowed(h: Seq<RequestInfo>, now: u64, window_ms: u64) -> Seq<RequestInfo> {
    h.filter(|r: RequestInfo| in_window(r.timestamp_ms, now, window_ms))
}

pub open spec fn sum_sizes(s: Seq<RequestInfo>) -> int
    decreases s.len(),
{
    if s.len() == 0 {
        0
    } else {
        sum_sizes(s.drop_last()) + s.last().size
    }
}

pub open spec fn sum_latencies(s: Seq<RequestInfo>) -> int
    decreases s.len(),
{
    if s.len() == 0 {
        0
    } else {
        sum_latencies(s.drop_last()) + s.last().latency_ms
    }
}

pub open spec fn count_errors(s: Seq<RequestInfo>) -> int
    decreases s.len(),
{
    if s.len() == 0 {
        0
    } else {
        count_errors(s.drop_last()) + (if s.last().latency_ms > ERROR_LATENCY_MS {
            1int
        } else {
            0
        })
    }
}

/// The sum of byte samples in one direction.
pub open spec fn sum_bytes(s: Seq<ByteRecord>, inbound: bool) -> int
    decreases s.len(),
{
    if s.len() == 0 {
        0
    } else {
        sum_bytes(s.drop_last(), inbound) + (if s.last().inbound == inbound {
            s.last().bytes as int
        } else {
            0
        })
    }
}

pub open spec fn latencies_of(s: Seq<RequestInfo>) -> Seq<u64> {
    s.map_values(|r: RequestInfo| r.latency_ms)
}

/// The ordering latencies are sorted by.
pub open spec fn leq64() -> spec_fn(u64, u64) -> bool {
    |a: u64, b: u64| a <= b
}

/// The zero-based position of the `k`-th percentile in a sorted run of
/// `n` samples: the `floor(k·n/100)`-th element counted from one, with the
/// first element standing in when that lands before the run.
pub open spec fn percentile_index(n: int, k: int) -> int {
    let pos = n * k / 100;
    if pos == 0 {
        0
    } else {
        pos - 1
    }
}

/// A value clamped into `u64`.
pub open spec fn clamp64(x: int) -> u64 {
    if x > u64::MAX {
        u64::MAX
    } else if x < 0 {
        0
    } else {
        x as u64
    }
}

/// The statistics recomputed after an eviction pass: counts, sums and
/// percentiles over the in-window request samples, byte totals over the
/// retained byte samples, and rates over the window length. When no sample
/// is in the window the previous statistics stand.
pub open spec fn spec_update_stats(
    h: Seq<RequestInfo>,
    bh: Seq<ByteRecord>,
    window_secs: u64,
    now: u64,
    prev: TrafficStats,
) -> TrafficStats
    recommends
        window_secs >= 1,
{
    let recent = windowed(h, now, (window_secs * 1000) as u64);
    if h.len() == 0 || recent.len() == 0 {
        prev
    } else {
        let n = recent.len() as int;
        let sorted = latencies_of(recent).sort_by(leq64());
        TrafficStats {
            total_requests: clamp64(n),
            total_bytes_in: clamp64(sum_bytes(bh, true)),
            total_bytes_out: clamp64(sum_bytes(bh, false)),
            active_connections: prev.active_connections,
            requests_per_sec_milli: clamp64(n * 1000 / (window_secs as int)),
            bytes_per_sec_milli: clamp64((clamp64(sum_sizes(recent)) as int) * 1000 / (window_secs as int)),
            avg_latency_ms: clamp64(sum_latencies(recent) / n),
            p50_latency_ms: sorted[percentile_index(n, 50)],
            p95_latency_ms: if n >= 20 {
                sorted[percentile_index(n, 95)]
            } else {
                sorted[n - 1]
            },
            p99_latency_ms: if n >= 100 {
                sorted[percentile_index(n, 99)]
            } else {
                sorted[n - 1]
            },
            error_count: clamp64(count_errors(recent)),
            error_rate_permille: clamp64(count_errors(recent) * 1000 / n),
        }
    }
}

pub struct TrafficAnalyzer {
    pub request_history: Vec<RequestInfo>,
    pub byte_history: Vec<ByteRecord>,
    pub window_secs: u64,
    pub current_stats: TrafficStats,
}

impl TrafficAnalyzer {
    /// The window length in milliseconds.
    pub open spec fn window_ms(&self) -> u64 {
        (self.window_secs * 1000) as u64
    }

    /// A usable window length, and byte samples in time order (they are
    /// stamped by one monotone clock as they arrive).
    pub open spec fn wf(&self) -> bool {
        &&& 1 <= self.window_secs <= 0xFFFF_FFFFu64
        &&& forall|i: int, j: int|
            0 <= i < j < self.byte_history@.len() ==> #[trigger] self.byte_history@[i].timestamp_ms
                <= #[trigger] self.byte_history@[j].timestamp_ms
    }

    /// An analyzer over a window of `window_secs` seconds, publishing
    /// all-zero statistics until the first sample.
    pub fn new(window_secs: u64) -> (r: TrafficAnalyzer)
        requires
            1 <= window_secs <= 0xFFFF_FFFFu64,
        ensures
            r.wf(),
            r.request_history@.len() == 0,
            r.byte_history@.len() == 0,
            r.window_secs == window_secs,
            r.current_stats == TrafficStats::spec_zero(),
    {
        TrafficAnalyzer {
            request_history: Vec::new(),
            byte_history: Vec::new(),
            window_secs,
            current_stats: TrafficStats::default(),
        }
    }

    /// The current published statistics.
    pub fn get_stats(&self) -> (r: &TrafficStats)
        ensures
            *r == self.current_stats,
    {
        &self.current_stats
    }

    /// Set the active-connection gauge; no other field moves.
    pub fn update_connections(&mut self, active: u32)
        ensures
            *final(self) == (TrafficAnalyzer {
                current_stats: TrafficStats {
                    active_connections: active,
                    ..old(self).current_stats
                },
                ..*old(self)
            }),
    {
        self.current_stats.active_connections = active;
    }

    /// Drop request samples older than the window.
    fn evict_requests(&mut self, cutoff: u64)
        ensures
            final(self).request_history@ == req_evict(old(self).request_history@, cutoff),
            final(self).byte_history == old(self).byte_history,
            final(self).window_secs == old(self).window_secs,
            final(self).current_stats == old(self).current_stats,
    {
        while self.request_history.len() > 0 && self.request_history[0].timestamp_ms < cutoff
            invariant
                req_evict(old(self).request_history@, cutoff) == req_evict(
                    self.request_history@,
                    cutoff,
                ),
                self.byte_history == old(self).byte_history,
                self.window_secs == old(self).window_secs,
                self.current_stats == old(self).current_stats,
            decreases self.request_history@.len(),
        {
            let ghost pre = self.request_history@;
            self.request_history.remove(0);
            proof {
                assert(self.request_history@ =~= pre.drop_first());
                lemma_req_evict_len_bounds(pre.drop_first(), cutoff);
                assert(req_evict_len(pre, cutoff) == 1 + req_evict_len(pre.drop_first(), cutoff));
                assert(pre.skip(req_evict_len(pre, cutoff)) =~= pre.drop_first().skip(
                    req_evict_len(pre.drop_first(), cutoff),
                ));
            }
        }
        proof {
            let h = self.request_history@;
            assert(req_evict_len(h, cutoff) == 0);
            assert(h.skip(0) =~= h);
        }
    }

    /// Drop byte samples older than the window.
    fn evict_bytes(&mut self, cutoff: u64)
        ensures
            final(self).byte_history@ == bytes_evict(old(self).byte_history@, cutoff),
            final(self).request_history == old(self).request_history,
            final(self).window_secs == old(self).window_secs,
            final(self).current_stats == old(self).current_stats,
    {
        while self.byte_history.len() > 0 && self.byte_history[0].timestamp_ms < cutoff
            invariant
                bytes_evict(old(self).byte_history@, cutoff) == bytes_evict(
                    self.byte_history@,
                    cutoff,
                ),
                self.request_history == old(self).request_history,
                self.window_secs == old(self).window_secs,
                self.current_stats == old(self).current_stats,
            decreases self.byte_history@.len(),
        {
            let ghost pre = self.byte_history@;
            self.byte_history.remove(0);
            proof {
                assert(self.byte_history@ =~= pre.drop_first());
                lemma_bytes_evict_len_bounds(pre.drop_first(), cutoff);
                assert(bytes_evict_len(pre, cutoff) == 1 + bytes_evict_len(
                    pre.drop_first(),
                    cutoff,
                ));
                assert(pre.skip(bytes_evict_len(pre, cutoff)) =~= pre.drop_first().skip(
                    bytes_evict_len(pre.drop_first(), cutoff),
                ));
            }
        }
        proof {
            let h = self.byte_history@;
            assert(bytes_evict_len(h, cutoff) == 0);
            assert(h.skip(0) =~= h);
        }
    }

    /// Record one request observation at `now_ms`: append it, evict what
    /// fell out of the window, and republish the statistics.
    pub fn record_request(&mut self, request: RequestInfo, now_ms: u64)
        requires
            old(self).wf(),
        ensures
            final(self).wf(),
            final(self).window_secs == old(self).window_secs,
            final(self).request_history@ == req_evict(
                old(self).request_history@.push(request),
                spec_cutoff(now_ms, old(self).window_ms()),
            ),
            final(self).byte_history@ == bytes_evict(
                old(self).byte_history@,
                spec_cutoff(now_ms, old(self).window_ms()),
            ),
            final(self).current_stats == spec_update_stats(
                final(self).request_history@,
                final(self).byte_history@,
                old(self).window_secs,
                now_ms,
                old(self).current_stats,
            ),
    {
        self.request_history.push(request);
        let window_ms = self.window_secs * 1000;
        let cutoff = if now_ms >= window_ms {
            now_ms - window_ms
        } else {
            0
        };
        self.evict_requests(cutoff);
        self.evict_bytes(cutoff);
        proof {
            lemma_bytes_evict_sorted(old(self).byte_history@, cutoff);
        }
        self.update_stats(now_ms);
    }

    /// Record a transfer: one inbound and one outbound byte sample, both
    /// stamped `now_ms`, then evict and republish. `now_ms` must not run
    /// behind the newest byte sample (one monotone clock stamps them all).
    pub fn record_bytes(&mut self, bytes_in: u64, bytes_out: u64, now_ms: u64)
        requires
            old(self).wf(),
            old(self).byte_history@.len() > 0 ==> old(
                self,
            ).byte_history@.last().timestamp_ms <= now_ms,
        ensures
            final(self).wf(),
            final(self).window_secs == old(self).window_secs,
            final(self).request_history@ == req_evict(
                old(self).request_history@,
                spec_cutoff(now_ms, old(self).window_ms()),
            ),
            final(self).byte_history@ == bytes_evict(
                old(self).byte_history@.push(
                    ByteRecord { timestamp_ms: now_ms, bytes: bytes_in, inbound: true },
                ).push(ByteRecord { timestamp_ms: now_ms, bytes: bytes_out, inbound: false }),
                spec_cutoff(now_ms, old(self).window_ms()),
            ),
            final(self).current_stats == spec_update_stats(
                final(self).request_history@,
                final(self).byte_history@,
                old(self).window_secs,
                now_ms,
                old(self).current_stats,
            ),
    {
        self.byte_history.push(ByteRecord { timestamp_ms: now_ms, bytes: bytes_in, inbound: true });
        self.byte_history.push(
            ByteRecord { timestamp_ms: now_ms, bytes: bytes_out, inbound: false },
        );
        proof {
            let bh0 = old(self).byte_history@;
            let bh = self.byte_history@;
            assert forall|i: int, j: int| 0 <= i < j < bh.len() implies #[trigger] bh[i].timestamp_ms
                <= #[trigger] bh[j].timestamp_ms by {
                if j < bh0.len() {
                    assert(bh[i] == bh0[i] && bh[j] == bh0[j]);
                } else if i < bh0.len() {
                    assert(bh[i] == bh0[i]);
                    assert(bh0[i].timestamp_ms <= bh0[bh0.len() - 1].timestamp_ms);
                }
            }
        }
        let window_ms = self.window_secs * 1000;
        let cutoff = if now_ms >= window_ms {
            now_ms - window_ms
        } else {
            0
        };
        self.evict_requests(cutoff);
        self.evict_bytes(cutoff);
        proof {
            let pushed = old(self).byte_history@.push(
                ByteRecord { timestamp_ms: now_ms, bytes: bytes_in, inbound: true },
            ).push(ByteRecord { timestamp_ms: now_ms, bytes: bytes_out, inbound: false });
            lemma_bytes_evict_sorted(pushed, cutoff);
        }
        self.update_stats(now_ms);
    }
}

/// Sort byte-latency samples ascending. The result is exactly the
/// specification-level sorted permutation.
fn sort_u64(v: &Vec<u64>) -> (r: Vec<u64>)
    ensures
        r@ == v@.sort_by(leq64()),
        r@.len() == v@.len(),
{
    let mut out: Vec<u64> = Vec::new();
    proof {
        assert(v@.subrange(0, 0) =~= Seq::<u64>::empty());
        assert(out@ =~= Seq::<u64>::empty());
    }
    let mut i: usize = 0;
    while i < v.len()
        invariant
            i <= v@.len(),
            sorted_by(out@, leq64()),
            out@.to_multiset() == v@.subrange(0, i as int).to_multiset(),
            out@.len() == i,
        decreases v@.len() - i,
    {
        let x = v[i];
        let mut idx: usize = 0;
        while idx < out.len() && out[idx] <= x
            invariant
                idx <= out@.len(),
                forall|j: int| 0 <= j < idx ==> #[trigger] out@[j] <= x,
            decreases out@.len() - idx,
        {
            idx += 1;
        }
        let ghost pre = out@;
        out.insert(idx, x);
        proof {
            assert forall|p: int, q: int| 0 <= p < q < out@.len() implies leq64()(
                out@[p],
                out@[q],
            ) by {
                let ii = idx as int;
                if q < ii {
                    assert(leq64()(pre[p], pre[q]));
                } else if p < ii && q == ii {
                    assert(out@[q] == x);
                    assert(pre[p] <= x);
                } else if p < ii && q > ii {
                    assert(out@[q] == pre[q - 1]);
                    if q - 1 == p {
                        assert(pre[p] <= x);
                        assert(ii <= p);
                        assert(false);
                    } else {
                        assert(leq64()(pre[p], pre[q - 1]));
                    }
                } else if p == ii {
                    assert(out@[p] == x);
                    assert(out@[q] == pre[q - 1]);
                    assert(q - 1 >= ii);
                    if ii < pre.len() {
                        assert(!(pre[ii] <= x));
                        if q - 1 == ii {
                            assert(x <= pre[q - 1]);
                        } else {
                            assert(leq64()(pre[ii], pre[q - 1]));
                        }
                    } else {
                        assert(q >= out@.len());
                        assert(false);
                    }
                } else {
                    assert(out@[p] == pre[p - 1]);
                    assert(out@[q] == pre[q - 1]);
                    assert(leq64()(pre[p - 1], pre[q - 1]));
                }
            }
            to_multiset_insert(pre, idx as int, x);
            assert(v@.subrange(0, i + 1).drop_last() =~= v@.subrange(0, i as int));
            to_multiset_build(v@.subrange(0, i as int), v@[i as int]);
            assert(v@.subrange(0, i + 1) =~= v@.subrange(0, i as int).push(v@[i as int]));
        }
        i += 1;
    }
    proof {
        assert(v@.subrange(0, v@.len() as int) =~= v@);
        v@.lemma_sort_by_ensures(leq64());
        lemma_sorted_unique(out@, v@.sort_by(leq64()), leq64());
    }
    out
}

impl TrafficAnalyzer {
    /// Recompute the published statistics from the current histories.
    fn update_stats(&mut self, now_ms: u64)
        requires
            1 <= old(self).window_secs <= 0xFFFF_FFFFu64,
        ensures
            final(self).request_history == old(self).request_history,
            final(self).byte_history == old(self).byte_history,
            final(self).window_secs == old(self).window_secs,
            final(self).current_stats == spec_update_stats(
                old(self).request_history@,
                old(self).byte_history@,
                old(self).window_secs,
                now_ms,
                old(self).current_stats,
            ),
    {
        if self.request_history.len() == 0 {
            return ;
        }
        let window_ms = self.window_secs * 1000;
        let ghost h = self.request_history@;
        let ghost pred = |r: RequestInfo| in_window(r.timestamp_ms, now_ms, window_ms);
        let mut lat: Vec<u64> = Vec::new();
        let mut size_sum: u128 = 0;
        let mut lat_sum: u128 = 0;
        let mut errs: u64 = 0;
        proof {
            assert(h.subrange(0, 0) =~= Seq::<RequestInfo>::empty());
            assert(h.subrange(0, 0).filter(pred) =~= Seq::<RequestInfo>::empty());
            assert(latencies_of(h.subrange(0, 0).filter(pred)) =~= Seq::<u64>::empty());
        }
        let mut i: usize = 0;
        while i < self.request_history.len()
            invariant
                i <= h.len(),
                self.request_history@ == h,
                window_ms == self.window_secs * 1000,
                1 <= self.window_secs <= 0xFFFF_FFFFu64,
                pred == (|r: RequestInfo| in_window(r.timestamp_ms, now_ms, window_ms)),
                lat@ == latencies_of(h.subrange(0, i as int).filter(pred)),
                size_sum == sum_sizes(h.subrange(0, i as int).filter(pred)),
                lat_sum == sum_latencies(h.subrange(0, i as int).filter(pred)),
                errs == count_errors(h.subrange(0, i as int).filter(pred)),
                errs <= lat@.len(),
                size_sum <= (i as int) * (u64::MAX as int),
                lat_sum <= (i as int) * (u64::MAX as int),
            decreases h.len() - i,
        {
            let r = &self.request_history[i];
            let keep = if now_ms >= window_ms {
                r.timestamp_ms > now_ms - window_ms
            } else {
                true
            };
            proof {
                reveal_with_fuel(Seq::filter, 2);
                assert(keep == pred(h[i as int]));
                assert(h.subrange(0, i + 1).drop_last() =~= h.subrange(0, i as int));
                assert(h.subrange(0, i + 1).last() == h[i as int]);
                assert((i + 1) * (u64::MAX as int) == (i as int) * (u64::MAX as int) + (
                u64::MAX as int)) by (nonlinear_arith);
            }
            if keep {
                lat.push(r.latency_ms);
                size_sum = size_sum + r.size as u128;
                lat_sum = lat_sum + r.latency_ms as u128;
                if r.latency_ms > ERROR_LATENCY_MS {
                    errs = errs + 1;
                }
                proof {
                    reveal_with_fuel(Seq::filter, 2);
                    let rec = h.subrange(0, i as int).filter(pred);
                    assert(h.subrange(0, i + 1).filter(pred) =~= rec.push(h[i as int]));
                    assert(latencies_of(rec.push(h[i as int])) =~= latencies_of(rec).push(
                        h[i as int].latency_ms,
                    ));
                    assert(rec.push(h[i as int]).drop_last() =~= rec);
                }
            } else {
                proof {
                    reveal_with_fuel(Seq::filter, 2);
                    assert(h.subrange(0, i + 1).filter(pred) =~= h.subrange(0, i as int).filter(
                        pred,
                    ));
                }
            }
            i += 1;
        }
        proof {
            assert(h.subrange(0, h.len() as int) =~= h);
        }
        let n = lat.len();
        if n == 0 {
            return ;
        }
        let ghost recent = windowed(h, now_ms, window_ms);
        proof {
            assert(pred =~= (|r: RequestInfo| in_window(r.timestamp_ms, now_ms, window_ms)));
            assert(recent == h.filter(pred));
        }
        let sorted = sort_u64(&lat);
        proof {
            latencies_of(recent).lemma_sort_by_ensures(leq64());
            assert(sorted@.len() == latencies_of(recent).len());
        }
        let n128 = n as u128;
        let w128 = self.window_secs as u128;
        let rps = (n128 * 1000) / w128;
        let ss64 = clamp64_exec(size_sum);
        let bps = ((ss64 as u128) * 1000) / w128;
        let avg = lat_sum / n128;
        let errs128 = errs as u128;
        let erate = (errs128 * 1000) / n128;
        let pos50 = ((n128 * 50) / 100) as usize;
        let pos95 = ((n128 * 95) / 100) as usize;
        let pos99 = ((n128 * 99) / 100) as usize;
        proof {
            assert((n as int) * 50 / 100 < n as int) by (nonlinear_arith)
                requires
                    n >= 1,
            ;
            assert((n as int) * 95 / 100 < n as int) by (nonlinear_arith)
                requires
                    n >= 1,
            ;
            assert((n as int) * 99 / 100 < n as int) by (nonlinear_arith)
                requires
                    n >= 1,
            ;
        }
        let idx50 = if pos50 == 0 {
            0
        } else {
            pos50 - 1
        };
        let idx95 = if pos95 == 0 {
            0
        } else {
            pos95 - 1
        };
        let idx99 = if pos99 == 0 {
            0
        } else {
            pos99 - 1
        };
        let p50 = sorted[idx50];
        let p95 = if n >= 20 {
            sorted[idx95]
        } else {
            sorted[n - 1]
        };
        let p99 = if n >= 100 {
            sorted[idx99]
        } else {
            sorted[n - 1]
        };
        let mut bytes_in: u128 = 0;
        let mut bytes_out: u128 = 0;
        let ghost bh = self.byte_history@;
        let mut k: usize = 0;
        while k < self.byte_history.len()
            invariant
                k <= bh.len(),
                self.byte_history@ == bh,
                bytes_in == sum_bytes(bh.subrange(0, k as int), true),
                bytes_out == sum_bytes(bh.subrange(0, k as int), false),
                bytes_in <= (k as int) * (u64::MAX as int),
                bytes_out <= (k as int) * (u64::MAX as int),
            decreases bh.len() - k,
        {
            proof {
                assert(bh.subrange(0, k + 1).drop_last() =~= bh.subrange(0, k as int));
                assert(bh.subrange(0, k + 1).last() == bh[k as int]);
                assert((k + 1) * (u64::MAX as int) == (k as int) * (u64::MAX as int) + (
                u64::MAX as int)) by (nonlinear_arith);
            }
            let b = &self.byte_history[k];
            if b.inbound {
                bytes_in = bytes_in + b.bytes as u128;
            } else {
                bytes_out = bytes_out + b.bytes as u128;
            }
            k += 1;
        }
        proof {
            assert(bh.subrange(0, bh.len() as int) =~= bh);
            vstd::arithmetic::mul::lemma_mul_upper_bound(
                k as int,
                u64::MAX as int,
                u64::MAX as int,
                u64::MAX as int,
            );
        }
        let stats = TrafficStats {
            total_requests: clamp64_exec(n128),
            total_bytes_in: clamp64_exec(bytes_in),
            total_bytes_out: clamp64_exec(bytes_out),
            active_connections: self.current_stats.active_connections,
            requests_per_sec_milli: clamp64_exec(rps),
            bytes_per_sec_milli: clamp64_exec(bps),
            avg_latency_ms: clamp64_exec(avg),
            p50_latency_ms: p50,
            p95_latency_ms: p95,
            p99_latency_ms: p99,
            error_count: errs,
            error_rate_permille: clamp64_exec(erate),
        };
        proof {
            let spec_stats = spec_update_stats(h, bh, self.window_secs, now_ms, self.current_stats);
            assert(windowed(h, now_ms, window_ms) == recent);
            assert(recent.len() == n);
            assert(stats.error_count == clamp64(count_errors(recent)));
            assert(stats == spec_stats);
        }
        self.current_stats = stats;
    }
}

/// Clamp a wide intermediate into `u64`.
fn clamp64_exec(x: u128) -> (r: u64)
    ensures
        r == clamp64(x as int),
{
    if x > u64::MAX as u128 {
        u64::MAX
    } else {
        x as u64
    }
}

/// Every request sample the recomputed statistics draw on lies inside the
/// window: no sample older than `now − W` contributes.
pub proof fn lemma_windowed_in_window(h: Seq<RequestInfo>, now: u64, window_ms: u64)
    ensures
        forall|i: int|
            0 <= i < windowed(h, now, window_ms).len() ==> in_window(
                (#[trigger] windowed(h, now, window_ms)[i]).timestamp_ms,
                now,
                window_ms,
            ),
{
    let pred = |r: RequestInfo| in_window(r.timestamp_ms, now, window_ms);
    assert forall|i: int| 0 <= i < windowed(h, now, window_ms).len() implies in_window(
        (#[trigger] windowed(h, now, window_ms)[i]).timestamp_ms,
        now,
        window_ms,
    ) by {
        h.lemma_filter_pred(pred, i);
    }
}

/// The evicted prefix is maximal: what remains starts at or after the
/// cutoff, so on a time-ordered history no retained byte sample is older
/// than `now − W`.
pub proof fn lemma_bytes_evict_window(h: Seq<ByteRecord>, cutoff: u64)
    requires
        forall|i: int, j: int|
            0 <= i < j < h.len() ==> #[trigger] h[i].timestamp_ms <= #[trigger] h[j].timestamp_ms,
    ensures
        forall|i: int|
            0 <= i < bytes_evict(h, cutoff).len() ==> (#[trigger] bytes_evict(
                h,
                cutoff,
            )[i]).timestamp_ms >= cutoff,
    decreases h.len(),
{
    lemma_bytes_evict_len_bounds(h, cutoff);
    let k = bytes_evict_len(h, cutoff);
    assert forall|i: int| 0 <= i < bytes_evict(h, cutoff).len() implies (#[trigger] bytes_evict(
        h,
        cutoff,
    )[i]).timestamp_ms >= cutoff by {
        assert(bytes_evict(h, cutoff)[i] == h[k + i]);
        assert(h[k].timestamp_ms >= cutoff);
        if i > 0 {
            assert(h[k].timestamp_ms <= h[k + i].timestamp_ms);
        }
    }
}

/// The request eviction count never passes the end of the history.
proof fn lemma_req_evict_len_bounds(h: Seq<RequestInfo>, cutoff: u64)
    ensures
        0 <= req_evict_len(h, cutoff) <= h.len(),
    decreases h.len(),
{
    if h.len() > 0 && h[0].timestamp_ms < cutoff {
        lemma_req_evict_len_bounds(h.drop_first(), cutoff);
    }
}

/// Eviction of a stale prefix keeps a time-ordered history time-ordered.
proof fn lemma_bytes_evict_sorted(h: Seq<ByteRecord>, cutoff: u64)
    requires
        forall|i: int, j: int|
            0 <= i < j < h.len() ==> #[trigger] h[i].timestamp_ms <= #[trigger] h[j].timestamp_ms,
    ensures
        forall|i: int, j: int|
            0 <= i < j < bytes_evict(h, cutoff).len() ==> (#[trigger] bytes_evict(
                h,
                cutoff,
            )[i]).timestamp_ms <= (#[trigger] bytes_evict(h, cutoff)[j]).timestamp_ms,
{
    lemma_bytes_evict_len_bounds(h, cutoff);
    let k = bytes_evict_len(h, cutoff);
    assert forall|i: int, j: int| 0 <= i < j < bytes_evict(h, cutoff).len() implies (
    #[trigger] bytes_evict(h, cutoff)[i]).timestamp_ms <= (#[trigger] bytes_evict(
        h,
        cutoff,
    )[j]).timestamp_ms by {
        assert(bytes_evict(h, cutoff)[i] == h[k + i]);
        assert(bytes_evict(h, cutoff)[j] == h[k + j]);
    }
}

/// The eviction count never passes the end, and stops at the first sample
/// at or after the cutoff.
proof fn lemma_bytes_evict_len_bounds(h: Seq<ByteRecord>, cutoff: u64)
    ensures
        0 <= bytes_evict_len(h, cutoff) <= h.len(),
        bytes_evict_len(h, cutoff) < h.len() ==> h[bytes_evict_len(h, cutoff)].timestamp_ms
            >= cutoff,
    decreases h.len(),
{
    if h.len() > 0 && h[0].timestamp_ms < cutoff {
        lemma_bytes_evict_len_bounds(h.drop_first(), cutoff);
        let k = bytes_evict_len(h.drop_first(), cutoff);
        if k < h.len() - 1 {
            assert(h.drop_first()[k] == h[k + 1]);
        }
    }
}

} // verus!
