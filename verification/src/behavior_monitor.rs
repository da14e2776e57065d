//! Per-session action logs with idle-based finalization. A session's
//! records accumulate until the session goes idle or reaches the action
//! cap; it is then condensed into a pattern (action counts, duration,
//! success rate). The pattern store is bounded: beyond the cap, the
//! patterns with the oldest activity are evicted.

use vstd::prelude::*;
use crate::traffic_analyzer::clamp64;

verus! {

/// Cap on stored patterns.
pub const MAX_PATTERNS: usize = 10_000;

/// Cap on actions per session before forced finalization.
pub const MAX_ACTIONS_PER_SESSION: usize = 1000;

#[derive(Debug, Clone, Copy, PartialEq, Eq, Hash, Structural)]
pub enum ActionType {
    Connect,
    Request,
    Login,
    Download,
    Upload,
}

/// One observed action of a session.
#[derive(Debug)]
pub struct BehaviorRecord {
    pub session_id: String,
    pub timestamp_ms: u64,
    pub action_type: ActionType,
    pub duration_ms: u64,
    pub target: String,
    pub success: bool,
}

impl Clone for BehaviorRecord {
    fn clone(&self) -> (res: Self)
        ensures
            res == *self,
    {
        BehaviorRecord {
            session_id: self.session_id.clone(),
            timestamp_ms: self.timestamp_ms,
            action_type: self.action_type,
            duration_ms: self.duration_ms,
            target: self.target.clone(),
            success: self.success,
        }
    }
}

/// The summary of a finalized session. `success_permille` is successes per
/// thousand actions.
#[derive(Debug)]
pub struct BehaviorPattern {
    pub session_id: String,
    pub start_time_ms: u64,
    pub total_actions: u32,
    pub action_distribution: Vec<(ActionType, u32)>,
    pub total_duration_ms: u64,
    pub success_permille: u32,
    pub last_activity_ms: u64,
}

impl Clone for BehaviorPattern {
    fn clone(&self) -> (res: Self)
        ensures
            pattern_like(res, *self),
    {
        let mut dist: Vec<(ActionType, u32)> = Vec::new();
        let mut i: usize = 0;
        while i < self.action_distribution.len()
            invariant
                i <= self.action_distribution@.len(),
                dist@ == self.action_distribution@.subrange(0, i as int),
            decreases self.action_distribution@.len() - i,
        {
            dist.push(self.action_distribution[i]);
            i += 1;
            assert(dist@ =~= self.action_distribution@.subrange(0, i as int));
        }
        proof {
            assert(self.action_distribution@.subrange(0, self.action_distribution@.len() as int)
                =~= self.action_distribution@);
        }
        BehaviorPattern {
            session_id: self.session_id.clone(),
            start_time_ms: self.start_time_ms,
            total_actions: self.total_actions,
            action_distribution: dist,
            total_duration_ms: self.total_duration_ms,
            success_permille: self.success_permille,
            last_activity_ms: self.last_activity_ms,
        }
    }
}

/// Counts over all currently tracked state.
#[derive(Debug, Clone, Copy, PartialEq, Eq, Structural)]
pub struct MonitorSnapshot {
    pub active_sessions: usize,
    pub total_patterns: usize,
    pub total_actions_tracked: u64,
}

/// How many records of the run carry this action type.
pub open spec fn count_type(s: Seq<BehaviorRecord>, t: ActionType) -> int
    decreases s.len(),
{
    if s.len() == 0 {
        0
    } else {
        count_type(s.drop_last(), t) + (if s.last().action_type == t {
            1int
        } else {
            0
        })
    }
}

/// How many records of the run succeeded.
pub open spec fn count_success(s: Seq<BehaviorRecord>) -> int
    decreases s.len(),
{
    if s.len() == 0 {
        0
    } else {
        count_success(s.drop_last()) + (if s.last().success {
            1int
        } else {
            0
        })
    }
}

/// One distribution entry, present only when the type occurs.
pub open spec fn dist_entry(s: Seq<BehaviorRecord>, t: ActionType) -> Seq<(ActionType, u32)> {
    if count_type(s, t) > 0 {
        seq![(t, count_type(s, t) as u32)]
    } else {
        Seq::empty()
    }
}

/// The per-type distribution of a run, in a fixed type order, holding only
/// the types that occur.
pub open spec fn distribution_of(s: Seq<BehaviorRecord>) -> Seq<(ActionType, u32)> {
    dist_entry(s, ActionType::Connect) + dist_entry(s, ActionType::Request) + dist_entry(
        s,
        ActionType::Login,
    ) + dist_entry(s, ActionType::Download) + dist_entry(s, ActionType::Upload)
}

/// Two patterns agree on every field (their distributions as sequences).
pub open spec fn pattern_like(a: BehaviorPattern, b: BehaviorPattern) -> bool {
    &&& a.session_id == b.session_id
    &&& a.start_time_ms == b.start_time_ms
    &&& a.total_actions == b.total_actions
    &&& a.action_distribution@ == b.action_distribution@
    &&& a.total_duration_ms == b.total_duration_ms
    &&& a.success_permille == b.success_permille
    &&& a.last_activity_ms == b.last_activity_ms
}

/// `p` is the pattern a non-empty run `s` of session `k` condenses into:
/// one count per occurring action type, the span from first to last
/// record, the success ratio in thousandths, and the run's length.
pub open spec fn pattern_matches(p: BehaviorPattern, k: String, s: Seq<BehaviorRecord>) -> bool
    recommends
        s.len() > 0,
{
    &&& p.session_id == k
    &&& p.start_time_ms == s[0].timestamp_ms
    &&& p.total_actions == s.len()
    &&& p.action_distribution@ == distribution_of(s)
    &&& p.total_duration_ms == (if s.last().timestamp_ms >= s[0].timestamp_ms {
        (s.last().timestamp_ms - s[0].timestamp_ms) as int
    } else {
        0
    })
    &&& p.success_permille == count_success(s) * 1000 / (s.len() as int)
    &&& p.last_activity_ms == s.last().timestamp_ms
}

/// Whether a session map holds this key.
pub open spec fn has_skey<V>(s: Seq<(String, V)>, k: Seq<char>) -> bool {
    exists|i: int| 0 <= i < s.len() && (#[trigger] s[i]).0@ == k
}

/// First index of this key, or -1.
pub open spec fn key_index<V>(s: Seq<(String, V)>, k: Seq<char>) -> int
    decreases s.len(),
{
    if s.len() == 0 {
        -1
    } else if s[0].0@ == k {
        0
    } else {
        let r = key_index(s.drop_first(), k);
        if r == -1 {
            -1
        } else {
            r + 1
        }
    }
}

/// Store a pattern under a key: replace the value if the key exists, else
/// append.
pub open spec fn upsert(
    ps: Seq<(String, BehaviorPattern)>,
    k: String,
    p: BehaviorPattern,
) -> Seq<(String, BehaviorPattern)> {
    let i = key_index(ps, k@);
    if i >= 0 {
        ps.update(i, (ps[i].0, p))
    } else {
        ps.push((k, p))
    }
}

/// A run is stale at `now`: no record, or idle longer than the timeout.
pub open spec fn run_stale(s: Seq<BehaviorRecord>, now: u64, timeout_ms: u64) -> bool {
    s.len() == 0 || now > s.last().timestamp_ms + timeout_ms
}

/// A session must be finalized before this action joins it: it is at the
/// action cap, or the gap since its last record exceeds the timeout.
pub open spec fn must_finalize(
    s: Seq<BehaviorRecord>,
    action_ts: u64,
    timeout_ms: u64,
    max_actions: usize,
) -> bool {
    s.len() >= max_actions || (s.len() > 0 && action_ts > s.last().timestamp_ms + timeout_ms)
}

/// The pattern store after walking the sessions in order and folding each
/// stale one in.
pub open spec fn finalize_rel(
    ps: Seq<(String, BehaviorPattern)>,
    sessions: Seq<(String, Vec<BehaviorRecord>)>,
    timeout_ms: u64,
    now: u64,
    out: Seq<(String, BehaviorPattern)>,
) -> bool
    decreases sessions.len(),
{
    if sessions.len() == 0 {
        out == ps
    } else {
        let k = sessions[0].0;
        let recs = sessions[0].1@;
        if run_stale(recs, now, timeout_ms) && recs.len() > 0 {
            exists|p: BehaviorPattern|
                #[trigger] pattern_matches(p, k, recs) && finalize_rel(
                    upsert(ps, k, p),
                    sessions.drop_first(),
                    timeout_ms,
                    now,
                    out,
                )
    } else {
            finalize_rel(ps, sessions.drop_first(), timeout_ms, now, out)
        }
    }
}

pub struct BehaviorMonitor {
    pub active_sessions: Vec<(String, Vec<BehaviorRecord>)>,
    pub patterns: Vec<(String, BehaviorPattern)>,
    pub session_timeout_ms: u64,
    pub max_actions_per_session: usize,
}

impl BehaviorMonitor {
    /// Unique keys in both maps, non-empty bounded runs, and a sane cap.
    pub open spec fn wf(&self) -> bool {
        &&& forall|i: int, j: int|
            0 <= i < j < self.active_sessions@.len() ==> #[trigger] self.active_sessions@[i].0@
                != #[trigger] self.active_sessions@[j].0@
        &&& forall|i: int, j: int|
            0 <= i < j < self.patterns@.len() ==> #[trigger] self.patterns@[i].0@
                != #[trigger] self.patterns@[j].0@
        &&& forall|i: int|
            0 <= i < self.active_sessions@.len() ==> 1 <= (#[trigger] self.active_sessions@[i]).1@.len()
                <= self.max_actions_per_session
        &&& 1 <= self.max_actions_per_session <= 0xFFFF_FFFFusize
    }

    /// An empty monitor with the given idle timeout.
    pub fn new(session_timeout_ms: u64) -> (r: BehaviorMonitor)
        ensures
            r.wf(),
            r.active_sessions@.len() == 0,
            r.patterns@.len() == 0,
            r.session_timeout_ms == session_timeout_ms,
            r.max_actions_per_session == MAX_ACTIONS_PER_SESSION,
    {
        BehaviorMonitor {
            active_sessions: Vec::new(),
            patterns: Vec::new(),
            session_timeout_ms,
            max_actions_per_session: MAX_ACTIONS_PER_SESSION,
        }
    }

    fn find_session(&self, session_id: &str) -> (r: Option<usize>)
        ensures
            r.is_some() <==> has_skey(self.active_sessions@, session_id@),
            r matches Some(i) ==> i < self.active_sessions@.len()
                && self.active_sessions@[i as int].0@ == session_id@,
    {
        let key = session_id.to_owned();
        let mut i: usize = 0;
        while i < self.active_sessions.len()
            invariant
                key@ == session_id@,
                i <= self.active_sessions@.len(),
                forall|j: int| 0 <= j < i ==> #[trigger] self.active_sessions@[j].0@ != session_id@,
            decreases self.active_sessions@.len() - i,
        {
            if self.active_sessions[i].0 == key {
                return Some(i);
            }
            i += 1;
        }
        None
    }

    fn find_pattern(&self, key: &String) -> (r: Option<usize>)
        ensures
            r.is_some() <==> has_skey(self.patterns@, key@),
            r matches Some(i) ==> i < self.patterns@.len() && self.patterns@[i as int].0@ == key@,
            r matches Some(i) ==> i == key_index(self.patterns@, key@),
            r.is_none() ==> key_index(self.patterns@, key@) == -1,
    {
        proof {
            lemma_key_index_bounds(self.patterns@, key@);
        }
        let mut i: usize = 0;
        while i < self.patterns.len()
            invariant
                i <= self.patterns@.len(),
                forall|j: int| 0 <= j < i ==> #[trigger] self.patterns@[j].0@ != key@,
                key_index(self.patterns@, key@) == -1 || key_index(self.patterns@, key@) >= i,
            decreases self.patterns@.len() - i,
        {
            proof {
                lemma_key_index_step(self.patterns@, key@, i as int);
            }
            if self.patterns[i].0 == *key {
                return Some(i);
            }
            i += 1;
        }
        proof {
            lemma_key_index_bounds(self.patterns@, key@);
        }
        None
    }

    /// The stored pattern of a finalized session, if any.
    pub fn analyze_pattern(&self, session_id: &str) -> (r: Option<BehaviorPattern>)
        ensures
            r.is_some() <==> has_skey(self.patterns@, session_id@),
            r matches Some(p) ==> exists|i: int|
                0 <= i < self.patterns@.len() && (#[trigger] self.patterns@[i]).0@ == session_id@
                    && pattern_like(p, self.patterns@[i].1),
    {
        let key = session_id.to_owned();
        match self.find_pattern(&key) {
            Some(i) => Some(self.patterns[i].1.clone()),
            None => None,
        }
    }

    /// Counts over the tracked state: sessions, patterns, and actions in
    /// open sessions.
    pub fn snapshot(&self) -> (r: MonitorSnapshot)
        ensures
            r.active_sessions == self.active_sessions@.len(),
            r.total_patterns == self.patterns@.len(),
            r.total_actions_tracked == clamp64(total_open_actions(self.active_sessions@)),
    {
        let mut total: u128 = 0;
        let mut i: usize = 0;
        while i < self.active_sessions.len()
            invariant
                i <= self.active_sessions@.len(),
                total == total_open_actions(self.active_sessions@.subrange(0, i as int)),
                total <= (i as int) * 0xFFFF_FFFF_FFFF_FFFFint,
            decreases self.active_sessions@.len() - i,
        {
            proof {
                assert(self.active_sessions@.subrange(0, i + 1).drop_last()
                    =~= self.active_sessions@.subrange(0, i as int));
                assert(self.active_sessions@.subrange(0, i + 1).last()
                    == self.active_sessions@[i as int]);
                assert((i + 1) * 0xFFFF_FFFF_FFFF_FFFFint == (i as int)
                    * 0xFFFF_FFFF_FFFF_FFFFint + 0xFFFF_FFFF_FFFF_FFFFint) by (nonlinear_arith);
            }
            total = total + self.active_sessions[i].1.len() as u128;
            i += 1;
        }
        proof {
            assert(self.active_sessions@.subrange(0, self.active_sessions@.len() as int)
                =~= self.active_sessions@);
        }
        MonitorSnapshot {
            active_sessions: self.active_sessions.len(),
            total_patterns: self.patterns.len(),
            total_actions_tracked: if total > 0xFFFF_FFFF_FFFF_FFFFu128 {
                u64::MAX
            } else {
                total as u64
            },
        }
    }
}

/// Condense a non-empty run into its pattern.
fn build_pattern(key: &String, records: &Vec<BehaviorRecord>) -> (r: BehaviorPattern)
    requires
        1 <= records@.len() <= 0xFFFF_FFFF,
    ensures
        pattern_matches(r, *key, records@),
{
    let ghost s = records@;
    let mut c_connect: u32 = 0;
    let mut c_request: u32 = 0;
    let mut c_login: u32 = 0;
    let mut c_download: u32 = 0;
    let mut c_upload: u32 = 0;
    let mut c_success: u32 = 0;
    let mut i: usize = 0;
    while i < records.len()
        invariant
            i <= s.len(),
            s.len() <= 0xFFFF_FFFF,
            records@ == s,
            c_connect == count_type(s.subrange(0, i as int), ActionType::Connect),
            c_request == count_type(s.subrange(0, i as int), ActionType::Request),
            c_login == count_type(s.subrange(0, i as int), ActionType::Login),
            c_download == count_type(s.subrange(0, i as int), ActionType::Download),
            c_upload == count_type(s.subrange(0, i as int), ActionType::Upload),
            c_success == count_success(s.subrange(0, i as int)),
            c_connect <= i && c_request <= i && c_login <= i && c_download <= i && c_upload <= i
                && c_success <= i,
        decreases s.len() - i,
    {
        proof {
            assert(s.subrange(0, i + 1).drop_last() =~= s.subrange(0, i as int));
            assert(s.subrange(0, i + 1).last() == s[i as int]);
        }
        let rec = &records[i];
        match rec.action_type {
            ActionType::Connect => {
                c_connect += 1;
            },
            ActionType::Request => {
                c_request += 1;
            },
            ActionType::Login => {
                c_login += 1;
            },
            ActionType::Download => {
                c_download += 1;
            },
            ActionType::Upload => {
                c_upload += 1;
            },
        }
        if rec.success {
            c_success += 1;
        }
        i += 1;
    }
    proof {
        assert(s.subrange(0, s.len() as int) =~= s);
    }
    let mut dist: Vec<(ActionType, u32)> = Vec::new();
    if c_connect > 0 {
        dist.push((ActionType::Connect, c_connect));
    }
    if c_request > 0 {
        dist.push((ActionType::Request, c_request));
    }
    if c_login > 0 {
        dist.push((ActionType::Login, c_login));
    }
    if c_download > 0 {
        dist.push((ActionType::Download, c_download));
    }
    if c_upload > 0 {
        dist.push((ActionType::Upload, c_upload));
    }
    proof {
        assert(dist@ =~= distribution_of(s));
    }
    let n = records.len();
    let first_ts = records[0].timestamp_ms;
    let last_ts = records[n - 1].timestamp_ms;
    proof {
        assert((c_success as int) * 1000 <= (n as int) * 1000) by (nonlinear_arith)
            requires
                c_success <= n,
        ;
        assert((c_success as int) * 1000 / (n as int) <= 1000) by (nonlinear_arith)
            requires
                n >= 1,
                (c_success as int) * 1000 <= (n as int) * 1000,
        ;
        assert((c_success as int) * 1000 / (n as int) >= 0) by (nonlinear_arith)
            requires
                n >= 1,
        ;
    }
    let success_permille = (((c_success as u64) * 1000) / (n as u64)) as u32;
    BehaviorPattern {
        session_id: key.clone(),
        start_time_ms: first_ts,
        total_actions: n as u32,
        action_distribution: dist,
        total_duration_ms: if last_ts >= first_ts {
            last_ts - first_ts
        } else {
            0
        },
        success_permille,
        last_activity_ms: last_ts,
    }
}

impl BehaviorMonitor {
    /// Store a pattern under its session key, replacing any earlier one.
    fn store_pattern(&mut self, key: String, p: BehaviorPattern)
        requires
            old(self).wf(),
        ensures
            final(self).wf(),
            final(self).patterns@ == upsert(old(self).patterns@, key, p),
            final(self).active_sessions == old(self).active_sessions,
            final(self).session_timeout_ms == old(self).session_timeout_ms,
            final(self).max_actions_per_session == old(self).max_actions_per_session,
    {
        let ghost pat0 = self.patterns@;
        match self.find_pattern(&key) {
            Some(i) => {
                let k0 = self.patterns[i].0.clone();
                vstd::pervasive::VecAdditionalExecFns::set(&mut self.patterns, i, (k0, p));
                proof {
                    assert forall|a: int, b: int|
                        0 <= a < b < self.patterns@.len() implies #[trigger] self.patterns@[a].0@
                        != #[trigger] self.patterns@[b].0@ by {
                        assert(self.patterns@[a].0@ == pat0[a].0@);
                        assert(self.patterns@[b].0@ == pat0[b].0@);
                    }
                }
            },
            None => {
                self.patterns.push((key, p));
                proof {
                    assert forall|a: int, b: int|
                        0 <= a < b < self.patterns@.len() implies #[trigger] self.patterns@[a].0@
                        != #[trigger] self.patterns@[b].0@ by {
                        if b < self.patterns@.len() - 1 {
                            assert(self.patterns@[a].0@ == pat0[a].0@);
                            assert(self.patterns@[b].0@ == pat0[b].0@);
                        } else {
                            assert(self.patterns@[a].0@ == pat0[a].0@);
                            lemma_key_index_bounds(pat0, key@);
                        }
                    }
                }
            },
        }
    }

    /// Log one action for a session. If the session is at its cap or has
    /// been idle past the timeout, it is finalized into a pattern first
    /// and the action opens a fresh run.
    pub fn record_action(&mut self, session_id: &str, action: &BehaviorRecord)
        requires
            old(self).wf(),
        ensures
            final(self).wf(),
            final(self).session_timeout_ms == old(self).session_timeout_ms,
            final(self).max_actions_per_session == old(self).max_actions_per_session,
            !has_skey(old(self).active_sessions@, session_id@) ==> ({
                &&& final(self).patterns == old(self).patterns
                &&& final(self).active_sessions@.len() == old(self).active_sessions@.len() + 1
                &&& final(self).active_sessions@.drop_last() == old(self).active_sessions@
                &&& final(self).active_sessions@.last().0@ == session_id@
                &&& final(self).active_sessions@.last().1@ =~= seq![*action]
            }),
            has_skey(old(self).active_sessions@, session_id@) ==> exists|i: int|
                {
                    let entry = old(self).active_sessions@[i];
                    &&& 0 <= i < old(self).active_sessions@.len()
                    &&& (#[trigger] old(self).active_sessions@[i]).0@ == session_id@
                    &&& final(self).active_sessions@.len() == old(self).active_sessions@.len()
                    &&& forall|j: int|
                        0 <= j < old(self).active_sessions@.len() && j != i
                            ==> final(self).active_sessions@[j] == old(self).active_sessions@[j]
                    &&& final(self).active_sessions@[i].0 == entry.0
                    &&& if must_finalize(
                        entry.1@,
                        action.timestamp_ms,
                        old(self).session_timeout_ms,
                        old(self).max_actions_per_session,
                    ) {
                        &&& final(self).active_sessions@[i].1@ =~= seq![*action]
                        &&& exists|p: BehaviorPattern|
                            #[trigger] pattern_matches(p, entry.0, entry.1@)
                                && final(self).patterns@ == upsert(old(self).patterns@, entry.0, p)
                    } else {
                        &&& final(self).active_sessions@[i].1@ == entry.1@.push(*action)
                        &&& final(self).patterns == old(self).patterns
                    }
                },
    {
        let idx = match self.find_session(session_id) {
            Some(i) => i,
            None => {
                let mut list: Vec<BehaviorRecord> = Vec::new();
                list.push(action.clone());
                let key = session_id.to_owned();
                let ghost sess0 = self.active_sessions@;
                self.active_sessions.push((key, list));
                proof {
                    assert forall|a: int, b: int|
                        0 <= a < b < self.active_sessions@.len() implies #[trigger] self
                        .active_sessions@[a].0@ != #[trigger] self.active_sessions@[b].0@ by {
                        if b < self.active_sessions@.len() - 1 {
                            assert(self.active_sessions@[a].0@ == sess0[a].0@);
                            assert(self.active_sessions@[b].0@ == sess0[b].0@);
                        } else {
                            assert(self.active_sessions@[a].0@ == sess0[a].0@);
                        }
                    }
                }
                return ;
            },
        };
        let ghost sess0 = self.active_sessions@;
        let ghost entry0 = self.active_sessions@[idx as int];
        let entry = self.active_sessions.remove(idx);
        let (key, mut list) = entry;
        let finalize = list.len() >= self.max_actions_per_session || (list.len() > 0 && {
            let last_ts = list[list.len() - 1].timestamp_ms;
            action.timestamp_ms > last_ts && action.timestamp_ms - last_ts
                > self.session_timeout_ms
        });
        proof {
            assert(finalize == must_finalize(
                entry0.1@,
                action.timestamp_ms,
                self.session_timeout_ms,
                self.max_actions_per_session,
            ));
        }
        if finalize {
            let p = build_pattern(&key, &list);
            let key_for_pattern = key.clone();
            self.store_pattern(key_for_pattern, p);
            let mut fresh: Vec<BehaviorRecord> = Vec::new();
            fresh.push(action.clone());
            self.active_sessions.insert(idx, (key, fresh));
        } else {
            list.push(action.clone());
            self.active_sessions.insert(idx, (key, list));
        }
        proof {
            assert forall|j: int|
                0 <= j < sess0.len() && j != idx implies self.active_sessions@[j] == sess0[j] by {
                if j < idx {
                } else {
                    assert(self.active_sessions@[j] == sess0.remove(idx as int).insert(
                        idx as int,
                        self.active_sessions@[idx as int],
                    )[j]);
                }
            }
            assert forall|a: int, b: int|
                0 <= a < b < self.active_sessions@.len() implies #[trigger] self
                .active_sessions@[a].0@ != #[trigger] self.active_sessions@[b].0@ by {
                assert(self.active_sessions@[a].0@ == sess0[a].0@);
                assert(self.active_sessions@[b].0@ == sess0[b].0@);
            }
        }
    }
}

/// Folding one more trailing session into a finalize walk extends the
/// relation.
proof fn lemma_finalize_snoc(
    ps: Seq<(String, BehaviorPattern)>,
    pre: Seq<(String, Vec<BehaviorRecord>)>,
    s: (String, Vec<BehaviorRecord>),
    timeout_ms: u64,
    now: u64,
    mid: Seq<(String, BehaviorPattern)>,
    out: Seq<(String, BehaviorPattern)>,
)
    requires
        finalize_rel(ps, pre, timeout_ms, now, mid),
        if run_stale(s.1@, now, timeout_ms) && s.1@.len() > 0 {
            exists|p: BehaviorPattern|
                #[trigger] pattern_matches(p, s.0, s.1@) && out == upsert(mid, s.0, p)
        } else {
            out == mid
        },
    ensures
        finalize_rel(ps, pre.push(s), timeout_ms, now, out),
    decreases pre.len(),
{
    reveal_with_fuel(finalize_rel, 3);
    if pre.len() == 0 {
        assert(pre.push(s).drop_first() =~= Seq::<(String, Vec<BehaviorRecord>)>::empty());
        assert(pre.push(s)[0] == s);
        if run_stale(s.1@, now, timeout_ms) && s.1@.len() > 0 {
            let p = choose|p: BehaviorPattern|
                #[trigger] pattern_matches(p, s.0, s.1@) && out == upsert(mid, s.0, p);
            assert(mid == ps);
            assert(pattern_matches(p, pre.push(s)[0].0, pre.push(s)[0].1@));
            assert(finalize_rel(upsert(ps, s.0, p), pre.push(s).drop_first(), timeout_ms, now, out));
        }
    } else {
        let k = pre[0].0;
        let recs = pre[0].1@;
        assert(pre.push(s).drop_first() =~= pre.drop_first().push(s));
        assert(pre.push(s)[0] == pre[0]);
        if run_stale(recs, now, timeout_ms) && recs.len() > 0 {
            let p = choose|p: BehaviorPattern|
                #[trigger] pattern_matches(p, k, recs) && finalize_rel(
                    upsert(ps, k, p),
                    pre.drop_first(),
                    timeout_ms,
                    now,
                    mid,
                );
            lemma_finalize_snoc(upsert(ps, k, p), pre.drop_first(), s, timeout_ms, now, mid, out);
            assert(pattern_matches(p, pre.push(s)[0].0, pre.push(s)[0].1@));
            assert(finalize_rel(
                upsert(ps, k, p),
                pre.push(s).drop_first(),
                timeout_ms,
                now,
                out,
            ));
        } else {
            lemma_finalize_snoc(ps, pre.drop_first(), s, timeout_ms, now, mid, out);
            assert(finalize_rel(ps, pre.push(s).drop_first(), timeout_ms, now, out));
        }
    }
}

impl BehaviorMonitor {
    /// Finalize every idle session into a pattern, then bound the pattern
    /// store: beyond the cap, the patterns with the oldest activity leave,
    /// never one younger than a survivor.
    pub fn cleanup_stale_sessions(&mut self, now_ms: u64)
        requires
            old(self).wf(),
        ensures
            final(self).wf(),
            final(self).session_timeout_ms == old(self).session_timeout_ms,
            final(self).max_actions_per_session == old(self).max_actions_per_session,
            final(self).active_sessions@ == old(self).active_sessions@.filter(
                |e: (String, Vec<BehaviorRecord>)|
                    !run_stale(e.1@, now_ms, old(self).session_timeout_ms),
            ),
            final(self).patterns@.len() <= MAX_PATTERNS,
            exists|mid: Seq<(String, BehaviorPattern)>|
                {
                    &&& #[trigger] finalize_rel(
                        old(self).patterns@,
                        old(self).active_sessions@,
                        old(self).session_timeout_ms,
                        now_ms,
                        mid,
                    )
                    &&& (mid.len() <= MAX_PATTERNS ==> final(self).patterns@ == mid)
                    &&& (mid.len() > MAX_PATTERNS ==> final(self).patterns@.len() == MAX_PATTERNS)
                    &&& forall|i: int|
                        0 <= i < final(self).patterns@.len() ==> mid.contains(
                            #[trigger] final(self).patterns@[i],
                        )
                    &&& forall|q: int|
                        0 <= q < mid.len() && !has_skey(
                            final(self).patterns@,
                            (#[trigger] mid[q]).0@,
                        ) ==> forall|i: int|
                            0 <= i < final(self).patterns@.len() ==> mid[q].1.last_activity_ms <= (
                            #[trigger] final(self).patterns@[i]).1.last_activity_ms
                },
    {
        let ghost sess0 = self.active_sessions@;
        let ghost pat0 = self.patterns@;
        let ghost timeout = self.session_timeout_ms;
        let ghost keep = |e: (String, Vec<BehaviorRecord>)| !run_stale(e.1@, now_ms, timeout);
        proof {
            assert(sess0.subrange(0, 0) =~= Seq::<(String, Vec<BehaviorRecord>)>::empty());
            assert(sess0.skip(0) =~= sess0);
            reveal_with_fuel(Seq::filter, 2);
            assert(sess0.subrange(0, 0).filter(keep) =~= Seq::<(String, Vec<BehaviorRecord>)>::empty());
        }
        let mut i: usize = 0;
        let ghost mut j: int = 0;
        while i < self.active_sessions.len()
            invariant
                self.wf(),
                self.session_timeout_ms == timeout,
                self.max_actions_per_session == old(self).max_actions_per_session,
                0 <= j <= sess0.len(),
                keep == (|e: (String, Vec<BehaviorRecord>)| !run_stale(e.1@, now_ms, timeout)),
                self.active_sessions@ =~= sess0.subrange(0, j).filter(keep) + sess0.skip(j),
                i == sess0.subrange(0, j).filter(keep).len(),
                finalize_rel(pat0, sess0.subrange(0, j), timeout, now_ms, self.patterns@),
            decreases sess0.len() - j,
        {
            proof {
                assert(sess0.skip(j).len() > 0);
                assert(self.active_sessions@[i as int] == sess0.skip(j)[0]);
                assert(sess0.skip(j)[0] == sess0[j]);
                assert(sess0.subrange(0, j + 1).drop_last() =~= sess0.subrange(0, j));
                assert(sess0.subrange(0, j + 1).last() == sess0[j]);
                reveal_with_fuel(Seq::filter, 2);
            }
            let list_len = self.active_sessions[i].1.len();
            let stale = list_len == 0 || {
                let last_ts = self.active_sessions[i].1[list_len - 1].timestamp_ms;
                now_ms > last_ts && now_ms - last_ts > self.session_timeout_ms
            };
            proof {
                assert(stale == run_stale(sess0[j].1@, now_ms, timeout));
            }
            if stale {
                let ghost pats_before = self.patterns@;
                let ghost act_before = self.active_sessions@;
                let entry = self.active_sessions.remove(i);
                proof {
                    assert forall|a2: int, b2: int|
                        0 <= a2 < b2 < self.active_sessions@.len() implies #[trigger] self
                        .active_sessions@[a2].0@ != #[trigger] self.active_sessions@[b2].0@ by {
                        let a0 = if a2 < i {
                            a2
                        } else {
                            a2 + 1
                        };
                        let b0 = if b2 < i {
                            b2
                        } else {
                            b2 + 1
                        };
                        assert(self.active_sessions@[a2] == act_before[a0]);
                        assert(self.active_sessions@[b2] == act_before[b0]);
                    }
                    assert forall|a2: int|
                        0 <= a2 < self.active_sessions@.len() implies 1 <= (#[trigger] self
                        .active_sessions@[a2]).1@.len() <= self.max_actions_per_session by {
                        let a0 = if a2 < i {
                            a2
                        } else {
                            a2 + 1
                        };
                        assert(self.active_sessions@[a2] == act_before[a0]);
                    }
                }
                let (key, records) = entry;
                let p = build_pattern(&key, &records);
                proof {
                    assert(pattern_matches(p, sess0[j].0, sess0[j].1@));
                }
                self.store_pattern(key, p);
                proof {
                    reveal_with_fuel(Seq::filter, 2);
                    assert(self.active_sessions@ =~= sess0.subrange(0, j).filter(keep)
                        + sess0.skip(j + 1)) by {
                        assert(sess0.skip(j).drop_first() =~= sess0.skip(j + 1));
                    }
                    assert(sess0.subrange(0, j + 1).filter(keep) =~= sess0.subrange(0, j).filter(
                        keep,
                    ));
                    assert(sess0.subrange(0, j + 1) =~= sess0.subrange(0, j).push(sess0[j]));
                    assert(sess0[j].1@.len() > 0);
                    lemma_finalize_snoc(
                        pat0,
                        sess0.subrange(0, j),
                        sess0[j],
                        timeout,
                        now_ms,
                        pats_before,
                        self.patterns@,
                    );
                    j = j + 1;
                }
            } else {
                proof {
                    reveal_with_fuel(Seq::filter, 2);
                    assert(sess0.subrange(0, j + 1).filter(keep) =~= sess0.subrange(0, j).filter(
                        keep,
                    ).push(sess0[j]));
                    assert(self.active_sessions@ =~= sess0.subrange(0, j + 1).filter(keep)
                        + sess0.skip(j + 1)) by {
                        assert(sess0.skip(j).drop_first() =~= sess0.skip(j + 1));
                        assert(self.active_sessions@[i as int] == sess0[j]);
                    }
                    assert(sess0.subrange(0, j + 1) =~= sess0.subrange(0, j).push(sess0[j]));
                    lemma_finalize_snoc(
                        pat0,
                        sess0.subrange(0, j),
                        sess0[j],
                        timeout,
                        now_ms,
                        self.patterns@,
                        self.patterns@,
                    );
                    j = j + 1;
                }
                i += 1;
            }
        }
        proof {
            assert(j == sess0.len());
            assert(sess0.subrange(0, sess0.len() as int) =~= sess0);
            assert(sess0.skip(sess0.len() as int) =~= Seq::<(String, Vec<BehaviorRecord>)>::empty());
            assert(self.active_sessions@ =~= sess0.filter(keep));
        }
        let ghost mid = self.patterns@;
        proof {
            assert forall|i2: int|
                0 <= i2 < self.patterns@.len() implies mid.contains(
                #[trigger] self.patterns@[i2],
            ) by {
                assert(mid.len() == self.patterns@.len());
                assert(mid[i2] == self.patterns@[i2]);
            }
        }
        while self.patterns.len() > MAX_PATTERNS
            invariant
                self.wf(),
                self.session_timeout_ms == timeout,
                self.max_actions_per_session == old(self).max_actions_per_session,
                self.active_sessions@ == sess0.filter(keep),
                keep == (|e: (String, Vec<BehaviorRecord>)| !run_stale(e.1@, now_ms, timeout)),
                mid_keys_unique(mid),
                mid.len() <= MAX_PATTERNS ==> self.patterns@ == mid,
                mid.len() > MAX_PATTERNS ==> self.patterns@.len() >= MAX_PATTERNS,
                forall|i2: int|
                    0 <= i2 < self.patterns@.len() ==> mid.contains(
                        #[trigger] self.patterns@[i2],
                    ),
                forall|q: int|
                    0 <= q < mid.len() && !has_skey(self.patterns@, (#[trigger] mid[q]).0@)
                        ==> forall|i2: int|
                        0 <= i2 < self.patterns@.len() ==> mid[q].1.last_activity_ms <= (
                        #[trigger] self.patterns@[i2]).1.last_activity_ms,
            decreases self.patterns@.len(),
        {
            let mut best: usize = 0;
            let mut k: usize = 1;
            while k < self.patterns.len()
                invariant
                    self.patterns@.len() > 0,
                    best < k <= self.patterns@.len(),
                    forall|m: int|
                        0 <= m < k ==> self.patterns@[best as int].1.last_activity_ms <= (
                        #[trigger] self.patterns@[m]).1.last_activity_ms,
                decreases self.patterns@.len() - k,
            {
                if self.patterns[k].1.last_activity_ms
                    < self.patterns[best].1.last_activity_ms {
                    best = k;
                }
                k += 1;
            }
            let ghost before = self.patterns@;
            let removed = self.patterns.remove(best);
            proof {
                let b = best as int;
                assert forall|a2: int, b2: int|
                    0 <= a2 < b2 < self.patterns@.len() implies #[trigger] self.patterns@[a2].0@
                    != #[trigger] self.patterns@[b2].0@ by {
                    let a0 = if a2 < b {
                        a2
                    } else {
                        a2 + 1
                    };
                    let b0 = if b2 < b {
                        b2
                    } else {
                        b2 + 1
                    };
                    assert(self.patterns@[a2] == before[a0]);
                    assert(self.patterns@[b2] == before[b0]);
                }
                assert forall|i2: int|
                    0 <= i2 < self.patterns@.len() implies mid.contains(
                    #[trigger] self.patterns@[i2],
                ) by {
                    let i0 = if i2 < b {
                        i2
                    } else {
                        i2 + 1
                    };
                    assert(self.patterns@[i2] == before[i0]);
                    assert(mid.contains(before[i0]));
                }
                assert forall|q: int|
                    0 <= q < mid.len() && !has_skey(self.patterns@, (#[trigger] mid[q]).0@)
                        implies forall|i2: int|
                        0 <= i2 < self.patterns@.len() ==> mid[q].1.last_activity_ms <= (
                        #[trigger] self.patterns@[i2]).1.last_activity_ms by {
                    if has_skey(before, mid[q].0@) {
                        let w = choose|w: int|
                            0 <= w < before.len() && (#[trigger] before[w]).0@ == mid[q].0@;
                        assert forall|i2: int|
                            0 <= i2 < self.patterns@.len() implies mid[q].1.last_activity_ms <= (
                            #[trigger] self.patterns@[i2]).1.last_activity_ms by {
                            if w == b {
                                // the entry just removed carried this key; it was the
                                // minimum of the survivors, and keys are unique in mid
                                assert(mid.contains(before[b]));
                                let jq = choose|j2: int|
                                    0 <= j2 < mid.len() && mid[j2] == before[b];
                                assert(mid[jq].0@ == mid[q].0@);
                                assert(mid[q] == mid[jq]);
                                assert(mid[q].1.last_activity_ms == before[b].1.last_activity_ms);
                                let i0 = if i2 < b {
                                    i2
                                } else {
                                    i2 + 1
                                };
                                assert(self.patterns@[i2] == before[i0]);
                                assert(before[b].1.last_activity_ms
                                    <= before[i0].1.last_activity_ms);
                            } else {
                                let w2 = if w < b {
                                    w
                                } else {
                                    w - 1
                                };
                                assert(self.patterns@[w2] == before[w]);
                                assert(has_skey(self.patterns@, mid[q].0@));
                            }
                        }
                    } else {
                        assert forall|i2: int|
                            0 <= i2 < self.patterns@.len() implies mid[q].1.last_activity_ms <= (
                            #[trigger] self.patterns@[i2]).1.last_activity_ms by {
                            let i0 = if i2 < b {
                                i2
                            } else {
                                i2 + 1
                            };
                            assert(self.patterns@[i2] == before[i0]);
                        }
                    }
                }
            }
        }
    }
}

/// All keys of a pattern store differ.
pub open spec fn mid_keys_unique(ps: Seq<(String, BehaviorPattern)>) -> bool {
    forall|i: int, j: int|
        0 <= i < j < ps.len() ==> #[trigger] ps[i].0@ != #[trigger] ps[j].0@
}

/// The number of actions across all open sessions.
pub open spec fn total_open_actions(s: Seq<(String, Vec<BehaviorRecord>)>) -> int
    decreases s.len(),
{
    if s.len() == 0 {
        0
    } else {
        total_open_actions(s.drop_last()) + s.last().1@.len()
    }
}

/// `key_index` answers inside the sequence, and lands on its key.
proof fn lemma_key_index_bounds<V>(s: Seq<(String, V)>, k: Seq<char>)
    ensures
        -1 <= key_index(s, k) < s.len(),
        key_index(s, k) >= 0 ==> s[key_index(s, k)].0@ == k,
    decreases s.len(),
{
    if s.len() > 0 && s[0].0@ != k {
        lemma_key_index_bounds(s.drop_first(), k);
    }
}

/// `key_index` walks the sequence front to back: while the first `i`
/// entries miss the key, the index (if any) lies at or past `i`.
proof fn lemma_key_index_step<V>(s: Seq<(String, V)>, k: Seq<char>, i: int)
    requires
        0 <= i < s.len(),
        forall|j: int| 0 <= j < i ==> #[trigger] s[j].0@ != k,
    ensures
        s[i].0@ == k ==> key_index(s, k) == i,
        s[i].0@ != k ==> (key_index(s, k) == -1 || key_index(s, k) > i),
    decreases i,
{
    lemma_key_index_bounds(s, k);
    if i > 0 {
        assert forall|j: int| 0 <= j < i - 1 implies #[trigger] s.drop_first()[j].0@ != k by {
            assert(s.drop_first()[j] == s[j + 1]);
        }
        lemma_key_index_step(s.drop_first(), k, i - 1);
        lemma_key_index_bounds(s.drop_first(), k);
        assert(s.drop_first()[i - 1] == s[i]);
    }
}

} // verus!
