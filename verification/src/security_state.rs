use crate::clock::unix_now_secs;
use std::collections::HashMap;
use vstd::prelude::*;
use vstd::std_specs::iter::IteratorSpec;

verus! {

broadcast use {vstd::std_specs::hash::group_hash_axioms, vstd::string::group_string_axioms};

/// Coarse security status derived from a numeric score.
#[derive(Debug, Clone, Copy, PartialEq, Eq, Structural)]
pub enum SecurityStatus {
    Normal,
    Elevated,
    Suspicious,
    Critical,
}

impl Default for SecurityStatus {
    fn default() -> (s: Self)
        ensures
            s == SecurityStatus::Normal,
    {
        SecurityStatus::Normal
    }
}

/// The name a status is shown by.
pub open spec fn status_label(s: SecurityStatus) -> Seq<char> {
    match s {
        SecurityStatus::Normal => "Normal"@,
        SecurityStatus::Elevated => "Elevated"@,
        SecurityStatus::Suspicious => "Suspicious"@,
        SecurityStatus::Critical => "Critical"@,
    }
}

/// The name of a status (see `status_label`).
pub fn status_name(s: SecurityStatus) -> (r: &'static str)
    ensures
        r@ == status_label(s),
{
    match s {
        SecurityStatus::Normal => "Normal",
        SecurityStatus::Elevated => "Elevated",
        SecurityStatus::Suspicious => "Suspicious",
        SecurityStatus::Critical => "Critical",
    }
}

/// The status band that a score falls into.
pub open spec fn status_of_score(score: int) -> SecurityStatus {
    if score <= 24 {
        SecurityStatus::Normal
    } else if score <= 49 {
        SecurityStatus::Elevated
    } else if score <= 74 {
        SecurityStatus::Suspicious
    } else {
        SecurityStatus::Critical
    }
}

/// Severity rank of a status (Normal lowest, Critical highest).
pub open spec fn status_rank(s: SecurityStatus) -> int {
    match s {
        SecurityStatus::Normal => 0,
        SecurityStatus::Elevated => 1,
        SecurityStatus::Suspicious => 2,
        SecurityStatus::Critical => 3,
    }
}

/// `base + delta` clamped into `0..=100`.
pub open spec fn clamp_score(base: int, delta: int) -> int {
    let n = base + delta;
    if n < 0 {
        0
    } else if n > 100 {
        100
    } else {
        n
    }
}

/// `a + b` saturating at `u32::MAX`.
pub open spec fn sat_add_u32(a: u32, b: u32) -> u32 {
    if a + b > u32::MAX {
        u32::MAX
    } else {
        (a + b) as u32
    }
}

/// Simple numeric security scoring manager. Scores range 0..=100.
pub struct SecurityScores {
    inner: HashMap<u32, u8>,
}

impl SecurityScores {
    /// The score recorded for `pid` (0 when none was recorded).
    pub closed spec fn score(&self, pid: u32) -> int {
        if self.inner@.contains_key(pid) {
            self.inner@[pid] as int
        } else {
            0
        }
    }

    /// Every recorded score lies in `0..=100`.
    pub closed spec fn wf(&self) -> bool {
        forall|p: u32| #[trigger] self.inner@.contains_key(p) ==> self.inner@[p] <= 100
    }

    pub fn new() -> (s: Self)
        ensures
            s.wf(),
            forall|p: u32| s.score(p) == 0,
    {
        SecurityScores { inner: HashMap::new() }
    }

    /// Record `score` (capped at 100) for `pid`.
    pub fn set_score(&mut self, pid: u32, score: u8)
        requires
            old(self).wf(),
        ensures
            final(self).wf(),
            final(self).score(pid) == (if score <= 100 { score as int } else { 100 }),
            forall|p: u32| p != pid ==> final(self).score(p) == old(self).score(p),
    {
        let s = if score > 100 { 100 } else { score };
        self.inner.insert(pid, s);
    }

    /// Add `delta` to the score of `pid`, clamping the result into `0..=100`.
    pub fn add_score(&mut self, pid: u32, delta: i32)
        requires
            old(self).wf(),
            old(self).score(pid) + delta <= i32::MAX,
        ensures
            final(self).wf(),
            final(self).score(pid) == clamp_score(old(self).score(pid), delta as int),
            forall|p: u32| p != pid ==> final(self).score(p) == old(self).score(p),
    {
        let cur = self.get_score(pid) as i32;
        let mut next = cur + delta;
        if next < 0 {
            next = 0
        }
        if next > 100 {
            next = 100
        }
        self.inner.insert(pid, next as u8);
    }

    /// The score of `pid`, 0 when none was recorded.
    pub fn get_score(&self, pid: u32) -> (s: u8)
        requires
            self.wf(),
        ensures
            s as int == self.score(pid),
            s <= 100,
    {
        match self.inner.get(&pid) {
            Some(v) => *v,
            None => 0,
        }
    }

    /// The largest recorded score (0 when there is none).
    pub fn max_score(&self) -> (m: u8)
        requires
            self.wf(),
        ensures
            forall|p: u32| self.score(p) <= m,
            m == 0 || exists|p: u32| self.score(p) == m,
    {
        let mut best: u8 = 0;
        let ghost mut wit: u32 = 0;
        for pair in it: self.inner.iter()
            invariant
                self.wf(),
                forall|i: int| 0 <= i < it.index() ==> *it.seq()[i].1 <= best,
                best == 0 || (self.inner@.contains_key(wit) && self.inner@[wit] == best),
                it.seq() == vstd::std_specs::hash::spec_hash_map_iter(&self.inner).remaining(),
                it.index() == it.seq().len() ==> forall|p: u32| self.score(p) <= best,
        {
            let (k, v) = pair;
            if *v > best {
                best = *v;
                proof {
                    wit = *k;
                }
            }
            proof {
                assert forall|p: u32|
                    it.index() + 1 == it.seq().len() implies self.score(p) <= best by {
                    if self.inner@.contains_key(p) {
                        assert(it.seq().contains((&p, &self.inner@[p])));
                    }
                }
            }
        }
        assert(best == 0 || self.score(wit) == best);
        best
    }

    /// Map a score to its status band.
    pub fn map_score_to_status(score: u8) -> (s: SecurityStatus)
        ensures
            s == status_of_score(score as int),
    {
        if score <= 24 {
            SecurityStatus::Normal
        } else if score <= 49 {
            SecurityStatus::Elevated
        } else if score <= 74 {
            SecurityStatus::Suspicious
        } else {
            SecurityStatus::Critical
        }
    }
}

/// Law: the status band never decreases as the score grows.
pub proof fn law_status_monotone(a: int, b: int)
    requires
        a <= b,
    ensures
        status_rank(status_of_score(a)) <= status_rank(status_of_score(b)),
{
}

/// Simple behavior counters per PID for tracking actions (files, sockets, child spawns).
#[derive(Debug, Clone, Copy, PartialEq, Eq, Structural)]
pub struct BehaviorCounters {
    pub files_created: u32,
    pub sockets_opened: u32,
    pub children_spawned: u32,
    pub last_updated: u64,
}

/// The all-zero counters.
pub open spec fn zero_counters() -> BehaviorCounters {
    BehaviorCounters { files_created: 0, sockets_opened: 0, children_spawned: 0, last_updated: 0 }
}

impl Default for BehaviorCounters {
    fn default() -> (b: Self)
        ensures
            b == zero_counters(),
    {
        BehaviorCounters { files_created: 0, sockets_opened: 0, children_spawned: 0, last_updated: 0 }
    }
}

/// One explanation entry: a label and the score delta it contributed.
pub open spec fn contribution_view(c: (String, i32)) -> (Seq<char>, i32) {
    (c.0@, c.1)
}

/// The per-process security bookkeeping: scores, score contributors and behavior counters.
pub struct SecurityState {
    pub scores: SecurityScores,
    pub contributions: HashMap<u32, Vec<(String, i32)>>,
    pub behavior: HashMap<u32, BehaviorCounters>,
}

impl SecurityState {
    pub open spec fn wf(&self) -> bool {
        self.scores.wf()
    }

    /// The contributors recorded for `pid`, oldest first.
    pub open spec fn contribs(&self, pid: u32) -> Seq<(Seq<char>, i32)> {
        if self.contributions@.contains_key(pid) {
            self.contributions@[pid]@.map_values(|c: (String, i32)| contribution_view(c))
        } else {
            Seq::empty()
        }
    }

    /// The behavior counters of `pid` (all zero when none were recorded).
    pub open spec fn counters(&self, pid: u32) -> BehaviorCounters {
        if self.behavior@.contains_key(pid) {
            self.behavior@[pid]
        } else {
            zero_counters()
        }
    }

    pub open spec fn score(&self, pid: u32) -> int {
        self.scores.score(pid)
    }

    pub fn new() -> (s: Self)
        ensures
            s.wf(),
            forall|p: u32| s.score(p) == 0,
            forall|p: u32| s.contribs(p) == Seq::<(Seq<char>, i32)>::empty(),
            forall|p: u32| s.counters(p) == zero_counters(),
    {
        SecurityState {
            scores: SecurityScores::new(),
            contributions: HashMap::new(),
            behavior: HashMap::new(),
        }
    }
}

/// Whether two states agree on everything but the scores.
pub open spec fn same_but_scores(a: &SecurityState, b: &SecurityState) -> bool {
    &&& forall|p: u32| a.contribs(p) == b.contribs(p)
    &&& forall|p: u32| a.counters(p) == b.counters(p)
}

pub fn set_process_score(st: &mut SecurityState, pid: u32, score: u8)
    requires
        old(st).wf(),
    ensures
        final(st).wf(),
        final(st).score(pid) == (if score <= 100 { score as int } else { 100 }),
        forall|p: u32| p != pid ==> final(st).score(p) == old(st).score(p),
        same_but_scores(old(st), final(st)),
{
    st.scores.set_score(pid, score);
}

pub fn add_process_score(st: &mut SecurityState, pid: u32, delta: i32)
    requires
        old(st).wf(),
        old(st).score(pid) + delta <= i32::MAX,
    ensures
        final(st).wf(),
        final(st).score(pid) == clamp_score(old(st).score(pid), delta as int),
        forall|p: u32| p != pid ==> final(st).score(p) == old(st).score(p),
        same_but_scores(old(st), final(st)),
{
    st.scores.add_score(pid, delta);
}

/// Add `delta` to the score of `pid` and remember `label` as the reason.
pub fn record_contribution(st: &mut SecurityState, pid: u32, label: &str, delta: i32)
    requires
        old(st).wf(),
        old(st).score(pid) + delta <= i32::MAX,
    ensures
        final(st).wf(),
        final(st).score(pid) == clamp_score(old(st).score(pid), delta as int),
        forall|p: u32| p != pid ==> final(st).score(p) == old(st).score(p),
        final(st).contribs(pid) == old(st).contribs(pid).push((label@, delta)),
        forall|p: u32| p != pid ==> final(st).contribs(p) == old(st).contribs(p),
        forall|p: u32| final(st).counters(p) == old(st).counters(p),
{
    add_process_score(st, pid, delta);
    let ghost mid = st.contributions@;
    let mut v: Vec<(String, i32)> = match st.contributions.remove(&pid) {
        Some(v) => v,
        None => Vec::new(),
    };
    let ghost before = v@;
    v.push((label.to_string(), delta));
    st.contributions.insert(pid, v);
    proof {
        assert(st.contribs(pid) =~= old(st).contribs(pid).push((label@, delta)));
        assert forall|p: u32| p != pid implies st.contribs(p) == old(st).contribs(p) by {
            assert(st.contributions@.contains_key(p) == mid.contains_key(p));
            if mid.contains_key(p) {
                assert(st.contributions@[p] == mid[p]);
            }
        }
    }
}

/// A copy of the contributors recorded for `pid`.
pub fn get_contributions(st: &SecurityState, pid: u32) -> (r: Vec<(String, i32)>)
    ensures
        r@.map_values(|c: (String, i32)| contribution_view(c)) == st.contribs(pid),
{
    let mut out: Vec<(String, i32)> = Vec::new();
    match st.contributions.get(&pid) {
        Some(v) => {
            let n = v.len();
            for i in 0..n
                invariant
                    n == v@.len(),
                    out@.len() == i,
                    forall|j: int|
                        0 <= j < i ==> #[trigger] contribution_view(out@[j]) == contribution_view(
                            v@[j],
                        ),
            {
                let s = v[i].0.clone();
                out.push((s, v[i].1));
            }
            assert(out@.map_values(|c: (String, i32)| contribution_view(c)) =~= v@.map_values(
                |c: (String, i32)| contribution_view(c),
            ));
        },
        None => {
            assert(out@.map_values(|c: (String, i32)| contribution_view(c)) =~= Seq::<
                (Seq<char>, i32),
            >::empty());
        },
    }
    out
}

pub fn get_process_score(st: &SecurityState, pid: u32) -> (s: u8)
    requires
        st.wf(),
    ensures
        s as int == st.score(pid),
{
    st.scores.get_score(pid)
}

pub fn max_score(st: &SecurityState) -> (m: u8)
    requires
        st.wf(),
    ensures
        forall|p: u32| st.score(p) <= m,
        m == 0 || exists|p: u32| st.score(p) == m,
{
    let m = st.scores.max_score();
    if m != 0 {
        let ghost w = choose|p: u32| st.scores.score(p) == m;
        assert(st.score(w) == m);
    }
    m
}

pub fn status_for_pid(st: &SecurityState, pid: u32) -> (s: SecurityStatus)
    requires
        st.wf(),
    ensures
        s == status_of_score(st.score(pid)),
{
    SecurityScores::map_score_to_status(st.scores.get_score(pid))
}

pub fn get_behavior(st: &SecurityState, pid: u32) -> (b: BehaviorCounters)
    ensures
        b == st.counters(pid),
{
    match st.behavior.get(&pid) {
        Some(b) => *b,
        None => BehaviorCounters::default(),
    }
}

/// Count `delta` more files created by `pid`, stamped with the time `now`.
pub fn incr_file_create_at(st: &mut SecurityState, pid: u32, delta: u32, now: u64)
    requires
        old(st).wf(),
    ensures
        final(st).wf(),
        final(st).counters(pid).last_updated == now,
        final(st).counters(pid).files_created == sat_add_u32(
            old(st).counters(pid).files_created,
            delta,
        ),
        final(st).counters(pid).sockets_opened == old(st).counters(pid).sockets_opened,
        final(st).counters(pid).children_spawned == old(st).counters(pid).children_spawned,
        forall|p: u32| p != pid ==> final(st).counters(p) == old(st).counters(p),
        forall|p: u32| final(st).score(p) == old(st).score(p),
        forall|p: u32| final(st).contribs(p) == old(st).contribs(p),
{
    let mut e = get_behavior(st, pid);
    e.files_created = e.files_created.saturating_add(delta);
    e.last_updated = now;
    st.behavior.insert(pid, e);
}

/// Count `delta` more files created by `pid`, stamped with the current time.
pub fn incr_file_create(st: &mut SecurityState, pid: u32, delta: u32)
    requires
        old(st).wf(),
    ensures
        final(st).wf(),
        final(st).counters(pid).files_created == sat_add_u32(
            old(st).counters(pid).files_created,
            delta,
        ),
        final(st).counters(pid).sockets_opened == old(st).counters(pid).sockets_opened,
        final(st).counters(pid).children_spawned == old(st).counters(pid).children_spawned,
        forall|p: u32| p != pid ==> final(st).counters(p) == old(st).counters(p),
        forall|p: u32| final(st).score(p) == old(st).score(p),
        forall|p: u32| final(st).contribs(p) == old(st).contribs(p),
{
    incr_file_create_at(st, pid, delta, unix_now_secs());
}

/// Count `delta` more children spawned by `pid`, stamped with the time `now`.
pub fn incr_child_spawn_at(st: &mut SecurityState, pid: u32, delta: u32, now: u64)
    requires
        old(st).wf(),
    ensures
        final(st).wf(),
        final(st).counters(pid).last_updated == now,
        final(st).counters(pid).children_spawned == sat_add_u32(
            old(st).counters(pid).children_spawned,
            delta,
        ),
        final(st).counters(pid).sockets_opened == old(st).counters(pid).sockets_opened,
        final(st).counters(pid).files_created == old(st).counters(pid).files_created,
        forall|p: u32| p != pid ==> final(st).counters(p) == old(st).counters(p),
        forall|p: u32| final(st).score(p) == old(st).score(p),
        forall|p: u32| final(st).contribs(p) == old(st).contribs(p),
{
    let mut e = get_behavior(st, pid);
    e.children_spawned = e.children_spawned.saturating_add(delta);
    e.last_updated = now;
    st.behavior.insert(pid, e);
}

/// Count `delta` more children spawned by `pid`, stamped with the current time.
pub fn incr_child_spawn(st: &mut SecurityState, pid: u32, delta: u32)
    requires
        old(st).wf(),
    ensures
        final(st).wf(),
        final(st).counters(pid).children_spawned == sat_add_u32(
            old(st).counters(pid).children_spawned,
            delta,
        ),
        final(st).counters(pid).sockets_opened == old(st).counters(pid).sockets_opened,
        final(st).counters(pid).files_created == old(st).counters(pid).files_created,
        forall|p: u32| p != pid ==> final(st).counters(p) == old(st).counters(p),
        forall|p: u32| final(st).score(p) == old(st).score(p),
        forall|p: u32| final(st).contribs(p) == old(st).contribs(p),
{
    incr_child_spawn_at(st, pid, delta, unix_now_secs());
}

/// Socket openings that mark notable network activity.
pub open spec fn crosses_network_threshold(before: u32, after: u32) -> bool {
    before < 20 && after >= 20
}

/// Count `delta` more sockets opened by `pid`, stamped with the time `now`; crossing the
/// network activity threshold adds its contribution.
pub fn incr_socket_open_at(st: &mut SecurityState, pid: u32, delta: u32, now: u64)
    requires
        old(st).wf(),
    ensures
        final(st).wf(),
        final(st).counters(pid).last_updated == now,
        final(st).counters(pid).sockets_opened == sat_add_u32(
            old(st).counters(pid).sockets_opened,
            delta,
        ),
        final(st).counters(pid).files_created == old(st).counters(pid).files_created,
        final(st).counters(pid).children_spawned == old(st).counters(pid).children_spawned,
        forall|p: u32| p != pid ==> final(st).counters(p) == old(st).counters(p),
        forall|p: u32| p != pid ==> final(st).score(p) == old(st).score(p),
        forall|p: u32| p != pid ==> final(st).contribs(p) == old(st).contribs(p),
        crosses_network_threshold(
            old(st).counters(pid).sockets_opened,
            final(st).counters(pid).sockets_opened,
        ) ==> {
            &&& final(st).score(pid) == clamp_score(old(st).score(pid), 30)
            &&& final(st).contribs(pid) == old(st).contribs(pid).push(("network_activity"@, 30i32))
        },
        !crosses_network_threshold(
            old(st).counters(pid).sockets_opened,
            final(st).counters(pid).sockets_opened,
        ) ==> {
            &&& final(st).score(pid) == old(st).score(pid)
            &&& final(st).contribs(pid) == old(st).contribs(pid)
        },
{
    let mut e = get_behavior(st, pid);
    let prev = e.sockets_opened;
    e.sockets_opened = e.sockets_opened.saturating_add(delta);
    e.last_updated = now;
    st.behavior.insert(pid, e);
    if prev < 20 && e.sockets_opened >= 20 {
        record_contribution(st, pid, "network_activity", 30);
    }
}

/// Count `delta` more sockets opened by `pid`, stamped with the current time (see
/// `incr_socket_open_at`).
pub fn incr_socket_open(st: &mut SecurityState, pid: u32, delta: u32)
    requires
        old(st).wf(),
    ensures
        final(st).wf(),
        final(st).counters(pid).sockets_opened == sat_add_u32(
            old(st).counters(pid).sockets_opened,
            delta,
        ),
        final(st).counters(pid).files_created == old(st).counters(pid).files_created,
        final(st).counters(pid).children_spawned == old(st).counters(pid).children_spawned,
        forall|p: u32| p != pid ==> final(st).counters(p) == old(st).counters(p),
        forall|p: u32| p != pid ==> final(st).score(p) == old(st).score(p),
        forall|p: u32| p != pid ==> final(st).contribs(p) == old(st).contribs(p),
        crosses_network_threshold(
            old(st).counters(pid).sockets_opened,
            final(st).counters(pid).sockets_opened,
        ) ==> {
            &&& final(st).score(pid) == clamp_score(old(st).score(pid), 30)
            &&& final(st).contribs(pid) == old(st).contribs(pid).push(("network_activity"@, 30i32))
        },
        !crosses_network_threshold(
            old(st).counters(pid).sockets_opened,
            final(st).counters(pid).sockets_opened,
        ) ==> {
            &&& final(st).score(pid) == old(st).score(pid)
            &&& final(st).contribs(pid) == old(st).contribs(pid)
        },
{
    incr_socket_open_at(st, pid, delta, unix_now_secs());
}

/// The contributor label and delta that the behavior thresholds assign to counters `b`,
/// if any threshold is met.
pub open spec fn behavior_verdict(b: BehaviorCounters) -> Option<(Seq<char>, i32)> {
    if b.children_spawned >= 50 || b.files_created >= 1000 {
        Some(("behavior_threshold_severe"@, 100i32))
    } else if b.children_spawned >= 10 || b.files_created >= 200 || b.sockets_opened >= 100 {
        Some(("behavior_threshold_high"@, 60i32))
    } else if b.children_spawned >= 5 || b.files_created >= 50 || b.sockets_opened >= 20 {
        Some(("behavior_threshold_medium"@, 40i32))
    } else {
        None
    }
}

/// Evaluate simple behavior heuristics and update the security score accordingly.
pub fn evaluate_behavior(st: &mut SecurityState, pid: u32)
    requires
        old(st).wf(),
    ensures
        final(st).wf(),
        forall|p: u32| final(st).counters(p) == old(st).counters(p),
        forall|p: u32| p != pid ==> final(st).score(p) == old(st).score(p),
        forall|p: u32| p != pid ==> final(st).contribs(p) == old(st).contribs(p),
        match behavior_verdict(old(st).counters(pid)) {
            Some((label, delta)) => {
                &&& final(st).score(pid) == clamp_score(old(st).score(pid), delta as int)
                &&& final(st).contribs(pid) == old(st).contribs(pid).push((label, delta))
            },
            None => {
                &&& final(st).score(pid) == old(st).score(pid)
                &&& final(st).contribs(pid) == old(st).contribs(pid)
            },
        },
{
    let b = get_behavior(st, pid);
    proof {
        assert(st.score(pid) <= 100) by {
            if st.scores.inner@.contains_key(pid) {
            }
        }
    }
    if b.children_spawned >= 50 || b.files_created >= 1000 {
        record_contribution(st, pid, "behavior_threshold_severe", 100);
    } else if b.children_spawned >= 10 || b.files_created >= 200 || b.sockets_opened >= 100 {
        record_contribution(st, pid, "behavior_threshold_high", 60);
    } else if b.children_spawned >= 5 || b.files_created >= 50 || b.sockets_opened >= 20 {
        record_contribution(st, pid, "behavior_threshold_medium", 40);
    }
}

/// Scores of a well-formed state lie in `0..=100`.
pub proof fn lemma_score_range(st: &SecurityState, pid: u32)
    requires
        st.wf(),
    ensures
        0 <= st.score(pid) <= 100,
{
    if st.scores.inner@.contains_key(pid) {
    }
}

} // verus!
