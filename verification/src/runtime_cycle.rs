use crate::process_state::{InfoView, ProcessInfo, ProcessState};
use crate::security_state::{get_process_score, SecurityState};
use vstd::prelude::*;

verus! {

broadcast use {vstd::seq_lib::group_seq_properties, vstd::seq::group_seq_axioms};

pub open spec fn infos_view(v: Seq<ProcessInfo>) -> Seq<InfoView> {
    v.map_values(|p: ProcessInfo| p@)
}

/// Non-increasing by CPU use.
pub open spec fn cpu_sorted_desc(s: Seq<InfoView>) -> bool {
    forall|i: int, j: int| 0 <= i < j < s.len() ==> (#[trigger] s[i]).cpu_percent_x100 >= (#[trigger] s[j]).cpu_percent_x100
}

/// The processes ordered by CPU use, highest first (equal uses keep snapshot order).
fn sorted_by_cpu(state: &ProcessState) -> (r: Vec<ProcessInfo>)
    ensures
        cpu_sorted_desc(infos_view(r@)),
        infos_view(r@).to_multiset() == state.procs().to_multiset(),
{
    let ghost src = state.procs();
    let mut out: Vec<ProcessInfo> = Vec::new();
    let n = state.processes.len();
    for i in 0..n
        invariant
            n == src.len(),
            src == state.procs(),
            cpu_sorted_desc(infos_view(out@)),
            infos_view(out@).to_multiset() == src.take(i as int).to_multiset(),
    {
        let p = state.processes[i].clone();
        let cpu = p.cpu_percent_x100;
        let ghost ov = infos_view(out@);
        let mut j: usize = 0;
        while j < out.len() && out[j].cpu_percent_x100 >= cpu
            invariant
                j <= out@.len(),
                ov == infos_view(out@),
                forall|k: int| 0 <= k < j ==> ov[k].cpu_percent_x100 >= cpu,
            decreases out@.len() - j,
        {
            proof {
                assert(ov[j as int] == out@[j as int]@);
            }
            j = j + 1;
        }
        let ghost x = p@;
        proof {
            if j < ov.len() {
                assert(ov[j as int] == out@[j as int]@);
            }
        }
        out.insert(j, p);
        proof {
            let nv = infos_view(out@);
            assert(nv =~= ov.insert(j as int, x));
            assert(x == src[i as int]) by {
                assert(src[i as int] == state.processes@[i as int]@);
            }
            vstd::seq_lib::to_multiset_insert(ov, j as int, x);
            crate::seq_facts::lemma_take_next(src, i as int);
            vstd::seq_lib::to_multiset_build(src.take(i as int), x);
            assert forall|a: int, b: int| 0 <= a < b < nv.len() implies (#[trigger] nv[a]).cpu_percent_x100 >= (
            #[trigger] nv[b]).cpu_percent_x100 by {
                if b < j {
                    assert(nv[a] == ov[a] && nv[b] == ov[b]);
                } else if b == j {
                    assert(nv[a] == ov[a]);
                } else if a == j {
                    assert(nv[b] == ov[b - 1]);
                    if j < ov.len() && b - 1 > j {
                        assert(ov[j as int].cpu_percent_x100 >= ov[b - 1].cpu_percent_x100);
                    }
                } else if a < j {
                    assert(nv[a] == ov[a] && nv[b] == ov[b - 1]);
                    if b - 1 >= j {
                        assert(ov[a].cpu_percent_x100 >= ov[b - 1].cpu_percent_x100);
                    }
                } else {
                    assert(nv[a] == ov[a - 1] && nv[b] == ov[b - 1]);
                }
            }
        }
    }
    proof {
        assert(src.take(n as int) =~= src);
    }
    out
}

/// `r` is the first `k` entries of `procs` ordered by CPU use, highest first.
pub open spec fn top_of(procs: Seq<InfoView>, r: Seq<InfoView>, k: int) -> bool {
    exists|sorted: Seq<InfoView>|
        #![trigger cpu_sorted_desc(sorted)]
        {
            &&& sorted.to_multiset() == procs.to_multiset()
            &&& cpu_sorted_desc(sorted)
            &&& sorted.take(if k < sorted.len() { k } else { sorted.len() as int }) == r
        }
}

/// The `k` processes with the highest CPU use, highest first.
pub fn top_processes(state: &ProcessState, k: usize) -> (r: Vec<ProcessInfo>)
    ensures
        top_of(state.procs(), infos_view(r@), k as int),
{
    let all = sorted_by_cpu(state);
    let ghost sv = infos_view(all@);
    let n = all.len();
    let m = if k < n { k } else { n };
    let mut out: Vec<ProcessInfo> = Vec::new();
    for i in 0..m
        invariant
            m <= n == all@.len(),
            sv == infos_view(all@),
            infos_view(out@) == sv.take(i as int),
    {
        let ghost before = out@;
        out.push(all[i].clone());
        proof {
            assert(infos_view(out@) =~= infos_view(before).push(sv[i as int]));
            crate::seq_facts::lemma_take_next(sv, i as int);
        }
    }
    proof {
        assert(infos_view(out@) == sv.take(if k < sv.len() { k as int } else { sv.len() as int }));
    }
    out
}

/// The first process (in snapshot order) with the highest nonzero score, and that score.
pub open spec fn is_highest(procs: Seq<InfoView>, sec: &SecurityState, r: Option<(u32, u8)>) -> bool {
    match r {
        None => forall|i: int| 0 <= i < procs.len() ==> sec.score(#[trigger] procs[i].pid) == 0,
        Some((pid, s)) => exists|i: int|
            {
                &&& 0 <= i < procs.len()
                &&& #[trigger] procs[i].pid == pid
                &&& sec.score(pid) == s
                &&& s > 0
                &&& forall|j: int| 0 <= j < procs.len() ==> sec.score(#[trigger] procs[j].pid) <= s
                &&& forall|j: int| 0 <= j < i ==> sec.score(#[trigger] procs[j].pid) < s
            },
    }
}

/// The process with the highest nonzero score, the first in snapshot order among equals.
pub fn highest_score_pid(state: &ProcessState, sec: &SecurityState) -> (r: Option<(u32, u8)>)
    requires
        sec.wf(),
    ensures
        is_highest(state.procs(), sec, r),
{
    let ghost procs = state.procs();
    let mut best: u8 = 0;
    let mut best_pid: Option<u32> = None;
    let ghost mut at: int = 0;
    let n = state.processes.len();
    for i in 0..n
        invariant
            n == procs.len(),
            procs == state.procs(),
            sec.wf(),
            forall|j: int| 0 <= j < i ==> sec.score(#[trigger] procs[j].pid) <= best,
            best_pid is None ==> best == 0,
            best_pid is Some ==> {
                &&& 0 <= at < i
                &&& procs[at].pid == best_pid->0
                &&& sec.score(best_pid->0) == best
                &&& best > 0
                &&& forall|j: int| 0 <= j < at ==> sec.score(#[trigger] procs[j].pid) < best
            },
    {
        let pid = state.processes[i].pid;
        proof {
            assert(procs[i as int] == state.processes@[i as int]@);
        }
        let sc = get_process_score(sec, pid);
        if sc > best {
            best = sc;
            best_pid = Some(pid);
            proof {
                at = i as int;
            }
        }
    }
    match best_pid {
        Some(p) => {
            proof {
                assert(procs[at].pid == p);
            }
            Some((p, best))
        },
        None => {
            proof {
                assert forall|i: int| 0 <= i < procs.len() implies sec.score(#[trigger] procs[i].pid) == 0 by {
                    crate::security_state::lemma_score_range(sec, procs[i].pid);
                }
            }
            None
        },
    }
}

/// Whether the graph is due for a full rebuild: never rebuilt, or rebuilt at least 30
/// seconds ago.
pub fn reconcile_due(since_last_secs: Option<u64>) -> (b: bool)
    ensures
        b == match since_last_secs {
            None => true,
            Some(s) => s >= 30,
        },
{
    match since_last_secs {
        None => true,
        Some(s) => s >= 30,
    }
}

} // verus!
