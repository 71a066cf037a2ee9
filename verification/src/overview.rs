use crate::process_engine::{CpuEvent, MemoryEvent};
use crate::process_events::ProcessEvent;
use crate::process_state::{family_for_name, family_of};
use crate::security_engine::{SecurityEvent, SignatureVerification};
use crate::security_state::{status_label, status_name, SecurityStatus};
use crate::text::{decimal, fixed1, lowercase, push_decimal, push_fixed1, seq_contains, str_contains, string_of, to_lowercase};
use std::collections::HashMap;
use vstd::prelude::*;

verus! {

broadcast use {
    vstd::std_specs::hash::group_hash_axioms,
    vstd::string::group_string_axioms,
    vstd::seq_lib::group_seq_properties,
    vstd::seq::group_seq_axioms,
};

/// A coarse class of process, by name.
#[derive(Debug, Clone, Copy, PartialEq, Eq, Structural)]
pub enum ProcessClass {
    System,
    Shell,
    UserInteractive,
    DevTools,
    Browser,
    VmWsl,
    Social,
    Unknown,
}

/// The class of a lowercase process name, by the first rule that applies.
pub open spec fn class_of_lower(l: Seq<char>) -> ProcessClass {
    if l == "system"@ || l == "[system process]"@ || l == "smss.exe"@ || l == "csrss.exe"@ || l == "wininit.exe"@ {
        ProcessClass::System
    } else if seq_contains(l, "code"@) || seq_contains(l, "cargo"@) || seq_contains(l, "clion"@) || seq_contains(l, "rust"@)
        || seq_contains(l, "golang"@) {
        ProcessClass::DevTools
    } else if seq_contains(l, "brave"@) || seq_contains(l, "chrome"@) || seq_contains(l, "edge"@) || seq_contains(
        l,
        "msedgewebview2"@,
    ) || seq_contains(l, "firefox"@) {
        ProcessClass::Browser
    } else if seq_contains(l, "powershell"@) || seq_contains(l, "pwsh"@) || seq_contains(l, "cmd"@) || seq_contains(
        l,
        "conhost"@,
    ) {
        ProcessClass::Shell
    } else if seq_contains(l, "wsl"@) || seq_contains(l, "vm"@) || seq_contains(l, "vmms"@) || seq_contains(l, "vmcompute"@) {
        ProcessClass::VmWsl
    } else if seq_contains(l, "svchost"@) || seq_contains(l, "dllhost"@) || seq_contains(l, "runtimebroker"@) {
        ProcessClass::System
    } else if seq_contains(l, "whatsapp"@) || seq_contains(l, "teams"@) || seq_contains(l, "discord"@) || seq_contains(
        l,
        "slack"@,
    ) {
        ProcessClass::Social
    } else if seq_contains(l, "explorer"@) || seq_contains(l, "startmenu"@) || seq_contains(l, "shell"@) || seq_contains(
        l,
        "openconsole"@,
    ) {
        ProcessClass::UserInteractive
    } else {
        ProcessClass::Unknown
    }
}

fn is_one_of(l: &String, names: &[&str; 5], k: usize) -> (b: bool)
    requires
        k <= 5,
    ensures
        b == exists|j: int| 0 <= j < k && l@ == names@[j]@,
{
    let mut i: usize = 0;
    while i < k
        invariant
            i <= k <= 5,
            forall|j: int| 0 <= j < i ==> l@ != names@[j]@,
        decreases k - i,
    {
        let cand = string_of(names[i]);
        if *l == cand {
            return true;
        }
        i = i + 1;
    }
    false
}

/// The class of a process name (see `class_of_lower`).
pub fn classify_name(name: &str) -> (c: ProcessClass)
    ensures
        c == class_of_lower(lowercase(name@)),
{
    let lower = to_lowercase(name);
    let l = lower.as_str();
    let system_names = ["system", "[system process]", "smss.exe", "csrss.exe", "wininit.exe"];
    proof {
        assert(system_names@ == seq!["system", "[system process]", "smss.exe", "csrss.exe", "wininit.exe"]);
        let e = exists|j: int| 0 <= j < 5 && lower@ == system_names@[j]@;
        if lower@ == "system"@ || lower@ == "[system process]"@ || lower@ == "smss.exe"@ || lower@ == "csrss.exe"@ || lower@
            == "wininit.exe"@ {
            if lower@ == "system"@ {
                assert(lower@ == system_names@[0]@);
            } else if lower@ == "[system process]"@ {
                assert(lower@ == system_names@[1]@);
            } else if lower@ == "smss.exe"@ {
                assert(lower@ == system_names@[2]@);
            } else if lower@ == "csrss.exe"@ {
                assert(lower@ == system_names@[3]@);
            } else {
                assert(lower@ == system_names@[4]@);
            }
        }
    }
    if is_one_of(&lower, &system_names, 5) {
        return ProcessClass::System;
    }
    if str_contains(l, "code") || str_contains(l, "cargo") || str_contains(l, "clion") || str_contains(l, "rust") || str_contains(
        l,
        "golang",
    ) {
        return ProcessClass::DevTools;
    }
    if str_contains(l, "brave") || str_contains(l, "chrome") || str_contains(l, "edge") || str_contains(l, "msedgewebview2")
        || str_contains(l, "firefox") {
        return ProcessClass::Browser;
    }
    if str_contains(l, "powershell") || str_contains(l, "pwsh") || str_contains(l, "cmd") || str_contains(l, "conhost") {
        return ProcessClass::Shell;
    }
    if str_contains(l, "wsl") || str_contains(l, "vm") || str_contains(l, "vmms") || str_contains(l, "vmcompute") {
        return ProcessClass::VmWsl;
    }
    if str_contains(l, "svchost") || str_contains(l, "dllhost") || str_contains(l, "runtimebroker") {
        return ProcessClass::System;
    }
    if str_contains(l, "whatsapp") || str_contains(l, "teams") || str_contains(l, "discord") || str_contains(l, "slack") {
        return ProcessClass::Social;
    }
    if str_contains(l, "explorer") || str_contains(l, "startmenu") || str_contains(l, "shell") || str_contains(l, "openconsole") {
        return ProcessClass::UserInteractive;
    }
    ProcessClass::Unknown
}

// ---------------------------------------------------------------------------------------------
// Process counts
// ---------------------------------------------------------------------------------------------

/// `n - 1`, saturating at 0.
pub open spec fn dec_sat(n: usize) -> usize {
    if n == 0 {
        0
    } else {
        (n - 1) as usize
    }
}

/// `n + 1`, saturating.
pub open spec fn inc_sat(n: usize) -> usize {
    if n == usize::MAX {
        n
    } else {
        (n + 1) as usize
    }
}

/// Live process counts for the overview: the family and class of each tracked pid, how many
/// tracked processes each family and class has (absent at zero), and the number of families.
pub struct ProcCounts {
    pub pid_families: HashMap<u32, String>,
    pub pid_classes: HashMap<u32, ProcessClass>,
    pub class_counts: Vec<(ProcessClass, usize)>,
    pub active_families: Vec<(String, usize)>,
    pub fam_count: usize,
}

/// The count stored for key `k` in `v` (0 when absent).
pub open spec fn count_in<K>(v: Seq<(K, usize)>, k: K) -> usize {
    if exists|i: int| 0 <= i < v.len() && v[i].0 == k {
        v[choose|i: int| 0 <= i < v.len() && v[i].0 == k].1
    } else {
        0
    }
}

/// Whether `v` stores key `x`.
pub open spec fn has_key<K>(v: Seq<(K, usize)>, x: K) -> bool {
    exists|i: int| 0 <= i < v.len() && v[i].0 == x
}

/// Keys are distinct and stored counts are positive.
pub open spec fn counts_wf<K>(v: Seq<(K, usize)>) -> bool {
    &&& forall|i: int, j: int| 0 <= i < j < v.len() ==> #[trigger] v[i].0 != #[trigger] v[j].0
    &&& forall|i: int| 0 <= i < v.len() ==> #[trigger] v[i].1 > 0
}

/// One more for `k`, saturating.
pub open spec fn bumped<K>(v: Seq<(K, usize)>, k: K, key: K) -> usize {
    if key == k {
        inc_sat(count_in(v, k))
    } else {
        count_in(v, key)
    }
}

/// One less for `k`: its entry goes away when it held at most one.
pub open spec fn dropped<K>(v: Seq<(K, usize)>, k: K, key: K) -> usize {
    if key == k {
        if count_in(v, k) > 1 {
            (count_in(v, k) - 1) as usize
        } else {
            0
        }
    } else {
        count_in(v, key)
    }
}

pub open spec fn fam_counts_view(v: Seq<(String, usize)>) -> Seq<(Seq<char>, usize)> {
    v.map_values(|e: (String, usize)| (e.0@, e.1))
}

impl ProcCounts {
    pub open spec fn wf(&self) -> bool {
        &&& counts_wf(self.class_counts@)
        &&& counts_wf(fam_counts_view(self.active_families@))
    }

    pub open spec fn families(&self) -> Map<u32, Seq<char>> {
        self.pid_families@.map_values(|s: String| s@)
    }

    pub open spec fn class_count(&self, c: ProcessClass) -> usize {
        count_in(self.class_counts@, c)
    }

    pub open spec fn family_count(&self, f: Seq<char>) -> usize {
        count_in(fam_counts_view(self.active_families@), f)
    }

    pub fn new() -> (c: Self)
        ensures
            c.wf(),
            c.families() == Map::<u32, Seq<char>>::empty(),
            c.pid_classes@ == Map::<u32, ProcessClass>::empty(),
            forall|k: ProcessClass| c.class_count(k) == 0,
            forall|f: Seq<char>| c.family_count(f) == 0,
            c.fam_count == 0,
    {
        let c = ProcCounts {
            pid_families: HashMap::new(),
            pid_classes: HashMap::new(),
            class_counts: Vec::new(),
            active_families: Vec::new(),
            fam_count: 0,
        };
        proof {
            assert(c.families() =~= Map::<u32, Seq<char>>::empty());
            assert(fam_counts_view(c.active_families@) =~= Seq::<(Seq<char>, usize)>::empty());
        }
        c
    }
}

/// With distinct keys, the entry found at `i` holds the count of its key.
proof fn lemma_count_at<K>(v: Seq<(K, usize)>, i: int)
    requires
        counts_wf(v),
        0 <= i < v.len(),
    ensures
        count_in(v, v[i].0) == v[i].1,
{
    let c = choose|c: int| 0 <= c < v.len() && v[c].0 == v[i].0;
    if c < i {
        assert(v[c].0 != v[i].0);
    } else if c > i {
        assert(v[i].0 != v[c].0);
    }
}

/// Counts after changing the entry of `k` to `n` (removed when `n` is 0).
proof fn lemma_count_update<K>(v: Seq<(K, usize)>, w: Seq<(K, usize)>, k: K, n: usize)
    requires
        counts_wf(v),
        counts_wf(w),
        forall|x: K| x != k ==> has_key(v, x) == #[trigger] has_key(w, x),
        forall|i: int, j: int| 0 <= i < v.len() && 0 <= j < w.len() && v[i].0 == w[j].0 && v[i].0 != k ==> v[i].1 == w[j].1,
        n > 0 ==> exists|i: int| 0 <= i < w.len() && w[i] == (k, n),
        n == 0 ==> !exists|i: int| 0 <= i < w.len() && w[i].0 == k,
    ensures
        forall|x: K| #[trigger] count_in(w, x) == if x == k { n } else { count_in(v, x) },
{
    assert forall|x: K| #[trigger] count_in(w, x) == if x == k { n } else { count_in(v, x) } by {
        if x == k {
            if n > 0 {
                let i = choose|i: int| 0 <= i < w.len() && w[i] == (k, n);
                lemma_count_at(w, i);
            }
        } else {
            if has_key(v, x) {
                assert(has_key(w, x));
                let i = choose|i: int| 0 <= i < v.len() && v[i].0 == x;
                let j = choose|j: int| 0 <= j < w.len() && w[j].0 == x;
                lemma_count_at(v, i);
                lemma_count_at(w, j);
            } else {
                assert(!has_key(w, x));
            }
        }
    }
}

/// Add one for `k` (inserting it at 1 when absent); returns whether it was absent.
fn bump_class(v: &mut Vec<(ProcessClass, usize)>, k: ProcessClass) -> (fresh: bool)
    requires
        counts_wf(old(v)@),
    ensures
        counts_wf(final(v)@),
        fresh == (count_in(old(v)@, k) == 0),
        forall|x: ProcessClass| #[trigger] count_in(final(v)@, x) == bumped(old(v)@, k, x),
{
    let ghost v0 = v@;
    let mut i: usize = 0;
    while i < v.len() && v[i].0 != k
        invariant
            i <= v@.len(),
            v@ == v0,
            forall|j: int| 0 <= j < i ==> v0[j].0 != k,
        decreases v@.len() - i,
    {
        i = i + 1;
    }
    if i < v.len() {
        let c = v[i].1;
        let nc = if c == usize::MAX { c } else { c + 1 };
        v.set(i, (k, nc));
        proof {
            lemma_count_at(v0, i as int);
            let w = v@;
            assert forall|a: int, b: int| 0 <= a < b < w.len() implies #[trigger] w[a].0 != #[trigger] w[b].0 by {
                assert(w[a].0 == v0[a].0 && w[b].0 == v0[b].0);
            }
            assert(w[i as int] == (k, nc));
            assert forall|x: ProcessClass| x != k implies has_key(v0, x) == #[trigger] has_key(w, x) by {
                if has_key(w, x) {
                    let a = choose|a: int| 0 <= a < w.len() && w[a].0 == x;
                    assert(v0[a].0 == w[a].0);
                }
                if has_key(v0, x) {
                    let a = choose|a: int| 0 <= a < v0.len() && v0[a].0 == x;
                    assert(v0[a].0 == w[a].0);
                }
            }
            assert forall|a: int, b: int| 0 <= a < v0.len() && 0 <= b < w.len() && v0[a].0 == w[b].0 && v0[a].0 != k implies v0[a].1 == w[b].1 by {
                assert(b != i);
                assert(w[b] == v0[b]);
                if a != b {
                    if a < b {
                        assert(v0[a].0 != v0[b].0);
                    } else {
                        assert(v0[b].0 != v0[a].0);
                    }
                }
            }
            lemma_count_update(v0, w, k, nc);
        }
        false
    } else {
        v.push((k, 1));
        proof {
            assert(count_in(v0, k) == 0);
            let w = v@;
            assert forall|a: int, b: int| 0 <= a < b < w.len() implies #[trigger] w[a].0 != #[trigger] w[b].0 by {
                if b == v0.len() {
                    assert(w[a] == v0[a]);
                } else {
                    assert(w[a] == v0[a] && w[b] == v0[b]);
                }
            }
            assert(w[v0.len() as int] == (k, 1usize));
            assert forall|x: ProcessClass| x != k implies has_key(v0, x) == #[trigger] has_key(w, x) by {
                if exists|a: int| 0 <= a < w.len() && w[a].0 == x {
                    let a = choose|a: int| 0 <= a < w.len() && w[a].0 == x;
                    assert(a < v0.len());
                    assert(v0[a] == w[a]);
                }
                if exists|a: int| 0 <= a < v0.len() && v0[a].0 == x {
                    let a = choose|a: int| 0 <= a < v0.len() && v0[a].0 == x;
                    assert(v0[a] == w[a]);
                }
            }
            assert forall|a: int, b: int| 0 <= a < v0.len() && 0 <= b < w.len() && v0[a].0 == w[b].0 && v0[a].0 != k implies v0[a].1 == w[b].1 by {
                if b < v0.len() {
                    assert(w[b] == v0[b]);
                    if a != b {
                        if a < b {
                            assert(v0[a].0 != v0[b].0);
                        } else {
                            assert(v0[b].0 != v0[a].0);
                        }
                    }
                }
            }
            lemma_count_update(v0, w, k, 1);
        }
        true
    }
}

/// Remove one for `k` (dropping it when it held at most one).
fn drop_class(v: &mut Vec<(ProcessClass, usize)>, k: ProcessClass)
    requires
        counts_wf(old(v)@),
    ensures
        counts_wf(final(v)@),
        forall|x: ProcessClass| #[trigger] count_in(final(v)@, x) == dropped(old(v)@, k, x),
{
    let ghost v0 = v@;
    let mut i: usize = 0;
    while i < v.len() && v[i].0 != k
        invariant
            i <= v@.len(),
            v@ == v0,
            forall|j: int| 0 <= j < i ==> v0[j].0 != k,
        decreases v@.len() - i,
    {
        i = i + 1;
    }
    if i < v.len() {
        let c = v[i].1;
        proof {
            lemma_count_at(v0, i as int);
        }
        if c > 1 {
            v.set(i, (k, c - 1));
            proof {
                let w = v@;
                assert forall|a: int, b: int| 0 <= a < b < w.len() implies #[trigger] w[a].0 != #[trigger] w[b].0 by {
                    assert(w[a].0 == v0[a].0 && w[b].0 == v0[b].0);
                }
                assert(w[i as int] == (k, (c - 1) as usize));
                assert forall|x: ProcessClass| x != k implies has_key(v0, x) == #[trigger] has_key(w, x) by {
                    if has_key(w, x) {
                        let a = choose|a: int| 0 <= a < w.len() && w[a].0 == x;
                        assert(v0[a].0 == w[a].0);
                    }
                    if has_key(v0, x) {
                        let a = choose|a: int| 0 <= a < v0.len() && v0[a].0 == x;
                        assert(v0[a].0 == w[a].0);
                    }
                }
                assert forall|a: int, b: int| 0 <= a < v0.len() && 0 <= b < w.len() && v0[a].0 == w[b].0 && v0[a].0 != k implies v0[a].1 == w[b].1 by {
                    assert(b != i);
                    assert(w[b] == v0[b]);
                    if a != b {
                        if a < b {
                            assert(v0[a].0 != v0[b].0);
                        } else {
                            assert(v0[b].0 != v0[a].0);
                        }
                    }
                }
                lemma_count_update(v0, w, k, (c - 1) as usize);
            }
        } else {
            v.remove(i);
            proof {
                let w = v@;
                assert(w =~= v0.remove(i as int));
                assert forall|a: int, b: int| 0 <= a < b < w.len() implies #[trigger] w[a].0 != #[trigger] w[b].0 by {
                    let a0 = if a < i { a } else { a + 1 };
                    let b0 = if b < i { b } else { b + 1 };
                    assert(w[a] == v0[a0] && w[b] == v0[b0]);
                }
                assert forall|x: ProcessClass| x != k implies has_key(v0, x) == #[trigger] has_key(w, x) by {
                    if exists|a: int| 0 <= a < w.len() && w[a].0 == x {
                        let a = choose|a: int| 0 <= a < w.len() && w[a].0 == x;
                        let a0 = if a < i { a } else { a + 1 };
                        assert(v0[a0] == w[a]);
                    }
                    if exists|a: int| 0 <= a < v0.len() && v0[a].0 == x {
                        let a = choose|a: int| 0 <= a < v0.len() && v0[a].0 == x;
                        assert(a != i);
                        let a1 = if a < i { a } else { a - 1 };
                        assert(w[a1] == v0[a]);
                    }
                }
                assert forall|a: int, b: int| 0 <= a < v0.len() && 0 <= b < w.len() && v0[a].0 == w[b].0 && v0[a].0 != k implies v0[a].1 == w[b].1 by {
                    let b0 = if b < i { b } else { b + 1 };
                    assert(w[b] == v0[b0]);
                    if a != b0 {
                        if a < b0 {
                            assert(v0[a].0 != v0[b0].0);
                        } else {
                            assert(v0[b0].0 != v0[a].0);
                        }
                    }
                }
                assert(!exists|a: int| 0 <= a < w.len() && w[a].0 == k) by {
                    if exists|a: int| 0 <= a < w.len() && w[a].0 == k {
                        let a = choose|a: int| 0 <= a < w.len() && w[a].0 == k;
                        let a0 = if a < i { a } else { a + 1 };
                        assert(v0[a0] == w[a]);
                        if a0 < i {
                            assert(v0[a0].0 != v0[i as int].0);
                        } else {
                            assert(v0[i as int].0 != v0[a0].0);
                        }
                    }
                }
                lemma_count_update(v0, w, k, 0);
            }
        }
    } else {
        proof {
            assert(count_in(v0, k) == 0);
            assert forall|x: ProcessClass| #[trigger] count_in(v@, x) == dropped(v0, k, x) by {}
        }
    }
}

/// Add one for family `k` (inserting it at 1 when absent); returns whether it was absent.
fn bump_family(v: &mut Vec<(String, usize)>, k: &String) -> (fresh: bool)
    requires
        counts_wf(fam_counts_view(old(v)@)),
    ensures
        counts_wf(fam_counts_view(final(v)@)),
        fresh == (count_in(fam_counts_view(old(v)@), k@) == 0),
        forall|x: Seq<char>| #[trigger] count_in(fam_counts_view(final(v)@), x) == bumped(fam_counts_view(old(v)@), k@, x),
{
    let ghost v0 = fam_counts_view(v@);
    let mut i: usize = 0;
    while i < v.len() && !(v[i].0 == *k)
        invariant
            i <= v@.len(),
            fam_counts_view(v@) == v0,
            forall|j: int| 0 <= j < i ==> v0[j].0 != k@,
        decreases v@.len() - i,
    {
        i = i + 1;
    }
    if i < v.len() {
        let c = v[i].1;
        let nc = if c == usize::MAX { c } else { c + 1 };
        v.set(i, (k.clone(), nc));
        proof {
            lemma_count_at(v0, i as int);
            let w = fam_counts_view(v@);
            assert(w =~= v0.update(i as int, (k@, nc)));
            assert forall|a: int, b: int| 0 <= a < b < w.len() implies #[trigger] w[a].0 != #[trigger] w[b].0 by {
                assert(w[a].0 == v0[a].0 && w[b].0 == v0[b].0);
            }
            assert(w[i as int] == (k@, nc));
            assert forall|x: Seq<char>| x != k@ implies has_key(v0, x) == #[trigger] has_key(w, x) by {
                if has_key(w, x) {
                    let a = choose|a: int| 0 <= a < w.len() && w[a].0 == x;
                    assert(v0[a].0 == w[a].0);
                }
                if has_key(v0, x) {
                    let a = choose|a: int| 0 <= a < v0.len() && v0[a].0 == x;
                    assert(v0[a].0 == w[a].0);
                }
            }
            assert forall|a: int, b: int| 0 <= a < v0.len() && 0 <= b < w.len() && v0[a].0 == w[b].0 && v0[a].0 != k@ implies v0[a].1 == w[b].1 by {
                assert(b != i);
                assert(w[b] == v0[b]);
                if a != b {
                    if a < b {
                        assert(v0[a].0 != v0[b].0);
                    } else {
                        assert(v0[b].0 != v0[a].0);
                    }
                }
            }
            lemma_count_update(v0, w, k@, nc);
        }
        false
    } else {
        v.push((k.clone(), 1));
        proof {
            assert(count_in(v0, k@) == 0);
            let w = fam_counts_view(v@);
            assert(w =~= v0.push((k@, 1usize)));
            assert forall|a: int, b: int| 0 <= a < b < w.len() implies #[trigger] w[a].0 != #[trigger] w[b].0 by {
                if b == v0.len() {
                    assert(w[a] == v0[a]);
                } else {
                    assert(w[a] == v0[a] && w[b] == v0[b]);
                }
            }
            assert(w[v0.len() as int] == (k@, 1usize));
            assert forall|x: Seq<char>| x != k@ implies has_key(v0, x) == #[trigger] has_key(w, x) by {
                if exists|a: int| 0 <= a < w.len() && w[a].0 == x {
                    let a = choose|a: int| 0 <= a < w.len() && w[a].0 == x;
                    assert(a < v0.len());
                    assert(v0[a] == w[a]);
                }
                if exists|a: int| 0 <= a < v0.len() && v0[a].0 == x {
                    let a = choose|a: int| 0 <= a < v0.len() && v0[a].0 == x;
                    assert(v0[a] == w[a]);
                }
            }
            assert forall|a: int, b: int| 0 <= a < v0.len() && 0 <= b < w.len() && v0[a].0 == w[b].0 && v0[a].0 != k@ implies v0[a].1 == w[b].1 by {
                if b < v0.len() {
                    assert(w[b] == v0[b]);
                    if a != b {
                        if a < b {
                            assert(v0[a].0 != v0[b].0);
                        } else {
                            assert(v0[b].0 != v0[a].0);
                        }
                    }
                }
            }
            lemma_count_update(v0, w, k@, 1);
        }
        true
    }
}

/// Remove one for family `k` (dropping it when it held at most one).
fn drop_family(v: &mut Vec<(String, usize)>, k: &String)
    requires
        counts_wf(fam_counts_view(old(v)@)),
    ensures
        counts_wf(fam_counts_view(final(v)@)),
        forall|x: Seq<char>| #[trigger] count_in(fam_counts_view(final(v)@), x) == dropped(fam_counts_view(old(v)@), k@, x),
{
    let ghost v0 = fam_counts_view(v@);
    let mut i: usize = 0;
    while i < v.len() && !(v[i].0 == *k)
        invariant
            i <= v@.len(),
            fam_counts_view(v@) == v0,
            forall|j: int| 0 <= j < i ==> v0[j].0 != k@,
        decreases v@.len() - i,
    {
        i = i + 1;
    }
    if i < v.len() {
        let c = v[i].1;
        proof {
            lemma_count_at(v0, i as int);
            assert(v0[i as int] == (v@[i as int].0@, v@[i as int].1));
        }
        if c > 1 {
            v.set(i, (k.clone(), c - 1));
            proof {
                let w = fam_counts_view(v@);
                assert(w =~= v0.update(i as int, (k@, (c - 1) as usize)));
                assert forall|a: int, b: int| 0 <= a < b < w.len() implies #[trigger] w[a].0 != #[trigger] w[b].0 by {
                    assert(w[a].0 == v0[a].0 && w[b].0 == v0[b].0);
                }
                assert(w[i as int] == (k@, (c - 1) as usize));
                assert forall|x: Seq<char>| x != k@ implies has_key(v0, x) == #[trigger] has_key(w, x) by {
                    if has_key(w, x) {
                        let a = choose|a: int| 0 <= a < w.len() && w[a].0 == x;
                        assert(v0[a].0 == w[a].0);
                    }
                    if has_key(v0, x) {
                        let a = choose|a: int| 0 <= a < v0.len() && v0[a].0 == x;
                        assert(v0[a].0 == w[a].0);
                    }
                }
                assert forall|a: int, b: int| 0 <= a < v0.len() && 0 <= b < w.len() && v0[a].0 == w[b].0 && v0[a].0 != k@ implies v0[a].1 == w[b].1 by {
                    assert(b != i);
                    assert(w[b] == v0[b]);
                    if a != b {
                        if a < b {
                            assert(v0[a].0 != v0[b].0);
                        } else {
                            assert(v0[b].0 != v0[a].0);
                        }
                    }
                }
                lemma_count_update(v0, w, k@, (c - 1) as usize);
            }
        } else {
            v.remove(i);
            proof {
                let w = fam_counts_view(v@);
                assert(w =~= v0.remove(i as int));
                assert forall|a: int, b: int| 0 <= a < b < w.len() implies #[trigger] w[a].0 != #[trigger] w[b].0 by {
                    let a0 = if a < i { a } else { a + 1 };
                    let b0 = if b < i { b } else { b + 1 };
                    assert(w[a] == v0[a0] && w[b] == v0[b0]);
                }
                assert forall|x: Seq<char>| x != k@ implies has_key(v0, x) == #[trigger] has_key(w, x) by {
                    if exists|a: int| 0 <= a < w.len() && w[a].0 == x {
                        let a = choose|a: int| 0 <= a < w.len() && w[a].0 == x;
                        let a0 = if a < i { a } else { a + 1 };
                        assert(v0[a0] == w[a]);
                    }
                    if exists|a: int| 0 <= a < v0.len() && v0[a].0 == x {
                        let a = choose|a: int| 0 <= a < v0.len() && v0[a].0 == x;
                        assert(a != i);
                        let a1 = if a < i { a } else { a - 1 };
                        assert(w[a1] == v0[a]);
                    }
                }
                assert forall|a: int, b: int| 0 <= a < v0.len() && 0 <= b < w.len() && v0[a].0 == w[b].0 && v0[a].0 != k@ implies v0[a].1 == w[b].1 by {
                    let b0 = if b < i { b } else { b + 1 };
                    assert(w[b] == v0[b0]);
                    if a != b0 {
                        if a < b0 {
                            assert(v0[a].0 != v0[b0].0);
                        } else {
                            assert(v0[b0].0 != v0[a].0);
                        }
                    }
                }
                assert(!exists|a: int| 0 <= a < w.len() && w[a].0 == k@) by {
                    if exists|a: int| 0 <= a < w.len() && w[a].0 == k@ {
                        let a = choose|a: int| 0 <= a < w.len() && w[a].0 == k@;
                        let a0 = if a < i { a } else { a + 1 };
                        assert(v0[a0] == w[a]);
                        if a0 < i {
                            assert(v0[a0].0 != v0[i as int].0);
                        } else {
                            assert(v0[i as int].0 != v0[a0].0);
                        }
                    }
                }
                lemma_count_update(v0, w, k@, 0);
            }
        }
    } else {
        proof {
            assert(count_in(v0, k@) == 0);
            assert forall|x: Seq<char>| #[trigger] count_in(fam_counts_view(v@), x) == dropped(v0, k@, x) by {}
        }
    }
}

/// The effect of a start of `pid` with family `fam` and class `class` on the counts.
pub open spec fn started_effect(a: &ProcCounts, b: &ProcCounts, pid: u32, fam: Seq<char>, class: ProcessClass) -> bool {
    &&& b.wf()
    &&& b.families() == a.families().insert(pid, fam)
    &&& b.pid_classes@ == a.pid_classes@.insert(pid, class)
    &&& forall|f: Seq<char>| #[trigger] b.family_count(f) == bumped(fam_counts_view(a.active_families@), fam, f)
    &&& forall|c: ProcessClass| #[trigger] b.class_count(c) == bumped(a.class_counts@, class, c)
    &&& b.fam_count == if a.family_count(fam) == 0 { inc_sat(a.fam_count) } else { a.fam_count }
}

/// The effect of a termination of `pid` on the counts.
pub open spec fn terminated_effect(a: &ProcCounts, b: &ProcCounts, pid: u32) -> bool {
    &&& b.wf()
    &&& b.families() == a.families().remove(pid)
    &&& b.pid_classes@ == a.pid_classes@.remove(pid)
    &&& forall|f: Seq<char>|
        #[trigger] b.family_count(f) == if a.families().contains_key(pid) {
            dropped(fam_counts_view(a.active_families@), a.families()[pid], f)
        } else {
            a.family_count(f)
        }
    &&& forall|c: ProcessClass|
        #[trigger] b.class_count(c) == if a.pid_classes@.contains_key(pid) {
            dropped(a.class_counts@, a.pid_classes@[pid], c)
        } else {
            a.class_count(c)
        }
    &&& b.fam_count == if a.families().contains_key(pid) && a.family_count(a.families()[pid]) == 1 {
        dec_sat(a.fam_count)
    } else {
        a.fam_count
    }
}

impl ProcCounts {
    /// Track a started process.
    pub fn on_started(&mut self, pid: u32, name: &str)
        requires
            old(self).wf(),
        ensures
            started_effect(old(self), final(self), pid, family_of(name@), class_of_lower(lowercase(name@))),
    {
        let fam = family_for_name(name);
        let ghost fams0 = self.families();
        self.pid_families.insert(pid, fam.clone());
        proof {
            assert(self.families() =~= fams0.insert(pid, fam@));
        }
        let fresh = bump_family(&mut self.active_families, &fam);
        if fresh {
            self.fam_count = if self.fam_count == usize::MAX { self.fam_count } else { self.fam_count + 1 };
        }
        let class = classify_name(name);
        self.pid_classes.insert(pid, class);
        bump_class(&mut self.class_counts, class);
    }

    /// Stop tracking a terminated process.
    pub fn on_terminated(&mut self, pid: u32)
        requires
            old(self).wf(),
        ensures
            terminated_effect(old(self), final(self), pid),
    {
        let ghost fams0 = self.families();
        match self.pid_families.remove(&pid) {
            Some(fam) => {
                proof {
                    assert(self.families() =~= fams0.remove(pid));
                }
                let before = self.fam_count;
                let ghost fc = fam_counts_view(self.active_families@);
                let last = match find_count(&self.active_families, &fam) {
                    Some(c) => c == 1,
                    None => false,
                };
                drop_family(&mut self.active_families, &fam);
                if last {
                    self.fam_count = if before == 0 { 0 } else { before - 1 };
                }
            },
            None => {
                proof {
                    assert(self.families() =~= fams0.remove(pid));
                }
            },
        }
        match self.pid_classes.remove(&pid) {
            Some(class) => {
                drop_class(&mut self.class_counts, class);
            },
            None => {},
        }
    }
}

/// The count stored for family `k`, if any.
fn find_count(v: &Vec<(String, usize)>, k: &String) -> (r: Option<usize>)
    requires
        counts_wf(fam_counts_view(v@)),
    ensures
        match r {
            Some(c) => c == count_in(fam_counts_view(v@), k@) && c > 0,
            None => count_in(fam_counts_view(v@), k@) == 0,
        },
{
    let ghost w = fam_counts_view(v@);
    let mut i: usize = 0;
    while i < v.len()
        invariant
            i <= v@.len(),
            w == fam_counts_view(v@),
            counts_wf(w),
            forall|j: int| 0 <= j < i ==> w[j].0 != k@,
        decreases v@.len() - i,
    {
        if v[i].0 == *k {
            proof {
                assert(w[i as int] == (v@[i as int].0@, v@[i as int].1));
                lemma_count_at(w, i as int);
            }
            return Some(v[i].1);
        }
        proof {
            assert(w[i as int] == (v@[i as int].0@, v@[i as int].1));
        }
        i = i + 1;
    }
    None
}

/// Law: tracking a start of a new pid and then its termination leaves every count, and the
/// tracked families and classes, as they were (when no count is at its maximum).
pub proof fn law_start_then_terminate(a: &ProcCounts, b: &ProcCounts, c: &ProcCounts, pid: u32, fam: Seq<char>, class: ProcessClass)
    requires
        a.wf(),
        !a.families().contains_key(pid),
        !a.pid_classes@.contains_key(pid),
        a.family_count(fam) < usize::MAX,
        a.class_count(class) < usize::MAX,
        a.fam_count < usize::MAX,
        started_effect(a, b, pid, fam, class),
        terminated_effect(b, c, pid),
    ensures
        c.families() == a.families(),
        c.pid_classes@ == a.pid_classes@,
        forall|f: Seq<char>| #[trigger] c.family_count(f) == a.family_count(f),
        forall|k: ProcessClass| #[trigger] c.class_count(k) == a.class_count(k),
        c.fam_count == a.fam_count,
{
    assert(b.families().contains_key(pid) && b.families()[pid] == fam);
    assert(c.families() =~= a.families());
    assert(c.pid_classes@ =~= a.pid_classes@);
    assert(b.family_count(fam) == inc_sat(a.family_count(fam)));
    assert forall|f: Seq<char>| #[trigger] c.family_count(f) == a.family_count(f) by {
        assert(b.family_count(f) == bumped(fam_counts_view(a.active_families@), fam, f));
    }
    assert forall|k: ProcessClass| #[trigger] c.class_count(k) == a.class_count(k) by {
        assert(b.class_count(k) == bumped(a.class_counts@, class, k));
    }
}

// ---------------------------------------------------------------------------------------------
// Security status of the overview
// ---------------------------------------------------------------------------------------------

/// The overview's security status after `elapsed_secs` since the last suspicion: a suspicious
/// status goes back to normal once more than a minute has passed.
pub open spec fn status_after(status: SecurityStatus, elapsed_secs: Option<u64>) -> SecurityStatus {
    match (status, elapsed_secs) {
        (SecurityStatus::Suspicious, Some(e)) => if e > 60 { SecurityStatus::Normal } else { status },
        _ => status,
    }
}

/// Expire a stale suspicion (see `status_after`); returns the status and whether the
/// suspicion time is kept.
pub fn expire_suspicion(status: SecurityStatus, elapsed_secs: Option<u64>) -> (r: (SecurityStatus, bool))
    ensures
        r.0 == status_after(status, elapsed_secs),
        r.1 == (elapsed_secs is Some && !(status == SecurityStatus::Suspicious && elapsed_secs->0 > 60)),
{
    match (status, elapsed_secs) {
        (SecurityStatus::Suspicious, Some(e)) => {
            if e > 60 {
                (SecurityStatus::Normal, false)
            } else {
                (status, true)
            }
        },
        (_, Some(_)) => (status, true),
        (_, None) => (status, false),
    }
}

// ---------------------------------------------------------------------------------------------
// Print throttle
// ---------------------------------------------------------------------------------------------

/// What to do with a request to print the overview.
#[derive(Debug, Clone, Copy, PartialEq, Eq, Structural)]
pub enum PrintDecision {
    /// Print now and remember the time.
    PrintNow,
    /// Too soon: print once when the throttle interval has passed.
    Schedule,
    /// Too soon, and a print is already scheduled.
    Skip,
}

/// The decision for a print request `elapsed_ms` after the last print, with prints at most
/// every `throttle_ms`, and `pending` when a delayed print is already scheduled. The print
/// clock starts at the first request (`None`), which therefore counts as no time elapsed.
pub open spec fn print_decision(elapsed_ms: Option<u64>, throttle_ms: u64, pending: bool) -> PrintDecision {
    let e: u64 = match elapsed_ms {
        Some(e) => e,
        None => 0,
    };
    if e < throttle_ms {
        if pending {
            PrintDecision::Skip
        } else {
            PrintDecision::Schedule
        }
    } else {
        PrintDecision::PrintNow
    }
}

/// Decide a print request (see `print_decision`).
pub fn overview_print_due(elapsed_ms: Option<u64>, throttle_ms: u64, pending: bool) -> (d: PrintDecision)
    ensures
        d == print_decision(elapsed_ms, throttle_ms, pending),
{
    let e: u64 = match elapsed_ms {
        Some(e) => e,
        None => 0,
    };
    if e < throttle_ms {
        if pending {
            PrintDecision::Skip
        } else {
            PrintDecision::Schedule
        }
    } else {
        PrintDecision::PrintNow
    }
}

// ---------------------------------------------------------------------------------------------
// Overview text
// ---------------------------------------------------------------------------------------------

/// How many processes of class `c` are counted.
fn class_count_of(v: &Vec<(ProcessClass, usize)>, c: ProcessClass) -> (r: usize)
    requires
        counts_wf(v@),
    ensures
        r == count_in(v@, c),
{
    let mut i: usize = 0;
    while i < v.len()
        invariant
            i <= v@.len(),
            counts_wf(v@),
            forall|j: int| 0 <= j < i ==> v@[j].0 != c,
        decreases v@.len() - i,
    {
        if v[i].0 == c {
            proof {
                lemma_count_at(v@, i as int);
            }
            return v[i].1;
        }
        i = i + 1;
    }
    0
}

/// The overview lines: CPU and memory use, process, family and class counts, the security
/// status and the highest score, then the last display message when there is one.
pub open spec fn overview_text(
    cpu_x100: u32,
    mem_x100: u32,
    procs: nat,
    c: &ProcCounts,
    status: SecurityStatus,
    max: u8,
    last_ui: Option<Seq<char>>,
) -> Seq<Seq<char>> {
    seq![
        "[Overview] CPU:"@ + fixed1(cpu_x100 as nat) + "% MEM(MB):"@ + fixed1(mem_x100 as nat) + " PROCS:"@ + decimal(procs)
            + " FAM:"@ + decimal(c.fam_count as nat) + " BROWSER:"@ + decimal(c.class_count(ProcessClass::Browser) as nat)
            + " DEV:"@ + decimal(c.class_count(ProcessClass::DevTools) as nat) + " UNKNOWN:"@ + decimal(
            c.class_count(ProcessClass::Unknown) as nat,
        ) + " SEC:"@ + status_label(status) + " SCORE_MAX:"@ + decimal(max as nat) + "%"@,
    ] + match last_ui {
        Some(u) => seq!["[Overview UI] "@ + u],
        None => Seq::empty(),
    }
}

/// The overview lines (see `overview_text`); the process count is the number of tracked
/// pids.
pub fn overview_lines(
    cpu_x100: u32,
    mem_x100: u32,
    c: &ProcCounts,
    status: SecurityStatus,
    max: u8,
    last_ui: &Option<String>,
) -> (r: Vec<String>)
    requires
        c.wf(),
    ensures
        r@.map_values(|x: String| x@) == overview_text(
            cpu_x100,
            mem_x100,
            c.pid_families@.len(),
            c,
            status,
            max,
            crate::process_state::opt_str(*last_ui),
        ),
{
    let mut l = string_of("[Overview] CPU:");
    push_fixed1(&mut l, cpu_x100 as u128);
    l.append("% MEM(MB):");
    push_fixed1(&mut l, mem_x100 as u128);
    l.append(" PROCS:");
    push_decimal(&mut l, c.pid_families.len() as u128);
    l.append(" FAM:");
    push_decimal(&mut l, c.fam_count as u128);
    l.append(" BROWSER:");
    push_decimal(&mut l, class_count_of(&c.class_counts, ProcessClass::Browser) as u128);
    l.append(" DEV:");
    push_decimal(&mut l, class_count_of(&c.class_counts, ProcessClass::DevTools) as u128);
    l.append(" UNKNOWN:");
    push_decimal(&mut l, class_count_of(&c.class_counts, ProcessClass::Unknown) as u128);
    l.append(" SEC:");
    l.append(status_name(status));
    l.append(" SCORE_MAX:");
    push_decimal(&mut l, max as u128);
    l.append("%");
    let mut r: Vec<String> = Vec::new();
    r.push(l);
    match last_ui {
        Some(u) => {
            let mut m = string_of("[Overview UI] ");
            m.append(u.as_str());
            r.push(m);
        },
        None => {},
    }
    proof {
        assert(r@.map_values(|x: String| x@) =~= overview_text(
            cpu_x100,
            mem_x100,
            c.pid_families@.len(),
            c,
            status,
            max,
            crate::process_state::opt_str(*last_ui),
        ));
    }
    r
}

/// The last display message line kept by the overview: topic, a colon and the body.
pub fn last_ui_text(topic: &str, body: &str) -> (r: String)
    ensures
        r@ == topic@ + ": "@ + body@,
{
    let mut s = string_of(topic);
    s.append(": ");
    s.append(body);
    s
}

// ---------------------------------------------------------------------------------------------
// System figures and security signals of the overview
// ---------------------------------------------------------------------------------------------

/// The system figures the overview shows: CPU use and memory in use (hundredths).
pub struct OverviewMetrics {
    pub cpu_x100: u32,
    pub mem_x100: u32,
}

impl OverviewMetrics {
    pub fn new() -> (m: Self)
        ensures
            m.cpu_x100 == 0,
            m.mem_x100 == 0,
    {
        OverviewMetrics { cpu_x100: 0, mem_x100: 0 }
    }

    /// Take a CPU event: a sample or a spike sets the CPU figure, its end clears it.
    pub fn on_cpu_event(&mut self, ev: &CpuEvent)
        ensures
            final(self).mem_x100 == old(self).mem_x100,
            final(self).cpu_x100 == match ev {
                CpuEvent::RawSample { percent_x100 } => *percent_x100,
                CpuEvent::Spike { percent_x100 } => *percent_x100,
                CpuEvent::Normalized => 0,
            },
    {
        match ev {
            CpuEvent::RawSample { percent_x100 } => self.cpu_x100 = *percent_x100,
            CpuEvent::Spike { percent_x100 } => self.cpu_x100 = *percent_x100,
            CpuEvent::Normalized => self.cpu_x100 = 0,
        }
    }

    /// Take a memory event: a system sample or high pressure sets the memory figure; a
    /// per-process sample is ignored; a leak suspicion leaves the figures and returns the
    /// line the overview prints for it.
    pub fn on_memory_event(&mut self, ev: &MemoryEvent) -> (r: Option<String>)
        ensures
            final(self).cpu_x100 == old(self).cpu_x100,
            final(self).mem_x100 == match ev {
                MemoryEvent::UsedSample { used_mb_x100 } => *used_mb_x100,
                MemoryEvent::PressureHigh { used_mb_x100 } => *used_mb_x100,
                _ => old(self).mem_x100,
            },
            match ev {
                MemoryEvent::LeakSuspected { pid } => r matches Some(l) && l@ == "[Overview] Leak suspected in PID "@
                    + decimal(*pid as nat),
                _ => r is None,
            },
    {
        match ev {
            MemoryEvent::UsedSample { used_mb_x100 } => {
                self.mem_x100 = *used_mb_x100;
                None
            },
            MemoryEvent::PressureHigh { used_mb_x100 } => {
                self.mem_x100 = *used_mb_x100;
                None
            },
            MemoryEvent::LeakSuspected { pid } => {
                let mut l = string_of("[Overview] Leak suspected in PID ");
                push_decimal(&mut l, *pid as u128);
                Some(l)
            },
            MemoryEvent::ProcessMemorySample { .. } => None,
        }
    }
}

/// Whether a process event changes the overview's counts and so asks for a print: starts and
/// terminations do; spikes and family events do not.
pub fn process_event_prints(ev: &ProcessEvent) -> (b: bool)
    ensures
        b == (ev@ is Started || ev@ is Terminated),
{
    match ev {
        ProcessEvent::Started(_) => true,
        ProcessEvent::Terminated(_) => true,
        _ => false,
    }
}

/// Whether a memory event changes the overview's figures and so asks for a print: system
/// samples and high pressure do; a leak suspicion prints its own line instead, and
/// per-process samples are not system figures.
pub fn memory_event_prints(ev: &MemoryEvent) -> (b: bool)
    ensures
        b == (ev is UsedSample || ev is PressureHigh),
{
    match ev {
        MemoryEvent::UsedSample { .. } => true,
        MemoryEvent::PressureHigh { .. } => true,
        _ => false,
    }
}

/// Whether a security event makes the overview suspicious: a PowerShell spawn, an unsigned
/// start, or a verification that found the executable unsigned (other verification results
/// are informational).
pub fn raises_suspicion(ev: &SecurityEvent) -> (b: bool)
    ensures
        b == match ev {
            SecurityEvent::PowershellSpawned { .. } => true,
            SecurityEvent::UnsignedProcessStarted { .. } => true,
            SecurityEvent::ProcessSignatureVerification { result, .. } => *result == SignatureVerification::Unsigned,
            _ => false,
        },
{
    match ev {
        SecurityEvent::PowershellSpawned { .. } => true,
        SecurityEvent::UnsignedProcessStarted { .. } => true,
        SecurityEvent::ProcessSignatureVerification { result, .. } => *result == SignatureVerification::Unsigned,
        _ => false,
    }
}

} // verus!
