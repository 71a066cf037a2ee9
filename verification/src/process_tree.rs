use crate::process_engine::{insert_sorted, lex_sorted, strings_of};
use crate::process_state::{family_for_name, family_of, has_pid, InfoView, ProcessState};
use crate::security_state::{get_process_score, lemma_score_range, status_for_pid, status_label, status_name, status_of_score, SecurityState};
use crate::text::{decimal, lemma_lex_irrefl, lemma_lex_total, lemma_lex_trans, lex_lt, push_decimal, str_lt, string_of};
use vstd::prelude::*;
use vstd::set_lib::{lemma_int_range, lemma_len_subset, set_int_range};
use vstd::string::{StrSliceExecFns, StringExecFns};

verus! {

broadcast use {vstd::seq_lib::group_seq_properties, vstd::seq::group_seq_axioms};

// ---------------------------------------------------------------------------------------------
// Ordering of children
// ---------------------------------------------------------------------------------------------

/// Two sequences strictly ordered by the same strict order and holding the same elements are
/// equal.
pub proof fn lemma_sorted_unique<A>(a: Seq<A>, b: Seq<A>, lt: spec_fn(A, A) -> bool)
    requires
        forall|x: A| !#[trigger] lt(x, x),
        forall|x: A, y: A, z: A| #[trigger] lt(x, y) && #[trigger] lt(y, z) ==> lt(x, z),
        forall|i: int, j: int| 0 <= i < j < a.len() ==> lt(#[trigger] a[i], #[trigger] a[j]),
        forall|i: int, j: int| 0 <= i < j < b.len() ==> lt(#[trigger] b[i], #[trigger] b[j]),
        forall|x: A| a.contains(x) <==> b.contains(x),
    ensures
        a == b,
    decreases a.len(),
{
    if a.len() == 0 {
        if b.len() > 0 {
            assert(b.contains(b[0]));
        }
        assert(a =~= b);
    } else {
        assert(a.contains(a[0]));
        assert(b.len() > 0);
        assert(b.contains(b[0]));
        let j = choose|j: int| 0 <= j < b.len() && b[j] == a[0];
        let i = choose|i: int| 0 <= i < a.len() && a[i] == b[0];
        if j > 0 && i > 0 {
            assert(lt(a[0], a[i]));
            assert(lt(b[0], b[j]));
            assert(lt(a[0], a[0]));
        } else if j > 0 {
            assert(lt(b[0], b[j]));
        } else if i > 0 {
            assert(lt(a[0], a[i]));
        }
        assert(a[0] == b[0]);
        let a1 = a.drop_first();
        let b1 = b.drop_first();
        assert forall|x: A| a1.contains(x) <==> b1.contains(x) by {
            if a1.contains(x) {
                let k = choose|k: int| 0 <= k < a1.len() && a1[k] == x;
                assert(lt(a[0], a[k + 1]));
                assert(b.contains(x));
                let m = choose|m: int| 0 <= m < b.len() && b[m] == x;
                if m == 0 {
                    assert(lt(x, x));
                }
                assert(b1[m - 1] == x);
            }
            if b1.contains(x) {
                let k = choose|k: int| 0 <= k < b1.len() && b1[k] == x;
                assert(lt(b[0], b[k + 1]));
                assert(a.contains(x));
                let m = choose|m: int| 0 <= m < a.len() && a[m] == x;
                if m == 0 {
                    assert(lt(x, x));
                }
                assert(a1[m - 1] == x);
            }
        }
        assert forall|i2: int, j2: int| 0 <= i2 < j2 < a1.len() implies lt(#[trigger] a1[i2], #[trigger] a1[j2]) by {
            assert(lt(a[i2 + 1], a[j2 + 1]));
        }
        assert forall|i2: int, j2: int| 0 <= i2 < j2 < b1.len() implies lt(#[trigger] b1[i2], #[trigger] b1[j2]) by {
            assert(lt(b[i2 + 1], b[j2 + 1]));
        }
        lemma_sorted_unique(a1, b1, lt);
        assert(a =~= b) by {
            assert forall|k: int| 0 <= k < a.len() implies a[k] == b[k] by {
                if k > 0 {
                    assert(a[k] == a1[k - 1]);
                    assert(b[k] == b1[k - 1]);
                }
            }
        }
    }
}

proof fn lemma_lex_order()
    ensures
        forall|x: Seq<char>| !#[trigger] lex_lt(x, x),
        forall|x: Seq<char>, y: Seq<char>, z: Seq<char>| #[trigger] lex_lt(x, y) && #[trigger] lex_lt(y, z) ==> lex_lt(x, z),
{
    assert forall|x: Seq<char>| !#[trigger] lex_lt(x, x) by {
        lemma_lex_irrefl(x);
    }
    assert forall|x: Seq<char>, y: Seq<char>, z: Seq<char>| #[trigger] lex_lt(x, y) && #[trigger] lex_lt(y, z) implies lex_lt(x, z) by {
        lemma_lex_trans(x, y, z);
    }
}

/// Process `k` of `s` has parent `p`.
pub open spec fn is_child(s: Seq<InfoView>, p: u32, k: int) -> bool {
    0 <= k < s.len() && s[k].parent_pid == p
}

/// `fs` lists the families of the children of `p`, each once, in name order.
pub open spec fn families_listed(s: Seq<InfoView>, p: u32, fs: Seq<Seq<char>>) -> bool {
    &&& lex_sorted(fs)
    &&& forall|f: Seq<char>| fs.contains(f) <==> exists|k: int| is_child(s, p, k) && family_of(s[k].name) == f
}

/// The families of the children of `p`, each once, in name order.
pub open spec fn child_families(s: Seq<InfoView>, p: u32) -> Seq<Seq<char>> {
    choose|fs: Seq<Seq<char>>| families_listed(s, p, fs)
}

/// Order of children within a family: by name, then by position in the snapshot.
pub open spec fn key_lt(s: Seq<InfoView>, a: int, b: int) -> bool {
    lex_lt(s[a].name, s[b].name) || (s[a].name == s[b].name && a < b)
}

/// `ms` lists the children of `p` in family `f` in name order.
pub open spec fn members_listed(s: Seq<InfoView>, p: u32, f: Seq<char>, ms: Seq<int>) -> bool {
    &&& forall|i: int, j: int| 0 <= i < j < ms.len() ==> key_lt(s, #[trigger] ms[i], #[trigger] ms[j])
    &&& forall|k: int| ms.contains(k) <==> (is_child(s, p, k) && family_of(s[k].name) == f)
}

/// The children of `p` in family `f`, in name order (snapshot order among equal names).
pub open spec fn family_members(s: Seq<InfoView>, p: u32, f: Seq<char>) -> Seq<int> {
    choose|ms: Seq<int>| members_listed(s, p, f, ms)
}

proof fn lemma_key_order(s: Seq<InfoView>)
    ensures
        forall|x: int| !#[trigger] key_lt(s, x, x),
        forall|x: int, y: int, z: int| #[trigger] key_lt(s, x, y) && #[trigger] key_lt(s, y, z) ==> key_lt(s, x, z),
{
    lemma_lex_order();
    assert forall|x: int, y: int, z: int| #[trigger] key_lt(s, x, y) && #[trigger] key_lt(s, y, z) implies key_lt(s, x, z) by {
        if lex_lt(s[x].name, s[y].name) && lex_lt(s[y].name, s[z].name) {
            assert(lex_lt(s[x].name, s[z].name));
        }
    }
}

/// An entry of the tree's work list: a process to show (by position in the snapshot), or a
/// family heading with its number of processes.
pub enum TreeItem {
    Node(usize),
    Group(String, usize),
}

pub enum ItemView {
    Node(int),
    Group(Seq<char>, nat),
}

impl View for TreeItem {
    type V = ItemView;

    open spec fn view(&self) -> ItemView {
        match self {
            TreeItem::Node(k) => ItemView::Node(*k as int),
            TreeItem::Group(f, c) => ItemView::Group(f@, *c as nat),
        }
    }
}

pub open spec fn items_view(v: Seq<TreeItem>) -> Seq<ItemView> {
    v.map_values(|t: TreeItem| t@)
}

/// What follows a shown process with pid `p`: for each family of its children in name order,
/// the family heading, then the family's children.
pub open spec fn expansion(s: Seq<InfoView>, p: u32) -> Seq<ItemView> {
    child_families(s, p).flat_map(
        |f: Seq<char>|
            seq![ItemView::Group(f, family_members(s, p, f).len())] + family_members(s, p, f).map_values(
                |k: int| ItemView::Node(k),
            ),
    )
}

/// Insert child `k` (later in the snapshot than every member so far) into the name-ordered
/// members `ms`.
fn insert_member(st: &ProcessState, ms: &mut Vec<usize>, k: usize)
    requires
        k < st.procs().len(),
        forall|i: int| 0 <= i < old(ms)@.len() ==> #[trigger] old(ms)@[i] < k,
        forall|i: int| 0 <= i < old(ms)@.len() ==> #[trigger] old(ms)@[i] < st.procs().len(),
        forall|i: int, j: int|
            0 <= i < j < old(ms)@.len() ==> key_lt(st.procs(), #[trigger] old(ms)@[i] as int, #[trigger] old(ms)@[j] as int),
    ensures
        forall|i: int| 0 <= i < final(ms)@.len() ==> #[trigger] final(ms)@[i] <= k,
        forall|i: int| 0 <= i < final(ms)@.len() ==> #[trigger] final(ms)@[i] < st.procs().len(),
        forall|i: int, j: int|
            0 <= i < j < final(ms)@.len() ==> key_lt(st.procs(), #[trigger] final(ms)@[i] as int, #[trigger] final(ms)@[j] as int),
        forall|x: usize| final(ms)@.contains(x) <==> (old(ms)@.contains(x) || x == k),
{
    let ghost s = st.procs();
    let ghost m0 = ms@;
    proof {
        lemma_key_order(s);
    }
    let mut j: usize = 0;
    while j < ms.len() && !str_lt(st.processes[k].name.as_str(), st.processes[ms[j]].name.as_str())
        invariant
            j <= ms@.len(),
            ms@ == m0,
            s == st.procs(),
            k < s.len(),
            forall|i: int| 0 <= i < m0.len() ==> #[trigger] m0[i] < s.len(),
            forall|i: int| 0 <= i < j ==> !lex_lt(s[k as int].name, s[#[trigger] m0[i] as int].name),
        decreases ms@.len() - j,
    {
        proof {
            assert(s[k as int] == st.processes@[k as int]@);
            assert(s[m0[j as int] as int] == st.processes@[m0[j as int] as int]@);
        }
        j = j + 1;
    }
    proof {
        if j < ms@.len() {
            assert(s[k as int] == st.processes@[k as int]@);
            assert(s[m0[j as int] as int] == st.processes@[m0[j as int] as int]@);
            assert(lex_lt(s[k as int].name, s[m0[j as int] as int].name));
        }
    }
    ms.insert(j, k);
    proof {
        let nv = ms@;
        assert(nv =~= m0.insert(j as int, k));
        assert forall|a: int, b: int| 0 <= a < b < nv.len() implies key_lt(s, #[trigger] nv[a] as int, #[trigger] nv[b] as int) by {
            if b < j {
                assert(nv[a] == m0[a] && nv[b] == m0[b]);
            } else if b == j {
                assert(nv[a] == m0[a]);
                lemma_lex_total(s[k as int].name, s[m0[a] as int].name);
                assert(!lex_lt(s[k as int].name, s[m0[a] as int].name));
            } else if a == j {
                assert(nv[b] == m0[b - 1]);
                if b - 1 > j {
                    assert(key_lt(s, m0[j as int] as int, m0[b - 1] as int));
                }
                assert(key_lt(s, k as int, m0[j as int] as int));
            } else if a < j {
                assert(nv[a] == m0[a] && nv[b] == m0[b - 1]);
                if b - 1 > j {
                    assert(key_lt(s, m0[j as int] as int, m0[b - 1] as int));
                }
                assert(key_lt(s, m0[a] as int, m0[j as int] as int));
            } else {
                assert(nv[a] == m0[a - 1] && nv[b] == m0[b - 1]);
            }
        }
        assert forall|x: usize| nv.contains(x) <==> (m0.contains(x) || x == k) by {
            if nv.contains(x) {
                let i = choose|i: int| 0 <= i < nv.len() && nv[i] == x;
                if i < j {
                    assert(m0[i] == x);
                } else if i > j {
                    assert(m0[i - 1] == x);
                }
            }
            if m0.contains(x) {
                let i = choose|i: int| 0 <= i < m0.len() && m0[i] == x;
                if i < j {
                    assert(nv[i] == x);
                } else {
                    assert(nv[i + 1] == x);
                }
            }
            if x == k {
                assert(nv[j as int] == x);
            }
        }
    }
}

/// What follows the shown process at position `i` (see `expansion`).
pub fn expansion_items(st: &ProcessState, i: usize) -> (r: Vec<TreeItem>)
    requires
        st.wf(),
        i < st.procs().len(),
    ensures
        items_view(r@) == expansion(st.procs(), st.procs()[i as int].pid),
        forall|j: int| 0 <= j < r@.len() ==> (#[trigger] r@[j] matches TreeItem::Node(k) ==> k < st.procs().len()),
{
    let ghost s = st.procs();
    let n = st.processes.len();
    let p = st.processes[i].pid;
    proof {
        assert(s[i as int] == st.processes@[i as int]@);
    }
    // the families of the children, in name order
    let mut kids: Vec<(usize, String)> = Vec::new();
    let mut fams: Vec<String> = Vec::new();
    for k in 0..n
        invariant
            n == s.len(),
            s == st.procs(),
            lex_sorted(strings_of(fams@)),
            forall|f: Seq<char>|
                strings_of(fams@).contains(f) <==> exists|c: int| 0 <= c < k && is_child(s, p, c) && family_of(s[c].name) == f,
            forall|j: int| 0 <= j < kids@.len() ==> {
                &&& is_child(s, p, #[trigger] kids@[j].0 as int)
                &&& kids@[j].0 < k
                &&& kids@[j].1@ == family_of(s[kids@[j].0 as int].name)
            },
            forall|c: int| 0 <= c < k && is_child(s, p, c) ==> exists|j: int| 0 <= j < kids@.len() && #[trigger] kids@[j].0 == c,
            forall|a: int, b: int| 0 <= a < b < kids@.len() ==> #[trigger] kids@[a].0 < #[trigger] kids@[b].0,
    {
        proof {
            assert(s[k as int] == st.processes@[k as int]@);
        }
        if st.processes[k].parent_pid == p {
            let fam = family_for_name(st.processes[k].name.as_str());
            let ghost f0 = strings_of(fams@);
            insert_sorted(&mut fams, &fam);
            proof {
                assert forall|f: Seq<char>|
                    strings_of(fams@).contains(f) <==> exists|c: int| 0 <= c < k + 1 && is_child(s, p, c) && family_of(s[c].name) == f by {
                    if strings_of(fams@).contains(f) && f != fam@ {
                        assert(f0.contains(f));
                    }
                    if f == fam@ {
                        assert(is_child(s, p, k as int));
                    }
                    if exists|c: int| 0 <= c < k + 1 && is_child(s, p, c) && family_of(s[c].name) == f {
                        let c = choose|c: int| 0 <= c < k + 1 && is_child(s, p, c) && family_of(s[c].name) == f;
                        if c < k {
                            assert(f0.contains(f));
                        }
                    }
                }
            }
            let ghost kv = kids@;
            kids.push((k, fam));
            proof {
                assert(kids@[kv.len() as int].0 == k);
                assert forall|c: int| 0 <= c < k + 1 && is_child(s, p, c) implies exists|j: int| 0 <= j < kids@.len() && #[trigger] kids@[j].0 == c by {
                    if c < k {
                        let j = choose|j: int| 0 <= j < kv.len() && #[trigger] kv[j].0 == c;
                        assert(kids@[j].0 == c);
                    } else {
                        assert(kids@[kv.len() as int].0 == c);
                    }
                }
            }
        } else {
            proof {
                assert forall|f: Seq<char>|
                    strings_of(fams@).contains(f) <==> exists|c: int| 0 <= c < k + 1 && is_child(s, p, c) && family_of(s[c].name) == f by {
                    if exists|c: int| 0 <= c < k + 1 && is_child(s, p, c) && family_of(s[c].name) == f {
                        let c = choose|c: int| 0 <= c < k + 1 && is_child(s, p, c) && family_of(s[c].name) == f;
                        assert(c != k);
                    }
                }
            }
        }
    }
    proof {
        assert(families_listed(s, p, strings_of(fams@)));
        lemma_lex_order();
        lemma_sorted_unique(strings_of(fams@), child_families(s, p), |a: Seq<char>, b: Seq<char>| lex_lt(a, b));
    }
    let ghost fv = strings_of(fams@);
    let ghost g = |f: Seq<char>|
        seq![ItemView::Group(f, family_members(s, p, f).len())] + family_members(s, p, f).map_values(
            |k: int| ItemView::Node(k),
        );
    let mut out: Vec<TreeItem> = Vec::new();
    let nf = fams.len();
    for t in 0..nf
        invariant
            nf == fams@.len(),
            fv == strings_of(fams@),
            fv == child_families(s, p),
            s == st.procs(),
            n == s.len(),
            g == (|f: Seq<char>|
                seq![ItemView::Group(f, family_members(s, p, f).len())] + family_members(s, p, f).map_values(
                    |k: int| ItemView::Node(k),
                )),
            forall|j: int| 0 <= j < kids@.len() ==> {
                &&& is_child(s, p, #[trigger] kids@[j].0 as int)
                &&& kids@[j].1@ == family_of(s[kids@[j].0 as int].name)
            },
            forall|c: int| 0 <= c < n && is_child(s, p, c) ==> exists|j: int| 0 <= j < kids@.len() && #[trigger] kids@[j].0 == c,
            forall|a: int, b: int| 0 <= a < b < kids@.len() ==> #[trigger] kids@[a].0 < #[trigger] kids@[b].0,
            items_view(out@) == fv.take(t as int).flat_map(g),
            forall|j: int| 0 <= j < out@.len() ==> (#[trigger] out@[j] matches TreeItem::Node(k) ==> k < s.len()),
    {
        let f = &fams[t];
        let mut ms: Vec<usize> = Vec::new();
        let nk = kids.len();
        for q in 0..nk
            invariant
                nk == kids@.len(),
                s == st.procs(),
                f@ == fv[t as int],
                forall|j: int| 0 <= j < kids@.len() ==> {
                    &&& is_child(s, p, #[trigger] kids@[j].0 as int)
                    &&& kids@[j].1@ == family_of(s[kids@[j].0 as int].name)
                },
                forall|a: int, b: int| 0 <= a < b < kids@.len() ==> #[trigger] kids@[a].0 < #[trigger] kids@[b].0,
                forall|i2: int| 0 <= i2 < ms@.len() ==> #[trigger] ms@[i2] < s.len(),
                q < nk ==> forall|i2: int| 0 <= i2 < ms@.len() ==> #[trigger] ms@[i2] < kids@[q as int].0,
                forall|i2: int, j2: int|
                    0 <= i2 < j2 < ms@.len() ==> key_lt(s, #[trigger] ms@[i2] as int, #[trigger] ms@[j2] as int),
                forall|x: usize|
                    ms@.contains(x) <==> exists|j: int| 0 <= j < q && #[trigger] kids@[j].0 == x && kids@[j].1@ == f@,
        {
            let ghost m0 = ms@;
            if kids[q].1 == *f {
                insert_member(st, &mut ms, kids[q].0);
                proof {
                    assert forall|x: usize| ms@.contains(x) <==> exists|j: int| 0 <= j < q + 1 && #[trigger] kids@[j].0 == x && kids@[j].1@ == f@ by {
                        if ms@.contains(x) && x != kids@[q as int].0 {
                            assert(m0.contains(x));
                        }
                        if x == kids@[q as int].0 {
                            assert(kids@[q as int].0 == x && kids@[q as int].1@ == f@);
                        }
                    }
                }
            } else {
                proof {
                    assert forall|x: usize| ms@.contains(x) <==> exists|j: int| 0 <= j < q + 1 && #[trigger] kids@[j].0 == x && kids@[j].1@ == f@ by {
                        if exists|j: int| 0 <= j < q + 1 && #[trigger] kids@[j].0 == x && kids@[j].1@ == f@ {
                            let j = choose|j: int| 0 <= j < q + 1 && #[trigger] kids@[j].0 == x && kids@[j].1@ == f@;
                            assert(j != q);
                        }
                    }
                }
            }
            proof {
                if q + 1 < nk {
                    assert(kids@[q as int].0 < kids@[q + 1].0);
                    assert forall|i2: int| 0 <= i2 < ms@.len() implies #[trigger] ms@[i2] < kids@[q + 1].0 by {
                        assert(ms@.contains(ms@[i2]));
                        let j = choose|j: int| 0 <= j < q + 1 && #[trigger] kids@[j].0 == ms@[i2] && kids@[j].1@ == f@;
                        if j < q {
                            assert(kids@[j].0 < kids@[q as int].0);
                        }
                    }
                }
            }
        }
        let ghost mv = ms@.map_values(|x: usize| x as int);
        proof {
            assert(members_listed(s, p, f@, mv)) by {
                assert forall|i2: int, j2: int| 0 <= i2 < j2 < mv.len() implies key_lt(s, #[trigger] mv[i2], #[trigger] mv[j2]) by {
                    assert(key_lt(s, ms@[i2] as int, ms@[j2] as int));
                }
                assert forall|k: int| mv.contains(k) <==> (is_child(s, p, k) && family_of(s[k].name) == f@) by {
                    if mv.contains(k) {
                        let i2 = choose|i2: int| 0 <= i2 < mv.len() && mv[i2] == k;
                        assert(ms@.contains(ms@[i2]));
                        let j = choose|j: int| 0 <= j < nk && #[trigger] kids@[j].0 == ms@[i2] && kids@[j].1@ == f@;
                    }
                    if is_child(s, p, k) && family_of(s[k].name) == f@ {
                        let j = choose|j: int| 0 <= j < kids@.len() && #[trigger] kids@[j].0 == k;
                        assert(ms@.contains(kids@[j].0));
                        let i2 = choose|i2: int| 0 <= i2 < ms@.len() && ms@[i2] == kids@[j].0;
                        assert(mv[i2] == k);
                    }
                }
            }
            lemma_key_order(s);
            lemma_sorted_unique(mv, family_members(s, p, f@), |a: int, b: int| key_lt(s, a, b));
        }
        let ghost o0 = items_view(out@);
        out.push(TreeItem::Group(f.clone(), ms.len()));
        for q in 0..ms.len()
            invariant
                s == st.procs(),
                forall|i2: int| 0 <= i2 < ms@.len() ==> #[trigger] ms@[i2] < s.len(),
                mv == ms@.map_values(|x: usize| x as int),
                items_view(out@) == o0.push(ItemView::Group(f@, ms@.len() as nat)) + mv.take(q as int).map_values(
                    |k: int| ItemView::Node(k),
                ),
                forall|j: int| 0 <= j < out@.len() ==> (#[trigger] out@[j] matches TreeItem::Node(k) ==> k < s.len()),
        {
            let ghost ov = items_view(out@);
            out.push(TreeItem::Node(ms[q]));
            proof {
                crate::seq_facts::lemma_take_next(mv, q as int);
                assert(items_view(out@) =~= ov.push(ItemView::Node(mv[q as int])));
                assert(items_view(out@) =~= o0.push(ItemView::Group(f@, ms@.len() as nat)) + mv.take(q + 1).map_values(
                    |k: int| ItemView::Node(k),
                ));
            }
        }
        proof {
            assert(mv.take(ms@.len() as int) =~= mv);
            crate::seq_facts::lemma_take_next(fv, t as int);
            fv.take(t as int).lemma_flat_map_push(g, fv[t as int]);
            assert(items_view(out@) =~= fv.take(t + 1).flat_map(g));
        }
    }
    proof {
        assert(fv.take(nf as int) =~= fv);
    }
    out
}

// ---------------------------------------------------------------------------------------------
// The rendered tree
// ---------------------------------------------------------------------------------------------

/// A decimal right-aligned in three columns.
pub open spec fn pad3(d: Seq<char>) -> Seq<char> {
    if d.len() == 1 {
        "  "@ + d
    } else if d.len() == 2 {
        " "@ + d
    } else {
        d
    }
}

/// The line of a shown process: name, pid, score and status.
pub open spec fn node_line(p: InfoView, score: int) -> Seq<char> {
    p.name + " ("@ + decimal(p.pid as nat) + ")  SCORE:"@ + pad3(decimal(score as nat)) + "% "@ + status_label(
        status_of_score(score),
    )
}

/// The line of a family heading.
pub open spec fn group_line(f: Seq<char>, count: nat) -> Seq<char> {
    f + " ("@ + decimal(count) + ")"@
}

/// The line of a process reached again.
pub open spec fn cycle_line(p: InfoView) -> Seq<char> {
    p.name + " (cycle)"@
}

/// The work list and shown set are well formed: shown positions and listed processes are
/// positions of `s`.
pub open spec fn work_ok(s: Seq<InfoView>, work: Seq<ItemView>, shown: Set<int>) -> bool {
    &&& shown.finite()
    &&& shown.subset_of(set_int_range(0, s.len() as int))
    &&& forall|j: int| 0 <= j < work.len() ==> (#[trigger] work[j] matches ItemView::Node(k) ==> 0 <= k < s.len())
}

/// The lines produced by working through `work` depth first: a family heading shows as is; a
/// process already shown shows as a cycle; any other process shows with its score and status,
/// and its children, grouped by family, come next.
pub open spec fn render(s: Seq<InfoView>, sec: SecurityState, work: Seq<ItemView>, shown: Set<int>) -> Seq<Seq<char>>
    decreases s.len() - shown.len(), work.len(),
    when work_ok(s, work, shown)
{
    if work.len() == 0 {
        Seq::empty()
    } else {
        let rest = work.drop_first();
        match work[0] {
            ItemView::Group(f, c) => seq![group_line(f, c)] + render(s, sec, rest, shown),
            ItemView::Node(k) => if shown.contains(k) {
                seq![cycle_line(s[k])] + render(s, sec, rest, shown)
            } else {
                proof {
                    lemma_int_range(0, s.len() as int);
                    lemma_len_subset(shown.insert(k), set_int_range(0, s.len() as int));
                }
                seq![node_line(s[k], sec.score(s[k].pid))] + render(
                    s,
                    sec,
                    expansion(s, s[k].pid) + rest,
                    shown.insert(k),
                )
            },
        }
    }
}

/// The top of the tree: processes whose parent is 0 or not in the snapshot, in snapshot
/// order.
pub open spec fn roots(s: Seq<InfoView>) -> Seq<ItemView> {
    Seq::new(s.len(), |k: int| k).filter(|k: int| s[k].parent_pid == 0 || !has_pid(s, s[k].parent_pid)).map_values(
        |k: int| ItemView::Node(k),
    )
}

/// The process tree of a snapshot: each root and, under it, its children grouped by family
/// (families in name order, processes by name), depth first; a process reached a second
/// time shows as a cycle.
pub open spec fn tree_lines(s: Seq<InfoView>, sec: SecurityState) -> Seq<Seq<char>> {
    render(s, sec, roots(s), Set::empty())
}

fn push_line(lines: &mut Vec<String>, s: String)
    ensures
        final(lines)@.map_values(|x: String| x@) == old(lines)@.map_values(|x: String| x@).push(s@),
{
    let ghost before = lines@;
    lines.push(s);
    proof {
        assert(lines@.map_values(|x: String| x@) =~= before.map_values(|x: String| x@).push(s@));
    }
}

fn node_text(st: &ProcessState, sec: &SecurityState, k: usize) -> (r: String)
    requires
        st.wf(),
        sec.wf(),
        k < st.procs().len(),
    ensures
        r@ == node_line(st.procs()[k as int], sec.score(st.procs()[k as int].pid)),
{
    let p = &st.processes[k];
    proof {
        assert(st.procs()[k as int] == st.processes@[k as int]@);
        lemma_score_range(sec, p.pid);
    }
    let score = get_process_score(sec, p.pid);
    let mut d = string_of("");
    proof {
        reveal_strlit("");
    }
    push_decimal(&mut d, score as u128);
    let mut r = p.name.clone();
    r.append(" (");
    push_decimal(&mut r, p.pid as u128);
    r.append(")  SCORE:");
    let len = d.as_str().unicode_len();
    if len == 1 {
        r.append("  ");
    } else if len == 2 {
        r.append(" ");
    }
    r.append(d.as_str());
    r.append("% ");
    r.append(status_name(status_for_pid(sec, p.pid)));
    proof {
        assert(r@ =~= node_line(st.procs()[k as int], sec.score(st.procs()[k as int].pid)));
    }
    r
}

/// The process tree of the snapshot (see `tree_lines`).
pub fn process_tree_lines(st: &ProcessState, sec: &SecurityState) -> (r: Vec<String>)
    requires
        st.wf(),
        sec.wf(),
    ensures
        r@.map_values(|x: String| x@) == tree_lines(st.procs(), *sec),
{
    let ghost s = st.procs();
    let n = st.processes.len();
    // the roots, pushed so that the first is on top
    let mut rv: Vec<TreeItem> = Vec::new();
    let ghost idx = Seq::new(s.len(), |k: int| k);
    let ghost pr = |k: int| s[k].parent_pid == 0 || !has_pid(s, s[k].parent_pid);
    let ghost nd = |k: int| ItemView::Node(k);
    for k in 0..n
        invariant
            n == s.len(),
            s == st.procs(),
            st.wf(),
            idx == Seq::new(s.len(), |k: int| k),
            pr == (|k: int| s[k].parent_pid == 0 || !has_pid(s, s[k].parent_pid)),
            nd == (|k: int| ItemView::Node(k)),
            items_view(rv@) == idx.take(k as int).filter(pr).map_values(nd),
            forall|j: int| 0 <= j < rv@.len() ==> (#[trigger] rv@[j] matches TreeItem::Node(x) ==> x < s.len()),
    {
        proof {
            assert(s[k as int] == st.processes@[k as int]@);
            crate::seq_facts::lemma_take_next(idx, k as int);
            crate::seq_facts::lemma_filter_map_push(idx.take(k as int), k as int, pr, nd);
        }
        let pp = st.processes[k].parent_pid;
        let is_root = pp == 0 || st.find_process(pp).is_none();
        if is_root {
            let ghost before = items_view(rv@);
            rv.push(TreeItem::Node(k));
            proof {
                assert(items_view(rv@) =~= before.push(ItemView::Node(k as int)));
            }
        }
    }
    proof {
        assert(idx.take(n as int) =~= idx);
    }
    let mut stack: Vec<TreeItem> = Vec::new();
    let mut j = rv.len();
    while j > 0
        invariant
            j <= rv@.len(),
            items_view(stack@).reverse() == items_view(rv@).skip(j as int),
            forall|q: int| 0 <= q < stack@.len() ==> (#[trigger] stack@[q] matches TreeItem::Node(x) ==> x < s.len()),
            forall|q: int| 0 <= q < rv@.len() ==> (#[trigger] rv@[q] matches TreeItem::Node(x) ==> x < s.len()),
        decreases j,
    {
        j = j - 1;
        let ghost before = items_view(stack@);
        let it = match &rv[j] {
            TreeItem::Node(x) => TreeItem::Node(*x),
            TreeItem::Group(f, c) => TreeItem::Group(f.clone(), *c),
        };
        proof {
            assert(it@ == rv@[j as int]@);
        }
        stack.push(it);
        proof {
            assert(items_view(stack@) =~= before.push(it@));
            assert(before.push(it@).reverse() =~= seq![it@] + before.reverse());
            assert(items_view(rv@).skip(j as int) =~= seq![items_view(rv@)[j as int]] + items_view(rv@).skip(j + 1));
            assert(items_view(stack@).reverse() =~= items_view(rv@).skip(j as int));
        }
    }
    proof {
        assert(items_view(rv@).skip(0) =~= items_view(rv@));
    }
    let mut shown_flags: Vec<bool> = Vec::new();
    for k in 0..n
        invariant
            shown_flags@.len() == k,
            forall|q: int| 0 <= q < k ==> !shown_flags@[q],
    {
        shown_flags.push(false);
    }
    let ghost mut shown: Set<int> = Set::empty();
    let mut out: Vec<String> = Vec::new();
    proof {
        lemma_int_range(0, s.len() as int);
        assert(Set::<int>::empty().subset_of(set_int_range(0, s.len() as int)));
        assert(out@.map_values(|x: String| x@) =~= Seq::<Seq<char>>::empty());
    }
    while stack.len() > 0
        invariant
            n == s.len(),
            s == st.procs(),
            st.wf(),
            sec.wf(),
            shown_flags@.len() == n,
            forall|q: int| 0 <= q < n ==> (shown_flags@[q] <==> shown.contains(q)),
            work_ok(s, items_view(stack@).reverse(), shown),
            forall|q: int| 0 <= q < stack@.len() ==> (#[trigger] stack@[q] matches TreeItem::Node(x) ==> x < s.len()),
            out@.map_values(|x: String| x@) + render(s, *sec, items_view(stack@).reverse(), shown) == tree_lines(s, *sec),
        decreases s.len() - shown.len(), stack@.len(),
    {
        let ghost work = items_view(stack@).reverse();
        let ghost o0 = out@.map_values(|x: String| x@);
        let item = stack.pop().unwrap();
        let ghost rest = items_view(stack@).reverse();
        proof {
            assert(items_view(stack@.push(item)) =~= items_view(stack@).push(item@));
            assert(items_view(stack@).push(item@).reverse() =~= seq![item@] + items_view(stack@).reverse());
            assert(work =~= seq![item@] + rest);
            assert(work[0] == item@);
            assert(rest =~= work.drop_first());
            assert(work_ok(s, rest, shown)) by {
                assert forall|q: int| 0 <= q < rest.len() implies (#[trigger] rest[q] matches ItemView::Node(k) ==> 0 <= k < s.len()) by {
                    assert(rest[q] == work[q + 1]);
                }
            }
        }
        match item {
            TreeItem::Group(f, c) => {
                let mut l = f.clone();
                l.append(" (");
                push_decimal(&mut l, c as u128);
                l.append(")");
                push_line(&mut out, l);
                proof {
                    assert(out@.map_values(|x: String| x@) + render(s, *sec, rest, shown) =~= o0 + render(s, *sec, work, shown));
                }
            },
            TreeItem::Node(k) => {
                proof {
                    assert(work[0] matches ItemView::Node(x) ==> 0 <= x < s.len());
                }
                if shown_flags[k] {
                    let mut l = st.processes[k].name.clone();
                    l.append(" (cycle)");
                    proof {
                        assert(s[k as int] == st.processes@[k as int]@);
                    }
                    push_line(&mut out, l);
                    proof {
                        assert(out@.map_values(|x: String| x@) + render(s, *sec, rest, shown) =~= o0 + render(s, *sec, work, shown));
                    }
                } else {
                    let l = node_text(st, sec, k);
                    push_line(&mut out, l);
                    shown_flags.set(k, true);
                    let ghost shown0 = shown;
                    proof {
                        lemma_int_range(0, s.len() as int);
                        shown = shown.insert(k as int);
                        lemma_len_subset(shown, set_int_range(0, s.len() as int));
                        assert(shown.len() == shown0.len() + 1);
                    }
                    let exp = expansion_items(st, k);
                    let ghost ev = items_view(exp@);
                    let mut m = exp.len();
                    while m > 0
                        invariant
                            m <= exp@.len(),
                            ev == items_view(exp@),
                            items_view(stack@).reverse() == ev.skip(m as int) + rest,
                            forall|q: int| 0 <= q < stack@.len() ==> (#[trigger] stack@[q] matches TreeItem::Node(x) ==> x < s.len()),
                            forall|q: int| 0 <= q < exp@.len() ==> (#[trigger] exp@[q] matches TreeItem::Node(x) ==> x < s.len()),
                        decreases m,
                    {
                        m = m - 1;
                        let ghost before = items_view(stack@);
                        let it = match &exp[m] {
                            TreeItem::Node(x) => TreeItem::Node(*x),
                            TreeItem::Group(f, c) => TreeItem::Group(f.clone(), *c),
                        };
                        proof {
                            assert(it@ == exp@[m as int]@);
                        }
                        stack.push(it);
                        proof {
                            assert(items_view(stack@) =~= before.push(it@));
                            assert(before.push(it@).reverse() =~= seq![it@] + before.reverse());
                            assert(ev.skip(m as int) =~= seq![ev[m as int]] + ev.skip(m + 1));
                            assert(items_view(stack@).reverse() =~= ev.skip(m as int) + rest);
                        }
                    }
                    proof {
                        assert(ev.skip(0) =~= ev);
                        assert(s[k as int] == st.processes@[k as int]@);
                        let nw = items_view(stack@).reverse();
                        assert(nw == expansion(s, s[k as int].pid) + rest);
                        assert(work_ok(s, nw, shown)) by {
                            assert forall|q: int| 0 <= q < nw.len() implies (#[trigger] nw[q] matches ItemView::Node(x) ==> 0 <= x < s.len()) by {
                                let ws = items_view(stack@);
                                assert(nw[q] == ws[ws.len() - 1 - q]);
                                assert(ws[ws.len() - 1 - q] == stack@[ws.len() - 1 - q]@);
                            }
                        }
                        assert(out@.map_values(|x: String| x@) + render(s, *sec, nw, shown) =~= o0 + render(s, *sec, work, shown0));
                    }
                }
            },
        }
    }
    proof {
        assert(items_view(stack@).reverse() =~= Seq::<ItemView>::empty());
        assert(out@.map_values(|x: String| x@) =~= tree_lines(s, *sec));
    }
    out
}

} // verus!
