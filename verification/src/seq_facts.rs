use vstd::prelude::*;

verus! {

broadcast use {vstd::seq_lib::group_seq_properties, vstd::seq::group_seq_axioms};

/// Filtering then mapping a sequence with one more element.
pub proof fn lemma_filter_map_push<A, B>(s: Seq<A>, x: A, p: spec_fn(A) -> bool, f: spec_fn(A) -> B)
    ensures
        s.push(x).filter(p).map_values(f) == (if p(x) {
            s.filter(p).map_values(f).push(f(x))
        } else {
            s.filter(p).map_values(f)
        }),
{
    s.lemma_filter_push(x, p);
    let t = s.filter(p);
    assert(t.push(x).map_values(f) =~= t.map_values(f).push(f(x)));
}

/// Filtering by a predicate that every element meets keeps the sequence as it is.
pub proof fn lemma_filter_keeps_all<A>(s: Seq<A>, p: spec_fn(A) -> bool)
    requires
        forall|i: int| 0 <= i < s.len() ==> p(#[trigger] s[i]),
    ensures
        s.filter(p) == s,
    decreases s.len(),
{
    if s.len() > 0 {
        let r = s.drop_last();
        lemma_filter_keeps_all(r, p);
        assert(r.push(s.last()) =~= s);
        r.lemma_filter_push(s.last(), p);
    } else {
        assert(s.filter(p) =~= s);
    }
}

/// The first `i + 1` elements are the first `i` and then element `i`.
pub proof fn lemma_take_next<A>(s: Seq<A>, i: int)
    requires
        0 <= i < s.len(),
    ensures
        s.take(i + 1) == s.take(i).push(s[i]),
{
    assert(s.take(i + 1) =~= s.take(i).push(s[i]));
}

/// The distinct elements of `s` in order of first appearance.
pub open spec fn distinct_in_order<K>(s: Seq<K>) -> Seq<K>
    decreases s.len(),
{
    if s.len() == 0 {
        Seq::empty()
    } else {
        let r = distinct_in_order(s.drop_last());
        if r.contains(s.last()) {
            r
        } else {
            r.push(s.last())
        }
    }
}

/// How often `k` occurs in `s`.
pub open spec fn occurrences<K>(s: Seq<K>, k: K) -> nat {
    s.filter(|x: K| x == k).len()
}

/// `distinct_in_order` holds each element of `s` exactly once.
pub proof fn lemma_distinct_in_order<K>(s: Seq<K>)
    ensures
        distinct_in_order(s).no_duplicates(),
        forall|k: K| distinct_in_order(s).contains(k) <==> s.contains(k),
        distinct_in_order(s).len() <= s.len(),
    decreases s.len(),
{
    if s.len() > 0 {
        let rest = s.drop_last();
        lemma_distinct_in_order(rest);
        assert(s =~= rest.push(s.last()));
        assert forall|k: K| s.contains(k) <==> (rest.contains(k) || k == s.last()) by {
            if s.contains(k) {
                let i = choose|i: int| 0 <= i < s.len() && s[i] == k;
                if i < rest.len() {
                    assert(rest[i] == k);
                }
            }
            if rest.contains(k) {
                let i = choose|i: int| 0 <= i < rest.len() && rest[i] == k;
                assert(s[i] == k);
            }
            if k == s.last() {
                assert(s[s.len() - 1] == k);
            }
        }
    }
}

/// Counting occurrences in a sequence with one more element.
pub proof fn lemma_occurrences_push<K>(s: Seq<K>, x: K, k: K)
    ensures
        occurrences(s.push(x), k) == occurrences(s, k) + (if x == k { 1nat } else { 0nat }),
{
    s.lemma_filter_push(x, |y: K| y == k);
}

/// An element occurs in `s` exactly when it occurs at least once.
pub proof fn lemma_occurrences_contains<K>(s: Seq<K>, k: K)
    ensures
        occurrences(s, k) > 0 <==> s.contains(k),
    decreases s.len(),
{
    if s.len() > 0 {
        let rest = s.drop_last();
        assert(s =~= rest.push(s.last()));
        lemma_occurrences_push(rest, s.last(), k);
        lemma_occurrences_contains(rest, k);
        if s.contains(k) {
            let i = choose|i: int| 0 <= i < s.len() && s[i] == k;
            if i < rest.len() {
                assert(rest[i] == k);
            }
        }
        if rest.contains(k) {
            let i = choose|i: int| 0 <= i < rest.len() && rest[i] == k;
            assert(s[i] == k);
        }
    } else {
        assert(s.filter(|y: K| y == k) =~= Seq::<K>::empty());
    }
}

/// The occurrence count of every key of `s`, keys in order of first appearance.
pub fn tally(keys: &Vec<u32>) -> (r: Vec<(u32, usize)>)
    ensures
        r@.map_values(|p: (u32, usize)| p.0) == distinct_in_order(keys@),
        forall|j: int| 0 <= j < r@.len() ==> #[trigger] r@[j].1 == occurrences(keys@, r@[j].0),
        forall|j: int| 0 <= j < r@.len() ==> #[trigger] r@[j].1 <= keys@.len(),
{
    let mut r: Vec<(u32, usize)> = Vec::new();
    let n = keys.len();
    for i in 0..n
        invariant
            n == keys@.len(),
            r@.map_values(|p: (u32, usize)| p.0) == distinct_in_order(keys@.take(i as int)),
            forall|j: int| 0 <= j < r@.len() ==> #[trigger] r@[j].1 == occurrences(keys@.take(i as int), r@[j].0),
            forall|j: int| 0 <= j < r@.len() ==> #[trigger] r@[j].1 <= i,
    {
        let x = keys[i];
        let ghost pre = keys@.take(i as int);
        let ghost before = r@;
        proof {
            lemma_take_next(keys@, i as int);
            assert(keys@.take(i + 1).drop_last() =~= pre);
            lemma_distinct_in_order(pre);
        }
        let mut j: usize = 0;
        while j < r.len() && r[j].0 != x
            invariant
                r@ == before,
                j <= r@.len(),
                forall|t: int| 0 <= t < j ==> r@[t].0 != x,
            decreases r@.len() - j,
        {
            j = j + 1;
        }
        let found = j < r.len();
        if found {
            let c = r[j].1;
            r.set(j, (x, c + 1));
            proof {
                assert(before.map_values(|p: (u32, usize)| p.0)[j as int] == x);
                assert(distinct_in_order(pre).contains(x));
                assert(r@.map_values(|p: (u32, usize)| p.0) =~= before.map_values(|p: (u32, usize)| p.0));
                assert forall|t: int| 0 <= t < r@.len() implies #[trigger] r@[t].1 == occurrences(keys@.take(i + 1), r@[t].0) by {
                    lemma_occurrences_push(pre, x, r@[t].0);
                    if t != j {
                        let ks = before.map_values(|p: (u32, usize)| p.0);
                        assert(ks[t] != ks[j as int]);
                    }
                }
            }
        } else {
            r.push((x, 1));
            proof {
                let ks = before.map_values(|p: (u32, usize)| p.0);
                assert(!ks.contains(x)) by {
                    if ks.contains(x) {
                        let t = choose|t: int| 0 <= t < ks.len() && ks[t] == x;
                        assert(before[t].0 == x);
                    }
                }
                assert(r@.map_values(|p: (u32, usize)| p.0) =~= ks.push(x));
                lemma_occurrences_contains(pre, x);
                assert forall|t: int| 0 <= t < r@.len() implies #[trigger] r@[t].1 == occurrences(keys@.take(i + 1), r@[t].0) by {
                    lemma_occurrences_push(pre, x, r@[t].0);
                    if t < before.len() {
                        assert(ks[t] == r@[t].0);
                        assert(r@[t].0 != x);
                    }
                }
            }
        }
    }
    proof {
        assert(keys@.take(n as int) =~= keys@);
    }
    r
}

/// The total number of occurrences in `keys` of the elements of `ps`.
pub open spec fn sum_occurrences(keys: Seq<u32>, ps: Seq<u32>) -> nat
    decreases ps.len(),
{
    if ps.len() == 0 {
        0
    } else {
        sum_occurrences(keys, ps.drop_last()) + occurrences(keys, ps.last())
    }
}

/// The sum of the squared occurrence counts in `keys` of the elements of `ps`.
pub open spec fn sum_sq_occurrences(keys: Seq<u32>, ps: Seq<u32>) -> nat
    decreases ps.len(),
{
    if ps.len() == 0 {
        0
    } else {
        sum_sq_occurrences(keys, ps.drop_last()) + occurrences(keys, ps.last()) * occurrences(keys, ps.last())
    }
}

/// A duplicate-free sequence holds any element at most once.
pub proof fn lemma_occurrences_at_most_one(ps: Seq<u32>, x: u32)
    requires
        ps.no_duplicates(),
    ensures
        occurrences(ps, x) <= 1,
    decreases ps.len(),
{
    if ps.len() > 0 {
        let rest = ps.drop_last();
        assert(ps =~= rest.push(ps.last()));
        lemma_occurrences_push(rest, ps.last(), x);
        lemma_occurrences_at_most_one(rest, x);
        if ps.last() == x {
            lemma_occurrences_contains(rest, x);
            if rest.contains(x) {
                let i = choose|i: int| 0 <= i < rest.len() && rest[i] == x;
                assert(ps[i] == ps[ps.len() - 1]);
            }
        }
    }
}

/// One more key adds its occurrences among `ps` to the total.
pub proof fn lemma_sum_occurrences_push(keys: Seq<u32>, x: u32, ps: Seq<u32>)
    ensures
        sum_occurrences(keys.push(x), ps) == sum_occurrences(keys, ps) + occurrences(ps, x),
    decreases ps.len(),
{
    if ps.len() == 0 {
        assert(ps.filter(|y: u32| y == x) =~= Seq::<u32>::empty());
    } else {
        let rest = ps.drop_last();
        assert(ps =~= rest.push(ps.last()));
        lemma_sum_occurrences_push(keys, x, rest);
        lemma_occurrences_push(keys, x, ps.last());
        lemma_occurrences_push(rest, ps.last(), x);
    }
}

/// Over distinct elements, the occurrences add up to at most the number of keys.
pub proof fn lemma_sum_occurrences_bound(keys: Seq<u32>, ps: Seq<u32>)
    requires
        ps.no_duplicates(),
    ensures
        sum_occurrences(keys, ps) <= keys.len(),
    decreases keys.len(),
{
    if keys.len() == 0 {
        lemma_sum_occurrences_empty(keys, ps);
    } else {
        let rest = keys.drop_last();
        assert(keys =~= rest.push(keys.last()));
        lemma_sum_occurrences_bound(rest, ps);
        lemma_sum_occurrences_push(rest, keys.last(), ps);
        lemma_occurrences_at_most_one(ps, keys.last());
    }
}

/// Nothing occurs in an empty sequence.
proof fn lemma_sum_occurrences_empty(keys: Seq<u32>, ps: Seq<u32>)
    requires
        keys.len() == 0,
    ensures
        sum_occurrences(keys, ps) == 0,
    decreases ps.len(),
{
    if ps.len() > 0 {
        lemma_sum_occurrences_empty(keys, ps.drop_last());
        assert(keys.filter(|y: u32| y == ps.last()) =~= Seq::<u32>::empty());
    }
}

/// Each squared count is at most `bound` times the count.
pub proof fn lemma_sum_sq_bound(keys: Seq<u32>, ps: Seq<u32>, bound: nat)
    requires
        forall|i: int| 0 <= i < ps.len() ==> occurrences(keys, #[trigger] ps[i]) <= bound,
    ensures
        sum_sq_occurrences(keys, ps) <= bound * sum_occurrences(keys, ps),
    decreases ps.len(),
{
    if ps.len() > 0 {
        let rest = ps.drop_last();
        assert forall|i: int| 0 <= i < rest.len() implies occurrences(keys, #[trigger] rest[i]) <= bound by {
            assert(rest[i] == ps[i]);
        }
        lemma_sum_sq_bound(keys, rest, bound);
        let c = occurrences(keys, ps.last());
        assert(c <= bound) by {
            assert(ps.last() == ps[ps.len() - 1]);
        }
        assert(c * c <= bound * c) by (nonlinear_arith)
            requires
                c <= bound,
        ;
        assert(bound * sum_occurrences(keys, ps) == bound * sum_occurrences(keys, rest) + bound * c) by (nonlinear_arith)
            requires
                sum_occurrences(keys, ps) == sum_occurrences(keys, rest) + c,
        ;
    }
}

/// An element occurs at most as often as the sequence is long.
pub proof fn lemma_occurrences_le_len<K>(s: Seq<K>, k: K)
    ensures
        occurrences(s, k) <= s.len(),
{
    s.lemma_filter_len(|x: K| x == k);
}

/// Filtering keeps a sequence free of duplicates.
pub proof fn lemma_filter_no_duplicates<A>(s: Seq<A>, p: spec_fn(A) -> bool)
    requires
        s.no_duplicates(),
    ensures
        s.filter(p).no_duplicates(),
    decreases s.len(),
{
    if s.len() > 0 {
        let rest = s.drop_last();
        let x = s.last();
        assert(s =~= rest.push(x));
        lemma_filter_no_duplicates(rest, p);
        rest.lemma_filter_push(x, p);
        if p(x) {
            let f = rest.filter(p);
            if f.contains(x) {
                rest.lemma_filter_contains_rev(p, x);
                let i = choose|i: int| 0 <= i < rest.len() && rest[i] == x;
                assert(s[i] == s[s.len() - 1]);
            }
            assert forall|i: int, j: int| 0 <= i < j < f.push(x).len() implies f.push(x)[i] != f.push(x)[j] by {
                if j == f.len() {
                    assert(f.contains(f[i]));
                }
            }
        }
    }
}

} // verus!
