use crate::event_bus::{EventBus, Sub, Topic};
use crate::rules::{findings_view, severity_name, severity_to_string, Finding, FindingView};
use crate::runtime::{hold, release_all, released_all, Subscription};
use crate::text::{decimal, push_decimal, string_of};
use vstd::prelude::*;
use vstd::string::StrSliceExecFns;
use vstd::string::StringExecFns;

verus! {

broadcast use {vstd::string::group_string_axioms, vstd::seq_lib::group_seq_properties, vstd::seq::group_seq_axioms};

/// Subscribe the findings panel to rule findings; the subscription is kept in `held`.
pub fn register(bus: &mut EventBus, held: &mut Vec<Subscription>)
    requires
        old(bus).wf(),
        old(bus).next_id < usize::MAX,
    ensures
        final(bus).wf(),
        final(bus).next_id == old(bus).next_id + 1,
        final(bus).subs@ == old(bus).subs@.push(Sub { id: old(bus).next_id, topic: Topic::Finding }),
        final(held)@ == old(held)@.push(Subscription { id: old(bus).next_id, topic: Topic::Finding }),
{
    hold(bus, held, Topic::Finding);
}

/// Unsubscribe every held findings subscription.
pub fn unregister(bus: &mut EventBus, held: &mut Vec<Subscription>)
    requires
        old(bus).wf(),
    ensures
        final(bus).wf(),
        final(bus).subs@ == released_all(old(bus).subs@, old(held)@, Topic::Finding),
        final(held)@.len() == 0,
{
    release_all(bus, held, Topic::Finding);
}

/// The most recent findings, oldest first, at most 200 of them.
pub struct FindingHistory {
    pub items: Vec<Finding>,
}

/// The history after `f` arrives: the oldest entry goes when 200 are held.
pub open spec fn history_after(h: Seq<FindingView>, f: FindingView) -> Seq<FindingView> {
    if h.len() == 200 {
        h.drop_first().push(f)
    } else {
        h.push(f)
    }
}

impl FindingHistory {
    pub open spec fn wf(&self) -> bool {
        self.items@.len() <= 200
    }

    pub fn new() -> (h: Self)
        ensures
            h.wf(),
            h.items@.len() == 0,
    {
        FindingHistory { items: Vec::new() }
    }

    /// Keep a copy of `f` (see `history_after`).
    pub fn on_finding(&mut self, f: &Finding)
        requires
            old(self).wf(),
        ensures
            final(self).wf(),
            findings_view(final(self).items@) == history_after(findings_view(old(self).items@), f@),
    {
        let ghost h0 = findings_view(self.items@);
        if self.items.len() == 200 {
            self.items.remove(0);
            proof {
                assert(findings_view(self.items@) =~= h0.drop_first());
            }
        }
        let ghost h1 = findings_view(self.items@);
        self.items.push(f.clone());
        proof {
            assert(findings_view(self.items@) =~= h1.push(f@));
        }
    }
}

/// Law: the history never holds more than 200 findings, and the newest one is last.
pub proof fn law_history_bounded(h: Seq<FindingView>, f: FindingView)
    requires
        h.len() <= 200,
    ensures
        history_after(h, f).len() <= 200,
        history_after(h, f).last() == f,
        history_after(h, f).drop_last() == (if h.len() == 200 { h.drop_first() } else { h }),
{
    assert(history_after(h, f).drop_last() =~= (if h.len() == 200 { h.drop_first() } else { h }));
}

/// The history after the findings `fs` arrive in order, starting from `h`.
pub open spec fn history_run(h: Seq<FindingView>, fs: Seq<FindingView>) -> Seq<FindingView>
    decreases fs.len(),
{
    if fs.len() == 0 {
        h
    } else {
        history_after(history_run(h, fs.drop_last()), fs.last())
    }
}

/// The last `n` entries of `s` (all of them when there are fewer).
pub open spec fn last_n<A>(s: Seq<A>, n: nat) -> Seq<A> {
    if s.len() > n {
        s.skip(s.len() - n)
    } else {
        s
    }
}

/// Law: over any sequence of findings, the history holds the last 200 of everything it has
/// seen, in arrival order, the oldest going first.
pub proof fn law_history_keeps_last(h: Seq<FindingView>, fs: Seq<FindingView>)
    requires
        h.len() <= 200,
    ensures
        history_run(h, fs) == last_n(h + fs, 200),
    decreases fs.len(),
{
    if fs.len() > 0 {
        law_history_keeps_last(h, fs.drop_last());
        let prev = h + fs.drop_last();
        let all = h + fs;
        assert(all.drop_last() =~= prev);
        assert(all =~= prev.push(fs.last()));
        let lp = last_n(prev, 200);
        if prev.len() >= 200 {
            assert(lp.len() == 200);
            assert(lp.drop_first().push(fs.last()) =~= all.skip(all.len() - 200));
        } else {
            assert(lp == prev);
        }
    } else {
        assert(h + fs =~= h);
    }
}

/// The panel text of a finding: title, risk and severity, and the description on a second
/// line when there is one.
pub open spec fn finding_text(f: FindingView) -> Seq<char> {
    f.title + " [risk="@ + decimal(f.risk as nat) + " severity="@ + severity_name(f.severity) + "]"@ + if f.description.len() > 0 {
        "\n"@ + f.description
    } else {
        Seq::empty()
    }
}

/// The panel text of a finding (see `finding_text`).
pub fn finding_line(f: &Finding) -> (s: String)
    ensures
        s@ == finding_text(f@),
{
    let mut s = f.title.clone();
    s.append(" [risk=");
    push_decimal(&mut s, f.risk as u128);
    s.append(" severity=");
    let sev = severity_to_string(&f.severity);
    s.append(sev.as_str());
    s.append("]");
    if f.description.as_str().unicode_len() > 0 {
        s.append("\n");
        s.append(f.description.as_str());
    }
    proof {
        assert(s@ =~= finding_text(f@));
    }
    s
}

/// The texts of the 20 most recent findings, newest first.
pub fn recent_list_texts(h: &FindingHistory) -> (r: Vec<String>)
    ensures
        r@.map_values(|s: String| s@) == findings_view(h.items@).reverse().take(
            if h.items@.len() < 20 { h.items@.len() as int } else { 20 },
        ).map_values(|f: FindingView| finding_text(f)),
{
    let ghost rv = findings_view(h.items@).reverse();
    let n = h.items.len();
    let k: usize = if n < 20 { n } else { 20 };
    let mut out: Vec<String> = Vec::new();
    for t in 0..k
        invariant
            n == h.items@.len(),
            k <= n,
            rv == findings_view(h.items@).reverse(),
            out@.map_values(|s: String| s@) == rv.take(t as int).map_values(|f: FindingView| finding_text(f)),
    {
        let line = finding_line(&h.items[n - 1 - t]);
        let ghost before = out@;
        out.push(line);
        proof {
            assert(rv[t as int] == h.items@[n - 1 - t]@);
            assert(rv.take(t + 1) =~= rv.take(t as int).push(rv[t as int]));
            assert(out@.map_values(|s: String| s@) =~= before.map_values(|s: String| s@).push(line@));
            assert(rv.take(t + 1).map_values(|f: FindingView| finding_text(f)) =~= rv.take(t as int).map_values(
                |f: FindingView| finding_text(f),
            ).push(finding_text(rv[t as int])));
        }
    }
    out
}

/// Where a listing of the last `n` of `len` findings starts.
pub fn show_recent_start(len: usize, n: usize) -> (s: usize)
    ensures
        s == (if len > n { len - n } else { 0 }),
{
    if len > n {
        len - n
    } else {
        0
    }
}

/// The listing line of a finding: title, risk and severity, then the description on an
/// indented second line.
pub open spec fn recent_entry(f: FindingView) -> Seq<char> {
    " - "@ + f.title + " | risk="@ + decimal(f.risk as nat) + " severity="@ + severity_name(f.severity) + "\n   "@
        + f.description
}

/// The listing of the last `n` findings of the history, most recent last, under a heading.
pub fn show_recent_lines(h: &FindingHistory, n: usize) -> (r: Vec<String>)
    ensures
        r@.map_values(|x: String| x@) == seq!["Recent Findings (most recent last):"@] + findings_view(h.items@).skip(
            if h.items@.len() > n { h.items@.len() - n } else { 0 },
        ).map_values(|f: FindingView| recent_entry(f)),
{
    let ghost fv = findings_view(h.items@);
    let start = show_recent_start(h.items.len(), n);
    let mut out: Vec<String> = Vec::new();
    out.push(string_of("Recent Findings (most recent last):"));
    let ghost f = |x: FindingView| recent_entry(x);
    proof {
        assert(out@.map_values(|x: String| x@) =~= seq!["Recent Findings (most recent last):"@] + fv.subrange(
            start as int,
            start as int,
        ).map_values(f));
    }
    for i in start..h.items.len()
        invariant
            start <= h.items@.len(),
            fv == findings_view(h.items@),
            f == (|x: FindingView| recent_entry(x)),
            out@.map_values(|x: String| x@) == seq!["Recent Findings (most recent last):"@] + fv.subrange(
                start as int,
                i as int,
            ).map_values(f),
    {
        let it = &h.items[i];
        let mut s = string_of(" - ");
        s.append(it.title.as_str());
        s.append(" | risk=");
        push_decimal(&mut s, it.risk as u128);
        s.append(" severity=");
        let sev = severity_to_string(&it.severity);
        s.append(sev.as_str());
        s.append("\n   ");
        s.append(it.description.as_str());
        let ghost before = out@.map_values(|x: String| x@);
        out.push(s);
        proof {
            assert(fv[i as int] == h.items@[i as int]@);
            assert(fv.subrange(start as int, i + 1) =~= fv.subrange(start as int, i as int).push(fv[i as int]));
            assert(out@.map_values(|x: String| x@) =~= before.push(s@));
            assert(out@.map_values(|x: String| x@) =~= seq!["Recent Findings (most recent last):"@] + fv.subrange(
                start as int,
                i + 1,
            ).map_values(f));
        }
    }
    proof {
        assert(fv.subrange(start as int, h.items@.len() as int) =~= fv.skip(start as int));
    }
    out
}

} // verus!
