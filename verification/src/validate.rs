//! The validator: the repairs that every aggregate goes through after
//! construction or load, and the two corruptions it refuses to repair.

use vstd::prelude::*;
use vstd::multiset::Multiset;
use vstd::seq_lib::group_to_multiset_ensures;
use vstd::seq_lib::to_multiset_contains;
use vstd::seq_lib::to_multiset_insert;
use vstd::seq_lib::to_multiset_remove;

use crate::model::find_run_idx;
use crate::model::AggregateView;
use crate::SplitsError;
use crate::model::hist_find;
use crate::model::hist_lookup;
use crate::model::lemma_find_run_idx_at;
use crate::model::lemma_find_run_idx_none;
use crate::model::lemma_hist_find_at;
use crate::model::HistoricalSplit;
use crate::model::RunSummary;
use crate::model::Split;
use crate::model::Splits;

verus! {

/// Splits in non-strictly ascending percent order.
pub open spec fn splits_sorted_le(ss: Seq<Split>) -> bool {
    forall|i: int, j: int| 0 <= i < j < ss.len() ==> ss[i].percent <= ss[j].percent
}

/// Runs in non-strictly ascending start-time order.
pub open spec fn runs_sorted_le(rs: Seq<RunSummary>) -> bool {
    forall|i: int, j: int| 0 <= i < j < rs.len() ==> rs[i].start_time <= rs[j].start_time
}

/// Sorts the splits by percent.  A sequence that is already in order comes
/// back unchanged.
fn sort_splits(v: &mut Vec<Split>)
    ensures
        final (v)@.len() == old(v)@.len(),
        final (v)@.to_multiset() == old(v)@.to_multiset(),
        splits_sorted_le(final (v)@),
        splits_sorted_le(old(v)@) ==> final (v)@ == old(v)@,
{
    broadcast use group_to_multiset_ensures;

    let ghost orig = v@;
    let mut out: Vec<Split> = Vec::new();
    proof {
        assert(orig.skip(0) =~= orig);
        assert(out@.to_multiset().add(orig.to_multiset()) =~= orig.to_multiset());
    }
    while v.len() > 0
        invariant
            v@ == orig.skip(orig.len() - v@.len()),
            v@.len() <= orig.len(),
            splits_sorted_le(out@),
            out@.to_multiset().add(v@.to_multiset()) == orig.to_multiset(),
            out@.len() + v@.len() == orig.len(),
            splits_sorted_le(orig) ==> out@ == orig.take(orig.len() - v@.len()),
        decreases v@.len(),
    {
        let ghost t = orig.len() - v@.len();
        let ghost v0 = v@;
        let e = v.remove(0);
        proof {
            assert(orig.skip(t)[0] == orig[t]);
            assert(orig.skip(t).remove(0) =~= orig.skip(t + 1));
            assert(v0[0] == e);
            assert(v0.contains(e));
            to_multiset_contains(v0, e);
            to_multiset_remove(v0, 0);
            assert(v0.to_multiset().count(e) > 0);
            assert(v@.to_multiset() == v0.to_multiset().remove(e));
        }
        let mut p = out.len();
        while p > 0 && out[p - 1].percent > e.percent
            invariant
                p <= out@.len(),
                forall|a: int| p <= a < out@.len() ==> (#[trigger] out@[a]).percent > e.percent,
                splits_sorted_le(out@),
            decreases p,
        {
            p = p - 1;
        }
        let ghost out0 = out@;
        out.insert(p, e);
        proof {
            assert(forall|a: int| 0 <= a < p ==> #[trigger] out0[a].percent <= e.percent) by {
                if p > 0 {
                    assert(forall|a: int|
                        0 <= a < p ==> #[trigger] out0[a].percent <= out0[p - 1].percent);
                }
            }
            assert(forall|a: int| 0 <= a < p ==> out@[a] == out0[a]);
            assert(out@[p as int] == e);
            assert(forall|a: int| p < a < out@.len() ==> out@[a] == out0[a - 1]);
            assert(splits_sorted_le(out@));
            to_multiset_insert(out0, p as int, e);
            assert(out@.to_multiset() == out0.to_multiset().insert(e));
            assert(out@.to_multiset().add(v@.to_multiset()) =~= orig.to_multiset());
            if splits_sorted_le(orig) {
                assert(out0 == orig.take(t));
                if p < out0.len() {
                    assert(out0[out0.len() - 1].percent <= e.percent);
                    assert(false);
                }
                assert(out@ =~= orig.take(t + 1));
            }
        }
    }
    proof {
        assert(v@.to_multiset() =~= Multiset::<Split>::empty());
        assert(out@.to_multiset() =~= out@.to_multiset().add(v@.to_multiset()));
        if splits_sorted_le(orig) {
            assert(out@ == orig.take(orig.len() as int));
            assert(orig.take(orig.len() as int) =~= orig);
        }
    }
    *v = out;
}

/// Sorts the runs by start time.  A sequence that is already in order comes
/// back unchanged.
fn sort_runs(v: &mut Vec<RunSummary>)
    ensures
        final (v)@.len() == old(v)@.len(),
        final (v)@.to_multiset() == old(v)@.to_multiset(),
        runs_sorted_le(final (v)@),
        runs_sorted_le(old(v)@) ==> final (v)@ == old(v)@,
{
    broadcast use group_to_multiset_ensures;

    let ghost orig = v@;
    let mut out: Vec<RunSummary> = Vec::new();
    proof {
        assert(orig.skip(0) =~= orig);
        assert(out@.to_multiset().add(orig.to_multiset()) =~= orig.to_multiset());
    }
    while v.len() > 0
        invariant
            v@ == orig.skip(orig.len() - v@.len()),
            v@.len() <= orig.len(),
            runs_sorted_le(out@),
            out@.to_multiset().add(v@.to_multiset()) == orig.to_multiset(),
            out@.len() + v@.len() == orig.len(),
            runs_sorted_le(orig) ==> out@ == orig.take(orig.len() - v@.len()),
        decreases v@.len(),
    {
        let ghost t = orig.len() - v@.len();
        let ghost v0 = v@;
        let e = v.remove(0);
        proof {
            assert(orig.skip(t)[0] == orig[t]);
            assert(orig.skip(t).remove(0) =~= orig.skip(t + 1));
            assert(v0[0] == e);
            assert(v0.contains(e));
            to_multiset_contains(v0, e);
            to_multiset_remove(v0, 0);
            assert(v0.to_multiset().count(e) > 0);
            assert(v@.to_multiset() == v0.to_multiset().remove(e));
        }
        let mut p = out.len();
        while p > 0 && out[p - 1].start_time > e.start_time
            invariant
                p <= out@.len(),
                forall|a: int| p <= a < out@.len() ==> (#[trigger] out@[a]).start_time > e.start_time,
                runs_sorted_le(out@),
            decreases p,
        {
            p = p - 1;
        }
        let ghost out0 = out@;
        out.insert(p, e);
        proof {
            assert(forall|a: int| 0 <= a < p ==> #[trigger] out0[a].start_time <= e.start_time) by {
                if p > 0 {
                    assert(forall|a: int|
                        0 <= a < p ==> #[trigger] out0[a].start_time <= out0[p - 1].start_time);
                }
            }
            assert(forall|a: int| 0 <= a < p ==> out@[a] == out0[a]);
            assert(out@[p as int] == e);
            assert(forall|a: int| p < a < out@.len() ==> out@[a] == out0[a - 1]);
            assert(runs_sorted_le(out@));
            to_multiset_insert(out0, p as int, e);
            assert(out@.to_multiset() == out0.to_multiset().insert(e));
            assert(out@.to_multiset().add(v@.to_multiset()) =~= orig.to_multiset());
            if runs_sorted_le(orig) {
                assert(out0 == orig.take(t));
                if p < out0.len() {
                    assert(out0[out0.len() - 1].start_time <= e.start_time);
                    assert(false);
                }
                assert(out@ =~= orig.take(t + 1));
            }
        }
    }
    proof {
        assert(v@.to_multiset() =~= Multiset::<RunSummary>::empty());
        assert(out@.to_multiset() =~= out@.to_multiset().add(v@.to_multiset()));
        if runs_sorted_le(orig) {
            assert(out@ == orig.take(orig.len() as int));
            assert(orig.take(orig.len() as int) =~= orig);
        }
    }
    *v = out;
}

/// The largest duration any entry of the given run carries in this history.
pub open spec fn hist_max(h: Seq<HistoricalSplit>, id: u128) -> Option<u64>
    decreases h.len(),
{
    if h.len() == 0 {
        None
    } else {
        let rest = hist_max(h.drop_last(), id);
        if h.last().run_id == id {
            match rest {
                None => Some(h.last().duration),
                Some(m) => if h.last().duration > m {
                    Some(h.last().duration)
                } else {
                    Some(m)
                },
            }
        } else {
            rest
        }
    }
}

/// A history without entries of the given run has no largest duration for it.
proof fn lemma_hist_max_absent(h: Seq<HistoricalSplit>, id: u128)
    requires
        forall|j: int| 0 <= j < h.len() ==> h[j].run_id != id,
    ensures
        hist_max(h, id) is None,
    decreases h.len(),
{
    if h.len() > 0 {
        lemma_hist_max_absent(h.drop_last(), id);
    }
}

/// An entry's id occurs in the history, so a largest duration exists.
proof fn lemma_hist_max_present(h: Seq<HistoricalSplit>, i: int)
    requires
        0 <= i < h.len(),
    ensures
        hist_max(h, h[i].run_id) is Some,
    decreases h.len(),
{
    if i < h.len() - 1 {
        lemma_hist_max_present(h.drop_last(), i);
    }
}

/// In a history of pairwise-distinct ids, the largest duration of each entry
/// is the entry's own.
proof fn lemma_hist_max_distinct(h: Seq<HistoricalSplit>, i: int)
    requires
        0 <= i < h.len(),
        forall|a: int, b: int| 0 <= a < b < h.len() ==> h[a].run_id != h[b].run_id,
    ensures
        hist_max(h, h[i].run_id) == Some(h[i].duration),
    decreases h.len(),
{
    if i == h.len() - 1 {
        assert(forall|j: int| 0 <= j < h.len() - 1 ==> h.drop_last()[j] == h[j]);
        lemma_hist_max_absent(h.drop_last(), h[i].run_id);
    } else {
        assert(forall|j: int| 0 <= j < h.len() - 1 ==> h.drop_last()[j] == h[j]);
        lemma_hist_max_distinct(h.drop_last(), i);
    }
}

/// Repairs one split's history: keeps one entry per run, each with the
/// largest duration that run ever recorded here, ordered by the position of
/// the run among the recorded runs (unknown runs first).  An
/// already-well-formed history comes back unchanged.
fn repair_history(h: &mut Vec<HistoricalSplit>, runs: &Vec<RunSummary>)
    ensures
        crate::model::hist_wf(runs@, final (h)@),
        forall|i: int|
            0 <= i < final (h)@.len() ==> hist_find(old(h)@, (#[trigger] final (h)@[i]).run_id)
                >= 0,
        forall|i: int|
            0 <= i < old(h)@.len() ==> hist_find(final (h)@, (#[trigger] old(h)@[i]).run_id) >= 0,
        forall|i: int|
            0 <= i < final (h)@.len() ==> Some((#[trigger] final (h)@[i]).duration) == hist_max(
                old(h)@,
                final (h)@[i].run_id,
            ),
        crate::model::hist_wf(runs@, old(h)@) ==> final (h)@ == old(h)@,
{
    let ghost orig = h@;
    let ghost rs = runs@;
    let mut out: Vec<HistoricalSplit> = Vec::new();
    proof {
        assert(orig.skip(0) =~= orig);
    }
    while h.len() > 0
        invariant
            h@ == orig.skip(orig.len() - h@.len()),
            h@.len() <= orig.len(),
            rs == runs@,
            crate::model::hist_wf(rs, out@),
            forall|i: int|
                0 <= i < out@.len() ==> hist_find(
                    orig.take(orig.len() - h@.len()),
                    (#[trigger] out@[i]).run_id,
                ) >= 0,
            forall|i: int|
                0 <= i < orig.len() - h@.len() ==> hist_find(out@, (#[trigger] orig[i]).run_id)
                    >= 0,
            forall|i: int|
                0 <= i < out@.len() ==> Some((#[trigger] out@[i]).duration) == hist_max(
                    orig.take(orig.len() - h@.len()),
                    out@[i].run_id,
                ),
            crate::model::hist_wf(rs, orig) ==> out@ == orig.take(orig.len() - h@.len()),
        decreases h@.len(),
    {
        let ghost t = orig.len() - h@.len();
        let ghost h0 = h@;
        let e = h.remove(0);
        proof {
            assert(h0[0] == orig[t]);
            assert(h0.remove(0) =~= orig.skip(t + 1));
            assert(orig.take(t + 1).drop_last() =~= orig.take(t));
            assert(orig.take(t + 1).last() == orig[t]);
            assert(forall|i: int| 0 <= i < t ==> orig.take(t)[i] == #[trigger] orig[i]);
            assert(forall|i: int| 0 <= i < t + 1 ==> orig.take(t + 1)[i] == #[trigger] orig[i]);
        }
        let ghost taken = orig.take(t);
        let ghost taken1 = orig.take(t + 1);
        match crate::engine::hist_index_exec(&out, e.run_id) {
            Some(j) => {
                let ghost out0 = out@;
                proof {
                    crate::model::lemma_hist_find_props(out0, e.run_id);
                    assert(out0[j as int].run_id == e.run_id);
                    if crate::model::hist_wf(rs, orig) {
                        // Distinct input ids leave nothing to merge.
                        assert(taken[j as int].run_id == orig[t].run_id);
                        assert(false);
                    }
                }
                if e.duration > out[j].duration {
                    out[j] = HistoricalSplit { run_id: e.run_id, duration: e.duration };
                }
                proof {
                    assert(forall|i: int|
                        0 <= i < out@.len() && i != j ==> out@[i] == #[trigger] out0[i]);
                    assert(out@[j as int].run_id == e.run_id);
                    assert forall|i: int| 0 <= i < out@.len() implies Some(
                        (#[trigger] out@[i]).duration,
                    ) == hist_max(taken1, out@[i].run_id) by {
                        if i == j {
                            assert(hist_max(taken, e.run_id) == Some(out0[j as int].duration));
                        } else {
                            assert(out0[i].run_id != e.run_id);
                            assert(hist_max(taken1, out0[i].run_id) == hist_max(
                                taken,
                                out0[i].run_id,
                            ));
                        }
                    }
                    assert forall|i: int| 0 <= i < t + 1 implies hist_find(
                        out@,
                        (#[trigger] orig[i]).run_id,
                    ) >= 0 by {
                        crate::model::lemma_hist_find_props(out@, orig[i].run_id);
                        if i < t {
                            crate::model::lemma_hist_find_props(out0, orig[i].run_id);
                            let w = hist_find(out0, orig[i].run_id);
                            assert(out@[w].run_id == orig[i].run_id);
                        } else {
                            assert(out@[j as int].run_id == orig[t].run_id);
                        }
                    }
                    assert forall|i: int| 0 <= i < out@.len() implies hist_find(
                        taken1,
                        (#[trigger] out@[i]).run_id,
                    ) >= 0 by {
                        crate::model::lemma_hist_find_props(taken1, out@[i].run_id);
                        crate::model::lemma_hist_find_props(taken, out0[i].run_id);
                        let w = hist_find(taken, out0[i].run_id);
                        if w >= 0 {
                            assert(taken1[w].run_id == out@[i].run_id);
                        } else {
                            assert(out0[i].run_id == e.run_id);
                            assert(i == j);
                            assert(taken1[t as int].run_id == e.run_id);
                        }
                    }
                    assert(crate::model::hist_wf(rs, out@));
                }
            },
            None => {
                proof {
                    crate::model::lemma_hist_find_props(out@, e.run_id);
                }
                let kb = crate::engine::run_index_exec(runs, e.run_id);
                proof {
                    crate::model::lemma_find_run_idx_ge_neg1(rs, e.run_id);
                }
                let ghost out1 = out@;
                let mut p = out.len();
                loop
                    invariant
                        p <= out@.len(),
                        rs == runs@,
                        out@ == out1,
                        crate::model::hist_wf(rs, out@),
                        0 <= t < orig.len(),
                        taken == orig.take(t),
                        e == orig[t],
                        find_run_idx(rs, e.run_id) >= -1,
                        match kb {
                            Some(y) => y as int == find_run_idx(rs, e.run_id),
                            None => find_run_idx(rs, e.run_id) == -1,
                        },
                        forall|a: int|
                            p <= a < out@.len() ==> find_run_idx(rs, (#[trigger] out@[a]).run_id)
                                > find_run_idx(rs, e.run_id),
                        crate::model::hist_wf(rs, orig) && out@ == taken ==> p == out@.len(),
                    ensures
                        p <= out@.len(),
                        out@ == out1,
                        forall|a: int|
                            p <= a < out@.len() ==> find_run_idx(rs, (#[trigger] out@[a]).run_id)
                                > find_run_idx(rs, e.run_id),
                        forall|a: int|
                            0 <= a < p ==> find_run_idx(rs, (#[trigger] out@[a]).run_id)
                                <= find_run_idx(rs, e.run_id),
                        crate::model::hist_wf(rs, orig) && out@ == taken ==> p == out@.len(),
                    decreases p,
                {
                    if p == 0 {
                        break ;
                    }
                    let ka = crate::engine::run_index_exec(runs, out[p - 1].run_id);
                    proof {
                        crate::model::lemma_find_run_idx_ge_neg1(rs, out@[p - 1].run_id);
                    }
                    let gt: bool = match (ka, kb) {
                        (Some(x), Some(y)) => x > y,
                        (Some(_), None) => true,
                        (None, _) => false,
                    };
                    if !gt {
                        proof {
                            assert forall|a: int| 0 <= a < p implies find_run_idx(
                                rs,
                                (#[trigger] out@[a]).run_id,
                            ) <= find_run_idx(rs, e.run_id) by {
                                if a < p - 1 {
                                    assert(find_run_idx(rs, out@[a].run_id) <= find_run_idx(
                                        rs,
                                        out@[p - 1].run_id,
                                    ));
                                }
                            }
                        }
                        break ;
                    }
                    proof {
                        if crate::model::hist_wf(rs, orig) && out@ == taken {
                            // A well-formed input never needs the scan to move.
                            assert(taken[p - 1].run_id == orig[p - 1].run_id);
                            assert(find_run_idx(rs, orig[p - 1].run_id) <= find_run_idx(
                                rs,
                                orig[t].run_id,
                            ));
                            assert(false);
                        }
                    }
                    p = p - 1;
                }
                let ghost out0 = out@;
                out.insert(p, e);
                proof {
                    assert(forall|a: int| 0 <= a < p ==> out@[a] == #[trigger] out0[a]);
                    assert(out@[p as int] == e);
                    assert(forall|a: int| p < a < out@.len() ==> out@[a] == #[trigger] out0[a - 1]);
                    // The inserted id was absent, so entries stay pairwise distinct.
                    assert forall|a: int, b: int| 0 <= a < b < out@.len() implies out@[a].run_id
                        != out@[b].run_id by {
                        if a != p && b != p {
                            let a0: int = if a < p { a } else { a - 1 };
                            let b0: int = if b < p { b } else { b - 1 };
                            assert(out@[a] == out0[a0] && out@[b] == out0[b0]);
                        }
                    }
                    // Keys stay ordered around the insertion point.
                    assert forall|a: int, b: int| 0 <= a < b < out@.len() implies find_run_idx(
                        rs,
                        out@[a].run_id,
                    ) <= find_run_idx(rs, out@[b].run_id) by {
                        if a != p && b != p {
                            let a0: int = if a < p { a } else { a - 1 };
                            let b0: int = if b < p { b } else { b - 1 };
                            assert(out@[a] == out0[a0] && out@[b] == out0[b0]);
                        }
                    }
                    // The new entry's id is absent from the processed prefix.
                    assert forall|i: int| 0 <= i < taken.len() implies taken[i].run_id
                        != e.run_id by {
                        if orig[i].run_id == e.run_id {
                            crate::model::lemma_hist_find_props(out0, orig[i].run_id);
                        }
                    }
                    lemma_hist_max_absent(taken, e.run_id);
                    assert forall|i: int| 0 <= i < out@.len() implies Some(
                        (#[trigger] out@[i]).duration,
                    ) == hist_max(taken1, out@[i].run_id) by {
                        if i == p {
                            assert(hist_max(taken1, e.run_id) == Some(e.duration));
                        } else {
                            let i0: int = if i < p { i } else { i - 1 };
                            assert(out@[i] == out0[i0]);
                            assert(out0[i0].run_id != e.run_id);
                            assert(hist_max(taken1, out0[i0].run_id) == hist_max(
                                taken,
                                out0[i0].run_id,
                            ));
                        }
                    }
                    assert forall|i: int| 0 <= i < t + 1 implies hist_find(
                        out@,
                        (#[trigger] orig[i]).run_id,
                    ) >= 0 by {
                        crate::model::lemma_hist_find_props(out@, orig[i].run_id);
                        if i < t {
                            crate::model::lemma_hist_find_props(out0, orig[i].run_id);
                            let w = hist_find(out0, orig[i].run_id);
                            let w1: int = if w < p {
                                w
                            } else {
                                w + 1
                            };
                            assert(out@[w1].run_id == orig[i].run_id);
                        } else {
                            assert(out@[p as int].run_id == orig[t].run_id);
                        }
                    }
                    assert forall|i: int| 0 <= i < out@.len() implies hist_find(
                        taken1,
                        (#[trigger] out@[i]).run_id,
                    ) >= 0 by {
                        crate::model::lemma_hist_find_props(taken1, out@[i].run_id);
                        if i != p {
                            let i0: int = if i < p { i } else { i - 1 };
                            crate::model::lemma_hist_find_props(out0, out0[i0].run_id);
                            assert(out@[i] == out0[i0]);
                            crate::model::lemma_hist_find_props(taken, out0[i0].run_id);
                            let w = hist_find(taken, out0[i0].run_id);
                            assert(taken1[w].run_id == out@[i].run_id);
                        } else {
                            assert(taken1[t as int].run_id == e.run_id);
                        }
                    }
                    if crate::model::hist_wf(rs, orig) {
                        assert(out0 == taken);
                        assert(p == out0.len());
                        assert(out@ =~= taken1);
                    }
                }
            },
        }
    }
    proof {
        assert(orig.take(orig.len() as int) =~= orig);
    }
    *h = out;
}


/// Whether two splits share a percent.
pub open spec fn has_dup_percent(ss: Seq<Split>) -> bool {
    exists|i: int, j: int| 0 <= i < j < ss.len() && ss[i].percent == ss[j].percent
}

/// Whether two runs share an id.
pub open spec fn has_dup_run_id(rs: Seq<RunSummary>) -> bool {
    exists|i: int, j: int| 0 <= i < j < rs.len() && rs[i].id == rs[j].id
}

/// Looks for two splits with the same percent.
fn find_dup_percent(v: &Vec<Split>) -> (r: bool)
    ensures
        r == has_dup_percent(v@),
{
    let n = v.len();
    let mut i: usize = 0;
    while i < n
        invariant
            i <= n,
            n == v@.len(),
            forall|a: int, b: int| 0 <= a < b < i ==> v@[a].percent != v@[b].percent,
        decreases n - i,
    {
        let mut j: usize = 0;
        while j < i
            invariant
                j <= i < n,
                n == v@.len(),
                forall|b: int| 0 <= b < j ==> v@[b].percent != v@[i as int].percent,
            decreases i - j,
        {
            if v[j].percent == v[i].percent {
                return true;
            }
            j = j + 1;
        }
        i = i + 1;
    }
    false
}

/// Looks for two runs with the same id.
fn find_dup_run_id(v: &Vec<RunSummary>) -> (r: bool)
    ensures
        r == has_dup_run_id(v@),
{
    let n = v.len();
    let mut i: usize = 0;
    while i < n
        invariant
            i <= n,
            n == v@.len(),
            forall|a: int, b: int| 0 <= a < b < i ==> v@[a].id != v@[b].id,
        decreases n - i,
    {
        let mut j: usize = 0;
        while j < i
            invariant
                j <= i < n,
                n == v@.len(),
                forall|b: int| 0 <= b < j ==> v@[b].id != v@[i as int].id,
            decreases i - j,
        {
            if v[j].id == v[i].id {
                return true;
            }
            j = j + 1;
        }
        i = i + 1;
    }
    false
}

/// The final time the run with the given id recorded, if it is known and
/// finished.
pub open spec fn run_final_time(rs: Seq<RunSummary>, id: u128) -> Option<u64> {
    let i = find_run_idx(rs, id);
    if i >= 0 {
        rs[i].final_time
    } else {
        None
    }
}

/// Two index positions holding the same element put its count at two.
proof fn lemma_count_from_pair<T>(s: Seq<T>, i: int, j: int)
    requires
        0 <= i < j < s.len(),
        s[i] == s[j],
    ensures
        s.to_multiset().count(s[i]) >= 2,
    decreases s.len(),
{
    broadcast use vstd::multiset::group_multiset_axioms;
    broadcast use group_to_multiset_ensures;

    let x = s[i];
    let rest = s.drop_first();
    assert(rest =~= s.remove(0));
    to_multiset_remove(s, 0);
    assert(s.contains(x));
    to_multiset_contains(s, x);
    if i == 0 {
        assert(rest[j - 1] == x);
        assert(rest.contains(x));
        to_multiset_contains(rest, x);
        assert(rest.to_multiset().count(x) >= 1);
        assert(rest.to_multiset() == s.to_multiset().remove(x));
    } else {
        assert(rest[i - 1] == x && rest[j - 1] == x);
        lemma_count_from_pair(rest, i - 1, j - 1);
        assert(rest.to_multiset() == s.to_multiset().remove(s[0]));
    }
}

/// A count of two yields two index positions.
proof fn lemma_pair_from_count<T>(s: Seq<T>, x: T)
    requires
        s.to_multiset().count(x) >= 2,
    ensures
        exists|i: int, j: int| 0 <= i < j < s.len() && s[i] == x && s[j] == x,
    decreases s.len(),
{
    broadcast use vstd::multiset::group_multiset_axioms;
    broadcast use group_to_multiset_ensures;

    to_multiset_contains(s, x);
    assert(s.contains(x));
    assert(s.len() > 0);
    let rest = s.drop_first();
    assert(rest =~= s.remove(0));
    to_multiset_remove(s, 0);
    assert(rest.to_multiset() == s.to_multiset().remove(s[0]));
    if s[0] == x {
        assert(rest.to_multiset().count(x) >= 1);
        to_multiset_contains(rest, x);
        assert(rest.contains(x));
        let w = choose|w: int| 0 <= w < rest.len() && rest[w] == x;
        assert(s[w + 1] == x);
        assert(0 < w + 1 < s.len() && s[0] == x && s[w + 1] == x);
    } else {
        assert(rest.to_multiset().count(x) >= 2);
        lemma_pair_from_count(rest, x);
        let (i, j): (int, int) = choose|i: int, j: int|
            0 <= i < j < rest.len() && rest[i] == x && rest[j] == x;
        assert(s[i + 1] == x && s[j + 1] == x);
        assert(0 <= i + 1 < j + 1 < s.len());
    }
}

/// Whether two splits share a percent is a question about the multiset of
/// splits alone, so any reordering answers it the same way.
proof fn lemma_dup_percent_permuted(s1: Seq<Split>, s2: Seq<Split>)
    requires
        s1.to_multiset() == s2.to_multiset(),
        has_dup_percent(s1),
    ensures
        has_dup_percent(s2),
{
    broadcast use group_to_multiset_ensures;

    let (i, j): (int, int) = choose|i: int, j: int|
        0 <= i < j < s1.len() && s1[i].percent == s1[j].percent;
    let x = s1[i];
    let y = s1[j];
    if x == y {
        lemma_count_from_pair(s1, i, j);
        lemma_pair_from_count(s2, x);
    } else {
        assert(s1.contains(x) && s1.contains(y));
        to_multiset_contains(s1, x);
        to_multiset_contains(s1, y);
        to_multiset_contains(s2, x);
        to_multiset_contains(s2, y);
        let a = choose|a: int| 0 <= a < s2.len() && s2[a] == x;
        let b = choose|b: int| 0 <= b < s2.len() && s2[b] == y;
        assert(a != b);
        if a < b {
            assert(s2[a].percent == s2[b].percent);
        } else {
            assert(s2[b].percent == s2[a].percent);
        }
    }
}

/// Whether two runs share an id is likewise permutation-blind.
proof fn lemma_dup_run_id_permuted(s1: Seq<RunSummary>, s2: Seq<RunSummary>)
    requires
        s1.to_multiset() == s2.to_multiset(),
        has_dup_run_id(s1),
    ensures
        has_dup_run_id(s2),
{
    broadcast use group_to_multiset_ensures;

    let (i, j): (int, int) = choose|i: int, j: int|
        0 <= i < j < s1.len() && s1[i].id == s1[j].id;
    let x = s1[i];
    let y = s1[j];
    if x == y {
        lemma_count_from_pair(s1, i, j);
        lemma_pair_from_count(s2, x);
    } else {
        assert(s1.contains(x) && s1.contains(y));
        to_multiset_contains(s1, x);
        to_multiset_contains(s1, y);
        to_multiset_contains(s2, x);
        to_multiset_contains(s2, y);
        let a = choose|a: int| 0 <= a < s2.len() && s2[a] == x;
        let b = choose|b: int| 0 <= b < s2.len() && s2[b] == y;
        assert(a != b);
        if a < b {
            assert(s2[a].id == s2[b].id);
        } else {
            assert(s2[b].id == s2[a].id);
        }
    }
}

/// Corrects the last split's history against the final time of every
/// finished run: the run's entry is overwritten when present, appended
/// otherwise.  The order of entries is not kept here; the history is
/// re-sorted afterwards.
fn reconcile_final(h: &mut Vec<HistoricalSplit>, runs: &Vec<RunSummary>)
    requires
        forall|a: int, b: int|
            0 <= a < b < old(h)@.len() ==> old(h)@[a].run_id != old(h)@[b].run_id,
        crate::model::run_ids_distinct(runs@),
    ensures
        forall|a: int, b: int|
            0 <= a < b < final (h)@.len() ==> final (h)@[a].run_id != final (h)@[b].run_id,
        forall|i: int|
            0 <= i < runs@.len() ==> match (#[trigger] runs@[i]).final_time {
                Some(t) => hist_lookup(final (h)@, runs@[i].id) == Some(t),
                None => true,
            },
        forall|i: int|
            0 <= i < final (h)@.len() ==> Some((#[trigger] final (h)@[i]).duration) == match
                run_final_time(runs@, final (h)@[i].run_id) {
                Some(t) => Some(t),
                None => hist_lookup(old(h)@, final (h)@[i].run_id),
            },
        forall|i: int|
            0 <= i < final (h)@.len() ==> hist_find(old(h)@, (#[trigger] final (h)@[i]).run_id)
                >= 0 || run_final_time(runs@, final (h)@[i].run_id) is Some,
        forall|i: int|
            0 <= i < old(h)@.len() ==> hist_find(final (h)@, (#[trigger] old(h)@[i]).run_id) >= 0,
        (forall|i: int|
            0 <= i < runs@.len() ==> match (#[trigger] runs@[i]).final_time {
                Some(t) => hist_lookup(old(h)@, runs@[i].id) == Some(t),
                None => true,
            }) ==> final (h)@ == old(h)@,
{
    let ghost h0 = h@;
    let ghost rs = runs@;
    proof {
        assert(rs.take(0) =~= Seq::<RunSummary>::empty());
        assert forall|i: int| 0 <= i < h0.len() implies hist_find(
            h0,
            (#[trigger] h0[i]).run_id,
        ) == i by {
            lemma_hist_find_at(h0, h0[i].run_id, i);
        }
    }
    let n = runs.len();
    let mut ri: usize = 0;
    while ri < n
        invariant
            ri <= n,
            n == rs.len(),
            rs == runs@,
            crate::model::run_ids_distinct(rs),
            forall|a: int, b: int| 0 <= a < b < h0.len() ==> h0[a].run_id != h0[b].run_id,
            forall|a: int, b: int| 0 <= a < b < h@.len() ==> h@[a].run_id != h@[b].run_id,
            forall|i: int|
                0 <= i < ri ==> match (#[trigger] rs[i]).final_time {
                    Some(t) => hist_lookup(h@, rs[i].id) == Some(t),
                    None => true,
                },
            forall|i: int|
                0 <= i < h@.len() ==> Some((#[trigger] h@[i]).duration) == match run_final_time(
                    rs.take(ri as int),
                    h@[i].run_id,
                ) {
                    Some(t) => Some(t),
                    None => hist_lookup(h0, h@[i].run_id),
                },
            forall|i: int|
                0 <= i < h@.len() ==> hist_find(h0, (#[trigger] h@[i]).run_id) >= 0
                    || run_final_time(rs.take(ri as int), h@[i].run_id) is Some,
            forall|i: int|
                0 <= i < h0.len() ==> hist_find(h@, (#[trigger] h0[i]).run_id) >= 0,
            (forall|i: int|
                0 <= i < rs.len() ==> match (#[trigger] rs[i]).final_time {
                    Some(t) => hist_lookup(h0, rs[i].id) == Some(t),
                    None => true,
                }) ==> h@ == h0,
        decreases n - ri,
    {
        let run = runs[ri];
        let ghost hprev = h@;
        proof {
            lemma_find_run_idx_at(rs, run.id, ri as int);
            assert(rs.take(ri as int + 1).drop_last() =~= rs.take(ri as int));
            assert(forall|i: int| 0 <= i < ri + 1 ==> rs.take(ri as int + 1)[i] == #[trigger] rs[i]);
        }
        if let Some(t) = run.final_time {
            match crate::engine::hist_index_exec(h, run.id) {
                Some(j) => {
                    proof {
                        crate::model::lemma_hist_find_props(hprev, run.id);
                    }
                    h[j] = HistoricalSplit { run_id: run.id, duration: t };
                    proof {
                        assert(forall|i: int|
                            0 <= i < h@.len() && i != j ==> h@[i] == #[trigger] hprev[i]);
                        assert(h@[j as int].run_id == run.id);
                        lemma_reconcile_step(h0, hprev, h@, rs, ri as int, j as int, run, t);
                        if (forall|i: int|
                            0 <= i < rs.len() ==> match (#[trigger] rs[i]).final_time {
                                Some(ft) => hist_lookup(h0, rs[i].id) == Some(ft),
                                None => true,
                            }) {
                            assert(hprev == h0);
                            assert(hist_lookup(h0, run.id) == Some(t));
                            assert(hprev[j as int].duration == t);
                            assert(h@ =~= hprev);
                        }
                    }
                },
                None => {
                    proof {
                        crate::model::lemma_hist_find_props(hprev, run.id);
                    }
                    h.push(HistoricalSplit { run_id: run.id, duration: t });
                    proof {
                        assert(forall|i: int|
                            0 <= i < hprev.len() ==> h@[i] == #[trigger] hprev[i]);
                        assert(h@[h@.len() - 1].run_id == run.id);
                        lemma_reconcile_step(
                            h0,
                            hprev,
                            h@,
                            rs,
                            ri as int,
                            hprev.len() as int,
                            run,
                            t,
                        );
                        if (forall|i: int|
                            0 <= i < rs.len() ==> match (#[trigger] rs[i]).final_time {
                                Some(ft) => hist_lookup(h0, rs[i].id) == Some(ft),
                                None => true,
                            }) {
                            assert(hist_lookup(h0, run.id) == Some(t));
                            crate::model::lemma_hist_find_props(h0, run.id);
                            assert(false);
                        }
                    }
                },
            }
        } else {
            proof {
                assert(rs.take(ri as int + 1).last() == rs[ri as int]);
                assert forall|i: int| 0 <= i < h@.len() implies Some(
                    (#[trigger] h@[i]).duration,
                ) == match run_final_time(rs.take(ri as int + 1), h@[i].run_id) {
                    Some(t2) => Some(t2),
                    None => hist_lookup(h0, h@[i].run_id),
                } by {
                    lemma_run_final_extend(rs, ri as int, h@[i].run_id);
                }
                assert forall|i: int| 0 <= i < h@.len() implies hist_find(
                    h0,
                    (#[trigger] h@[i]).run_id,
                ) >= 0 || run_final_time(rs.take(ri as int + 1), h@[i].run_id) is Some by {
                    lemma_run_final_extend(rs, ri as int, h@[i].run_id);
                }
            }
        }
        ri = ri + 1;
    }
    proof {
        assert(rs.take(n as int) =~= rs);
    }
}

/// Extending the processed prefix of runs by one changes `run_final_time`
/// only for that run's id.
proof fn lemma_run_final_extend(rs: Seq<RunSummary>, ri: int, id: u128)
    requires
        0 <= ri < rs.len(),
        crate::model::run_ids_distinct(rs),
    ensures
        id != rs[ri].id ==> run_final_time(rs.take(ri + 1), id) == run_final_time(rs.take(ri), id),
        id == rs[ri].id ==> run_final_time(rs.take(ri + 1), id) == rs[ri].final_time,
        id == rs[ri].id ==> run_final_time(rs.take(ri), id) is None,
{
    let a = rs.take(ri);
    let b = rs.take(ri + 1);
    assert(forall|i: int| 0 <= i < ri ==> a[i] == #[trigger] rs[i]);
    assert(forall|i: int| 0 <= i < ri + 1 ==> b[i] == #[trigger] rs[i]);
    crate::model::lemma_find_run_idx_props(a, id);
    crate::model::lemma_find_run_idx_props(b, id);
    if id == rs[ri].id {
        assert(forall|i: int| 0 <= i < ri ==> a[i].id != id);
        lemma_find_run_idx_none(a, id);
        lemma_find_run_idx_at(b, id, ri);
    } else {
        let wa = find_run_idx(a, id);
        let wb = find_run_idx(b, id);
        if wa >= 0 {
            lemma_find_run_idx_at(b, id, wa);
        } else {
            if wb >= 0 {
                assert(a[wb] == b[wb]);
            }
        }
    }
}

/// One reconcile step keeps every invariant of the pass.
proof fn lemma_reconcile_step(
    h0: Seq<HistoricalSplit>,
    hprev: Seq<HistoricalSplit>,
    hnew: Seq<HistoricalSplit>,
    rs: Seq<RunSummary>,
    ri: int,
    j: int,
    run: RunSummary,
    t: u64,
)
    requires
        0 <= ri < rs.len(),
        rs[ri] == run,
        run.final_time == Some(t),
        crate::model::run_ids_distinct(rs),
        forall|a: int, b: int| 0 <= a < b < hprev.len() ==> hprev[a].run_id != hprev[b].run_id,
        // The step either overwrote entry `j` or appended it at `j`.
        0 <= j < hnew.len(),
        hnew.len() == hprev.len() || hnew.len() == hprev.len() + 1,
        j == hnew.len() - 1 || hnew.len() == hprev.len(),
        j < hprev.len() ==> hprev[j].run_id == run.id,
        j == hprev.len() ==> hist_find(hprev, run.id) < 0,
        forall|i: int| 0 <= i < hnew.len() && i != j ==> hnew[i] == #[trigger] hprev[i],
        hnew[j] == (HistoricalSplit { run_id: run.id, duration: t }),
        // The invariants before the step.
        forall|i: int|
            0 <= i < ri ==> match (#[trigger] rs[i]).final_time {
                Some(ft) => hist_lookup(hprev, rs[i].id) == Some(ft),
                None => true,
            },
        forall|i: int|
            0 <= i < hprev.len() ==> Some((#[trigger] hprev[i]).duration) == match run_final_time(
                rs.take(ri),
                hprev[i].run_id,
            ) {
                Some(ft) => Some(ft),
                None => hist_lookup(h0, hprev[i].run_id),
            },
        forall|i: int|
            0 <= i < hprev.len() ==> hist_find(h0, (#[trigger] hprev[i]).run_id) >= 0
                || run_final_time(rs.take(ri), hprev[i].run_id) is Some,
        forall|i: int| 0 <= i < h0.len() ==> hist_find(hprev, (#[trigger] h0[i]).run_id) >= 0,
    ensures
        forall|a: int, b: int| 0 <= a < b < hnew.len() ==> hnew[a].run_id != hnew[b].run_id,
        forall|i: int|
            0 <= i <= ri ==> match (#[trigger] rs[i]).final_time {
                Some(ft) => hist_lookup(hnew, rs[i].id) == Some(ft),
                None => true,
            },
        forall|i: int|
            0 <= i < hnew.len() ==> Some((#[trigger] hnew[i]).duration) == match run_final_time(
                rs.take(ri + 1),
                hnew[i].run_id,
            ) {
                Some(ft) => Some(ft),
                None => hist_lookup(h0, hnew[i].run_id),
            },
        forall|i: int|
            0 <= i < hnew.len() ==> hist_find(h0, (#[trigger] hnew[i]).run_id) >= 0
                || run_final_time(rs.take(ri + 1), hnew[i].run_id) is Some,
        forall|i: int| 0 <= i < h0.len() ==> hist_find(hnew, (#[trigger] h0[i]).run_id) >= 0,
{
    // Ids are pairwise distinct afterwards.
    assert forall|a: int, b: int| 0 <= a < b < hnew.len() implies hnew[a].run_id
        != hnew[b].run_id by {
        if a != j && b != j {
            assert(hnew[a] == hprev[a] && hnew[b] == hprev[b]);
        } else if j < hprev.len() {
            assert(hprev[j].run_id == run.id);
            if a == j {
                assert(hnew[b] == hprev[b]);
            } else {
                assert(hnew[a] == hprev[a]);
            }
        } else {
            crate::model::lemma_hist_find_props(hprev, run.id);
            assert(b == j);
            assert(hnew[a] == hprev[a]);
        }
    }
    // The processed runs, including this one, are reconciled.
    assert forall|i: int| 0 <= i <= ri implies match (#[trigger] rs[i]).final_time {
        Some(ft) => hist_lookup(hnew, rs[i].id) == Some(ft),
        None => true,
    } by {
        if i == ri {
            assert forall|a: int| 0 <= a < j implies hnew[a].run_id != run.id by {
                if j < hprev.len() {
                    assert(hnew[a] == hprev[a] && hprev[j].run_id == run.id);
                } else {
                    crate::model::lemma_hist_find_props(hprev, run.id);
                }
            }
            lemma_hist_find_at(hnew, run.id, j);
        } else {
            match rs[i].final_time {
                Some(ft) => {
                    let w = hist_find(hprev, rs[i].id);
                    crate::model::lemma_hist_find_props(hprev, rs[i].id);
                    assert(w >= 0);
                    assert(w != j || hprev.len() == hnew.len());
                    assert(rs[i].id != run.id);
                    assert(hnew[w].run_id == rs[i].id && hnew[w].duration == ft) by {
                        if w == j {
                            assert(hprev[j].run_id == run.id);
                            assert(false);
                        }
                    }
                    assert forall|a: int| 0 <= a < w implies hnew[a].run_id != rs[i].id by {
                        if a == j {
                            assert(hnew[j].run_id == run.id);
                        }
                    }
                    lemma_hist_find_at(hnew, rs[i].id, w);
                },
                None => {},
            }
        }
    }
    // Every entry carries the right duration.
    assert forall|i: int| 0 <= i < hnew.len() implies Some((#[trigger] hnew[i]).duration)
        == match run_final_time(rs.take(ri + 1), hnew[i].run_id) {
        Some(ft) => Some(ft),
        None => hist_lookup(h0, hnew[i].run_id),
    } by {
        lemma_run_final_extend(rs, ri, hnew[i].run_id);
        if i == j {
            lemma_find_run_idx_at(rs, run.id, ri);
            assert(forall|a: int| 0 <= a < ri + 1 ==> rs.take(ri + 1)[a] == #[trigger] rs[a]);
            assert(forall|a: int| 0 <= a < ri ==> (#[trigger] rs.take(ri + 1)[a]).id != run.id);
            lemma_find_run_idx_at(rs.take(ri + 1), run.id, ri);
            assert(run_final_time(rs.take(ri + 1), run.id) == Some(t));
        } else {
            assert(hnew[i] == hprev[i]);
            assert(hnew[i].run_id != run.id) by {
                if j < hprev.len() {
                    assert(hprev[j].run_id == run.id);
                } else {
                    crate::model::lemma_hist_find_props(hprev, run.id);
                }
            }
        }
    }
    // Every entry is explained by the old history or by a finished run.
    assert forall|i: int| 0 <= i < hnew.len() implies hist_find(
        h0,
        (#[trigger] hnew[i]).run_id,
    ) >= 0 || run_final_time(rs.take(ri + 1), hnew[i].run_id) is Some by {
        lemma_run_final_extend(rs, ri, hnew[i].run_id);
        if i == j {
            assert(forall|a: int| 0 <= a < ri + 1 ==> rs.take(ri + 1)[a] == #[trigger] rs[a]);
            assert(forall|a: int| 0 <= a < ri ==> (#[trigger] rs.take(ri + 1)[a]).id != run.id);
            lemma_find_run_idx_at(rs.take(ri + 1), run.id, ri);
        } else {
            assert(hnew[i] == hprev[i]);
            assert(hnew[i].run_id != run.id) by {
                if j < hprev.len() {
                    assert(hprev[j].run_id == run.id);
                } else {
                    crate::model::lemma_hist_find_props(hprev, run.id);
                }
            }
        }
    }
    // Nothing the old history knew is lost.
    assert forall|i: int| 0 <= i < h0.len() implies hist_find(
        hnew,
        (#[trigger] h0[i]).run_id,
    ) >= 0 by {
        let w = hist_find(hprev, h0[i].run_id);
        crate::model::lemma_hist_find_props(hprev, h0[i].run_id);
        assert(w >= 0);
        assert(hnew[w].run_id == h0[i].run_id) by {
            if w == j && j < hprev.len() {
                assert(hprev[j].run_id == run.id);
            }
        }
        crate::model::lemma_hist_find_props(hnew, h0[i].run_id);
    }
}

/// Recomputes every split's personal-best time from the personal best's
/// history entry, or clears it when there is no personal best.
fn set_split_times(v: &mut Vec<Split>, pb: &Option<RunSummary>)
    ensures
        final (v)@.len() == old(v)@.len(),
        forall|k: int|
            0 <= k < final (v)@.len() ==> {
                &&& (#[trigger] final (v)@[k]).name == old(v)@[k].name
                &&& final (v)@[k].percent == old(v)@[k].percent
                &&& final (v)@[k].history == old(v)@[k].history
                &&& final (v)@[k].time == match *pb {
                    Some(p) => hist_lookup(old(v)@[k].history@, p.id),
                    None => None::<u64>,
                }
            },
        (forall|k: int|
            0 <= k < old(v)@.len() ==> (#[trigger] old(v)@[k]).time == match *pb {
                Some(p) => hist_lookup(old(v)@[k].history@, p.id),
                None => None::<u64>,
            }) ==> final (v)@ == old(v)@,
{
    let ghost orig = v@;
    let n = v.len();
    let mut k: usize = 0;
    while k < n
        invariant
            k <= n,
            n == v@.len(),
            orig.len() == n,
            forall|a: int| k <= a < n ==> v@[a] == #[trigger] orig[a],
            forall|a: int|
                0 <= a < k ==> {
                    &&& (#[trigger] v@[a]).name == orig[a].name
                    &&& v@[a].percent == orig[a].percent
                    &&& v@[a].history == orig[a].history
                    &&& v@[a].time == match *pb {
                        Some(p) => hist_lookup(orig[a].history@, p.id),
                        None => None::<u64>,
                    }
                },
        decreases n - k,
    {
        let t: Option<u64> = match pb {
            Some(p) => crate::engine::hist_lookup_exec(&v[k].history, p.id),
            None => None,
        };
        let sp = &mut v[k];
        sp.time = t;
        k = k + 1;
    }
    proof {
        if forall|a: int|
            0 <= a < orig.len() ==> (#[trigger] orig[a]).time == match *pb {
                Some(p) => hist_lookup(orig[a].history@, p.id),
                None => None::<u64>,
            } {
            assert forall|a: int| 0 <= a < n implies v@[a] == orig[a] by {
                assert(orig[a].time == match *pb {
                    Some(p) => hist_lookup(orig[a].history@, p.id),
                    None => None::<u64>,
                });
            }
            assert(v@ =~= orig);
        }
    }
}

/// No run that had an entry in the history it came from is missing from the
/// repaired one: the validator reorders and merges, it never discards.
pub open spec fn history_preserved(h0: Seq<HistoricalSplit>, h1: Seq<HistoricalSplit>) -> bool {
    forall|i: int| 0 <= i < h0.len() ==> hist_find(h1, (#[trigger] h0[i]).run_id) >= 0
}

/// Preservation of history entries composes.
proof fn lemma_history_preserved_trans(
    h0: Seq<HistoricalSplit>,
    h1: Seq<HistoricalSplit>,
    h2: Seq<HistoricalSplit>,
)
    requires
        history_preserved(h0, h1),
        history_preserved(h1, h2),
    ensures
        history_preserved(h0, h2),
{
    assert forall|i: int| 0 <= i < h0.len() implies hist_find(
        h2,
        (#[trigger] h0[i]).run_id,
    ) >= 0 by {
        let w = hist_find(h1, h0[i].run_id);
        crate::model::lemma_hist_find_props(h1, h0[i].run_id);
        assert(h1[w].run_id == h0[i].run_id);
    }
}

/// What validation promises about the data it was given, on success: no
/// split and no run is lost or invented, only reordered and repaired, and
/// no split loses a run's history entry.
pub open spec fn preserves_inputs(pre: Splits, post: Splits) -> bool {
    &&& post.splits@.len() == pre.splits@.len()
    &&& forall|k: int|
        0 <= k < post.splits@.len() ==> exists|j: int|
            0 <= j < pre.splits@.len() && (#[trigger] post.splits@[k]).percent
                == pre.splits@[j].percent && post.splits@[k].name@ == pre.splits@[j].name@
                && history_preserved(pre.splits@[j].history@, post.splits@[k].history@)
    &&& match pre.personal_best {
        Some(p) => if find_run_idx(pre.runs@, p.id) >= 0 {
            post.runs@.to_multiset() == pre.runs@.to_multiset()
        } else {
            post.runs@.to_multiset() == pre.runs@.push(p).to_multiset()
        },
        None => post.runs@.to_multiset() == pre.runs@.to_multiset(),
    }
}

impl Splits {
    /// Repairs the aggregate's invariants in a fixed order, refusing only a
    /// duplicated split percent or a duplicated run id.  An aggregate that
    /// already satisfies every invariant comes back unchanged.
    pub(crate) fn validate(&mut self) -> (r: Result<(), SplitsError>)
        ensures
            final (self).path == old(self).path,
            final (self).active_run == old(self).active_run,
            final (self).personal_best == old(self).personal_best,
            match r {
                Ok(()) => {
                    &&& final (self)@.valid()
                    &&& !has_dup_percent(old(self).splits@)
                    &&& !has_dup_run_id(old(self).runs@)
                    &&& preserves_inputs(*old(self), *final (self))
                    &&& old(self)@.valid() ==> final (self)@ == old(self)@
                },
                Err(e) => {
                    &&& (e == SplitsError::DuplicatePercent || e == SplitsError::DuplicateRunId)
                    &&& (e == SplitsError::DuplicatePercent <==> has_dup_percent(
                        old(self).splits@,
                    ))
                    &&& (e == SplitsError::DuplicateRunId ==> !has_dup_percent(old(self).splits@)
                        && has_dup_run_id(old(self).runs@))
                },
            },
    {
        broadcast use group_to_multiset_ensures;

        let ghost pre = *self;
        proof {
            assert(forall|i: int|
                0 <= i < pre.splits@.len() ==> (#[trigger] pre.splits@[i])@ == pre@.splits[i]);
            if pre@.valid() {
                assert(splits_sorted_le(pre.splits@));
            }
        }
        sort_splits(&mut self.splits);
        if find_dup_percent(&self.splits) {
            proof {
                lemma_dup_percent_permuted(self.splits@, pre.splits@);
            }
            return Err(SplitsError::DuplicatePercent);
        }
        proof {
            if has_dup_percent(pre.splits@) {
                lemma_dup_percent_permuted(pre.splits@, self.splits@);
            }
        }
        sort_runs(&mut self.runs);
        if find_dup_run_id(&self.runs) {
            proof {
                lemma_dup_run_id_permuted(self.runs@, pre.runs@);
            }
            return Err(SplitsError::DuplicateRunId);
        }
        proof {
            if has_dup_run_id(pre.runs@) {
                lemma_dup_run_id_permuted(pre.runs@, self.runs@);
            }
        }
        // A personal best whose run is missing from the list is put back,
        // in start order.
        let ghost runs_sorted1 = self.runs@;
        let mut pb_was_missing: bool = false;
        if let Some(pb) = self.personal_best {
            match crate::engine::run_index_exec(&self.runs, pb.id) {
                Some(_) => {},
                None => {
                    pb_was_missing = true;
                    proof {
                        crate::model::lemma_find_run_idx_props(runs_sorted1, pb.id);
                    }
                    self.runs.push(pb);
                    proof {
                        assert(forall|a: int|
                            0 <= a < runs_sorted1.len() ==> self.runs@[a] == #[trigger] runs_sorted1[a]);
                        assert(!has_dup_run_id(self.runs@));
                    }
                    sort_runs(&mut self.runs);
                    proof {
                        if has_dup_run_id(self.runs@) {
                            lemma_dup_run_id_permuted(self.runs@, runs_sorted1.push(pb));
                        }
                    }
                },
            }
        }
        let ghost runs_final = self.runs@;
        proof {
            assert(crate::model::runs_sorted(runs_final));
            assert(crate::model::run_ids_distinct(runs_final));
            // The personal best's run is present afterwards.
            match self.personal_best {
                Some(p) => {
                    if pb_was_missing {
                        to_multiset_contains(runs_sorted1.push(p), p);
                        to_multiset_contains(runs_final, p);
                        assert(runs_sorted1.push(p).contains(p)) by {
                            assert(runs_sorted1.push(p)[runs_sorted1.len() as int] == p);
                        }
                        assert(runs_final.contains(p));
                        let w = choose|w: int| 0 <= w < runs_final.len() && runs_final[w] == p;
                        crate::model::lemma_find_run_idx_props(runs_final, p.id);
                        assert(find_run_idx(runs_final, p.id) >= 0);
                    } else {
                        assert(find_run_idx(runs_final, p.id) >= 0);
                    }
                },
                None => {},
            }
            // The relational account of the runs.
            match pre.personal_best {
                Some(p) => {
                    if find_run_idx(pre.runs@, p.id) >= 0 {
                        if pb_was_missing {
                            crate::model::lemma_find_run_idx_props(pre.runs@, p.id);
                            let w = find_run_idx(pre.runs@, p.id);
                            assert(pre.runs@.contains(pre.runs@[w]));
                            to_multiset_contains(pre.runs@, pre.runs@[w]);
                            to_multiset_contains(runs_sorted1, pre.runs@[w]);
                            assert(runs_sorted1.contains(pre.runs@[w]));
                            let u = choose|u: int|
                                0 <= u < runs_sorted1.len() && runs_sorted1[u] == pre.runs@[w];
                            crate::model::lemma_find_run_idx_props(runs_sorted1, p.id);
                            assert(false);
                        }
                    } else {
                        if !pb_was_missing {
                            let u = find_run_idx(runs_sorted1, p.id);
                            crate::model::lemma_find_run_idx_props(runs_sorted1, p.id);
                            assert(runs_sorted1.contains(runs_sorted1[u]));
                            to_multiset_contains(runs_sorted1, runs_sorted1[u]);
                            to_multiset_contains(pre.runs@, runs_sorted1[u]);
                            assert(pre.runs@.contains(runs_sorted1[u]));
                            let v2 = choose|v2: int|
                                0 <= v2 < pre.runs@.len() && pre.runs@[v2] == runs_sorted1[u];
                            crate::model::lemma_find_run_idx_props(pre.runs@, p.id);
                            assert(false);
                        }
                    }
                },
                None => {},
            }
            // Nothing was backfilled into an already-valid aggregate.
            if pre@.valid() {
                assert(runs_final == pre.runs@);
            }
        }
        // Every split's history is repaired against the final run order.
        let ghost splits_in = self.splits@;
        let n = self.splits.len();
        let mut k: usize = 0;
        while k < n
            invariant
                k <= n,
                n == self.splits@.len(),
                splits_in.len() == n,
                self.path == pre.path,
                self.active_run == pre.active_run,
                self.personal_best == pre.personal_best,
                self.runs@ == runs_final,
                forall|a: int| k <= a < n ==> self.splits@[a] == #[trigger] splits_in[a],
                forall|a: int|
                    0 <= a < k ==> {
                        &&& (#[trigger] self.splits@[a]).name == splits_in[a].name
                        &&& self.splits@[a].percent == splits_in[a].percent
                        &&& self.splits@[a].time == splits_in[a].time
                        &&& crate::model::hist_wf(runs_final, self.splits@[a].history@)
                        &&& forall|i: int|
                            0 <= i < self.splits@[a].history@.len() ==> hist_find(
                                splits_in[a].history@,
                                (#[trigger] self.splits@[a].history@[i]).run_id,
                            ) >= 0
                        &&& forall|i: int|
                            0 <= i < splits_in[a].history@.len() ==> hist_find(
                                self.splits@[a].history@,
                                (#[trigger] splits_in[a].history@[i]).run_id,
                            ) >= 0
                        &&& forall|i: int|
                            0 <= i < self.splits@[a].history@.len() ==> Some(
                                (#[trigger] self.splits@[a].history@[i]).duration,
                            ) == hist_max(splits_in[a].history@, self.splits@[a].history@[i].run_id)
                        &&& (crate::model::hist_wf(runs_final, splits_in[a].history@)
                            ==> self.splits@[a].history@ == splits_in[a].history@)
                    },
            decreases n - k,
        {
            repair_history(&mut self.splits[k].history, &self.runs);
            k = k + 1;
        }
        let ghost splits_rep = self.splits@;
        // The last split's history must agree with every finished run, and
        // is re-sorted afterwards.
        let ghost pre_last_valid = pre@.valid();
        if self.splits.len() > 0 {
            let last = self.splits.len() - 1;
            proof {
                if pre_last_valid {
                    lemma_reconcile_ready(pre, splits_in, splits_rep, runs_final, last as int);
                }
            }
            reconcile_final(&mut self.splits[last].history, &self.runs);
            let ghost hist_mid = self.splits@[last as int].history@;
            repair_history(&mut self.splits[last].history, &self.runs);
            proof {
                let hist_fin = self.splits@[last as int].history@;
                // Reconciliation kept every old entry's run, and so did the
                // re-sort.
                assert(history_preserved(splits_rep[last as int].history@, hist_mid));
                assert(history_preserved(hist_mid, hist_fin));
                lemma_history_preserved_trans(
                    splits_rep[last as int].history@,
                    hist_mid,
                    hist_fin,
                );
                // The re-sort keeps every reconciled final time.
                assert forall|i: int|
                    0 <= i < runs_final.len() implies match (#[trigger] runs_final[i]).final_time {
                    Some(t) => hist_lookup(hist_fin, runs_final[i].id) == Some(t),
                    None => true,
                } by {
                    match runs_final[i].final_time {
                        Some(t) => {
                            lemma_lookup_after_sort(hist_mid, hist_fin, runs_final[i].id, t);
                        },
                        None => {},
                    }
                }
            }
        }
        let ghost splits_rec = self.splits@;
        // Every split's personal-best time is retaken from the personal best.
        set_split_times(&mut self.splits, &self.personal_best);
        proof {
            let fin = self.splits@;
            let vfin = self@;
            assert(forall|i: int| 0 <= i < fin.len() ==> (#[trigger] fin[i])@ == vfin.splits[i]);
            // The percents, pointwise unchanged since the sort, stay
            // strictly ascending.
            assert forall|i: int, j: int|
                0 <= i < j < vfin.splits.len() implies vfin.splits[i].percent
                < vfin.splits[j].percent by {
                assert(fin[i].percent == splits_in[i].percent);
                assert(fin[j].percent == splits_in[j].percent);
                assert(splits_in[i].percent <= splits_in[j].percent);
                if splits_in[i].percent == splits_in[j].percent {
                    assert(has_dup_percent(splits_in));
                }
            }
            // Histories are well-formed throughout.
            assert forall|a: int| 0 <= a < vfin.splits.len() implies crate::model::hist_wf(
                runs_final,
                (#[trigger] vfin.splits[a]).history,
            ) by {
                assert(vfin.splits[a].history == splits_rec[a].history@);
            }
            // The last split agrees with every finished run.
            assert(crate::model::final_split_reconciled(runs_final, vfin.splits)) by {
                if vfin.splits.len() > 0 {
                    let lastk = vfin.splits.len() - 1;
                    assert(vfin.splits.last().history == splits_rec[lastk as int].history@);
                }
            }
            // Each split's time is the personal best's entry.
            assert(crate::model::times_match_pb(vfin.personal_best, vfin.splits)) by {
                assert forall|a: int| 0 <= a < vfin.splits.len() implies (#[trigger] vfin.splits[a]).time
                    == match vfin.personal_best {
                    Some(p) => hist_lookup(vfin.splits[a].history, p.id),
                    None => None::<u64>,
                } by {
                    assert(fin[a].history@ == splits_rec[a].history@);
                }
            }
            assert(vfin.valid());
            // The relational account of the splits: each output split is an
            // input split, repaired without losing any run's entry.
            assert forall|a: int| 0 <= a < fin.len() implies exists|j: int|
                0 <= j < pre.splits@.len() && (#[trigger] fin[a]).percent == pre.splits@[j].percent
                    && fin[a].name@ == pre.splits@[j].name@ && history_preserved(
                    pre.splits@[j].history@,
                    fin[a].history@,
                ) by {
                assert(fin[a].percent == splits_in[a].percent && fin[a].name == splits_in[a].name);
                assert(splits_in.contains(splits_in[a]));
                to_multiset_contains(splits_in, splits_in[a]);
                to_multiset_contains(pre.splits@, splits_in[a]);
                assert(pre.splits@.contains(splits_in[a]));
                let j = choose|j: int| 0 <= j < pre.splits@.len() && pre.splits@[j] == splits_in[a];
                assert(history_preserved(splits_in[a].history@, splits_rep[a].history@));
                assert(fin[a].history == splits_rec[a].history);
                if a == n - 1 && n > 0 {
                    lemma_history_preserved_trans(
                        splits_in[a].history@,
                        splits_rep[a].history@,
                        splits_rec[a].history@,
                    );
                } else {
                    assert(splits_rec[a].history@ == splits_rep[a].history@);
                }
                assert(history_preserved(pre.splits@[j].history@, fin[a].history@));
            }
            // An already-valid aggregate comes back unchanged.
            if pre@.valid() {
                assert(splits_in == pre.splits@);
                assert forall|a: int| 0 <= a < n implies (#[trigger] splits_rec[a]).name
                    == pre.splits@[a].name && splits_rec[a].percent == pre.splits@[a].percent
                    && splits_rec[a].time == pre.splits@[a].time && splits_rec[a].history@
                    == pre.splits@[a].history@ by {
                    assert(crate::model::hist_wf(runs_final, splits_in[a].history@)) by {
                        assert(pre@.splits[a].history == pre.splits@[a].history@);
                    }
                }
                assert forall|a: int| 0 <= a < n implies (#[trigger] fin[a])@ == pre@.splits[a] by {
                    assert(fin[a].time == match vfin.personal_best {
                        Some(p) => hist_lookup(splits_rec[a].history@, p.id),
                        None => None::<u64>,
                    });
                    assert(pre@.splits[a].time == match pre@.personal_best {
                        Some(p) => hist_lookup(pre@.splits[a].history, p.id),
                        None => None::<u64>,
                    });
                }
                assert(vfin.splits =~= pre@.splits);
                assert(vfin =~= pre@);
            }
        }
        Ok(())
    }
}

impl Splits {
    /// Builds an aggregate around a configured split set, with no runs and
    /// no personal best, and validates it.  Only a duplicated split percent
    /// is refused.
    pub fn create(path: String, splits: Vec<Split>) -> (r: Result<Splits, SplitsError>)
        ensures
            match r {
                Ok(s) => {
                    &&& s@.valid()
                    &&& s.path == Some(path)
                    &&& s@.active_run is None
                    &&& s@.personal_best is None
                    &&& s@.runs == Seq::<RunSummary>::empty()
                    &&& !has_dup_percent(splits@)
                    &&& s@.splits.len() == splits@.len()
                    &&& forall|k: int|
                        0 <= k < s@.splits.len() ==> exists|j: int|
                            0 <= j < splits@.len() && (#[trigger] s@.splits[k]).percent
                                == splits@[j].percent && s@.splits[k].name == splits@[j].name@
                    &&& (AggregateView {
                        active_run: None,
                        personal_best: None,
                        runs: Seq::empty(),
                        splits: splits@.map_values(|x: Split| x@),
                    }).valid() ==> s@.splits == splits@.map_values(|x: Split| x@)
                },
                Err(e) => e == SplitsError::DuplicatePercent && has_dup_percent(splits@),
            },
            r is Err <==> has_dup_percent(splits@),
    {
        let ghost sview = splits@.map_values(|x: Split| x@);
        let r = Splits::create_with_history(path, None, Vec::new(), splits);
        proof {
            broadcast use group_to_multiset_ensures;

            match &r {
                Ok(s) => {
                    assert(s@.runs.to_multiset().len() == 0);
                    assert(s@.runs =~= Seq::<RunSummary>::empty());
                    assert((AggregateView {
                        active_run: None,
                        personal_best: None,
                        runs: Seq::empty(),
                        splits: sview,
                    }) =~= (AggregateView {
                        active_run: None,
                        personal_best: None,
                        runs: Seq::<RunSummary>::empty(),
                        splits: sview,
                    }));
                },
                Err(_) => {},
            }
        }
        r
    }

    /// Builds an aggregate from loaded data — splits, recorded runs, and an
    /// optional personal best — and validates it.  Only a duplicated split
    /// percent or a duplicated run id is refused; everything else is
    /// repaired in place.
    pub fn create_with_history(
        path: String,
        personal_best: Option<RunSummary>,
        runs: Vec<RunSummary>,
        splits: Vec<Split>,
    ) -> (r: Result<Splits, SplitsError>)
        ensures
            match r {
                Ok(s) => {
                    &&& s@.valid()
                    &&& s.path == Some(path)
                    &&& s@.active_run is None
                    &&& s@.personal_best == personal_best
                    &&& !has_dup_percent(splits@)
                    &&& !has_dup_run_id(runs@)
                    &&& s@.splits.len() == splits@.len()
                    &&& forall|k: int|
                        0 <= k < s@.splits.len() ==> exists|j: int|
                            0 <= j < splits@.len() && (#[trigger] s@.splits[k]).percent
                                == splits@[j].percent && s@.splits[k].name == splits@[j].name@
                                && history_preserved(splits@[j].history@, s@.splits[k].history)
                    &&& match personal_best {
                        Some(p) => if find_run_idx(runs@, p.id) >= 0 {
                            s@.runs.to_multiset() == runs@.to_multiset()
                        } else {
                            s@.runs.to_multiset() == runs@.push(p).to_multiset()
                        },
                        None => s@.runs.to_multiset() == runs@.to_multiset(),
                    }
                    &&& (AggregateView {
                        active_run: None,
                        personal_best,
                        runs: runs@,
                        splits: splits@.map_values(|x: Split| x@),
                    }).valid() ==> s@.runs == runs@ && s@.splits == splits@.map_values(
                        |x: Split| x@,
                    )
                },
                Err(e) => {
                    &&& (e == SplitsError::DuplicatePercent || e == SplitsError::DuplicateRunId)
                    &&& (e == SplitsError::DuplicatePercent <==> has_dup_percent(splits@))
                    &&& (e == SplitsError::DuplicateRunId ==> !has_dup_percent(splits@)
                        && has_dup_run_id(runs@))
                },
            },
            r is Err <==> has_dup_percent(splits@) || has_dup_run_id(runs@),
    {
        let mut s = Splits { path: Some(path), active_run: None, personal_best, runs, splits };
        let ghost assembled = s;
        match s.validate() {
            Ok(()) => {
                proof {
                    if (AggregateView {
                        active_run: None,
                        personal_best,
                        runs: assembled.runs@,
                        splits: assembled.splits@.map_values(|x: Split| x@),
                    }).valid() {
                        assert(assembled@ =~= AggregateView {
                            active_run: None,
                            personal_best,
                            runs: assembled.runs@,
                            splits: assembled.splits@.map_values(|x: Split| x@),
                        });
                    }
                }
                Ok(s)
            },
            Err(e) => Err(e),
        }
    }
}

/// In an already-valid aggregate, nothing that reaches the reconciliation
/// step still needs repair: the last split's repaired history already
/// records every finished run's final time.
proof fn lemma_reconcile_ready(
    pre: Splits,
    splits_in: Seq<Split>,
    splits_rep: Seq<Split>,
    runs_final: Seq<RunSummary>,
    last: int,
)
    requires
        pre@.valid(),
        splits_in == pre.splits@,
        runs_final == pre.runs@,
        splits_rep.len() == splits_in.len(),
        last == splits_in.len() - 1,
        last >= 0,
        splits_rep[last].history@ == splits_in[last].history@,
    ensures
        forall|i: int|
            0 <= i < runs_final.len() ==> match (#[trigger] runs_final[i]).final_time {
                Some(t) => hist_lookup(splits_rep[last].history@, runs_final[i].id) == Some(t),
                None => true,
            },
{
    assert(forall|i: int|
        0 <= i < pre.splits@.len() ==> (#[trigger] pre.splits@[i])@ == pre@.splits[i]);
    assert(pre@.splits.last() == pre@.splits[last]);
    assert(pre@.splits[last].history == splits_in[last].history@);
}

/// Re-sorting a history of pairwise-distinct ids keeps each id's recorded
/// duration.
proof fn lemma_lookup_after_sort(
    h1: Seq<HistoricalSplit>,
    h2: Seq<HistoricalSplit>,
    id: u128,
    t: u64,
)
    requires
        hist_lookup(h1, id) == Some(t),
        forall|a: int, b: int| 0 <= a < b < h1.len() ==> h1[a].run_id != h1[b].run_id,
        forall|i: int| 0 <= i < h1.len() ==> hist_find(h2, (#[trigger] h1[i]).run_id) >= 0,
        forall|i: int|
            0 <= i < h2.len() ==> Some((#[trigger] h2[i]).duration) == hist_max(h1, h2[i].run_id),
    ensures
        hist_lookup(h2, id) == Some(t),
{
    let w1 = hist_find(h1, id);
    crate::model::lemma_hist_find_props(h1, id);
    assert(w1 >= 0 && h1[w1].run_id == id && h1[w1].duration == t);
    let w2 = hist_find(h2, id);
    crate::model::lemma_hist_find_props(h2, id);
    assert(w2 >= 0);
    assert(h2[w2].run_id == id);
    lemma_hist_max_distinct(h1, w1);
    assert(Some(h2[w2].duration) == hist_max(h1, id));
    assert(h2[w2].duration == t);
}


} // verus!
