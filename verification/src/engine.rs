//! The run-lifecycle engine: how one progress sample moves the aggregate
//! from one state to the next.
//!
//! The whole transition is a mathematical function, `spec_update`, of the
//! previous state, the sample, the clock reading, and the identifier drawn
//! for a run that may start.  The executable update is proved equal to it.

use vstd::prelude::*;

use crate::in_game_time::InGameTime;
use crate::model::find_run_idx;
use crate::model::find_split_idx;
use crate::model::hist_find;
use crate::model::hist_lookup;
use crate::model::is_final_percent;
use crate::model::lemma_find_run_idx_at;
use crate::model::lemma_find_run_idx_none;
use crate::model::lemma_find_split_idx_at;
use crate::model::lemma_find_split_idx_none;
use crate::model::lemma_hist_find_at;
use crate::model::lemma_hist_find_none;
use crate::model::ActiveRun;
use crate::model::AggregateView;
use crate::model::HistoricalSplit;
use crate::model::RunSummary;
use crate::model::Split;
use crate::model::SplitView;
use crate::model::Splits;

verus! {

// ---------------------------------------------------------------------------
// The transition, as a function.
// ---------------------------------------------------------------------------
/// Whether the sample moves the aggregate at all: its percent must belong to
/// a configured split, and the active run, if finished, only yields to a
/// sample of a strictly lower percent (a reset).
pub open spec fn spec_accepts(v: AggregateView, cur: InGameTime) -> bool {
    &&& find_split_idx(v.splits, cur.percent) >= 0
    &&& match v.active_run {
        Some(a) => !(cur.percent >= a.latest_split.percent && a.end_time is Some),
        None => true,
    }
}

/// The id the sample is attributed to: the active run's when it continues,
/// else the freshly drawn one.
pub open spec fn spec_run_id(v: AggregateView, cur: InGameTime, nid: u128) -> u128 {
    match v.active_run {
        Some(a) => if cur.percent < a.latest_split.percent {
            nid
        } else {
            a.id
        },
        None => nid,
    }
}

/// A history with the sample recorded: the run's entry overwritten when one
/// exists, a fresh entry appended otherwise.
pub open spec fn hist_record(h: Seq<HistoricalSplit>, rid: u128, dur: u64) -> Seq<HistoricalSplit> {
    let i = hist_find(h, rid);
    if i >= 0 {
        h.update(i, HistoricalSplit { run_id: rid, duration: dur })
    } else {
        h.push(HistoricalSplit { run_id: rid, duration: dur })
    }
}

/// The aggregate with the sample recorded in the history of split `k`.
pub open spec fn spec_record(v: AggregateView, k: int, rid: u128, dur: u64) -> AggregateView {
    let s = v.splits[k];
    AggregateView {
        active_run: v.active_run,
        personal_best: v.personal_best,
        runs: v.runs,
        splits: v.splits.update(
            k,
            SplitView {
                name: s.name,
                percent: s.percent,
                time: s.time,
                history: hist_record(s.history, rid, dur),
            },
        ),
    }
}

/// Whether a finished run with this final time becomes the new personal
/// best: a missing personal best, or one without a final time, always loses;
/// a tie never wins.
pub open spec fn spec_is_pb(pb: Option<RunSummary>, dur: u64) -> bool {
    match pb {
        None => true,
        Some(p) => match p.final_time {
            None => true,
            Some(t) => dur < t,
        },
    }
}

/// The aggregate with the run finished: the active run and its summary get
/// their end times, and on a personal best every split's time is retaken
/// from this run's history.
pub open spec fn spec_finalize(v: AggregateView, rid: u128, dur: u64, now: i64) -> AggregateView {
    let active = match v.active_run {
        Some(a) => Some(
            ActiveRun {
                id: a.id,
                start_time: a.start_time,
                end_time: Some(now),
                latest_split: a.latest_split,
            },
        ),
        None => None,
    };
    let is_pb = spec_is_pb(v.personal_best, dur);
    let ri = find_run_idx(v.runs, rid);
    let runs = if ri >= 0 {
        v.runs.update(
            ri,
            RunSummary {
                id: v.runs[ri].id,
                start_time: v.runs[ri].start_time,
                end_time: Some(now),
                final_time: Some(dur),
            },
        )
    } else {
        v.runs
    };
    let pb = if ri >= 0 && is_pb {
        Some(runs[ri])
    } else {
        v.personal_best
    };
    let splits = if is_pb {
        v.splits.map_values(
            |s: SplitView|
                SplitView {
                    name: s.name,
                    percent: s.percent,
                    time: hist_lookup(s.history, rid),
                    history: s.history,
                },
        )
    } else {
        v.splits
    };
    AggregateView { active_run: active, personal_best: pb, runs, splits }
}

/// The second half of the transition, once the run to credit is settled:
/// record the sample, and finalize when the matched split is the last one.
pub open spec fn spec_record_and_finish(
    v: AggregateView,
    cur: InGameTime,
    now: i64,
    rid: u128,
) -> AggregateView {
    let k = find_split_idx(v.splits, cur.percent);
    let v2 = spec_record(v, k, rid, cur.duration);
    if is_final_percent(v2.splits, cur.percent) {
        spec_finalize(v2, rid, cur.duration, now)
    } else {
        v2
    }
}

/// The full transition for one sample.
pub open spec fn spec_update(
    v: AggregateView,
    cur: InGameTime,
    now: i64,
    nid: u128,
) -> AggregateView {
    if find_split_idx(v.splits, cur.percent) < 0 {
        v
    } else {
        match v.active_run {
            Some(a) => {
                if cur.percent < a.latest_split.percent {
                    spec_record_and_finish(spec_start_run(v, cur, now, nid), cur, now, nid)
                } else if a.end_time is Some {
                    v
                } else {
                    spec_record_and_finish(spec_continue_run(v, a, cur), cur, now, a.id)
                }
            },
            None => spec_record_and_finish(spec_start_run(v, cur, now, nid), cur, now, nid),
        }
    }
}

/// The aggregate with a brand-new active run and its summary appended.
pub open spec fn spec_start_run(
    v: AggregateView,
    cur: InGameTime,
    now: i64,
    nid: u128,
) -> AggregateView {
    AggregateView {
        active_run: Some(
            ActiveRun { id: nid, start_time: now, end_time: None, latest_split: cur },
        ),
        personal_best: v.personal_best,
        runs: v.runs.push(
            RunSummary { id: nid, start_time: now, end_time: None, final_time: None },
        ),
        splits: v.splits,
    }
}

/// The aggregate with the active run's latest sample advanced.
pub open spec fn spec_continue_run(v: AggregateView, a: ActiveRun, cur: InGameTime) -> AggregateView {
    AggregateView {
        active_run: Some(
            ActiveRun {
                id: a.id,
                start_time: a.start_time,
                end_time: a.end_time,
                latest_split: cur,
            },
        ),
        personal_best: v.personal_best,
        runs: v.runs,
        splits: v.splits,
    }
}

// ---------------------------------------------------------------------------
// Clamping a difference of durations into a signed 64-bit delta.
// ---------------------------------------------------------------------------
/// `x` saturated into the signed 64-bit range.
pub open spec fn clip_i64(x: int) -> int {
    if x > i64::MAX {
        i64::MAX as int
    } else if x < i64::MIN {
        i64::MIN as int
    } else {
        x
    }
}

/// What `compare` answers: the delta in seconds against the personal best
/// at the sample's split, when both the split and its baseline exist.
pub open spec fn spec_compare(v: AggregateView, cur: InGameTime) -> Option<int> {
    let k = find_split_idx(v.splits, cur.percent);
    if k < 0 {
        None
    } else {
        match v.splits[k].time {
            Some(t) => Some(clip_i64(cur.duration - t)),
            None => None,
        }
    }
}

// ---------------------------------------------------------------------------
// Laws of the transition.
// ---------------------------------------------------------------------------
/// A sample whose percent matches no configured split is discarded: the
/// aggregate — active run, runs, and every split's history — is untouched.
pub proof fn lemma_unknown_percent_is_noop(v: AggregateView, cur: InGameTime, now: i64, nid: u128)
    requires
        find_split_idx(v.splits, cur.percent) < 0,
    ensures
        spec_update(v, cur, now, nid) == v,
        !spec_accepts(v, cur),
{
}

/// A sample at or past a sealed run's latest percent is ignored entirely:
/// a finished run accepts no further mutation.
pub proof fn lemma_sealed_run_ignores(
    v: AggregateView,
    a: ActiveRun,
    cur: InGameTime,
    now: i64,
    nid: u128,
)
    requires
        v.active_run == Some(a),
        a.end_time is Some,
        cur.percent >= a.latest_split.percent,
    ensures
        spec_update(v, cur, now, nid) == v,
        !spec_accepts(v, cur),
{
}

/// Two histories with the same ids in the same places find any run at the
/// same position.
proof fn lemma_hist_find_same_ids(h1: Seq<HistoricalSplit>, h2: Seq<HistoricalSplit>, id: u128)
    requires
        h1.len() == h2.len(),
        forall|i: int| 0 <= i < h1.len() ==> h1[i].run_id == (#[trigger] h2[i]).run_id,
    ensures
        hist_find(h1, id) == hist_find(h2, id),
    decreases h1.len(),
{
    if h1.len() > 0 && h1[0].run_id != id {
        let r1 = h1.drop_first();
        let r2 = h2.drop_first();
        assert(forall|i: int| 0 <= i < r1.len() ==> r1[i].run_id == (#[trigger] r2[i]).run_id);
        lemma_hist_find_same_ids(r1, r2, id);
    }
}

/// Appending an entry moves a lookup only for the appended id.
proof fn lemma_hist_find_push(h: Seq<HistoricalSplit>, e: HistoricalSplit, id: u128)
    ensures
        hist_find(h.push(e), id) == if hist_find(h, id) >= 0 {
            hist_find(h, id)
        } else if e.run_id == id {
            h.len() as int
        } else {
            -1
        },
    decreases h.len(),
{
    let hp = h.push(e);
    assert(hp.len() == h.len() + 1);
    assert(hp[h.len() as int] == e);
    if h.len() == 0 {
        assert(hp.drop_first() =~= Seq::<HistoricalSplit>::empty());
        if hp[0].run_id == id {
            assert(hist_find(hp, id) == 0);
        } else {
            assert(hist_find(hp.drop_first(), id) == -1);
            assert(hist_find(hp, id) == -1);
        }
    } else {
        assert(hp[0] == h[0]);
        if h[0].run_id == id {
            assert(hist_find(hp, id) == 0 && hist_find(h, id) == 0);
        } else {
            assert(hp.drop_first() =~= h.drop_first().push(e));
            lemma_hist_find_push(h.drop_first(), e, id);
            assert(hist_find(hp.drop_first(), id) == hist_find(h.drop_first().push(e), id));
        }
    }
}

/// A sample of a strictly lower percent than the active run's latest resets
/// the attempt: a brand-new run starts under the fresh identifier, a new
/// summary is appended, and everything already recorded — the abandoned
/// run's summary and its history entries at every split — stays intact
/// under the old identifier.
pub proof fn lemma_regression_starts_new_run(
    v: AggregateView,
    a: ActiveRun,
    cur: InGameTime,
    now: i64,
    nid: u128,
)
    requires
        find_split_idx(v.splits, cur.percent) >= 0,
        v.active_run == Some(a),
        cur.percent < a.latest_split.percent,
        find_run_idx(v.runs, nid) < 0,
        nid != a.id,
    ensures
        ({
            let r = spec_update(v, cur, now, nid);
            &&& r.active_run == Some(
                ActiveRun {
                    id: nid,
                    start_time: now,
                    end_time: if is_final_percent(v.splits, cur.percent) {
                        Some(now)
                    } else {
                        None
                    },
                    latest_split: cur,
                },
            )
            &&& r.runs.len() == v.runs.len() + 1
            &&& forall|i: int| 0 <= i < v.runs.len() ==> r.runs[i] == v.runs[i]
            &&& r.runs[v.runs.len() as int].id == nid
            &&& r.splits.len() == v.splits.len()
            &&& forall|k: int|
                0 <= k < v.splits.len() ==> hist_lookup(
                    (#[trigger] r.splits[k]).history,
                    a.id,
                ) == hist_lookup(v.splits[k].history, a.id)
            &&& hist_lookup(
                r.splits[find_split_idx(v.splits, cur.percent)].history,
                nid,
            ) == Some(cur.duration)
        }),
{
    let r = spec_update(v, cur, now, nid);
    let k = find_split_idx(v.splits, cur.percent);
    let v1 = spec_start_run(v, cur, now, nid);
    let v2 = spec_record(v1, k, nid, cur.duration);
    crate::model::lemma_find_split_idx_props(v.splits, cur.percent);
    crate::model::lemma_find_run_idx_props(v.runs, nid);
    // The fresh summary sits at the end of the extended run list.
    let runs1 = v.runs.push(RunSummary { id: nid, start_time: now, end_time: None, final_time: None });
    assert(forall|j: int| 0 <= j < v.runs.len() ==> runs1[j] == #[trigger] v.runs[j]);
    lemma_find_run_idx_at(runs1, nid, v.runs.len() as int);
    // Recording touches only split `k`, and within it only the fresh id.
    let h = v.splits[k].history;
    let h2 = v2.splits[k].history;
    crate::model::lemma_hist_find_props(h, nid);
    assert forall|kk: int| 0 <= kk < v.splits.len() implies hist_lookup(
        (#[trigger] v2.splits[kk]).history,
        a.id,
    ) == hist_lookup(v.splits[kk].history, a.id) by {
        if kk == k {
            let i = hist_find(h, nid);
            if i >= 0 {
                assert(h2 == h.update(i, HistoricalSplit { run_id: nid, duration: cur.duration }));
                assert(forall|x: int| 0 <= x < h.len() ==> h[x].run_id == (#[trigger] h2[x]).run_id);
                lemma_hist_find_same_ids(h, h2, a.id);
                crate::model::lemma_hist_find_props(h, a.id);
                let w = hist_find(h, a.id);
                if w >= 0 {
                    assert(h[w].run_id == a.id && h[i].run_id == nid);
                    assert(w != i);
                    assert(h2[w].duration == h[w].duration);
                }
            } else {
                lemma_hist_find_push(h, HistoricalSplit { run_id: nid, duration: cur.duration }, a.id);
                crate::model::lemma_hist_find_props(h, a.id);
                let w = hist_find(h, a.id);
                if w >= 0 {
                    assert(h2[w] == h[w]);
                }
            }
        }
    }
    // The fresh id's entry carries the sample's duration.
    assert(hist_lookup(h2, nid) == Some(cur.duration)) by {
        let i = hist_find(h, nid);
        if i >= 0 {
            assert(h2 == h.update(i, HistoricalSplit { run_id: nid, duration: cur.duration }));
            assert(forall|x: int| 0 <= x < h.len() ==> h[x].run_id == (#[trigger] h2[x]).run_id);
            lemma_hist_find_same_ids(h, h2, nid);
        } else {
            lemma_hist_find_push(h, HistoricalSplit { run_id: nid, duration: cur.duration }, nid);
            crate::model::lemma_hist_find_props(h, nid);
        }
    }
    // Finishing, when the reset sample is itself the last split, stamps the
    // new summary in place and leaves histories alone.
    if is_final_percent(v2.splits, cur.percent) {
        assert(r == spec_finalize(v2, nid, cur.duration, now));
        lemma_find_run_idx_at(v2.runs, nid, v.runs.len() as int);
        assert(forall|i: int| 0 <= i < v.runs.len() ==> r.runs[i] == #[trigger] v.runs[i]);
        assert(forall|kk: int|
            0 <= kk < v2.splits.len() ==> (#[trigger] r.splits[kk]).history
                == v2.splits[kk].history);
    } else {
        assert(r == v2);
    }
    assert(is_final_percent(v2.splits, cur.percent) == is_final_percent(v.splits, cur.percent)) by {
        assert(v2.splits.len() == v.splits.len());
        if v.splits.len() > 0 {
            assert(v2.splits.last().percent == v.splits.last().percent);
        }
    }
}

/// A run that finishes no faster than the personal best — slower, or in
/// exactly the personal best's time — leaves the personal best and every
/// split's recorded best time untouched.  Improvement must be strict.
pub proof fn lemma_slower_or_tied_run_keeps_pb(
    v: AggregateView,
    p: RunSummary,
    t: u64,
    cur: InGameTime,
    now: i64,
    nid: u128,
)
    requires
        v.personal_best == Some(p),
        p.final_time == Some(t),
        cur.duration >= t,
    ensures
        ({
            let r = spec_update(v, cur, now, nid);
            &&& r.personal_best == v.personal_best
            &&& r.splits.len() == v.splits.len()
            &&& forall|k: int|
                0 <= k < v.splits.len() ==> (#[trigger] r.splits[k]).time == v.splits[k].time
        }),
{
    let k = find_split_idx(v.splits, cur.percent);
    if k >= 0 {
        crate::model::lemma_find_split_idx_props(v.splits, cur.percent);
    }
}

/// A run that finishes strictly faster than the personal best, or finishes
/// when none exists, becomes the new personal best, with the finished run's
/// final time.
pub proof fn lemma_faster_run_takes_pb(v: AggregateView, cur: InGameTime, now: i64, nid: u128)
    requires
        spec_accepts(v, cur),
        is_final_percent(v.splits, cur.percent),
        spec_is_pb(v.personal_best, cur.duration),
        match v.active_run {
            Some(a) => if cur.percent < a.latest_split.percent {
                find_run_idx(v.runs, nid) < 0
            } else {
                find_run_idx(v.runs, a.id) >= 0
            },
            None => find_run_idx(v.runs, nid) < 0,
        },
    ensures
        ({
            let r = spec_update(v, cur, now, nid);
            &&& match r.personal_best {
                Some(np) => np.id == spec_run_id(v, cur, nid) && np.final_time == Some(
                    cur.duration,
                ),
                None => false,
            }
        }),
{
    lemma_final_split_finishes(v, cur, now, nid);
    let rid = spec_run_id(v, cur, nid);
    let k = find_split_idx(v.splits, cur.percent);
    crate::model::lemma_find_split_idx_props(v.splits, cur.percent);
    let starts_new = match v.active_run {
        Some(a) => cur.percent < a.latest_split.percent,
        None => true,
    };
    let v1 = if starts_new {
        spec_start_run(v, cur, now, nid)
    } else {
        spec_continue_run(
            v,
            match v.active_run {
                Some(a) => a,
                None => arbitrary(),
            },
            cur,
        )
    };
    let v2 = spec_record(v1, k, rid, cur.duration);
    assert(is_final_percent(v2.splits, cur.percent)) by {
        assert(v2.splits.last().percent == v.splits.last().percent);
    }
    let ri = find_run_idx(v2.runs, rid);
    if starts_new {
        crate::model::lemma_find_run_idx_props(v.runs, nid);
        assert(forall|j: int| 0 <= j < v.runs.len() ==> v2.runs[j] == #[trigger] v.runs[j]);
        lemma_find_run_idx_at(v2.runs, nid, v.runs.len() as int);
    }
    assert(ri >= 0);
    crate::model::lemma_find_run_idx_props(v2.runs, rid);
}

/// An accepted sample at the final checkpoint finishes the run: the active
/// run gets its end time, and the run's summary gets the same end time and
/// the sample's duration as its final time.  The credited run must have a
/// summary to stamp: a fresh identifier must be fresh, a continuing run's
/// identifier must be recorded.
pub proof fn lemma_final_split_finishes(v: AggregateView, cur: InGameTime, now: i64, nid: u128)
    requires
        spec_accepts(v, cur),
        is_final_percent(v.splits, cur.percent),
        match v.active_run {
            Some(a) => if cur.percent < a.latest_split.percent {
                find_run_idx(v.runs, nid) < 0
            } else {
                find_run_idx(v.runs, a.id) >= 0
            },
            None => find_run_idx(v.runs, nid) < 0,
        },
    ensures
        ({
            let r = spec_update(v, cur, now, nid);
            let rid = spec_run_id(v, cur, nid);
            &&& match r.active_run {
                Some(a2) => a2.end_time == Some(now),
                None => false,
            }
            &&& exists|i: int|
                0 <= i < r.runs.len() && (#[trigger] r.runs[i]).id == rid && r.runs[i].end_time
                    == Some(now) && r.runs[i].final_time == Some(cur.duration)
        }),
{
    let r = spec_update(v, cur, now, nid);
    let rid = spec_run_id(v, cur, nid);
    let k = find_split_idx(v.splits, cur.percent);
    crate::model::lemma_find_split_idx_props(v.splits, cur.percent);
    let starts_new = match v.active_run {
        Some(a) => cur.percent < a.latest_split.percent,
        None => true,
    };
    let v1 = if starts_new {
        spec_start_run(v, cur, now, nid)
    } else {
        spec_continue_run(
            v,
            match v.active_run {
                Some(a) => a,
                None => arbitrary(),
            },
            cur,
        )
    };
    let v2 = spec_record(v1, k, rid, cur.duration);
    assert(v2.splits.len() == v.splits.len());
    assert(v2.splits.last().percent == v.splits.last().percent);
    assert(is_final_percent(v2.splits, cur.percent));
    assert(r == spec_finalize(v2, rid, cur.duration, now));
    let ri = find_run_idx(v2.runs, rid);
    if starts_new {
        crate::model::lemma_find_run_idx_props(v.runs, nid);
        assert(forall|j: int| 0 <= j < v.runs.len() ==> v2.runs[j] == #[trigger] v.runs[j]);
        lemma_find_run_idx_at(v2.runs, nid, v.runs.len() as int);
    } else {
        assert(v2.runs == v.runs);
    }
    assert(ri >= 0);
    crate::model::lemma_find_run_idx_props(v2.runs, rid);
    assert(ri < v2.runs.len());
    assert(r.runs == v2.runs.update(
        ri,
        RunSummary {
            id: v2.runs[ri].id,
            start_time: v2.runs[ri].start_time,
            end_time: Some(now),
            final_time: Some(cur.duration),
        },
    ));
    assert(r.runs[ri].id == rid && r.runs[ri].end_time == Some(now) && r.runs[ri].final_time
        == Some(cur.duration));
    assert(exists|i: int|
        0 <= i < r.runs.len() && (#[trigger] r.runs[i]).id == rid && r.runs[i].end_time == Some(
            now,
        ) && r.runs[i].final_time == Some(cur.duration));
    assert(match r.active_run {
        Some(a2) => a2.end_time == Some(now),
        None => false,
    }) by {
        assert(v2.active_run is Some);
    }
}

// ---------------------------------------------------------------------------
// Wall clock and run identifiers.
// ---------------------------------------------------------------------------
/// Relies on chrono's `Utc::now` and `DateTime::timestamp_millis`: the
/// current wall-clock time, in milliseconds since the Unix epoch.  Nothing
/// is promised of the clock's reading.
#[verifier::external_body]
fn now_timestamp_millis() -> i64 {
    chrono::Utc::now().timestamp_millis()
}

/// Relies on uuid's `Uuid::new_v4` and `Uuid::as_u128`: a randomly drawn
/// 128-bit run identifier.  Nothing is promised of a random draw.
#[verifier::external_body]
fn fresh_run_id() -> u128 {
    uuid::Uuid::new_v4().as_u128()
}

// ---------------------------------------------------------------------------
// Executable lookups.
// ---------------------------------------------------------------------------
/// The recorded duration of the given run in this history, if any.
pub fn hist_lookup_exec(h: &Vec<HistoricalSplit>, id: u128) -> (r: Option<u64>)
    ensures
        r == hist_lookup(h@, id),
{
    let n = h.len();
    let mut i: usize = 0;
    while i < n
        invariant
            0 <= i <= n,
            n == h@.len(),
            forall|j: int| 0 <= j < i ==> h@[j].run_id != id,
        decreases n - i,
    {
        if h[i].run_id == id {
            proof {
                lemma_hist_find_at(h@, id, i as int);
            }
            return Some(h[i].duration);
        }
        i = i + 1;
    }
    proof {
        lemma_hist_find_none(h@, id);
    }
    None
}

/// The index of the given run's entry in this history, if any.
pub(crate) fn hist_index_exec(h: &Vec<HistoricalSplit>, id: u128) -> (r: Option<usize>)
    ensures
        match r {
            Some(i) => i as int == hist_find(h@, id) && i < h@.len(),
            None => hist_find(h@, id) < 0,
        },
{
    let n = h.len();
    let mut i: usize = 0;
    while i < n
        invariant
            0 <= i <= n,
            n == h@.len(),
            forall|j: int| 0 <= j < i ==> h@[j].run_id != id,
        decreases n - i,
    {
        if h[i].run_id == id {
            proof {
                lemma_hist_find_at(h@, id, i as int);
            }
            return Some(i);
        }
        i = i + 1;
    }
    proof {
        lemma_hist_find_none(h@, id);
    }
    None
}

/// The index of the run with the given id, if any.
pub(crate) fn run_index_exec(rs: &Vec<RunSummary>, id: u128) -> (r: Option<usize>)
    ensures
        match r {
            Some(i) => i as int == find_run_idx(rs@, id) && i < rs@.len(),
            None => find_run_idx(rs@, id) < 0,
        },
{
    let n = rs.len();
    let mut i: usize = 0;
    while i < n
        invariant
            0 <= i <= n,
            n == rs@.len(),
            forall|j: int| 0 <= j < i ==> rs@[j].id != id,
        decreases n - i,
    {
        if rs[i].id == id {
            proof {
                lemma_find_run_idx_at(rs@, id, i as int);
            }
            return Some(i);
        }
        i = i + 1;
    }
    proof {
        lemma_find_run_idx_none(rs@, id);
    }
    None
}

impl Splits {
    /// The index of the split matching the given percent, if any.
    fn find_index_by_percent(&self, percent: u32) -> (r: Option<usize>)
        ensures
            match r {
                Some(k) => k as int == find_split_idx(self@.splits, percent) && k
                    < self@.splits.len(),
                None => find_split_idx(self@.splits, percent) < 0,
            },
    {
        let n = self.splits.len();
        let mut i: usize = 0;
        while i < n
            invariant
                0 <= i <= n,
                n == self.splits@.len(),
                forall|j: int| 0 <= j < i ==> self.splits@[j].percent != percent,
            decreases n - i,
        {
            if self.splits[i].percent == percent {
                proof {
                    assert(self@.splits[i as int].percent == percent);
                    assert(forall|j: int| 0 <= j < i ==> self@.splits[j].percent != percent);
                    lemma_find_split_idx_at(self@.splits, percent, i as int);
                }
                return Some(i);
            }
            i = i + 1;
        }
        proof {
            assert(forall|j: int| 0 <= j < n ==> self@.splits[j].percent != percent);
            lemma_find_split_idx_none(self@.splits, percent);
        }
        None
    }

    /// The split matching the sample's percent, if any.
    pub fn find_by_percent(&self, time: &InGameTime) -> (r: Option<&Split>)
        ensures
            match r {
                Some(s) => find_split_idx(self@.splits, time.percent) >= 0 && s@ == self@.splits[
                    find_split_idx(self@.splits, time.percent)
                ],
                None => find_split_idx(self@.splits, time.percent) < 0,
            },
    {
        match self.find_index_by_percent(time.percent) {
            Some(k) => Some(&self.splits[k]),
            None => None,
        }
    }

    /// Compares the sample to the personal best at its split.  Positive
    /// means behind the personal best, negative ahead; deltas beyond the
    /// signed 64-bit range saturate.  Nothing is answered when the percent
    /// is unknown or the split has no personal-best time yet.
    pub fn compare(&self, current: &InGameTime) -> (r: Option<(i64, &Split)>)
        ensures
            match r {
                Some((d, s)) => {
                    let k = find_split_idx(self@.splits, current.percent);
                    &&& spec_compare(self@, *current) == Some(d as int)
                    &&& k >= 0
                    &&& s@ == self@.splits[k]
                },
                None => spec_compare(self@, *current) is None,
            },
    {
        let k = match self.find_index_by_percent(current.percent) {
            Some(k) => k,
            None => {
                return None;
            },
        };
        let split = &self.splits[k];
        match split.time {
            Some(t) => {
                let wide: i128 = current.duration as i128 - t as i128;
                let delta: i64 = if wide > i64::MAX as i128 {
                    i64::MAX
                } else if wide < i64::MIN as i128 {
                    i64::MIN
                } else {
                    wide as i64
                };
                Some((delta, split))
            },
            None => None,
        }
    }

    /// Records the sample's duration for the given run in split `k`.
    fn record_split_time(&mut self, k: usize, run_id: u128, dur: u64)
        requires
            k < old(self)@.splits.len(),
        ensures
            final (self)@ == spec_record(old(self)@, k as int, run_id, dur),
            final (self).path == old(self).path,
            final (self).active_run == old(self).active_run,
            final (self).personal_best == old(self).personal_best,
            final (self).runs == old(self).runs,
    {
        let ghost v0 = self@;
        let hidx = hist_index_exec(&self.splits[k].history, run_id);
        let entry = HistoricalSplit { run_id, duration: dur };
        match hidx {
            Some(j) => {
                let sp = &mut self.splits[k];
                sp.history[j] = entry;
            },
            None => {
                let sp = &mut self.splits[k];
                sp.history.push(entry);
            },
        }
        proof {
            assert(self@.splits =~= spec_record(v0, k as int, run_id, dur).splits);
            assert(self@ =~= spec_record(v0, k as int, run_id, dur));
        }
    }

    /// Finishes the run: stamps the end times and, on a personal best,
    /// retakes every split's time from this run's history.
    fn finalize_run_at(&mut self, run_id: u128, dur: u64, now: i64)
        ensures
            final (self)@ == spec_finalize(old(self)@, run_id, dur, now),
            final (self).path == old(self).path,
    {
        let ghost v0 = self@;
        if let Some(a) = self.active_run {
            self.active_run = Some(
                ActiveRun {
                    id: a.id,
                    start_time: a.start_time,
                    end_time: Some(now),
                    latest_split: a.latest_split,
                },
            );
        }
        let is_pb = match &self.personal_best {
            Some(p) => match p.final_time {
                Some(t) => dur < t,
                None => true,
            },
            None => true,
        };
        if let Some(ri) = run_index_exec(&self.runs, run_id) {
            let prev = self.runs[ri];
            let updated = RunSummary {
                id: prev.id,
                start_time: prev.start_time,
                end_time: Some(now),
                final_time: Some(dur),
            };
            self.runs[ri] = updated;
            if is_pb {
                self.personal_best = Some(updated);
            }
        }
        if is_pb {
            let ghost splits0 = self.splits@;
            let ghost path0 = self.path;
            let ghost active0 = self.active_run;
            let ghost pb0 = self.personal_best;
            let ghost runs0 = self.runs@;
            let n = self.splits.len();
            let mut i: usize = 0;
            while i < n
                invariant
                    0 <= i <= n,
                    n == self.splits@.len(),
                    splits0.len() == n,
                    self.path == path0,
                    self.active_run == active0,
                    self.personal_best == pb0,
                    self.runs@ == runs0,
                    forall|j: int|
                        i <= j < n ==> self.splits@[j] == #[trigger] splits0[j],
                    forall|j: int|
                        0 <= j < i ==> {
                            &&& (#[trigger] self.splits@[j]).name == splits0[j].name
                            &&& self.splits@[j].percent == splits0[j].percent
                            &&& self.splits@[j].history == splits0[j].history
                            &&& self.splits@[j].time == hist_lookup(splits0[j].history@, run_id)
                        },
                decreases n - i,
            {
                let t = hist_lookup_exec(&self.splits[i].history, run_id);
                let sp = &mut self.splits[i];
                sp.time = t;
                i = i + 1;
            }
        }
        proof {
            assert(self@.splits =~= spec_finalize(v0, run_id, dur, now).splits);
            assert(self@.runs =~= spec_finalize(v0, run_id, dur, now).runs);
            assert(self@ =~= spec_finalize(v0, run_id, dur, now));
        }
    }

    /// Feeds one sample through the engine with an explicit clock reading
    /// and a pre-drawn run identifier.  The new state is exactly what
    /// `spec_update` says; the result says whether the sample was accepted
    /// (and the aggregate therefore worth persisting).
    pub fn update_with_igt_at(&mut self, current: &InGameTime, now: i64, fresh_id: u128) -> (accepted:
        bool)
        ensures
            final (self)@ == spec_update(old(self)@, *current, now, fresh_id),
            accepted == spec_accepts(old(self)@, *current),
            final (self).path == old(self).path,
            !accepted ==> *final (self) == *old(self),
    {
        let k = match self.find_index_by_percent(current.percent) {
            Some(k) => k,
            None => {
                return false;
            },
        };
        let run_id: u128;
        match self.active_run {
            Some(a) => {
                if current.percent < a.latest_split.percent {
                    run_id = fresh_id;
                    self.active_run = Some(
                        ActiveRun {
                            id: fresh_id,
                            start_time: now,
                            end_time: None,
                            latest_split: *current,
                        },
                    );
                    self.runs.push(
                        RunSummary {
                            id: fresh_id,
                            start_time: now,
                            end_time: None,
                            final_time: None,
                        },
                    );
                } else if a.end_time.is_some() {
                    return false;
                } else {
                    run_id = a.id;
                    self.active_run = Some(
                        ActiveRun {
                            id: a.id,
                            start_time: a.start_time,
                            end_time: a.end_time,
                            latest_split: *current,
                        },
                    );
                }
            },
            None => {
                run_id = fresh_id;
                self.active_run = Some(
                    ActiveRun {
                        id: fresh_id,
                        start_time: now,
                        end_time: None,
                        latest_split: *current,
                    },
                );
                self.runs.push(
                    RunSummary { id: fresh_id, start_time: now, end_time: None, final_time: None },
                );
            },
        }
        proof {
            assert(find_split_idx(self@.splits, current.percent) == k as int);
        }
        self.record_split_time(k, run_id, current.duration);
        let last = self.splits.len() - 1;
        if self.splits[last].percent == current.percent {
            self.finalize_run_at(run_id, current.duration, now);
        }
        true
    }

    /// Seeds a just-finished active run for a session that begins mid-game,
    /// drawing a fresh identifier and stamping the current time — but only
    /// when no run is active yet.  The set end time seals the seeded run, so
    /// the lifecycle starts a real run at the next regression.
    pub fn initialize_active_run(&mut self, time: &InGameTime)
        ensures
            old(self).active_run is Some ==> *final (self) == *old(self),
            old(self).active_run is None ==> ({
                &&& final (self).path == old(self).path
                &&& final (self).personal_best == old(self).personal_best
                &&& final (self).runs == old(self).runs
                &&& final (self).splits == old(self).splits
                &&& match final (self).active_run {
                    Some(a) => a.end_time is Some && a.latest_split == *time,
                    None => false,
                }
            }),
    {
        if self.active_run.is_none() {
            let now = now_timestamp_millis();
            let ended = now_timestamp_millis();
            let nid = fresh_run_id();
            self.active_run = Some(
                ActiveRun { id: nid, start_time: now, end_time: Some(ended), latest_split: *time },
            );
        }
    }

    /// Feeds one sample through the engine, reading the wall clock and
    /// drawing a fresh run identifier.  The new state is `spec_update` of
    /// the old one for some clock reading and identifier; a discarded or
    /// ignored sample changes nothing.  The result says whether the sample
    /// was accepted, and so whether the aggregate should be persisted.
    pub fn update_with_igt(&mut self, current: &InGameTime) -> (accepted: bool)
        ensures
            exists|now: i64, nid: u128|
                final (self)@ == spec_update(old(self)@, *current, now, nid),
            accepted == spec_accepts(old(self)@, *current),
            final (self).path == old(self).path,
            !accepted ==> *final (self) == *old(self),
    {
        let ghost v0 = self@;
        let now = now_timestamp_millis();
        let nid = fresh_run_id();
        let accepted = self.update_with_igt_at(current, now, nid);
        proof {
            assert(exists|n: i64, d: u128| self@ == spec_update(v0, *current, n, d)) by {
                assert(self@ == spec_update(v0, *current, now, nid));
            }
        }
        accepted
    }
}

} // verus!
