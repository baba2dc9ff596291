//! The in-memory data model: splits, runs, the personal best, and the
//! aggregate that owns them, together with the well-formedness predicates
//! that the validator establishes.

use vstd::prelude::*;

use crate::in_game_time::InGameTime;

verus! {

/// A run that is currently in progress or has just finished.  Transient:
/// never persisted, absent again after every load.
#[derive(Debug, Clone, Copy, PartialEq)]
pub struct ActiveRun {
    /// Identifier of the attempt, shared with its `RunSummary`.
    pub id: u128,
    /// Wall-clock start, in milliseconds since the Unix epoch.
    pub start_time: i64,
    /// Wall-clock end, set once the final split is reached.
    pub end_time: Option<i64>,
    /// The most recent accepted sample of this run.
    pub latest_split: InGameTime,
}

/// The durable record of one attempt.
#[derive(Debug, Clone, Copy, PartialEq)]
pub struct RunSummary {
    /// Identifier of the attempt.
    pub id: u128,
    /// Wall-clock start, in milliseconds since the Unix epoch.
    pub start_time: i64,
    /// Wall-clock end, set when the run finishes.
    pub end_time: Option<i64>,
    /// Elapsed seconds at the final split, set when the run finishes.
    pub final_time: Option<u64>,
}

/// The elapsed time one run recorded at one split.
#[derive(Debug, Clone, Copy, PartialEq)]
pub struct HistoricalSplit {
    /// The run this entry belongs to.
    pub run_id: u128,
    /// Elapsed seconds of that run when it passed the split.
    pub duration: u64,
}

/// One configured checkpoint.
#[derive(Debug, Clone, PartialEq)]
pub struct Split {
    /// Display name.
    pub name: String,
    /// Progress percent; the unique key of the split.
    pub percent: u32,
    /// The personal best's duration at this split, if a personal best exists
    /// and passed it.
    pub time: Option<u64>,
    /// Every recorded duration at this split, one entry per run.
    pub history: Vec<HistoricalSplit>,
}

/// Mathematical image of a `Split`.
#[verifier::ext_equal]
pub struct SplitView {
    pub name: Seq<char>,
    pub percent: u32,
    pub time: Option<u64>,
    pub history: Seq<HistoricalSplit>,
}

impl View for Split {
    type V = SplitView;

    open spec fn view(&self) -> SplitView {
        SplitView {
            name: self.name@,
            percent: self.percent,
            time: self.time,
            history: self.history@,
        }
    }
}

/// The aggregate root: all configured splits, all recorded runs, the
/// personal best, and the at-most-one active run.
#[derive(Debug, PartialEq)]
pub struct Splits {
    /// Where the aggregate is persisted, if anywhere.
    pub path: Option<String>,
    /// The in-progress or just-finished attempt, if any.
    pub active_run: Option<ActiveRun>,
    /// The finished run with the lowest final time seen so far.
    pub personal_best: Option<RunSummary>,
    /// Every attempt ever started, in start order.
    pub runs: Vec<RunSummary>,
    /// The configured checkpoints, in percent order.
    pub splits: Vec<Split>,
}

/// Mathematical image of the aggregate.
#[verifier::ext_equal]
pub struct AggregateView {
    pub active_run: Option<ActiveRun>,
    pub personal_best: Option<RunSummary>,
    pub runs: Seq<RunSummary>,
    pub splits: Seq<SplitView>,
}

impl View for Splits {
    type V = AggregateView;

    open spec fn view(&self) -> AggregateView {
        AggregateView {
            active_run: self.active_run,
            personal_best: self.personal_best,
            runs: self.runs@,
            splits: self.splits@.map_values(|s: Split| s@),
        }
    }
}

// ---------------------------------------------------------------------------
// Lookups, defined as first occurrences.
// ---------------------------------------------------------------------------
/// Index of the first split with the given percent, or `-1`.
pub open spec fn find_split_idx(ss: Seq<SplitView>, percent: u32) -> int
    decreases ss.len(),
{
    if ss.len() == 0 {
        -1
    } else if ss[0].percent == percent {
        0
    } else {
        let r = find_split_idx(ss.drop_first(), percent);
        if r < 0 {
            -1
        } else {
            r + 1
        }
    }
}

/// Index of the first run with the given id, or `-1`.
pub open spec fn find_run_idx(rs: Seq<RunSummary>, id: u128) -> int
    decreases rs.len(),
{
    if rs.len() == 0 {
        -1
    } else if rs[0].id == id {
        0
    } else {
        let r = find_run_idx(rs.drop_first(), id);
        if r < 0 {
            -1
        } else {
            r + 1
        }
    }
}

/// Index of the first history entry of the given run, or `-1`.
pub open spec fn hist_find(h: Seq<HistoricalSplit>, id: u128) -> int
    decreases h.len(),
{
    if h.len() == 0 {
        -1
    } else if h[0].run_id == id {
        0
    } else {
        let r = hist_find(h.drop_first(), id);
        if r < 0 {
            -1
        } else {
            r + 1
        }
    }
}

/// The duration the given run recorded in this history, if any.
pub open spec fn hist_lookup(h: Seq<HistoricalSplit>, id: u128) -> Option<u64> {
    let i = hist_find(h, id);
    if i >= 0 {
        Some(h[i].duration)
    } else {
        None
    }
}

/// Whether the percent belongs to the last (highest-percent) split.
pub open spec fn is_final_percent(ss: Seq<SplitView>, percent: u32) -> bool {
    ss.len() > 0 && ss.last().percent == percent
}

/// `find_split_idx` returns the first matching index.
pub proof fn lemma_find_split_idx_at(ss: Seq<SplitView>, percent: u32, i: int)
    requires
        0 <= i < ss.len(),
        ss[i].percent == percent,
        forall|j: int| 0 <= j < i ==> ss[j].percent != percent,
    ensures
        find_split_idx(ss, percent) == i,
    decreases ss.len(),
{
    if i > 0 {
        lemma_find_split_idx_at(ss.drop_first(), percent, i - 1);
    }
}

/// `find_split_idx` returns `-1` exactly when no split matches.
pub proof fn lemma_find_split_idx_none(ss: Seq<SplitView>, percent: u32)
    requires
        forall|j: int| 0 <= j < ss.len() ==> ss[j].percent != percent,
    ensures
        find_split_idx(ss, percent) == -1,
    decreases ss.len(),
{
    if ss.len() > 0 {
        lemma_find_split_idx_none(ss.drop_first(), percent);
    }
}

/// What `find_split_idx` found is a first occurrence.
pub proof fn lemma_find_split_idx_props(ss: Seq<SplitView>, percent: u32)
    ensures
        find_split_idx(ss, percent) >= 0 ==> {
            let i = find_split_idx(ss, percent);
            &&& i < ss.len()
            &&& ss[i].percent == percent
            &&& forall|j: int| 0 <= j < i ==> ss[j].percent != percent
        },
        find_split_idx(ss, percent) < 0 ==> forall|j: int|
            0 <= j < ss.len() ==> ss[j].percent != percent,
    decreases ss.len(),
{
    if ss.len() > 0 && ss[0].percent != percent {
        let ss1 = ss.drop_first();
        lemma_find_split_idx_props(ss1, percent);
        let r = find_split_idx(ss1, percent);
        if r >= 0 {
            assert(ss[r + 1] == ss1[r]);
            assert forall|j: int| 0 <= j < r + 1 implies ss[j].percent != percent by {
                if j > 0 {
                    assert(ss[j] == ss1[j - 1]);
                }
            }
        } else {
            assert forall|j: int| 0 <= j < ss.len() implies ss[j].percent != percent by {
                if j > 0 {
                    assert(ss[j] == ss1[j - 1]);
                }
            }
        }
    }
}

/// `find_run_idx` returns the first matching index.
pub proof fn lemma_find_run_idx_at(rs: Seq<RunSummary>, id: u128, i: int)
    requires
        0 <= i < rs.len(),
        rs[i].id == id,
        forall|j: int| 0 <= j < i ==> rs[j].id != id,
    ensures
        find_run_idx(rs, id) == i,
    decreases rs.len(),
{
    if i > 0 {
        lemma_find_run_idx_at(rs.drop_first(), id, i - 1);
    }
}

/// `find_run_idx` returns `-1` exactly when no run matches.
pub proof fn lemma_find_run_idx_none(rs: Seq<RunSummary>, id: u128)
    requires
        forall|j: int| 0 <= j < rs.len() ==> rs[j].id != id,
    ensures
        find_run_idx(rs, id) == -1,
    decreases rs.len(),
{
    if rs.len() > 0 {
        lemma_find_run_idx_none(rs.drop_first(), id);
    }
}

/// `find_run_idx` never answers below `-1`.
pub proof fn lemma_find_run_idx_ge_neg1(rs: Seq<RunSummary>, id: u128)
    ensures
        find_run_idx(rs, id) >= -1,
    decreases rs.len(),
{
    if rs.len() > 0 && rs[0].id != id {
        lemma_find_run_idx_ge_neg1(rs.drop_first(), id);
    }
}

/// What `find_run_idx` found is a first occurrence.
pub proof fn lemma_find_run_idx_props(rs: Seq<RunSummary>, id: u128)
    ensures
        find_run_idx(rs, id) >= 0 ==> {
            let i = find_run_idx(rs, id);
            &&& i < rs.len()
            &&& rs[i].id == id
            &&& forall|j: int| 0 <= j < i ==> rs[j].id != id
        },
        find_run_idx(rs, id) < 0 ==> forall|j: int| 0 <= j < rs.len() ==> rs[j].id != id,
    decreases rs.len(),
{
    if rs.len() > 0 && rs[0].id != id {
        let rs1 = rs.drop_first();
        lemma_find_run_idx_props(rs1, id);
        let r = find_run_idx(rs1, id);
        if r >= 0 {
            assert(rs[r + 1] == rs1[r]);
            assert forall|j: int| 0 <= j < r + 1 implies rs[j].id != id by {
                if j > 0 {
                    assert(rs[j] == rs1[j - 1]);
                }
            }
        } else {
            assert forall|j: int| 0 <= j < rs.len() implies rs[j].id != id by {
                if j > 0 {
                    assert(rs[j] == rs1[j - 1]);
                }
            }
        }
    }
}

/// `hist_find` returns the first matching index.
pub proof fn lemma_hist_find_at(h: Seq<HistoricalSplit>, id: u128, i: int)
    requires
        0 <= i < h.len(),
        h[i].run_id == id,
        forall|j: int| 0 <= j < i ==> h[j].run_id != id,
    ensures
        hist_find(h, id) == i,
    decreases h.len(),
{
    if i > 0 {
        lemma_hist_find_at(h.drop_first(), id, i - 1);
    }
}

/// `hist_find` returns `-1` exactly when no entry matches.
pub proof fn lemma_hist_find_none(h: Seq<HistoricalSplit>, id: u128)
    requires
        forall|j: int| 0 <= j < h.len() ==> h[j].run_id != id,
    ensures
        hist_find(h, id) == -1,
    decreases h.len(),
{
    if h.len() > 0 {
        lemma_hist_find_none(h.drop_first(), id);
    }
}

/// What `hist_find` found is a first occurrence.
pub proof fn lemma_hist_find_props(h: Seq<HistoricalSplit>, id: u128)
    ensures
        hist_find(h, id) >= 0 ==> {
            let i = hist_find(h, id);
            &&& i < h.len()
            &&& h[i].run_id == id
            &&& forall|j: int| 0 <= j < i ==> h[j].run_id != id
        },
        hist_find(h, id) < 0 ==> forall|j: int| 0 <= j < h.len() ==> h[j].run_id != id,
    decreases h.len(),
{
    if h.len() > 0 && h[0].run_id != id {
        let h1 = h.drop_first();
        lemma_hist_find_props(h1, id);
        let r = hist_find(h1, id);
        if r >= 0 {
            assert(h[r + 1] == h1[r]);
            assert forall|j: int| 0 <= j < r + 1 implies h[j].run_id != id by {
                if j > 0 {
                    assert(h[j] == h1[j - 1]);
                }
            }
        } else {
            assert forall|j: int| 0 <= j < h.len() implies h[j].run_id != id by {
                if j > 0 {
                    assert(h[j] == h1[j - 1]);
                }
            }
        }
    }
}

// ---------------------------------------------------------------------------
// Well-formedness, as the validator establishes it.
// ---------------------------------------------------------------------------
/// Splits strictly ascend by percent (so percents are pairwise distinct).
pub open spec fn splits_sorted(ss: Seq<SplitView>) -> bool {
    forall|i: int, j: int| 0 <= i < j < ss.len() ==> ss[i].percent < ss[j].percent
}

/// Runs ascend by start time.
pub open spec fn runs_sorted(rs: Seq<RunSummary>) -> bool {
    forall|i: int, j: int| 0 <= i < j < rs.len() ==> rs[i].start_time <= rs[j].start_time
}

/// Run ids are pairwise distinct.
pub open spec fn run_ids_distinct(rs: Seq<RunSummary>) -> bool {
    forall|i: int, j: int| 0 <= i < j < rs.len() ==> rs[i].id != rs[j].id
}

/// The sort key of a history entry: the position of its run among the
/// recorded runs, with entries of unknown runs before all known ones.
pub open spec fn hist_key(rs: Seq<RunSummary>, id: u128) -> int {
    find_run_idx(rs, id)
}

/// A repaired history: entries of pairwise distinct runs, ordered by the
/// position of their run among the recorded runs (unknown runs first).
pub open spec fn hist_wf(rs: Seq<RunSummary>, h: Seq<HistoricalSplit>) -> bool {
    &&& forall|i: int, j: int| 0 <= i < j < h.len() ==> h[i].run_id != h[j].run_id
    &&& forall|i: int, j: int|
        0 <= i < j < h.len() ==> hist_key(rs, h[i].run_id) <= hist_key(rs, h[j].run_id)
}

/// The last split records every finished run's final time.
pub open spec fn final_split_reconciled(rs: Seq<RunSummary>, ss: Seq<SplitView>) -> bool {
    ss.len() > 0 ==> forall|i: int|
        0 <= i < rs.len() ==> match #[trigger] rs[i].final_time {
            Some(t) => hist_lookup(ss.last().history, rs[i].id) == Some(t),
            None => true,
        }
}

/// Every split's personal-best time is the history duration of the current
/// personal best, or absent when there is none.
pub open spec fn times_match_pb(pb: Option<RunSummary>, ss: Seq<SplitView>) -> bool {
    forall|k: int|
        0 <= k < ss.len() ==> #[trigger] ss[k].time == match pb {
            Some(p) => hist_lookup(ss[k].history, p.id),
            None => None::<u64>,
        }
}

impl AggregateView {
    /// All the invariants the validator enforces.
    pub open spec fn valid(self) -> bool {
        &&& splits_sorted(self.splits)
        &&& runs_sorted(self.runs)
        &&& run_ids_distinct(self.runs)
        &&& match self.personal_best {
            Some(pb) => find_run_idx(self.runs, pb.id) >= 0,
            None => true,
        }
        &&& forall|k: int| 0 <= k < self.splits.len() ==> hist_wf(self.runs, #[trigger] self.splits[k].history)
        &&& final_split_reconciled(self.runs, self.splits)
        &&& times_match_pb(self.personal_best, self.splits)
    }
}

impl Splits {
    /// Constructs an empty aggregate with no path, no splits, and no history.
    pub fn new() -> (r: Self)
        ensures
            r.path is None,
            r@.active_run is None,
            r@.personal_best is None,
            r@.runs == Seq::<RunSummary>::empty(),
            r@.splits == Seq::<SplitView>::empty(),
    {
        let r = Splits {
            path: None,
            active_run: None,
            personal_best: None,
            runs: Vec::new(),
            splits: Vec::new(),
        };
        proof {
            assert(r@.splits =~= Seq::<SplitView>::empty());
        }
        r
    }

    /// The file this aggregate persists to, if any.
    pub fn path(&self) -> (r: Option<&String>)
        ensures
            match r {
                Some(p) => self.path == Some(*p),
                None => self.path is None,
            },
    {
        self.path.as_ref()
    }

    /// The in-progress or just-finished run, if any.
    pub fn active_run(&self) -> (r: Option<&ActiveRun>)
        ensures
            match r {
                Some(a) => self@.active_run == Some(*a),
                None => self@.active_run is None,
            },
    {
        self.active_run.as_ref()
    }

    /// The personal best, if one has been recorded.
    pub fn personal_best(&self) -> (r: Option<&RunSummary>)
        ensures
            match r {
                Some(p) => self@.personal_best == Some(*p),
                None => self@.personal_best is None,
            },
    {
        self.personal_best.as_ref()
    }

    /// Every recorded attempt, in start order.
    pub fn runs(&self) -> (r: &Vec<RunSummary>)
        ensures
            r@ == self@.runs,
    {
        &self.runs
    }

    /// The configured splits, in percent order.
    pub fn splits(&self) -> (r: &Vec<Split>)
        ensures
            r@.map_values(|s: Split| s@) == self@.splits,
    {
        &self.splits
    }
}

} // verus!
