//! The on-disk schemas: a version-1 and a version-2 layout, a one-way
//! migration between them, and the conversions between the current layout
//! and the in-memory aggregate.
//!
//! Durations travel as `H:MM:SS` strings; run identifiers as 128-bit
//! values; wall-clock times as milliseconds since the Unix epoch.  The
//! surrounding process turns these structures into JSON and back.

use vstd::prelude::*;

use crate::codec::format_hms;
use crate::codec::parse_hms;
use crate::codec::spec_format_hms;
use crate::codec::spec_parse_hms;
use crate::model::find_run_idx;
use crate::model::AggregateView;
use crate::model::HistoricalSplit;
use crate::model::RunSummary;
use crate::model::Split;
use crate::model::Splits;
use crate::model::SplitView;
use crate::SplitsError;

verus! {

/// The tag of the flat, history-less layout.
pub const SPLITS_FILE_VERSION_V1: u32 = 1;

/// The tag of the current layout.
pub const SPLITS_FILE_VERSION_V2: u32 = 2;

/// One checkpoint in the version-1 layout.
#[derive(Debug, Clone, PartialEq)]
pub struct SplitV1 {
    pub name: String,
    pub percent: u32,
    /// The checkpoint's best duration, as `H:MM:SS`.
    pub duration: Option<String>,
}

/// The payload of a version-1 file.
#[derive(Debug, Clone, PartialEq)]
pub struct SplitsV1 {
    pub splits: Vec<SplitV1>,
}

/// A whole version-1 file.
#[derive(Debug, Clone, PartialEq)]
pub struct SplitsFileV1 {
    pub version: u32,
    pub splits: SplitsV1,
}

/// A run record in the version-2 layout.
#[derive(Debug, Clone, PartialEq)]
pub struct RunSummaryV2 {
    pub id: u128,
    pub start_time: i64,
    pub end_time: Option<i64>,
    /// The finished run's final duration, as `H:MM:SS`.
    pub final_time: Option<String>,
}

/// One history entry in the version-2 layout.
#[derive(Debug, Clone, PartialEq)]
pub struct HistoricalSplitV2 {
    pub run_id: u128,
    /// The recorded duration, as `H:MM:SS`.
    pub duration: String,
}

/// One checkpoint in the version-2 layout.
#[derive(Debug, Clone, PartialEq)]
pub struct SplitV2 {
    pub name: String,
    pub percent: u32,
    /// The personal best's duration here, as `H:MM:SS`.
    pub time: Option<String>,
    pub history: Vec<HistoricalSplitV2>,
}

/// The payload of a version-2 file.
#[derive(Debug, Clone, PartialEq)]
pub struct SplitsV2 {
    pub personal_best: Option<RunSummaryV2>,
    pub runs: Vec<RunSummaryV2>,
    pub splits: Vec<SplitV2>,
}

/// A whole version-2 file.
#[derive(Debug, Clone, PartialEq)]
pub struct SplitsFileV2 {
    pub version: u32,
    pub splits: SplitsV2,
}

/// The schema versions this library can read.
#[derive(Debug, Clone, Copy, PartialEq, Eq)]
pub enum SchemaVersion {
    V1,
    V2,
}

/// Decides which layout a file's version tag announces.  Exactly the tags
/// `1` and `2` are known; anything else is a fatal, unrecoverable load
/// error.
pub fn detect_version(version: u32) -> (r: Result<SchemaVersion, SplitsError>)
    ensures
        version == 1 ==> r == Ok::<_, SplitsError>(SchemaVersion::V1),
        version == 2 ==> r == Ok::<_, SplitsError>(SchemaVersion::V2),
        version != 1 && version != 2 ==> r == Err::<SchemaVersion, _>(
            SplitsError::UnsupportedVersion(version),
        ),
{
    if version == SPLITS_FILE_VERSION_V1 {
        Ok(SchemaVersion::V1)
    } else if version == SPLITS_FILE_VERSION_V2 {
        Ok(SchemaVersion::V2)
    } else {
        Err(SplitsError::UnsupportedVersion(version))
    }
}

/// Migrates a version-1 file to the version-2 layout: each split keeps its
/// name, percent, and best time, with an empty history; no runs and no
/// personal best exist yet.
pub fn migrate_v1(file: SplitsFileV1) -> (r: SplitsFileV2)
    ensures
        r.version == 2,
        r.splits.personal_best is None,
        r.splits.runs@ == Seq::<RunSummaryV2>::empty(),
        r.splits.splits@.len() == file.splits.splits@.len(),
        forall|i: int|
            0 <= i < file.splits.splits@.len() ==> {
                &&& (#[trigger] r.splits.splits@[i]).name == file.splits.splits@[i].name
                &&& r.splits.splits@[i].percent == file.splits.splits@[i].percent
                &&& r.splits.splits@[i].time == file.splits.splits@[i].duration
                &&& r.splits.splits@[i].history@ == Seq::<HistoricalSplitV2>::empty()
            },
{
    let mut splits: Vec<SplitV2> = Vec::new();
    let mut v1 = file.splits.splits;
    let ghost orig = v1@;
    proof {
        assert(orig.skip(0) =~= orig);
    }
    while v1.len() > 0
        invariant
            v1@ == orig.skip(orig.len() - v1@.len()),
            v1@.len() <= orig.len(),
            splits@.len() + v1@.len() == orig.len(),
            forall|i: int|
                0 <= i < splits@.len() ==> {
                    &&& (#[trigger] splits@[i]).name == orig[i].name
                    &&& splits@[i].percent == orig[i].percent
                    &&& splits@[i].time == orig[i].duration
                    &&& splits@[i].history@ == Seq::<HistoricalSplitV2>::empty()
                },
        decreases v1@.len(),
    {
        let ghost t = orig.len() - v1@.len();
        let s = v1.remove(0);
        proof {
            assert(orig.skip(t)[0] == orig[t]);
            assert(orig.skip(t).remove(0) =~= orig.skip(t + 1));
        }
        splits.push(SplitV2 { name: s.name, percent: s.percent, time: s.duration, history: Vec::new() });
    }
    SplitsFileV2 {
        version: SPLITS_FILE_VERSION_V2,
        splits: SplitsV2 { personal_best: None, runs: Vec::new(), splits },
    }
}

// ---------------------------------------------------------------------------
// Writing the current layout.
// ---------------------------------------------------------------------------
/// How a version-2 run record renders a run.
pub open spec fn run_to_v2_rel(r: RunSummary, v: RunSummaryV2) -> bool {
    &&& v.id == r.id
    &&& v.start_time == r.start_time
    &&& v.end_time == r.end_time
    &&& match (r.final_time, v.final_time) {
        (Some(d), Some(st)) => st@ == spec_format_hms(d as int),
        (None, None) => true,
        _ => false,
    }
}

/// How a version-2 history entry renders a history entry.
pub open spec fn hist_to_v2_rel(h: HistoricalSplit, v: HistoricalSplitV2) -> bool {
    v.run_id == h.run_id && v.duration@ == spec_format_hms(h.duration as int)
}

/// How a version-2 split renders a split.
pub open spec fn split_to_v2_rel(s: SplitView, v: SplitV2) -> bool {
    &&& v.name@ == s.name
    &&& v.percent == s.percent
    &&& match (s.time, v.time) {
        (Some(d), Some(st)) => st@ == spec_format_hms(d as int),
        (None, None) => true,
        _ => false,
    }
    &&& v.history@.len() == s.history.len()
    &&& forall|i: int| 0 <= i < s.history.len() ==> hist_to_v2_rel(s.history[i], #[trigger] v.history@[i])
}

/// How a version-2 file renders the aggregate.
pub open spec fn file_to_v2_rel(s: AggregateView, f: SplitsFileV2) -> bool {
    &&& f.version == 2
    &&& match (s.personal_best, f.splits.personal_best) {
        (Some(p), Some(v)) => run_to_v2_rel(p, v),
        (None, None) => true,
        _ => false,
    }
    &&& f.splits.runs@.len() == s.runs.len()
    &&& forall|i: int| 0 <= i < s.runs.len() ==> run_to_v2_rel(s.runs[i], #[trigger] f.splits.runs@[i])
    &&& f.splits.splits@.len() == s.splits.len()
    &&& forall|i: int|
        0 <= i < s.splits.len() ==> split_to_v2_rel(s.splits[i], #[trigger] f.splits.splits@[i])
}

/// Renders a run record.
pub fn run_to_v2(r: &RunSummary) -> (v: RunSummaryV2)
    ensures
        run_to_v2_rel(*r, v),
{
    RunSummaryV2 {
        id: r.id,
        start_time: r.start_time,
        end_time: r.end_time,
        final_time: match r.final_time {
            Some(d) => Some(format_hms(d)),
            None => None,
        },
    }
}

/// Renders one split with its history.
pub fn split_to_v2(s: &Split) -> (v: SplitV2)
    ensures
        split_to_v2_rel(s@, v),
{
    let mut history: Vec<HistoricalSplitV2> = Vec::new();
    let n = s.history.len();
    let mut i: usize = 0;
    while i < n
        invariant
            i <= n,
            n == s.history@.len(),
            history@.len() == i,
            forall|k: int|
                0 <= k < i ==> hist_to_v2_rel(s.history@[k], #[trigger] history@[k]),
        decreases n - i,
    {
        let h = s.history[i];
        history.push(HistoricalSplitV2 { run_id: h.run_id, duration: format_hms(h.duration) });
        i = i + 1;
    }
    SplitV2 {
        name: clone_string(&s.name),
        percent: s.percent,
        time: match s.time {
            Some(d) => Some(format_hms(d)),
            None => None,
        },
        history,
    }
}

/// A copy of a string with the same characters.
fn clone_string(s: &String) -> (r: String)
    ensures
        r@ == s@,
{
    s.clone()
}

impl Splits {
    /// Renders the whole aggregate in the current (version-2) layout.  The
    /// transient active run is never persisted.
    pub fn to_file_v2(&self) -> (f: SplitsFileV2)
        ensures
            file_to_v2_rel(self@, f),
    {
        let personal_best = match &self.personal_best {
            Some(p) => Some(run_to_v2(p)),
            None => None,
        };
        let mut runs: Vec<RunSummaryV2> = Vec::new();
        let n = self.runs.len();
        let mut i: usize = 0;
        while i < n
            invariant
                i <= n,
                n == self.runs@.len(),
                runs@.len() == i,
                forall|k: int| 0 <= k < i ==> run_to_v2_rel(self.runs@[k], #[trigger] runs@[k]),
            decreases n - i,
        {
            runs.push(run_to_v2(&self.runs[i]));
            i = i + 1;
        }
        let mut splits: Vec<SplitV2> = Vec::new();
        let m = self.splits.len();
        let mut k: usize = 0;
        while k < m
            invariant
                k <= m,
                m == self.splits@.len(),
                splits@.len() == k,
                forall|a: int|
                    0 <= a < k ==> split_to_v2_rel(self.splits@[a]@, #[trigger] splits@[a]),
            decreases m - k,
        {
            splits.push(split_to_v2(&self.splits[k]));
            k = k + 1;
        }
        proof {
            assert(forall|a: int|
                0 <= a < m ==> (#[trigger] self.splits@[a])@ == self@.splits[a]);
        }
        SplitsFileV2 {
            version: SPLITS_FILE_VERSION_V2,
            splits: SplitsV2 { personal_best, runs, splits },
        }
    }
}

// ---------------------------------------------------------------------------
// Reading the current layout.
// ---------------------------------------------------------------------------
/// Whether every duration string of the file parses.
pub open spec fn v2_wellformed(f: SplitsFileV2) -> bool {
    &&& match f.splits.personal_best {
        Some(v) => match v.final_time {
            Some(st) => spec_parse_hms(st@) is Some,
            None => true,
        },
        None => true,
    }
    &&& forall|i: int|
        0 <= i < f.splits.runs@.len() ==> match (#[trigger] f.splits.runs@[i]).final_time {
            Some(st) => spec_parse_hms(st@) is Some,
            None => true,
        }
    &&& forall|i: int|
        0 <= i < f.splits.splits@.len() ==> {
            &&& match (#[trigger] f.splits.splits@[i]).time {
                Some(st) => spec_parse_hms(st@) is Some,
                None => true,
            }
            &&& forall|j: int|
                0 <= j < f.splits.splits@[i].history@.len() ==> spec_parse_hms(
                    (#[trigger] f.splits.splits@[i].history@[j]).duration@,
                ) is Some
        }
}

/// The run a version-2 run record denotes (meaningful when well-formed).
pub open spec fn spec_run_from_v2(v: RunSummaryV2) -> RunSummary {
    RunSummary {
        id: v.id,
        start_time: v.start_time,
        end_time: v.end_time,
        final_time: match v.final_time {
            Some(st) => spec_parse_hms(st@),
            None => None,
        },
    }
}

/// The personal best a version-2 file denotes.
pub open spec fn spec_pb_from_v2(f: SplitsFileV2) -> Option<RunSummary> {
    match f.splits.personal_best {
        Some(v) => Some(spec_run_from_v2(v)),
        None => None,
    }
}

/// The run list a version-2 file denotes.
pub open spec fn spec_runs_from_v2(f: SplitsFileV2) -> Seq<RunSummary> {
    f.splits.runs@.map_values(|v: RunSummaryV2| spec_run_from_v2(v))
}

/// The split a version-2 split denotes (meaningful when well-formed).
pub open spec fn spec_split_from_v2(v: SplitV2) -> SplitView {
    SplitView {
        name: v.name@,
        percent: v.percent,
        time: match v.time {
            Some(st) => spec_parse_hms(st@),
            None => None,
        },
        history: v.history@.map_values(
            |h: HistoricalSplitV2|
                HistoricalSplit {
                    run_id: h.run_id,
                    duration: match spec_parse_hms(h.duration@) {
                        Some(d) => d,
                        None => 0,
                    },
                },
        ),
    }
}

/// The split list a version-2 file denotes.
pub open spec fn spec_splits_from_v2(f: SplitsFileV2) -> Seq<SplitView> {
    f.splits.splits@.map_values(|v: SplitV2| spec_split_from_v2(v))
}

/// Whether two of the file's splits share a percent.
pub open spec fn v2_has_dup_percent(f: SplitsFileV2) -> bool {
    exists|i: int, j: int|
        0 <= i < j < f.splits.splits@.len() && f.splits.splits@[i].percent
            == f.splits.splits@[j].percent
}

/// Whether two of the file's runs share an id.
pub open spec fn v2_has_dup_run_id(f: SplitsFileV2) -> bool {
    exists|i: int, j: int|
        0 <= i < j < f.splits.runs@.len() && f.splits.runs@[i].id == f.splits.runs@[j].id
}

/// Reads a run record, rejecting a malformed final time.
pub fn run_from_v2(v: RunSummaryV2) -> (r: Result<RunSummary, SplitsError>)
    ensures
        match r {
            Ok(run) => (match v.final_time {
                Some(st) => spec_parse_hms(st@) is Some,
                None => true,
            }) && run == spec_run_from_v2(v),
            Err(e) => e == SplitsError::MalformedDuration && (match v.final_time {
                Some(st) => spec_parse_hms(st@) is None,
                None => false,
            }),
        },
{
    let final_time = match v.final_time {
        Some(st) => {
            match parse_hms(st.as_str()) {
                Ok(d) => Some(d),
                Err(e) => {
                    return Err(e);
                },
            }
        },
        None => None,
    };
    Ok(RunSummary { id: v.id, start_time: v.start_time, end_time: v.end_time, final_time })
}

/// Reads one split with its history, rejecting any malformed duration.
pub fn split_from_v2(v: SplitV2) -> (r: Result<Split, SplitsError>)
    ensures
        match r {
            Ok(s) => {
                &&& (match v.time {
                    Some(st) => spec_parse_hms(st@) is Some,
                    None => true,
                })
                &&& forall|j: int|
                    0 <= j < v.history@.len() ==> spec_parse_hms(
                        (#[trigger] v.history@[j]).duration@,
                    ) is Some
                &&& s@ == spec_split_from_v2(v)
            },
            Err(e) => {
                &&& e == SplitsError::MalformedDuration
                &&& ((match v.time {
                    Some(st) => spec_parse_hms(st@) is None,
                    None => false,
                }) || exists|j: int|
                    0 <= j < v.history@.len() && spec_parse_hms(
                        (#[trigger] v.history@[j]).duration@,
                    ) is None)
            },
        },
{
    let ghost vg = v;
    let time = match &v.time {
        Some(st) => {
            match parse_hms(st.as_str()) {
                Ok(d) => Some(d),
                Err(e) => {
                    return Err(e);
                },
            }
        },
        None => None,
    };
    let mut history: Vec<HistoricalSplit> = Vec::new();
    let n = v.history.len();
    let mut j: usize = 0;
    while j < n
        invariant
            j <= n,
            n == v.history@.len(),
            history@.len() == j,
            forall|a: int|
                0 <= a < j ==> {
                    &&& spec_parse_hms((#[trigger] v.history@[a]).duration@) is Some
                    &&& history@[a] == (HistoricalSplit {
                        run_id: v.history@[a].run_id,
                        duration: match spec_parse_hms(v.history@[a].duration@) {
                            Some(d) => d,
                            None => 0,
                        },
                    })
                },
        decreases n - j,
    {
        let h = &v.history[j];
        match parse_hms(h.duration.as_str()) {
            Ok(d) => {
                history.push(HistoricalSplit { run_id: h.run_id, duration: d });
            },
            Err(e) => {
                return Err(e);
            },
        }
        j = j + 1;
    }
    let s = Split { name: v.name, percent: v.percent, time, history };
    proof {
        assert(s@.history =~= spec_split_from_v2(vg).history);
        assert(s@ =~= spec_split_from_v2(vg));
    }
    Ok(s)
}

/// Reads a version-2 file into a validated aggregate.  Fatal failures are a
/// malformed duration string, a duplicated split percent, and a duplicated
/// run id; everything else is repaired by validation.  The active run is
/// never read from disk: a fresh load has none.
pub fn from_file_v2(f: SplitsFileV2, path: String) -> (r: Result<Splits, SplitsError>)
    ensures
        r is Ok <==> v2_wellformed(f) && !v2_has_dup_percent(f) && !v2_has_dup_run_id(f),
        match r {
            Ok(s) => {
                &&& s@.valid()
                &&& s.path == Some(path)
                &&& s@.active_run is None
                &&& s@.personal_best == spec_pb_from_v2(f)
                &&& s@.splits.len() == f.splits.splits@.len()
                &&& match spec_pb_from_v2(f) {
                    Some(p) => if find_run_idx(spec_runs_from_v2(f), p.id) >= 0 {
                        s@.runs.to_multiset() == spec_runs_from_v2(f).to_multiset()
                    } else {
                        s@.runs.to_multiset() == spec_runs_from_v2(f).push(p).to_multiset()
                    },
                    None => s@.runs.to_multiset() == spec_runs_from_v2(f).to_multiset(),
                }
                &&& (AggregateView {
                    active_run: None,
                    personal_best: spec_pb_from_v2(f),
                    runs: spec_runs_from_v2(f),
                    splits: spec_splits_from_v2(f),
                }).valid() ==> s@.runs == spec_runs_from_v2(f) && s@.splits == spec_splits_from_v2(
                    f,
                )
            },
            Err(e) => {
                &&& (e == SplitsError::MalformedDuration <==> !v2_wellformed(f))
                &&& (e == SplitsError::DuplicatePercent ==> v2_wellformed(f) && v2_has_dup_percent(
                    f,
                ))
                &&& (e == SplitsError::DuplicateRunId ==> v2_wellformed(f) && !v2_has_dup_percent(
                    f,
                ) && v2_has_dup_run_id(f))
                &&& (e == SplitsError::MalformedDuration || e == SplitsError::DuplicatePercent || e
                    == SplitsError::DuplicateRunId)
            },
        },
{
    let ghost fg = f;
    let personal_best = match f.splits.personal_best {
        Some(v) => {
            match run_from_v2(v) {
                Ok(run) => Some(run),
                Err(e) => {
                    return Err(e);
                },
            }
        },
        None => None,
    };
    let mut runs: Vec<RunSummary> = Vec::new();
    let mut runs_v2 = f.splits.runs;
    let ghost runs_orig = runs_v2@;
    proof {
        assert(runs_orig.skip(0) =~= runs_orig);
    }
    while runs_v2.len() > 0
        invariant
            fg == f,
            runs_orig == fg.splits.runs@,
            runs_v2@ == runs_orig.skip(runs_orig.len() - runs_v2@.len()),
            runs_v2@.len() <= runs_orig.len(),
            runs@.len() + runs_v2@.len() == runs_orig.len(),
            forall|i: int|
                0 <= i < runs@.len() ==> (match (#[trigger] runs_orig[i]).final_time {
                    Some(st) => spec_parse_hms(st@) is Some,
                    None => true,
                }) && runs@[i] == spec_run_from_v2(runs_orig[i]),
        decreases runs_v2@.len(),
    {
        let ghost t = runs_orig.len() - runs_v2@.len();
        let v = runs_v2.remove(0);
        proof {
            assert(runs_orig.skip(t)[0] == runs_orig[t]);
            assert(runs_orig.skip(t).remove(0) =~= runs_orig.skip(t + 1));
        }
        match run_from_v2(v) {
            Ok(run) => {
                runs.push(run);
            },
            Err(e) => {
                proof {
                    assert(fg.splits.runs@[t] == v);
                    assert(!v2_wellformed(fg)) by {
                        if v2_wellformed(fg) {
                            assert(match (#[trigger] fg.splits.runs@[t]).final_time {
                                Some(st) => spec_parse_hms(st@) is Some,
                                None => true,
                            });
                        }
                    }
                }
                return Err(e);
            },
        }
    }
    let mut splits: Vec<Split> = Vec::new();
    let mut splits_v2 = f.splits.splits;
    let ghost splits_orig = splits_v2@;
    proof {
        assert(splits_orig.skip(0) =~= splits_orig);
    }
    while splits_v2.len() > 0
        invariant
            fg == f,
            splits_orig == fg.splits.splits@,
            splits_v2@ == splits_orig.skip(splits_orig.len() - splits_v2@.len()),
            splits_v2@.len() <= splits_orig.len(),
            splits@.len() + splits_v2@.len() == splits_orig.len(),
            forall|i: int|
                0 <= i < splits@.len() ==> {
                    &&& (match (#[trigger] splits_orig[i]).time {
                        Some(st) => spec_parse_hms(st@) is Some,
                        None => true,
                    })
                    &&& (forall|j: int|
                        0 <= j < splits_orig[i].history@.len() ==> spec_parse_hms(
                            (#[trigger] splits_orig[i].history@[j]).duration@,
                        ) is Some)
                    &&& splits@[i]@ == spec_split_from_v2(splits_orig[i])
                },
        decreases splits_v2@.len(),
    {
        let ghost t = splits_orig.len() - splits_v2@.len();
        let v = splits_v2.remove(0);
        proof {
            assert(splits_orig.skip(t)[0] == splits_orig[t]);
            assert(splits_orig.skip(t).remove(0) =~= splits_orig.skip(t + 1));
        }
        match split_from_v2(v) {
            Ok(s) => {
                splits.push(s);
            },
            Err(e) => {
                proof {
                    assert(fg.splits.splits@[t] == v);
                    assert(!v2_wellformed(fg)) by {
                        if v2_wellformed(fg) {
                            assert(match (#[trigger] fg.splits.splits@[t]).time {
                                Some(st) => spec_parse_hms(st@) is Some,
                                None => true,
                            });
                            assert(forall|j: int|
                                0 <= j < fg.splits.splits@[t].history@.len() ==> spec_parse_hms(
                                    (#[trigger] fg.splits.splits@[t].history@[j]).duration@,
                                ) is Some);
                        }
                    }
                }
                return Err(e);
            },
        }
    }
    proof {
        assert(v2_wellformed(fg));
        assert(runs@ =~= spec_runs_from_v2(fg));
        assert(splits@.map_values(|x: Split| x@) =~= spec_splits_from_v2(fg));
        assert(forall|i: int|
            0 <= i < splits@.len() ==> (#[trigger] splits@[i]).percent
                == fg.splits.splits@[i].percent);
        assert(forall|i: int|
            0 <= i < runs@.len() ==> (#[trigger] runs@[i]).id == fg.splits.runs@[i].id);
        assert(crate::validate::has_dup_percent(splits@) <==> v2_has_dup_percent(fg)) by {
            if crate::validate::has_dup_percent(splits@) {
                let (i, j): (int, int) = choose|i: int, j: int|
                    0 <= i < j < splits@.len() && splits@[i].percent == splits@[j].percent;
                assert(fg.splits.splits@[i].percent == fg.splits.splits@[j].percent);
            }
            if v2_has_dup_percent(fg) {
                let (i, j): (int, int) = choose|i: int, j: int|
                    0 <= i < j < fg.splits.splits@.len() && fg.splits.splits@[i].percent
                        == fg.splits.splits@[j].percent;
                assert(splits@[i].percent == splits@[j].percent);
            }
        }
        assert(crate::validate::has_dup_run_id(runs@) <==> v2_has_dup_run_id(fg)) by {
            if crate::validate::has_dup_run_id(runs@) {
                let (i, j): (int, int) = choose|i: int, j: int|
                    0 <= i < j < runs@.len() && runs@[i].id == runs@[j].id;
                assert(fg.splits.runs@[i].id == fg.splits.runs@[j].id);
            }
            if v2_has_dup_run_id(fg) {
                let (i, j): (int, int) = choose|i: int, j: int|
                    0 <= i < j < fg.splits.runs@.len() && fg.splits.runs@[i].id
                        == fg.splits.runs@[j].id;
                assert(runs@[i].id == runs@[j].id);
            }
        }
    }
    Splits::create_with_history(path, personal_best, runs, splits)
}

/// Formatting any duration and reparsing it yields the duration back.
pub proof fn lemma_format_parse_round_trip(d: u64)
    ensures
        spec_parse_hms(spec_format_hms(d as int)) == Some(d),
{
    let h = d / 3600;
    let m = (d % 3600) / 60;
    let s = d % 60;
    assert(m < 60 && s < 60 && h * 3600 + m * 60 + s == d) by (nonlinear_arith)
        requires
            h == d / 3600,
            m == (d % 3600) / 60,
            s == d % 60,
            d >= 0,
    ;
    crate::codec::lemma_hms_round_trip(h, m, s);
}

/// Round trip of the persistence layout: rendering a valid aggregate in the
/// version-2 layout and reading the rendering back yields an aggregate with
/// the same splits, runs, and personal best.  The requires state exactly
/// what `to_file_v2` ensures of its rendering `f` and what `from_file_v2`
/// ensures of its result `t`.
pub proof fn lemma_v2_round_trip(s: Splits, f: SplitsFileV2, t: Splits)
    requires
        s@.valid(),
        file_to_v2_rel(s@, f),
        t@.personal_best == spec_pb_from_v2(f),
        (AggregateView {
            active_run: None,
            personal_best: spec_pb_from_v2(f),
            runs: spec_runs_from_v2(f),
            splits: spec_splits_from_v2(f),
        }).valid() ==> t@.runs == spec_runs_from_v2(f) && t@.splits == spec_splits_from_v2(f),
    ensures
        t@.personal_best == s@.personal_best,
        t@.runs == s@.runs,
        t@.splits == s@.splits,
{
    // The personal best reads back unchanged.
    assert(spec_pb_from_v2(f) == s@.personal_best) by {
        match (s@.personal_best, f.splits.personal_best) {
            (Some(p), Some(v)) => {
                match p.final_time {
                    Some(d) => {
                        lemma_format_parse_round_trip(d);
                    },
                    None => {},
                }
                assert(spec_run_from_v2(v) == p);
            },
            _ => {},
        }
    }
    // Every run reads back unchanged.
    assert(spec_runs_from_v2(f) =~= s@.runs) by {
        assert forall|i: int| 0 <= i < s@.runs.len() implies spec_runs_from_v2(f)[i]
            == s@.runs[i] by {
            let p = s@.runs[i];
            let v = f.splits.runs@[i];
            match p.final_time {
                Some(d) => {
                    lemma_format_parse_round_trip(d);
                },
                None => {},
            }
            assert(spec_run_from_v2(v) == p);
        }
    }
    // Every split, with its whole history, reads back unchanged.
    assert(spec_splits_from_v2(f) =~= s@.splits) by {
        assert forall|i: int| 0 <= i < s@.splits.len() implies spec_splits_from_v2(f)[i]
            == s@.splits[i] by {
            let p = s@.splits[i];
            let v = f.splits.splits@[i];
            match p.time {
                Some(d) => {
                    lemma_format_parse_round_trip(d);
                },
                None => {},
            }
            assert(spec_split_from_v2(v).history =~= p.history) by {
                assert forall|j: int| 0 <= j < p.history.len() implies spec_split_from_v2(
                    v,
                ).history[j] == p.history[j] by {
                    lemma_format_parse_round_trip(p.history[j].duration);
                    assert(hist_to_v2_rel(p.history[j], v.history@[j]));
                }
            }
            assert(spec_split_from_v2(v) =~= p);
        }
    }
    // What was read therefore satisfies every invariant, and the reader's
    // identity guarantee applies.
    let a = AggregateView {
        active_run: None,
        personal_best: spec_pb_from_v2(f),
        runs: spec_runs_from_v2(f),
        splits: spec_splits_from_v2(f),
    };
    assert(a.valid());
}

} // verus!
