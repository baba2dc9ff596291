//! Tests of the duration codec, the versioned layouts, the migration, and
//! the conversions between the aggregate and the on-disk representation.

use split_tracker::codec::format_hms;
use split_tracker::codec::parse_hms;
use split_tracker::model::HistoricalSplit;
use split_tracker::model::RunSummary;
use split_tracker::model::Split;
use split_tracker::model::Splits;
use split_tracker::schema::detect_version;
use split_tracker::schema::from_file_v2;
use split_tracker::schema::migrate_v1;
use split_tracker::schema::run_from_v2;
use split_tracker::schema::run_to_v2;
use split_tracker::schema::split_from_v2;
use split_tracker::schema::split_to_v2;
use split_tracker::schema::HistoricalSplitV2;
use split_tracker::schema::RunSummaryV2;
use split_tracker::schema::SchemaVersion;
use split_tracker::schema::SplitV1;
use split_tracker::schema::SplitV2;
use split_tracker::schema::SplitsFileV1;
use split_tracker::schema::SplitsFileV2;
use split_tracker::schema::SplitsV1;
use split_tracker::schema::SplitsV2;
use split_tracker::SplitsError;

const NOW_MS: i64 = 1_700_000_000_000;

// ---------------------------------------------------------------------------
// Duration codec.
// ---------------------------------------------------------------------------
#[test]
fn format_hms_renders_exact_strings() {
    assert_eq!(format_hms(0), "0:00:00");
    assert_eq!(format_hms(10 * 60), "0:10:00");
    assert_eq!(format_hms(3600 + 37 * 60 + 48), "1:37:48");
    assert_eq!(format_hms(123 * 3600 + 45 * 60 + 59), "123:45:59");
}

#[test]
fn parse_hms_reads_exact_values() {
    assert_eq!(parse_hms("0:10:00"), Ok(600));
    assert_eq!(parse_hms("1:00:00"), Ok(3600));
    assert_eq!(parse_hms("123:45:59"), Ok(123 * 3600 + 45 * 60 + 59));
    // The standard integer parser is lenient about digit counts.
    assert_eq!(parse_hms("1:2:3"), Ok(3600 + 2 * 60 + 3));
}

#[test]
fn parse_hms_rejects_wrong_token_count_and_ranges() {
    assert_eq!(parse_hms("1h5m"), Err(SplitsError::MalformedDuration));
    assert_eq!(parse_hms("1:65:90"), Err(SplitsError::MalformedDuration));
    assert_eq!(parse_hms(""), Err(SplitsError::MalformedDuration));
    assert_eq!(parse_hms("59:01"), Err(SplitsError::MalformedDuration));
    assert_eq!(parse_hms("1:02:03:04"), Err(SplitsError::MalformedDuration));
    assert_eq!(parse_hms("1:60:00"), Err(SplitsError::MalformedDuration));
    assert_eq!(parse_hms("1:00:60"), Err(SplitsError::MalformedDuration));
    assert_eq!(parse_hms("x:00:00"), Err(SplitsError::MalformedDuration));
}

#[test]
fn duration_codec_round_trips() {
    for &secs in &[
        0u64,
        1,
        59,
        60,
        3599,
        3600,
        3661,
        86_399,
        86_400,
        123 * 3600 + 45 * 60 + 59,
        u64::MAX,
    ] {
        assert_eq!(parse_hms(&format_hms(secs)), Ok(secs));
    }
}

// ---------------------------------------------------------------------------
// Version detection and migration.
// ---------------------------------------------------------------------------
#[test]
fn detects_known_versions() {
    assert_eq!(detect_version(1), Ok(SchemaVersion::V1));
    assert_eq!(detect_version(2), Ok(SchemaVersion::V2));
}

#[test]
fn load_rejects_maximum_version() {
    let result = detect_version(u32::MAX);
    assert_eq!(result, Err(SplitsError::UnsupportedVersion(u32::MAX)));
}

#[test]
fn test_migrate_v1_to_v2_basic() {
    // Set up a minimal V1 splits file
    let v1 = SplitsFileV1 {
        version: 1,
        splits: SplitsV1 {
            splits: vec![
                SplitV1 {
                    name: "Split 1".to_string(),
                    percent: 50,
                    duration: Some("0:00:30".to_string()),
                },
                SplitV1 {
                    name: "Split 2".to_string(),
                    percent: 100,
                    duration: Some("0:01:00".to_string()),
                },
            ],
        },
    };

    // Perform migration
    let v2: SplitsFileV2 = migrate_v1(v1.clone());

    // Assertions
    assert_eq!(v2.version, 2, "v2 version should be 2");
    assert!(
        v2.splits.personal_best.is_none(),
        "personal_best should be None"
    );
    assert!(v2.splits.runs.is_empty(), "runs should be empty");
    assert_eq!(
        v2.splits.splits.len(),
        v1.splits.splits.len(),
        "v1 and v2 splits should have equal length"
    );

    for (split_v2, split_v1) in v2.splits.splits.iter().zip(v1.splits.splits) {
        assert_eq!(split_v2.name, split_v1.name);
        assert_eq!(split_v2.percent, split_v1.percent);
        assert_eq!(split_v2.time, split_v1.duration);
        assert!(split_v2.history.is_empty(), "history should be empty");
    }
}

#[test]
fn migrated_v1_file_loads_into_aggregate() {
    // A version-1 file with one split at 10% and a ten-minute best.
    let v1 = SplitsFileV1 {
        version: 1,
        splits: SplitsV1 {
            splits: vec![SplitV1 {
                name: "Level 1".to_string(),
                percent: 10,
                duration: Some("0:10:00".to_string()),
            }],
        },
    };

    // After migration the split keeps its ten-minute best, with an empty
    // history, no personal best, and no runs.
    let migrated = migrate_v1(v1);
    assert_eq!(migrated.splits.splits.len(), 1);
    assert_eq!(migrated.splits.splits[0].percent, 10);
    assert_eq!(migrated.splits.splits[0].time, Some("0:10:00".to_string()));
    assert_eq!(parse_hms("0:10:00"), Ok(600));
    assert!(migrated.splits.splits[0].history.is_empty());
    assert!(migrated.splits.personal_best.is_none());
    assert!(migrated.splits.runs.is_empty());

    // Validation then recomputes every split time from the personal best;
    // with none on record, the migrated baseline is cleared.
    let loaded = from_file_v2(migrated, "splits.json".to_string())
        .expect("migrated file should load");

    assert_eq!(loaded.splits().len(), 1);
    assert_eq!(loaded.splits()[0].name, "Level 1");
    assert_eq!(loaded.splits()[0].percent, 10);
    assert_eq!(loaded.splits()[0].time, None);
    assert!(loaded.splits()[0].history.is_empty());
    assert_eq!(loaded.personal_best(), None);
    assert!(loaded.runs().is_empty());
    assert_eq!(loaded.active_run(), None);
    assert_eq!(loaded.path(), Some(&"splits.json".to_string()));
}

// ---------------------------------------------------------------------------
// Conversions between the aggregate and the version-2 layout.
// ---------------------------------------------------------------------------
#[test]
fn run_summary_to_v2_and_back() {
    let run = RunSummary {
        id: 7,
        start_time: NOW_MS - 100_000,
        end_time: Some(NOW_MS),
        final_time: Some(50),
    };

    let v2: RunSummaryV2 = run_to_v2(&run);
    let restored: RunSummary = run_from_v2(v2).expect("rendered run should read back");

    assert_eq!(restored, run);
}

#[test]
fn historical_split_to_v2_and_back() {
    let hist = HistoricalSplit {
        run_id: 8,
        duration: 123,
    };

    // History entries travel inside their split.
    let split = Split {
        name: "Test".to_string(),
        percent: 75,
        time: None,
        history: vec![hist],
    };
    let v2: SplitV2 = split_to_v2(&split);
    assert_eq!(v2.history.len(), 1);
    assert_eq!(v2.history[0].run_id, 8);
    assert_eq!(v2.history[0].duration, "0:02:03");
    let restored: Split = split_from_v2(v2).expect("rendered split should read back");

    assert_eq!(restored.history, vec![hist]);
}

#[test]
fn split_to_v2_and_back() {
    let split = Split {
        name: "Test".to_string(),
        percent: 75,
        time: Some(200),
        history: vec![HistoricalSplit {
            run_id: 9,
            duration: 150,
        }],
    };

    let v2: SplitV2 = split_to_v2(&split);
    let restored: Split = split_from_v2(v2).expect("rendered split should read back");

    assert_eq!(restored, split);
}

#[test]
fn runtime_to_v2_and_back_preserves_data() {
    // Create a sample aggregate with all persistable fields filled
    let run_id: u128 = 55;
    let run_summary = RunSummary {
        id: run_id,
        start_time: NOW_MS - 1234_000,
        end_time: Some(NOW_MS),
        final_time: Some(567),
    };

    let history = vec![
        HistoricalSplit {
            run_id: 56,
            duration: 678,
        },
        HistoricalSplit {
            run_id,
            duration: 567,
        },
    ];

    let splits = Splits::create_with_history(
        "/tmp/fake.json".to_string(),
        Some(run_summary),
        vec![run_summary],
        vec![Split {
            name: "Test Split".to_string(),
            percent: 50,
            time: Some(567),
            history,
        }],
    )
    .expect("aggregate should be valid");

    // Round-trip
    let file_v2: SplitsFileV2 = splits.to_file_v2();
    let restored = from_file_v2(file_v2, "/tmp/fake.json".to_string())
        .expect("rendered aggregate should read back");

    // Check equality
    assert_eq!(restored.personal_best(), splits.personal_best());
    assert_eq!(restored.runs(), splits.runs());
    assert_eq!(restored.splits(), splits.splits());
}

#[test]
fn from_file_v2_rejects_malformed_duration() {
    let file = SplitsFileV2 {
        version: 2,
        splits: SplitsV2 {
            personal_best: None,
            runs: vec![],
            splits: vec![SplitV2 {
                name: "Broken".to_string(),
                percent: 10,
                time: Some("1h5m".to_string()),
                history: vec![],
            }],
        },
    };
    let result = from_file_v2(file, "p".to_string());
    assert_eq!(result, Err(SplitsError::MalformedDuration));
}

#[test]
fn from_file_v2_rejects_duplicate_percent() {
    let mk = |name: &str| SplitV2 {
        name: name.to_string(),
        percent: 50,
        time: None,
        history: vec![],
    };
    let file = SplitsFileV2 {
        version: 2,
        splits: SplitsV2 {
            personal_best: None,
            runs: vec![],
            splits: vec![mk("A"), mk("B")],
        },
    };
    let result = from_file_v2(file, "p".to_string());
    assert_eq!(result, Err(SplitsError::DuplicatePercent));
}

#[test]
fn from_file_v2_rejects_duplicate_run_id() {
    let mk = || RunSummaryV2 {
        id: 4,
        start_time: NOW_MS,
        end_time: None,
        final_time: None,
    };
    let file = SplitsFileV2 {
        version: 2,
        splits: SplitsV2 {
            personal_best: None,
            runs: vec![mk(), mk()],
            splits: vec![],
        },
    };
    let result = from_file_v2(file, "p".to_string());
    assert_eq!(result, Err(SplitsError::DuplicateRunId));
}

#[test]
fn from_file_v2_repairs_history_entry_against_final_time() {
    // The last split's recorded duration disagrees with the run's final
    // time; loading repairs it in place.
    let file = SplitsFileV2 {
        version: 2,
        splits: SplitsV2 {
            personal_best: None,
            runs: vec![RunSummaryV2 {
                id: 5,
                start_time: NOW_MS,
                end_time: Some(NOW_MS + 45_000),
                final_time: Some("0:00:45".to_string()),
            }],
            splits: vec![SplitV2 {
                name: "Final".to_string(),
                percent: 100,
                time: None,
                history: vec![HistoricalSplitV2 {
                    run_id: 5,
                    duration: "0:00:30".to_string(),
                }],
            }],
        },
    };
    let loaded = from_file_v2(file, "p".to_string()).expect("should load");
    assert_eq!(loaded.splits()[0].history.len(), 1);
    assert_eq!(loaded.splits()[0].history[0].duration, 45);
}

#[test]
fn empty_splits_list_is_valid() {
    let splits = Splits::create("p".to_string(), vec![]).expect("empty split set is valid");
    assert!(splits.splits().is_empty());
}

#[test]
fn parse_hms_accepts_standard_plus_sign() {
    // The standard unsigned parser tolerates one leading plus per number.
    assert_eq!(parse_hms("+1:02:03"), Ok(3600 + 2 * 60 + 3));
    assert_eq!(parse_hms("++1:02:03"), Err(SplitsError::MalformedDuration));
}
