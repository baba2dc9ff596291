//! Tests of the aggregate's validation and of the run-lifecycle engine.

use split_tracker::in_game_time::InGameTime;
use split_tracker::model::ActiveRun;
use split_tracker::model::HistoricalSplit;
use split_tracker::model::RunSummary;
use split_tracker::model::Split;
use split_tracker::model::Splits;

fn make_ingame_time(percent: u32, hours: u64, minutes: u64, secs: u64) -> InGameTime {
    InGameTime {
        percent,
        duration: hours * 3600 + minutes * 60 + secs,
    }
}

/// A fixed wall-clock base for tests that need timestamps, in milliseconds.
const NOW_MS: i64 = 1_700_000_000_000;

#[test]
fn new_splits_is_empty() {
    let splits = Splits::new();
    assert!(splits.splits().is_empty());
}

#[test]
fn validate_splits_are_sorted_by_percentage() {
    let split1 = Split {
        name: "C".to_string(),
        percent: 75,
        time: None,
        history: vec![],
    };
    let split2 = Split {
        name: "A".to_string(),
        percent: 25,
        time: None,
        history: vec![],
    };
    let split3 = Split {
        name: "B".to_string(),
        percent: 50,
        time: None,
        history: vec![],
    };

    let splits = Splits::create("dummy_path".to_string(), vec![split1, split2, split3])
        .expect("splits should be valid");

    let percents: Vec<u32> = splits.splits().iter().map(|s| s.percent).collect();

    assert_eq!(percents, vec![25, 50, 75]);
}

#[test]
fn validate_fails_on_duplicate_percents() {
    let path = "dummy_path".to_string();

    // Two splits with the same percent (50)
    let splits = vec![
        Split {
            name: "First".to_string(),
            percent: 50,
            time: None,
            history: Vec::new(),
        },
        Split {
            name: "Second".to_string(),
            percent: 50,
            time: None,
            history: Vec::new(),
        },
    ];

    let result = Splits::create(path, splits);
    assert!(
        result.is_err(),
        "Expected create() to fail due to duplicate percents"
    );
    assert_eq!(result, Err(split_tracker::SplitsError::DuplicatePercent));
}

#[test]
fn validate_fails_on_duplicate_run_ids() {
    let duplicate_id: u128 = 77;

    let runs = vec![
        RunSummary {
            id: duplicate_id,
            start_time: NOW_MS - 60 * 60 * 1000,
            end_time: None,
            final_time: None,
        },
        RunSummary {
            id: duplicate_id, // duplicate
            start_time: NOW_MS,
            end_time: None,
            final_time: None,
        },
    ];

    let result =
        Splits::create_with_history("dummy_path".to_string(), None, runs, Vec::new());
    assert!(
        result.is_err(),
        "Expected create() to fail due to duplicate run IDs"
    );
    assert_eq!(result, Err(split_tracker::SplitsError::DuplicateRunId));
}

#[test]
fn validate_adds_missing_personal_best_run() {
    let pb_run = RunSummary {
        id: 1,
        start_time: NOW_MS - 60 * 60 * 1000,
        end_time: Some(NOW_MS),
        final_time: Some(45 * 60 + 15),
    };

    // `runs` does not contain the PB run yet
    let runs = vec![];

    let splits = Splits::create_with_history(
        "dummy_path".to_string(),
        Some(pb_run), // PB is set
        runs,
        Vec::new(),
    )
    .expect("create() should succeed by fixing up missing PB run");

    // The PB run must now exist in runs
    let found = splits
        .runs()
        .iter()
        .find(|r| r.id == pb_run.id)
        .expect("Expected PB run to be added");

    // It should be exactly the same as the PB run
    assert_eq!(
        found, &pb_run,
        "PB run in runs must match personal_best exactly"
    );
}

#[test]
fn validate_sorts_history_entries_by_run_order() {
    let run_a = RunSummary {
        id: 10,
        start_time: NOW_MS - 300_000,
        end_time: Some(NOW_MS - 200_000),
        final_time: Some(105),
    };
    let run_b = RunSummary {
        id: 11,
        start_time: NOW_MS - 200_000,
        end_time: Some(NOW_MS - 100_000),
        final_time: Some(100),
    };
    let run_c = RunSummary {
        id: 12,
        start_time: NOW_MS - 100_000,
        end_time: Some(NOW_MS),
        final_time: Some(95),
    };

    let runs = vec![run_a, run_b, run_c];

    // History deliberately out of order
    let split = Split {
        name: "Split".to_string(),
        percent: 50,
        time: None,
        history: vec![
            HistoricalSplit {
                run_id: run_c.id,
                duration: 95,
            },
            HistoricalSplit {
                run_id: run_a.id,
                duration: 105,
            },
            HistoricalSplit {
                run_id: run_b.id,
                duration: 100,
            },
        ],
    };

    let splits = Splits::create_with_history("dummy_path".to_string(), None, runs, vec![split])
        .expect("create() should succeed");

    let sorted_history_ids: Vec<u128> =
        splits.splits()[0].history.iter().map(|h| h.run_id).collect();

    assert_eq!(
        sorted_history_ids,
        vec![run_a.id, run_b.id, run_c.id],
        "History entries must be sorted according to run order"
    );
}

#[test]
fn validate_deduplicates_history_last_one_wins() {
    let run = RunSummary {
        id: 20,
        start_time: NOW_MS - 100_000,
        end_time: Some(NOW_MS),
        final_time: Some(100),
    };

    // Split with multiple entries for the same run
    let splits = vec![
        Split {
            name: "First Split".to_string(),
            percent: 50,
            time: None,
            history: vec![
                HistoricalSplit {
                    run_id: run.id,
                    duration: 10,
                },
                HistoricalSplit {
                    run_id: run.id,
                    duration: 20,
                },
                HistoricalSplit {
                    run_id: run.id,
                    duration: 15,
                },
            ],
        },
        Split {
            name: "Final Split".to_string(),
            percent: 100,
            time: None,
            history: vec![],
        },
    ];

    let splits = Splits::create_with_history("dummy_path".to_string(), None, vec![run], splits)
        .expect("create_with_history() should succeed");

    // After deduplication, only the "last one" (largest duration) should remain
    let remaining = &splits.splits()[0].history;
    assert_eq!(remaining.len(), 1);
    assert_eq!(remaining[0].run_id, run.id);
    assert_eq!(remaining[0].duration, 20);
}

#[test]
fn validate_final_split_only_updates_last_split() {
    let run = RunSummary {
        id: 30,
        start_time: NOW_MS - 120_000,
        end_time: Some(NOW_MS),
        final_time: Some(120),
    };

    // Early split that should remain untouched
    let early_split = Split {
        name: "Early".to_string(),
        percent: 50,
        time: None,
        history: vec![HistoricalSplit {
            run_id: run.id,
            duration: 60,
        }],
    };

    // Final split with a wrong duration
    let final_split = Split {
        name: "Final".to_string(),
        percent: 100,
        time: None,
        history: vec![HistoricalSplit {
            run_id: run.id,
            duration: 90,
        }],
    };

    let splits = Splits::create_with_history(
        "dummy_path".to_string(),
        None,
        vec![run],
        vec![early_split, final_split],
    )
    .expect("create_with_history() should succeed");

    // Check final split is fixed
    let last = &splits.splits()[1].history.last().unwrap();
    assert_eq!(
        last.duration,
        run.final_time.unwrap(),
        "Final split duration must match run final_time"
    );

    // Check early split is untouched
    let early = &splits.splits()[0].history.last().unwrap();
    assert_eq!(
        early.duration, 60,
        "Early split duration should remain unchanged"
    );
}

#[test]
fn validate_sorts_unknown_run_ids_to_start() {
    let known_run = RunSummary {
        id: 40,
        start_time: NOW_MS,
        end_time: Some(NOW_MS + 5_000),
        final_time: Some(5),
    };

    // A history entry with an unknown run id
    let unknown_run_id: u128 = 41;

    let split = Split {
        name: "Split".to_string(),
        percent: 50,
        time: None,
        history: vec![
            HistoricalSplit {
                run_id: known_run.id,
                duration: 5,
            },
            HistoricalSplit {
                run_id: unknown_run_id,
                duration: 99,
            },
        ],
    };

    let splits = Splits::create_with_history(
        "dummy_path".to_string(),
        None,
        vec![known_run],
        vec![split],
    )
    .expect("create_with_history() should succeed");

    // After validate, unknown IDs should come first
    let history = &splits.splits()[0].history;
    assert_eq!(history.len(), 2);
    assert_eq!(history[0].run_id, unknown_run_id);
    assert_eq!(history[1].run_id, known_run.id);
}

#[test]
fn validate_final_split_inserts_missing_historical_split() {
    let run = RunSummary {
        id: 50,
        start_time: NOW_MS - 60_000,
        end_time: Some(NOW_MS),
        final_time: Some(45),
    };

    // Final split is missing history
    let final_split = Split {
        name: "Final".to_string(),
        percent: 100,
        time: None,
        history: vec![],
    };

    let splits = Splits::create_with_history(
        "dummy_path".to_string(),
        None,
        vec![run],
        vec![final_split],
    )
    .expect("create_with_history() should succeed");

    let history = &splits.splits()[0].history;
    assert_eq!(history.len(), 1);
    assert_eq!(history[0].run_id, run.id);
    assert_eq!(history[0].duration, run.final_time.unwrap());
}

#[test]
fn validate_sorts_runs_by_start_time() {
    let run1 = RunSummary {
        id: 60,
        start_time: NOW_MS - 60_000,
        end_time: None,
        final_time: None,
    };
    let run2 = RunSummary {
        id: 61,
        start_time: NOW_MS,
        end_time: None,
        final_time: None,
    };

    let splits = Splits::create_with_history(
        "dummy_path".to_string(),
        None,
        vec![run2, run1],
        Vec::new(),
    )
    .expect("create_with_history() should succeed");

    // Runs should be sorted by start_time ascending
    let sorted_runs: Vec<u128> = splits.runs().iter().map(|r| r.id).collect();
    assert_eq!(sorted_runs, vec![run1.id, run2.id]);
}

#[test]
fn validate_sets_split_times_from_pb() {
    let pb_run = RunSummary {
        id: 70,
        start_time: NOW_MS - 60_000,
        end_time: Some(NOW_MS),
        final_time: Some(60),
    };

    let split1 = Split {
        name: "50%".into(),
        percent: 50,
        time: None,
        history: vec![HistoricalSplit {
            run_id: pb_run.id,
            duration: 30,
        }],
    };
    let split2 = Split {
        name: "100%".into(),
        percent: 100,
        time: None,
        history: vec![HistoricalSplit {
            run_id: pb_run.id,
            duration: 60,
        }],
    };

    let splits = Splits::create_with_history(
        "dummy_path".to_string(),
        Some(pb_run),
        vec![],
        vec![split1, split2],
    )
    .expect("create_with_history() should succeed");

    // After validate, each split.time should match the PB's duration
    assert_eq!(splits.splits()[0].time, Some(30));
    assert_eq!(splits.splits()[1].time, Some(60));
}

#[test]
fn validate_sets_split_time_to_none_if_no_personal_best() {
    let run = RunSummary {
        id: 80,
        start_time: NOW_MS,
        end_time: None,
        final_time: None,
    };

    let split = Split {
        name: "Split 1".to_string(),
        percent: 50,
        time: Some(30),
        history: vec![HistoricalSplit {
            run_id: run.id,
            duration: 30,
        }],
    };

    let splits = Splits::create_with_history(
        "dummy_path".to_string(),
        None, // no personal best
        vec![run],
        vec![split],
    )
    .expect("create_with_history() should succeed");

    // Assert that split.time is None because there is no PB
    assert_eq!(splits.splits()[0].time, None);
}

#[test]
fn find_by_percent_finds_correct_split() {
    let split1 = Split {
        name: "Alpha".to_string(),
        percent: 10,
        time: Some(60),
        history: vec![],
    };
    let split2 = Split {
        name: "Beta".to_string(),
        percent: 20,
        time: Some(2 * 60),
        history: vec![],
    };
    let splits = Splits::create("dummy_path".to_string(), vec![split1, split2])
        .expect("splits should be valid");

    let result = splits.find_by_percent(&make_ingame_time(20, 0, 0, 0));
    assert!(result.is_some());
    assert_eq!(result.unwrap().name, "Beta");
}

#[test]
fn find_by_percent_returns_none_for_unknown_percent() {
    let split1 = Split {
        name: "One".to_string(),
        percent: 30,
        time: Some(3 * 60),
        history: vec![],
    };
    let splits =
        Splits::create("dummy_path".to_string(), vec![split1]).expect("splits should be valid");

    let result = splits.find_by_percent(&make_ingame_time(40, 0, 0, 0));
    assert!(result.is_none());
}

#[test]
fn compare_returns_correct_positive_delta() {
    let id: u128 = 90;
    let split1 = Split {
        name: "One".to_string(),
        percent: 50,
        time: Some(8 * 60 + 30),
        history: vec![HistoricalSplit {
            run_id: id,
            duration: 8 * 60 + 30,
        }],
    };
    let split2 = Split {
        name: "Two".to_string(),
        percent: 60,
        time: Some(10 * 60),
        history: vec![HistoricalSplit {
            run_id: id,
            duration: 10 * 60,
        }],
    };
    let personal_best = RunSummary {
        id,
        start_time: NOW_MS,
        end_time: None,
        final_time: None,
    };
    let splits = Splits::create_with_history(
        "dummy_path".to_string(),
        Some(personal_best),
        vec![],
        vec![split1, split2],
    )
    .expect("splits should be valid");

    let current = make_ingame_time(60, 0, 11, 0); // +60s
    let result = splits.compare(&current);

    assert!(result.is_some());
    let (delta, split) = result.unwrap();
    assert_eq!(delta, 60);
    assert_eq!(split.name, "Two");
}

#[test]
fn compare_returns_correct_negative_delta() {
    let id: u128 = 91;
    let split1 = Split {
        name: "One".to_string(),
        percent: 70,
        time: Some(15 * 60),
        history: vec![HistoricalSplit {
            run_id: id,
            duration: 15 * 60,
        }],
    };
    let personal_best = RunSummary {
        id,
        start_time: NOW_MS,
        end_time: None,
        final_time: None,
    };
    let splits = Splits::create_with_history(
        "dummy_path".to_string(),
        Some(personal_best),
        vec![],
        vec![split1],
    )
    .expect("splits should be valid");

    let current = make_ingame_time(70, 0, 14, 30); // -30s
    let result = splits.compare(&current);

    assert!(result.is_some());
    let (delta, split) = result.unwrap();
    assert_eq!(delta, -30);
    assert_eq!(split.name, "One");
}

#[test]
fn compare_returns_zero_delta() {
    let id: u128 = 92;
    let time = make_ingame_time(40, 0, 5, 30);
    let split1 = Split {
        name: "One".to_string(),
        percent: time.percent,
        time: Some(time.duration),
        history: vec![HistoricalSplit {
            run_id: id,
            duration: time.duration,
        }],
    };
    let personal_best = RunSummary {
        id,
        start_time: NOW_MS,
        end_time: None,
        final_time: None,
    };
    let splits = Splits::create_with_history(
        "dummy_path".to_string(),
        Some(personal_best),
        vec![],
        vec![split1],
    )
    .expect("splits should be valid");

    let result = splits.compare(&time);
    assert!(result.is_some());

    let (delta, split) = result.unwrap();
    assert_eq!(delta, 0);
    assert_eq!(split.name, "One");
}

#[test]
fn compare_returns_none_for_nonexistent_split() {
    let split1 = Split {
        name: "Unrelated".to_string(),
        percent: 10,
        time: Some(60),
        history: vec![],
    };
    let splits =
        Splits::create("dummy_path".to_string(), vec![split1]).expect("splits should be valid");

    let result = splits.compare(&make_ingame_time(99, 0, 2, 0));
    assert!(result.is_none());
}

#[test]
fn start_new_run_creates_active_run() {
    let split = Split {
        name: "First Split".into(),
        percent: 10,
        time: Some(20),
        history: vec![],
    };

    let mut splits =
        Splits::create("fake/path".to_string(), vec![split]).expect("splits should be valid");

    let igt = InGameTime {
        percent: 10,
        duration: 30,
    };

    // Given: no active run
    assert!(splits.active_run().is_none());

    // When: update with new IGT
    let now = chrono::Utc::now().timestamp_millis();
    splits.update_with_igt(&igt);

    // Then: active run was created
    let active_run = splits
        .active_run()
        .expect("Expected active run to be created");
    assert_eq!(active_run.latest_split, igt);
    assert!(active_run.start_time >= now - 1000);
    assert!(active_run.start_time <= now + 1000);
}

#[test]
fn start_new_run_appends_to_existing_history() {
    let existing_run_id: u128 = 100;
    let existing_entry = HistoricalSplit {
        run_id: existing_run_id,
        duration: 25,
    };

    let split = Split {
        name: "First Split".into(),
        percent: 10,
        time: Some(20),
        history: vec![existing_entry],
    };

    let mut splits =
        Splits::create("fake/path".to_string(), vec![split]).expect("splits should be valid");

    let igt = InGameTime {
        percent: 10,
        duration: 30,
    };

    splits.update_with_igt(&igt);

    let current_split = splits.splits().first().unwrap();
    assert_eq!(current_split.history.len(), 2);
    assert_eq!(current_split.history[0], existing_entry);
    assert_eq!(current_split.history[1].duration, igt.duration);
}

#[test]
fn start_new_run_pushes_run_summary() {
    let split_1 = Split {
        name: "First Split".into(),
        percent: 10,
        time: Some(20),
        history: vec![],
    };
    let split_2 = Split {
        name: "Second Split".into(),
        percent: 20,
        time: Some(40),
        history: vec![],
    };

    let mut splits = Splits::create("fake/path".to_string(), vec![split_1, split_2])
        .expect("splits should be valid");

    let igt = InGameTime {
        percent: 10,
        duration: 30,
    };

    // When: update with IGT
    let now = chrono::Utc::now().timestamp_millis();
    splits.update_with_igt(&igt);

    // Then: a new run is added to the runs list
    let run_summary = splits
        .runs()
        .last()
        .expect("Expected a RunSummary to be added");

    let active_run = splits.active_run().expect("Expected active run");

    assert_eq!(run_summary.id, active_run.id);
    assert!(run_summary.start_time >= now - 1000);
    assert!(run_summary.start_time <= now + 1000);
    assert_eq!(run_summary.end_time, None);
    assert_eq!(run_summary.final_time, None);
}

#[test]
fn update_existing_split_overwrites_duration_for_same_run() {
    let run_id: u128 = 110;

    let original_duration: u64 = 25;
    let updated_duration: u64 = 30;

    let split = Split {
        name: "20% Split".into(),
        percent: 20,
        time: Some(original_duration),
        history: vec![HistoricalSplit {
            run_id,
            duration: original_duration,
        }],
    };

    let mut splits =
        Splits::create("fake/path".to_string(), vec![split]).expect("splits should be valid");

    // Pre-existing active run
    splits.active_run = Some(ActiveRun {
        id: run_id,
        start_time: NOW_MS,
        end_time: None,
        latest_split: InGameTime {
            percent: 20,
            duration: original_duration,
        },
    });

    // Incoming update with same percent, updated duration
    let current = InGameTime {
        percent: 20,
        duration: updated_duration,
    };

    // Act
    splits.update_with_igt(&current);

    // Assert: history was updated
    let updated_split = &splits.splits()[0];
    let hist = &updated_split.history[0];
    assert_eq!(hist.run_id, run_id);
    assert_eq!(hist.duration, updated_duration);

    // Also: active run was not reset
    let active_run = splits.active_run().expect("active run should exist");
    assert_eq!(active_run.id, run_id);
    assert_eq!(active_run.latest_split, current);
}

#[test]
fn advance_to_next_split_adds_new_history_entry() {
    let split_10 = Split {
        name: "First Split".into(),
        percent: 10,
        time: Some(20),
        history: vec![],
    };

    let split_20 = Split {
        name: "Second Split".into(),
        percent: 20,
        time: Some(40),
        history: vec![],
    };

    let mut splits = Splits::create("fake/path".to_string(), vec![split_10, split_20])
        .expect("splits should be valid");

    // Simulate first update at 10% to create the run
    let run_start_igt = InGameTime {
        percent: 10,
        duration: 25,
    };
    splits.update_with_igt(&run_start_igt);

    // Store active run ID
    let run_id = splits.active_run().expect("Expected active run").id;

    // Advance to next split (20%)
    let next_igt = InGameTime {
        percent: 20,
        duration: 55,
    };
    splits.update_with_igt(&next_igt);

    // active_run.latest_split should now be at 20%
    let active_run = splits.active_run().expect("Expected active run");
    assert_eq!(active_run.latest_split.percent, 20);
    assert_eq!(active_run.latest_split.duration, 55);

    // The 10% split history should contain only the initial entry
    let first_split = &splits.splits()[0];
    assert_eq!(first_split.history.len(), 1);
    assert_eq!(first_split.history[0].run_id, run_id);
    assert_eq!(first_split.history[0].duration, 25);

    // The 20% split history should now contain a new entry
    let second_split = &splits.splits()[1];
    assert_eq!(second_split.history.len(), 1);
    assert_eq!(second_split.history[0].run_id, run_id);
    assert_eq!(second_split.history[0].duration, 55);

    // No new run summary should have been added
    assert_eq!(splits.runs().len(), 1);
}

#[test]
fn reset_triggers_new_run_on_percent_regression() {
    let split_5 = Split {
        name: "Intro".into(),
        percent: 5,
        time: Some(10),
        history: vec![],
    };

    let split_40 = Split {
        name: "Mid Game".into(),
        percent: 40,
        time: Some(80),
        history: vec![],
    };

    let mut splits = Splits::create("fake/path".to_string(), vec![split_5, split_40])
        .expect("splits should be valid");

    // Step 1: Simulate reaching 40%
    splits.update_with_igt(&InGameTime {
        percent: 5,
        duration: 8,
    });

    let first_igt = InGameTime {
        percent: 40,
        duration: 90,
    };
    splits.update_with_igt(&first_igt);

    let first_run = splits.active_run().expect("Expected active run");
    let first_run_id = first_run.id;

    // Step 2: Reset to 5% — should start a new run
    let reset_igt = InGameTime {
        percent: 5,
        duration: 8,
    };
    splits.update_with_igt(&reset_igt);

    let second_run = splits.active_run().expect("Expected new active run");
    let second_run_id = second_run.id;

    // A new run ID was generated
    assert_ne!(first_run_id, second_run_id);

    // New run has updated latest_split
    assert_eq!(second_run.latest_split, reset_igt);

    // Historical split at 40% is untouched (only first run)
    let split_40 = &splits.splits()[1];
    assert_eq!(split_40.history.len(), 1);
    assert_eq!(split_40.history[0].run_id, first_run_id);

    // Historical split at 5% contains an entry for the new run only
    let split_5 = &splits.splits()[0];
    assert_eq!(split_5.history.len(), 2);
    assert_eq!(split_5.history[1].run_id, second_run_id);
    assert_eq!(split_5.history[1].duration, 8);

    // Two RunSummary entries exist
    assert_eq!(splits.runs().len(), 2);
}

#[test]
fn reaching_final_split_marks_run_as_finished() {
    let splits = vec![
        Split {
            name: "Split 1".into(),
            percent: 10,
            time: Some(10),
            history: vec![],
        },
        Split {
            name: "Split 2".into(),
            percent: 50,
            time: Some(50),
            history: vec![],
        },
        Split {
            name: "Final Split".into(),
            percent: 100,
            time: Some(100),
            history: vec![],
        },
    ];

    let mut splits =
        Splits::create("fake/path".to_string(), splits).expect("splits should be valid");

    // Start the run with the first IGT
    let igt1 = InGameTime {
        percent: 10,
        duration: 11,
    };
    splits.update_with_igt(&igt1);
    let run_id = splits.active_run().unwrap().id;

    // Progress through next split
    let igt2 = InGameTime {
        percent: 50,
        duration: 52,
    };
    splits.update_with_igt(&igt2);

    // Final split reached
    let ts_end = chrono::Utc::now().timestamp_millis();
    let igt3 = InGameTime {
        percent: 100,
        duration: 103,
    };
    splits.update_with_igt(&igt3);

    // Active run should now be completed
    let active_run = splits.active_run().unwrap();
    assert!(active_run.end_time.is_some());
    let end_time = active_run.end_time.unwrap();
    assert!(end_time >= ts_end - 1000 && end_time <= ts_end + 1000);

    // RunSummary should also be updated
    let summary = splits.runs().iter().find(|r| r.id == run_id).unwrap();
    assert_eq!(summary.end_time, Some(end_time));
    assert_eq!(summary.final_time, Some(103));
}

#[test]
fn final_split_reached_twice_does_not_overwrite() {
    let final_split = Split {
        name: "Final Split".into(),
        percent: 100,
        time: Some(120),
        history: vec![],
    };

    let mut splits = Splits::create("fake/path".to_string(), vec![final_split])
        .expect("splits should be valid");

    // First update: start and finish run immediately
    let igt = InGameTime {
        percent: 100,
        duration: 120,
    };
    splits.update_with_igt(&igt);

    let run_summary = splits
        .runs()
        .last()
        .expect("Expected a run summary after finishing run");

    let recorded_end_time = run_summary.end_time;
    let recorded_final_time = run_summary.final_time;

    assert!(recorded_end_time.is_some());
    assert_eq!(recorded_final_time, Some(igt.duration));

    // Second update: same final split
    let later_igt = InGameTime {
        percent: 100,
        duration: 999, // bogus new time that shouldn't overwrite
    };
    splits.update_with_igt(&later_igt);

    let updated_run_summary = splits
        .runs()
        .last()
        .expect("Expected the same run summary to remain");

    assert_eq!(
        updated_run_summary.end_time, recorded_end_time,
        "end_time should not be overwritten"
    );
    assert_eq!(
        updated_run_summary.final_time, recorded_final_time,
        "final_time should not be overwritten"
    );
}

#[test]
fn reset_works_even_after_final_split() {
    let splits = vec![
        Split {
            name: "First Split".into(),
            percent: 10,
            time: Some(20),
            history: vec![],
        },
        Split {
            name: "Final Split".into(),
            percent: 100,
            time: Some(200),
            history: vec![],
        },
    ];

    let mut splits =
        Splits::create("fake/path".to_string(), splits).expect("splits should be valid");

    // Start a run and finish it
    splits.update_with_igt(&InGameTime {
        percent: 10,
        duration: 30,
    });
    splits.update_with_igt(&InGameTime {
        percent: 100,
        duration: 220,
    });

    // Sanity check: run should be finished
    let previous_id = {
        let active_run = splits.active_run().expect("active run should exist");
        assert!(active_run.end_time.is_some(), "run should be finished");
        active_run.id
    };

    // Now send an earlier percent → should reset into a new run
    let earlier_igt = InGameTime {
        percent: 10,
        duration: 25,
    };
    splits.update_with_igt(&earlier_igt);

    // Verify that a new active run was started and is not the same ID
    let new_active_run = splits.active_run().expect("active run after reset");
    assert_ne!(
        new_active_run.id, previous_id,
        "new run ID should differ from old run ID"
    );
    assert_eq!(new_active_run.latest_split, earlier_igt);
}

#[test]
fn update_with_unknown_percent_does_nothing() {
    let split = Split {
        name: "Known Split".into(),
        percent: 50,
        time: Some(100),
        history: vec![],
    };

    let mut splits =
        Splits::create("fake/path".to_string(), vec![split]).expect("splits should be valid");

    // Start a run with a known split percent to have active_run
    let known_igt = InGameTime {
        percent: 50,
        duration: 110,
    };
    splits.update_with_igt(&known_igt);
    assert!(splits.active_run().is_some());
    assert_eq!(splits.active_run().unwrap().latest_split, known_igt);

    // Now update with an unknown percent (e.g., 30)
    let unknown_igt = InGameTime {
        percent: 30,
        duration: 90,
    };
    splits.update_with_igt(&unknown_igt);

    // Expect no change: active_run.latest_split stays at known_igt
    let active_run = splits.active_run().unwrap();
    assert_eq!(active_run.latest_split, known_igt);

    // Also confirm history for the known split did not get a new entry
    let known_split = splits.splits().first().unwrap();
    assert_eq!(known_split.history.len(), 1);
    assert_eq!(known_split.history[0].duration, known_igt.duration);
}

#[test]
fn update_with_unknown_percent_does_not_create_run() {
    let split = Split {
        name: "First Split".into(),
        percent: 10,
        time: Some(20),
        history: vec![],
    };

    let mut splits =
        Splits::create("fake/path".to_string(), vec![split]).expect("splits should be valid");

    let unknown_igt = InGameTime {
        percent: 15, // No split at 15%
        duration: 25,
    };

    // Precondition: no active run, no runs in history
    assert!(splits.active_run().is_none());
    assert!(splits.runs().is_empty());

    // When: update with unknown percent IGT
    splits.update_with_igt(&unknown_igt);

    // Then: no active run created
    assert!(splits.active_run().is_none());

    // No runs summary added
    assert!(splits.runs().is_empty());

    // No history added to any split
    assert!(splits.splits().iter().all(|s| s.history.is_empty()));
}

#[test]
fn first_run_sets_personal_best() {
    // Arrange
    let mut splits = Splits::create(
        "fake/path".to_string(),
        vec![
            Split {
                name: "Split 1".into(),
                percent: 10,
                time: None,
                history: vec![],
            },
            Split {
                name: "Split 2".into(),
                percent: 20,
                time: None,
                history: vec![],
            },
        ],
    )
    .expect("splits should be valid");

    // Act – simulate a run that hits both splits in order
    splits.update_with_igt(&InGameTime {
        percent: 10,
        duration: 30,
    });
    splits.update_with_igt(&InGameTime {
        percent: 20,
        duration: 65,
    }); // last split -> run finishes

    // Assert – personal best is set and matches run times
    assert!(
        splits.personal_best().is_some(),
        "Expected personal best to be set after first run"
    );
    let pb = splits.personal_best().unwrap();
    assert_eq!(pb.final_time, Some(65));

    assert_eq!(splits.splits()[0].time, Some(30));
    assert_eq!(splits.splits()[1].time, Some(65));
}

#[test]
fn slower_run_does_not_update_personal_best() {
    let mut splits = Splits::create(
        "fake/path".to_string(),
        vec![
            Split {
                name: "Split 1".into(),
                percent: 10,
                time: None,
                history: vec![],
            },
            Split {
                name: "Split 2".into(),
                percent: 20,
                time: None,
                history: vec![],
            },
        ],
    )
    .expect("splits should be valid");

    // First run -> PB
    splits.update_with_igt(&InGameTime {
        percent: 10,
        duration: 30,
    });
    splits.update_with_igt(&InGameTime {
        percent: 20,
        duration: 65,
    });

    let first_pb = *splits.personal_best().unwrap();

    // Second run -> slower
    splits.update_with_igt(&InGameTime {
        percent: 10,
        duration: 35,
    });
    splits.update_with_igt(&InGameTime {
        percent: 20,
        duration: 70,
    });

    // Assert PB unchanged
    assert_eq!(
        splits.personal_best().unwrap().id,
        first_pb.id,
        "PB should not change after slower run"
    );
    assert_eq!(
        splits.personal_best().unwrap().final_time,
        first_pb.final_time
    );

    // Assert PB split times unchanged
    assert_eq!(splits.splits()[0].time, Some(30));
    assert_eq!(splits.splits()[1].time, Some(65));
}

#[test]
fn faster_run_updates_personal_best_and_splits() {
    let mut splits = Splits::create(
        "fake/path".to_string(),
        vec![
            Split {
                name: "Split 1".into(),
                percent: 10,
                time: None,
                history: vec![],
            },
            Split {
                name: "Split 2".into(),
                percent: 20,
                time: None,
                history: vec![],
            },
        ],
    )
    .expect("splits should be valid");

    // First run -> slower PB
    splits.update_with_igt(&InGameTime {
        percent: 10,
        duration: 35,
    });
    splits.update_with_igt(&InGameTime {
        percent: 20,
        duration: 70,
    });

    let first_pb = *splits.personal_best().unwrap();

    // Second run -> faster
    splits.update_with_igt(&InGameTime {
        percent: 10,
        duration: 30,
    });
    splits.update_with_igt(&InGameTime {
        percent: 20,
        duration: 65,
    });

    // Assert PB updated
    assert_ne!(
        splits.personal_best().unwrap().id,
        first_pb.id,
        "PB run ID should change"
    );
    assert_eq!(splits.personal_best().unwrap().final_time, Some(65));

    // Assert PB split times updated
    assert_eq!(splits.splits()[0].time, Some(30));
    assert_eq!(splits.splits()[1].time, Some(65));
}

#[test]
fn tie_run_does_not_overwrite_personal_best() {
    let mut splits = Splits::create(
        "fake/path".to_string(),
        vec![
            Split {
                name: "Split 1".into(),
                percent: 10,
                time: None,
                history: vec![],
            },
            Split {
                name: "Split 2".into(),
                percent: 20,
                time: None,
                history: vec![],
            },
        ],
    )
    .expect("splits should be valid");

    // First run -> set PB
    splits.update_with_igt(&InGameTime {
        percent: 10,
        duration: 30,
    });
    splits.update_with_igt(&InGameTime {
        percent: 20,
        duration: 60,
    });

    let pb_before = *splits.personal_best().unwrap();

    // Second run -> exact same final time as PB
    splits.update_with_igt(&InGameTime {
        percent: 10,
        duration: 30,
    });
    splits.update_with_igt(&InGameTime {
        percent: 20,
        duration: 60,
    });

    // PB should remain unchanged
    assert_eq!(
        splits.personal_best().unwrap().id,
        pb_before.id,
        "PB should not be overwritten by a tie"
    );
    assert_eq!(
        splits.personal_best().unwrap().final_time,
        pb_before.final_time,
        "PB time should remain unchanged"
    );
}

#[test]
fn initialize_active_run_seeds_a_sealed_run() {
    let split = Split {
        name: "Mid".into(),
        percent: 50,
        time: None,
        history: vec![],
    };
    let mut splits =
        Splits::create("fake/path".to_string(), vec![split]).expect("splits should be valid");

    let igt = InGameTime {
        percent: 50,
        duration: 70,
    };
    splits.initialize_active_run(&igt);

    let seeded = splits.active_run().expect("expected seeded active run");
    assert!(seeded.end_time.is_some(), "seeded run must be sealed");
    assert_eq!(seeded.latest_split, igt);
    let seeded_id = seeded.id;

    // A second initialization changes nothing.
    splits.initialize_active_run(&InGameTime {
        percent: 50,
        duration: 99,
    });
    assert_eq!(splits.active_run().unwrap().id, seeded_id);
    assert_eq!(splits.active_run().unwrap().latest_split, igt);
}
