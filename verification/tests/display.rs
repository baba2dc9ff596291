//! Tests of the display building blocks: time and delta rendering, padding,
//! and name truncation.

use split_tracker::model::Split;
use split_tracker::model::Splits;

#[test]
fn format_time_renders_duration_or_placeholder() {
    assert_eq!(Splits::format_time(Some(0)), "0:00:00");
    assert_eq!(Splits::format_time(Some(8 * 60 + 30)), "0:08:30");
    assert_eq!(Splits::format_time(None), "-:--:--");
}

#[test]
fn format_delta_signs_and_pads() {
    assert_eq!(Splits::format_delta(60), "+01:00");
    assert_eq!(Splits::format_delta(-30), "-00:30");
    assert_eq!(Splits::format_delta(0), "+00:00");
    assert_eq!(Splits::format_delta(7200), "+120:00");
    assert_eq!(Splits::format_delta(-61), "-01:01");
}

#[test]
fn pad_str_fills_to_target_width() {
    assert_eq!(Splits::pad_str("ab", 5), "ab   ");
    assert_eq!(Splits::pad_str("abcde", 3), "abcde");
    assert_eq!(Splits::pad_str("", 2), "  ");
    // A double-width character counts as two columns.
    assert_eq!(Splits::pad_str("あ", 4), "あ  ");
}

#[test]
fn truncate_name_keeps_short_names() {
    assert_eq!(Splits::truncate_name("Short", 25), "Short");
    assert_eq!(Splits::truncate_name("Exact", 5), "Exact");
}

#[test]
fn truncate_name_cuts_with_ellipsis() {
    assert_eq!(Splits::truncate_name("Fireworks Factory", 10), "Firework..");
    assert_eq!(Splits::truncate_name("abcdef", 4), "ab..");
}

#[test]
fn truncate_name_respects_grapheme_clusters() {
    // The accented character is one cluster of two code points; it must not
    // be split apart.
    let name = "e\u{301}xtra long name";
    let cut = Splits::truncate_name(name, 5);
    assert_eq!(cut, "e\u{301}xt..");
}

#[test]
fn truncate_name_counts_display_columns() {
    // Each character here is two columns wide, so only one fits a budget of
    // two (four minus the two reserved for the mark).
    let name = "ああああ";
    let cut = Splits::truncate_name(name, 4);
    assert_eq!(cut, "あ..");
}

#[test]
fn compute_name_width_takes_longest_name_capped() {
    let splits = Splits::create(
        "p".to_string(),
        vec![
            Split {
                name: "ab".to_string(),
                percent: 10,
                time: None,
                history: vec![],
            },
            Split {
                name: "abcdef".to_string(),
                percent: 20,
                time: None,
                history: vec![],
            },
        ],
    )
    .expect("valid");
    assert_eq!(splits.compute_name_width(), 6);

    let long = Splits::create(
        "p".to_string(),
        vec![Split {
            name: "a-very-long-split-name-over-the-cap".to_string(),
            percent: 10,
            time: None,
            history: vec![],
        }],
    )
    .expect("valid");
    assert_eq!(long.compute_name_width(), 25);

    assert_eq!(Splits::new().compute_name_width(), 0);
}
