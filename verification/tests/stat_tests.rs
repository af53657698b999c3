use twt::stat::{LogColumn, LogDuration, LogDurationList, LogDurationView};
use twt::{Log, TwtError};

fn store_text(lines: &[&str]) -> String {
    let mut s = String::from("window_class\twindow_name\tstart\tend\n");
    for l in lines {
        s.push_str(l);
        s.push('\n');
    }
    s
}

#[test]
fn test_duration_from_record() {
    let log = Log::new(
        "kitty".to_string(),
        "bash".to_string(),
        1678898607940,
        Some(1678898608940),
    );
    let log_duration = LogDuration::from_record(log, 0);
    assert_eq!(log_duration.log.window_name, "bash");
    assert_eq!(log_duration.log.window_class, "kitty");
    assert_eq!(log_duration.duration, 1000);
}

#[test]
fn test_overlap_disjoint_is_zero() {
    let before = Log::new("a".to_string(), "t".to_string(), 0, Some(90));
    let after = Log::new("a".to_string(), "t".to_string(), 2100, Some(3000));
    assert_eq!(
        twt::stat::get_record_duration_for_scope(100, 2000, &before, 0),
        0
    );
    assert_eq!(
        twt::stat::get_record_duration_for_scope(100, 2000, &after, 0),
        0
    );
}

#[test]
fn test_overlap_contained_is_full_length() {
    let log = Log::new("a".to_string(), "t".to_string(), 500, Some(900));
    assert_eq!(
        twt::stat::get_record_duration_for_scope(100, 2000, &log, 0),
        400
    );
}

#[test]
fn test_overlap_partial_clamps_to_range() {
    let log = Log::new("a".to_string(), "t".to_string(), 0, Some(900));
    assert_eq!(twt::stat::get_record_duration_for_scope(100, 2000, &log, 0), 800);
    let log2 = Log::new("a".to_string(), "t".to_string(), 1500, Some(2500));
    assert_eq!(twt::stat::get_record_duration_for_scope(100, 2000, &log2, 0), 500);
}

#[test]
fn test_open_record_reaches_now() {
    let log = Log::new("a".to_string(), "t".to_string(), 100, None);
    assert_eq!(twt::stat::get_record_duration_for_scope(0, 1000, &log, 600), 500);
}

#[test]
fn test_usage_span_by_class() {
    let contents = store_text(&["kitty\tbash\t0\t1000", "code\tmain.rs\t1000\t4000"]);
    let list = LogDurationList::create_for_scope(&contents, 0, 4000, 0).unwrap();
    let view = list.get_view_for_log_column(&LogColumn::Class, None).unwrap();
    assert_eq!(view.len(), 2);
    assert_eq!(view.get(0).title, "code");
    assert_eq!(view.get(0).pretty_duration(), "3s");
    assert_eq!(view.get(1).title, "kitty");
    assert_eq!(view.get(1).pretty_duration(), "1s");
}

#[test]
fn test_render_lines_padding() {
    let contents = store_text(&["kitty\tbash\t0\t1000", "code\tmain.rs\t1000\t4000"]);
    let list = LogDurationList::create_for_scope(&contents, 0, 4000, 0).unwrap();
    let view = list.get_view_for_log_column(&LogColumn::Class, None).unwrap();
    let lines = view.render_lines();
    assert_eq!(lines.len(), 2);
    assert_eq!(lines[0], "code  : 3s");
    assert_eq!(lines[1], "kitty : 1s");
}

#[test]
fn test_zero_duration_keys_dropped() {
    let contents = store_text(&["kitty\tbash\t0\t1000", "code\tmain.rs\t5000\t6000"]);
    let list = LogDurationList::create_for_scope(&contents, 0, 4000, 0).unwrap();
    let view = list.get_view_for_log_column(&LogColumn::Class, None).unwrap();
    assert_eq!(view.len(), 1);
    assert_eq!(view.get(0).title, "kitty");
}

#[test]
fn test_grouping_order_insensitive() {
    let a = store_text(&[
        "kitty\tbash\t0\t100",
        "code\tmain.rs\t100\t300",
        "kitty\tvim\t300\t600",
    ]);
    let b = store_text(&[
        "kitty\tvim\t300\t600",
        "code\tmain.rs\t100\t300",
        "kitty\tbash\t0\t100",
    ]);
    let va = LogDurationList::create_for_scope(&a, 0, 600, 0)
        .unwrap()
        .get_view_for_log_column(&LogColumn::Class, None)
        .unwrap();
    let vb = LogDurationList::create_for_scope(&b, 0, 600, 0)
        .unwrap()
        .get_view_for_log_column(&LogColumn::Class, None)
        .unwrap();
    assert_eq!(va.len(), vb.len());
    for i in 0..va.len() {
        assert_eq!(va.get(i).title, vb.get(i).title);
        assert_eq!(va.get(i).duration, vb.get(i).duration);
    }
    assert_eq!(va.get(0).title, "kitty");
    assert_eq!(va.get(0).duration, 400);
    assert_eq!(va.get(1).title, "code");
    assert_eq!(va.get(1).duration, 200);
}

#[test]
fn test_tiling_sums_to_range_width() {
    let fine = store_text(&[
        "a\tx\t0\t250",
        "b\ty\t250\t600",
        "c\tz\t600\t1000",
    ]);
    let coarse = store_text(&["a\tx\t0\t1000"]);
    let lf = LogDurationList::create_for_scope(&fine, 0, 1000, 0).unwrap();
    let lc = LogDurationList::create_for_scope(&coarse, 0, 1000, 0).unwrap();
    let mut sum_fine: i64 = 0;
    for i in 0..lf.len() {
        sum_fine += lf.get(i).duration;
    }
    let mut sum_coarse: i64 = 0;
    for i in 0..lc.len() {
        sum_coarse += lc.get(i).duration;
    }
    assert_eq!(sum_fine, 1000);
    assert_eq!(sum_coarse, 1000);
}

#[test]
fn test_render_lines_of_empty_view_is_empty() {
    let contents = store_text(&["kitty\tbash\t0\t1000"]);
    let list = LogDurationList::create_for_scope(&contents, 2000, 3000, 0).unwrap();
    let view = list.get_view_for_log_column(&LogColumn::Class, None).unwrap();
    assert_eq!(view.len(), 0);
    assert_eq!(view.render_lines().len(), 0);
}

#[test]
fn test_equal_totals_keep_first_encountered_order() {
    let contents = store_text(&["kitty\tbash\t0\t500", "code\tmain.rs\t500\t1000"]);
    let list = LogDurationList::create_for_scope(&contents, 0, 1000, 0).unwrap();
    let view = list.get_view_for_log_column(&LogColumn::Class, None).unwrap();
    assert_eq!(view.len(), 2);
    assert_eq!(view.get(0).duration, 500);
    assert_eq!(view.get(1).duration, 500);
    // The tie order is the documented one: the key the log mentions
    // first comes first.
    assert_eq!(view.get(0).title, "kitty");
    assert_eq!(view.get(1).title, "code");
}

#[test]
fn test_pretty_duration_milliseconds() {
    let v = LogDurationView { title: String::from("x"), duration: 500 };
    assert_eq!(v.pretty_duration(), "500ms");
    let z = LogDurationView { title: String::from("x"), duration: 0 };
    assert_eq!(z.pretty_duration(), "0ms");
}

#[test]
fn test_pretty_duration_seconds() {
    let v = LogDurationView { title: String::from("x"), duration: 1000 };
    assert_eq!(v.pretty_duration(), "1s");
}

#[test]
fn test_pretty_duration_minutes() {
    let v = LogDurationView { title: String::from("x"), duration: 61000 };
    assert_eq!(v.pretty_duration(), "1m1s");
}

#[test]
fn test_pretty_duration_hours() {
    let v = LogDurationView { title: String::from("x"), duration: 3661000 };
    assert_eq!(v.pretty_duration(), "1h1m1s");
}

#[test]
fn test_pretty_duration_days_and_weeks() {
    let d = LogDurationView { title: String::from("x"), duration: 90061000 };
    assert_eq!(d.pretty_duration(), "1d, 1h1m1s");
    let w = LogDurationView { title: String::from("x"), duration: 694861000 };
    assert_eq!(w.pretty_duration(), "1w, 1d, 1h1m1s");
}

#[test]
fn test_regex_filter_keeps_matching_keys() {
    let contents = store_text(&["kitty\tbash\t0\t1000", "code\tmain.rs\t1000\t4000"]);
    let list = LogDurationList::create_for_scope(&contents, 0, 4000, 0).unwrap();
    let view = list
        .get_view_for_log_column(&LogColumn::Class, Some("kit"))
        .unwrap();
    assert_eq!(view.len(), 1);
    assert_eq!(view.get(0).title, "kitty");
    let none = list
        .get_view_for_log_column(&LogColumn::Class, Some("^z"))
        .unwrap();
    assert_eq!(none.len(), 0);
}

#[test]
fn test_regex_filter_by_name_column() {
    let contents = store_text(&["kitty\tbash\t0\t1000", "code\tmain.rs\t1000\t4000"]);
    let list = LogDurationList::create_for_scope(&contents, 0, 4000, 0).unwrap();
    let view = list
        .get_view_for_log_column(&LogColumn::Name, Some(r"\.rs$"))
        .unwrap();
    assert_eq!(view.len(), 1);
    assert_eq!(view.get(0).title, "main.rs");
}

#[test]
fn test_bad_pattern_is_refused() {
    let contents = store_text(&["kitty\tbash\t0\t1000"]);
    let list = LogDurationList::create_for_scope(&contents, 0, 4000, 0).unwrap();
    let r = list.get_view_for_log_column(&LogColumn::Class, Some("("));
    assert_eq!(r.unwrap_err(), TwtError::BadPattern);
}

#[test]
fn test_total_overflow_is_refused() {
    let l1 = Log::new("a".to_string(), "x".to_string(), 0, Some(0));
    let l2 = Log::new("a".to_string(), "y".to_string(), 0, Some(0));
    let list = LogDurationList::from_vec(vec![
        LogDuration::from_record_on_duration(l1, i64::MAX),
        LogDuration::from_record_on_duration(l2, 1),
    ]);
    let r = list.get_view_for_log_column(&LogColumn::Class, None);
    assert_eq!(r.unwrap_err(), TwtError::Overflow);
}

#[test]
fn test_create_for_last_n_takes_tail() {
    let contents = store_text(&[
        "a\tx\t0\t100",
        "b\ty\t100\t400",
        "c\tz\t400\t1000",
    ]);
    let list = LogDurationList::create_for_last_n(&contents, 2, 0).unwrap();
    assert_eq!(list.len(), 2);
    assert_eq!(list.get(0).log.window_class, "b");
    assert_eq!(list.get(0).duration, 300);
    assert_eq!(list.get(1).log.window_class, "c");
    assert_eq!(list.get(1).duration, 600);
}

#[test]
fn test_create_for_last_duration_reads_all_records() {
    let contents = store_text(&["a\tx\t0\t100", "b\ty\t100\t400"]);
    let list = LogDurationList::create_for_last_duration(&contents, 1000).unwrap();
    assert_eq!(list.len(), 2);
}

#[test]
fn test_create_for_last_duration_oversized_range() {
    let contents = store_text(&["a\tx\t0\t100"]);
    let r = LogDurationList::create_for_last_duration(&contents, u64::MAX);
    assert_eq!(r.unwrap_err(), TwtError::BadRange);
}

#[test]
fn test_log_column_from_arg() {
    assert!(matches!(LogColumn::from_arg("n"), Ok(LogColumn::Name)));
    assert!(matches!(LogColumn::from_arg("c"), Ok(LogColumn::Class)));
    assert_eq!(LogColumn::from_arg("x").unwrap_err(), TwtError::BadColumn);
    assert_eq!(LogColumn::from_arg("").unwrap_err(), TwtError::BadColumn);
}

#[test]
fn test_iso_to_timestamp_millis() {
    let ms = twt::stat::iso_to_timestamp_millis("2023-03-13 17:29:00").unwrap();
    assert_eq!(ms, 1678728540000);
    let epoch = twt::stat::iso_to_timestamp_millis("1970-01-01 00:00:00").unwrap();
    assert_eq!(epoch, 0);
}

#[test]
fn test_iso_to_timestamp_millis_rejects_malformed() {
    let r = twt::stat::iso_to_timestamp_millis("2023-03-13T17:29:00");
    assert_eq!(r.unwrap_err(), TwtError::BadTimestamp);
    let r2 = twt::stat::iso_to_timestamp_millis("not a date");
    assert_eq!(r2.unwrap_err(), TwtError::BadTimestamp);
}
