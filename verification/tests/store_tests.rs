use twt::{Log, TwtError};

#[test]
fn test_parse_store_reads_records_in_order() {
    let contents = "window_class\twindow_name\tstart\tend\nkitty\tbash\t10\t20\ncode\tmain.rs\t20\t\n";
    let recs = twt::store::parse_store(contents).unwrap();
    assert_eq!(recs.len(), 2);
    assert_eq!(recs[0].window_class, "kitty");
    assert_eq!(recs[0].window_name, "bash");
    assert_eq!(recs[0].start, 10);
    assert_eq!(recs[0].end, Some(20));
    assert_eq!(recs[1].window_class, "code");
    assert_eq!(recs[1].end, None);
}

#[test]
fn test_parse_store_empty_text_holds_no_records() {
    let recs = twt::store::parse_store("").unwrap();
    assert_eq!(recs.len(), 0);
    let only_header = twt::store::parse_store("window_class\twindow_name\tstart\tend\n").unwrap();
    assert_eq!(only_header.len(), 0);
}

#[test]
fn test_parse_store_reports_bad_line_number() {
    let contents = "window_class\twindow_name\tstart\tend\nkitty\tbash\t10\t20\nnot a record\n";
    let e = twt::store::parse_store(contents).unwrap_err();
    assert_eq!(e, TwtError::Corrupt { line: 3 });
}

#[test]
fn test_parse_store_rejects_end_before_start() {
    let contents = "window_class\twindow_name\tstart\tend\nkitty\tbash\t30\t20\n";
    let e = twt::store::parse_store(contents).unwrap_err();
    assert_eq!(e, TwtError::Corrupt { line: 2 });
}

#[test]
fn test_parse_store_rejects_signed_timestamp() {
    let contents = "window_class\twindow_name\tstart\tend\nkitty\tbash\t-5\t20\n";
    let e = twt::store::parse_store(contents).unwrap_err();
    assert_eq!(e, TwtError::Corrupt { line: 2 });
}

#[test]
fn test_parse_store_rejects_empty_class() {
    let contents = "window_class\twindow_name\tstart\tend\n\tbash\t10\t20\n";
    let e = twt::store::parse_store(contents).unwrap_err();
    assert_eq!(e, TwtError::Corrupt { line: 2 });
}

#[test]
fn test_patch_last_end_rewrites_only_last_column() {
    let contents = "window_class\twindow_name\tstart\tend\nkitty\tbash\t10\t\n";
    let out = twt::store::patch_last_end(contents, 25).unwrap();
    assert_eq!(out, "window_class\twindow_name\tstart\tend\nkitty\tbash\t10\t25\n");
}

#[test]
fn test_patch_last_end_touches_only_the_last_line() {
    let contents =
        "window_class\twindow_name\tstart\tend\ncode\tmain.rs\t1\t9\nkitty\tbash\t10\t11\n";
    let out = twt::store::patch_last_end(contents, 42).unwrap();
    assert_eq!(
        out,
        "window_class\twindow_name\tstart\tend\ncode\tmain.rs\t1\t9\nkitty\tbash\t10\t42\n"
    );
}

#[test]
fn test_patch_last_end_refuses_header_only() {
    let e = twt::store::patch_last_end("window_class\twindow_name\tstart\tend\n", 5).unwrap_err();
    assert_eq!(e, TwtError::Corrupt { line: 1 });
}

#[test]
fn test_patch_last_end_refuses_unterminated_text() {
    let e = twt::store::patch_last_end("header\nkitty\tbash\t10\t", 5).unwrap_err();
    assert_eq!(e, TwtError::Corrupt { line: 2 });
    let e2 = twt::store::patch_last_end("", 5).unwrap_err();
    assert_eq!(e2, TwtError::Corrupt { line: 1 });
}

#[test]
fn test_patch_last_end_refuses_wrong_column_count() {
    let e = twt::store::patch_last_end("header\nkitty\tbash\t10\n", 5).unwrap_err();
    assert_eq!(e, TwtError::Corrupt { line: 2 });
}

#[test]
fn test_to_csv_line_leaves_end_empty() {
    let log = Log::new("kitty".to_string(), "bash".to_string(), 5, None);
    assert_eq!(log.to_csv_line(), "kitty\tbash\t5\t");
}

#[test]
fn test_header_line() {
    assert_eq!(
        twt::store::header_line(),
        "window_class\twindow_name\tstart\tend\n"
    );
}

#[test]
fn test_append_then_patch_round_trips() {
    let log = Log::new("kitty".to_string(), "bash".to_string(), 5, None);
    let mut contents = twt::store::header_line();
    contents.push_str(&log.to_csv_line());
    contents.push('\n');
    let patched = twt::store::patch_last_end(&contents, 9).unwrap();
    let recs = twt::store::parse_store(&patched).unwrap();
    assert_eq!(recs.len(), 1);
    assert_eq!(recs[0].window_class, "kitty");
    assert_eq!(recs[0].start, 5);
    assert_eq!(recs[0].end, Some(9));
}

#[test]
fn test_same_window_as() {
    let a = Log::new("kitty".to_string(), "bash".to_string(), 0, None);
    let b = Log::new("kitty".to_string(), "bash".to_string(), 100, Some(200));
    let c = Log::new("kitty".to_string(), "vim".to_string(), 0, None);
    assert!(a.same_window_as(&b));
    assert!(!a.same_window_as(&c));
}

#[test]
fn test_error_messages_name_the_line() {
    let e = TwtError::Corrupt { line: 3 };
    assert_eq!(e.message(), "Malformed store line 3.");
    assert_eq!(TwtError::MissingArgs.message(), "Missing arguments.");
}
