use twt::args::{parse_args, str_to_duration, Command};
use twt::stat::LogColumn;
use twt::TwtError;

fn argv(parts: &[&str]) -> Vec<String> {
    parts.iter().map(|p| p.to_string()).collect()
}

#[test]
fn test_str_to_duration_units() {
    assert_eq!(str_to_duration("800ms").unwrap(), 800);
    assert_eq!(str_to_duration("90s").unwrap(), 90_000);
    assert_eq!(str_to_duration("3m").unwrap(), 180_000);
    assert_eq!(str_to_duration("2h").unwrap(), 7_200_000);
    assert_eq!(str_to_duration("1d").unwrap(), 86_400_000);
    assert_eq!(str_to_duration("1w").unwrap(), 604_800_000);
}

#[test]
fn test_str_to_duration_rejects_malformed() {
    assert_eq!(str_to_duration("").unwrap_err(), TwtError::BadDuration);
    assert_eq!(str_to_duration("h").unwrap_err(), TwtError::BadDuration);
    assert_eq!(str_to_duration("10").unwrap_err(), TwtError::BadDuration);
    assert_eq!(str_to_duration("10x").unwrap_err(), TwtError::BadDuration);
    assert_eq!(str_to_duration("5 s").unwrap_err(), TwtError::BadDuration);
    assert_eq!(str_to_duration("s5").unwrap_err(), TwtError::BadDuration);
}

#[test]
fn test_str_to_duration_rejects_oversized() {
    assert_eq!(
        str_to_duration("99999999999999999999999s").unwrap_err(),
        TwtError::BadDuration
    );
    assert_eq!(
        str_to_duration("18446744073709551615s").unwrap_err(),
        TwtError::BadDuration
    );
}

#[test]
fn test_parse_args_help_paths() {
    assert!(matches!(parse_args(&argv(&["twt"])).unwrap(), Command::Help));
    assert!(matches!(
        parse_args(&argv(&["twt", "help"])).unwrap(),
        Command::Help
    ));
    assert!(matches!(
        parse_args(&argv(&["twt", "unknown"])).unwrap(),
        Command::Help
    ));
}

#[test]
fn test_parse_args_run() {
    assert!(matches!(
        parse_args(&argv(&["twt", "run"])).unwrap(),
        Command::Run
    ));
}

#[test]
fn test_parse_args_stat_missing_arguments() {
    assert_eq!(
        parse_args(&argv(&["twt", "stat"])).unwrap_err(),
        TwtError::MissingArgs
    );
    assert_eq!(
        parse_args(&argv(&["twt", "stat", "last", "c"])).unwrap_err(),
        TwtError::MissingArgs
    );
    assert_eq!(
        parse_args(&argv(&["twt", "stat", "span", "c", "2023-03-13 17:29:00"])).unwrap_err(),
        TwtError::MissingArgs
    );
}

#[test]
fn test_parse_args_stat_bad_subcommand() {
    assert_eq!(
        parse_args(&argv(&["twt", "stat", "weekly", "c", "1h"])).unwrap_err(),
        TwtError::BadSubcommand
    );
}

#[test]
fn test_parse_args_last() {
    match parse_args(&argv(&["twt", "stat", "last", "c", "2h"])).unwrap() {
        Command::Last { column, duration_ms, pattern } => {
            assert!(matches!(column, LogColumn::Class));
            assert_eq!(duration_ms, 7_200_000);
            assert!(pattern.is_none());
        },
        _ => panic!("expected a last-duration query"),
    }
}

#[test]
fn test_parse_args_last_with_pattern() {
    match parse_args(&argv(&["twt", "stat", "last", "n", "90s", "kit"])).unwrap() {
        Command::Last { column, duration_ms, pattern } => {
            assert!(matches!(column, LogColumn::Name));
            assert_eq!(duration_ms, 90_000);
            assert_eq!(pattern.unwrap(), "kit");
        },
        _ => panic!("expected a last-duration query"),
    }
}

#[test]
fn test_parse_args_last_bad_duration_and_column() {
    assert_eq!(
        parse_args(&argv(&["twt", "stat", "last", "c", "2x"])).unwrap_err(),
        TwtError::BadDuration
    );
    assert_eq!(
        parse_args(&argv(&["twt", "stat", "last", "q", "2h"])).unwrap_err(),
        TwtError::BadColumn
    );
}

#[test]
fn test_parse_args_span() {
    match parse_args(&argv(&[
        "twt",
        "stat",
        "span",
        "c",
        "2023-03-13 17:29:00",
        "2023-03-13 18:29:00",
    ]))
    .unwrap()
    {
        Command::Span { column, begin, end, pattern } => {
            assert!(matches!(column, LogColumn::Class));
            assert_eq!(begin, 1678728540000);
            assert_eq!(end, 1678732140000);
            assert!(pattern.is_none());
        },
        _ => panic!("expected a span query"),
    }
}

#[test]
fn test_parse_args_span_with_pattern() {
    match parse_args(&argv(&[
        "twt",
        "stat",
        "span",
        "n",
        "1970-01-01 00:00:00",
        "1970-01-01 01:00:00",
        "bash",
    ]))
    .unwrap()
    {
        Command::Span { begin, end, pattern, .. } => {
            assert_eq!(begin, 0);
            assert_eq!(end, 3_600_000);
            assert_eq!(pattern.unwrap(), "bash");
        },
        _ => panic!("expected a span query"),
    }
}

#[test]
fn test_parse_args_span_bad_timestamp() {
    assert_eq!(
        parse_args(&argv(&[
            "twt",
            "stat",
            "span",
            "c",
            "yesterday",
            "2023-03-13 18:29:00"
        ]))
        .unwrap_err(),
        TwtError::BadTimestamp
    );
}
