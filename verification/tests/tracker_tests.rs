use twt::tracker::{Observation, TickEffect, TrackerState};

fn obs(class: &str, name: &str) -> Observation {
    Observation::Identity {
        window_class: class.to_string(),
        window_name: name.to_string(),
    }
}

#[test]
fn test_tracker_opens_first_session() {
    let state = TrackerState::new();
    let (state, effect) = state.tick(obs("kitty", "bash"), false, 1000);
    match effect {
        TickEffect::Open(log) => {
            assert_eq!(log.window_class, "kitty");
            assert_eq!(log.window_name, "bash");
            assert_eq!(log.start, 1000);
            assert_eq!(log.end, Some(1000));
        },
        _ => panic!("expected a fresh record"),
    }
    assert!(!state.pending_reopen);
    assert!(state.current.is_some());
}

#[test]
fn test_tracker_extends_same_identity() {
    let state = TrackerState::new();
    let (state, _) = state.tick(obs("kitty", "bash"), false, 1000);
    let (state, effect) = state.tick(obs("kitty", "bash"), false, 2000);
    assert!(matches!(effect, TickEffect::RefreshEnd));
    let current = state.current.as_ref().unwrap();
    assert_eq!(current.window_class, "kitty");
    assert_eq!(current.start, 1000);
    assert_eq!(current.end, Some(2000));
}

#[test]
fn test_tracker_reopens_after_idle_even_for_same_identity() {
    let state = TrackerState::new();
    let (state, _) = state.tick(obs("kitty", "bash"), false, 1000);
    let (state, idle_effect) = state.tick(obs("kitty", "bash"), true, 2000);
    assert!(matches!(idle_effect, TickEffect::RefreshEnd));
    assert!(state.pending_reopen);
    let (state, effect) = state.tick(obs("kitty", "bash"), false, 3000);
    match effect {
        TickEffect::CloseAndOpen(log) => {
            assert_eq!(log.window_class, "kitty");
            assert_eq!(log.start, 3000);
            assert_eq!(log.end, Some(3000));
        },
        _ => panic!("expected a new record after the idle period"),
    }
    let current = state.current.as_ref().unwrap();
    assert_eq!(current.start, 3000);
    assert!(!state.pending_reopen);
}

#[test]
fn test_tracker_identity_change_closes_and_opens() {
    let state = TrackerState::new();
    let (state, _) = state.tick(obs("kitty", "bash"), false, 1000);
    let (state, effect) = state.tick(obs("code", "main.rs"), false, 2000);
    match effect {
        TickEffect::CloseAndOpen(log) => {
            assert_eq!(log.window_class, "code");
            assert_eq!(log.start, 2000);
        },
        _ => panic!("expected the session to change"),
    }
    assert_eq!(state.current.as_ref().unwrap().window_class, "code");
}

#[test]
fn test_tracker_idle_with_nothing_open_does_nothing() {
    let state = TrackerState::new();
    let (state, effect) = state.tick(obs("kitty", "bash"), true, 1000);
    assert!(matches!(effect, TickEffect::Nothing));
    assert!(state.pending_reopen);
    assert!(state.current.is_none());
}

#[test]
fn test_tracker_failed_observation_acts_like_idle() {
    let state = TrackerState::new();
    let (state, _) = state.tick(obs("kitty", "bash"), false, 1000);
    let (state, effect) = state.tick(Observation::Failed, false, 2000);
    assert!(matches!(effect, TickEffect::RefreshEnd));
    assert!(state.pending_reopen);
    assert_eq!(state.current.as_ref().unwrap().end, Some(2000));
}

#[test]
fn test_is_user_afk() {
    assert!(twt::tracker::is_user_afk(10001, 10, false));
    assert!(!twt::tracker::is_user_afk(10000, 10, false));
    assert!(!twt::tracker::is_user_afk(10001, 10, true));
    assert!(!twt::tracker::is_user_afk(0, 0, false));
    assert!(twt::tracker::is_user_afk(1, 0, false));
}

#[test]
fn test_is_something_playing() {
    assert!(twt::tracker::is_something_playing("Playing\n"));
    assert!(twt::tracker::is_something_playing("  Playing  "));
    assert!(!twt::tracker::is_something_playing("Paused\n"));
    assert!(!twt::tracker::is_something_playing(""));
}

#[test]
fn test_parse_observation_reads_class_and_name() {
    let r = twt::tracker::parse_observation("kitty\nbash - vim\n");
    match r {
        Observation::Identity { window_class, window_name } => {
            assert_eq!(window_class, "kitty");
            assert_eq!(window_name, "bash - vim");
        },
        Observation::Failed => panic!("expected an identity"),
    }
}

#[test]
fn test_parse_observation_replaces_tabs() {
    let r = twt::tracker::parse_observation("ki\ttty\n  bash\t \n");
    match r {
        Observation::Identity { window_class, window_name } => {
            assert_eq!(window_class, "ki tty");
            assert_eq!(window_name, "bash");
        },
        Observation::Failed => panic!("expected an identity"),
    }
}

#[test]
fn test_parse_observation_needs_two_lines() {
    assert!(matches!(
        twt::tracker::parse_observation("kitty"),
        Observation::Failed
    ));
    assert!(matches!(
        twt::tracker::parse_observation(""),
        Observation::Failed
    ));
}

#[test]
fn test_parse_observation_rejects_whitespace_only_output() {
    assert!(matches!(
        twt::tracker::parse_observation(" \t\n \n"),
        Observation::Failed
    ));
}
