use std_logger_parser::{get_log_targets, get_max_level, Level, LevelFilter, Logger, Targets};

#[test]
fn should_get_the_correct_log_level_from_env() {
    assert_eq!(get_max_level(Some("TRACE"), None, false, false), LevelFilter::Trace);
    assert_eq!(get_max_level(Some("ERROR"), None, false, false), LevelFilter::Error);
    assert_eq!(get_max_level(None, Some("ERROR"), false, false), LevelFilter::Error);
    assert_eq!(get_max_level(None, Some("DEBUG"), false, false), LevelFilter::Debug);
    assert_eq!(get_max_level(None, None, true, false), LevelFilter::Trace);
    assert_eq!(get_max_level(None, None, false, true), LevelFilter::Debug);
    assert_eq!(get_max_level(None, None, false, false), LevelFilter::Info);
}

#[test]
fn max_level_takes_the_first_setting_that_names_a_level() {
    assert_eq!(get_max_level(Some("warn"), Some("error"), true, true), LevelFilter::Warn);
    assert_eq!(get_max_level(Some("loud"), Some("error"), true, true), LevelFilter::Error);
    assert_eq!(get_max_level(Some("loud"), Some(""), true, true), LevelFilter::Trace);
    assert_eq!(get_max_level(Some("loud"), Some("louder"), false, true), LevelFilter::Debug);
    assert_eq!(get_max_level(Some("off"), None, true, true), LevelFilter::Off);
    assert_eq!(get_max_level(Some("Off"), None, false, false), LevelFilter::Off);
    assert_eq!(get_max_level(Some("iNfO"), None, true, false), LevelFilter::Info);
    assert_eq!(get_max_level(Some(" info"), None, false, false), LevelFilter::Info);
    assert_eq!(get_max_level(Some(" error"), None, false, false), LevelFilter::Info);
    assert_eq!(get_max_level(Some("errors"), None, false, false), LevelFilter::Info);
}

fn only(targets: &[&str]) -> Vec<String> {
    targets.iter().map(|t| (*t).to_owned()).collect()
}

#[test]
fn log_targets_are_split_at_commas() {
    assert!(matches!(get_log_targets(None), Targets::All));
    assert!(matches!(get_log_targets(Some("")), Targets::All));
    match get_log_targets(Some("my_crate")) {
        Targets::Only(list) => assert_eq!(list, only(&["my_crate"])),
        other => panic!("unexpected targets: {:?}", other),
    }
    match get_log_targets(Some("my_crate::a,other,gr\u{fc}n")) {
        Targets::Only(list) => assert_eq!(list, only(&["my_crate::a", "other", "gr\u{fc}n"])),
        other => panic!("unexpected targets: {:?}", other),
    }
    match get_log_targets(Some(",a,,b,")) {
        Targets::Only(list) => assert_eq!(list, only(&["", "a", "", "b", ""])),
        other => panic!("unexpected targets: {:?}", other),
    }
    match get_log_targets(Some(",")) {
        Targets::Only(list) => assert_eq!(list, only(&["", ""])),
        other => panic!("unexpected targets: {:?}", other),
    }
}

#[test]
fn should_log_by_target() {
    let all = Targets::All;
    assert!(all.should_log("anything"));
    assert!(all.should_log(""));
    let some = Targets::Only(only(&["my_crate::a", "other"]));
    assert!(some.should_log("my_crate::a"));
    assert!(some.should_log("my_crate::a::b"));
    assert!(some.should_log("other"));
    assert!(some.should_log("otherwise"));
    assert!(!some.should_log("my_crate"));
    assert!(!some.should_log("my_crate::b"));
    assert!(!some.should_log("othe"));
    assert!(!some.should_log(""));
    // Requests and panics are always logged.
    assert!(some.should_log("request"));
    assert!(some.should_log("panic"));
    assert!(!some.should_log("requests"));
    assert!(!some.should_log("Panic"));
    let none = Targets::Only(Vec::new());
    assert!(!none.should_log("my_crate"));
    assert!(none.should_log("request"));
    // The empty target starts every target.
    let empty = Targets::Only(only(&[""]));
    assert!(empty.should_log("my_crate"));
}

#[test]
fn logger_filters_by_level_and_target() {
    let logger =
        Logger { filter: LevelFilter::Info, targets: Targets::Only(only(&["my_crate"])) };
    assert!(logger.enabled(Level::Error, "my_crate"));
    assert!(logger.enabled(Level::Warn, "my_crate::a"));
    assert!(logger.enabled(Level::Info, "my_crate"));
    assert!(!logger.enabled(Level::Debug, "my_crate"));
    assert!(!logger.enabled(Level::Trace, "my_crate"));
    assert!(!logger.enabled(Level::Error, "other"));
    assert!(logger.enabled(Level::Info, "request"));
    assert!(!logger.enabled(Level::Debug, "request"));
    assert!(!logger.is_verbose());
    let off = Logger { filter: LevelFilter::Off, targets: Targets::All };
    assert!(!off.enabled(Level::Error, "my_crate"));
    assert!(!off.enabled(Level::Error, "panic"));
    let trace = Logger { filter: LevelFilter::Trace, targets: Targets::All };
    assert!(trace.enabled(Level::Trace, "x"));
    assert!(trace.is_verbose());
    let debug = Logger { filter: LevelFilter::Debug, targets: Targets::All };
    assert!(debug.enabled(Level::Debug, "x"));
    assert!(!debug.enabled(Level::Trace, "x"));
    assert!(debug.is_verbose());
}
