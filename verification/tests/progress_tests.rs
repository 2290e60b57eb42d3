use yflow::progress::{
    format_duration, format_number, should_show_progress, ProgressOptions, ProgressState,
};

#[test]
fn test_progress_state_creation() {
    let state = ProgressState::new(100);
    assert_eq!(state.total(), 100);
    assert_eq!(state.completed(), 0);
    assert!(!state.is_complete());
}

#[test]
fn test_progress_state_increment() {
    let mut state = ProgressState::new(100);
    state.inc();
    assert_eq!(state.completed(), 1);
    state.inc_by(5);
    assert_eq!(state.completed(), 6);
}

#[test]
fn test_progress_state_is_complete() {
    let mut state = ProgressState::new(10);
    state.inc_by(9);
    assert!(!state.is_complete());
    state.inc();
    assert!(state.is_complete());
}

#[test]
fn test_format_number() {
    assert_eq!(format_number(0), "0");
    assert_eq!(format_number(1), "1");
    assert_eq!(format_number(1000), "1000");
}

#[test]
fn test_progress_options_defaults() {
    let opts = ProgressOptions::new();
    assert!(!opts.show_percentage);
    assert!(!opts.show_elapsed);
    assert!(!opts.show_eta);
}

#[test]
fn test_progress_options_builder() {
    let opts = ProgressOptions::new().with_percentage(true).with_elapsed(true).with_eta(true);
    assert!(opts.show_percentage);
    assert!(opts.show_elapsed);
    assert!(opts.show_eta);
}

#[test]
fn test_should_show_progress_disabled() {
    assert!(!should_show_progress(Some("0")));
}

#[test]
fn test_should_show_progress_explicitly_enabled() {
    assert!(should_show_progress(Some("1")));
    assert!(should_show_progress(None));
}

#[test]
fn progress_options_texts() {
    let opts = ProgressOptions::default().with_template("{bar}").with_chars("#", "-");
    assert_eq!(opts.template, Some("{bar}".to_string()));
    assert_eq!(opts.bar_char, Some("#".to_string()));
    assert_eq!(opts.empty_char, Some("-".to_string()));
    assert!(!opts.show_eta);
}

#[test]
fn progress_state_of_nothing_is_complete() {
    assert!(ProgressState::new(0).is_complete());
}

#[test]
fn durations_in_words() {
    assert_eq!(format_duration(10, 0), "10 seconds");
    assert_eq!(format_duration(0, 0), "0 seconds");
    assert_eq!(format_duration(120, 0), "2 minutes");
    assert_eq!(format_duration(3 * 3600, 0), "3 hours");
}
