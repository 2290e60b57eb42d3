use yflow::client::PushKeysResponse;
use yflow::flatten::FlatMap;
use yflow::import_cmd::{
    is_rate_limit_error, mentions_rate_limit, note_batch_failure, note_failed_keys, plan_batches,
    split_batches, ImportAction, ImportCmd, ImportEvent, ImportRun, ImportSettings, ImportStep,
    BATCH_DELAY_MS, BATCH_SIZE, MAX_RETRIES,
};
use yflow::str_map::StrMap;
use yflow::types::Translations;

fn numbered(count: usize) -> FlatMap {
    let mut map: FlatMap = StrMap::new();
    for i in 0..count {
        map.insert(format!("key{}", i), format!("value{}", i));
    }
    map
}

fn one_language(code: &str, count: usize) -> Translations {
    let mut translations: Translations = StrMap::new();
    translations.insert(code.to_string(), numbered(count));
    translations
}

fn pushed(added: usize) -> ImportEvent {
    ImportEvent::Pushed(PushKeysResponse {
        added: (0..added).map(|i| format!("key{}", i)).collect(),
        existed: Vec::new(),
        failed: Vec::new(),
    })
}

fn rate_limited() -> ImportEvent {
    ImportEvent::failure("Request failed: status code 429".to_string())
}

fn expect_push(action: ImportAction) -> (String, usize, usize, bool) {
    match action {
        ImportAction::Push(batch) => {
            (batch.language, batch.number, batch.entries.len(), batch.is_last)
        }
        other => panic!("expected a push, got {:?}", other),
    }
}

fn expect_sleep(action: ImportAction) -> u64 {
    match action {
        ImportAction::Sleep { millis } => millis,
        other => panic!("expected a sleep, got {:?}", other),
    }
}

#[test]
fn test_import_cmd_default() {
    let cmd = ImportCmd { config: None, dry_run: false };
    assert!(!cmd.dry_run);
}

#[test]
fn test_import_cmd_with_dry_run() {
    let cmd = ImportCmd { config: None, dry_run: true };
    assert!(cmd.dry_run);
}

#[test]
fn test_is_rate_limit_error_429() {
    assert!(is_rate_limit_error("HTTP 429: Too Many Requests"));
}

#[test]
fn test_is_rate_limit_error_case_insensitive() {
    assert!(is_rate_limit_error("rate limit exceeded"));
    assert!(is_rate_limit_error("RATE LIMIT"));
    assert!(is_rate_limit_error("Too Many Requests"));
}

#[test]
fn test_is_rate_limit_error_negative() {
    assert!(!is_rate_limit_error("Not Found: 404"));
}

#[test]
fn test_constants() {
    assert_eq!(BATCH_SIZE, 50);
    assert_eq!(BATCH_DELAY_MS, 200);
    assert_eq!(MAX_RETRIES, 3);
}

#[test]
fn mentions_rate_limit_reads_lower_case_only() {
    assert!(mentions_rate_limit("status code 429"));
    assert!(mentions_rate_limit("rate limit"));
    assert!(mentions_rate_limit("too many requests"));
    assert!(!mentions_rate_limit("RATE LIMIT"));
    assert!(!mentions_rate_limit("timeout"));
}

#[test]
fn default_settings_are_valid() {
    let settings = ImportSettings::default();
    assert_eq!(settings.batch_size, 50);
    assert_eq!(settings.batch_delay_ms, 200);
    assert_eq!(settings.max_retries, 3);
    assert!(settings.is_valid());
    assert!(!ImportSettings { batch_size: 0, batch_delay_ms: 1, max_retries: 1 }.is_valid());
    assert!(ImportSettings { batch_size: 1, batch_delay_ms: 1, max_retries: 0 }.is_valid());
    assert!(!ImportSettings { batch_size: 1, batch_delay_ms: 1, max_retries: usize::MAX }
        .is_valid());
    assert!(!ImportSettings { batch_size: 1, batch_delay_ms: u64::MAX, max_retries: 1 }.is_valid());
}

#[test]
fn batches_of_120_keys_are_50_50_20() {
    let pieces = split_batches(&numbered(120), 50);
    let sizes: Vec<usize> = pieces.iter().map(|p| p.len()).collect();
    assert_eq!(sizes, vec![50, 50, 20]);
    assert_eq!(pieces[0].key_at(0), "key0");
    assert_eq!(pieces[1].key_at(0), "key50");
    assert_eq!(pieces[2].key_at(19), "key119");
}

#[test]
fn batches_edge_sizes() {
    assert!(split_batches(&numbered(0), 50).is_empty());
    let exact: Vec<usize> = split_batches(&numbered(100), 50).iter().map(|p| p.len()).collect();
    assert_eq!(exact, vec![50, 50]);
    let one: Vec<usize> = split_batches(&numbered(3), 1).iter().map(|p| p.len()).collect();
    assert_eq!(one, vec![1, 1, 1]);
    let small: Vec<usize> = split_batches(&numbered(3), 50).iter().map(|p| p.len()).collect();
    assert_eq!(small, vec![3]);
}

#[test]
fn plan_goes_language_by_language() {
    let mut translations: Translations = StrMap::new();
    translations.insert("en".to_string(), numbered(60));
    translations.insert("empty".to_string(), numbered(0));
    translations.insert("zh".to_string(), numbered(10));
    let plan = plan_batches(&translations, 50);
    let shape: Vec<(String, usize, usize, bool)> = plan
        .iter()
        .map(|b| (b.language.clone(), b.number, b.entries.len(), b.is_last))
        .collect();
    assert_eq!(
        shape,
        vec![
            ("en".to_string(), 1, 50, false),
            ("en".to_string(), 2, 10, true),
            ("zh".to_string(), 1, 10, true),
        ]
    );
}

#[test]
fn push_runs_through_its_batches() {
    let mut run = ImportRun::new(&one_language("en", 120), ImportSettings::default());
    assert!(!run.is_finished());

    assert_eq!(expect_push(run.step(ImportEvent::Start)), ("en".to_string(), 1, 50, false));
    assert_eq!(expect_sleep(run.step(pushed(50))), 200);
    assert_eq!(expect_push(run.step(ImportEvent::Woke)), ("en".to_string(), 2, 50, false));
    assert_eq!(expect_sleep(run.step(pushed(50))), 200);
    assert_eq!(expect_push(run.step(ImportEvent::Woke)), ("en".to_string(), 3, 20, true));
    assert!(matches!(run.step(pushed(20)), ImportAction::Finish));

    assert!(run.is_finished());
    let result = run.into_result();
    assert_eq!(result.added, 120);
    assert_eq!(result.updated, 0);
    assert_eq!(result.failed, 0);
    assert!(result.errors.is_empty());
}

#[test]
fn rate_limited_batch_waits_twice_then_succeeds() {
    let mut run = ImportRun::new(&one_language("en", 3), ImportSettings::default());
    expect_push(run.step(ImportEvent::Start));
    assert_eq!(expect_sleep(run.step(rate_limited())), 400);
    assert_eq!(expect_push(run.step(ImportEvent::Woke)), ("en".to_string(), 1, 3, true));
    assert_eq!(expect_sleep(run.step(rate_limited())), 800);
    assert_eq!(expect_push(run.step(ImportEvent::Woke)), ("en".to_string(), 1, 3, true));
    assert!(matches!(run.step(pushed(3)), ImportAction::Finish));
    let result = run.into_result();
    assert_eq!(result.added, 3);
    assert_eq!(result.failed, 0);
    assert!(result.errors.is_empty());
}

#[test]
fn rate_limited_batch_fails_when_retries_are_used_up() {
    let mut translations: Translations = StrMap::new();
    translations.insert("en".to_string(), numbered(3));
    translations.insert("zh".to_string(), numbered(2));
    let mut run = ImportRun::new(&translations, ImportSettings::default());
    expect_push(run.step(ImportEvent::Start));
    assert_eq!(expect_sleep(run.step(rate_limited())), 400);
    expect_push(run.step(ImportEvent::Woke));
    assert_eq!(expect_sleep(run.step(rate_limited())), 800);
    expect_push(run.step(ImportEvent::Woke));
    assert_eq!(expect_sleep(run.step(rate_limited())), 1200);
    assert_eq!(expect_push(run.step(ImportEvent::Woke)), ("en".to_string(), 1, 3, true));
    assert_eq!(expect_push(run.step(rate_limited())), ("zh".to_string(), 1, 2, true));
    assert!(matches!(run.step(pushed(2)), ImportAction::Finish));
    let result = run.into_result();
    assert_eq!(result.added, 2);
    assert_eq!(result.failed, 3);
    assert_eq!(result.errors, vec!["en[1]: Request failed: status code 429"]);
}

#[test]
fn other_failure_fails_the_batch_at_once() {
    let mut run = ImportRun::new(&one_language("en", 60), ImportSettings::default());
    expect_push(run.step(ImportEvent::Start));
    let action = run.step(ImportEvent::failure("connection refused".to_string()));
    assert_eq!(expect_sleep(action), 200);
    assert_eq!(expect_push(run.step(ImportEvent::Woke)), ("en".to_string(), 2, 10, true));
    assert!(matches!(run.step(pushed(10)), ImportAction::Finish));
    let result = run.into_result();
    assert_eq!(result.added, 10);
    assert_eq!(result.failed, 50);
    assert_eq!(result.errors, vec!["en[1]: connection refused"]);
}

#[test]
fn unexpected_events_change_nothing() {
    let mut run = ImportRun::new(&one_language("en", 60), ImportSettings::default());
    expect_push(run.step(ImportEvent::Start));
    assert_eq!(expect_push(run.step(ImportEvent::Woke)), ("en".to_string(), 1, 50, false));
    assert_eq!(expect_sleep(run.step(pushed(50))), 200);
    assert_eq!(expect_sleep(run.step(pushed(50))), 200);
    assert_eq!(run.result().added, 50);
    expect_push(run.step(ImportEvent::Woke));
    assert!(matches!(run.step(pushed(10)), ImportAction::Finish));
    assert!(matches!(run.step(ImportEvent::Woke), ImportAction::Finish));
    assert_eq!(run.result().added, 60);
}

#[test]
fn push_of_nothing_finishes_at_once() {
    let translations: Translations = StrMap::new();
    let mut run = ImportRun::new(&translations, ImportSettings::default());
    assert!(matches!(run.step(ImportEvent::Start), ImportAction::Finish));
    assert!(run.is_finished());
}

#[test]
fn can_take_checks_the_counts() {
    let mut run = ImportRun::new(&one_language("en", 3), ImportSettings::default());
    assert!(run.can_take(&ImportEvent::Start));
    expect_push(run.step(ImportEvent::Start));
    assert!(run.can_take(&pushed(3)));
    assert!(run.can_take(&rate_limited()));
}

#[test]
fn failed_keys_are_noted() {
    let mut errors: Vec<String> = Vec::new();
    note_failed_keys(&mut errors, "en", 2, &vec![]);
    assert!(errors.is_empty());

    note_failed_keys(&mut errors, "en", 2, &vec!["a".to_string(), "b".to_string()]);
    assert_eq!(errors, vec!["en[2]: failed keys - a, b"]);

    let many: Vec<String> = (0..12).map(|i| format!("k{}", i)).collect();
    let mut errors: Vec<String> = Vec::new();
    note_failed_keys(&mut errors, "zh", 1, &many);
    assert_eq!(
        errors,
        vec![
            "zh[1]: failed keys - k0, k1, k2, k3, k4, k5, k6, k7, k8, k9".to_string(),
            "  ... and 2 more".to_string(),
        ]
    );

    let mut errors: Vec<String> = Vec::new();
    note_batch_failure(&mut errors, "en", 3, "boom");
    assert_eq!(errors, vec!["en[3]: boom"]);
}

#[test]
fn answer_with_failed_keys_is_counted_and_noted() {
    let mut run = ImportRun::new(&one_language("en", 3), ImportSettings::default());
    expect_push(run.step(ImportEvent::Start));
    let event = ImportEvent::Pushed(PushKeysResponse {
        added: vec!["key0".to_string()],
        existed: vec!["key1".to_string()],
        failed: vec!["key2".to_string()],
    });
    assert!(matches!(run.step(event), ImportAction::Finish));
    let result = run.into_result();
    assert_eq!((result.added, result.updated, result.failed), (1, 1, 1));
    assert_eq!(result.errors, vec!["en[1]: failed keys - key2"]);
}

#[test]
fn dry_run_shows_counts_and_samples() {
    let mut translations: Translations = StrMap::new();
    translations.insert("en".to_string(), numbered(7));
    let mut long: FlatMap = StrMap::new();
    long.insert("k".to_string(), "x".repeat(60));
    translations.insert("zh".to_string(), long);
    let cmd = ImportCmd { config: None, dry_run: true };
    let preview = cmd.dry_run_import(&translations);
    assert_eq!(preview.len(), 2);
    assert_eq!(preview[0].language, "en");
    assert_eq!(preview[0].key_count, 7);
    assert_eq!(preview[0].samples.len(), 5);
    assert_eq!(preview[0].samples[0], ("key0".to_string(), "value0".to_string()));
    assert_eq!(preview[0].more, 2);
    assert_eq!(preview[1].key_count, 1);
    assert_eq!(preview[1].samples[0].1, "x".repeat(50));
    assert_eq!(preview[1].more, 0);

    let result = cmd.dry_run_result(8);
    assert_eq!((result.added, result.updated, result.failed), (8, 0, 0));
}

#[test]
fn import_steps_after_the_scan() {
    let dry = ImportCmd { config: None, dry_run: true };
    let real = ImportCmd { config: None, dry_run: false };
    assert_eq!(dry.after_scan(0), ImportStep::Skip);
    assert_eq!(real.after_scan(0), ImportStep::Skip);
    assert_eq!(dry.after_scan(3), ImportStep::Preview);
    assert_eq!(real.after_scan(3), ImportStep::Push);
}

#[test]
fn always_rate_limited_batch_is_retried_three_times_then_abandoned() {
    let mut run = ImportRun::new(&one_language("en", 7), ImportSettings::default());
    assert_eq!(expect_push(run.step(ImportEvent::Start)), ("en".to_string(), 1, 7, true));
    assert_eq!(expect_sleep(run.step(rate_limited())), 400);
    assert_eq!(expect_push(run.step(ImportEvent::Woke)), ("en".to_string(), 1, 7, true));
    assert_eq!(expect_sleep(run.step(rate_limited())), 800);
    assert_eq!(expect_push(run.step(ImportEvent::Woke)), ("en".to_string(), 1, 7, true));
    assert_eq!(expect_sleep(run.step(rate_limited())), 1200);
    assert_eq!(expect_push(run.step(ImportEvent::Woke)), ("en".to_string(), 1, 7, true));
    assert!(matches!(run.step(rate_limited()), ImportAction::Finish));
    assert!(run.is_finished());
    let result = run.into_result();
    assert_eq!((result.added, result.updated, result.failed), (0, 0, 7));
    assert_eq!(result.errors.len(), 1);
}

#[test]
fn without_retries_a_rate_limit_fails_the_batch_at_once() {
    let settings = ImportSettings { batch_size: 50, batch_delay_ms: 200, max_retries: 0 };
    let mut run = ImportRun::new(&one_language("en", 2), settings);
    expect_push(run.step(ImportEvent::Start));
    assert!(matches!(run.step(rate_limited()), ImportAction::Finish));
    assert_eq!(run.result().failed, 2);
}

#[test]
fn retry_count_starts_anew_with_each_batch() {
    let mut run = ImportRun::new(&one_language("en", 60), ImportSettings::default());
    expect_push(run.step(ImportEvent::Start));
    assert_eq!(expect_sleep(run.step(rate_limited())), 400);
    expect_push(run.step(ImportEvent::Woke));
    assert_eq!(expect_sleep(run.step(pushed(50))), 200);
    assert_eq!(expect_push(run.step(ImportEvent::Woke)), ("en".to_string(), 2, 10, true));
    assert_eq!(expect_sleep(run.step(rate_limited())), 400);
}
