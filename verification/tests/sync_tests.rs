use yflow::flatten::FlatMap;
use yflow::language_mapping::LanguageMapper;
use yflow::str_map::StrMap;
use yflow::sync_cmd::{
    first_keys, has_keys, prepare_pull, sync_diff, sync_stats, SyncCmd, SyncStep,
};
use yflow::types::Translations;

fn flat(pairs: Vec<(&str, &str)>) -> FlatMap {
    let mut map: FlatMap = StrMap::new();
    for (k, v) in pairs {
        map.insert(k.to_string(), v.to_string());
    }
    map
}

fn translations(languages: Vec<(&str, Vec<(&str, &str)>)>) -> Translations {
    let mut set: Translations = StrMap::new();
    for (code, pairs) in languages {
        set.insert(code.to_string(), flat(pairs));
    }
    set
}

#[test]
fn test_sync_cmd_default() {
    let cmd = SyncCmd { config: None, dry_run: false, force: false };
    assert!(!cmd.dry_run);
    assert!(!cmd.force);
}

#[test]
fn test_sync_cmd_with_force() {
    let cmd = SyncCmd { config: None, dry_run: false, force: true };
    assert!(cmd.force);
}

#[test]
fn test_sync_cmd_with_dry_run() {
    let cmd = SyncCmd { config: None, dry_run: true, force: false };
    assert!(cmd.dry_run);
}

#[test]
fn test_sync_cmd_with_both_options() {
    let cmd = SyncCmd { config: Some("/custom/path".to_string()), dry_run: true, force: true };
    assert!(cmd.dry_run);
    assert!(cmd.force);
    assert_eq!(cmd.config, Some("/custom/path".to_string()));
}

#[test]
fn test_execute_sync_stats_with_force() {
    let local = translations(vec![("en", vec![("greeting", "Hello")])]);
    let incoming =
        translations(vec![("en", vec![("greeting", "Hello Updated"), ("new_key", "New Value")])]);
    let cmd = SyncCmd { config: None, dry_run: false, force: true };
    let result = cmd.execute_sync(&incoming, &local, 1);
    assert_eq!(result.downloaded, 2);
    assert_eq!(result.skipped, 0);
    assert!(result.written >= 1);
}

#[test]
fn test_execute_sync_stats_without_force() {
    let local = translations(vec![("en", vec![("greeting", "Hello")])]);
    let incoming =
        translations(vec![("en", vec![("greeting", "Hello Updated"), ("new_key", "New Value")])]);
    let cmd = SyncCmd { config: None, dry_run: false, force: false };
    let result = cmd.execute_sync(&incoming, &local, 1);
    assert_eq!(result.downloaded, 1);
    assert_eq!(result.skipped, 1);
    assert!(result.written >= 1);
}

#[test]
fn test_execute_sync_stats_multiple_languages() {
    let local = translations(vec![
        ("en", vec![("greeting", "Hello")]),
        ("zh_CN", vec![("greeting", "你好")]),
    ]);
    let incoming = translations(vec![
        ("en", vec![("greeting", "Hello Updated"), ("new_en", "New EN")]),
        ("zh_CN", vec![("greeting", "你好更新"), ("new_zh", "新中文")]),
    ]);
    let cmd = SyncCmd { config: None, dry_run: false, force: false };
    let result = cmd.execute_sync(&incoming, &local, 2);
    assert_eq!(result.downloaded, 2);
    assert_eq!(result.skipped, 2);
    assert!(result.written >= 2);
}

#[test]
fn test_execute_sync_stats_new_language() {
    let local = translations(vec![("en", vec![("greeting", "Hello")])]);
    let incoming = translations(vec![
        ("en", vec![("greeting", "Hello Updated")]),
        ("ja_JP", vec![("greeting", "こんにちは")]),
    ]);
    let cmd = SyncCmd { config: None, dry_run: false, force: false };
    let result = cmd.execute_sync(&incoming, &local, 2);
    assert_eq!(result.downloaded, 1);
    assert_eq!(result.skipped, 1);
}

#[test]
fn test_execute_sync_empty_translations() {
    let local: Translations = StrMap::new();
    let incoming: Translations = StrMap::new();
    let cmd = SyncCmd { config: None, dry_run: false, force: false };
    let result = cmd.execute_sync(&incoming, &local, 0);
    assert_eq!(result.downloaded, 0);
    assert_eq!(result.skipped, 0);
    assert_eq!(result.written, 0);
}

#[test]
fn sync_stats_counts_by_key_sets() {
    let local = translations(vec![("en", vec![("a", "1"), ("b", "2")])]);
    let incoming = translations(vec![("en", vec![("a", "x"), ("c", "y")]), ("de", vec![])]);
    let plain = sync_stats(&incoming, &local, false, 3);
    assert_eq!((plain.downloaded, plain.skipped, plain.written), (1, 1, 3));
    assert!(plain.errors.is_empty());
    let forced = sync_stats(&incoming, &local, true, 3);
    assert_eq!((forced.downloaded, forced.skipped, forced.written), (2, 0, 3));
}

#[test]
fn empty_remote_needs_no_pull() {
    let mapper = LanguageMapper::new(None);
    let nothing: Translations = StrMap::new();
    assert!(!has_keys(&nothing));
    assert!(prepare_pull(nothing, &mapper).is_none());

    let no_keys = translations(vec![("en", vec![]), ("de", vec![])]);
    assert!(!has_keys(&no_keys));
    assert!(prepare_pull(no_keys, &mapper).is_none());
}

#[test]
fn pull_comes_under_local_codes() {
    let mut table: FlatMap = StrMap::new();
    table.insert("zh_CN".to_string(), "zh".to_string());
    let mapper = LanguageMapper::new(Some(table));
    let remote = translations(vec![("zh", vec![("hello", "你好")]), ("en", vec![("hello", "Hello")])]);
    assert!(has_keys(&remote));
    let incoming = prepare_pull(remote, &mapper).unwrap();
    assert_eq!(incoming.len(), 2);
    assert_eq!(incoming.get("zh_CN").unwrap().get("hello"), Some(&"你好".to_string()));
    assert!(incoming.contains_key("en"));
}

#[test]
fn diff_parts_new_from_existing() {
    let local = translations(vec![("en", vec![("a", "1"), ("b", "2")])]);
    let incoming =
        translations(vec![("en", vec![("c", "3"), ("a", "x"), ("d", "4")]), ("ja", vec![("a", "あ")])]);
    let diff = sync_diff(&incoming, &local);
    assert_eq!(diff.len(), 2);
    assert_eq!(diff[0].language, "en");
    assert_eq!(diff[0].new_keys, vec!["c", "d"]);
    assert_eq!(diff[0].existing_keys, vec!["a"]);
    assert_eq!(diff[1].language, "ja");
    assert_eq!(diff[1].new_keys, vec!["a"]);
    assert!(diff[1].existing_keys.is_empty());

    let cmd = SyncCmd { config: None, dry_run: true, force: false };
    assert_eq!(cmd.show_sync_diff(&incoming, &local).len(), 2);
}

#[test]
fn first_keys_takes_at_most_n() {
    let keys: Vec<String> = vec!["a".to_string(), "b".to_string(), "c".to_string()];
    assert_eq!(first_keys(&keys, 2), vec!["a", "b"]);
    assert_eq!(first_keys(&keys, 5), vec!["a", "b", "c"]);
    assert!(first_keys(&keys, 0).is_empty());
}

#[test]
fn sync_steps_after_the_fetch() {
    let dry = SyncCmd { config: None, dry_run: true, force: true };
    let real = SyncCmd { config: None, dry_run: false, force: false };
    assert_eq!(dry.after_fetch(), SyncStep::Preview);
    assert_eq!(real.after_fetch(), SyncStep::Write);
}
