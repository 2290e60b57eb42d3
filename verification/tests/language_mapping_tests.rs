use yflow::flatten::FlatMap;
use yflow::language_mapping::{create_language_mapper, LanguageMapper};
use yflow::str_map::StrMap;
use yflow::types::Translations;

fn flat(pairs: Vec<(&str, &str)>) -> FlatMap {
    let mut map: FlatMap = StrMap::new();
    for (k, v) in pairs {
        map.insert(k.to_string(), v.to_string());
    }
    map
}

fn translations(languages: Vec<(&str, Vec<(&str, &str)>)>) -> Translations {
    let mut set: Translations = StrMap::new();
    for (code, pairs) in languages {
        set.insert(code.to_string(), flat(pairs));
    }
    set
}

#[test]
fn test_no_mapping() {
    let mapper = LanguageMapper::new(None);

    assert!(!mapper.needs_mapping());
    assert_eq!(mapper.to_backend("en"), "en");
    assert_eq!(mapper.to_local("en"), "en");
}

#[test]
fn test_single_mapping() {
    let mapper = LanguageMapper::new(Some(flat(vec![("zh_CN", "zh")])));

    assert!(mapper.needs_mapping());
    assert_eq!(mapper.to_backend("zh_CN"), "zh");
    assert_eq!(mapper.to_local("zh"), "zh_CN");
}

#[test]
fn test_multiple_mappings() {
    let mapper = LanguageMapper::new(Some(flat(vec![
        ("zh_CN", "zh"),
        ("zh_TW", "tw"),
        ("en_US", "en"),
    ])));

    assert_eq!(mapper.to_backend("zh_CN"), "zh");
    assert_eq!(mapper.to_backend("zh_TW"), "tw");
    assert_eq!(mapper.to_backend("en_US"), "en");

    assert_eq!(mapper.to_backend("ja_JP"), "ja_JP");
}

#[test]
fn test_apply_to_translations() {
    let mapper = LanguageMapper::new(Some(flat(vec![("zh_CN", "zh")])));

    let input = translations(vec![
        ("zh_CN", vec![("hello", "你好")]),
        ("en", vec![("hello", "Hello")]),
    ]);

    let result = mapper.apply_to_translations(input);

    assert_eq!(result.len(), 2);
    assert!(result.contains_key("zh"));
    assert!(result.contains_key("en"));
    assert_eq!(result.get("zh").unwrap().get("hello"), Some(&"你好".to_string()));
    assert_eq!(result.get("en").unwrap().get("hello"), Some(&"Hello".to_string()));
}

#[test]
fn test_reverse_translations() {
    let mapper = LanguageMapper::new(Some(flat(vec![("zh_CN", "zh")])));

    let input = translations(vec![
        ("zh", vec![("hello", "你好")]),
        ("en", vec![("hello", "Hello")]),
    ]);

    let result = mapper.reverse_translations(input);

    assert_eq!(result.len(), 2);
    assert!(result.contains_key("zh_CN"));
    assert!(result.contains_key("en"));
    assert_eq!(result.get("zh_CN").unwrap().get("hello"), Some(&"你好".to_string()));
}

#[test]
fn test_get_description() {
    let mapper = LanguageMapper::new(Some(flat(vec![("zh_CN", "zh"), ("zh_TW", "tw")])));

    let desc = mapper.get_description();
    assert!(desc.contains("Language mapping:"));
    assert!(desc.contains("zh_CN → zh"));
    assert!(desc.contains("zh_TW → tw"));
}

#[test]
fn test_duplicate_backend_codes() {
    let mapper = LanguageMapper::new(Some(flat(vec![("zh_CN", "zh"), ("zh_SG", "zh")])));

    let input = translations(vec![
        ("zh_CN", vec![("greeting", "你好")]),
        ("zh_SG", vec![("greeting", "你好")]),
    ]);

    let result = mapper.apply_to_translations(input);

    assert_eq!(result.len(), 1);
    assert!(result.contains_key("zh"));
}

#[test]
fn colliding_languages_are_put_together() {
    let mapper = LanguageMapper::new(Some(flat(vec![("zh_CN", "zh"), ("zh_SG", "zh")])));
    let input = translations(vec![
        ("zh_CN", vec![("greeting", "你好"), ("only_cn", "中")]),
        ("zh_SG", vec![("greeting", "您好"), ("only_sg", "新")]),
    ]);
    let result = mapper.apply_to_translations(input);
    assert_eq!(result.len(), 1);
    let zh = result.get("zh").unwrap();
    assert_eq!(zh.len(), 3);
    assert_eq!(zh.get("greeting"), Some(&"您好".to_string()));
    assert_eq!(zh.get("only_cn"), Some(&"中".to_string()));
    assert_eq!(zh.get("only_sg"), Some(&"新".to_string()));
}

#[test]
fn reverse_table_keeps_the_later_local_code() {
    let mapper = LanguageMapper::new(Some(flat(vec![("zh_CN", "zh"), ("zh_SG", "zh")])));
    assert_eq!(mapper.to_local("zh"), "zh_SG");
    assert_eq!(mapper.to_local("en"), "en");
}

#[test]
fn descriptions_are_exact() {
    let none = create_language_mapper(None);
    assert_eq!(none.get_description(), "No language mapping");
    let two = create_language_mapper(Some(flat(vec![("zh_CN", "zh"), ("zh_TW", "tw")])));
    assert_eq!(two.get_description(), "Language mapping: zh_CN → zh, zh_TW → tw");
}

#[test]
fn mapping_without_table_changes_nothing() {
    let mapper = LanguageMapper::new(None);
    let input = translations(vec![("en", vec![("a", "1")]), ("de", vec![("a", "2")])]);
    let result = mapper.apply_to_translations(input);
    assert_eq!(result.len(), 2);
    assert_eq!(result.key_at(0), "en");
    assert_eq!(result.key_at(1), "de");
    assert_eq!(result.get("de").unwrap().get("a"), Some(&"2".to_string()));
}
