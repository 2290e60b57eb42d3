use yflow::flatten::FlatMap;
use yflow::json::JsonValue;
use yflow::scanner::{
    build_scan_result, check_root, empty_scan_result, is_json_file_name,
    merge_translations_with_structure, plan_writes, write_new_language_files, FileSource,
    LanguageSource, ScanError, SYNC_FILE_NAME,
};
use yflow::str_map::StrMap;
use yflow::types::{checked_count_keys, count_keys, TranslationFile, Translations};

fn text(s: &str) -> JsonValue {
    JsonValue::Text(s.to_string())
}

fn object(members: Vec<(&str, JsonValue)>) -> JsonValue {
    JsonValue::Object(members.into_iter().map(|(k, v)| (k.to_string(), v)).collect())
}

fn flat(pairs: Vec<(&str, &str)>) -> FlatMap {
    let mut map: FlatMap = StrMap::new();
    for (k, v) in pairs {
        map.insert(k.to_string(), v.to_string());
    }
    map
}

fn translations(languages: Vec<(&str, Vec<(&str, &str)>)>) -> Translations {
    let mut set: Translations = StrMap::new();
    for (code, pairs) in languages {
        set.insert(code.to_string(), flat(pairs));
    }
    set
}

fn source(path: &str, tree: Option<JsonValue>) -> FileSource {
    FileSource { path: path.to_string(), tree }
}

fn file(language: &str, path: &str) -> TranslationFile {
    TranslationFile { language: language.to_string(), path: path.to_string() }
}

fn paths(files: &Vec<TranslationFile>) -> Vec<(String, String)> {
    files.iter().map(|f| (f.language.clone(), f.path.clone())).collect()
}

fn messages() -> Vec<LanguageSource> {
    vec![
        LanguageSource {
            code: "en".to_string(),
            files: vec![
                source(
                    "en/common.json",
                    Some(object(vec![
                        ("greeting", text("Hello")),
                        ("user", object(vec![("name", text("User Name"))])),
                    ])),
                ),
                source(
                    "en/nested/deep.json",
                    Some(object(vec![("level", object(vec![("deep", text("Deep value"))]))])),
                ),
            ],
        },
        LanguageSource {
            code: "zh_CN".to_string(),
            files: vec![source(
                "zh_CN/common.json",
                Some(object(vec![
                    ("greeting", text("你好")),
                    ("user", object(vec![("name", text("用户名"))])),
                ])),
            )],
        },
    ]
}

#[test]
fn test_scan_messages_dir_missing() {
    let result = check_root("/nonexistent", false, false);
    assert!(result.is_err());
    assert!(matches!(result, Err(ScanError::DirectoryNotFound(_))));
}

#[test]
fn test_scan_empty_dir() {
    let result = build_scan_result(&vec![]).unwrap();
    assert_eq!(result.translations.len(), 0);
    assert_eq!(result.files.len(), 0);
    assert_eq!(result.key_count, 0);
}

#[test]
fn test_scan_single_language() {
    let sources = vec![LanguageSource {
        code: "en".to_string(),
        files: vec![source(
            "en/common.json",
            Some(object(vec![
                ("greeting", text("Hello")),
                ("user", object(vec![("name", text("User Name"))])),
            ])),
        )],
    }];
    let result = build_scan_result(&sources).unwrap();

    assert_eq!(result.translations.len(), 1);
    assert!(result.translations.contains_key("en"));
    assert_eq!(result.key_count, 2);
    assert!(result.files.len() >= 1);
}

#[test]
fn test_scan_multiple_languages() {
    let result = build_scan_result(&messages()).unwrap();

    assert_eq!(result.translations.len(), 2);
    assert!(result.translations.contains_key("en"));
    assert!(result.translations.contains_key("zh_CN"));
    assert_eq!(result.key_count, 5);
    assert!(result.files.len() >= 3);
}

#[test]
fn test_scan_nested_directories() {
    let result = build_scan_result(&messages()).unwrap();

    let en_translations = result.translations.get("en").unwrap();
    assert!(en_translations.contains_key("greeting"));
    assert!(en_translations.contains_key("user.name"));
    assert!(en_translations.contains_key("level.deep"));
}

#[test]
fn scan_of_two_languages_has_two_keys() {
    let sources = vec![
        LanguageSource {
            code: "en".to_string(),
            files: vec![source("en/a.json", Some(object(vec![("greeting", text("Hello"))])))],
        },
        LanguageSource {
            code: "zh_CN".to_string(),
            files: vec![source("zh_CN/a.json", Some(object(vec![("greeting", text("你好"))])))],
        },
    ];
    let result = build_scan_result(&sources).unwrap();
    assert_eq!(result.translations.len(), 2);
    assert_eq!(result.key_count, 2);
    assert_eq!(count_keys(&result.translations), 2);
    assert_eq!(checked_count_keys(&result.translations), Some(2));
    assert_eq!(
        paths(&result.files),
        vec![
            ("en".to_string(), "en/a.json".to_string()),
            ("zh_CN".to_string(), "zh_CN/a.json".to_string()),
        ]
    );
}

#[test]
fn scan_skips_files_that_could_not_be_read() {
    let sources = vec![LanguageSource {
        code: "en".to_string(),
        files: vec![
            source("en/broken.json", None),
            source("en/good.json", Some(object(vec![("a", text("1"))]))),
        ],
    }];
    let result = build_scan_result(&sources).unwrap();
    assert_eq!(result.key_count, 1);
    assert_eq!(paths(&result.files), vec![("en".to_string(), "en/good.json".to_string())]);
}

#[test]
fn scan_later_file_wins_a_shared_key() {
    let sources = vec![LanguageSource {
        code: "en".to_string(),
        files: vec![
            source("en/a.json", Some(object(vec![("k", text("first")), ("only_a", text("a"))]))),
            source("en/b.json", Some(object(vec![("k", text("second"))]))),
        ],
    }];
    let result = build_scan_result(&sources).unwrap();
    let en = result.translations.get("en").unwrap();
    assert_eq!(en.get("k"), Some(&"second".to_string()));
    assert_eq!(en.len(), 2);
    assert_eq!(result.key_count, 2);
}

#[test]
fn scan_keeps_a_language_without_keys() {
    let sources = vec![LanguageSource { code: "de".to_string(), files: vec![] }];
    let result = build_scan_result(&sources).unwrap();
    assert_eq!(result.translations.len(), 1);
    assert!(result.translations.get("de").unwrap().is_empty());
    assert_eq!(result.key_count, 0);
}

#[test]
fn empty_scan_result_is_empty() {
    let result = empty_scan_result();
    assert!(result.translations.is_empty());
    assert!(result.files.is_empty());
    assert_eq!(result.key_count, 0);
}

#[test]
fn root_must_be_a_directory() {
    assert!(check_root("m", true, true).is_ok());
    match check_root("m", true, false) {
        Err(error @ ScanError::NotADirectory(_)) => {
            assert_eq!(error.message(), "Path is not a directory: m")
        }
        other => panic!("unexpected: {:?}", other),
    }
    match check_root("m", false, true) {
        Err(error @ ScanError::DirectoryNotFound(_)) => {
            assert_eq!(error.message(), "Messages directory not found: m")
        }
        other => panic!("unexpected: {:?}", other),
    }
}

#[test]
fn json_file_names() {
    assert!(is_json_file_name("common.json"));
    assert!(is_json_file_name("a.b.json"));
    assert!(is_json_file_name("..json"));
    assert!(!is_json_file_name(".json"));
    assert!(!is_json_file_name("json"));
    assert!(!is_json_file_name("common.JSON"));
    assert!(!is_json_file_name("common.json.bak"));
    assert!(!is_json_file_name(""));
}

#[test]
fn test_write_translations_with_structure() {
    let original = object(vec![
        ("greeting", text("Hello")),
        ("user", object(vec![("name", text("User Name"))])),
    ]);
    let updates = flat(vec![("greeting", "Hello Updated"), ("new_key", "New Value")]);
    let merged = merge_translations_with_structure(&original, &updates, false);
    assert_eq!(merged.get("greeting"), Some(&text("Hello Updated")));
    assert_eq!(merged.get("new_key"), Some(&text("New Value")));
}

#[test]
fn test_write_translations_force_overwrite() {
    let original = object(vec![("greeting", text("Hello"))]);
    let merged =
        merge_translations_with_structure(&original, &flat(vec![("greeting", "Force Updated")]), true);
    assert_eq!(merged.get("greeting"), Some(&text("Force Updated")));
}

#[test]
fn test_write_translations_preserves_unrelated_keys() {
    let original = object(vec![
        ("greeting", text("Hello")),
        ("user", object(vec![("name", text("User Name"))])),
    ]);
    let merged =
        merge_translations_with_structure(&original, &flat(vec![("greeting", "Updated")]), false);
    assert_eq!(merged.get("user").unwrap().get("name"), Some(&text("User Name")));
}

#[test]
fn test_write_translations_creates_language_dir() {
    let incoming = translations(vec![("ja_JP", vec![("greeting", "こんにちは")])]);
    let plan = plan_writes(&vec![], &incoming);
    assert!(plan.merges.is_empty());
    assert_eq!(plan.creations.len(), 1);
    assert_eq!(plan.creations[0].language, "ja_JP");
    assert_eq!(plan.creations[0].file_name, "sync.json");
    assert_eq!(plan.creations[0].tree.get("greeting"), Some(&text("こんにちは")));
}

#[test]
fn test_write_translations_missing_language_files() {
    let files = vec![file("en", "en/common.json"), file("zh_CN", "zh_CN/common.json")];
    let incoming = translations(vec![("ja_JP", vec![("greeting", "こんにちは")])]);
    let plan = plan_writes(&files, &incoming);
    assert!(plan.merges.is_empty());
    assert_eq!(plan.creations.len(), 1);
    assert_eq!(plan.creations[0].language, "ja_JP");
}

#[test]
fn test_write_new_language_files_multiple() {
    let incoming = translations(vec![
        ("ja_JP", vec![("greeting", "こんにちは"), ("farewell", "さようなら")]),
        ("ko_KR", vec![("greeting", "안녕하세요")]),
    ]);
    let created = write_new_language_files(&incoming, &vec![]);
    assert_eq!(created.len(), 2);
    assert_eq!(created[0].language, "ja_JP");
    assert_eq!(created[0].tree.get("greeting"), Some(&text("こんにちは")));
    assert_eq!(created[0].tree.get("farewell"), Some(&text("さようなら")));
    assert_eq!(created[1].language, "ko_KR");
    assert_eq!(created[1].tree.get("greeting"), Some(&text("안녕하세요")));
}

#[test]
fn test_write_new_language_files_mixed_existing_and_new() {
    let files = vec![file("en", "en/common.json"), file("en", "en/nested/deep.json")];
    let incoming = translations(vec![
        ("en", vec![("greeting", "Hello Updated")]),
        ("ja_JP", vec![("greeting", "こんにちは")]),
    ]);
    let plan = plan_writes(&files, &incoming);
    assert_eq!(
        paths(&plan.merges),
        vec![
            ("en".to_string(), "en/common.json".to_string()),
            ("en".to_string(), "en/nested/deep.json".to_string()),
        ]
    );
    assert_eq!(plan.creations.len(), 1);
    assert_eq!(plan.creations[0].language, "ja_JP");
}

#[test]
fn test_write_new_language_files_empty_translations() {
    let incoming = translations(vec![("empty_lang", vec![])]);
    let plan = plan_writes(&vec![], &incoming);
    assert!(plan.merges.is_empty());
    assert!(plan.creations.is_empty());
}

#[test]
fn test_write_new_language_files_nested_structure() {
    let incoming = translations(vec![(
        "de_DE",
        vec![
            ("user.name", "Hans Müller"),
            ("user.profile.email", "hans@example.com"),
            ("greeting", "Guten Tag"),
        ],
    )]);
    let created = write_new_language_files(&incoming, &vec![]);
    assert_eq!(created.len(), 1);
    assert_eq!(SYNC_FILE_NAME, "sync.json");
    assert_eq!(
        created[0].tree,
        object(vec![
            (
                "user",
                object(vec![
                    ("name", text("Hans Müller")),
                    ("profile", object(vec![("email", text("hans@example.com"))])),
                ]),
            ),
            ("greeting", text("Guten Tag")),
        ])
    );
}

#[test]
fn pull_of_nothing_writes_nothing() {
    let files = vec![file("en", "en/common.json")];
    let nothing: Translations = StrMap::new();
    let plan = plan_writes(&files, &nothing);
    assert!(plan.merges.is_empty());
    assert!(plan.creations.is_empty());
}
