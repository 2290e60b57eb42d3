use yflow::flatten::{flatten_object, merge_with_flat, unflatten_object, FlatMap};
use yflow::json::JsonValue;
use yflow::str_map::StrMap;

fn text(s: &str) -> JsonValue {
    JsonValue::Text(s.to_string())
}

fn number(s: &str) -> JsonValue {
    JsonValue::Number(s.to_string())
}

fn object(members: Vec<(&str, JsonValue)>) -> JsonValue {
    JsonValue::Object(members.into_iter().map(|(k, v)| (k.to_string(), v)).collect())
}

fn flat(pairs: Vec<(&str, &str)>) -> FlatMap {
    let mut map: FlatMap = StrMap::new();
    for (k, v) in pairs {
        map.insert(k.to_string(), v.to_string());
    }
    map
}

#[test]
fn test_flatten_simple_object() {
    let input = object(vec![("hello", text("world"))]);
    let result = flatten_object(&input, "");
    assert_eq!(result.get("hello"), Some(&"world".to_string()));
    assert_eq!(result.len(), 1);
}

#[test]
fn test_flatten_nested_object() {
    let input = object(vec![(
        "user",
        object(vec![("name", text("John")), ("profile", object(vec![("age", text("30"))]))]),
    )]);
    let result = flatten_object(&input, "");
    assert_eq!(result.get("user.name"), Some(&"John".to_string()));
    assert_eq!(result.get("user.profile.age"), Some(&"30".to_string()));
    assert_eq!(result.len(), 2);
}

#[test]
fn test_flatten_deeply_nested() {
    let input = object(vec![(
        "a",
        object(vec![("b", object(vec![("c", object(vec![("d", text("deep"))]))]))]),
    )]);
    let result = flatten_object(&input, "");
    assert_eq!(result.get("a.b.c.d"), Some(&"deep".to_string()));
}

#[test]
fn test_flatten_ignores_non_strings() {
    let input = object(vec![
        ("string", text("value")),
        ("number", number("123")),
        ("bool", JsonValue::Bool(true)),
        ("array", JsonValue::Array(vec![number("1"), number("2"), number("3")])),
        ("null", JsonValue::Null),
        ("nested", object(vec![("inner", text("secret"))])),
    ]);
    let result = flatten_object(&input, "");
    assert_eq!(result.len(), 2);
    assert_eq!(result.get("string"), Some(&"value".to_string()));
    assert_eq!(result.get("nested.inner"), Some(&"secret".to_string()));
    assert!(!result.contains_key("number"));
    assert!(!result.contains_key("bool"));
    assert!(!result.contains_key("array"));
    assert!(!result.contains_key("null"));
}

#[test]
fn test_flatten_empty_object() {
    let input = object(vec![]);
    let result = flatten_object(&input, "");
    assert!(result.is_empty());
}

#[test]
fn test_flatten_empty_nested() {
    let input = object(vec![("empty", object(vec![])), ("nonempty", text("value"))]);
    let result = flatten_object(&input, "");
    assert_eq!(result.len(), 1);
    assert_eq!(result.get("nonempty"), Some(&"value".to_string()));
}

#[test]
fn test_unflatten_simple() {
    let result = unflatten_object(flat(vec![("hello", "world")]));
    assert_eq!(result, object(vec![("hello", text("world"))]));
}

#[test]
fn test_unflatten_nested() {
    let result = unflatten_object(flat(vec![("user.name", "John"), ("user.profile.age", "30")]));
    assert_eq!(
        result,
        object(vec![(
            "user",
            object(vec![("name", text("John")), ("profile", object(vec![("age", text("30"))]))]),
        )])
    );
}

#[test]
fn test_roundtrip() {
    let original = object(vec![
        (
            "user",
            object(vec![("name", text("John")), ("profile", object(vec![("age", text("30"))]))]),
        ),
        ("greeting", text("Hello")),
    ]);
    let flat = flatten_object(&original, "");
    let restored = unflatten_object(flat);
    assert_eq!(original, restored);
}

#[test]
fn test_roundtrip_multiple_languages() {
    let original = object(vec![
        ("en", object(vec![("user", object(vec![("name", text("John"))]))])),
        ("zh", object(vec![("user", object(vec![("name", text("张三"))]))])),
    ]);
    let flat = flatten_object(&original, "");
    let restored = unflatten_object(flat);
    assert_eq!(original, restored);
}

#[test]
fn test_merge_with_flat() {
    let original = object(vec![(
        "user",
        object(vec![("name", text("Old Name")), ("email", text("old@example.com"))]),
    )]);
    let updates = flat(vec![("user.name", "New Name")]);
    let result = merge_with_flat(&original, updates);
    assert_eq!(
        result,
        object(vec![(
            "user",
            object(vec![("name", text("New Name")), ("email", text("old@example.com"))]),
        )])
    );
}

#[test]
fn test_special_characters_in_keys() {
    let input = object(vec![
        ("key_with_underscore", text("value1")),
        ("key-with-dash", text("value2")),
        ("key.with.dots", text("value3")),
    ]);
    let result = flatten_object(&input, "");
    assert_eq!(result.get("key_with_underscore"), Some(&"value1".to_string()));
    assert_eq!(result.get("key-with-dash"), Some(&"value2".to_string()));
    assert_eq!(result.get("key.with.dots"), Some(&"value3".to_string()));
}

#[test]
fn flatten_uses_the_prefix() {
    let input = object(vec![("name", text("John"))]);
    let result = flatten_object(&input, "user");
    assert_eq!(result.get("user.name"), Some(&"John".to_string()));
    assert_eq!(result.len(), 1);
}

#[test]
fn flatten_of_a_text_is_the_prefix() {
    let result = flatten_object(&text("hello"), "greeting");
    assert_eq!(result.get("greeting"), Some(&"hello".to_string()));
}

#[test]
fn flatten_later_leaf_wins_a_shared_key() {
    let input = object(vec![("a", object(vec![("b", text("inner"))])), ("a.b", text("outer"))]);
    let result = flatten_object(&input, "");
    assert_eq!(result.len(), 1);
    assert_eq!(result.get("a.b"), Some(&"outer".to_string()));
}

#[test]
fn unflatten_shorter_key_wins_whatever_the_order() {
    let first = unflatten_object(flat(vec![("a", "leaf"), ("a.b", "deep")]));
    let second = unflatten_object(flat(vec![("a.b", "deep"), ("a", "leaf")]));
    assert_eq!(first, object(vec![("a", text("leaf"))]));
    assert_eq!(second, object(vec![("a", text("leaf"))]));
}

#[test]
fn unflatten_of_nothing_is_an_empty_object() {
    assert_eq!(unflatten_object(flat(vec![])), object(vec![]));
}

#[test]
fn unflatten_keeps_empty_segments() {
    let result = unflatten_object(flat(vec![("a..b", "x")]));
    assert_eq!(result, object(vec![("a", object(vec![("", object(vec![("b", text("x"))]))]))]));
}

#[test]
fn roundtrip_fails_for_a_nested_empty_object() {
    let original = object(vec![("a", object(vec![]))]);
    let restored = unflatten_object(flatten_object(&original, ""));
    assert_eq!(restored, object(vec![]));
    assert_ne!(restored, original);
}

#[test]
fn roundtrip_fails_for_a_key_with_a_dot() {
    let original = object(vec![("a.b", text("x"))]);
    let restored = unflatten_object(flatten_object(&original, ""));
    assert_eq!(restored, object(vec![("a", object(vec![("b", text("x"))]))]));
}

#[test]
fn merge_adds_new_keys_and_keeps_the_rest() {
    let original = object(vec![
        ("greeting", text("Hello")),
        ("user", object(vec![("name", text("User Name"))])),
    ]);
    let updates = flat(vec![("greeting", "Hello Updated"), ("new_key", "New Value")]);
    let result = merge_with_flat(&original, updates);
    assert_eq!(
        result,
        object(vec![
            ("greeting", text("Hello Updated")),
            ("user", object(vec![("name", text("User Name"))])),
            ("new_key", text("New Value")),
        ])
    );
}

#[test]
fn merge_drops_what_is_no_text() {
    let original = object(vec![("count", number("3")), ("label", text("three"))]);
    let result = merge_with_flat(&original, flat(vec![]));
    assert_eq!(result, object(vec![("label", text("three"))]));
}

#[test]
fn json_get_finds_members() {
    let value = object(vec![("data", JsonValue::Null), ("other", text("x"))]);
    assert_eq!(value.get("data"), Some(&JsonValue::Null));
    assert_eq!(value.get("other"), Some(&text("x")));
    assert_eq!(value.get("missing"), None);
    assert_eq!(text("x").get("data"), None);
}

#[test]
fn json_clone_is_equal() {
    let value = object(vec![
        ("a", JsonValue::Array(vec![text("x"), JsonValue::Bool(false)])),
        ("b", object(vec![("c", number("1.5"))])),
    ]);
    assert_eq!(value.clone(), value);
}
