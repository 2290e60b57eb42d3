use yflow::client::{
    check_push_status, check_status, push_body, read_auth_status, read_locale_body,
    read_push_body, read_translations_body, transform_translations_format, APIClient, ApiError,
    PushKeysResponse,
};
use yflow::flatten::FlatMap;
use yflow::json::JsonValue;
use yflow::str_map::StrMap;
use yflow::types::Translations;

fn text(s: &str) -> JsonValue {
    JsonValue::Text(s.to_string())
}

fn object(members: Vec<(&str, JsonValue)>) -> JsonValue {
    JsonValue::Object(members.into_iter().map(|(k, v)| (k.to_string(), v)).collect())
}

#[test]
fn test_push_keys_response_default() {
    let response = PushKeysResponse::default();
    assert_eq!(response.total(), 0);
    assert!(response.is_success());
}

#[test]
fn test_push_keys_response_with_data() {
    let response = PushKeysResponse {
        added: vec!["key1".to_string(), "key2".to_string()],
        existed: vec!["key3".to_string()],
        failed: Vec::new(),
    };
    assert_eq!(response.total(), 3);
    assert!(response.is_success());
}

#[test]
fn test_push_keys_response_with_failures() {
    let response = PushKeysResponse {
        added: vec!["key1".to_string()],
        existed: Vec::new(),
        failed: vec!["key2".to_string()],
    };
    assert_eq!(response.total(), 2);
    assert!(!response.is_success());
}

#[test]
fn test_transform_translations_format_key_centric_to_language_centric() {
    let key_centric = object(vec![
        ("greeting", object(vec![("en", text("Hello")), ("zh_CN", text("你好"))])),
        ("farewell", object(vec![("en", text("Goodbye"))])),
        ("user.name", object(vec![("en", text("John")), ("zh_CN", text("张三"))])),
    ]);

    let result = transform_translations_format(&key_centric);

    assert_eq!(result.len(), 2);
    assert!(result.contains_key("en"));
    assert!(result.contains_key("zh_CN"));

    let en = result.get("en").unwrap();
    assert_eq!(en.len(), 3);
    assert_eq!(en.get("greeting"), Some(&"Hello".to_string()));
    assert_eq!(en.get("farewell"), Some(&"Goodbye".to_string()));
    assert_eq!(en.get("user.name"), Some(&"John".to_string()));

    let zh = result.get("zh_CN").unwrap();
    assert_eq!(zh.len(), 2);
    assert_eq!(zh.get("greeting"), Some(&"你好".to_string()));
    assert_eq!(zh.get("user.name"), Some(&"张三".to_string()));
}

#[test]
fn test_transform_translations_format_empty() {
    let empty = object(vec![]);
    let result = transform_translations_format(&empty);
    assert!(result.is_empty());
}

#[test]
fn test_api_client_new_url_normalization_trailing_slash() {
    let client =
        APIClient::new("http://localhost:8080/api/".to_string(), "test-key".to_string(), 1)
            .unwrap();
    assert_eq!(client.base_url(), "http://localhost:8080/api");
    assert_eq!(client.project_id(), 1);
    assert_eq!(client.api_key(), "test-key");
}

#[test]
fn test_api_client_new_url_normalization_multiple_slashes() {
    let client =
        APIClient::new("http://localhost:8080/api///".to_string(), "test-key".to_string(), 1)
            .unwrap();
    assert_eq!(client.base_url(), "http://localhost:8080/api");
}

#[test]
fn test_api_client_new_url_normalization_with_whitespace() {
    let client =
        APIClient::new("  http://localhost:8080/api  ".to_string(), "test-key".to_string(), 1)
            .unwrap();
    assert_eq!(client.base_url(), "http://localhost:8080/api");
}

#[test]
fn test_api_client_new_url_with_path() {
    let client =
        APIClient::new("https://api.example.com/v1/".to_string(), "test-key".to_string(), 42)
            .unwrap();
    assert_eq!(client.base_url(), "https://api.example.com/v1");
    assert_eq!(client.project_id(), 42);
}

#[test]
fn test_api_client_new_url_invalid_empty() {
    let result = APIClient::new("".to_string(), "test-key".to_string(), 1);
    assert!(result.is_err());
    assert!(result.unwrap_err().message().contains("cannot be empty"));
}

#[test]
fn test_api_client_new_url_invalid_whitespace_only() {
    let result = APIClient::new("   ".to_string(), "test-key".to_string(), 1);
    assert!(result.is_err());
    assert!(result.unwrap_err().message().contains("cannot be empty"));
}

#[test]
fn test_api_client_new_url_invalid_format_no_protocol() {
    let result = APIClient::new("localhost:8080/api".to_string(), "test-key".to_string(), 1);
    assert!(result.is_err());
    let error_msg = result.unwrap_err().message();
    assert!(error_msg.contains("http://") || error_msg.contains("https://"));
}

#[test]
fn test_api_client_new_url_invalid_format_relative_path() {
    let result = APIClient::new("/api/v1".to_string(), "test-key".to_string(), 1);
    assert!(result.is_err());
}

#[test]
fn test_api_client_new_project_id_zero() {
    let result =
        APIClient::new("http://localhost:8080/api".to_string(), "test-key".to_string(), 0);
    assert!(result.is_err());
    assert!(result.unwrap_err().message().contains("positive"));
}

#[test]
fn test_api_client_new_https_url() {
    let client =
        APIClient::new("https://secure-api.example.com/".to_string(), "secure-key".to_string(), 99)
            .unwrap();
    assert_eq!(client.base_url(), "https://secure-api.example.com");
    assert_eq!(client.project_id(), 99);
}

#[test]
fn api_client_errors_come_in_order() {
    assert!(matches!(
        APIClient::new(" ".to_string(), "k".to_string(), 0),
        Err(ApiError::EmptyUrl)
    ));
    match APIClient::new(" ftp://x/ ".to_string(), "k".to_string(), 0) {
        Err(ApiError::InvalidScheme(url)) => assert_eq!(url, "ftp://x"),
        other => panic!("unexpected: {:?}", other),
    }
    assert!(matches!(
        APIClient::new("http://x".to_string(), "k".to_string(), 0),
        Err(ApiError::InvalidProjectId)
    ));
}

#[test]
fn api_client_addresses() {
    let client = APIClient::new("http://h/api/".to_string(), "k".to_string(), 7).unwrap();
    assert_eq!(client.auth_url(), "http://h/api/cli/auth");
    assert_eq!(client.keys_url(), "http://h/api/cli/keys");
    assert_eq!(client.translations_url(None), "http://h/api/cli/translations?project_id=7");
    assert_eq!(
        client.translations_url(Some("zh_CN")),
        "http://h/api/cli/translations?project_id=7&locale=zh_CN"
    );
}

#[test]
fn api_error_messages() {
    assert_eq!(ApiError::Unauthorized.message(), "API authentication failed");
    assert_eq!(ApiError::MissingData.message(), "Missing 'data' field in response");
    assert_eq!(ApiError::InvalidData.message(), "Failed to parse translations data");
    assert_eq!(ApiError::AuthCheckFailed(503).message(), "Auth check failed: status code 503");
    assert_eq!(
        ApiError::Status { code: 500, body: "boom".to_string() }.message(),
        "API error (500): boom"
    );
    assert_eq!(
        ApiError::RateLimited { retry_after: 60 }.message(),
        "Rate limited. Retry after 60 seconds"
    );
}

#[test]
fn auth_status_is_read() {
    assert!(matches!(read_auth_status(200), Ok(true)));
    assert!(matches!(read_auth_status(204), Ok(true)));
    assert!(matches!(read_auth_status(401), Ok(false)));
    assert!(matches!(read_auth_status(500), Err(ApiError::AuthCheckFailed(500))));
    assert!(matches!(read_auth_status(403), Err(ApiError::AuthCheckFailed(403))));
}

#[test]
fn answer_status_is_read() {
    assert!(check_status(200, "").is_ok());
    assert!(check_status(299, "").is_ok());
    assert!(matches!(check_status(401, "no"), Err(ApiError::Unauthorized)));
    match check_status(404, "not found") {
        Err(ApiError::Status { code, body }) => {
            assert_eq!(code, 404);
            assert_eq!(body, "not found");
        }
        other => panic!("unexpected: {:?}", other),
    }
    assert!(matches!(check_status(199, ""), Err(ApiError::Status { .. })));
    assert!(matches!(check_status(300, ""), Err(ApiError::Status { .. })));
}

#[test]
fn push_status_reads_the_rate_limit() {
    assert!(check_push_status(200, None, "").is_ok());
    assert!(matches!(
        check_push_status(429, Some("5"), ""),
        Err(ApiError::RateLimited { retry_after: 5 })
    ));
    assert!(matches!(
        check_push_status(429, None, ""),
        Err(ApiError::RateLimited { retry_after: 60 })
    ));
    assert!(matches!(
        check_push_status(429, Some("soon"), ""),
        Err(ApiError::RateLimited { retry_after: 60 })
    ));
    assert!(matches!(check_push_status(500, None, "x"), Err(ApiError::Status { .. })));
}

#[test]
fn translations_body_is_read() {
    let body = object(vec![(
        "data",
        object(vec![("greeting", object(vec![("en", text("Hello"))]))]),
    )]);
    let translations = read_translations_body(&body).unwrap();
    assert_eq!(translations.len(), 1);
    assert_eq!(translations.get("en").unwrap().get("greeting"), Some(&"Hello".to_string()));

    let null_data = object(vec![("data", JsonValue::Null)]);
    assert!(read_translations_body(&null_data).unwrap().is_empty());

    assert!(matches!(read_translations_body(&object(vec![])), Err(ApiError::MissingData)));
    assert!(matches!(read_translations_body(&JsonValue::Null), Err(ApiError::MissingData)));
}

#[test]
fn transform_keeps_languages_without_texts() {
    let data = object(vec![
        ("greeting", object(vec![("en", JsonValue::Null), ("de", text("Hallo"))])),
        ("skipped", text("no languages")),
    ]);
    let result = transform_translations_format(&data);
    assert_eq!(result.len(), 2);
    assert!(result.get("en").unwrap().is_empty());
    assert_eq!(result.get("de").unwrap().get("greeting"), Some(&"Hallo".to_string()));
}

#[test]
fn push_body_is_read() {
    let body = object(vec![(
        "data",
        object(vec![
            ("added", JsonValue::Array(vec![text("a"), JsonValue::Null, text("b")])),
            ("existed", JsonValue::Array(vec![text("c")])),
            ("failed", text("not a list")),
        ]),
    )]);
    let response = read_push_body(&body).unwrap();
    assert_eq!(response.added, vec!["a", "b"]);
    assert_eq!(response.existed, vec!["c"]);
    assert!(response.failed.is_empty());

    let null_data = object(vec![("data", JsonValue::Null)]);
    assert_eq!(read_push_body(&null_data).unwrap().total(), 0);
    assert!(matches!(read_push_body(&object(vec![])), Err(ApiError::MissingData)));
}

#[test]
fn push_body_is_built() {
    let mut en: FlatMap = StrMap::new();
    en.insert("greeting".to_string(), "Hello".to_string());
    let mut translations: Translations = StrMap::new();
    translations.insert("en".to_string(), en);

    let with = push_body(12, &vec![], Some(&translations));
    assert_eq!(
        with,
        object(vec![
            ("project_id", text("12")),
            ("keys", JsonValue::Array(vec![])),
            ("translations", object(vec![("en", object(vec![("greeting", text("Hello"))]))])),
        ])
    );

    let without = push_body(3, &vec!["k1".to_string(), "k2".to_string()], None);
    assert_eq!(
        without,
        object(vec![
            ("project_id", text("3")),
            ("keys", JsonValue::Array(vec![text("k1"), text("k2")])),
        ])
    );
}

#[test]
fn locale_body_is_read() {
    let body = object(vec![("data", object(vec![("a", text("1")), ("b", text("2"))]))]);
    let map = read_locale_body(&body).unwrap();
    assert_eq!(map.len(), 2);
    assert_eq!(map.get("b"), Some(&"2".to_string()));

    let mixed = object(vec![("data", object(vec![("a", text("1")), ("b", JsonValue::Null)]))]);
    assert!(matches!(read_locale_body(&mixed), Err(ApiError::InvalidData)));
    let null_data = object(vec![("data", JsonValue::Null)]);
    assert!(matches!(read_locale_body(&null_data), Err(ApiError::InvalidData)));
    assert!(matches!(read_locale_body(&object(vec![])), Err(ApiError::MissingData)));
}
