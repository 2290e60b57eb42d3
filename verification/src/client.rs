//! What the library knows of the remote store: the client's settings, the
//! addresses and bodies of its requests, and the reading of its answers.
//! Sending and receiving are the caller's part.

use crate::flatten::{entries_of, lemma_insert_entries, put, Flat, FlatMap};
use crate::json::{member_of, members_view, JsonValue, Tree};
use crate::str_map::StrMap;
use crate::text::{
    decimal, decimal_text, has_prefix, parse_u64, parsed_u64, starts_with, strip_end, texts, trim,
    trim_end_slashes, trimmed,
};
use crate::types::{
    copy_flat, entries_for, languages_of, lemma_insert_language, lemma_language_lookup,
    put_language, LanguageEntries, Translations,
};
use vstd::prelude::*;

verus! {

/// The seconds to wait after a rate limit where the store names none.
pub const DEFAULT_RETRY_AFTER: u64 = 60;

/// What can go wrong with the store.
#[derive(Debug)]
pub enum ApiError {
    /// The address is empty or blank.
    EmptyUrl,
    /// The address, given here as it was normalized, names no `http` or
    /// `https` scheme.
    InvalidScheme(String),
    /// The project id is zero.
    InvalidProjectId,
    /// The store did not accept the key.
    Unauthorized,
    /// The check of the key failed with this status.
    AuthCheckFailed(u16),
    /// The store answered with this status and this text.
    Status { code: u16, body: String },
    /// The store asks to wait this many seconds.
    RateLimited { retry_after: u64 },
    /// The answer has no `data` member.
    MissingData,
    /// The `data` member is not what was asked for.
    InvalidData,
}

/// An error in words.
pub open spec fn error_text(error: ApiError) -> Seq<char> {
    match error {
        ApiError::EmptyUrl => "API URL cannot be empty"@,
        ApiError::InvalidScheme(url) => "API URL must start with 'http://' or 'https://', got: "@
            + url@,
        ApiError::InvalidProjectId => "Project ID must be a positive integer"@,
        ApiError::Unauthorized => "API authentication failed"@,
        ApiError::AuthCheckFailed(code) => "Auth check failed: status code "@ + decimal(
            code as nat,
        ),
        ApiError::Status { code, body } => "API error ("@ + decimal(code as nat) + "): "@ + body@,
        ApiError::RateLimited { retry_after } => "Rate limited. Retry after "@ + decimal(
            retry_after as nat,
        ) + " seconds"@,
        ApiError::MissingData => "Missing 'data' field in response"@,
        ApiError::InvalidData => "Failed to parse translations data"@,
    }
}

impl ApiError {
    /// The error in words.
    pub fn message(&self) -> (text: String)
        ensures
            text@ == error_text(*self),
    {
        match self {
            ApiError::EmptyUrl => "API URL cannot be empty".to_owned(),
            ApiError::InvalidScheme(url) => {
                let mut text = "API URL must start with 'http://' or 'https://', got: ".to_owned();
                text.append(url.as_str());
                text
            },
            ApiError::InvalidProjectId => "Project ID must be a positive integer".to_owned(),
            ApiError::Unauthorized => "API authentication failed".to_owned(),
            ApiError::AuthCheckFailed(code) => {
                let mut text = "Auth check failed: status code ".to_owned();
                text.append(decimal_text(*code as u64).as_str());
                text
            },
            ApiError::Status { code, body } => {
                let mut text = "API error (".to_owned();
                text.append(decimal_text(*code as u64).as_str());
                text.append("): ");
                text.append(body.as_str());
                assert(text@ =~= error_text(*self));
                text
            },
            ApiError::RateLimited { retry_after } => {
                let mut text = "Rate limited. Retry after ".to_owned();
                text.append(decimal_text(*retry_after).as_str());
                text.append(" seconds");
                assert(text@ =~= error_text(*self));
                text
            },
            ApiError::MissingData => "Missing 'data' field in response".to_owned(),
            ApiError::InvalidData => "Failed to parse translations data".to_owned(),
        }
    }
}

/// The address of the store as the client keeps it: without blanks around
/// it and without slashes at its end.
pub open spec fn normalized_url(url: Seq<char>) -> Seq<char> {
    strip_end(trimmed(url), true)
}

/// Whether an address names the `http` or the `https` scheme.
pub open spec fn has_http_scheme(url: Seq<char>) -> bool {
    has_prefix(url, "http://"@) || has_prefix(url, "https://"@)
}

/// The settings of a client of the store.
#[derive(Debug)]
pub struct APIClient {
    base_url: String,
    api_key: String,
    project_id: u64,
}

impl APIClient {
    /// The address of the store.
    pub closed spec fn url(&self) -> Seq<char> {
        self.base_url@
    }

    /// The key sent with every request.
    pub closed spec fn key(&self) -> Seq<char> {
        self.api_key@
    }

    /// The project's number.
    pub closed spec fn project(&self) -> u64 {
        self.project_id
    }

    /// A client for the store at `base_url`. The address is kept without
    /// blanks around it and without slashes at its end. It must not be
    /// blank, it must name the `http` or `https` scheme, and the project id
    /// must not be zero; the first of these that fails is the error.
    pub fn new(base_url: String, api_key: String, project_id: u64) -> (r: Result<
        APIClient,
        ApiError,
    >)
        ensures
            match r {
                Ok(client) => trimmed(base_url@).len() > 0 && has_http_scheme(
                    normalized_url(base_url@),
                ) && project_id != 0 && client.url() == normalized_url(base_url@) && client.key()
                    == api_key@ && client.project() == project_id,
                Err(ApiError::EmptyUrl) => trimmed(base_url@).len() == 0,
                Err(ApiError::InvalidScheme(url)) => trimmed(base_url@).len() > 0
                    && !has_http_scheme(normalized_url(base_url@)) && url@ == normalized_url(
                    base_url@,
                ),
                Err(ApiError::InvalidProjectId) => trimmed(base_url@).len() > 0 && has_http_scheme(
                    normalized_url(base_url@),
                ) && project_id == 0,
                Err(_) => false,
            },
    {
        let clean = trim(base_url.as_str());
        if clean.as_str().unicode_len() == 0 {
            return Err(ApiError::EmptyUrl);
        }
        let normalized = trim_end_slashes(clean.as_str());
        if !starts_with(normalized.as_str(), "http://") && !starts_with(
            normalized.as_str(),
            "https://",
        ) {
            return Err(ApiError::InvalidScheme(normalized));
        }
        if project_id == 0 {
            return Err(ApiError::InvalidProjectId);
        }
        Ok(APIClient { base_url: normalized, api_key, project_id })
    }

    /// The address of the store.
    pub fn base_url(&self) -> (r: &str)
        ensures
            r@ == self.url(),
    {
        self.base_url.as_str()
    }

    /// The key sent with every request.
    pub fn api_key(&self) -> (r: &str)
        ensures
            r@ == self.key(),
    {
        self.api_key.as_str()
    }

    /// The project's number.
    pub fn project_id(&self) -> (r: u64)
        ensures
            r == self.project(),
    {
        self.project_id
    }

    /// The address at which the key is checked.
    pub fn auth_url(&self) -> (r: String)
        ensures
            r@ == self.url() + "/cli/auth"@,
    {
        let mut r = self.base_url.clone();
        r.append("/cli/auth");
        r
    }

    /// The address to which keys are pushed.
    pub fn keys_url(&self) -> (r: String)
        ensures
            r@ == self.url() + "/cli/keys"@,
    {
        let mut r = self.base_url.clone();
        r.append("/cli/keys");
        r
    }

    /// The address from which translations are fetched: all of the project,
    /// or those of one locale.
    pub fn translations_url(&self, locale: Option<&str>) -> (r: String)
        ensures
            r@ == self.url() + "/cli/translations?project_id="@ + decimal(self.project() as nat)
                + match locale {
                Some(code) => "&locale="@ + code@,
                None => Seq::empty(),
            },
    {
        let mut r = self.base_url.clone();
        r.append("/cli/translations?project_id=");
        r.append(decimal_text(self.project_id).as_str());
        match locale {
            Some(code) => {
                r.append("&locale=");
                r.append(code);
                assert(r@ =~= self.url() + "/cli/translations?project_id="@ + decimal(
                    self.project() as nat,
                ) + ("&locale="@ + code@));
            },
            None => {
                assert(r@ =~= self.url() + "/cli/translations?project_id="@ + decimal(
                    self.project() as nat,
                ) + Seq::<char>::empty());
            },
        }
        r
    }
}

/// What the status of the key check says: the key holds where the store
/// answers below 400, it does not hold at 401, and any other status is an
/// error.
pub fn read_auth_status(status: u16) -> (r: Result<bool, ApiError>)
    ensures
        r == if status < 400 {
            Ok::<bool, ApiError>(true)
        } else if status == 401 {
            Ok(false)
        } else {
            Err(ApiError::AuthCheckFailed(status))
        },
{
    if status < 400 {
        Ok(true)
    } else if status == 401 {
        Ok(false)
    } else {
        Err(ApiError::AuthCheckFailed(status))
    }
}

/// Whether a status tells of success.
pub open spec fn is_success_status(status: u16) -> bool {
    200 <= status < 300
}

/// What the status of an answer says: nothing for success, `Unauthorized`
/// for 401, and for any other status the error with the answer's text.
pub fn check_status(status: u16, body: &str) -> (r: Result<(), ApiError>)
    ensures
        match r {
            Ok(_) => is_success_status(status),
            Err(ApiError::Unauthorized) => status == 401,
            Err(ApiError::Status { code, body: text }) => !is_success_status(status) && status
                != 401 && code == status && text@ == body@,
            Err(_) => false,
        },
{
    if status == 401 {
        Err(ApiError::Unauthorized)
    } else if status < 200 || status >= 300 {
        Err(ApiError::Status { code: status, body: body.to_owned() })
    } else {
        Ok(())
    }
}

/// The seconds that a `Retry-After` header asks for: its number, or sixty
/// where the header is missing or no number.
pub open spec fn retry_after_seconds(header: Option<Seq<char>>) -> u64 {
    match header {
        Some(text) => match parsed_u64(text) {
            Some(seconds) => seconds,
            None => DEFAULT_RETRY_AFTER,
        },
        None => DEFAULT_RETRY_AFTER,
    }
}

/// What the status of an answer to a push says: a rate limit for 429, with
/// the seconds of its `Retry-After` header, else what `check_status` says.
pub fn check_push_status(status: u16, retry_after: Option<&str>, body: &str) -> (r: Result<
    (),
    ApiError,
>)
    ensures
        match r {
            Ok(_) => is_success_status(status),
            Err(ApiError::RateLimited { retry_after: seconds }) => status == 429 && seconds
                == retry_after_seconds(
                match retry_after {
                    Some(text) => Some(text@),
                    None => None,
                },
            ),
            Err(ApiError::Unauthorized) => status == 401,
            Err(ApiError::Status { code, body: text }) => !is_success_status(status) && status
                != 401 && status != 429 && code == status && text@ == body@,
            Err(_) => false,
        },
{
    if status == 429 {
        let seconds = match retry_after {
            Some(text) => match parse_u64(text) {
                Some(seconds) => seconds,
                None => DEFAULT_RETRY_AFTER,
            },
            None => DEFAULT_RETRY_AFTER,
        };
        Err(ApiError::RateLimited { retry_after: seconds })
    } else {
        check_status(status, body)
    }
}

/// The languages after the text of `key` in `language` has been put in: the
/// language is there afterwards in any case, and has the key if `value` is
/// a text.
pub open spec fn with_language_value(
    acc: LanguageEntries,
    language: Seq<char>,
    key: Seq<char>,
    value: Tree,
) -> LanguageEntries {
    let known = entries_for(acc, language);
    put_language(
        acc,
        language,
        match value {
            Tree::Text(text) => put(known, key, text),
            _ => known,
        },
    )
}

/// The languages after the first `n` values of one key have been put in.
pub open spec fn key_languages(
    acc: LanguageEntries,
    key: Seq<char>,
    values: Seq<(Seq<char>, Tree)>,
    n: nat,
) -> LanguageEntries
    decreases n,
{
    if n == 0 || n > values.len() {
        acc
    } else {
        with_language_value(
            key_languages(acc, key, values, (n - 1) as nat),
            values[n - 1].0,
            key,
            values[n - 1].1,
        )
    }
}

/// The languages that the first `n` keys of a key-centric answer give: for
/// every key, and every language below it, the key's text in that language.
/// A key whose value is no object gives nothing.
pub open spec fn language_centric(keys: Seq<(Seq<char>, Tree)>, n: nat) -> LanguageEntries
    decreases n,
{
    if n == 0 || n > keys.len() {
        Seq::empty()
    } else {
        let before = language_centric(keys, (n - 1) as nat);
        match keys[n - 1].1 {
            Tree::Object(values) => key_languages(before, keys[n - 1].0, values, values.len()),
            _ => before,
        }
    }
}

/// Turns the store's key-centric translations, key → language → text, into
/// translations by language. Data that is no object gives no language.
pub fn transform_translations_format(data: &JsonValue) -> (result: Translations)
    ensures
        languages_of(result) == language_centric(data@.members(), data@.members().len()),
{
    let mut result: Translations = StrMap::new();
    assert(languages_of(result) =~= Seq::empty());
    match data {
        JsonValue::Object(keys) => {
            let mut i: usize = 0;
            while i < keys.len()
                invariant
                    i <= keys.len(),
                    data@.members() == members_view(keys@),
                    languages_of(result) == language_centric(data@.members(), i as nat),
                decreases keys.len() - i,
            {
                let key = &keys[i].0;
                match &keys[i].1 {
                    JsonValue::Object(values) => {
                        let ghost before = languages_of(result);
                        let ghost tree = members_view(values@);
                        let mut k: usize = 0;
                        while k < values.len()
                            invariant
                                k <= values.len(),
                                tree == members_view(values@),
                                languages_of(result) == key_languages(before, key@, tree, k as nat),
                            decreases values.len() - k,
                        {
                            let language = &values[k].0;
                            let ghost old_result = result;
                            proof {
                                use_type_invariant(&result);
                                lemma_language_lookup(result, language@);
                            }
                            let mut target: FlatMap = match result.get(language.as_str()) {
                                Some(known) => copy_flat(known),
                                None => {
                                    let fresh: FlatMap = StrMap::new();
                                    assert(entries_of(fresh) =~= Seq::empty());
                                    fresh
                                },
                            };
                            match &values[k].1 {
                                JsonValue::Text(text) => {
                                    let ghost old_target = target;
                                    proof {
                                        use_type_invariant(&target);
                                    }
                                    target.insert(key.clone(), text.clone());
                                    proof {
                                        lemma_insert_entries(old_target, target, key@, *text);
                                    }
                                },
                                _ => {},
                            }
                            result.insert(language.clone(), target);
                            proof {
                                lemma_insert_language(old_result, result, language@, target);
                            }
                            k += 1;
                        }
                    },
                    _ => {},
                }
                i += 1;
            }
        },
        _ => {},
    }
    result
}

/// What the body of an answer with translations holds: the languages of its
/// `data` member, none where that member is null, and an error where there
/// is no such member.
pub fn read_translations_body(body: &JsonValue) -> (r: Result<Translations, ApiError>)
    ensures
        match r {
            Ok(translations) => match member_of(body@, "data"@) {
                Some(data) => languages_of(translations) == language_centric(
                    data.members(),
                    data.members().len(),
                ),
                None => false,
            },
            Err(ApiError::MissingData) => member_of(body@, "data"@) is None,
            Err(_) => false,
        },
{
    match body.get("data") {
        None => Err(ApiError::MissingData),
        Some(data) => Ok(transform_translations_format(data)),
    }
}

/// The entries that the first `n` members give, each member's key with its
/// text; `None` where one of the members is no text.
pub open spec fn text_members(members: Seq<(Seq<char>, Tree)>, n: nat) -> Option<Flat>
    decreases n,
{
    if n == 0 || n > members.len() {
        Some(Seq::empty())
    } else {
        match (text_members(members, (n - 1) as nat), members[n - 1].1) {
            (Some(before), Tree::Text(text)) => Some(put(before, members[n - 1].0, text)),
            _ => None,
        }
    }
}

/// What the body of an answer with the translations of one locale holds:
/// the texts of its `data` member, which must be an object of texts.
pub fn read_locale_body(body: &JsonValue) -> (r: Result<FlatMap, ApiError>)
    ensures
        match r {
            Ok(map) => match member_of(body@, "data"@) {
                Some(Tree::Object(members)) => text_members(members, members.len()) == Some(
                    entries_of(map),
                ),
                _ => false,
            },
            Err(ApiError::MissingData) => member_of(body@, "data"@) is None,
            Err(ApiError::InvalidData) => match member_of(body@, "data"@) {
                Some(Tree::Object(members)) => text_members(members, members.len()) is None,
                Some(_) => true,
                None => false,
            },
            Err(_) => false,
        },
{
    match body.get("data") {
        None => Err(ApiError::MissingData),
        Some(JsonValue::Object(members)) => {
            let ghost trees = members_view(members@);
            let mut map: FlatMap = StrMap::new();
            let mut i: usize = 0;
            assert(entries_of(map) =~= Seq::empty());
            while i < members.len()
                invariant
                    i <= members.len(),
                    trees == members_view(members@),
                    member_of(body@, "data"@) == Some(Tree::Object(trees)),
                    text_members(trees, i as nat) == Some(entries_of(map)),
                decreases members.len() - i,
            {
                match &members[i].1 {
                    JsonValue::Text(text) => {
                        let ghost before = map;
                        proof {
                            use_type_invariant(&map);
                        }
                        map.insert(members[i].0.clone(), text.clone());
                        proof {
                            lemma_insert_entries(before, map, members@[i as int].0@, *text);
                        }
                    },
                    _ => {
                        proof {
                            assert(text_members(trees, (i + 1) as nat) is None);
                            lemma_text_members_fail(trees, (i + 1) as nat, trees.len());
                        }
                        return Err(ApiError::InvalidData);
                    },
                }
                i += 1;
            }
            Ok(map)
        },
        Some(_) => Err(ApiError::InvalidData),
    }
}

/// Once a member is no text, more members do not mend it.
pub proof fn lemma_text_members_fail(members: Seq<(Seq<char>, Tree)>, a: nat, b: nat)
    requires
        a <= b <= members.len(),
        text_members(members, a) is None,
    ensures
        text_members(members, b) is None,
    decreases b,
{
    if a < b {
        lemma_text_members_fail(members, a, (b - 1) as nat);
    }
}

/// The texts among the first `n` items.
pub open spec fn text_items(items: Seq<Tree>, n: nat) -> Seq<Seq<char>>
    decreases n,
{
    if n == 0 || n > items.len() {
        Seq::empty()
    } else {
        let before = text_items(items, (n - 1) as nat);
        match items[n - 1] {
            Tree::Text(text) => before.push(text),
            _ => before,
        }
    }
}

/// The key names under `name` in `data`: the texts of that member where it
/// is an array, else none.
pub open spec fn key_names(data: Tree, name: Seq<char>) -> Seq<Seq<char>> {
    match member_of(data, name) {
        Some(Tree::Array(items)) => text_items(items, items.len()),
        _ => Seq::empty(),
    }
}

/// The key names under `name` in `data`.
fn read_key_names(data: &JsonValue, name: &str) -> (names: Vec<String>)
    ensures
        texts(names@) == key_names(data@, name@),
{
    let mut names: Vec<String> = Vec::new();
    assert(texts(names@) =~= Seq::<Seq<char>>::empty());
    match data.get(name) {
        Some(JsonValue::Array(items)) => {
            let ghost trees = JsonValue::Array(*items)@->Array_0;
            let mut i: usize = 0;
            while i < items.len()
                invariant
                    i <= items.len(),
                    trees.len() == items@.len(),
                    forall|j: int| 0 <= j < trees.len() ==> trees[j] == items@[j]@,
                    texts(names@) == text_items(trees, i as nat),
                decreases items.len() - i,
            {
                match &items[i] {
                    JsonValue::Text(text) => {
                        let copy = text.clone();
                        proof {
                            assert(texts(names@.push(copy)) =~= texts(names@).push(text@));
                        }
                        names.push(copy);
                    },
                    _ => {},
                }
                i += 1;
            }
            names
        },
        _ => names,
    }
}

/// What the body of an answer to a push holds: the keys that its `data`
/// member names as added, existing and failed; no keys where that member is
/// null; an error where there is no such member.
pub fn read_push_body(body: &JsonValue) -> (r: Result<PushKeysResponse, ApiError>)
    ensures
        match r {
            Ok(response) => match member_of(body@, "data"@) {
                Some(data) => texts(response.added@) == key_names(data, "added"@) && texts(
                    response.existed@,
                ) == key_names(data, "existed"@) && texts(response.failed@) == key_names(
                    data,
                    "failed"@,
                ),
                None => false,
            },
            Err(ApiError::MissingData) => member_of(body@, "data"@) is None,
            Err(_) => false,
        },
{
    match body.get("data") {
        None => Err(ApiError::MissingData),
        Some(data) => Ok(
            PushKeysResponse {
                added: read_key_names(data, "added"),
                existed: read_key_names(data, "existed"),
                failed: read_key_names(data, "failed"),
            },
        ),
    }
}

/// The object that holds flat entries: each key with its text.
pub open spec fn flat_tree(entries: Flat) -> Tree {
    Tree::Object(Seq::new(entries.len(), |i: int| (entries[i].0, Tree::Text(entries[i].1))))
}

/// The object that holds translations: each language with its entries.
pub open spec fn translations_tree(languages: LanguageEntries) -> Tree {
    Tree::Object(Seq::new(languages.len(), |i: int| (languages[i].0, flat_tree(languages[i].1))))
}

/// The array that holds key names.
pub open spec fn names_tree(names: Seq<Seq<char>>) -> Tree {
    Tree::Array(Seq::new(names.len(), |i: int| Tree::Text(names[i])))
}

/// The body of a push: the project's number as a text, the key names, and
/// the translations where there are any.
pub open spec fn push_body_tree(
    project_id: nat,
    names: Seq<Seq<char>>,
    translations: Option<LanguageEntries>,
) -> Tree {
    Tree::Object(
        seq![("project_id"@, Tree::Text(decimal(project_id))), ("keys"@, names_tree(names))]
            + match translations {
            Some(languages) => seq![("translations"@, translations_tree(languages))],
            None => Seq::empty(),
        },
    )
}

/// The object that holds the entries of `map`.
pub fn flat_to_json(map: &FlatMap) -> (tree: JsonValue)
    ensures
        tree@ == flat_tree(entries_of(*map)),
{
    let mut members: Vec<(String, JsonValue)> = Vec::new();
    let n = map.len();
    let mut i: usize = 0;
    proof {
        use_type_invariant(map);
    }
    while i < n
        invariant
            i <= n,
            map.wf(),
            n == map.keys().len(),
            members@.len() == i,
            forall|j: int|
                0 <= j < i ==> (#[trigger] members@[j]).0@ == map.keys()[j] && members@[j].1@
                    == Tree::Text(map.values()[j]@),
        decreases n - i,
    {
        members.push((map.key_at(i).clone(), JsonValue::Text(map.value_at(i).clone())));
        i += 1;
    }
    let tree = JsonValue::Object(members);
    assert(tree@ == Tree::Object(members_view(members@)));
    assert(members_view(members@) =~= flat_tree(entries_of(*map))->Object_0);
    tree
}

/// The object that holds `translations`.
pub fn translations_to_json(translations: &Translations) -> (tree: JsonValue)
    ensures
        tree@ == translations_tree(languages_of(*translations)),
{
    let mut members: Vec<(String, JsonValue)> = Vec::new();
    let n = translations.len();
    let mut i: usize = 0;
    proof {
        use_type_invariant(translations);
    }
    while i < n
        invariant
            i <= n,
            translations.wf(),
            n == translations.keys().len(),
            members@.len() == i,
            forall|j: int|
                0 <= j < i ==> (#[trigger] members@[j]).0@ == translations.keys()[j]
                    && members@[j].1@ == flat_tree(entries_of(translations.values()[j])),
        decreases n - i,
    {
        members.push((translations.key_at(i).clone(), flat_to_json(translations.value_at(i))));
        i += 1;
    }
    let tree = JsonValue::Object(members);
    assert(tree@ == Tree::Object(members_view(members@)));
    assert(members_view(members@) =~= translations_tree(languages_of(*translations))->Object_0);
    tree
}

/// The body of a push of `keys`, with `translations` where there are any.
pub fn push_body(project_id: u64, keys: &Vec<String>, translations: Option<&Translations>) -> (body:
    JsonValue)
    ensures
        body@ == push_body_tree(
            project_id as nat,
            texts(keys@),
            match translations {
                Some(t) => Some(languages_of(*t)),
                None => None,
            },
        ),
{
    let mut names: Vec<JsonValue> = Vec::new();
    let mut i: usize = 0;
    while i < keys.len()
        invariant
            i <= keys.len(),
            names@.len() == i,
            forall|j: int| 0 <= j < i ==> (#[trigger] names@[j])@ == Tree::Text(keys@[j]@),
        decreases keys.len() - i,
    {
        names.push(JsonValue::Text(keys[i].clone()));
        i += 1;
    }
    let names_value = JsonValue::Array(names);
    assert(names_value@->Array_0 =~= names_tree(texts(keys@))->Array_0);
    let mut members: Vec<(String, JsonValue)> = Vec::new();
    members.push(("project_id".to_owned(), JsonValue::Text(decimal_text(project_id))));
    members.push(("keys".to_owned(), names_value));
    match translations {
        Some(t) => {
            members.push(("translations".to_owned(), translations_to_json(t)));
        },
        None => {},
    }
    let body = JsonValue::Object(members);
    proof {
        let wanted = push_body_tree(
            project_id as nat,
            texts(keys@),
            match translations {
                Some(t) => Some(languages_of(*t)),
                None => None,
            },
        )->Object_0;
        assert(body@ == Tree::Object(members_view(members@)));
        let got = members_view(members@);
        assert(got.len() == wanted.len());
        assert(got[0] == wanted[0]);
        assert(got[1] == wanted[1]);
        if translations is Some {
            assert(got[2] == wanted[2]);
        }
        assert(got =~= wanted);
    }
    body
}

/// The store's answer to a push of keys.
#[derive(Debug)]
pub struct PushKeysResponse {
    /// The keys that were new to the store.
    pub added: Vec<String>,
    /// The keys that the store already had.
    pub existed: Vec<String>,
    /// The keys that the store could not take.
    pub failed: Vec<String>,
}

impl PushKeysResponse {
    /// The number of keys that the answer speaks of.
    pub fn total(&self) -> (n: usize)
        requires
            self.added@.len() + self.existed@.len() + self.failed@.len() <= usize::MAX,
        ensures
            n == self.added@.len() + self.existed@.len() + self.failed@.len(),
    {
        self.added.len() + self.existed.len() + self.failed.len()
    }

    /// Whether no key failed.
    pub fn is_success(&self) -> (ok: bool)
        ensures
            ok == (self.failed@.len() == 0),
    {
        self.failed.len() == 0
    }
}

impl Default for PushKeysResponse {
    fn default() -> (r: Self)
        ensures
            r.added@.len() == 0,
            r.existed@.len() == 0,
            r.failed@.len() == 0,
    {
        PushKeysResponse { added: Vec::new(), existed: Vec::new(), failed: Vec::new() }
    }
}

} // verus!
