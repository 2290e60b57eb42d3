//! The configuration of a run: its fields, their validation, the overrides
//! that the environment may hold, and the choice of the file to read.

use crate::flatten::FlatMap;
use crate::json::{members_view, JsonValue, Tree};
use crate::text::{join, join_with, parse_u64, parsed_u64, texts};
use vstd::prelude::*;

verus! {

/// The name of the configuration file.
pub const CONFIG_FILENAME: &'static str = ".i18nrc.json";

/// The configuration of a run.
#[derive(Debug)]
pub struct I18nConfig {
    /// The path of the messages directory.
    pub messages_dir: String,
    /// The project's number at the store.
    pub project_id: u64,
    /// The address of the store.
    pub api_url: String,
    /// The key sent with every request.
    pub api_key: String,
    /// For local language codes their codes at the store.
    pub language_mapping: FlatMap,
}

/// What is wrong with a configuration.
#[derive(Debug)]
pub enum ConfigError {
    /// No configuration file was found; the path says where one was looked
    /// for first.
    NotFound(String),
    /// Fields are missing or invalid; each problem in words.
    Invalid(Vec<String>),
}

/// An error in words.
pub open spec fn config_error_text(error: ConfigError) -> Seq<char> {
    match error {
        ConfigError::NotFound(expected) => "Config file not found. Expected at: "@ + expected@
            + " (current dir) or ~/.i18nrc.json"@,
        ConfigError::Invalid(problems) => "Config validation failed:\n"@ + join_with(
            texts(problems@),
            "\n"@,
        ),
    }
}

impl ConfigError {
    /// The error in words.
    pub fn message(&self) -> (text: String)
        ensures
            text@ == config_error_text(*self),
    {
        match self {
            ConfigError::NotFound(expected) => {
                let mut text = "Config file not found. Expected at: ".to_owned();
                text.append(expected.as_str());
                text.append(" (current dir) or ~/.i18nrc.json");
                assert(text@ =~= config_error_text(*self));
                text
            },
            ConfigError::Invalid(problems) => {
                let mut text = "Config validation failed:\n".to_owned();
                text.append(join(problems, "\n").as_str());
                text
            },
        }
    }
}

/// The problems of a configuration, in the order of its fields: an empty
/// messages directory, a project id of zero, an empty address, an empty key.
pub open spec fn config_problems(config: I18nConfig) -> Seq<Seq<char>> {
    (if config.messages_dir@.len() == 0 {
        seq!["messagesDir (messages directory path) is required"@]
    } else {
        Seq::empty()
    }) + (if config.project_id == 0 {
        seq!["projectId must be a positive integer"@]
    } else {
        Seq::empty()
    }) + (if config.api_url@.len() == 0 {
        seq!["apiUrl (API URL) is required"@]
    } else {
        Seq::empty()
    }) + (if config.api_key@.len() == 0 {
        seq!["apiKey (API key) is required"@]
    } else {
        Seq::empty()
    })
}

/// Checks the fields that a run needs. The error names every problem.
pub fn validate_config(config: &I18nConfig) -> (r: Result<(), ConfigError>)
    ensures
        match r {
            Ok(_) => config_problems(*config).len() == 0,
            Err(ConfigError::Invalid(problems)) => config_problems(*config).len() > 0 && texts(
                problems@,
            ) == config_problems(*config),
            Err(_) => false,
        },
{
    let mut problems: Vec<String> = Vec::new();
    let ghost p0 = texts(problems@);
    assert(p0 =~= Seq::<Seq<char>>::empty());
    if config.messages_dir.as_str().unicode_len() == 0 {
        let note = "messagesDir (messages directory path) is required".to_owned();
        assert(texts(problems@.push(note)) =~= texts(problems@).push(note@));
        problems.push(note);
    }
    let ghost p1 = texts(problems@);
    if config.project_id == 0 {
        let note = "projectId must be a positive integer".to_owned();
        assert(texts(problems@.push(note)) =~= texts(problems@).push(note@));
        problems.push(note);
    }
    let ghost p2 = texts(problems@);
    if config.api_url.as_str().unicode_len() == 0 {
        let note = "apiUrl (API URL) is required".to_owned();
        assert(texts(problems@.push(note)) =~= texts(problems@).push(note@));
        problems.push(note);
    }
    let ghost p3 = texts(problems@);
    if config.api_key.as_str().unicode_len() == 0 {
        let note = "apiKey (API key) is required".to_owned();
        assert(texts(problems@.push(note)) =~= texts(problems@).push(note@));
        problems.push(note);
    }
    assert(texts(problems@) =~= config_problems(*config));
    if problems.len() == 0 {
        Ok(())
    } else {
        Err(ConfigError::Invalid(problems))
    }
}

/// What the environment holds for the fields of a configuration.
#[derive(Debug)]
pub struct EnvOverrides {
    /// The value of `I18N_MESSAGES_DIR`, where it is set.
    pub messages_dir: Option<String>,
    /// The value of `I18N_PROJECT_ID`, where it is set.
    pub project_id: Option<String>,
    /// The value of `I18N_API_URL`, where it is set.
    pub api_url: Option<String>,
    /// The value of `I18N_API_KEY`, where it is set.
    pub api_key: Option<String>,
}

/// The text that counts: the override where there is one, else the field.
pub open spec fn overridden(field: Seq<char>, over: Option<String>) -> Seq<char> {
    match over {
        Some(text) => text@,
        None => field,
    }
}

/// The project id that counts: the override where it is a number, else the
/// field.
pub open spec fn overridden_id(field: u64, over: Option<String>) -> u64 {
    match over {
        Some(text) => match parsed_u64(text@) {
            Some(id) => id,
            None => field,
        },
        None => field,
    }
}

/// The text that counts.
fn pick(field: String, over: &Option<String>) -> (r: String)
    ensures
        r@ == overridden(field@, *over),
{
    match over {
        Some(text) => text.clone(),
        None => field,
    }
}

/// The configuration with the environment's values put over those of the
/// file. A project id in the environment that is no number changes nothing;
/// the language mapping is never overridden.
pub fn apply_env_overrides(config: I18nConfig, env: &EnvOverrides) -> (r: I18nConfig)
    ensures
        r.messages_dir@ == overridden(config.messages_dir@, env.messages_dir),
        r.project_id == overridden_id(config.project_id, env.project_id),
        r.api_url@ == overridden(config.api_url@, env.api_url),
        r.api_key@ == overridden(config.api_key@, env.api_key),
        r.language_mapping == config.language_mapping,
{
    let project_id = match &env.project_id {
        Some(text) => match parse_u64(text.as_str()) {
            Some(id) => id,
            None => config.project_id,
        },
        None => config.project_id,
    };
    I18nConfig {
        messages_dir: pick(config.messages_dir, &env.messages_dir),
        project_id,
        api_url: pick(config.api_url, &env.api_url),
        api_key: pick(config.api_key, &env.api_key),
        language_mapping: config.language_mapping,
    }
}

/// A place where the configuration file may be.
#[derive(Debug)]
pub struct Candidate {
    /// The path of the file.
    pub path: String,
    /// Whether there is a file at the path.
    pub exists: bool,
}

/// The places where the configuration file may be.
#[derive(Debug)]
pub struct ConfigCandidates {
    /// The path that was named outright, where one was.
    pub explicit: Option<Candidate>,
    /// The file in the current directory.
    pub current: Candidate,
    /// The file in the home directory, where there is a home directory.
    pub home: Option<Candidate>,
}

/// The place that is chosen: the path named outright, whether or not it
/// exists; else the file in the current directory if it exists; else the
/// one in the home directory if it exists.
pub open spec fn chosen_candidate(candidates: ConfigCandidates) -> Option<Candidate> {
    match candidates.explicit {
        Some(named) => Some(named),
        None => if candidates.current.exists {
            Some(candidates.current)
        } else {
            match candidates.home {
                Some(home) => if home.exists {
                    Some(home)
                } else {
                    None
                },
                None => None,
            }
        },
    }
}

/// The path of the configuration file to read, or the error that none was
/// found.
pub fn resolve_config_path(candidates: &ConfigCandidates) -> (r: Result<String, ConfigError>)
    ensures
        match r {
            Ok(path) => chosen_candidate(*candidates) is Some && path@ == chosen_candidate(
                *candidates,
            )->0.path@,
            Err(ConfigError::NotFound(expected)) => chosen_candidate(*candidates) is None
                && expected@ == candidates.current.path@,
            Err(_) => false,
        },
{
    match &candidates.explicit {
        Some(named) => Ok(named.path.clone()),
        None => {
            if candidates.current.exists {
                return Ok(candidates.current.path.clone());
            }
            match &candidates.home {
                Some(home) => if home.exists {
                    Ok(home.path.clone())
                } else {
                    Err(ConfigError::NotFound(candidates.current.path.clone()))
                },
                None => Err(ConfigError::NotFound(candidates.current.path.clone())),
            }
        },
    }
}

/// Whether there is a configuration file to read.
pub fn config_exists(candidates: &ConfigCandidates) -> (r: bool)
    ensures
        r == match chosen_candidate(*candidates) {
            Some(chosen) => chosen.exists,
            None => false,
        },
{
    match &candidates.explicit {
        Some(named) => named.exists,
        None => {
            if candidates.current.exists {
                true
            } else {
                match &candidates.home {
                    Some(home) => home.exists,
                    None => false,
                }
            }
        },
    }
}

/// The tree of a sample configuration.
pub open spec fn sample_config_tree() -> Tree {
    Tree::Object(
        seq![
            ("messages_dir"@, Tree::Text("./src/locales"@)),
            ("project_id"@, Tree::Number("1"@)),
            ("api_url"@, Tree::Text("http://localhost:8080/api"@)),
            ("api_key"@, Tree::Text("your-api-key-here"@)),
        ],
    )
}

/// A sample configuration, to be written out for the user to edit.
pub fn create_sample_config() -> (sample: JsonValue)
    ensures
        sample@ == sample_config_tree(),
{
    let mut members: Vec<(String, JsonValue)> = Vec::new();
    members.push(("messages_dir".to_owned(), JsonValue::Text("./src/locales".to_owned())));
    members.push(("project_id".to_owned(), JsonValue::Number("1".to_owned())));
    members.push(("api_url".to_owned(), JsonValue::Text("http://localhost:8080/api".to_owned())));
    members.push(("api_key".to_owned(), JsonValue::Text("your-api-key-here".to_owned())));
    let sample = JsonValue::Object(members);
    proof {
        assert(sample@ == Tree::Object(members_view(members@)));
        let got = members_view(members@);
        let wanted = sample_config_tree()->Object_0;
        assert(got.len() == wanted.len());
        assert(got[0] == wanted[0]);
        assert(got[1] == wanted[1]);
        assert(got[2] == wanted[2]);
        assert(got[3] == wanted[3]);
        assert(got =~= wanted);
    }
    sample
}

} // verus!
