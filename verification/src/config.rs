//! API configuration: the endpoint, key and model the caller needs to
//! reach the chat-completion service, parsed from TOML configuration text.
//!
//! Reading the configuration file from disk, and writing it back, is the
//! caller's concern; this module parses and validates the text.

use vstd::prelude::*;

verus! {

/// The settings of the chat-completion API.
#[derive(Debug, Clone)]
pub struct ApiConfig {
    pub endpoint: String,
    pub key: String,
    pub model: String,
}

/// The whole configuration: an `[api]` table with the API settings.
#[derive(Debug, Clone)]
pub struct Config {
    pub api: ApiConfig,
}

/// The failure of configuration parsing: the text is not valid TOML, or
/// the `[api]` table with its three string fields is not there.
#[derive(Debug, Clone, Copy, PartialEq, Eq, Structural)]
pub struct ConfigError;

/// The API settings that TOML parsing extracts from configuration text:
/// `Some` exactly when the text is valid TOML whose `api` table carries
/// strings `endpoint`, `key` and `model`, and then those three strings.
pub uninterp spec fn toml_api_config(text: Seq<char>) -> Option<
    (Seq<char>, Seq<char>, Seq<char>),
>;

/// Relies on str::parse::<toml::Table> (toml's FromStr) and
/// toml::Value::get / toml::Value::as_str: parsing the text and reading
/// `api.endpoint`, `api.key` and `api.model` is a pure function of the
/// text, named `toml_api_config`.
#[verifier::external_body]
fn parse_api_table(text: &str) -> (r: Option<ApiConfig>)
    ensures
        match r {
            Some(c) => toml_api_config(text@) == Some((c.endpoint@, c.key@, c.model@)),
            None => toml_api_config(text@) is None,
        },
{
    let table: toml::Table = match text.parse() {
        Ok(t) => t,
        Err(_) => return None,
    };
    let api = table.get("api")?;
    let endpoint = api.get("endpoint")?.as_str()?;
    let key = api.get("key")?.as_str()?;
    let model = api.get("model")?.as_str()?;
    Some(
        ApiConfig {
            endpoint: endpoint.to_string(),
            key: key.to_string(),
            model: model.to_string(),
        },
    )
}

/// Parses the configuration text read from a configuration file: succeeds
/// exactly when the text carries an `api` table with string fields
/// `endpoint`, `key` and `model`.
pub fn load_from_path(contents: &str) -> (r: Result<Config, ConfigError>)
    ensures
        match r {
            Ok(c) => toml_api_config(contents@) == Some(
                (c.api.endpoint@, c.api.key@, c.api.model@),
            ),
            Err(_) => toml_api_config(contents@) is None,
        },
{
    match parse_api_table(contents) {
        Some(api) => Ok(Config { api }),
        None => Err(ConfigError),
    }
}

/// Parses the configuration text and returns the API settings themselves:
/// succeeds exactly when `load_from_path` does.
pub fn load_api_config(contents: &str) -> (r: Result<ApiConfig, ConfigError>)
    ensures
        match r {
            Ok(c) => toml_api_config(contents@) == Some((c.endpoint@, c.key@, c.model@)),
            Err(_) => toml_api_config(contents@) is None,
        },
{
    match load_from_path(contents) {
        Ok(c) => Ok(c.api),
        Err(e) => Err(e),
    }
}

} // verus!
