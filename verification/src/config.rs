//! The node's configuration: a TOML document whose `network.bind_address`
//! names the address the server listens on.

use vstd::prelude::*;

verus! {

/// What `text.parse::<toml::Value>()` followed by `lookup(path)` and
/// `as_str()` gives: `None` where the text is not a TOML document, else the
/// string at the dotted `path`, if there is a string there.
pub uninterp spec fn toml_string_at(text: Seq<char>, path: Seq<char>) -> Option<Option<Seq<char>>>;

/// Parses `text` as TOML with `toml::Value`'s `FromStr`, then reads the
/// string at `path` with `Value::lookup` and `Value::as_str`. The result is
/// named, not described: the contract claims only that it is a function of
/// `text` and `path`.
#[verifier::external_body]
fn lookup_toml_string(text: &str, path: &str) -> (r: Option<Option<String>>)
    ensures
        match r {
            None => toml_string_at(text@, path@) is None,
            Some(None) => toml_string_at(text@, path@) == Some(None::<Seq<char>>),
            Some(Some(s)) => toml_string_at(text@, path@) == Some(Some(s@)),
        },
{
    match text.parse::<toml::Value>() {
        Ok(doc) => Some(doc.lookup(path).and_then(|v| v.as_str()).map(|s| s.to_string())),
        Err(_) => None,
    }
}

/// What the node reads from its configuration: of the whole TOML document,
/// only the one setting the node uses.
#[derive(Debug, Clone)]
pub struct Config {
    /// The string at `network.bind_address`, if there is one.
    pub bind_address: Option<String>,
}

/// The configuration text is not a TOML document.
#[derive(Debug, Clone, Copy, PartialEq, Eq, Structural)]
pub enum ConfigError {
    Unparsable,
}

/// Reads the configuration from the text of the configuration file. Text
/// that is not TOML is refused with `Unparsable`, in place of the panic of
/// a parse unwrapped; the program stops there.
pub fn read_config(text: &str) -> (r: Result<Config, ConfigError>)
    ensures
        match toml_string_at(text@, "network.bind_address"@) {
            None => r == Err::<Config, ConfigError>(ConfigError::Unparsable),
            Some(None) => r matches Ok(c) && c.bind_address is None,
            Some(Some(b)) => r matches Ok(c) && c.bind_address matches Some(s) && s@ == b,
        },
{
    match lookup_toml_string(text, "network.bind_address") {
        None => Err(ConfigError::Unparsable),
        Some(b) => Ok(Config { bind_address: b }),
    }
}

/// The address the server listens on when there is no configuration.
pub open spec fn default_bind_address() -> Seq<char> {
    "127.0.0.1:5432"@
}

/// The address the server listens on: the configured one, or the default
/// where there is no configuration. `None` where a configuration names no
/// address.
pub fn bind_address(conf: &Option<Config>) -> (r: Option<String>)
    ensures
        conf is None ==> (r matches Some(a) && a@ == default_bind_address()),
        conf matches Some(c) ==> match c.bind_address {
            None => r is None,
            Some(b) => r matches Some(a) && a@ == b@,
        },
{
    match conf {
        Some(c) => c.bind_address.clone(),
        None => Some("127.0.0.1:5432".to_owned()),
    }
}

} // verus!
