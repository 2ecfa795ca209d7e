//! Start-up settings: defaults and validation.

use vstd::prelude::*;

use crate::text::{all_white_space, decimal_value, is_blank, parse_u16};

verus! {

pub const DEFAULT_HOST: &'static str = "0.0.0.0";

pub const DEFAULT_PORT: u16 = 8080;

pub const DEFAULT_SYMBOL: &'static str = "BTC-USD";

/// The service's settings.
#[derive(Debug, Clone, PartialEq, Eq)]
pub struct Config {
    pub host: String,
    pub port: u16,
    pub symbol: String,
    pub json_logs: bool,
}

#[derive(Debug, Clone, PartialEq, Eq)]
pub enum ConfigError {
    InvalidPort(String),
    EmptySymbol,
}

impl ConfigError {
    /// The human-readable text of the error.
    pub open spec fn message_text(&self) -> Seq<char> {
        match self {
            ConfigError::InvalidPort(value) => "APP_PORT must be an integer between 0 and 65535, got `"@
                + value@ + "`"@,
            ConfigError::EmptySymbol => "BOOK_SYMBOL cannot be empty"@,
        }
    }

    pub fn message(&self) -> (text: String)
        ensures
            text@ == self.message_text(),
    {
        match self {
            ConfigError::InvalidPort(value) => {
                let mut text = "APP_PORT must be an integer between 0 and 65535, got `".to_owned();
                text.append(value.as_str());
                text.append("`");
                text
            },
            ConfigError::EmptySymbol => "BOOK_SYMBOL cannot be empty".to_owned(),
        }
    }
}

/// `c` in ASCII lower case.
pub open spec fn ascii_lower(c: char) -> char {
    if 'A' <= c && c <= 'Z' {
        ((c as u32) + 32) as char
    } else {
        c
    }
}

/// Two texts are equal when ASCII letters are compared without case.
pub open spec fn equal_ignoring_ascii_case(a: Seq<char>, b: Seq<char>) -> bool {
    a.len() == b.len() && forall|i: int| 0 <= i < a.len() ==> ascii_lower(#[trigger] a[i]) == ascii_lower(b[i])
}

fn lower(c: char) -> (r: u32)
    ensures
        r == ascii_lower(c) as u32,
{
    if 'A' <= c && c <= 'Z' {
        c as u32 + 32
    } else {
        c as u32
    }
}

fn eq_ignore_ascii_case(a: &str, b: &str) -> (equal: bool)
    ensures
        equal == equal_ignoring_ascii_case(a@, b@),
{
    let left = crate::text::chars_of(a);
    let right = crate::text::chars_of(b);
    if left.len() != right.len() {
        return false;
    }
    let mut i: usize = 0;
    while i < left.len()
        invariant
            left@ == a@,
            right@ == b@,
            left@.len() == right@.len(),
            i <= left@.len(),
            forall|k: int| 0 <= k < i ==> ascii_lower(#[trigger] left@[k]) == ascii_lower(right@[k]),
        decreases left@.len() - i,
    {
        if lower(left[i]) != lower(right[i]) {
            return false;
        }
        i = i + 1;
    }
    true
}

/// The port that a setting names: the default where none was given, the
/// number where the text is a whole number from 0 to 65535, else none.
pub open spec fn port_setting(port: Option<Seq<char>>) -> Option<u16> {
    match port {
        Some(text) => match decimal_value(text, false) {
            Some(v) => if 0 <= v <= u16::MAX {
                Some(v as u16)
            } else {
                None
            },
            None => None,
        },
        None => Some(DEFAULT_PORT),
    }
}

/// A text setting, or its default where none was given.
pub open spec fn text_setting(text: Option<&str>, default: Seq<char>) -> Seq<char> {
    match text {
        Some(t) => t@,
        None => default,
    }
}

/// Logs are JSON unless a format other than `json` (in any case) is named.
pub open spec fn json_setting(log_format: Option<&str>) -> bool {
    match log_format {
        Some(t) => equal_ignoring_ascii_case(t@, "json"@),
        None => true,
    }
}

pub open spec fn port_text(port: Option<&str>) -> Option<Seq<char>> {
    match port {
        Some(t) => Some(t@),
        None => None,
    }
}

impl Config {
    /// Applies the defaults to the settings that were given and validates
    /// them: a port must be a whole number from 0 to 65535, the symbol may
    /// not be blank, and logs are JSON unless another format is named.
    pub fn from_settings(
        host: Option<&str>,
        port: Option<&str>,
        symbol: Option<&str>,
        log_format: Option<&str>,
    ) -> (result: Result<Config, ConfigError>)
        ensures
            port_setting(port_text(port)) is None ==> (result matches Err(
                ConfigError::InvalidPort(text),
            ) && port matches Some(given) && text@ == given@),
            port_setting(port_text(port)) is Some && all_white_space(
                text_setting(symbol, DEFAULT_SYMBOL@),
            ) ==> result == Err::<Config, ConfigError>(ConfigError::EmptySymbol),
            port_setting(port_text(port)) is Some && !all_white_space(
                text_setting(symbol, DEFAULT_SYMBOL@),
            ) ==> (result matches Ok(config) && config.host@ == text_setting(host, DEFAULT_HOST@)
                && Some(config.port) == port_setting(port_text(port)) && config.symbol@
                == text_setting(symbol, DEFAULT_SYMBOL@) && config.json_logs == json_setting(
                log_format,
            )),
    {
        let port_number = match port {
            Some(text) => match parse_u16(text) {
                Some(value) => value,
                None => {
                    return Err(ConfigError::InvalidPort(text.to_owned()));
                },
            },
            None => DEFAULT_PORT,
        };
        let symbol_text = match symbol {
            Some(text) => text,
            None => DEFAULT_SYMBOL,
        };
        if is_blank(symbol_text) {
            return Err(ConfigError::EmptySymbol);
        }
        let host_text = match host {
            Some(text) => text,
            None => DEFAULT_HOST,
        };
        let json_logs = match log_format {
            Some(text) => eq_ignore_ascii_case(text, "json"),
            None => true,
        };
        Ok(
            Config {
                host: host_text.to_owned(),
                port: port_number,
                symbol: symbol_text.to_owned(),
                json_logs,
            },
        )
    }
}

} // verus!
