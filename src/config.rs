//! Settings: the log level and the document store's connection.
use vstd::prelude::*;
use crate::text::str_equals;

verus! {

/// Logging level.
#[derive(Clone, Copy, Debug, PartialEq, Eq, Structural)]
pub enum LogLevel {
    /// Enables trace, debug, info, warn, and error logging messages.
    Trace,
    /// Enables debug, info, warn, and error logging messages.
    Debug,
    /// Enables info, warn, and error logging messages.
    Info,
    /// Enables warn, and error logging messages.
    Warn,
    /// Enables error logging messages.
    Error,
}

impl Default for LogLevel {
    fn default() -> (r: LogLevel)
        ensures
            r == LogLevel::Info,
    {
        LogLevel::Info
    }
}

/// A string that names no log level.
#[derive(Clone, Debug, PartialEq)]
pub struct LogLevelParseError(pub String);

impl LogLevelParseError {
    /// The message that describes the error.
    pub fn message(&self) -> (r: String)
        ensures
            r@ == "Invalid log level: "@ + self.0@,
    {
        String::from_str("Invalid log level: ").concat(self.0.as_str())
    }
}

/// The level that `s` names, if any.
pub open spec fn level_named(s: Seq<char>) -> Option<LogLevel> {
    if s == "trace"@ {
        Some(LogLevel::Trace)
    } else if s == "debug"@ {
        Some(LogLevel::Debug)
    } else if s == "info"@ {
        Some(LogLevel::Info)
    } else if s == "warn"@ {
        Some(LogLevel::Warn)
    } else if s == "error"@ {
        Some(LogLevel::Error)
    } else {
        None
    }
}

impl LogLevel {
    /// Reads a level from its lower-case name; any other string is an error
    /// that holds it.
    pub fn parse(s: &str) -> (r: Result<LogLevel, LogLevelParseError>)
        ensures
            match r {
                Ok(l) => level_named(s@) == Some(l),
                Err(e) => level_named(s@) is None && e.0@ == s@,
            },
    {
        if str_equals(s, "trace") {
            Ok(LogLevel::Trace)
        } else if str_equals(s, "debug") {
            Ok(LogLevel::Debug)
        } else if str_equals(s, "info") {
            Ok(LogLevel::Info)
        } else if str_equals(s, "warn") {
            Ok(LogLevel::Warn)
        } else if str_equals(s, "error") {
            Ok(LogLevel::Error)
        } else {
            Err(LogLevelParseError(String::from_str(s)))
        }
    }
}

impl std::str::FromStr for LogLevel {
    type Err = LogLevelParseError;

    fn from_str(s: &str) -> Result<LogLevel, LogLevelParseError> {
        LogLevel::parse(s)
    }
}

/// Where the document store is.
#[derive(Clone, Debug, PartialEq)]
pub struct Mongo {
    pub url: String,
    pub database: String,
}

/// TLS settings of the connection to the document store.
#[derive(Clone, Debug, PartialEq)]
pub struct Tls {
    pub ca_file: Option<String>,
    pub cert_file: Option<String>,
    pub password: Option<String>,
    pub allow_invalid_hostnames: bool,
}

} // verus!
