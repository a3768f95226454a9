use vstd::prelude::*;
use vstd::string::StringExecFns;

verus! {

/// Application-level error taxonomy for the callers that sit around the
/// cache: configuration loading, upstream requests, cache access and payload
/// parsing. Each variant carries a human-readable detail string.
#[derive(Debug)]
pub enum AppError {
    ConfigError(String),
    NetworkError(String),
    CacheError(String),
    ParseError(String),
}

impl AppError {
    /// The full text of [`AppError::message`], as a sequence of characters.
    pub open spec fn spec_message(&self) -> Seq<char> {
        match self {
            AppError::ConfigError(m) => "Configuration error: "@ + m@,
            AppError::NetworkError(m) => "Network error: "@ + m@,
            AppError::CacheError(m) => "Cache error: "@ + m@,
            AppError::ParseError(m) => "Parse error: "@ + m@,
        }
    }

    /// Human-readable description of the error: a fixed prefix naming the
    /// variant, followed by the detail string.
    pub fn message(&self) -> (r: String)
        ensures
            r@ == self.spec_message(),
    {
        match self {
            AppError::ConfigError(m) => {
                let mut s: String = "Configuration error: ".to_owned();
                s.append(m.as_str());
                s
            }
            AppError::NetworkError(m) => {
                let mut s: String = "Network error: ".to_owned();
                s.append(m.as_str());
                s
            }
            AppError::CacheError(m) => {
                let mut s: String = "Cache error: ".to_owned();
                s.append(m.as_str());
                s
            }
            AppError::ParseError(m) => {
                let mut s: String = "Parse error: ".to_owned();
                s.append(m.as_str());
                s
            }
        }
    }
}

} // verus!
