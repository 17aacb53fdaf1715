//! The ways a value from outside can be wrong.
use vstd::prelude::*;

verus! {

#[derive(Debug)]
pub enum Error {
    InvalidSteamId(String),
    InvalidTfPath(String),
    UnknownClass(String),
    MissingConfig(&'static str),
}

/// The stable tag of each kind of failure.
pub open spec fn error_kind(e: &Error) -> Seq<char> {
    match e {
        Error::InvalidSteamId(_) => "invalid_steamid"@,
        Error::InvalidTfPath(_) => "invalid_tf_path"@,
        Error::UnknownClass(_) => "unknown_class"@,
        Error::MissingConfig(_) => "missing_config"@,
    }
}

impl Error {
    /// Stable machine-readable tag, so the UI can react to a specific failure
    /// without matching on message text.
    pub fn kind(&self) -> (r: &'static str)
        ensures
            r@ == error_kind(self),
    {
        match self {
            Error::InvalidSteamId(_) => "invalid_steamid",
            Error::InvalidTfPath(_) => "invalid_tf_path",
            Error::UnknownClass(_) => "unknown_class",
            Error::MissingConfig(_) => "missing_config",
        }
    }

    /// The message shown to a person: the kind of failure and what it was about.
    pub fn message(&self) -> (r: String)
        ensures
            r@ == error_message(self),
    {
        let mut out: Vec<char> = Vec::new();
        match self {
            Error::InvalidSteamId(m) => {
                crate::text::push_str(&mut out, "invalid SteamID: ");
                crate::text::push_str(&mut out, m.as_str());
            },
            Error::InvalidTfPath(m) => {
                crate::text::push_str(&mut out, "invalid TF2 path: ");
                crate::text::push_str(&mut out, m.as_str());
            },
            Error::UnknownClass(m) => {
                crate::text::push_str(&mut out, "unknown TF2 class: ");
                crate::text::push_str(&mut out, m.as_str());
            },
            Error::MissingConfig(m) => {
                crate::text::push_str(&mut out, "config key not set: ");
                crate::text::push_str(&mut out, m);
            },
        }
        crate::text::string_of(out.as_slice())
    }
}

pub open spec fn error_message(e: &Error) -> Seq<char> {
    match e {
        Error::InvalidSteamId(m) => "invalid SteamID: "@ + m@,
        Error::InvalidTfPath(m) => "invalid TF2 path: "@ + m@,
        Error::UnknownClass(m) => "unknown TF2 class: "@ + m@,
        Error::MissingConfig(m) => "config key not set: "@ + m@,
    }
}

} // verus!
