//! Everything that can go wrong while loading, merging or validating a
//! configuration.

use vstd::prelude::*;
use crate::text::{owned, push_str};
use crate::validation::{ValidationErrors, report_text};

verus! {

/// A failure of a load, a merge or a validation.
#[derive(Debug)]
pub enum Error {
    /// No file was found at the path (or by walking parent directories).
    FileNotFound(String),
    /// The operating system failed to read or write `path`.
    Io { path: String, message: String },
    /// The TOML text of `path` (a file or a label) could not be parsed.
    Parse { path: String, message: String },
    /// A value could not be serialized back to TOML.
    Serialize(String),
    /// A single-message validation failure.
    Validation { context: String, reason: String },
    /// A structured validation report.
    Invalid(ValidationErrors),
}

/// The message of an error, as its `Display` renders it.
pub open spec fn error_message(e: Error) -> Seq<char> {
    match e {
        Error::FileNotFound(p) => "config file not found: "@ + p@,
        Error::Io { path, message } => "I/O error reading "@ + path@ + ": "@ + message@,
        Error::Parse { path, message } => "TOML parse error in "@ + path@ + ": "@ + message@,
        Error::Serialize(m) => "TOML serialize error: "@ + m@,
        Error::Validation { context, reason } => "validation failed for "@ + context@ + ": "@
            + reason@,
        Error::Invalid(r) => report_text(r@),
    }
}

impl Error {
    /// A single-message validation error.
    pub fn validation(context: &str, reason: &str) -> (r: Error)
        ensures
            r matches Error::Validation { context: c, reason: s } && c@ == context@ && s@ == reason@,
    {
        Error::Validation { context: owned(context), reason: owned(reason) }
    }

    /// An I/O error at `path`.
    pub fn io(path: &str, message: &str) -> (r: Error)
        ensures
            r matches Error::Io { path: p, message: m } && p@ == path@ && m@ == message@,
    {
        Error::Io { path: owned(path), message: owned(message) }
    }

    /// A parse error in `path`.
    pub fn parse(path: &str, message: &str) -> (r: Error)
        ensures
            r matches Error::Parse { path: p, message: m } && p@ == path@ && m@ == message@,
    {
        Error::Parse { path: owned(path), message: owned(message) }
    }

    /// The message of this error (see [`error_message`]).
    pub fn to_string(&self) -> (r: String)
        ensures
            r@ == error_message(*self),
    {
        let mut out = String::new();
        match self {
            Error::FileNotFound(p) => {
                push_str(&mut out, "config file not found: ");
                push_str(&mut out, p.as_str());
            },
            Error::Io { path, message } => {
                push_str(&mut out, "I/O error reading ");
                push_str(&mut out, path.as_str());
                push_str(&mut out, ": ");
                push_str(&mut out, message.as_str());
            },
            Error::Parse { path, message } => {
                push_str(&mut out, "TOML parse error in ");
                push_str(&mut out, path.as_str());
                push_str(&mut out, ": ");
                push_str(&mut out, message.as_str());
            },
            Error::Serialize(m) => {
                push_str(&mut out, "TOML serialize error: ");
                push_str(&mut out, m.as_str());
            },
            Error::Validation { context, reason } => {
                push_str(&mut out, "validation failed for ");
                push_str(&mut out, context.as_str());
                push_str(&mut out, ": ");
                push_str(&mut out, reason.as_str());
            },
            Error::Invalid(r) => {
                let t = r.to_string();
                push_str(&mut out, t.as_str());
            },
        }
        assert(out@ =~= error_message(*self));
        out
    }
}

} // verus!
