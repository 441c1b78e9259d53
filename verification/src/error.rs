//! The errors of the compiler and their messages.

use vstd::prelude::*;
use crate::text::{join, strings_view, push_joined};

verus! {

/// `std::io::Error`, the error of a failed file operation, carried as it is.
#[verifier::external_type_specification]
#[verifier::external_body]
pub struct ExIoError(std::io::Error);

/// Everything that can stop a compilation.
#[derive(Debug)]
pub enum Error {
    /// A file could not be read or written; `source` is the system's error.
    Io { path: String, source: std::io::Error },
    Config { path: String, message: String },
    Parse { source: String, message: String },
    Validation { module: Option<String>, errors: Vec<String> },
    Semantic { message: String },
    UnsupportedLanguage { lang: String },
}

pub open spec fn opt_view(o: Option<String>) -> Option<Seq<char>> {
    match o {
        Some(s) => Some(s@),
        None => None,
    }
}

/// The text of an error, where `io_text` is the text of the system's error
/// held by an `Io` error (the other errors do not use it).
pub open spec fn error_message(e: Error, io_text: Seq<char>) -> Seq<char> {
    match e {
        Error::Io { path, .. } => "IO error for '"@ + path@ + "': "@ + io_text,
        Error::Config { path, message } => "Config error in '"@ + path@ + "': "@ + message@,
        Error::Parse { source, message } => "Parse error in '"@ + source@ + "': "@ + message@,
        Error::Validation { module, errors } => match module {
            Some(m) => "Validation failed in '"@ + m@ + "': "@ + join(
                strings_view(errors@),
                ", "@,
            ),
            None => "Validation failed: "@ + join(strings_view(errors@), ", "@),
        },
        Error::Semantic { message } => "Semantic error: "@ + message@,
        Error::UnsupportedLanguage { lang } => "Unsupported language: "@ + lang@,
    }
}

impl Error {
    pub fn io(path: &str, source: std::io::Error) -> (r: Error)
        ensures
            r matches Error::Io { path: p, source: s } && p@ == path@ && s == source,
    {
        Error::Io { path: path.to_owned(), source }
    }

    pub fn config(path: &str, message: &str) -> (r: Error)
        ensures
            r matches Error::Config { path: p, message: m } && p@ == path@ && m@ == message@,
    {
        Error::Config { path: path.to_owned(), message: message.to_owned() }
    }

    pub fn parse(source: &str, message: &str) -> (r: Error)
        ensures
            r matches Error::Parse { source: s, message: m } && s@ == source@ && m@ == message@,
    {
        Error::Parse { source: source.to_owned(), message: message.to_owned() }
    }

    pub fn validation(module: Option<String>, errors: Vec<String>) -> (r: Error)
        ensures
            r == (Error::Validation { module, errors }),
    {
        Error::Validation { module, errors }
    }

    pub fn semantic(message: &str) -> (r: Error)
        ensures
            r matches Error::Semantic { message: m } && m@ == message@,
    {
        Error::Semantic { message: message.to_owned() }
    }

    pub fn unsupported_language(lang: &str) -> (r: Error)
        ensures
            r matches Error::UnsupportedLanguage { lang: l } && l@ == lang@,
    {
        Error::UnsupportedLanguage { lang: lang.to_owned() }
    }

    /// The text of this error (what the program prints for it). The text of a
    /// system error comes from the system, so for an `Io` error only its form
    /// is stated.
    pub fn message(&self) -> (r: String)
        ensures
            exists|t: Seq<char>| r@ == error_message(*self, t),
            !(*self is Io) ==> r@ == error_message(*self, Seq::empty()),
    {
        let io_text = match self {
            Error::Io { source, .. } => io_error_text(source),
            _ => String::new(),
        };
        self.message_with(io_text.as_str())
    }

    /// The text of this error, given the text of the system error that an
    /// `Io` error holds.
    pub fn message_with(&self, io_text: &str) -> (r: String)
        ensures
            r@ == error_message(*self, io_text@),
    {
        match self {
            Error::Io { path, .. } => {
                let mut s = "IO error for '".to_owned();
                s.append(path.as_str());
                s.append("': ");
                s.append(io_text);
                s
            },
            Error::Config { path, message } => {
                let mut s = "Config error in '".to_owned();
                s.append(path.as_str());
                s.append("': ");
                s.append(message.as_str());
                s
            },
            Error::Parse { source, message } => {
                let mut s = "Parse error in '".to_owned();
                s.append(source.as_str());
                s.append("': ");
                s.append(message.as_str());
                s
            },
            Error::Validation { module, errors } => {
                let mut s = match module {
                    Some(m) => {
                        let mut s = "Validation failed in '".to_owned();
                        s.append(m.as_str());
                        s.append("': ");
                        s
                    },
                    None => "Validation failed: ".to_owned(),
                };
                push_joined(&mut s, errors, ", ");
                s
            },
            Error::Semantic { message } => {
                let mut s = "Semantic error: ".to_owned();
                s.append(message.as_str());
                s
            },
            Error::UnsupportedLanguage { lang } => {
                let mut s = "Unsupported language: ".to_owned();
                s.append(lang.as_str());
                s
            },
        }
    }
}

/// `Display` of `std::io::Error`: for an error of the operating system the
/// text comes from the system, so nothing is promised of it.
#[verifier::external_body]
fn io_error_text(e: &std::io::Error) -> (r: String) {
    e.to_string()
}

/// How the command line shows an error.
#[derive(Debug)]
pub enum ErrorReport {
    /// The list of validation findings, with the module they belong to.
    Validation { module: Option<String>, errors: Vec<String> },
    /// A syntax report for a source file.
    Syntax { source: String, message: String },
    /// A one-line error.
    General(String),
}

/// Chooses how an error is shown: validation findings as a list, parse
/// errors as a syntax report, anything else as its message.
pub fn handle_error(error: Error) -> (r: ErrorReport)
    ensures
        match error {
            Error::Validation { module, errors } => r == (ErrorReport::Validation { module, errors }),
            Error::Parse { source, message } => r == (ErrorReport::Syntax { source, message }),
            Error::Io { .. } => r matches ErrorReport::General(m) && exists|t: Seq<char>|
                m@ == error_message(error, t),
            _ => r matches ErrorReport::General(m) && m@ == error_message(error, Seq::empty()),
        },
{
    match error {
        Error::Validation { module, errors } => ErrorReport::Validation { module, errors },
        Error::Parse { source, message } => ErrorReport::Syntax { source, message },
        _ => ErrorReport::General(error.message()),
    }
}

} // verus!
