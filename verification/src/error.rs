//! The error that ends the program: what failed, and on what.

use crate::config::error::ConfigError;
#[allow(unused_imports)]
use crate::config::messages::{config_words, file_view};
#[allow(unused_imports)]
use crate::reflector::build_words;
use crate::reflector::BuildError;
use crate::text;
use vstd::prelude::*;

verus! {

/// Anything that can go wrong while configuring or running the reflector.
#[derive(Debug, PartialEq, Eq)]
pub struct Error {
    kind: ErrorKind,
}

/// What went wrong. The text of a system failure is the system's own.
#[allow(inconsistent_fields)]
#[derive(Debug, PartialEq, Eq)]
pub enum ErrorKind {
    /// The configuration is invalid.
    Config(ConfigError),
    /// A capture could not be opened, or its interface not be resolved.
    Capture { iface: String, message: String },
    /// A reflector could not be built.
    Reflector { name: String, source: BuildError },
    /// The reactor or a system call failed.
    Reactor(String),
}

impl Error {
    /// What went wrong.
    pub closed spec fn spec_kind(&self) -> ErrorKind {
        self.kind
    }

    /// What went wrong.
    pub fn kind(&self) -> (kind: &ErrorKind)
        ensures
            *kind == self.spec_kind(),
    {
        &self.kind
    }

    /// The error in words. What is wrong with the configuration file is located in its text
    /// `file`, where that is at hand.
    pub open spec fn words(&self, file: Option<Seq<char>>) -> Seq<char> {
        match self.spec_kind() {
            ErrorKind::Config(source) => "config: "@ + config_words(source@, file) + ""@,
            ErrorKind::Capture { iface, message } => "cannot capture on "@ + iface@ + ": "@
                + message@ + ""@,
            ErrorKind::Reflector { name, source } => "reflector \""@ + name@ + "\": "@
                + build_words(source@) + ""@,
            ErrorKind::Reactor(message) => "reactor: "@ + message@ + ""@,
        }
    }

    /// The error in words. What is wrong with the configuration file is located in its text
    /// `file`, where that is at hand.
    pub fn message(&self, file: Option<&str>) -> (r: String)
        ensures
            r@ == self.words(file_view(file)),
    {
        match &self.kind {
            ErrorKind::Config(source) => text::around(
                "config: ",
                source.message(file).as_str(),
                "",
            ),
            ErrorKind::Capture { iface, message } => text::around_two(
                "cannot capture on ",
                iface.as_str(),
                ": ",
                message.as_str(),
                "",
            ),
            ErrorKind::Reflector { name, source } => text::around_two(
                "reflector \"",
                name.as_str(),
                "\": ",
                source.message().as_str(),
                "",
            ),
            ErrorKind::Reactor(message) => text::around("reactor: ", message.as_str(), ""),
        }
    }

    /// A capture on `iface` could not be set up.
    pub fn capture(iface: &str, message: String) -> (e: Self)
        ensures
            e.spec_kind() matches ErrorKind::Capture { iface: i, message: m } && i@ == iface@ && m
                == message,
    {
        Error { kind: ErrorKind::Capture { iface: iface.to_owned(), message } }
    }

    /// The reflector named `name` could not be built.
    pub fn reflector(name: &str, source: BuildError) -> (e: Self)
        ensures
            e.spec_kind() matches ErrorKind::Reflector { name: n, source: s } && n@ == name@ && s
                == source,
    {
        Error { kind: ErrorKind::Reflector { name: name.to_owned(), source } }
    }

    /// The configuration is invalid.
    pub fn config(source: ConfigError) -> (e: Self)
        ensures
            e.spec_kind() == ErrorKind::Config(source),
    {
        Error { kind: ErrorKind::Config(source) }
    }

    /// The reactor or a system call failed.
    pub fn reactor(message: String) -> (e: Self)
        ensures
            e.spec_kind() == ErrorKind::Reactor(message),
    {
        Error { kind: ErrorKind::Reactor(message) }
    }
}

} // verus!
