//! How a parse can end: the error kinds, the request to show a text, and the
//! ghost `Status` that contracts use to speak of both.

use vstd::prelude::*;
use vstd::string::StringExecFns;

verus! {

/// Error types returned by the library.
#[derive(Debug)]
pub enum Error {
    /// An unregistered flag, option or command name was met; the detail says which.
    BadName(String),
    /// An option was given without a value; the detail says which.
    MissingValue(String),
    /// The built-in `help` command was given without an argument.
    MissingHelpArg,
    /// The command line arguments are not valid unicode strings.
    NotUnicode,
}

/// How a parse that met no error ended.
#[derive(Debug)]
pub enum Outcome {
    /// Every token was consumed.
    Parsed,
    /// The input asked for the help or version text. The parse stopped there;
    /// the caller is expected to print the text and leave with status 0.
    Show(String),
}

/// The end of a parse as contracts see it.
pub enum Status {
    /// Every token was consumed.
    Parsed,
    /// The parse stopped to have this text shown.
    Show(Seq<char>),
    /// The parse stopped at an unregistered name, with this detail.
    BadName(Seq<char>),
    /// The parse stopped at an option without a value, with this detail.
    MissingValue(Seq<char>),
    /// The parse stopped at a `help` command without an argument.
    MissingHelpArg,
    /// The arguments could not be decoded.
    NotUnicode,
}

/// Detail for an option whose value is missing; `what` is the token as written.
pub open spec fn missing_value_text(what: Seq<char>) -> Seq<char> {
    "missing value for "@ + what
}

/// Detail for the short option `name` inside the cluster `token` whose value is missing.
pub open spec fn missing_value_in_text(name: Seq<char>, token: Seq<char>) -> Seq<char> {
    "missing value for '"@ + name + "' in "@ + token
}

/// Detail for a token that names no flag and no option.
pub open spec fn unknown_name_text(token: Seq<char>) -> Seq<char> {
    token + " is not a recognised flag or option name"@
}

/// Detail for the short name `name` inside the cluster `token` that names no flag and no option.
pub open spec fn unknown_name_in_text(name: Seq<char>, token: Seq<char>) -> Seq<char> {
    "'"@ + name + "' in "@ + token + " is not a recognised flag or option name"@
}

/// Detail for the name side of `name=value` that names no option.
pub open spec fn unknown_option_text(name: Seq<char>) -> Seq<char> {
    name + " is not a recognised option name"@
}

/// Detail for the argument of `help` that names no command.
pub open spec fn unknown_command_text(name: Seq<char>) -> Seq<char> {
    "'"@ + name + "' is not a recognised command name"@
}

/// The status that a returned value without an outcome stands for.
pub open spec fn unit_status_of(r: Result<(), Error>) -> Status {
    match r {
        Ok(_) => Status::Parsed,
        Err(e) => e.status(),
    }
}

/// The status that a returned value stands for.
pub open spec fn status_of(r: Result<Outcome, Error>) -> Status {
    match r {
        Ok(Outcome::Parsed) => Status::Parsed,
        Ok(Outcome::Show(text)) => Status::Show(text@),
        Err(e) => e.status(),
    }
}

impl Error {
    /// This error as a status.
    pub open spec fn status(&self) -> Status {
        match self {
            Error::BadName(detail) => Status::BadName(detail@),
            Error::MissingValue(detail) => Status::MissingValue(detail@),
            Error::MissingHelpArg => Status::MissingHelpArg,
            Error::NotUnicode => Status::NotUnicode,
        }
    }

    /// The text of `message`.
    pub open spec fn text(&self) -> Seq<char> {
        match self {
            Error::BadName(detail) => "Error: "@ + detail@,
            Error::MissingValue(detail) => "Error: "@ + detail@,
            Error::MissingHelpArg => "Error: missing argument for the help command"@,
            Error::NotUnicode => "Error: arguments are not valid unicode strings"@,
        }
    }

    /// The message for the user: `Error: ` followed by the detail.
    pub fn message(&self) -> (m: String)
        ensures
            m@ == self.text(),
    {
        match self {
            Error::BadName(detail) => String::from_str("Error: ").concat(detail.as_str()),
            Error::MissingValue(detail) => String::from_str("Error: ").concat(detail.as_str()),
            Error::MissingHelpArg => String::from_str(
                "Error: missing argument for the help command",
            ),
            Error::NotUnicode => String::from_str(
                "Error: arguments are not valid unicode strings",
            ),
        }
    }

    /// An option, written as `what`, has no value.
    pub fn missing_value(what: &str) -> (e: Error)
        ensures
            e.status() == Status::MissingValue(missing_value_text(what@)),
    {
        Error::MissingValue(String::from_str("missing value for ").concat(what))
    }

    /// The short option `name` inside the cluster `token` has no value.
    pub fn missing_value_in(name: &str, token: &str) -> (e: Error)
        ensures
            e.status() == Status::MissingValue(missing_value_in_text(name@, token@)),
    {
        Error::MissingValue(
            String::from_str("missing value for '").concat(name).concat("' in ").concat(token),
        )
    }

    /// `token` names no flag and no option.
    pub fn unknown_name(token: &str) -> (e: Error)
        ensures
            e.status() == Status::BadName(unknown_name_text(token@)),
    {
        Error::BadName(String::from_str(token).concat(" is not a recognised flag or option name"))
    }

    /// The short name `name` inside the cluster `token` names no flag and no option.
    pub fn unknown_name_in(name: &str, token: &str) -> (e: Error)
        ensures
            e.status() == Status::BadName(unknown_name_in_text(name@, token@)),
    {
        Error::BadName(
            String::from_str("'").concat(name).concat("' in ").concat(token).concat(
                " is not a recognised flag or option name",
            ),
        )
    }

    /// The name side of `name=value` names no option.
    pub fn unknown_option(name: &str) -> (e: Error)
        ensures
            e.status() == Status::BadName(unknown_option_text(name@)),
    {
        Error::BadName(String::from_str(name).concat(" is not a recognised option name"))
    }

    /// The argument of `help` names no command.
    pub fn unknown_command(name: &str) -> (e: Error)
        ensures
            e.status() == Status::BadName(unknown_command_text(name@)),
    {
        Error::BadName(
            String::from_str("'").concat(name).concat("' is not a recognised command name"),
        )
    }
}

} // verus!
