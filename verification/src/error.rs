//! The errors that flag lookups and handlers report.

use vstd::prelude::*;
use vstd::string::*;

verus! {

/// Why a handler could not be run.
#[derive(Debug)]
pub struct ActionError {
    pub kind: ActionErrorKind,
}

/// The kinds of `ActionError`.
#[derive(PartialEq, Eq, Structural, Clone, Copy, Debug)]
pub enum ActionErrorKind {
    NotFound,
}

/// Why a flag has no value of the type that was asked for.
#[derive(PartialEq, Eq, Structural, Clone, Copy, Debug)]
pub enum FlagError {
    /// The flag is declared, but was not given on this command line.
    NotFound,
    /// No flag of that name is declared.
    Undefined,
    /// The flag has a value of another type than the one asked for.
    TypeError,
    /// The flag was given a value that its declared type cannot read.
    ValueTypeError,
    /// The flag was given without the value it takes.
    ArgumentError,
}

impl ActionErrorKind {
    /// The name of the kind.
    pub open spec fn label(self) -> Seq<char> {
        "NotFound"@
    }

    /// The name of the kind, as text.
    pub fn to_string(&self) -> (r: String)
        ensures
            r@ == self.label(),
    {
        String::from_str("NotFound")
    }
}

impl ActionError {
    /// The name of the error's kind, as text.
    pub fn to_string(&self) -> (r: String)
        ensures
            r@ == self.kind.label(),
    {
        self.kind.to_string()
    }
}

impl FlagError {
    /// The name of the error.
    pub open spec fn label(self) -> Seq<char> {
        match self {
            FlagError::NotFound => "NotFound"@,
            FlagError::Undefined => "Undefined"@,
            FlagError::TypeError => "TypeError"@,
            FlagError::ValueTypeError => "ValueTypeError"@,
            FlagError::ArgumentError => "ArgumentError"@,
        }
    }

    /// What the error means, in a few words.
    pub open spec fn meaning(self) -> Seq<char> {
        match self {
            FlagError::NotFound => "Flag not found"@,
            FlagError::Undefined => "Flag undefined"@,
            FlagError::TypeError => "Flag type mismatch"@,
            FlagError::ValueTypeError => "Value type mismatch"@,
            FlagError::ArgumentError => "Illegal argument"@,
        }
    }

    /// The name of the error, as text.
    pub fn to_string(&self) -> (r: String)
        ensures
            r@ == self.label(),
    {
        match self {
            FlagError::NotFound => String::from_str("NotFound"),
            FlagError::Undefined => String::from_str("Undefined"),
            FlagError::TypeError => String::from_str("TypeError"),
            FlagError::ValueTypeError => String::from_str("ValueTypeError"),
            FlagError::ArgumentError => String::from_str("ArgumentError"),
        }
    }

    /// What the error means, in a few words.
    pub fn description(&self) -> (r: &'static str)
        ensures
            r@ == self.meaning(),
    {
        match self {
            FlagError::NotFound => "Flag not found",
            FlagError::Undefined => "Flag undefined",
            FlagError::TypeError => "Flag type mismatch",
            FlagError::ValueTypeError => "Value type mismatch",
            FlagError::ArgumentError => "Illegal argument",
        }
    }
}

} // verus!
