//! The errors that operations of the library report.
use vstd::prelude::*;
use vstd::string::*;

use crate::text::{decimal, to_decimal};

verus! {

/// An operation combined variables or expressions of two different environments.
#[derive(Debug, Clone, Copy, PartialEq, Eq, Structural)]
pub struct VariablesFromDifferentEnvsErr;

/// A substitution or separation mixed two different environments.
#[derive(Debug, Clone, Copy, PartialEq, Eq, Structural)]
pub struct DifferentEnvsErr;

/// A sample does not give exactly one value for each variable of the environment.
#[derive(Debug, Clone, Copy, PartialEq, Eq, Structural)]
pub struct EvaluationErr;

/// No variable of the given name exists in the environment.
#[derive(Debug, Clone, Copy, PartialEq, Eq, Structural)]
pub struct VariableNotExistingErr;

/// Why a variable could not be created.
#[derive(Debug)]
pub enum VariableCreationErr {
    /// A variable of this name exists already.
    VariableExists(String),
    /// The name is not a legal variable name; the message says why.
    VarName(String),
}

/// A constraint name that is not allowed, with the reason.
#[derive(Debug)]
pub struct IllegalConstraintNameErr(pub String);

/// A constraint of this name is already part of the collection.
#[derive(Debug)]
pub struct DuplicateConstraintNameErr(pub String);

/// A position past the end of a collection.
#[derive(Debug, Clone, Copy, PartialEq, Eq, Structural)]
pub struct IndexOutOfBoundsErr {
    pub index: usize,
    pub len: usize,
}

impl IndexOutOfBoundsErr {
    pub fn new(index: usize, len: usize) -> (r: Self)
        ensures
            r.index == index,
            r.len == len,
    {
        Self { index, len }
    }
}

/// Why a constraint could not be looked up.
#[derive(Debug)]
pub enum GetConstraintErr {
    /// The position is past the end of the collection.
    IndexOutOfBoundsErr(IndexOutOfBoundsErr),
    /// No constraint has the given name.
    NoConstraintForKeyErr(String),
}

/// A variable index that lies outside the variables an expression knows of.
#[derive(Debug, Clone, Copy, PartialEq, Eq, Structural)]
pub struct VariableOutOfRangeErr(pub usize);

impl VariableOutOfRangeErr {
    /// The human readable description of the error.
    pub fn message(&self) -> (r: String)
        ensures
            r@ == "variable is out of range (is "@ + decimal(self.0 as nat) + ")"@,
    {
        String::from_str("variable is out of range (is ").concat(to_decimal(self.0 as u64).as_str()).concat(")")
    }
}

/// A quadratic neighbourhood received an index below its last one.
#[derive(Debug, Clone, Copy, PartialEq, Eq, Structural)]
pub struct IndexOutOfOrderError(pub usize, pub usize);

impl IndexOutOfOrderError {
    /// The human readable description of the error.
    pub fn message(&self) -> (r: String)
        ensures
            r@ == "Index out of oder: last index <= "@ + decimal(self.0 as nat) + " (is "@ + decimal(
                self.1 as nat,
            ) + ")"@,
    {
        String::from_str("Index out of oder: last index <= ").concat(to_decimal(self.0 as u64).as_str()).concat(
            " (is ",
        ).concat(to_decimal(self.1 as u64).as_str()).concat(")")
    }
}

/// Either of the variable errors.
#[derive(Debug, Clone, Copy, PartialEq, Eq, Structural)]
pub enum VariableError {
    VariableFromDifferentEnvs(VariablesFromDifferentEnvsErr),
    VariableOutOfRangeError(VariableOutOfRangeErr),
}

impl From<VariablesFromDifferentEnvsErr> for VariableError {
    fn from(e: VariablesFromDifferentEnvsErr) -> (r: Self) {
        VariableError::VariableFromDifferentEnvs(e)
    }
}

impl vstd::std_specs::convert::FromSpecImpl<VariablesFromDifferentEnvsErr> for VariableError {
    open spec fn obeys_from_spec() -> bool {
        true
    }

    open spec fn from_spec(e: VariablesFromDifferentEnvsErr) -> Self {
        VariableError::VariableFromDifferentEnvs(e)
    }
}

impl From<VariableOutOfRangeErr> for VariableError {
    fn from(e: VariableOutOfRangeErr) -> (r: Self) {
        VariableError::VariableOutOfRangeError(e)
    }
}

impl vstd::std_specs::convert::FromSpecImpl<VariableOutOfRangeErr> for VariableError {
    open spec fn obeys_from_spec() -> bool {
        true
    }

    open spec fn from_spec(e: VariableOutOfRangeErr) -> Self {
        VariableError::VariableOutOfRangeError(e)
    }
}

/// The environments of two models do not match.
#[derive(Debug, Clone, Copy, PartialEq, Eq, Structural)]
pub struct EnvMismatchError;

impl EnvMismatchError {
    /// The human readable description of the error.
    pub fn message(&self) -> (r: String)
        ensures
            r@ == "Environments of the provided models do not match."@,
    {
        String::from_str("Environments of the provided models do not match.")
    }
}

/// A variable of the given name exists already.
#[derive(Debug, Clone, Copy, PartialEq, Eq, Structural)]
pub struct VariableExistsError;

impl VariableExistsError {
    /// The human readable description of the error.
    pub fn message(&self) -> (r: String)
        ensures
            r@ == "variable already exists in environment"@,
    {
        String::from_str("variable already exists in environment")
    }
}

/// A variable could not be created; the message says why.
#[derive(Debug)]
pub struct VariableCreationError {
    msg: String,
}

impl VariableCreationError {
    pub fn new(msg: String) -> (r: Self)
        ensures
            r.msg() == msg@,
    {
        Self { msg }
    }

    pub closed spec fn msg(&self) -> Seq<char> {
        self.msg@
    }

    /// The human readable description of the error.
    pub fn message(&self) -> (r: String)
        ensures
            r@ == "variable creation failed: "@ + self.msg(),
    {
        let prefix = String::from_str("variable creation failed: ");
        prefix.concat(self.msg.as_str())
    }
}

/// An operation on variables of two different environments.
#[derive(Debug, Clone, Copy, PartialEq, Eq, Structural)]
pub struct VariablesFromDifferentEnvsError;

impl VariablesFromDifferentEnvsError {
    /// The human readable description of the error.
    pub fn message(&self) -> (r: String)
        ensures
            r@ == "operation on two variables from differeent environments is not supported"@,
    {
        String::from_str("operation on two variables from differeent environments is not supported")
    }
}

/// An operation on objects of two different environments.
#[derive(Debug, Clone, Copy, PartialEq, Eq, Structural)]
pub struct DifferentEnvsError;

impl DifferentEnvsError {
    /// The human readable description of the error.
    pub fn message(&self) -> (r: String)
        ensures
            r@ == "operation on two variables from differeent environments is not supported"@,
    {
        String::from_str("operation on two variables from differeent environments is not supported")
    }
}

/// A string that could not be parsed; it holds the offending text.
#[derive(Debug)]
pub struct ParseFromStringError(pub String);

impl ParseFromStringError {
    /// The human readable description of the error.
    pub fn message(&self) -> (r: String)
        ensures
            r@ == "could not parse to string: "@ + self.0@,
    {
        String::from_str("could not parse to string: ").concat(self.0.as_str())
    }
}

/// The operation is not supported for its operands.
#[derive(Debug, Clone, Copy, PartialEq, Eq, Structural)]
pub struct UnsupportedOperationErr;

} // verus!
