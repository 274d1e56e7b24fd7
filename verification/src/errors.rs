//! Errors of parameter extraction, and the model of a computation's result.

use vstd::prelude::*;

use crate::text::{decimal, decimal_text};

verus! {

/// Why parameters could not be extracted.
#[derive(Debug, PartialEq, Eq)]
pub enum ReflectError {
    /// A parameter, field or expression that extraction does not support.
    UnsupportedDynamicParam { typename: String, parameter: String, reason: String },
    /// A parameter bound to a field that holds a negative value.
    NegativeDynamicParam { typename: String, parameter: String },
    /// The data ends before the layout does.
    BufferTooSmall { typename: String, required: u128, available: u64 },
}

/// The result of an operation that can fail with a [`ReflectError`].
pub type ReflectResult<T> = Result<T, ReflectError>;

/// The model of a [`ReflectError`].
pub enum Failure {
    Unsupported { typename: Seq<char>, parameter: Seq<char>, reason: Seq<char> },
    Negative { typename: Seq<char>, parameter: Seq<char> },
    TooSmall { typename: Seq<char>, required: nat, available: nat },
}

impl View for ReflectError {
    type V = Failure;

    open spec fn view(&self) -> Failure {
        match *self {
            ReflectError::UnsupportedDynamicParam { typename, parameter, reason } => {
                Failure::Unsupported { typename: typename@, parameter: parameter@, reason: reason@ }
            },
            ReflectError::NegativeDynamicParam { typename, parameter } => {
                Failure::Negative { typename: typename@, parameter: parameter@ }
            },
            ReflectError::BufferTooSmall { typename, required, available } => {
                Failure::TooSmall {
                    typename: typename@,
                    required: required as nat,
                    available: available as nat,
                }
            },
        }
    }
}

impl Failure {
    /// The name of the type whose parameters were asked for.
    pub open spec fn typename(self) -> Seq<char> {
        match self {
            Failure::Unsupported { typename, .. } => typename,
            Failure::Negative { typename, .. } => typename,
            Failure::TooSmall { typename, .. } => typename,
        }
    }
}

impl ReflectError {
    /// Says how many bytes were missing, where the data was too short; `None` for every other
    /// error.
    pub fn shortage_message(&self) -> (message: Option<String>)
        ensures
            match self@ {
                Failure::TooSmall { typename, required, available } => {
                    &&& message is Some
                    &&& message->0@ == "type '"@ + typename + "' requires "@ + decimal(required)
                        + " bytes but only "@ + decimal(available) + " available"@
                },
                _ => message is None,
            },
    {
        match self {
            ReflectError::BufferTooSmall { typename, required, available } => {
                let mut text = String::from_str("type '");
                text.append(typename.as_str());
                text.append("' requires ");
                text.append(decimal_text(*required).as_str());
                text.append(" bytes but only ");
                text.append(decimal_text(*available as u128).as_str());
                text.append(" available");
                Some(text)
            },
            _ => None,
        }
    }
}

/// The model of a computation's result.
///
/// A computation is `Undefined` where it has no value: an arithmetic result outside of the 128-bit
/// range, a shift by 128 bits or more, an array element narrower than the value read from it, an
/// alignment whose low machine word is zero, or type references nested deeper than the depth the
/// model allows for.
pub enum Outcome<T> {
    Done(T),
    Failed(Failure),
    Undefined,
}

/// How a computation stopped before it was done.
#[derive(Debug, PartialEq, Eq)]
pub enum Halt {
    Error(ReflectError),
    Undefined,
}

/// The model of the result of a computation that may be undefined.
pub open spec fn outcome<T>(result: Result<T, Halt>) -> Outcome<T> {
    match result {
        Ok(value) => Outcome::Done(value),
        Err(Halt::Error(error)) => Outcome::Failed(error@),
        Err(Halt::Undefined) => Outcome::Undefined,
    }
}

/// The model of a result that is an error or a value.
pub open spec fn settled<T>(result: ReflectResult<T>) -> Outcome<T> {
    match result {
        Ok(value) => Outcome::Done(value),
        Err(error) => Outcome::Failed(error@),
    }
}

/// Builds the error for something that extraction does not support.
pub fn unsupported(typename: &str, parameter: &str, reason: &str) -> (error: ReflectError)
    ensures
        error@ == (Failure::Unsupported {
            typename: typename@,
            parameter: parameter@,
            reason: reason@,
        }),
{
    ReflectError::UnsupportedDynamicParam {
        typename: String::from_str(typename),
        parameter: String::from_str(parameter),
        reason: String::from_str(reason),
    }
}

} // verus!
