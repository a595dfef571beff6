//! Why a repair fails.

use crate::grammar::Failure;
use vstd::prelude::*;

verus! {

/// Errors of JSON repair.
#[derive(Debug)]
pub enum RepairError {
    /// The input did not contain any recoverable JSON value.
    Empty,
    /// Strict mode rejected a structure that lenient repair would otherwise fix.
    Strict(String),
}

impl View for RepairError {
    type V = Failure;

    open spec fn view(&self) -> Failure {
        match self {
            RepairError::Empty => Failure::Empty,
            RepairError::Strict(reason) => Failure::Strict(reason@),
        }
    }
}

impl RepairError {
    /// The error as a sentence.
    pub fn message(&self) -> (r: String)
        ensures
            r@ == match self@ {
                Failure::Empty => "input did not contain a recoverable JSON value"@,
                Failure::Strict(reason) => "strict repair rejected input: "@ + reason,
            },
    {
        match self {
            RepairError::Empty => "input did not contain a recoverable JSON value".to_owned(),
            RepairError::Strict(reason) => "strict repair rejected input: ".to_owned().concat(
                reason.as_str(),
            ),
        }
    }
}

} // verus!
