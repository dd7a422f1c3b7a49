//! The normalized form of a stack's remote outputs.
//!
//! The remote collaborator answers a stack query with an ordered list of
//! key/value pairs, or a typed failure. The collaborator's wire types allow a
//! key or a value to be absent; the artifact generators require both, so an
//! output is normalized here before any artifact is produced, and a missing
//! field is surfaced as a defect instead of being silently coerced.

use vstd::prelude::*;
use vstd::string::*;

verus! {

/// A per-job failure while fetching a stack's outputs. A failed fetch skips
/// that job; it never aborts the sibling jobs.
#[derive(Debug)]
pub enum Error {
    /// The remote service reported an error of its own.
    ServiceError(String),
    /// Any other transport or client fault.
    UnknownError(String),
    /// The named stack does not exist.
    NotFoundError(String),
    /// The collaborator handed back an output without a key or a value,
    /// breaking its own contract.
    MissingOutputField(String),
}

/// One exported key/value pair of a stack, with both fields present.
pub struct Output {
    pub key: String,
    pub value: String,
}

/// An ordered list of a stack's outputs, as received for one job. Keys need
/// not be unique; the duplicate-key policy belongs to each generator.
pub type OutputSet = Vec<Output>;

impl Output {
    /// Normalizes one raw output pair from the collaborator: both fields
    /// must be present, and an absent key or value is reported as the
    /// collaborator-side defect it is.
    pub fn from_parts(key: Option<String>, value: Option<String>) -> (r: Result<Output, Error>)
        ensures
            r is Ok <==> (key is Some && value is Some),
            r matches Ok(o) ==> o.key == key->0 && o.value == value->0,
            r is Err ==> r->Err_0 is MissingOutputField,
    {
        match (key, value) {
            (Some(k), Some(v)) => Ok(Output { key: k, value: v }),
            (None, _) => Err(
                Error::MissingOutputField(String::from_str("an output is missing its key")),
            ),
            (_, None) => Err(
                Error::MissingOutputField(String::from_str("an output is missing its value")),
            ),
        }
    }
}

/// Picks the outputs of the first stack that a describe-stacks answer holds:
/// an answer naming no stack at all means the requested stack was not found.
pub fn select_stack_outputs(stacks: Vec<OutputSet>, stack_name: &str) -> (r: Result<
    OutputSet,
    Error,
>)
    ensures
        stacks@.len() == 0 <==> r is Err,
        r is Err ==> (r->Err_0 matches Error::NotFoundError(n) && n@ == stack_name@),
        r matches Ok(outs) ==> outs@ == stacks@[0]@,
{
    let mut stacks = stacks;
    if stacks.len() == 0 {
        Err(Error::NotFoundError(stack_name.to_owned()))
    } else {
        let first = stacks.remove(0);
        Ok(first)
    }
}

} // verus!
