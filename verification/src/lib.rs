//! Reads a declarative list of stack-export jobs, validates each entry, and
//! turns a stack's exported key/value outputs into two generated artifacts:
//! a flat JSON object and a TypeScript ambient type declaration.
//!
//! Two policy choices are part of the contract. Duplicate output keys
//! collapse in the JSON artifact — last write wins — but every occurrence
//! keeps its own line in the type-binding artifact. An empty output set is
//! not an error: both generators produce their well-formed empty artifact.

pub mod config;
pub mod outputs;
pub mod writer;
