//! A policy engine that decides what claims go into an issued token.
//!
//! Given an identity schema annotated with a custom extension keyword, the
//! engine scans the schema for implicit scope declarations, compiles a
//! per-schema resolution plan, and executes that plan against a trait
//! document to produce the claims for the requested scopes.

use vstd::prelude::*;

pub mod assoc;
pub mod cache;
pub mod config;
pub mod json;
pub mod pointer;
pub mod rules;
pub mod schema;
pub mod scope;

verus! {

/// Top-level application error: the catch-all failure a caller of the
/// engine reports when a request cannot be served.
#[derive(Debug, Clone, Copy, PartialEq, Eq, Structural)]
pub struct Error;

impl Error {
    /// A short human-readable description of the error.
    pub fn message(&self) -> (r: &'static str)
        ensures
            r@ == "application error"@,
    {
        "application error"
    }
}

} // verus!
