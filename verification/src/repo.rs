//! Repositories of dialogue lists.

use vstd::prelude::*;

use crate::dialogue::Dialogue;

verus! {

#[verifier::external_type_specification]
#[verifier::external_body]
pub struct ExIoError(std::io::Error);

/// Why a repository could not give a dialogue list.
#[derive(Debug)]
pub enum RepoError {
    /// The resource could not be read.
    ReadResource {
        /// What went wrong while reading.
        source: std::io::Error,
        /// The name of the resource.
        name: String,
    },
    /// The resource could not be parsed; the parser's message.
    ParseResource(String),
    /// The source could not be reached; the reason.
    AccessFailure(String),
}

/// A source of dialogue lists, found by name.
pub trait Repo {
    /// The dialogue list named `name`.
    fn find(&self, name: &str) -> Result<Vec<Dialogue>, RepoError>;
}

} // verus!
