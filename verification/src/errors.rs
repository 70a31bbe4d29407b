//! Errors of the talk runtime and builders.

use vstd::prelude::*;

verus! {

/// Errors when moving to the next action.
#[derive(Debug, Clone, Copy, PartialEq, Eq, Structural)]
pub enum NextActionError {
    /// No next action found.
    NoNextAction,
    /// Current node is a Choice. Cannot just advance.
    ChoicesNotHandled,
    /// A wrong entity was given to jump to in the dialogue graph.
    BadChoice,
    /// No talk was found with the given entity from the event.
    NoTalk,
}

/// Errors from the builder.
#[derive(Debug, Clone, PartialEq, Eq)]
pub enum BuildError {
    /// An action uses an actor (by slug) that was never added.
    InvalidActor(String),
}

/// Errors when building a talk from raw data.
#[derive(Debug, Clone, PartialEq, Eq)]
pub enum BuildTalkError {
    /// The actor id is duplicated.
    DuplicateActorId(String),
    /// The action has specified a non existent actor.
    InvalidActor(i32, String),
    /// Multiple actions have the same id.
    DuplicateActionId(i32),
    /// The action (first id) is pointing to an id which was not found
    /// (second id).
    InvalidNextAction(usize, usize),
    /// The talk has no action.
    EmptyTalk,
    /// The action is a join or a leave, which a talk graph cannot hold yet.
    UnsupportedAction(usize),
    /// Following choices from the action comes back to a choice in progress
    /// without reaching a new action: building would never end.
    ChoiceCycle(usize),
    /// More nodes than ids can number.
    TooManyNodes,
    /// The handle did not have a Talk loaded.
    RawTalkNotLoaded,
}

} // verus!
