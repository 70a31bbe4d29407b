//! Talk action definitions of the script format: actions with their actors,
//! text, choices and the id of the action that follows.

use vstd::prelude::*;

verus! {

/// A unique identifier for an action in a Talk.
pub type ActionId = i32;

/// A unique identifier for an actor in a Talk.
pub type ActorId = String;

/// An action in a Talk: its id, kind, actors, choices, text, the id of the
/// next action, and an optional sound effect.
#[derive(Debug, Default, Clone)]
pub struct ScriptAction {
    /// The ID of the action.
    pub id: ActionId,
    /// The kind of action.
    pub action: ActionKind,
    /// The actors involved in the action.
    pub actors: Vec<String>,
    /// Any choices that the user can make during the action.
    pub choices: Option<Vec<Choice>>,
    /// The text of the action.
    pub text: Option<String>,
    /// The ID of the next action to perform.
    pub next: Option<ActionId>,
    /// Any sound effect associated with the action.
    pub sound_effect: Option<String>,
}

/// An actor in a Talk: its id, the character it plays, and an optional asset.
#[derive(Debug, Default, Clone)]
pub struct Actor {
    /// A string identifying uniquely the actor.
    pub id: ActorId,
    /// The name of the character that the actor plays.
    pub name: String,
    /// An optional asset that represents the actor's appearance or voice.
    pub asset: Option<String>,
}

/// A choice in a Talk: its text and the id of the action it leads to.
#[derive(Debug, Clone)]
pub struct Choice {
    /// The text of the choice.
    pub text: String,
    /// The ID of the next action to perform if the choice is selected.
    pub next: ActionId,
}

/// The kinds of actions that can be performed in a Talk.
#[derive(Debug, Default, Clone, Copy, PartialEq, Eq, Structural)]
pub enum ActionKind {
    /// A talk action, where a character speaks dialogue.
    #[default]
    Talk,
    /// An enter action, where a character enters a scene.
    Enter,
    /// An exit action, where a character exits a scene.
    Exit,
    /// A choice action, where the user is presented with a choice.
    Choice,
}

} // verus!
