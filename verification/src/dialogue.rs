//! Dialogues of the list format: a line of text said by a talker, followed
//! by the dialogue with the `next` id or by a choice between dialogues.

use vstd::prelude::*;

use crate::dialogue_line::Choice;

verus! {

/// Who says a dialogue.
#[derive(Debug, Clone, PartialEq)]
pub struct Talker {
    /// The talker's name.
    pub name: String,
    /// The talker's picture.
    pub asset: String,
}

/// One dialogue of a list.
#[derive(Debug, Clone, PartialEq)]
pub struct Dialogue {
    /// Id of the dialogue, unique in its list.
    pub id: i32,
    /// The spoken text.
    pub text: String,
    /// Who says it.
    pub talker: Talker,
    /// The choices offered after it, used when there is no `next`.
    pub choices: Option<Vec<Choice>>,
    /// The id of the dialogue that follows.
    pub next: Option<i32>,
}

} // verus!
