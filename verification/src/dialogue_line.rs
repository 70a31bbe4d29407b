//! Dialogue lines of the line-list format: a line of text with an optional
//! speaker, optional choices, and the id of the line that follows.

use vstd::prelude::*;

verus! {

/// One line of a dialogue list.
#[derive(Debug, Clone, PartialEq)]
pub struct DialogueLine {
    /// Id of the line, unique in its list.
    pub id: i32,
    /// The spoken text.
    pub text: String,
    /// Who speaks the line, if anyone.
    pub talker: Option<String>,
    /// The choices offered after the line, if any.
    pub choices: Option<Vec<Choice>>,
    /// The id of the line that follows; `-1` marks the end.
    pub next: Option<i32>,
    /// Whether the line starts the dialogue.
    pub start: Option<bool>,
    /// Whether the line ends the dialogue.
    pub end: Option<bool>,
}

/// A choice offered after a line.
#[derive(Debug, Clone, PartialEq)]
pub struct Choice {
    /// The text of the choice.
    pub text: String,
    /// The id of the line the choice leads to.
    pub next: i32,
}

impl DialogueLine {
    /// A line ends the dialogue when it offers no choices and its next id is `-1`.
    pub fn is_end(&self) -> (r: bool)
        ensures
            r == (self.choices is None && self.next == Some(-1i32)),
    {
        self.choices.is_none() && match self.next {
            Some(n) => n == -1,
            None => false,
        }
    }

    /// Whether the line names a following line.
    pub fn has_next(&self) -> (r: bool)
        ensures
            r == self.next is Some,
    {
        self.next.is_some()
    }

    /// Whether the line offers choices.
    pub fn has_choices(&self) -> (r: bool)
        ensures
            r == self.choices is Some,
    {
        self.choices.is_some()
    }
}

} // verus!
