//! Talk UIs.

use vstd::prelude::*;

verus! {

/// A UI that shows talks.
pub trait TalkDisplay {
    /// Show the UI.
    fn show(&self);

    /// Hide the UI.
    fn conceal(&self);

    /// Update the UI with a new text.
    fn update(&self, text: &str);
}

/// Terminal display: talks are printed on the terminal.
#[derive(Debug, Default, Clone, Copy)]
pub struct TerminalDisplay {}

} // verus!
