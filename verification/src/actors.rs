//! The characters that perform in a talk, found by slug.

use vstd::prelude::*;

verus! {

/// A character of a talk.
#[derive(Debug, Clone, PartialEq, Eq)]
pub struct Actor {
    /// The name of the character that the actor plays.
    pub name: String,
    /// The unique slug of the character that the actor plays.
    pub slug: String,
}

impl Actor {
    /// Creates a new actor with the given slug and name.
    pub fn new(slug: String, name: String) -> (r: Actor)
        ensures
            r.slug == slug,
            r.name == name,
    {
        Actor { name, slug }
    }
}

} // verus!
