//! The dialogue database data model: actors, conversations, entries, links,
//! fields and variables, identified by stable integer ids.

use vstd::prelude::*;

verus! {

/// Identifies an [`Actor`] within a database.
#[derive(Debug, Clone, Copy, Default, PartialEq, Eq, Hash, PartialOrd, Ord, Structural)]
pub struct ActorId(pub i32);

/// Identifies a [`DialogueEntry`] within its conversation.
#[derive(Debug, Clone, Copy, Default, PartialEq, Eq, Hash, PartialOrd, Ord, Structural)]
pub struct EntryId(pub i32);

/// Identifies a [`Conversation`] within a database.
#[derive(Debug, Clone, Copy, Default, PartialEq, Eq, Hash, PartialOrd, Ord, Structural)]
pub struct ConversationId(pub i32);

/// The typed value of a [`Field`] or a variable.
///
/// A number is held by the bit pattern of its IEEE-754 single-precision
/// value (`f32::to_bits`), so that it can be stored, compared and copied
/// without floating-point arithmetic.
#[derive(Debug, Clone)]
pub enum FieldValue {
    /// Plain text.
    Text(String),
    /// A number, as the bits of an `f32`.
    Number(u32),
    /// A flag.
    Boolean(bool),
    /// A localized variant of another text field.
    Localization(String),
    /// A reference to an actor.
    Actor(ActorId),
}

/// Whether the `f32` with these bits is a NaN: all exponent bits set and a
/// nonzero fraction.
pub open spec fn bits_nan(b: u32) -> bool {
    b & 0x7f80_0000u32 == 0x7f80_0000u32 && b & 0x007f_ffffu32 != 0
}

/// Whether the `f32` with these bits is a zero of either sign.
pub open spec fn bits_zero(b: u32) -> bool {
    b & 0x7fff_ffffu32 == 0
}

/// `f32` equality on bit patterns: no NaN equals anything, the two zeros
/// are equal, and other values are equal exactly when their bits are.
pub open spec fn number_eq(a: u32, b: u32) -> bool {
    !bits_nan(a) && !bits_nan(b) && (a == b || (bits_zero(a) && bits_zero(b)))
}

/// `f32` equality on bit patterns (see [`number_eq`]).
pub fn numbers_equal(a: u32, b: u32) -> (r: bool)
    ensures
        r == number_eq(a, b),
{
    let a_nan = a & 0x7f80_0000u32 == 0x7f80_0000u32 && a & 0x007f_ffffu32 != 0;
    let b_nan = b & 0x7f80_0000u32 == 0x7f80_0000u32 && b & 0x007f_ffffu32 != 0;
    if a_nan || b_nan {
        false
    } else {
        a == b || (a & 0x7fff_ffffu32 == 0 && b & 0x7fff_ffffu32 == 0)
    }
}

impl PartialEq for FieldValue {
    fn eq(&self, other: &Self) -> (r: bool) {
        match (self, other) {
            (FieldValue::Text(a), FieldValue::Text(b)) => *a == *b,
            (FieldValue::Number(a), FieldValue::Number(b)) => numbers_equal(*a, *b),
            (FieldValue::Boolean(a), FieldValue::Boolean(b)) => *a == *b,
            (FieldValue::Localization(a), FieldValue::Localization(b)) => *a == *b,
            (FieldValue::Actor(a), FieldValue::Actor(b)) => a.0 == b.0,
            _ => false,
        }
    }
}

impl vstd::std_specs::cmp::PartialEqSpecImpl for FieldValue {
    open spec fn obeys_eq_spec() -> bool {
        true
    }

    open spec fn eq_spec(&self, other: &Self) -> bool {
        match (self, other) {
            (FieldValue::Text(a), FieldValue::Text(b)) => a@ == b@,
            (FieldValue::Number(a), FieldValue::Number(b)) => number_eq(*a, *b),
            (FieldValue::Boolean(a), FieldValue::Boolean(b)) => *a == *b,
            (FieldValue::Localization(a), FieldValue::Localization(b)) => a@ == b@,
            (FieldValue::Actor(a), FieldValue::Actor(b)) => a.0 == b.0,
            _ => false,
        }
    }
}

/// A named piece of custom data on an actor, conversation, or entry.
#[derive(Debug, Clone, PartialEq)]
pub struct Field {
    /// Field name, unique within the owning asset.
    pub title: String,
    /// The field's value.
    pub value: FieldValue,
}

/// A character that can participate in conversations.
#[derive(Debug, Clone, PartialEq)]
pub struct Actor {
    /// Unique id within the database.
    pub id: ActorId,
    /// Display name.
    pub name: String,
    /// Whether this actor is a player character.
    pub is_player: bool,
    /// Custom fields.
    pub fields: Vec<Field>,
}

/// A directed edge to a destination entry (which may be in another conversation).
#[derive(Debug, Clone, Copy, Default, PartialEq, Eq, Structural)]
pub struct Link {
    /// The conversation the destination entry lives in.
    pub dest_conversation: ConversationId,
    /// The destination entry.
    pub dest_entry: EntryId,
}

/// A single node in a conversation: a spoken line, a menu choice, or a group.
#[derive(Debug, Clone, Default, PartialEq)]
pub struct DialogueEntry {
    /// Unique id within the owning conversation.
    pub id: EntryId,
    /// Who speaks this entry.
    pub actor: ActorId,
    /// Who this entry is addressed to.
    pub conversant: ActorId,
    /// Label shown when this entry is offered as a menu choice.
    pub menu_text: String,
    /// Spoken/subtitle line. Kept separate from `menu_text`.
    pub dialogue_text: String,
    /// Whether this is the conversation's root entry.
    pub is_root: bool,
    /// Whether this is an organizational group node.
    pub is_group: bool,
    /// Outgoing links to other entries.
    pub links: Vec<Link>,
    /// Custom fields.
    pub fields: Vec<Field>,
    /// Expression gating whether this entry can be reached. Empty means always.
    pub condition: String,
    /// Code run when this entry is presented. Empty means nothing to run.
    pub script: String,
    /// Cue sequence played while this entry is presented. Empty means the default one.
    pub sequence: String,
}

/// A single conversation and its dialogue entries.
#[derive(Debug, Clone, Default, PartialEq)]
pub struct Conversation {
    /// Unique id within the database.
    pub id: ConversationId,
    /// Display title.
    pub title: String,
    /// Default speaker for entries that don't override it.
    pub actor: ActorId,
    /// Default listener for entries that don't override it.
    pub conversant: ActorId,
    /// The entries (graph nodes) that make up this conversation.
    pub entries: Vec<DialogueEntry>,
    /// Custom fields.
    pub fields: Vec<Field>,
}

/// A named game-state value and what it starts as.
#[derive(Debug, Clone, PartialEq)]
pub struct Variable {
    /// Unique name within the database.
    pub name: String,
    /// The value the variable starts with.
    pub initial: FieldValue,
    /// Custom fields.
    pub fields: Vec<Field>,
}

/// A unit of authored dialogue content.
#[derive(Debug, Clone, Default, PartialEq)]
pub struct DialogueDatabase {
    /// Database version string.
    pub version: String,
    /// The variables the database defines.
    pub variables: Vec<Variable>,
    /// All actors in the database.
    pub actors: Vec<Actor>,
    /// All conversations in the database.
    pub conversations: Vec<Conversation>,
}

/// The position of an entry: its conversation and its own id.
pub type EntryKey = (ConversationId, EntryId);

/// The position a link points at.
pub open spec fn link_key(l: Link) -> EntryKey {
    (l.dest_conversation, l.dest_entry)
}

} // verus!
