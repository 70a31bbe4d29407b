//! The conversation-stepping logic: finding conversations and entries,
//! collecting the responses behind an entry's links (flattening group
//! entries), and deciding what follows an entry.

use vstd::prelude::*;

use crate::data::{
    link_key, Actor, ActorId, Conversation, ConversationId, DialogueDatabase, DialogueEntry,
    EntryId, EntryKey, Link,
};
use crate::first::{first_match, is_first_match, lemma_first_match_is, lemma_first_match_none};

verus! {

/// Recursion cap when flattening links through group entries.
pub const MAX_EVALUATE_DEPTH: usize = 128;

/// A conversation, referenced the human way (title) or the stable way (id).
#[derive(Debug, Clone, PartialEq)]
pub enum ConversationRef {
    /// By stable id.
    Id(ConversationId),
    /// By title; the first conversation with a matching title wins.
    Title(String),
}

/// One spoken line: who says what to whom.
#[derive(Debug, Clone, PartialEq)]
pub struct Subtitle {
    /// Conversation the line belongs to.
    pub conversation: ConversationId,
    /// The entry being spoken.
    pub entry: EntryId,
    /// The speaker.
    pub actor: ActorId,
    /// The listener.
    pub conversant: ActorId,
    /// The spoken text.
    pub text: String,
}

/// A valid destination reachable from an entry's links.
#[derive(Debug, Clone, PartialEq)]
pub struct Response {
    /// Conversation of the destination entry.
    pub conversation: ConversationId,
    /// The destination entry.
    pub entry: EntryId,
    /// Menu label: `menu_text`, falling back to `dialogue_text`.
    pub text: String,
    /// Whether the destination is spoken by a player actor.
    pub is_player: bool,
}

/// What happens next from a given entry.
#[derive(Debug, Clone, PartialEq)]
pub enum Step {
    /// An NPC line follows: present this subtitle.
    Line(Subtitle),
    /// The player chooses: present this menu.
    Menu(Vec<Response>),
    /// Nothing follows: the conversation is over.
    End,
}

/// The mathematical meaning of a [`Step`].
pub enum StepView {
    /// An NPC line follows.
    Line(Subtitle),
    /// The player chooses among these responses.
    Menu(Seq<Response>),
    /// The conversation is over.
    End,
}

impl View for Step {
    type V = StepView;

    open spec fn view(&self) -> StepView {
        match self {
            Step::Line(s) => StepView::Line(*s),
            Step::Menu(rs) => StepView::Menu(rs@),
            Step::End => StepView::End,
        }
    }
}

// ---------------------------------------------------------------------------
// The model.
// ---------------------------------------------------------------------------

/// The position of a response's destination.
pub open spec fn response_key(r: Response) -> EntryKey {
    (r.conversation, r.entry)
}

/// The predicate "has this conversation id".
pub open spec fn conv_has_id(id: ConversationId) -> spec_fn(Conversation) -> bool {
    |c: Conversation| c.id == id
}

/// The predicate "has this title".
pub open spec fn conv_has_title(title: Seq<char>) -> spec_fn(Conversation) -> bool {
    |c: Conversation| c.title@ == title
}

/// The predicate "has this entry id".
pub open spec fn entry_has_id(id: EntryId) -> spec_fn(DialogueEntry) -> bool {
    |e: DialogueEntry| e.id == id
}

/// The predicate "is the root entry".
pub open spec fn entry_is_root() -> spec_fn(DialogueEntry) -> bool {
    |e: DialogueEntry| e.is_root
}

/// The predicate "has this actor id".
pub open spec fn actor_has_id(id: ActorId) -> spec_fn(Actor) -> bool {
    |a: Actor| a.id == id
}

/// The predicate "is an NPC response".
pub open spec fn response_is_npc() -> spec_fn(Response) -> bool {
    |r: Response| !r.is_player
}

/// Position of the conversation a reference resolves to: the first one with
/// the id, or the first one with the title.
pub open spec fn conversation_index(db: DialogueDatabase, c: ConversationRef) -> Option<int> {
    match c {
        ConversationRef::Id(id) => first_match(db.conversations@, conv_has_id(id)),
        ConversationRef::Title(t) => first_match(db.conversations@, conv_has_title(t@)),
    }
}

/// Position of a conversation's root entry: the first entry marked root,
/// falling back to the first entry.
pub open spec fn root_index(c: Conversation) -> Option<int> {
    match first_match(c.entries@, entry_is_root()) {
        Some(i) => Some(i),
        None => if c.entries@.len() > 0 { Some(0) } else { None },
    }
}

/// The entry at a position: in the first conversation with the id, the first
/// entry with the id.
pub open spec fn spec_entry_at(db: DialogueDatabase, at: EntryKey) -> Option<DialogueEntry> {
    match first_match(db.conversations@, conv_has_id(at.0)) {
        Some(i) => match first_match(db.conversations@[i].entries@, entry_has_id(at.1)) {
            Some(j) => Some(db.conversations@[i].entries@[j]),
            None => None,
        },
        None => None,
    }
}

/// The line presenting an entry.
pub open spec fn spec_subtitle(at: EntryKey, e: DialogueEntry) -> Subtitle {
    Subtitle {
        conversation: at.0,
        entry: at.1,
        actor: e.actor,
        conversant: e.conversant,
        text: e.dialogue_text,
    }
}

/// The line presenting the entry at a position, if there is one.
pub open spec fn spec_subtitle_at(db: DialogueDatabase, at: EntryKey) -> Option<Subtitle> {
    match spec_entry_at(db, at) {
        Some(e) => Some(spec_subtitle(at, e)),
        None => None,
    }
}

/// Whether the first actor with the id is a player.
pub open spec fn spec_actor_is_player(db: DialogueDatabase, actor: ActorId) -> bool {
    match first_match(db.actors@, actor_has_id(actor)) {
        Some(i) => db.actors@[i].is_player,
        None => false,
    }
}

/// The menu label of an entry: its menu text, or its dialogue text when the
/// menu text is empty.
pub open spec fn menu_label(e: DialogueEntry) -> String {
    if e.menu_text@.len() == 0 {
        e.dialogue_text
    } else {
        e.menu_text
    }
}

/// The response presenting a destination entry.
pub open spec fn spec_response(db: DialogueDatabase, dest: EntryKey, e: DialogueEntry) -> Response {
    Response {
        conversation: dest.0,
        entry: dest.1,
        text: menu_label(e),
        is_player: spec_actor_is_player(db, e.actor),
    }
}

/// The recursion measure shared by the three collecting functions.
pub open spec fn depth_room(depth: nat) -> int {
    MAX_EVALUATE_DEPTH as int + 1 - depth
}

/// The responses behind every link of the entry at `from`, and the visited
/// set afterwards, starting from visited set `v`.
pub open spec fn spec_collect(db: DialogueDatabase, from: EntryKey, depth: nat, v: Set<EntryKey>) -> (
    Seq<Response>,
    Set<EntryKey>,
)
    decreases depth_room(depth), 2int, 0int,
{
    if depth > MAX_EVALUATE_DEPTH {
        (Seq::empty(), v)
    } else {
        match spec_entry_at(db, from) {
            Some(e) => spec_collect_links(db, e.links@, 0, depth, v),
            None => (Seq::empty(), v),
        }
    }
}

/// The responses of the links from position `i` on, in order.
pub open spec fn spec_collect_links(
    db: DialogueDatabase,
    links: Seq<Link>,
    i: int,
    depth: nat,
    v: Set<EntryKey>,
) -> (Seq<Response>, Set<EntryKey>)
    decreases depth_room(depth), 1int, links.len() - i,
{
    if i < 0 || i >= links.len() || depth > MAX_EVALUATE_DEPTH {
        (Seq::empty(), v)
    } else {
        let first = spec_destination(db, link_key(links[i]), depth, v);
        let rest = spec_collect_links(db, links, i + 1, depth, first.1);
        (first.0 + rest.0, rest.1)
    }
}

/// The responses one link destination contributes: none if already visited
/// or missing, its own transitive responses if it is a group, itself
/// otherwise. The destination is marked visited.
pub open spec fn spec_destination(db: DialogueDatabase, dest: EntryKey, depth: nat, v: Set<EntryKey>) -> (
    Seq<Response>,
    Set<EntryKey>,
)
    decreases depth_room(depth), 0int, 0int,
{
    if v.contains(dest) || depth > MAX_EVALUATE_DEPTH {
        (Seq::empty(), v)
    } else {
        let v1 = v.insert(dest);
        match spec_entry_at(db, dest) {
            Some(e) => if e.is_group {
                if depth + 1 > MAX_EVALUATE_DEPTH {
                    (Seq::empty(), v1)
                } else {
                    spec_collect(db, dest, depth + 1, v1)
                }
            } else {
                (seq![spec_response(db, dest, e)], v1)
            },
            None => (Seq::empty(), v1),
        }
    }
}

/// All destinations reachable from an entry's links, in link order, with
/// group entries flattened.
pub open spec fn spec_responses(db: DialogueDatabase, from: EntryKey) -> Seq<Response> {
    spec_collect(db, from, 0, Set::empty()).0
}

/// What follows the entry at `at`: the first NPC response wins and is
/// auto-followed; otherwise player responses become a menu; otherwise the
/// conversation ends.
pub open spec fn spec_step(db: DialogueDatabase, at: EntryKey) -> StepView {
    let rs = spec_responses(db, at);
    match first_match(rs, response_is_npc()) {
        Some(i) => match spec_subtitle_at(db, response_key(rs[i])) {
            Some(s) => StepView::Line(s),
            None => StepView::End,
        },
        None => if rs.len() > 0 {
            StepView::Menu(rs)
        } else {
            StepView::End
        },
    }
}


// ---------------------------------------------------------------------------
// Laws of the model.
// ---------------------------------------------------------------------------

/// The responses of a menu lead to pairwise different entries.
pub open spec fn distinct_keys(rs: Seq<Response>) -> bool {
    forall|i: int, j: int|
        0 <= i < j < rs.len() ==> response_key(#[trigger] rs[i]) != response_key(#[trigger] rs[j])
}

/// A collection step from visited set `v` to `v2` produced responses whose
/// destinations were not visited before, are visited after, and differ.
pub open spec fn fresh_result(rs: Seq<Response>, v: Set<EntryKey>, v2: Set<EntryKey>) -> bool {
    &&& v.subset_of(v2)
    &&& forall|i: int|
        0 <= i < rs.len() ==> !v.contains(response_key(#[trigger] rs[i])) && v2.contains(
            response_key(rs[i]),
        )
    &&& distinct_keys(rs)
}

proof fn lemma_fresh_concat(
    r1: Seq<Response>,
    r2: Seq<Response>,
    v: Set<EntryKey>,
    v1: Set<EntryKey>,
    v2: Set<EntryKey>,
)
    requires
        fresh_result(r1, v, v1),
        fresh_result(r2, v1, v2),
    ensures
        fresh_result(r1 + r2, v, v2),
{
    let r = r1 + r2;
    assert forall|i: int| 0 <= i < r.len() implies !v.contains(response_key(#[trigger] r[i]))
        && v2.contains(response_key(r[i])) by {
        if i < r1.len() {
            assert(r[i] == r1[i]);
        } else {
            assert(r[i] == r2[i - r1.len()]);
        }
    }
    assert forall|i: int, j: int| 0 <= i < j < r.len() implies response_key(#[trigger] r[i])
        != response_key(#[trigger] r[j]) by {
        if j < r1.len() {
            assert(r[i] == r1[i] && r[j] == r1[j]);
        } else if i >= r1.len() {
            assert(r[i] == r2[i - r1.len()] && r[j] == r2[j - r1.len()]);
        } else {
            assert(r[i] == r1[i] && r[j] == r2[j - r1.len()]);
            assert(v1.contains(response_key(r1[i])));
            assert(!v1.contains(response_key(r2[j - r1.len()])));
        }
    }
}

proof fn lemma_collect_fresh(db: DialogueDatabase, from: EntryKey, depth: nat, v: Set<EntryKey>)
    ensures
        fresh_result(spec_collect(db, from, depth, v).0, v, spec_collect(db, from, depth, v).1),
    decreases depth_room(depth), 2int, 0int,
{
    if depth <= MAX_EVALUATE_DEPTH {
        match spec_entry_at(db, from) {
            Some(e) => lemma_links_fresh(db, e.links@, 0, depth, v),
            None => {},
        }
    }
}

proof fn lemma_links_fresh(db: DialogueDatabase, links: Seq<Link>, i: int, depth: nat, v: Set<EntryKey>)
    ensures
        fresh_result(
            spec_collect_links(db, links, i, depth, v).0,
            v,
            spec_collect_links(db, links, i, depth, v).1,
        ),
    decreases depth_room(depth), 1int, links.len() - i,
{
    if !(i < 0 || i >= links.len() || depth > MAX_EVALUATE_DEPTH) {
        let first = spec_destination(db, link_key(links[i]), depth, v);
        lemma_dest_fresh(db, link_key(links[i]), depth, v);
        lemma_links_fresh(db, links, i + 1, depth, first.1);
        let rest = spec_collect_links(db, links, i + 1, depth, first.1);
        lemma_fresh_concat(first.0, rest.0, v, first.1, rest.1);
    }
}

proof fn lemma_dest_fresh(db: DialogueDatabase, dest: EntryKey, depth: nat, v: Set<EntryKey>)
    ensures
        fresh_result(
            spec_destination(db, dest, depth, v).0,
            v,
            spec_destination(db, dest, depth, v).1,
        ),
    decreases depth_room(depth), 0int, 0int,
{
    if !(v.contains(dest) || depth > MAX_EVALUATE_DEPTH) {
        let v1 = v.insert(dest);
        match spec_entry_at(db, dest) {
            Some(e) => if e.is_group {
                if depth + 1 <= MAX_EVALUATE_DEPTH {
                    lemma_collect_fresh(db, dest, depth + 1, v1);
                    let r = spec_collect(db, dest, depth + 1, v1);
                    assert forall|i: int| 0 <= i < r.0.len() implies !v.contains(
                        response_key(#[trigger] r.0[i]),
                    ) by {
                        assert(!v1.contains(response_key(r.0[i])));
                    }
                }
            } else {
                let r = seq![spec_response(db, dest, e)];
                assert(response_key(r[0]) == dest);
            },
            None => {},
        }
    }
}

/// Every response leads to an entry that exists.
pub open spec fn dests_exist(db: DialogueDatabase, rs: Seq<Response>) -> bool {
    forall|i: int| 0 <= i < rs.len() ==> (#[trigger] spec_entry_at(db, response_key(rs[i]))) is Some
}

proof fn lemma_exist_concat(db: DialogueDatabase, r1: Seq<Response>, r2: Seq<Response>)
    requires
        dests_exist(db, r1),
        dests_exist(db, r2),
    ensures
        dests_exist(db, r1 + r2),
{
    let r = r1 + r2;
    assert forall|i: int| 0 <= i < r.len() implies (#[trigger] spec_entry_at(db, response_key(r[i]))) is Some by {
        if i < r1.len() {
            assert(r[i] == r1[i]);
        } else {
            assert(r[i] == r2[i - r1.len()]);
        }
    }
}

proof fn lemma_collect_exist(db: DialogueDatabase, from: EntryKey, depth: nat, v: Set<EntryKey>)
    ensures
        dests_exist(db, spec_collect(db, from, depth, v).0),
    decreases depth_room(depth), 2int, 0int,
{
    if depth <= MAX_EVALUATE_DEPTH {
        match spec_entry_at(db, from) {
            Some(e) => lemma_links_exist(db, e.links@, 0, depth, v),
            None => {},
        }
    }
}

proof fn lemma_links_exist(db: DialogueDatabase, links: Seq<Link>, i: int, depth: nat, v: Set<EntryKey>)
    ensures
        dests_exist(db, spec_collect_links(db, links, i, depth, v).0),
    decreases depth_room(depth), 1int, links.len() - i,
{
    if !(i < 0 || i >= links.len() || depth > MAX_EVALUATE_DEPTH) {
        let first = spec_destination(db, link_key(links[i]), depth, v);
        lemma_dest_exist(db, link_key(links[i]), depth, v);
        lemma_links_exist(db, links, i + 1, depth, first.1);
        let rest = spec_collect_links(db, links, i + 1, depth, first.1);
        lemma_exist_concat(db, first.0, rest.0);
    }
}

proof fn lemma_dest_exist(db: DialogueDatabase, dest: EntryKey, depth: nat, v: Set<EntryKey>)
    ensures
        dests_exist(db, spec_destination(db, dest, depth, v).0),
    decreases depth_room(depth), 0int, 0int,
{
    if !(v.contains(dest) || depth > MAX_EVALUATE_DEPTH) {
        let v1 = v.insert(dest);
        match spec_entry_at(db, dest) {
            Some(e) => if e.is_group {
                if depth + 1 <= MAX_EVALUATE_DEPTH {
                    lemma_collect_exist(db, dest, depth + 1, v1);
                }
            } else {
                let r = seq![spec_response(db, dest, e)];
                assert(response_key(r[0]) == dest);
            },
            None => {},
        }
    }
}

/// Every response behind an entry leads to an entry of the database.
pub proof fn law_responses_exist(db: DialogueDatabase, from: EntryKey)
    ensures
        dests_exist(db, spec_responses(db, from)),
{
    lemma_collect_exist(db, from, 0, Set::empty());
}

/// No entry is offered twice in one menu: the responses behind an entry
/// lead to pairwise different entries.
pub proof fn law_responses_distinct(db: DialogueDatabase, from: EntryKey)
    ensures
        distinct_keys(spec_responses(db, from)),
{
    lemma_collect_fresh(db, from, 0, Set::empty());
}

/// What follows an entry is decided by its first NPC response: a line is
/// always the line of an NPC response; a menu holds only player responses,
/// at least one; the end means no response at all.
pub proof fn law_step_shape(db: DialogueDatabase, at: EntryKey)
    ensures
        spec_step(db, at) matches StepView::Menu(rs) ==> rs == spec_responses(db, at) && rs.len() > 0
            && forall|i: int| 0 <= i < rs.len() ==> (#[trigger] rs[i]).is_player,
        spec_step(db, at) matches StepView::Line(s) ==> exists|i: int|
            0 <= i < spec_responses(db, at).len() && !(#[trigger] spec_responses(db, at)[i]).is_player
                && spec_subtitle_at(db, response_key(spec_responses(db, at)[i])) == Some(s),
        spec_step(db, at) is End ==> spec_responses(db, at).len() == 0,
{
    let rs = spec_responses(db, at);
    law_responses_exist(db, at);
    if exists|k: int| 0 <= k < rs.len() && !(#[trigger] rs[k]).is_player {
        let k = choose|k: int| 0 <= k < rs.len() && !(#[trigger] rs[k]).is_player;
        crate::first::lemma_first_match_some(rs, response_is_npc(), k);
        let i = first_match(rs, response_is_npc())->0;
        assert(is_first_match(rs, response_is_npc(), i));
        assert(!rs[i].is_player);
        assert(spec_entry_at(db, response_key(rs[i])) is Some);
    } else {
        lemma_first_match_none(rs, response_is_npc());
    }
}

/// The first NPC response wins: when the response at position `i` behind an
/// entry is an NPC's and every response before it is a player's, what follows
/// the entry is the line of that response's entry.
pub proof fn law_step_first_npc_wins(db: DialogueDatabase, at: EntryKey, i: int)
    requires
        0 <= i < spec_responses(db, at).len(),
        !spec_responses(db, at)[i].is_player,
        forall|j: int| 0 <= j < i ==> (#[trigger] spec_responses(db, at)[j]).is_player,
    ensures
        spec_subtitle_at(db, response_key(spec_responses(db, at)[i])) is Some,
        spec_step(db, at) == StepView::Line(spec_subtitle_at(db, response_key(spec_responses(db, at)[i]))->0),
{
    let rs = spec_responses(db, at);
    law_responses_exist(db, at);
    assert(spec_entry_at(db, response_key(rs[i])) is Some);
    assert forall|j: int| 0 <= j < i implies !response_is_npc()(#[trigger] rs[j]) by {
        assert(rs[j].is_player);
    }
    assert(is_first_match(rs, response_is_npc(), i));
    lemma_first_match_is(rs, response_is_npc(), i);
}

/// Without an NPC response, the player chooses among all the responses behind
/// the entry, in link order; with no response at all the conversation ends.
pub proof fn law_step_menu_or_end(db: DialogueDatabase, at: EntryKey)
    requires
        forall|j: int| 0 <= j < spec_responses(db, at).len() ==> (#[trigger] spec_responses(db, at)[j]).is_player,
    ensures
        spec_responses(db, at).len() > 0 ==> spec_step(db, at) == StepView::Menu(spec_responses(db, at)),
        spec_responses(db, at).len() == 0 ==> spec_step(db, at) == StepView::End,
{
    let rs = spec_responses(db, at);
    assert forall|j: int| 0 <= j < rs.len() implies !response_is_npc()(#[trigger] rs[j]) by {
        assert(rs[j].is_player);
    }
    lemma_first_match_none(rs, response_is_npc());
}

// ---------------------------------------------------------------------------
// The executable functions.
// ---------------------------------------------------------------------------

/// Resolves a [`ConversationRef`] against a database: the first conversation
/// with the id, or the first one with the title.
pub fn find_conversation<'a>(db: &'a DialogueDatabase, conversation: &ConversationRef) -> (r: Option<
    &'a Conversation,
>)
    ensures
        match conversation_index(*db, *conversation) {
            Some(i) => r is Some && *r->0 == db.conversations@[i],
            None => r is None,
        },
{
    let mut i: usize = 0;
    while i < db.conversations.len()
        invariant
            i <= db.conversations@.len(),
            forall|j: int|
                0 <= j < i ==> !(match *conversation {
                    ConversationRef::Id(id) => conv_has_id(id),
                    ConversationRef::Title(t) => conv_has_title(t@),
                })(#[trigger] db.conversations@[j]),
        decreases db.conversations@.len() - i,
    {
        let c = &db.conversations[i];
        let hit = match conversation {
            ConversationRef::Id(id) => c.id == *id,
            ConversationRef::Title(title) => c.title == *title,
        };
        if hit {
            proof {
                match conversation {
                    ConversationRef::Id(id) => lemma_first_match_is(
                        db.conversations@,
                        conv_has_id(*id),
                        i as int,
                    ),
                    ConversationRef::Title(t) => lemma_first_match_is(
                        db.conversations@,
                        conv_has_title(t@),
                        i as int,
                    ),
                }
            }
            return Some(c);
        }
        i = i + 1;
    }
    proof {
        match conversation {
            ConversationRef::Id(id) => lemma_first_match_none(db.conversations@, conv_has_id(*id)),
            ConversationRef::Title(t) => lemma_first_match_none(
                db.conversations@,
                conv_has_title(t@),
            ),
        }
    }
    None
}

/// The root entry of a conversation, falling back to the first entry.
pub fn root_entry(conversation: &Conversation) -> (r: Option<&DialogueEntry>)
    ensures
        match root_index(*conversation) {
            Some(i) => r is Some && *r->0 == conversation.entries@[i],
            None => r is None,
        },
{
    let mut i: usize = 0;
    while i < conversation.entries.len()
        invariant
            i <= conversation.entries@.len(),
            forall|j: int| 0 <= j < i ==> !(#[trigger] conversation.entries@[j]).is_root,
        decreases conversation.entries@.len() - i,
    {
        if conversation.entries[i].is_root {
            proof {
                lemma_first_match_is(conversation.entries@, entry_is_root(), i as int);
            }
            return Some(&conversation.entries[i]);
        }
        i = i + 1;
    }
    proof {
        lemma_first_match_none(conversation.entries@, entry_is_root());
    }
    if conversation.entries.len() > 0 {
        Some(&conversation.entries[0])
    } else {
        None
    }
}

/// The first conversation with the id, as a position.
fn conversation_position(db: &DialogueDatabase, id: ConversationId) -> (r: Option<usize>)
    ensures
        r is Some ==> first_match(db.conversations@, conv_has_id(id)) == Some(r->0 as int),
        r is None ==> first_match(db.conversations@, conv_has_id(id)) is None,
{
    let mut i: usize = 0;
    while i < db.conversations.len()
        invariant
            i <= db.conversations@.len(),
            forall|j: int| 0 <= j < i ==> (#[trigger] db.conversations@[j]).id != id,
        decreases db.conversations@.len() - i,
    {
        if db.conversations[i].id == id {
            proof {
                lemma_first_match_is(db.conversations@, conv_has_id(id), i as int);
            }
            return Some(i);
        }
        i = i + 1;
    }
    proof {
        lemma_first_match_none(db.conversations@, conv_has_id(id));
    }
    None
}

/// Looks up an entry by conversation and entry id.
pub fn entry_at(db: &DialogueDatabase, at: (ConversationId, EntryId)) -> (r: Option<&DialogueEntry>)
    ensures
        match spec_entry_at(*db, at) {
            Some(e) => r is Some && *r->0 == e,
            None => r is None,
        },
{
    let ci = match conversation_position(db, at.0) {
        Some(ci) => ci,
        None => return None,
    };
    let c = &db.conversations[ci];
    let mut j: usize = 0;
    while j < c.entries.len()
        invariant
            j <= c.entries@.len(),
            ci < db.conversations@.len(),
            *c == db.conversations@[ci as int],
            first_match(db.conversations@, conv_has_id(at.0)) == Some(ci as int),
            forall|k: int| 0 <= k < j ==> (#[trigger] c.entries@[k]).id != at.1,
        decreases c.entries@.len() - j,
    {
        if c.entries[j].id == at.1 {
            proof {
                lemma_first_match_is(c.entries@, entry_has_id(at.1), j as int);
            }
            return Some(&c.entries[j]);
        }
        j = j + 1;
    }
    proof {
        lemma_first_match_none(c.entries@, entry_has_id(at.1));
    }
    None
}

/// The subtitle for the entry at the given position.
pub fn subtitle_at(db: &DialogueDatabase, at: (ConversationId, EntryId)) -> (r: Option<Subtitle>)
    ensures
        r == spec_subtitle_at(*db, at),
{
    let entry = match entry_at(db, at) {
        Some(e) => e,
        None => return None,
    };
    Some(
        Subtitle {
            conversation: at.0,
            entry: at.1,
            actor: entry.actor,
            conversant: entry.conversant,
            text: entry.dialogue_text.clone(),
        },
    )
}

/// Whether an actor id refers to a player actor: the first actor with the
/// id decides; an unknown id is no player.
fn actor_is_player(db: &DialogueDatabase, actor: ActorId) -> (r: bool)
    ensures
        r == spec_actor_is_player(*db, actor),
{
    let mut i: usize = 0;
    while i < db.actors.len()
        invariant
            i <= db.actors@.len(),
            forall|j: int| 0 <= j < i ==> (#[trigger] db.actors@[j]).id != actor,
        decreases db.actors@.len() - i,
    {
        if db.actors[i].id == actor {
            proof {
                lemma_first_match_is(db.actors@, actor_has_id(actor), i as int);
            }
            return db.actors[i].is_player;
        }
        i = i + 1;
    }
    proof {
        lemma_first_match_none(db.actors@, actor_has_id(actor));
    }
    false
}

/// A [`Response`] presenting the given destination entry.
fn response(db: &DialogueDatabase, dest: (ConversationId, EntryId), destination: &DialogueEntry) -> (r:
    Response)
    ensures
        r == spec_response(*db, dest, *destination),
{
    let text = if destination.menu_text.as_str().is_empty() {
        destination.dialogue_text.clone()
    } else {
        destination.menu_text.clone()
    };
    Response {
        conversation: dest.0,
        entry: dest.1,
        text,
        is_player: actor_is_player(db, destination.actor),
    }
}

/// Whether the visited list holds a position.
fn visited_contains(visited: &Vec<EntryKey>, key: EntryKey) -> (r: bool)
    ensures
        r == visited@.contains(key),
{
    let mut i: usize = 0;
    while i < visited.len()
        invariant
            i <= visited@.len(),
            forall|j: int| 0 <= j < i ==> visited@[j] != key,
        decreases visited@.len() - i,
    {
        if visited[i].0 == key.0 && visited[i].1 == key.1 {
            return true;
        }
        i = i + 1;
    }
    false
}

/// The responses behind every link of the entry at `from`.
fn collect_responses(
    db: &DialogueDatabase,
    from: (ConversationId, EntryId),
    depth: usize,
    visited: &mut Vec<EntryKey>,
) -> (r: Vec<Response>)
    requires
        depth <= MAX_EVALUATE_DEPTH + 1,
    ensures
        (r@, final(visited)@.to_set()) == spec_collect(*db, from, depth as nat, old(visited)@.to_set()),
    decreases depth_room(depth as nat), 2int, 0int,
{
    if depth > MAX_EVALUATE_DEPTH {
        return Vec::new();
    }
    let entry = match entry_at(db, from) {
        Some(e) => e,
        None => return Vec::new(),
    };
    let links = &entry.links;
    let ghost v0 = visited@.to_set();
    let mut out: Vec<Response> = Vec::new();
    let mut i: usize = 0;
    while i < links.len()
        invariant
            depth <= MAX_EVALUATE_DEPTH,
            i <= links@.len(),
            spec_collect_links(*db, links@, 0, depth as nat, v0) == ({
                let rest = spec_collect_links(*db, links@, i as int, depth as nat, visited@.to_set());
                (out@ + rest.0, rest.1)
            }),
        decreases links@.len() - i,
    {
        let l = links[i];
        let more = destination_responses(db, (l.dest_conversation, l.dest_entry), depth, visited);
        let mut k: usize = 0;
        let ghost out_before = out@;
        while k < more.len()
            invariant
                k <= more@.len(),
                out@ == out_before + more@.subrange(0, k as int),
            decreases more@.len() - k,
        {
            out.push(more[k].clone_response());
            k = k + 1;
        }
        proof {
            assert(more@.subrange(0, more@.len() as int) =~= more@);
            assert(out_before + (more@ + spec_collect_links(*db, links@, i + 1, depth as nat, visited@.to_set()).0)
                =~= out@ + spec_collect_links(*db, links@, i + 1, depth as nat, visited@.to_set()).0);
        }
        i = i + 1;
    }
    out
}

/// The responses one link destination contributes, marking it visited.
fn destination_responses(
    db: &DialogueDatabase,
    dest: (ConversationId, EntryId),
    depth: usize,
    visited: &mut Vec<EntryKey>,
) -> (r: Vec<Response>)
    requires
        depth <= MAX_EVALUATE_DEPTH,
    ensures
        (r@, final(visited)@.to_set()) == spec_destination(*db, dest, depth as nat, old(visited)@.to_set()),
    decreases depth_room(depth as nat), 0int, 0int,
{
    if visited_contains(visited, dest) {
        return Vec::new();
    }
    let ghost before = visited@;
    visited.push(dest);
    proof {
        before.lemma_push_to_set_commute(dest);
    }
    match entry_at(db, dest) {
        Some(entry) => {
            if entry.is_group {
                if depth + 1 > MAX_EVALUATE_DEPTH {
                    Vec::new()
                } else {
                    collect_responses(db, dest, depth + 1, visited)
                }
            } else {
                let mut v = Vec::new();
                v.push(response(db, dest, entry));
                proof {
                    assert(v@ =~= seq![spec_response(*db, dest, *entry)]);
                }
                v
            }
        },
        None => Vec::new(),
    }
}

impl Response {
    /// A copy of this response.
    pub fn clone_response(&self) -> (r: Response)
        ensures
            r == *self,
    {
        Response {
            conversation: self.conversation,
            entry: self.entry,
            text: self.text.clone(),
            is_player: self.is_player,
        }
    }
}

/// All destinations reachable from an entry's links, in link order, with
/// group entries flattened (their links are followed transitively).
pub fn responses(db: &DialogueDatabase, from: (ConversationId, EntryId)) -> (r: Vec<Response>)
    ensures
        r@ == spec_responses(*db, from),
{
    let mut visited: Vec<EntryKey> = Vec::new();
    proof {
        assert(visited@.to_set() =~= Set::<EntryKey>::empty());
    }
    collect_responses(db, from, 0, &mut visited)
}

/// Decides what follows the entry at `at`:
/// the first NPC response wins and is auto-followed;
/// otherwise player responses become a menu;
/// otherwise the conversation ends.
pub fn step_from(db: &DialogueDatabase, at: (ConversationId, EntryId)) -> (r: Step)
    ensures
        r@ == spec_step(*db, at),
{
    let rs = responses(db, at);
    let mut i: usize = 0;
    while i < rs.len()
        invariant
            i <= rs@.len(),
            rs@ == spec_responses(*db, at),
            forall|j: int| 0 <= j < i ==> (#[trigger] rs@[j]).is_player,
        decreases rs@.len() - i,
    {
        if !rs[i].is_player {
            proof {
                lemma_first_match_is(rs@, response_is_npc(), i as int);
            }
            let r = match subtitle_at(db, (rs[i].conversation, rs[i].entry)) {
                Some(subtitle) => Step::Line(subtitle),
                None => Step::End,
            };
            assert(response_key(rs@[i as int]) == (rs@[i as int].conversation, rs@[i as int].entry));
            return r;
        }
        i = i + 1;
    }
    proof {
        lemma_first_match_none(rs@, response_is_npc());
    }
    if rs.len() > 0 {
        Step::Menu(rs)
    } else {
        Step::End
    }
}

} // verus!
