//! Database validation: duplicate ids, root counts and dangling links.
//! Issues are reported, not enforced.

use vstd::prelude::*;

use crate::data::{ActorId, Conversation, ConversationId, DialogueDatabase, DialogueEntry, EntryId, Link};

verus! {

/// A problem found while validating a database. Non-fatal: reported, not enforced.
#[derive(Debug, Clone, Copy, PartialEq, Eq, Structural)]
pub enum Issue {
    /// Two actors share an id.
    DuplicateActor(ActorId),
    /// Two conversations share an id.
    DuplicateConversation(ConversationId),
    /// Two entries in a conversation share an id.
    DuplicateEntry(ConversationId, EntryId),
    /// A conversation has no root entry.
    NoRoot(ConversationId),
    /// A conversation has more than one root entry.
    MultipleRoots(ConversationId),
    /// A link points at a missing destination.
    DanglingLink(ConversationId, EntryId, ConversationId, EntryId),
}

// ---------------------------------------------------------------------------
// The model.
// ---------------------------------------------------------------------------

/// Each value that appears more than once, once per extra occurrence, in
/// order of those extra occurrences.
pub open spec fn dup_values(s: Seq<i32>) -> Seq<i32>
    decreases s.len(),
{
    if s.len() == 0 {
        Seq::empty()
    } else {
        let p = s.drop_last();
        dup_values(p) + if p.contains(s.last()) {
            seq![s.last()]
        } else {
            Seq::empty()
        }
    }
}

/// The raw numbers of the actor ids, in order.
pub open spec fn actor_numbers(db: DialogueDatabase) -> Seq<i32> {
    db.actors@.map_values(|a: crate::data::Actor| a.id.0)
}

/// The raw numbers of the conversation ids, in order.
pub open spec fn conversation_numbers(db: DialogueDatabase) -> Seq<i32> {
    db.conversations@.map_values(|c: Conversation| c.id.0)
}

/// The raw numbers of a conversation's entry ids, in order.
pub open spec fn entry_numbers(c: Conversation) -> Seq<i32> {
    c.entries@.map_values(|e: DialogueEntry| e.id.0)
}

/// How many entries of a sequence are marked root.
pub open spec fn root_count(s: Seq<DialogueEntry>) -> nat
    decreases s.len(),
{
    if s.len() == 0 {
        0
    } else {
        root_count(s.drop_last()) + if s.last().is_root {
            1nat
        } else {
            0nat
        }
    }
}

/// The root-count issue of a conversation: none for exactly one root.
pub open spec fn spec_root_issue(c: Conversation) -> Seq<Issue> {
    let n = root_count(c.entries@);
    if n == 0 {
        seq![Issue::NoRoot(c.id)]
    } else if n == 1 {
        Seq::empty()
    } else {
        seq![Issue::MultipleRoots(c.id)]
    }
}

/// Duplicate-entry issues followed by the root issue of one conversation.
pub open spec fn spec_entry_issues(c: Conversation) -> Seq<Issue> {
    dup_values(entry_numbers(c)).map_values(|n: i32| Issue::DuplicateEntry(c.id, EntryId(n)))
        + spec_root_issue(c)
}

/// Whether the last conversation with id `c` of the database has an entry
/// with id `e` (later conversations with a repeated id shadow earlier ones).
pub open spec fn db_has_entry(db: DialogueDatabase, c: ConversationId, e: EntryId) -> bool {
    exists|i: int|
        #![trigger db.conversations@[i]]
        0 <= i < db.conversations@.len() && db.conversations@[i].id == c && (forall|j: int|
            i < j < db.conversations@.len() ==> (#[trigger] db.conversations@[j]).id != c) && (exists|
            k: int,
        |
            0 <= k < db.conversations@[i].entries@.len()
                && (#[trigger] db.conversations@[i].entries@[k]).id == e)
}

/// The dangling-link issues of the links of one entry, in link order.
pub open spec fn spec_entry_link_issues(
    db: DialogueDatabase,
    c: ConversationId,
    e: EntryId,
    links: Seq<Link>,
) -> Seq<Issue>
    decreases links.len(),
{
    if links.len() == 0 {
        Seq::empty()
    } else {
        let l = links.last();
        spec_entry_link_issues(db, c, e, links.drop_last()) + if db_has_entry(
            db,
            l.dest_conversation,
            l.dest_entry,
        ) {
            Seq::empty()
        } else {
            seq![Issue::DanglingLink(c, e, l.dest_conversation, l.dest_entry)]
        }
    }
}

/// The dangling-link issues of the entries of one conversation, in order.
pub open spec fn spec_link_issues(db: DialogueDatabase, c: ConversationId, entries: Seq<DialogueEntry>) -> Seq<
    Issue,
>
    decreases entries.len(),
{
    if entries.len() == 0 {
        Seq::empty()
    } else {
        let e = entries.last();
        spec_link_issues(db, c, entries.drop_last()) + spec_entry_link_issues(db, c, e.id, e.links@)
    }
}

/// The entry issues of a sequence of conversations, in order.
pub open spec fn all_entry_issues(cs: Seq<Conversation>) -> Seq<Issue>
    decreases cs.len(),
{
    if cs.len() == 0 {
        Seq::empty()
    } else {
        all_entry_issues(cs.drop_last()) + spec_entry_issues(cs.last())
    }
}

/// The link issues of a sequence of conversations, in order.
pub open spec fn all_link_issues(db: DialogueDatabase, cs: Seq<Conversation>) -> Seq<Issue>
    decreases cs.len(),
{
    if cs.len() == 0 {
        Seq::empty()
    } else {
        let c = cs.last();
        all_link_issues(db, cs.drop_last()) + spec_link_issues(db, c.id, c.entries@)
    }
}

/// Every issue of a database, grouped as: duplicate actors, duplicate
/// conversations, per-conversation entry issues, dangling links.
pub open spec fn spec_validate(db: DialogueDatabase) -> Seq<Issue> {
    dup_values(actor_numbers(db)).map_values(|n: i32| Issue::DuplicateActor(ActorId(n)))
        + dup_values(conversation_numbers(db)).map_values(
        |n: i32| Issue::DuplicateConversation(ConversationId(n)),
    ) + all_entry_issues(db.conversations@) + all_link_issues(db, db.conversations@)
}


// ---------------------------------------------------------------------------
// Laws.
// ---------------------------------------------------------------------------

/// No value occurs twice.
pub open spec fn all_distinct(s: Seq<i32>) -> bool {
    forall|i: int, j: int| 0 <= i < j < s.len() ==> s[i] != s[j]
}

/// Every link of every entry of every conversation resolves.
pub open spec fn links_resolve(db: DialogueDatabase, cs: Seq<Conversation>) -> bool {
    forall|c: int, e: int, l: int|
        #![trigger cs[c].entries@[e].links@[l]]
        0 <= c < cs.len() && 0 <= e < cs[c].entries@.len() && 0 <= l < cs[c].entries@[e].links@.len()
            ==> db_has_entry(
            db,
            cs[c].entries@[e].links@[l].dest_conversation,
            cs[c].entries@[e].links@[l].dest_entry,
        )
}

/// A clean database: unique actor, conversation and entry ids, exactly one
/// root per conversation, and no dangling link.
pub open spec fn is_clean(db: DialogueDatabase) -> bool {
    &&& all_distinct(actor_numbers(db))
    &&& all_distinct(conversation_numbers(db))
    &&& forall|c: int|
        #![trigger db.conversations@[c]]
        0 <= c < db.conversations@.len() ==> all_distinct(entry_numbers(db.conversations@[c]))
            && root_count(db.conversations@[c].entries@) == 1
    &&& links_resolve(db, db.conversations@)
}

/// The database has a conversation with id `c` holding an entry with id `e`
/// that has a link to `(dc, de)`.
pub open spec fn has_link(db: DialogueDatabase, c: ConversationId, e: EntryId, dc: ConversationId, de: EntryId) -> bool {
    exists|ci: int, ei: int, li: int|
        #![trigger db.conversations@[ci].entries@[ei].links@[li]]
        0 <= ci < db.conversations@.len() && 0 <= ei < db.conversations@[ci].entries@.len() && 0 <= li
            < db.conversations@[ci].entries@[ei].links@.len() && db.conversations@[ci].id == c
            && db.conversations@[ci].entries@[ei].id == e
            && db.conversations@[ci].entries@[ei].links@[li].dest_conversation == dc
            && db.conversations@[ci].entries@[ei].links@[li].dest_entry == de
}

/// A reported dangling link is sound.
pub open spec fn dangling_sound(db: DialogueDatabase, iss: Issue) -> bool {
    iss matches Issue::DanglingLink(c, e, dc, de) ==> has_link(db, c, e, dc, de) && !db_has_entry(db, dc, de)
}

/// A dangling-link issue of the entry `e` of conversation `c` with `links`
/// names them, a link among `links`, and a missing destination.
pub open spec fn entry_issue_ok(db: DialogueDatabase, c: ConversationId, e: EntryId, links: Seq<Link>, iss: Issue) -> bool {
    iss matches Issue::DanglingLink(c2, e2, dc, de) ==> c2 == c && e2 == e && !db_has_entry(db, dc, de) && exists|
        li: int,
    |
        0 <= li < links.len() && (#[trigger] links[li]).dest_conversation == dc && links[li].dest_entry == de
}

/// A dangling-link issue of conversation `c` with `entries` names `c`, an
/// entry among `entries` with a link to the destination, and a missing
/// destination.
pub open spec fn conv_issue_ok(db: DialogueDatabase, c: ConversationId, entries: Seq<DialogueEntry>, iss: Issue) -> bool {
    iss matches Issue::DanglingLink(c2, e2, dc, de) ==> c2 == c && !db_has_entry(db, dc, de) && exists|
        ei: int,
        li: int,
    |
        0 <= ei < entries.len() && 0 <= li < entries[ei].links@.len() && entries[ei].id == e2
            && (#[trigger] entries[ei].links@[li]).dest_conversation == dc && entries[ei].links@[li].dest_entry == de
}

proof fn lemma_entry_links_sound(db: DialogueDatabase, c: ConversationId, e: EntryId, links: Seq<Link>)
    ensures
        forall|i: int|
            0 <= i < spec_entry_link_issues(db, c, e, links).len() ==> entry_issue_ok(
                db,
                c,
                e,
                links,
                #[trigger] spec_entry_link_issues(db, c, e, links)[i],
            ),
    decreases links.len(),
{
    if links.len() > 0 {
        let p = links.drop_last();
        lemma_entry_links_sound(db, c, e, p);
        let r = spec_entry_link_issues(db, c, e, links);
        let rp = spec_entry_link_issues(db, c, e, p);
        assert forall|i: int| 0 <= i < r.len() implies entry_issue_ok(db, c, e, links, #[trigger] r[i]) by {
            if i < rp.len() {
                assert(r[i] == rp[i]);
                assert(entry_issue_ok(db, c, e, p, rp[i]));
                if let Issue::DanglingLink(c2, e2, dc, de) = r[i] {
                    let li = choose|li: int|
                        0 <= li < p.len() && (#[trigger] p[li]).dest_conversation == dc && p[li].dest_entry == de;
                    assert(links[li] == p[li]);
                }
            } else {
                assert(links[links.len() - 1] == links.last());
            }
        }
    }
}

proof fn lemma_conv_links_sound(db: DialogueDatabase, c: ConversationId, entries: Seq<DialogueEntry>)
    ensures
        forall|i: int|
            0 <= i < spec_link_issues(db, c, entries).len() ==> conv_issue_ok(
                db,
                c,
                entries,
                #[trigger] spec_link_issues(db, c, entries)[i],
            ),
    decreases entries.len(),
{
    if entries.len() > 0 {
        let p = entries.drop_last();
        let e = entries.last();
        lemma_conv_links_sound(db, c, p);
        lemma_entry_links_sound(db, c, e.id, e.links@);
        let r = spec_link_issues(db, c, entries);
        let rp = spec_link_issues(db, c, p);
        let re = spec_entry_link_issues(db, c, e.id, e.links@);
        assert forall|i: int| 0 <= i < r.len() implies conv_issue_ok(db, c, entries, #[trigger] r[i]) by {
            if i < rp.len() {
                assert(r[i] == rp[i]);
                assert(conv_issue_ok(db, c, p, rp[i]));
                if let Issue::DanglingLink(c2, e2, dc, de) = r[i] {
                    let (ei, li) = choose|ei: int, li: int|
                        0 <= ei < p.len() && 0 <= li < p[ei].links@.len() && p[ei].id == e2
                            && (#[trigger] p[ei].links@[li]).dest_conversation == dc && p[ei].links@[li].dest_entry
                            == de;
                    assert(entries[ei] == p[ei]);
                }
            } else {
                assert(r[i] == re[i - rp.len()]);
                assert(entry_issue_ok(db, c, e.id, e.links@, re[i - rp.len()]));
                if let Issue::DanglingLink(c2, e2, dc, de) = r[i] {
                    let li = choose|li: int|
                        0 <= li < e.links@.len() && (#[trigger] e.links@[li]).dest_conversation == dc
                            && e.links@[li].dest_entry == de;
                    assert(entries[entries.len() - 1] == e);
                    assert(entries[entries.len() - 1].links@[li] == e.links@[li]);
                }
            }
        }
    }
}

proof fn lemma_all_links_sound(db: DialogueDatabase, n: int)
    requires
        0 <= n <= db.conversations@.len(),
    ensures
        forall|i: int|
            0 <= i < all_link_issues(db, db.conversations@.take(n)).len() ==> dangling_sound(
                db,
                #[trigger] all_link_issues(db, db.conversations@.take(n))[i],
            ),
    decreases n,
{
    let cs = db.conversations@.take(n);
    if n > 0 {
        assert(cs.drop_last() =~= db.conversations@.take(n - 1));
        lemma_all_links_sound(db, n - 1);
        let c = cs.last();
        assert(c == db.conversations@[n - 1]);
        lemma_conv_links_sound(db, c.id, c.entries@);
        let r = all_link_issues(db, cs);
        let rp = all_link_issues(db, cs.drop_last());
        let rc = spec_link_issues(db, c.id, c.entries@);
        assert forall|i: int| 0 <= i < r.len() implies dangling_sound(db, #[trigger] r[i]) by {
            if i < rp.len() {
                assert(r[i] == rp[i]);
            } else {
                assert(r[i] == rc[i - rp.len()]);
                assert(conv_issue_ok(db, c.id, c.entries@, rc[i - rp.len()]));
                if let Issue::DanglingLink(c2, e2, dc, de) = r[i] {
                    let (ei, li) = choose|ei: int, li: int|
                        0 <= ei < c.entries@.len() && 0 <= li < c.entries@[ei].links@.len()
                            && c.entries@[ei].id == e2 && (#[trigger] c.entries@[ei].links@[li]).dest_conversation
                            == dc && c.entries@[ei].links@[li].dest_entry == de;
                    assert(db.conversations@[n - 1].entries@[ei].links@[li] == c.entries@[ei].links@[li]);
                }
            }
        }
    } else {
        assert(cs =~= Seq::<Conversation>::empty());
    }
}

proof fn lemma_no_dangling_entry_issues(cs: Seq<Conversation>)
    ensures
        forall|i: int| 0 <= i < all_entry_issues(cs).len() ==> !((#[trigger] all_entry_issues(cs)[i]) is DanglingLink),
    decreases cs.len(),
{
    if cs.len() > 0 {
        lemma_no_dangling_entry_issues(cs.drop_last());
        let r = all_entry_issues(cs);
        let rp = all_entry_issues(cs.drop_last());
        let c = cs.last();
        let d = dup_values(entry_numbers(c)).map_values(|n: i32| Issue::DuplicateEntry(c.id, EntryId(n)));
        assert forall|i: int| 0 <= i < r.len() implies !((#[trigger] r[i]) is DanglingLink) by {
            if i < rp.len() {
                assert(r[i] == rp[i]);
            } else if i < rp.len() + d.len() {
                assert(r[i] == d[i - rp.len()]);
            } else {
                assert(r[i] == spec_root_issue(c)[i - rp.len() - d.len()]);
            }
        }
    }
}

/// Every dangling link reported names a conversation of the database holding
/// an entry with a link to the reported destination, and that destination is
/// not an entry of the database.
pub proof fn law_dangling_links_are_real(db: DialogueDatabase)
    ensures
        forall|i: int| 0 <= i < spec_validate(db).len() ==> dangling_sound(db, #[trigger] spec_validate(db)[i]),
{
    let a = dup_values(actor_numbers(db)).map_values(|n: i32| Issue::DuplicateActor(ActorId(n)));
    let b = dup_values(conversation_numbers(db)).map_values(|n: i32| Issue::DuplicateConversation(ConversationId(n)));
    let c = all_entry_issues(db.conversations@);
    let d = all_link_issues(db, db.conversations@);
    lemma_no_dangling_entry_issues(db.conversations@);
    lemma_all_links_sound(db, db.conversations@.len() as int);
    assert(db.conversations@.take(db.conversations@.len() as int) =~= db.conversations@);
    let r = spec_validate(db);
    assert(r == a + b + c + d);
    assert forall|i: int| 0 <= i < r.len() implies dangling_sound(db, #[trigger] r[i]) by {
        if i < a.len() {
            assert(r[i] == a[i]);
        } else if i < a.len() + b.len() {
            assert(r[i] == b[i - a.len()]);
        } else if i < a.len() + b.len() + c.len() {
            assert(r[i] == c[i - a.len() - b.len()]);
            assert(!(c[i - a.len() - b.len()] is DanglingLink));
        } else {
            assert(r[i] == d[i - a.len() - b.len() - c.len()]);
        }
    }
}

proof fn lemma_dups_empty(s: Seq<i32>)
    ensures
        dup_values(s).len() == 0 <==> all_distinct(s),
    decreases s.len(),
{
    if s.len() > 0 {
        let p = s.drop_last();
        lemma_dups_empty(p);
        if all_distinct(s) {
            assert(all_distinct(p)) by {
                assert forall|i: int, j: int| 0 <= i < j < p.len() implies p[i] != p[j] by {
                    assert(p[i] == s[i] && p[j] == s[j]);
                }
            }
            assert(!p.contains(s.last())) by {
                if p.contains(s.last()) {
                    let k = choose|k: int| 0 <= k < p.len() && p[k] == s.last();
                    assert(s[k] == p[k]);
                }
            }
        }
        if dup_values(s).len() == 0 {
            assert(dup_values(p).len() == 0);
            assert(!p.contains(s.last())) by {
                if p.contains(s.last()) {
                    assert(dup_values(s).len() > 0);
                }
            }
            assert forall|i: int, j: int| 0 <= i < j < s.len() implies s[i] != s[j] by {
                if j == s.len() - 1 {
                    assert(p[i] == s[i]);
                } else {
                    assert(p[i] == s[i] && p[j] == s[j]);
                }
            }
        }
    }
}

proof fn lemma_entry_links_empty(db: DialogueDatabase, c: ConversationId, e: EntryId, links: Seq<Link>)
    ensures
        spec_entry_link_issues(db, c, e, links).len() == 0 <==> forall|l: int|
            0 <= l < links.len() ==> db_has_entry(db, (#[trigger] links[l]).dest_conversation, links[l].dest_entry),
    decreases links.len(),
{
    if links.len() > 0 {
        let p = links.drop_last();
        lemma_entry_links_empty(db, c, e, p);
        if spec_entry_link_issues(db, c, e, links).len() == 0 {
            assert forall|l: int| 0 <= l < links.len() implies db_has_entry(
                db,
                (#[trigger] links[l]).dest_conversation,
                links[l].dest_entry,
            ) by {
                if l < links.len() - 1 {
                    assert(p[l] == links[l]);
                }
            }
        }
        if forall|l: int|
            0 <= l < links.len() ==> db_has_entry(db, (#[trigger] links[l]).dest_conversation, links[l].dest_entry) {
            assert forall|l: int| 0 <= l < p.len() implies db_has_entry(
                db,
                (#[trigger] p[l]).dest_conversation,
                p[l].dest_entry,
            ) by {
                assert(p[l] == links[l]);
            }
            assert(db_has_entry(db, links[links.len() - 1].dest_conversation, links[links.len() - 1].dest_entry));
        }
    }
}

proof fn lemma_conv_links_empty(db: DialogueDatabase, c: ConversationId, es: Seq<DialogueEntry>)
    ensures
        spec_link_issues(db, c, es).len() == 0 <==> forall|e: int, l: int|
            #![trigger es[e].links@[l]]
            0 <= e < es.len() && 0 <= l < es[e].links@.len() ==> db_has_entry(
                db,
                es[e].links@[l].dest_conversation,
                es[e].links@[l].dest_entry,
            ),
    decreases es.len(),
{
    if es.len() > 0 {
        let p = es.drop_last();
        let last = es.last();
        lemma_conv_links_empty(db, c, p);
        lemma_entry_links_empty(db, c, last.id, last.links@);
        if spec_link_issues(db, c, es).len() == 0 {
            assert forall|e: int, l: int|
                0 <= e < es.len() && 0 <= l < es[e].links@.len() implies #[trigger] db_has_entry(
                db,
                es[e].links@[l].dest_conversation,
                es[e].links@[l].dest_entry,
            ) by {
                if e < es.len() - 1 {
                    assert(p[e] == es[e]);
                    assert(p[e].links@[l] == es[e].links@[l]);
                } else {
                    assert(last.links@[l] == es[e].links@[l]);
                }
            }
        }
        if forall|e: int, l: int|
            #![trigger es[e].links@[l]]
            0 <= e < es.len() && 0 <= l < es[e].links@.len() ==> db_has_entry(
                db,
                es[e].links@[l].dest_conversation,
                es[e].links@[l].dest_entry,
            ) {
            assert forall|e: int, l: int|
                0 <= e < p.len() && 0 <= l < p[e].links@.len() implies #[trigger] db_has_entry(
                db,
                p[e].links@[l].dest_conversation,
                p[e].links@[l].dest_entry,
            ) by {
                assert(p[e] == es[e]);
                assert(es[e].links@[l] == p[e].links@[l]);
            }
            assert forall|l: int| 0 <= l < last.links@.len() implies db_has_entry(
                db,
                (#[trigger] last.links@[l]).dest_conversation,
                last.links@[l].dest_entry,
            ) by {
                assert(es[es.len() - 1].links@[l] == last.links@[l]);
            }
        }
    }
}

proof fn lemma_all_links_empty(db: DialogueDatabase, cs: Seq<Conversation>)
    ensures
        all_link_issues(db, cs).len() == 0 <==> links_resolve(db, cs),
    decreases cs.len(),
{
    if cs.len() > 0 {
        let p = cs.drop_last();
        let last = cs.last();
        lemma_all_links_empty(db, p);
        lemma_conv_links_empty(db, last.id, last.entries@);
        if all_link_issues(db, cs).len() == 0 {
            assert forall|c: int, e: int, l: int|
                0 <= c < cs.len() && 0 <= e < cs[c].entries@.len() && 0 <= l
                    < cs[c].entries@[e].links@.len() implies #[trigger] db_has_entry(
                db,
                cs[c].entries@[e].links@[l].dest_conversation,
                cs[c].entries@[e].links@[l].dest_entry,
            ) by {
                if c < cs.len() - 1 {
                    assert(p[c] == cs[c]);
                    assert(p[c].entries@[e].links@[l] == cs[c].entries@[e].links@[l]);
                } else {
                    assert(last.entries@[e].links@[l] == cs[c].entries@[e].links@[l]);
                }
            }
        }
        if links_resolve(db, cs) {
            assert forall|c: int, e: int, l: int|
                0 <= c < p.len() && 0 <= e < p[c].entries@.len() && 0 <= l
                    < p[c].entries@[e].links@.len() implies #[trigger] db_has_entry(
                db,
                p[c].entries@[e].links@[l].dest_conversation,
                p[c].entries@[e].links@[l].dest_entry,
            ) by {
                assert(p[c] == cs[c]);
                assert(cs[c].entries@[e].links@[l] == p[c].entries@[e].links@[l]);
            }
            assert forall|e: int, l: int|
                0 <= e < last.entries@.len() && 0 <= l < last.entries@[e].links@.len() implies #[trigger] db_has_entry(
                db,
                last.entries@[e].links@[l].dest_conversation,
                last.entries@[e].links@[l].dest_entry,
            ) by {
                assert(cs[cs.len() - 1].entries@[e].links@[l] == last.entries@[e].links@[l]);
            }
        }
    }
}

proof fn lemma_all_entries_empty(cs: Seq<Conversation>)
    ensures
        all_entry_issues(cs).len() == 0 <==> forall|c: int|
            #![trigger cs[c]]
            0 <= c < cs.len() ==> all_distinct(entry_numbers(cs[c])) && root_count(cs[c].entries@) == 1,
    decreases cs.len(),
{
    if cs.len() > 0 {
        let p = cs.drop_last();
        let last = cs.last();
        lemma_all_entries_empty(p);
        lemma_dups_empty(entry_numbers(last));
        let d = dup_values(entry_numbers(last)).map_values(
            |n: i32| Issue::DuplicateEntry(last.id, EntryId(n)),
        );
        assert(spec_entry_issues(last).len() == d.len() + spec_root_issue(last).len());
        if forall|c: int|
            #![trigger cs[c]]
            0 <= c < cs.len() ==> all_distinct(entry_numbers(cs[c])) && root_count(cs[c].entries@) == 1 {
            assert forall|c: int| #![trigger p[c]] 0 <= c < p.len() implies all_distinct(entry_numbers(p[c]))
                && root_count(p[c].entries@) == 1 by {
                assert(p[c] == cs[c]);
            }
            assert(cs[cs.len() - 1] == last);
        }
        if all_entry_issues(cs).len() == 0 {
            assert forall|c: int| #![trigger cs[c]] 0 <= c < cs.len() implies all_distinct(entry_numbers(cs[c]))
                && root_count(cs[c].entries@) == 1 by {
                if c < cs.len() - 1 {
                    assert(p[c] == cs[c]);
                }
            }
        }
    }
}

/// Validation reports nothing exactly for clean databases: unique actor,
/// conversation and entry ids, exactly one root per conversation, and every
/// link resolving to an existing entry.
pub proof fn law_validate_empty_iff_clean(db: DialogueDatabase)
    ensures
        spec_validate(db).len() == 0 <==> is_clean(db),
{
    lemma_dups_empty(actor_numbers(db));
    lemma_dups_empty(conversation_numbers(db));
    lemma_all_entries_empty(db.conversations@);
    lemma_all_links_empty(db, db.conversations@);
}

// ---------------------------------------------------------------------------
// The executable functions.
// ---------------------------------------------------------------------------

/// Yields each value that appears more than once, once per extra occurrence.
pub fn duplicates(items: &Vec<i32>) -> (r: Vec<i32>)
    ensures
        r@ == dup_values(items@),
{
    let mut out: Vec<i32> = Vec::new();
    let mut i: usize = 0;
    while i < items.len()
        invariant
            i <= items@.len(),
            out@ == dup_values(items@.take(i as int)),
        decreases items@.len() - i,
    {
        let x = items[i];
        let mut seen = false;
        let mut j: usize = 0;
        while j < i
            invariant
                j <= i < items@.len(),
                x == items@[i as int],
                seen == (exists|k: int| 0 <= k < j && items@[k] == x),
            decreases i - j,
        {
            if items[j] == x {
                seen = true;
            }
            j = j + 1;
        }
        proof {
            let p = items@.take(i as int);
            assert(items@.take(i + 1).drop_last() =~= p);
            assert(items@.take(i + 1).last() == x);
            if seen {
                let k = choose|k: int| 0 <= k < i && items@[k] == x;
                assert(p[k] == x);
            } else {
                assert forall|k: int| 0 <= k < p.len() implies p[k] != x by {
                    assert(p[k] == items@[k]);
                }
            }
        }
        if seen {
            out.push(x);
        }
        i = i + 1;
    }
    proof {
        assert(items@.take(items@.len() as int) =~= items@);
    }
    out
}

/// Lookup of which entry ids exist in each conversation.
pub struct EntryIndex {
    /// For each conversation, in database order, its id and its entry ids.
    conversations: Vec<(ConversationId, Vec<EntryId>)>,
    /// The database the index was built from.
    source: Ghost<DialogueDatabase>,
}

impl EntryIndex {
    /// The index was built from `db`: position by position, the same
    /// conversation ids and entry ids.
    pub closed spec fn indexes(self, db: DialogueDatabase) -> bool {
        &&& self.conversations@.len() == db.conversations@.len()
        &&& forall|i: int|
            #![trigger self.conversations@[i]]
            0 <= i < db.conversations@.len() ==> {
                &&& self.conversations@[i].0 == db.conversations@[i].id
                &&& self.conversations@[i].1@.len() == db.conversations@[i].entries@.len()
                &&& forall|k: int|
                    0 <= k < db.conversations@[i].entries@.len()
                        ==> #[trigger] self.conversations@[i].1@[k]
                        == db.conversations@[i].entries@[k].id
            }
    }

    /// The database the index was built from.
    pub closed spec fn source(self) -> DialogueDatabase {
        self.source@
    }

    /// The index holds the ids of the database it was built from.
    pub closed spec fn wf(self) -> bool {
        self.indexes(self.source@)
    }

    /// Builds the index from a database.
    pub fn build(db: &DialogueDatabase) -> (r: EntryIndex)
        ensures
            r.wf(),
            r.source() == *db,
    {
        let mut conversations: Vec<(ConversationId, Vec<EntryId>)> = Vec::new();
        let mut i: usize = 0;
        while i < db.conversations.len()
            invariant
                i <= db.conversations@.len(),
                conversations@.len() == i,
                forall|a: int|
                    #![trigger conversations@[a]]
                    0 <= a < i ==> {
                        &&& conversations@[a].0 == db.conversations@[a].id
                        &&& conversations@[a].1@.len() == db.conversations@[a].entries@.len()
                        &&& forall|k: int|
                            0 <= k < db.conversations@[a].entries@.len()
                                ==> #[trigger] conversations@[a].1@[k]
                                == db.conversations@[a].entries@[k].id
                    },
            decreases db.conversations@.len() - i,
        {
            let c = &db.conversations[i];
            let mut ids: Vec<EntryId> = Vec::new();
            let mut k: usize = 0;
            while k < c.entries.len()
                invariant
                    k <= c.entries@.len(),
                    ids@.len() == k,
                    forall|m: int| 0 <= m < k ==> #[trigger] ids@[m] == c.entries@[m].id,
                decreases c.entries@.len() - k,
            {
                ids.push(c.entries[k].id);
                k = k + 1;
            }
            conversations.push((c.id, ids));
            i = i + 1;
        }
        EntryIndex { conversations, source: Ghost(*db) }
    }

    /// Whether the given conversation contains the given entry: the last
    /// conversation indexed under that id decides.
    pub fn contains(&self, conversation: ConversationId, entry: EntryId) -> (r: bool)
        requires
            self.wf(),
        ensures
            r == db_has_entry(self.source(), conversation, entry),
    {
        let ghost db = self.source@;
        let n = self.conversations.len();
        let mut i: usize = n;
        while i > 0
            invariant
                i <= n == self.conversations@.len(),
                db == self.source@,
                self.indexes(db),
                forall|j: int| i <= j < n ==> (#[trigger] db.conversations@[j]).id != conversation,
            decreases i,
        {
            i = i - 1;
            assert(self.conversations@[i as int].0 == db.conversations@[i as int].id);
            if self.conversations[i].0 == conversation {
                let ids = &self.conversations[i].1;
                let mut k: usize = 0;
                while k < ids.len()
                    invariant
                        k <= ids@.len(),
                        i < n == self.conversations@.len(),
                        *ids == self.conversations@[i as int].1,
                        db == self.source@,
                        self.indexes(db),
                        db.conversations@[i as int].id == conversation,
                        forall|j: int| i < j < n ==> (#[trigger] db.conversations@[j]).id != conversation,
                        forall|m: int| 0 <= m < k ==> ids@[m] != entry,
                    decreases ids@.len() - k,
                {
                    if ids[k] == entry {
                        proof {
                            assert(db.conversations@[i as int].entries@[k as int].id == entry);
                            assert(db_has_entry(db, conversation, entry));
                        }
                        return true;
                    }
                    k = k + 1;
                }
                proof {
                    assert forall|j: int|
                        #![trigger db.conversations@[j]]
                        0 <= j < db.conversations@.len() && db.conversations@[j].id == conversation
                            && (forall|m: int|
                            j < m < db.conversations@.len() ==> (#[trigger] db.conversations@[m]).id
                                != conversation) implies !(exists|q: int|
                        0 <= q < db.conversations@[j].entries@.len()
                            && (#[trigger] db.conversations@[j].entries@[q]).id == entry) by {
                        if j != i {
                            if j < i {
                                assert(db.conversations@[i as int].id == conversation);
                            }
                        }
                        if exists|q: int|
                            0 <= q < db.conversations@[j].entries@.len()
                                && (#[trigger] db.conversations@[j].entries@[q]).id == entry {
                            let q = choose|q: int|
                                0 <= q < db.conversations@[j].entries@.len()
                                    && (#[trigger] db.conversations@[j].entries@[q]).id == entry;
                            assert(ids@[q] == db.conversations@[j].entries@[q].id);
                        }
                    }
                }
                return false;
            }
        }
        false
    }
}

/// The root-count issue for a conversation, if any.
fn root_issue(c: &Conversation) -> (r: Option<Issue>)
    ensures
        match r {
            Some(issue) => spec_root_issue(*c) == seq![issue],
            None => spec_root_issue(*c) == Seq::<Issue>::empty(),
        },
{
    let mut count: usize = 0;
    let mut i: usize = 0;
    while i < c.entries.len()
        invariant
            i <= c.entries@.len(),
            count == root_count(c.entries@.take(i as int)),
            count <= i,
        decreases c.entries@.len() - i,
    {
        proof {
            assert(c.entries@.take(i + 1).drop_last() =~= c.entries@.take(i as int));
        }
        if c.entries[i].is_root {
            count = count + 1;
        }
        i = i + 1;
    }
    proof {
        assert(c.entries@.take(c.entries@.len() as int) =~= c.entries@);
    }
    if count == 0 {
        Some(Issue::NoRoot(c.id))
    } else if count == 1 {
        None
    } else {
        Some(Issue::MultipleRoots(c.id))
    }
}

/// Duplicate-entry and root-count issues within one conversation, appended to `out`.
fn entry_issues(c: &Conversation, out: &mut Vec<Issue>)
    ensures
        final(out)@ == old(out)@ + spec_entry_issues(*c),
{
    let mut numbers: Vec<i32> = Vec::new();
    let mut i: usize = 0;
    while i < c.entries.len()
        invariant
            i <= c.entries@.len(),
            numbers@ =~= entry_numbers(*c).take(i as int),
        decreases c.entries@.len() - i,
    {
        numbers.push(c.entries[i].id.0);
        i = i + 1;
    }
    proof {
        assert(entry_numbers(*c).take(c.entries@.len() as int) =~= entry_numbers(*c));
    }
    let dups = duplicates(&numbers);
    let ghost start = out@;
    let mut k: usize = 0;
    while k < dups.len()
        invariant
            k <= dups@.len(),
            out@ =~= start + dups@.take(k as int).map_values(|n: i32| Issue::DuplicateEntry(c.id, EntryId(n))),
        decreases dups@.len() - k,
    {
        out.push(Issue::DuplicateEntry(c.id, EntryId(dups[k])));
        proof {
            assert(dups@.take(k + 1).map_values(|n: i32| Issue::DuplicateEntry(c.id, EntryId(n)))
                =~= dups@.take(k as int).map_values(|n: i32| Issue::DuplicateEntry(c.id, EntryId(n)))
                .push(Issue::DuplicateEntry(c.id, EntryId(dups@[k as int]))));
        }
        k = k + 1;
    }
    proof {
        assert(dups@.take(dups@.len() as int) =~= dups@);
    }
    let ghost mid = out@;
    match root_issue(c) {
        Some(issue) => out.push(issue),
        None => {},
    }
    proof {
        assert(out@ =~= mid + spec_root_issue(*c));
    }
}

/// Dangling-link issues for every link in one conversation, appended to `out`.
fn link_issues(db: &DialogueDatabase, c: &Conversation, index: &EntryIndex, out: &mut Vec<Issue>)
    requires
        index.wf() && index.source() == *db,
    ensures
        final(out)@ == old(out)@ + spec_link_issues(*db, c.id, c.entries@),
{
    let ghost start = out@;
    let mut i: usize = 0;
    while i < c.entries.len()
        invariant
            i <= c.entries@.len(),
            index.wf() && index.source() == *db,
            out@ == start + spec_link_issues(*db, c.id, c.entries@.take(i as int)),
        decreases c.entries@.len() - i,
    {
        let e = &c.entries[i];
        let ghost before = out@;
        let mut k: usize = 0;
        while k < e.links.len()
            invariant
                k <= e.links@.len(),
                index.wf() && index.source() == *db,
                out@ == before + spec_entry_link_issues(*db, c.id, e.id, e.links@.take(k as int)),
            decreases e.links@.len() - k,
        {
            let l = e.links[k];
            proof {
                assert(e.links@.take(k + 1).drop_last() =~= e.links@.take(k as int));
            }
            if !index.contains(l.dest_conversation, l.dest_entry) {
                out.push(Issue::DanglingLink(c.id, e.id, l.dest_conversation, l.dest_entry));
            }
            proof {
                assert(out@ =~= before + spec_entry_link_issues(*db, c.id, e.id, e.links@.take(k + 1)));
            }
            k = k + 1;
        }
        proof {
            assert(e.links@.take(e.links@.len() as int) =~= e.links@);
            assert(c.entries@.take(i + 1).drop_last() =~= c.entries@.take(i as int));
            assert(out@ =~= start + spec_link_issues(*db, c.id, c.entries@.take(i + 1)));
        }
        i = i + 1;
    }
    proof {
        assert(c.entries@.take(c.entries@.len() as int) =~= c.entries@);
    }
}

/// Collects every issue in the database. An empty result means it's clean.
pub fn validate(db: &DialogueDatabase) -> (r: Vec<Issue>)
    ensures
        r@ == spec_validate(*db),
{
    let index = EntryIndex::build(db);
    let mut out: Vec<Issue> = Vec::new();

    let mut numbers: Vec<i32> = Vec::new();
    let mut i: usize = 0;
    while i < db.actors.len()
        invariant
            i <= db.actors@.len(),
            numbers@ =~= actor_numbers(*db).take(i as int),
        decreases db.actors@.len() - i,
    {
        numbers.push(db.actors[i].id.0);
        i = i + 1;
    }
    proof {
        assert(actor_numbers(*db).take(db.actors@.len() as int) =~= actor_numbers(*db));
    }
    let dups = duplicates(&numbers);
    let mut k: usize = 0;
    while k < dups.len()
        invariant
            k <= dups@.len(),
            out@ =~= dups@.take(k as int).map_values(|n: i32| Issue::DuplicateActor(ActorId(n))),
        decreases dups@.len() - k,
    {
        out.push(Issue::DuplicateActor(ActorId(dups[k])));
        proof {
            assert(dups@.take(k + 1).map_values(|n: i32| Issue::DuplicateActor(ActorId(n)))
                =~= dups@.take(k as int).map_values(|n: i32| Issue::DuplicateActor(ActorId(n))).push(
                Issue::DuplicateActor(ActorId(dups@[k as int]))));
        }
        k = k + 1;
    }
    proof {
        assert(dups@.take(dups@.len() as int) =~= dups@);
    }

    let mut cnumbers: Vec<i32> = Vec::new();
    let mut i: usize = 0;
    while i < db.conversations.len()
        invariant
            i <= db.conversations@.len(),
            cnumbers@ =~= conversation_numbers(*db).take(i as int),
        decreases db.conversations@.len() - i,
    {
        cnumbers.push(db.conversations[i].id.0);
        i = i + 1;
    }
    proof {
        assert(conversation_numbers(*db).take(db.conversations@.len() as int) =~= conversation_numbers(
            *db,
        ));
    }
    let cdups = duplicates(&cnumbers);
    let ghost after_actors = out@;
    let mut k: usize = 0;
    while k < cdups.len()
        invariant
            k <= cdups@.len(),
            out@ =~= after_actors + cdups@.take(k as int).map_values(
                |n: i32| Issue::DuplicateConversation(ConversationId(n)),
            ),
        decreases cdups@.len() - k,
    {
        out.push(Issue::DuplicateConversation(ConversationId(cdups[k])));
        proof {
            assert(cdups@.take(k + 1).map_values(|n: i32| Issue::DuplicateConversation(ConversationId(n)))
                =~= cdups@.take(k as int).map_values(
                |n: i32| Issue::DuplicateConversation(ConversationId(n)),
            ).push(Issue::DuplicateConversation(ConversationId(cdups@[k as int]))));
        }
        k = k + 1;
    }
    proof {
        assert(cdups@.take(cdups@.len() as int) =~= cdups@);
    }

    let ghost after_convs = out@;
    let mut i: usize = 0;
    while i < db.conversations.len()
        invariant
            i <= db.conversations@.len(),
            out@ == after_convs + all_entry_issues(db.conversations@.take(i as int)),
        decreases db.conversations@.len() - i,
    {
        entry_issues(&db.conversations[i], &mut out);
        proof {
            assert(db.conversations@.take(i + 1).drop_last() =~= db.conversations@.take(i as int));
            assert(out@ =~= after_convs + all_entry_issues(db.conversations@.take(i + 1)));
        }
        i = i + 1;
    }
    proof {
        assert(db.conversations@.take(db.conversations@.len() as int) =~= db.conversations@);
    }

    let ghost after_entries = out@;
    let mut i: usize = 0;
    while i < db.conversations.len()
        invariant
            i <= db.conversations@.len(),
            index.wf() && index.source() == *db,
            out@ == after_entries + all_link_issues(*db, db.conversations@.take(i as int)),
        decreases db.conversations@.len() - i,
    {
        link_issues(db, &db.conversations[i], &index, &mut out);
        proof {
            assert(db.conversations@.take(i + 1).drop_last() =~= db.conversations@.take(i as int));
            assert(out@ =~= after_entries + all_link_issues(*db, db.conversations@.take(i + 1)));
        }
        i = i + 1;
    }
    proof {
        assert(db.conversations@.take(db.conversations@.len() as int) =~= db.conversations@);
        assert(out@ =~= spec_validate(*db));
    }
    out
}

} // verus!
