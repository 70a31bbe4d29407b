//! Talk data: the actors and the ordered action script of a talk, built
//! from the raw talk read from a `.talk.ron` file, with its checks: unique
//! actor slugs, unique action ids, and targets that exist.

use vstd::prelude::*;

use indexmap::IndexMap;
use std::hash::RandomState;

use crate::actors::Actor;
use crate::first::{first_match, lemma_first_match_is, lemma_first_match_none};
use crate::script_map::{
    keys_unique, new_script, script_action_at, script_contains_key, script_entries, script_insert, script_key_at,
    script_len,
};

verus! {

/// A unique identifier for an action in a Talk.
pub type ActionId = usize;

/// The slug of an actor.
pub type ActorSlug = String;

/// The kind of a talk node.
#[derive(Debug, Default, Clone, Copy, PartialEq, Eq, Structural)]
pub enum NodeKind {
    /// A line of talk.
    #[default]
    Talk,
    /// A choice between branches.
    Choice,
    /// Actors joining.
    Join,
    /// Actors leaving.
    Leave,
}

/// A choice of a choice action.
#[derive(Debug, Default, Clone, PartialEq)]
pub struct ChoiceData {
    /// The text of the choice.
    pub text: String,
    /// The action the choice leads to.
    pub next: ActionId,
}

/// An action of a talk.
#[derive(Debug, Default, Clone, PartialEq)]
pub struct Action {
    /// The kind of node.
    pub kind: NodeKind,
    /// The actors performing the action.
    pub actors: Vec<ActorSlug>,
    /// The choices of a choice action.
    pub choices: Vec<ChoiceData>,
    /// The text of the action.
    pub text: String,
    /// The action that follows.
    pub next: Option<ActionId>,
}

/// The talk asset: its actors and its actions in script order.
#[derive(Debug)]
pub struct TalkData {
    /// The actors of the talk.
    pub actors: Vec<Actor>,
    /// The actions, by id, in script order.
    pub script: IndexMap<ActionId, Action, RandomState>,
}

/// A raw talk as read from a file.
#[derive(Debug)]
pub struct RonTalk {
    /// The actors.
    pub actors: Vec<RonActor>,
    /// The actions.
    pub script: Vec<RonAction>,
}

/// A raw action.
#[derive(Debug, Default, Clone)]
pub struct RonAction {
    /// The id of the action.
    pub id: ActionId,
    /// The kind of node.
    pub action: NodeKind,
    /// The performing actors.
    pub actors: Vec<ActorSlug>,
    /// The choices, if any.
    pub choices: Option<Vec<RonChoice>>,
    /// The text, if any.
    pub text: Option<String>,
    /// The action that follows, if any.
    pub next: Option<ActionId>,
}

/// A raw actor.
#[derive(Debug, Clone, Default)]
pub struct RonActor {
    /// The slug of the actor.
    pub slug: ActorSlug,
    /// The name of the character.
    pub name: String,
}

/// A raw choice.
#[derive(Debug, Clone)]
pub struct RonChoice {
    /// The text of the choice.
    pub text: String,
    /// The action the choice leads to.
    pub next: ActionId,
}

#[verifier::external_type_specification]
#[verifier::external_body]
pub struct ExSpannedError(ron::error::SpannedError);

/// The error type for loading talks from RON.
#[derive(Debug)]
pub enum RonLoaderError {
    /// The file could not be read.
    Io(std::io::Error),
    /// The file is not valid RON.
    RonError(ron::error::SpannedError),
    /// Multiple actions have the same id.
    DuplicateActionId(ActionId),
    /// The actor slug is duplicated.
    DuplicateActorSlug(ActorSlug),
    /// The action (first id) points to an id which was not found (second id).
    InvalidNextAction(ActionId, ActionId),
}

/// What a talk-data build fails with, in the model.
pub enum TalkError {
    /// See [`RonLoaderError::DuplicateActionId`].
    DuplicateActionId(ActionId),
    /// See [`RonLoaderError::DuplicateActorSlug`].
    DuplicateActorSlug(Seq<char>),
    /// See [`RonLoaderError::InvalidNextAction`].
    InvalidNextAction(ActionId, ActionId),
}

/// The model of a loader error, for the errors the checks produce.
pub open spec fn error_model(e: RonLoaderError) -> Option<TalkError> {
    match e {
        RonLoaderError::DuplicateActionId(id) => Some(TalkError::DuplicateActionId(id)),
        RonLoaderError::DuplicateActorSlug(s) => Some(TalkError::DuplicateActorSlug(s@)),
        RonLoaderError::InvalidNextAction(a, b) => Some(TalkError::InvalidNextAction(a, b)),
        _ => None,
    }
}

// ---------------------------------------------------------------------------
// The model.
// ---------------------------------------------------------------------------

/// The choice a raw choice becomes.
pub open spec fn choice_of(c: RonChoice) -> ChoiceData {
    ChoiceData { text: c.text, next: c.next }
}

/// `a` is the action the raw action `r` becomes: a talk with choices is a
/// choice; the choices are converted in order (none when absent); a missing
/// text is empty.
pub open spec fn action_of(a: Action, r: RonAction) -> bool {
    &&& a.kind == (if r.action == NodeKind::Talk && r.choices is Some {
        NodeKind::Choice
    } else {
        r.action
    })
    &&& a.actors == r.actors
    &&& a.choices@ == match r.choices {
        Some(cs) => cs@.map_values(|c: RonChoice| choice_of(c)),
        None => Seq::empty(),
    }
    &&& a.text@ == match r.text {
        Some(t) => t@,
        None => Seq::empty(),
    }
    &&& a.next == r.next
}

/// Whether some pair of the entries has the key.
pub open spec fn has_key(s: Seq<(ActionId, Action)>, k: ActionId) -> bool {
    exists|i: int| 0 <= i < s.len() && s[i].0 == k
}

/// The predicate "is a choice leading to no action of the entries".
pub open spec fn choice_dangles(s: Seq<(ActionId, Action)>) -> spec_fn(ChoiceData) -> bool {
    |c: ChoiceData| !has_key(s, c.next)
}

/// The id an action leads to that no action of the entries has: with
/// choices, the first dangling choice's; without, its dangling `next`.
pub open spec fn missing_next(s: Seq<(ActionId, Action)>, a: Action) -> Option<ActionId> {
    if a.choices@.len() > 0 {
        match first_match(a.choices@, choice_dangles(s)) {
            Some(k) => Some(a.choices@[k].next),
            None => None,
        }
    } else {
        match a.next {
            Some(n) => if has_key(s, n) {
                None
            } else {
                Some(n)
            },
            None => None,
        }
    }
}

/// The predicate "is an entry leading to a missing action".
pub open spec fn entry_dangles(s: Seq<(ActionId, Action)>) -> spec_fn((ActionId, Action)) -> bool {
    |e: (ActionId, Action)| missing_next(s, e.1) is Some
}

/// The first dangling target of the entries, in order, as (action, target).
pub open spec fn first_invalid_next(s: Seq<(ActionId, Action)>) -> Option<(ActionId, ActionId)> {
    match first_match(s, entry_dangles(s)) {
        Some(i) => Some((s[i].0, missing_next(s, s[i].1)->0)),
        None => None,
    }
}

/// Position `i` repeats an earlier actor slug.
pub open spec fn slug_repeats(actors: Seq<RonActor>, i: int) -> bool {
    exists|j: int| 0 <= j < i && actors[j].slug@ == actors[i].slug@
}

/// Position `i` repeats an earlier action id.
pub open spec fn id_repeats(script: Seq<RonAction>, i: int) -> bool {
    exists|j: int| 0 <= j < i && script[j].id == script[i].id
}

/// The first position of `0..n` satisfying `p`.
pub open spec fn first_position(n: nat, p: spec_fn(int) -> bool) -> Option<int> {
    first_match(Seq::new(n, |i: int| i), p)
}

/// The entries `e` hold the converted actions of `script`, in order.
pub open spec fn entries_of(e: Seq<(ActionId, Action)>, script: Seq<RonAction>) -> bool {
    &&& e.len() == script.len()
    &&& forall|i: int|
        #![trigger e[i]]
        0 <= i < e.len() ==> e[i].0 == script[i].id && action_of(e[i].1, script[i])
}

proof fn lemma_first_position(n: nat, p: spec_fn(int) -> bool, i: int)
    requires
        0 <= i < n,
        p(i),
        forall|j: int| 0 <= j < i ==> !#[trigger] p(j),
    ensures
        first_position(n, p) == Some(i),
{
    let s = Seq::new(n, |q: int| q);
    assert forall|j: int| 0 <= j < i implies !p(#[trigger] s[j]) by {
        assert(s[j] == j);
    }
    assert(s[i] == i);
    lemma_first_match_is(s, p, i);
}

proof fn lemma_no_position(n: nat, p: spec_fn(int) -> bool)
    requires
        forall|j: int| 0 <= j < n ==> !#[trigger] p(j),
    ensures
        first_position(n, p) is None,
{
    let s = Seq::new(n, |q: int| q);
    assert forall|j: int| 0 <= j < n implies !p(#[trigger] s[j]) by {
        assert(s[j] == j);
    }
    lemma_first_match_none(s, p);
}

/// Loading keeps each raw action's fields: for the entries of a loaded
/// script, the `i`-th has the `i`-th raw action's id, performing actors,
/// `next` and text (empty when absent), and its choices are the raw choices
/// with their texts and targets, in order; a talk action with choices
/// becomes a choice action.
pub proof fn law_loaded_actions_keep_raw_fields(e: Seq<(ActionId, Action)>, script: Seq<RonAction>, i: int)
    requires
        entries_of(e, script),
        0 <= i < e.len(),
    ensures
        e[i].0 == script[i].id,
        e[i].1.actors@ == script[i].actors@,
        e[i].1.next == script[i].next,
        script[i].text matches Some(t) ==> e[i].1.text@ == t@,
        script[i].text is None ==> e[i].1.text@.len() == 0,
        script[i].choices is None ==> e[i].1.choices@.len() == 0,
        script[i].choices matches Some(cs) ==> e[i].1.choices@.len() == cs@.len() && forall|q: int|
            0 <= q < cs@.len() ==> (#[trigger] e[i].1.choices@[q]).text@ == cs@[q].text@
                && e[i].1.choices@[q].next == cs@[q].next,
        script[i].action == NodeKind::Talk && script[i].choices is Some ==> e[i].1.kind == NodeKind::Choice,
        !(script[i].action == NodeKind::Talk && script[i].choices is Some) ==> e[i].1.kind == script[i].action,
{
    assert(action_of(e[i].1, script[i]));
    match script[i].choices {
        Some(cs) => {
            assert forall|q: int| 0 <= q < cs@.len() implies (#[trigger] e[i].1.choices@[q]).text@
                == cs@[q].text@ && e[i].1.choices@[q].next == cs@[q].next by {
                assert(e[i].1.choices@[q] == choice_of(cs@[q]));
            }
        },
        None => {},
    }
}

// ---------------------------------------------------------------------------
// The executable functions.
// ---------------------------------------------------------------------------

/// The choice a raw choice becomes.
pub fn choice_from_ron(val: RonChoice) -> (r: ChoiceData)
    ensures
        r == choice_of(val),
{
    ChoiceData { text: val.text, next: val.next }
}

/// The action a raw action becomes.
pub fn action_from_ron(val: RonAction) -> (r: Action)
    ensures
        action_of(r, val),
{
    let mut action_kind = val.action;
    if action_kind == NodeKind::Talk && val.choices.is_some() {
        action_kind = NodeKind::Choice;
    }
    let choices = match val.choices {
        Some(cs) => {
            let ghost all = cs@;
            let mut out: Vec<ChoiceData> = Vec::new();
            let mut i: usize = 0;
            while i < cs.len()
                invariant
                    i <= cs@.len(),
                    cs@ == all,
                    out@ == all.take(i as int).map_values(|c: RonChoice| choice_of(c)),
                decreases cs@.len() - i,
            {
                out.push(ChoiceData { text: cs[i].text.clone(), next: cs[i].next });
                proof {
                    assert(out@ =~= all.take(i + 1).map_values(|c: RonChoice| choice_of(c)));
                }
                i = i + 1;
            }
            proof {
                assert(all.take(all.len() as int) =~= all);
            }
            out
        },
        None => Vec::new(),
    };
    let text = match val.text {
        Some(t) => t,
        None => String::new(),
    };
    Action { kind: action_kind, actors: val.actors, choices, text, next: val.next }
}

/// Checks that every target of the actions exists: for an action with
/// choices each choice's `next`, otherwise its `next`. The first dangling
/// target, in script order, is reported.
pub fn validate_all_nexts(actions: &IndexMap<ActionId, Action, RandomState>) -> (r: Result<(), RonLoaderError>)
    ensures
        match first_invalid_next(script_entries(*actions)) {
            Some((a, b)) => r matches Err(e) && error_model(e) == Some(TalkError::InvalidNextAction(a, b)),
            None => r is Ok,
        },
{
    let ghost s = script_entries(*actions);
    let n = script_len(actions);
    let mut i: usize = 0;
    while i < n
        invariant
            i <= n == s.len(),
            s == script_entries(*actions),
            forall|j: int| 0 <= j < i ==> !(#[trigger] entry_dangles(s)(s[j])),
        decreases n - i,
    {
        let id = script_key_at(actions, i);
        let action = script_action_at(actions, i);
        if action.choices.len() > 0 {
            let mut k: usize = 0;
            while k < action.choices.len()
                invariant
                    k <= action.choices@.len(),
                    i < n == s.len(),
                    s == script_entries(*actions),
                    (id, *action) == s[i as int],
                    forall|j: int| 0 <= j < i ==> !(#[trigger] entry_dangles(s)(s[j])),
                    forall|m: int| 0 <= m < k ==> !(#[trigger] choice_dangles(s)(action.choices@[m])),
                decreases action.choices@.len() - k,
            {
                let next = action.choices[k].next;
                if !script_contains_key(actions, next) {
                    proof {
                        lemma_first_match_is(action.choices@, choice_dangles(s), k as int);
                        lemma_first_match_is(s, entry_dangles(s), i as int);
                    }
                    return Err(RonLoaderError::InvalidNextAction(id, next));
                }
                k = k + 1;
            }
            proof {
                lemma_first_match_none(action.choices@, choice_dangles(s));
            }
        } else {
            match action.next {
                Some(next) => {
                    if !script_contains_key(actions, next) {
                        proof {
                            lemma_first_match_is(s, entry_dangles(s), i as int);
                        }
                        return Err(RonLoaderError::InvalidNextAction(id, next));
                    }
                },
                None => {},
            }
        }
        i = i + 1;
    }
    proof {
        lemma_first_match_none(s, entry_dangles(s));
    }
    Ok(())
}

/// Builds the talk data of a raw talk: the actors, refusing a repeated
/// slug; the actions in script order, refusing a repeated id; then the
/// targets, refusing a dangling one.
pub fn build_talk_data(ron_talk: RonTalk) -> (r: Result<TalkData, RonLoaderError>)
    ensures
        match first_position(ron_talk.actors@.len(), |i: int| slug_repeats(ron_talk.actors@, i)) {
            Some(i) => r matches Err(e) && error_model(e) == Some(
                TalkError::DuplicateActorSlug(ron_talk.actors@[i].slug@),
            ),
            None => match first_position(ron_talk.script@.len(), |i: int| id_repeats(ron_talk.script@, i)) {
                Some(i) => r matches Err(e) && error_model(e) == Some(
                    TalkError::DuplicateActionId(ron_talk.script@[i].id),
                ),
                None => exists|e: Seq<(ActionId, Action)>|
                    #![trigger entries_of(e, ron_talk.script@)]
                    entries_of(e, ron_talk.script@) && match first_invalid_next(e) {
                        Some((a, b)) => r matches Err(x) && error_model(x) == Some(
                            TalkError::InvalidNextAction(a, b),
                        ),
                        None => r matches Ok(t) && script_entries(t.script) == e && t.actors@.len()
                            == ron_talk.actors@.len() && forall|k: int|
                            0 <= k < t.actors@.len() ==> (#[trigger] t.actors@[k]).slug
                                == ron_talk.actors@[k].slug && t.actors@[k].name
                                == ron_talk.actors@[k].name,
                    },
            },
        },
{
    let RonTalk { actors, script } = ron_talk;
    let ghost ractors = actors@;
    let ghost rscript = script@;
    // 1. The actors, in order, with unique slugs.
    let mut talk_actors: Vec<Actor> = Vec::new();
    let mut i: usize = 0;
    while i < actors.len()
        invariant
            i <= actors@.len(),
            actors@ == ractors,
            ractors == ron_talk.actors@,
            forall|a: int| 0 <= a < i ==> !slug_repeats(ractors, a),
            talk_actors@.len() == i,
            forall|k: int|
                0 <= k < i ==> (#[trigger] talk_actors@[k]).slug == ractors[k].slug && talk_actors@[k].name
                    == ractors[k].name,
        decreases actors@.len() - i,
    {
        let slug = &actors[i].slug;
        let mut j: usize = 0;
        while j < i
            invariant
                j <= i < actors@.len(),
                actors@ == ractors,
                ractors == ron_talk.actors@,
                forall|a: int| 0 <= a < i ==> !slug_repeats(ractors, a),
                *slug == ractors[i as int].slug,
                forall|a: int| 0 <= a < j ==> ractors[a].slug@ != ractors[i as int].slug@,
            decreases i - j,
        {
            if actors[j].slug == *slug {
                proof {
                    assert(slug_repeats(ractors, i as int));
                    lemma_first_position(ractors.len(), |q: int| slug_repeats(ractors, q), i as int);
                }
                return Err(RonLoaderError::DuplicateActorSlug(slug.clone()));
            }
            j = j + 1;
        }
        talk_actors.push(Actor::new(slug.clone(), actors[i].name.clone()));
        i = i + 1;
    }
    proof {
        lemma_no_position(ractors.len(), |q: int| slug_repeats(ractors, q));
    }
    // 2. The actions, in order, with unique ids.
    let mut raw_actions = new_script(script.len());
    let mut k: usize = 0;
    let n = script.len();
    let mut rest = script;
    // Take the actions from the front: reverse them onto a stack first.
    let mut stack: Vec<RonAction> = Vec::new();
    while rest.len() > 0
        invariant
            stack@ + rest@.reverse() =~= rscript.reverse(),
            ractors == ron_talk.actors@,
            rscript == ron_talk.script@,
            first_position(ractors.len(), |q: int| slug_repeats(ractors, q)) is None,
        decreases rest@.len(),
    {
        let a = rest.pop().unwrap();
        stack.push(a);
        proof {
            assert(stack@ + rest@.reverse() =~= rscript.reverse());
        }
    }
    proof {
        assert(stack@ =~= rscript.reverse());
    }
    while k < n
        invariant
            n == rscript.len(),
            k <= n,
            ractors == ron_talk.actors@,
            rscript == ron_talk.script@,
            first_position(ractors.len(), |q: int| slug_repeats(ractors, q)) is None,
            stack@ =~= rscript.subrange(k as int, n as int).reverse(),
            keys_unique(script_entries(raw_actions)),
            entries_of(script_entries(raw_actions), rscript.take(k as int)),
            forall|a: int| 0 <= a < k ==> !id_repeats(rscript, a),
        decreases n - k,
    {
        let action = stack.pop().unwrap();
        proof {
            assert(action == rscript[k as int]);
        }
        let id = action.id;
        let ghost before = script_entries(raw_actions);
        let converted = action_from_ron(action);
        let ghost conv = converted;
        match script_insert(&mut raw_actions, id, converted) {
            Some(_) => {
                proof {
                    let q = choose|q: int| 0 <= q < before.len() && before[q].0 == id;
                    assert(before[q].0 == rscript[q].id);
                    assert(id_repeats(rscript, k as int));
                    lemma_first_position(rscript.len(), |x: int| id_repeats(rscript, x), k as int);
                }
                return Err(RonLoaderError::DuplicateActionId(id));
            },
            None => {},
        }
        proof {
            let after = script_entries(raw_actions);
            assert(after == before.push((id, conv)));
            assert(!id_repeats(rscript, k as int)) by {
                if id_repeats(rscript, k as int) {
                    let q = choose|q: int| 0 <= q < k && rscript[q].id == rscript[k as int].id;
                    assert(before[q].0 == rscript[q].id);
                }
            }
            assert forall|x: int| #![trigger after[x]] 0 <= x < after.len() implies after[x].0
                == rscript.take(k + 1)[x].id && action_of(after[x].1, rscript.take(k + 1)[x]) by {
                if x < k {
                    assert(after[x] == before[x]);
                }
            }
            assert(stack@ =~= rscript.subrange(k + 1, n as int).reverse());
        }
        k = k + 1;
    }
    proof {
        assert(rscript.take(n as int) =~= rscript);
        lemma_no_position(rscript.len(), |q: int| id_repeats(rscript, q));
    }
    // 3. The targets.
    match validate_all_nexts(&raw_actions) {
        Ok(()) => {},
        Err(e) => return Err(e),
    }
    Ok(TalkData { actors: talk_actors, script: raw_actions })
}

} // verus!
