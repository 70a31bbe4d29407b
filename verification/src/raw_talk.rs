//! Turning the action script of a talk into a [`TalkBuilder`].
//!
//! The pass starts at the first action and walks the script: a talk action
//! becomes a text node followed by the node of its `next` action; a choice
//! action becomes a choice node whose branches are built the same way, each
//! in a builder of its own. Every action that already has a node is not
//! built twice: the node reaching it is connected to that node by hand. The
//! ids of the nodes are handed out in creation order from a counter.

use vstd::prelude::*;

use indexmap::IndexMap;
use std::hash::RandomState;

use crate::builder::{
    all_below, choice_models, choices_ids, choices_targets, connected, empty_model, lemma_choice_models_push,
    lemma_ids_choice_push, lemma_ids_connected, lemma_ids_with_node, lemma_targets_choice_push,
    lemma_targets_connected, lemma_targets_with_node, model_ids, model_targets, node_ids, node_targets, with_node,
    BuildNodeId, BuilderModel, NodeModel, TalkBuilder,
};
use crate::errors::BuildTalkError;
use crate::talk_graph::{law_graph_follows_nodes, spec_talk_graph, GraphNode};
use crate::first::{first_match, is_first_match, lemma_first_match_is, lemma_first_match_some};
use crate::script_map::{keys_unique, script_contains_key, script_entries, script_get, script_key_at, script_len};
use crate::talk_data::{first_invalid_next, has_key, validate_all_nexts, Action, ActionId, ChoiceData, NodeKind, RonLoaderError, TalkData};

verus! {

/// What the pass keeps between steps: the node made for each action so far
/// (one pair per action), and the id the next node gets.
pub struct PassState {
    /// Action id and node id pairs.
    pub visited: Seq<(ActionId, BuildNodeId)>,
    /// The id of the next node.
    pub next_node: nat,
}

/// The predicate "is the pair of action `k`".
pub open spec fn is_key(k: ActionId) -> spec_fn((ActionId, BuildNodeId)) -> bool {
    |p: (ActionId, BuildNodeId)| p.0 == k
}

/// The predicate "is the entry of action `k`".
pub open spec fn is_entry_of(k: ActionId) -> spec_fn((ActionId, Action)) -> bool {
    |e: (ActionId, Action)| e.0 == k
}

/// The node made for action `k`, if any.
pub open spec fn visited_node(v: Seq<(ActionId, BuildNodeId)>, k: ActionId) -> Option<BuildNodeId> {
    match first_match(v, is_key(k)) {
        Some(i) => Some(v[i].1),
        None => None,
    }
}

/// The pairs after recording node `id` for action `k`: the pair of `k` is
/// replaced, or appended when there is none.
pub open spec fn visit(v: Seq<(ActionId, BuildNodeId)>, k: ActionId, id: BuildNodeId) -> Seq<(ActionId, BuildNodeId)> {
    match first_match(v, is_key(k)) {
        Some(i) => v.update(i, (k, id)),
        None => v.push((k, id)),
    }
}

/// The action with the id `k` in the entries.
pub open spec fn action_for(s: Seq<(ActionId, Action)>, k: ActionId) -> Action {
    s[first_match(s, is_entry_of(k))->0].1
}

/// The pairs name each action at most once, and only actions of `s`.
pub open spec fn visited_ok(s: Seq<(ActionId, Action)>, v: Seq<(ActionId, BuildNodeId)>) -> bool {
    &&& forall|i: int, j: int| 0 <= i < j < v.len() ==> v[i].0 != v[j].0
    &&& forall|i: int| 0 <= i < v.len() ==> has_key(s, #[trigger] v[i].0)
}

/// A builder result read as values.
pub open spec fn result_model(r: Result<TalkBuilder, BuildTalkError>) -> Result<BuilderModel, BuildTalkError> {
    match r {
        Ok(b) => Ok(b@),
        Err(e) => Err(e),
    }
}

/// The pass from action `cur` (whose action is `a`) onwards, adding to the
/// builder `b`. `entry_len` is the number of actions that had a node when
/// the current branch began, and `depth` the number of nested branches
/// begun since an action last got its first node.
pub open spec fn walk(
    s: Seq<(ActionId, Action)>,
    cur: ActionId,
    a: Action,
    b: BuilderModel,
    st: PassState,
    entry_len: nat,
    depth: nat,
) -> (Result<BuilderModel, BuildTalkError>, PassState)
    decreases s.len() - entry_len, s.len() + 1 - depth, 1int, s.len() - st.visited.len(),
{
    match a.kind {
        NodeKind::Join => (Err(BuildTalkError::UnsupportedAction(cur)), st),
        NodeKind::Leave => (Err(BuildTalkError::UnsupportedAction(cur)), st),
        NodeKind::Talk => {
            if st.next_node >= usize::MAX {
                (Err(BuildTalkError::TooManyNodes), st)
            } else {
                let id = st.next_node as usize;
                let b2 = with_node(
                    b,
                    NodeModel { id, text: a.text@, choices: Seq::empty(), manual_connections: Seq::empty() },
                );
                let st2 = PassState { visited: visit(st.visited, cur, id), next_node: st.next_node + 1 };
                match a.next {
                    None => (Ok(b2), st2),
                    Some(nx) => match visited_node(st2.visited, nx) {
                        Some(node) => (Ok(connected(b2, node)), st2),
                        None => if !has_key(s, nx) {
                            (Err(BuildTalkError::InvalidNextAction(cur, nx)), st2)
                        } else if st2.visited.len() <= st.visited.len() || st2.visited.len() > s.len() {
                            // Not reached: a talk action is walked only before it has a node.
                            (Err(BuildTalkError::ChoiceCycle(cur)), st2)
                        } else {
                            walk(s, nx, action_for(s, nx), b2, st2, entry_len, depth)
                        },
                    },
                }
            }
        },
        NodeKind::Choice => {
            let (res, st2) = branches(s, cur, a.choices@, 0, Seq::empty(), st, entry_len, depth);
            match res {
                Err(e) => (Err(e), st2),
                Ok(cs) => if st2.next_node >= usize::MAX {
                    (Err(BuildTalkError::TooManyNodes), st2)
                } else {
                    let id = st2.next_node as usize;
                    (
                        Ok(
                            with_node(
                                b,
                                NodeModel { id, text: Seq::empty(), choices: cs, manual_connections: Seq::empty() },
                            ),
                        ),
                        PassState { visited: visit(st2.visited, cur, id), next_node: st2.next_node + 1 },
                    )
                },
            }
        },
    }
}

/// The branches of the choice action `from` from its `k`-th choice on,
/// after the branches `acc` of the earlier ones.
pub open spec fn branches(
    s: Seq<(ActionId, Action)>,
    from: ActionId,
    cs: Seq<ChoiceData>,
    k: nat,
    acc: Seq<(Seq<char>, BuilderModel)>,
    st: PassState,
    entry_len: nat,
    depth: nat,
) -> (Result<Seq<(Seq<char>, BuilderModel)>, BuildTalkError>, PassState)
    decreases s.len() - entry_len, s.len() + 1 - depth, 0int, cs.len() - k,
{
    if k >= cs.len() {
        (Ok(acc), st)
    } else {
        let c = cs[k as int];
        match visited_node(st.visited, c.next) {
            Some(node) => branches(
                s,
                from,
                cs,
                k + 1,
                acc.push((c.text@, connected(empty_model(), node))),
                st,
                entry_len,
                depth,
            ),
            None => if !has_key(s, c.next) {
                (Err(BuildTalkError::InvalidNextAction(from, c.next)), st)
            } else if st.visited.len() < entry_len || st.visited.len() > s.len() {
                // Not reached: actions only gain nodes, and only actions of `s` do.
                (Err(BuildTalkError::ChoiceCycle(from)), st)
            } else if st.visited.len() == entry_len && depth >= s.len() {
                (Err(BuildTalkError::ChoiceCycle(c.next)), st)
            } else {
                let child_depth: nat = if st.visited.len() > entry_len {
                    0
                } else {
                    depth + 1
                };
                let (r, st2) = walk(
                    s,
                    c.next,
                    action_for(s, c.next),
                    empty_model(),
                    st,
                    st.visited.len(),
                    child_depth,
                );
                match r {
                    Err(e) => (Err(e), st2),
                    Ok(inner) => branches(s, from, cs, k + 1, acc.push((c.text@, inner)), st2, entry_len, depth),
                }
            },
        }
    }
}

/// The builder a script becomes: refused when empty or when an action
/// leads to a missing one (the first such, in script order); otherwise the
/// pass from the first action.
pub open spec fn spec_into_builder(s: Seq<(ActionId, Action)>) -> Result<BuilderModel, BuildTalkError> {
    if s.len() == 0 {
        Err(BuildTalkError::EmptyTalk)
    } else {
        match first_invalid_next(s) {
            Some((a, b)) => Err(BuildTalkError::InvalidNextAction(a, b)),
            None => walk(
                s,
                s[0].0,
                s[0].1,
                empty_model(),
                PassState { visited: Seq::empty(), next_node: 0 },
                0,
                0,
            ).0,
        }
    }
}

/// The ids `lo`, `lo + 1`, ..., `hi - 1`, in order.
pub open spec fn span(lo: nat, hi: nat) -> Seq<BuildNodeId> {
    Seq::new((hi - lo) as nat, |i: int| (lo + i) as BuildNodeId)
}

/// `x` is the ids from `lo` up to `hi`, each counted once, with `hi` an id
/// the counter can reach.
pub open spec fn fresh_ids(x: Seq<BuildNodeId>, lo: nat, hi: nat) -> bool {
    &&& lo <= hi <= usize::MAX
    &&& x == span(lo, hi)
}

/// `r` is `base` followed by the ids from `lo` up to `hi`.
pub open spec fn grows_fresh(r: Seq<BuildNodeId>, base: Seq<BuildNodeId>, lo: nat, hi: nat) -> bool {
    &&& base.len() <= r.len()
    &&& r == base + r.subrange(base.len() as int, r.len() as int)
    &&& fresh_ids(r.subrange(base.len() as int, r.len() as int), lo, hi)
}

proof fn lemma_fresh_concat(x: Seq<BuildNodeId>, y: Seq<BuildNodeId>, lo: nat, mid: nat, hi: nat)
    requires
        fresh_ids(x, lo, mid),
        fresh_ids(y, mid, hi),
    ensures
        fresh_ids(x + y, lo, hi),
{
    assert(span(lo, mid) + span(mid, hi) =~= span(lo, hi));
}

proof fn lemma_grows_append(base: Seq<BuildNodeId>, y: Seq<BuildNodeId>, lo: nat, hi: nat)
    requires
        fresh_ids(y, lo, hi),
    ensures
        grows_fresh(base + y, base, lo, hi),
{
    let r = base + y;
    assert(r.subrange(base.len() as int, r.len() as int) =~= y);
}

proof fn lemma_grows_trans(
    r2: Seq<BuildNodeId>,
    r1: Seq<BuildNodeId>,
    base: Seq<BuildNodeId>,
    lo: nat,
    mid: nat,
    hi: nat,
)
    requires
        grows_fresh(r1, base, lo, mid),
        grows_fresh(r2, r1, mid, hi),
    ensures
        grows_fresh(r2, base, lo, hi),
{
    let x = r1.subrange(base.len() as int, r1.len() as int);
    let y = r2.subrange(r1.len() as int, r2.len() as int);
    lemma_fresh_concat(x, y, lo, mid, hi);
    assert(r2 == base + (x + y));
    lemma_grows_append(base, x + y, lo, hi);
}

proof fn lemma_grows_refl(r: Seq<BuildNodeId>, lo: nat)
    requires
        lo <= usize::MAX,
    ensures
        grows_fresh(r, r, lo, lo),
{
    assert(r.subrange(r.len() as int, r.len() as int) =~= span(lo, lo));
    assert(r + Seq::<BuildNodeId>::empty() =~= r);
}

/// A successful pass from `cur` appends to the builder's ids the ids of the
/// nodes it made, rising strictly from the counter's value before to its
/// value after.
proof fn lemma_walk_ids(
    s: Seq<(ActionId, Action)>,
    cur: ActionId,
    a: Action,
    b: BuilderModel,
    st: PassState,
    entry_len: nat,
    depth: nat,
)
    requires
        st.next_node <= usize::MAX,
    ensures
        walk(s, cur, a, b, st, entry_len, depth).0 is Ok ==> grows_fresh(
            model_ids(walk(s, cur, a, b, st, entry_len, depth).0->Ok_0),
            model_ids(b),
            st.next_node,
            walk(s, cur, a, b, st, entry_len, depth).1.next_node,
        ),
    decreases s.len() - entry_len, s.len() + 1 - depth, 1int, s.len() - st.visited.len(),
{
    match a.kind {
        NodeKind::Talk => {
            if st.next_node < usize::MAX {
                let id = st.next_node as usize;
                let n = NodeModel { id, text: a.text@, choices: Seq::empty(), manual_connections: Seq::empty() };
                let b2 = with_node(b, n);
                let st2 = PassState { visited: visit(st.visited, cur, id), next_node: st.next_node + 1 };
                lemma_ids_with_node(b, n);
                assert(choices_ids(n.choices) =~= Seq::<BuildNodeId>::empty());
                assert(node_ids(n) =~= seq![id]);
                assert(span(st.next_node, st2.next_node) =~= seq![id]);
                lemma_grows_append(model_ids(b), seq![id], st.next_node, st2.next_node);
                match a.next {
                    None => {},
                    Some(nx) => match visited_node(st2.visited, nx) {
                        Some(node) => {
                            lemma_ids_connected(b2, node);
                        },
                        None => if has_key(s, nx) && !(st2.visited.len() <= st.visited.len() || st2.visited.len()
                            > s.len()) {
                            lemma_walk_ids(s, nx, action_for(s, nx), b2, st2, entry_len, depth);
                            let w = walk(s, nx, action_for(s, nx), b2, st2, entry_len, depth);
                            if w.0 is Ok {
                                lemma_grows_trans(
                                    model_ids(w.0->Ok_0),
                                    model_ids(b2),
                                    model_ids(b),
                                    st.next_node,
                                    st2.next_node,
                                    w.1.next_node,
                                );
                            }
                        },
                    },
                }
            }
        },
        NodeKind::Choice => {
            lemma_branches_ids(s, cur, a.choices@, 0, Seq::empty(), st, entry_len, depth);
            let (res, st2) = branches(s, cur, a.choices@, 0, Seq::empty(), st, entry_len, depth);
            if res is Ok && st2.next_node < usize::MAX {
                let cs = res->Ok_0;
                let id = st2.next_node as usize;
                let n = NodeModel { id, text: Seq::empty(), choices: cs, manual_connections: Seq::empty() };
                lemma_ids_with_node(b, n);
                assert(choices_ids(Seq::<(Seq<char>, BuilderModel)>::empty()) =~= Seq::<BuildNodeId>::empty());
                let x = choices_ids(cs);
                assert(x.subrange(0, x.len() as int) =~= x);
                assert(span(st2.next_node, st2.next_node + 1) =~= seq![id]);
                lemma_fresh_concat(x, seq![id], st.next_node, st2.next_node, st2.next_node + 1);
                assert(x + seq![id] =~= x.push(id));
                lemma_grows_append(model_ids(b), node_ids(n), st.next_node, st2.next_node + 1);
            }
        },
        _ => {},
    }
}

/// A successful pass over the branches from the `k`-th on appends the ids
/// of the nodes it made, rising strictly with the counter.
proof fn lemma_branches_ids(
    s: Seq<(ActionId, Action)>,
    from: ActionId,
    cs: Seq<ChoiceData>,
    k: nat,
    acc: Seq<(Seq<char>, BuilderModel)>,
    st: PassState,
    entry_len: nat,
    depth: nat,
)
    requires
        st.next_node <= usize::MAX,
    ensures
        branches(s, from, cs, k, acc, st, entry_len, depth).0 is Ok ==> grows_fresh(
            choices_ids(branches(s, from, cs, k, acc, st, entry_len, depth).0->Ok_0),
            choices_ids(acc),
            st.next_node,
            branches(s, from, cs, k, acc, st, entry_len, depth).1.next_node,
        ),
    decreases s.len() - entry_len, s.len() + 1 - depth, 0int, cs.len() - k,
{
    if k >= cs.len() {
        lemma_grows_refl(choices_ids(acc), st.next_node);
    } else {
        let c = cs[k as int];
        match visited_node(st.visited, c.next) {
            Some(node) => {
                let m = connected(empty_model(), node);
                lemma_ids_connected(empty_model(), node);
                assert(model_ids(empty_model()) =~= Seq::<BuildNodeId>::empty());
                lemma_ids_choice_push(acc, (c.text@, m));
                assert(choices_ids(acc) + model_ids(m) =~= choices_ids(acc));
                lemma_branches_ids(s, from, cs, k + 1, acc.push((c.text@, m)), st, entry_len, depth);
            },
            None => if has_key(s, c.next) && !(st.visited.len() < entry_len || st.visited.len() > s.len()) && !(
            st.visited.len() == entry_len && depth >= s.len()) {
                let child_depth: nat = if st.visited.len() > entry_len {
                    0
                } else {
                    depth + 1
                };
                lemma_walk_ids(s, c.next, action_for(s, c.next), empty_model(), st, st.visited.len(), child_depth);
                let (r, st2) = walk(s, c.next, action_for(s, c.next), empty_model(), st, st.visited.len(), child_depth);
                if r is Ok {
                    let inner = r->Ok_0;
                    assert(model_ids(empty_model()) =~= Seq::<BuildNodeId>::empty());
                    let mi = model_ids(inner);
                    assert(Seq::<BuildNodeId>::empty() + mi.subrange(0, mi.len() as int) =~= mi);
                    assert(mi.subrange(0, mi.len() as int) =~= mi);
                    lemma_ids_choice_push(acc, (c.text@, inner));
                    lemma_grows_append(choices_ids(acc), mi, st.next_node, st2.next_node);
                    lemma_branches_ids(s, from, cs, k + 1, acc.push((c.text@, inner)), st2, entry_len, depth);
                    let res = branches(s, from, cs, k + 1, acc.push((c.text@, inner)), st2, entry_len, depth);
                    if res.0 is Ok {
                        lemma_grows_trans(
                            choices_ids(res.0->Ok_0),
                            choices_ids(acc.push((c.text@, inner))),
                            choices_ids(acc),
                            st.next_node,
                            st2.next_node,
                            res.1.next_node,
                        );
                    }
                }
            },
        }
    }
}

/// The ids of the nodes a successful pass builds are those the counter
/// handed out: 0, 1, 2, ... up to the counter's final value.
proof fn lemma_built_ids(s: Seq<(ActionId, Action)>)
    requires
        spec_into_builder(s) is Ok,
    ensures
        fresh_ids(
            model_ids(spec_into_builder(s)->Ok_0),
            0,
            walk(s, s[0].0, s[0].1, empty_model(), PassState { visited: Seq::empty(), next_node: 0 }, 0, 0).1.next_node,
        ),
{
    let st0 = PassState { visited: Seq::empty(), next_node: 0 };
    lemma_walk_ids(s, s[0].0, s[0].1, empty_model(), st0, 0, 0);
    let w = walk(s, s[0].0, s[0].1, empty_model(), st0, 0, 0);
    let r = model_ids(w.0->Ok_0);
    assert(model_ids(empty_model()) =~= Seq::<BuildNodeId>::empty());
    assert(r.subrange(0, r.len() as int) =~= r);
}

/// The nodes of a built talk have pairwise different ids.
pub proof fn law_built_node_ids_distinct(s: Seq<(ActionId, Action)>)
    requires
        spec_into_builder(s) is Ok,
    ensures
        forall|i: int, j: int|
            0 <= i < j < model_ids(spec_into_builder(s)->Ok_0).len() ==> model_ids(spec_into_builder(s)->Ok_0)[i]
                != model_ids(spec_into_builder(s)->Ok_0)[j],
{
    lemma_built_ids(s);
}

/// Every node id recorded for an action is below `hi`.
pub open spec fn vals_below(v: Seq<(ActionId, BuildNodeId)>, hi: nat) -> bool {
    forall|i: int| 0 <= i < v.len() ==> (#[trigger] v[i]).1 < hi
}

proof fn lemma_visit_vals(v: Seq<(ActionId, BuildNodeId)>, k: ActionId, id: BuildNodeId, hi: nat)
    requires
        vals_below(v, hi),
        id < hi,
    ensures
        vals_below(visit(v, k, id), hi),
{
    let w = visit(v, k, id);
    assert forall|i: int| 0 <= i < w.len() implies (#[trigger] w[i]).1 < hi by {
        if i < v.len() && w[i] != (k, id) {
            assert(w[i] == v[i]);
        }
    }
}

proof fn lemma_visited_node_below(v: Seq<(ActionId, BuildNodeId)>, k: ActionId, hi: nat)
    requires
        vals_below(v, hi),
        visited_node(v, k) is Some,
    ensures
        visited_node(v, k)->0 < hi,
{
    lemma_first_match_some_is(v, is_key(k));
}

/// A successful pass from `cur` connects by hand only to nodes made before
/// the counter's final value, and records only such nodes.
proof fn lemma_walk_targets(
    s: Seq<(ActionId, Action)>,
    cur: ActionId,
    a: Action,
    b: BuilderModel,
    st: PassState,
    entry_len: nat,
    depth: nat,
)
    requires
        st.next_node <= usize::MAX,
        all_below(model_targets(b), st.next_node),
        vals_below(st.visited, st.next_node),
    ensures
        walk(s, cur, a, b, st, entry_len, depth).0 is Ok ==> all_below(
            model_targets(walk(s, cur, a, b, st, entry_len, depth).0->Ok_0),
            walk(s, cur, a, b, st, entry_len, depth).1.next_node,
        ) && vals_below(
            walk(s, cur, a, b, st, entry_len, depth).1.visited,
            walk(s, cur, a, b, st, entry_len, depth).1.next_node,
        ),
    decreases s.len() - entry_len, s.len() + 1 - depth, 1int, s.len() - st.visited.len(),
{
    match a.kind {
        NodeKind::Talk => {
            if st.next_node < usize::MAX {
                let id = st.next_node as usize;
                let n = NodeModel { id, text: a.text@, choices: Seq::empty(), manual_connections: Seq::empty() };
                let b2 = with_node(b, n);
                let st2 = PassState { visited: visit(st.visited, cur, id), next_node: st.next_node + 1 };
                lemma_targets_with_node(b, n);
                assert(choices_targets(n.choices) =~= Seq::<BuildNodeId>::empty());
                assert(node_targets(n) =~= Seq::<BuildNodeId>::empty());
                assert(model_targets(b2) =~= model_targets(b));
                lemma_visit_vals(st.visited, cur, id, st2.next_node);
                match a.next {
                    None => {},
                    Some(nx) => match visited_node(st2.visited, nx) {
                        Some(node) => {
                            lemma_visited_node_below(st2.visited, nx, st2.next_node);
                            lemma_targets_connected(b2, node, st2.next_node);
                        },
                        None => if has_key(s, nx) && !(st2.visited.len() <= st.visited.len() || st2.visited.len()
                            > s.len()) {
                            lemma_walk_targets(s, nx, action_for(s, nx), b2, st2, entry_len, depth);
                        },
                    },
                }
            }
        },
        NodeKind::Choice => {
            assert(choices_targets(Seq::<(Seq<char>, BuilderModel)>::empty()) =~= Seq::<BuildNodeId>::empty());
            lemma_branches_targets(s, cur, a.choices@, 0, Seq::empty(), st, entry_len, depth);
            lemma_branches_ids(s, cur, a.choices@, 0, Seq::empty(), st, entry_len, depth);
            let (res, st2) = branches(s, cur, a.choices@, 0, Seq::empty(), st, entry_len, depth);
            if res is Ok && st2.next_node < usize::MAX {
                let cs = res->Ok_0;
                let id = st2.next_node as usize;
                let n = NodeModel { id, text: Seq::empty(), choices: cs, manual_connections: Seq::empty() };
                lemma_targets_with_node(b, n);
                assert(node_targets(n) =~= choices_targets(cs));
                lemma_visit_vals(st2.visited, cur, id, st2.next_node + 1);
            }
        },
        _ => {},
    }
}

/// A successful pass over branches connects by hand only to nodes made
/// before the counter's final value, and records only such nodes.
proof fn lemma_branches_targets(
    s: Seq<(ActionId, Action)>,
    from: ActionId,
    cs: Seq<ChoiceData>,
    k: nat,
    acc: Seq<(Seq<char>, BuilderModel)>,
    st: PassState,
    entry_len: nat,
    depth: nat,
)
    requires
        st.next_node <= usize::MAX,
        all_below(choices_targets(acc), st.next_node),
        vals_below(st.visited, st.next_node),
    ensures
        branches(s, from, cs, k, acc, st, entry_len, depth).0 is Ok ==> all_below(
            choices_targets(branches(s, from, cs, k, acc, st, entry_len, depth).0->Ok_0),
            branches(s, from, cs, k, acc, st, entry_len, depth).1.next_node,
        ) && vals_below(
            branches(s, from, cs, k, acc, st, entry_len, depth).1.visited,
            branches(s, from, cs, k, acc, st, entry_len, depth).1.next_node,
        ),
    decreases s.len() - entry_len, s.len() + 1 - depth, 0int, cs.len() - k,
{
    if k < cs.len() {
        let c = cs[k as int];
        match visited_node(st.visited, c.next) {
            Some(node) => {
                let m = connected(empty_model(), node);
                lemma_visited_node_below(st.visited, c.next, st.next_node);
                assert(model_targets(empty_model()) =~= Seq::<BuildNodeId>::empty());
                lemma_targets_connected(empty_model(), node, st.next_node);
                lemma_targets_choice_push(acc, (c.text@, m));
                lemma_branches_targets(s, from, cs, k + 1, acc.push((c.text@, m)), st, entry_len, depth);
            },
            None => if has_key(s, c.next) && !(st.visited.len() < entry_len || st.visited.len() > s.len()) && !(
            st.visited.len() == entry_len && depth >= s.len()) {
                let child_depth: nat = if st.visited.len() > entry_len {
                    0
                } else {
                    depth + 1
                };
                assert(model_targets(empty_model()) =~= Seq::<BuildNodeId>::empty());
                lemma_walk_targets(s, c.next, action_for(s, c.next), empty_model(), st, st.visited.len(), child_depth);
                lemma_walk_ids(s, c.next, action_for(s, c.next), empty_model(), st, st.visited.len(), child_depth);
                let (r, st2) = walk(s, c.next, action_for(s, c.next), empty_model(), st, st.visited.len(), child_depth);
                if r is Ok {
                    let inner = r->Ok_0;
                    lemma_targets_choice_push(acc, (c.text@, inner));
                    lemma_branches_targets(s, from, cs, k + 1, acc.push((c.text@, inner)), st2, entry_len, depth);
                }
            },
        }
    }
}

/// Every connection made by hand in a built talk leads to a node of that
/// talk.
pub proof fn law_built_connections_resolve(s: Seq<(ActionId, Action)>)
    requires
        spec_into_builder(s) is Ok,
    ensures
        forall|i: int|
            0 <= i < model_targets(spec_into_builder(s)->Ok_0).len() ==> model_ids(
                spec_into_builder(s)->Ok_0,
            ).contains(#[trigger] model_targets(spec_into_builder(s)->Ok_0)[i]),
{
    let st0 = PassState { visited: Seq::empty(), next_node: 0 };
    let m = spec_into_builder(s)->Ok_0;
    lemma_built_ids(s);
    assert(model_targets(empty_model()) =~= Seq::<BuildNodeId>::empty());
    lemma_walk_targets(s, s[0].0, s[0].1, empty_model(), st0, 0, 0);
    let hi = walk(s, s[0].0, s[0].1, empty_model(), st0, 0, 0).1.next_node;
    let t = model_targets(m);
    assert forall|i: int| 0 <= i < t.len() implies model_ids(m).contains(#[trigger] t[i]) by {
        let x = t[i] as int;
        assert(model_ids(m)[x] == t[i]);
    }
}

/// Node `n` is the node made for action `a`: a talk action's node has its
/// text and no choice; a choice action's node has an empty text and one
/// choice per choice of the action, with its text.
pub open spec fn node_made_for(n: NodeModel, a: Action) -> bool {
    &&& a.kind == NodeKind::Talk ==> n.text == a.text@ && n.choices.len() == 0
    &&& a.kind == NodeKind::Choice ==> n.text == Seq::<char>::empty() && n.choices.len() == a.choices@.len() && forall|
        q: int,
    |
        0 <= q < n.choices.len() ==> (#[trigger] n.choices[q]).0 == a.choices@[q].text@
}

/// `r` keeps the nodes and the parent connection of `b`, and has more.
pub open spec fn keeps_prefix(b: BuilderModel, r: BuilderModel) -> bool {
    &&& b.nodes.len() < r.nodes.len()
    &&& r.connect_parent == b.connect_parent
    &&& forall|i: int| 0 <= i < b.nodes.len() ==> #[trigger] r.nodes[i] == b.nodes[i]
}

proof fn lemma_branches_texts(
    s: Seq<(ActionId, Action)>,
    from: ActionId,
    cs: Seq<ChoiceData>,
    k: nat,
    acc: Seq<(Seq<char>, BuilderModel)>,
    st: PassState,
    entry_len: nat,
    depth: nat,
)
    requires
        k <= cs.len(),
    ensures
        branches(s, from, cs, k, acc, st, entry_len, depth).0 is Ok ==> {
            let r = branches(s, from, cs, k, acc, st, entry_len, depth).0->Ok_0;
            &&& r.len() == acc.len() + cs.len() - k
            &&& forall|i: int| 0 <= i < acc.len() ==> #[trigger] r[i] == acc[i]
            &&& forall|q: int| k <= q < cs.len() ==> (#[trigger] r[acc.len() + q - k]).0 == cs[q].text@
        },
    decreases cs.len() - k,
{
    if k < cs.len() {
        let c = cs[k as int];
        match visited_node(st.visited, c.next) {
            Some(node) => {
                let acc2 = acc.push((c.text@, connected(empty_model(), node)));
                lemma_branches_texts(s, from, cs, k + 1, acc2, st, entry_len, depth);
                let res = branches(s, from, cs, k + 1, acc2, st, entry_len, depth);
                if res.0 is Ok {
                    let r = res.0->Ok_0;
                    assert(r[acc.len() as int] == acc2[acc.len() as int]);
                    assert forall|i: int| 0 <= i < acc.len() implies #[trigger] r[i] == acc[i] by {
                        assert(r[i] == acc2[i]);
                    }
                    assert forall|q: int| k <= q < cs.len() implies (#[trigger] r[acc.len() + q - k]).0
                        == cs[q].text@ by {
                        if q > k {
                            assert(r[acc2.len() + q - (k + 1)] == r[acc.len() + q - k]);
                        }
                    }
                }
            },
            None => if has_key(s, c.next) && !(st.visited.len() < entry_len || st.visited.len() > s.len()) && !(
            st.visited.len() == entry_len && depth >= s.len()) {
                let child_depth: nat = if st.visited.len() > entry_len {
                    0
                } else {
                    depth + 1
                };
                let (w, st2) = walk(s, c.next, action_for(s, c.next), empty_model(), st, st.visited.len(), child_depth);
                if w is Ok {
                    let acc2 = acc.push((c.text@, w->Ok_0));
                    lemma_branches_texts(s, from, cs, k + 1, acc2, st2, entry_len, depth);
                    let res = branches(s, from, cs, k + 1, acc2, st2, entry_len, depth);
                    if res.0 is Ok {
                        let r = res.0->Ok_0;
                        assert(r[acc.len() as int] == acc2[acc.len() as int]);
                        assert forall|i: int| 0 <= i < acc.len() implies #[trigger] r[i] == acc[i] by {
                            assert(r[i] == acc2[i]);
                        }
                        assert forall|q: int| k <= q < cs.len() implies (#[trigger] r[acc.len() + q - k]).0
                            == cs[q].text@ by {
                            if q > k {
                                assert(r[acc2.len() + q - (k + 1)] == r[acc.len() + q - k]);
                            }
                        }
                    }
                }
            },
        }
    }
}

/// A successful pass keeps the builder's nodes, and the node after them is
/// the node made for the action the pass starts from.
proof fn lemma_walk_first(
    s: Seq<(ActionId, Action)>,
    cur: ActionId,
    a: Action,
    b: BuilderModel,
    st: PassState,
    entry_len: nat,
    depth: nat,
)
    ensures
        walk(s, cur, a, b, st, entry_len, depth).0 is Ok ==> keeps_prefix(
            b,
            walk(s, cur, a, b, st, entry_len, depth).0->Ok_0,
        ) && node_made_for(walk(s, cur, a, b, st, entry_len, depth).0->Ok_0.nodes[b.nodes.len() as int], a),
    decreases s.len() - entry_len, s.len() + 1 - depth, 1int, s.len() - st.visited.len(),
{
    match a.kind {
        NodeKind::Talk => {
            if st.next_node < usize::MAX {
                let id = st.next_node as usize;
                let n = NodeModel { id, text: a.text@, choices: Seq::empty(), manual_connections: Seq::empty() };
                let b2 = with_node(b, n);
                let st2 = PassState { visited: visit(st.visited, cur, id), next_node: st.next_node + 1 };
                assert(b2.nodes[b.nodes.len() as int] == n);
                match a.next {
                    None => {},
                    Some(nx) => match visited_node(st2.visited, nx) {
                        Some(node) => {
                            let c = connected(b2, node);
                            assert(c.nodes[b.nodes.len() as int].text == n.text);
                            assert forall|i: int| 0 <= i < b.nodes.len() implies #[trigger] c.nodes[i] == b.nodes[i] by {
                                assert(b2.nodes[i] == b.nodes[i]);
                            }
                        },
                        None => if has_key(s, nx) && !(st2.visited.len() <= st.visited.len() || st2.visited.len()
                            > s.len()) {
                            lemma_walk_first(s, nx, action_for(s, nx), b2, st2, entry_len, depth);
                            let w = walk(s, nx, action_for(s, nx), b2, st2, entry_len, depth);
                            if w.0 is Ok {
                                let r = w.0->Ok_0;
                                assert(r.nodes[b.nodes.len() as int] == b2.nodes[b.nodes.len() as int]);
                                assert forall|i: int| 0 <= i < b.nodes.len() implies #[trigger] r.nodes[i]
                                    == b.nodes[i] by {
                                    assert(r.nodes[i] == b2.nodes[i]);
                                }
                            }
                        },
                    },
                }
            }
        },
        NodeKind::Choice => {
            lemma_branches_texts(s, cur, a.choices@, 0, Seq::empty(), st, entry_len, depth);
            let (res, st2) = branches(s, cur, a.choices@, 0, Seq::empty(), st, entry_len, depth);
            if res is Ok && st2.next_node < usize::MAX {
                let cs = res->Ok_0;
                let id = st2.next_node as usize;
                let n = NodeModel { id, text: Seq::empty(), choices: cs, manual_connections: Seq::empty() };
                let r = with_node(b, n);
                assert(r.nodes[b.nodes.len() as int] == n);
                assert forall|q: int| 0 <= q < n.choices.len() implies (#[trigger] n.choices[q]).0
                    == a.choices@[q].text@ by {
                    assert(cs[0 + q - 0] == cs[q]);
                }
            }
        },
        _ => {},
    }
}

/// A built talk starts with the node made for the script's first action,
/// and its graph leads from the start node to that node.
pub proof fn law_built_talk_starts_at_first_action(s: Seq<(ActionId, Action)>)
    requires
        spec_into_builder(s) is Ok,
    ensures
        spec_into_builder(s)->Ok_0.nodes.len() > 0,
        node_made_for(spec_into_builder(s)->Ok_0.nodes[0], s[0].1),
        spec_talk_graph(spec_into_builder(s)->Ok_0).edges.contains(
            (GraphNode::Start, spec_into_builder(s)->Ok_0.nodes[0].id),
        ),
{
    let st0 = PassState { visited: Seq::empty(), next_node: 0 };
    lemma_walk_first(s, s[0].0, s[0].1, empty_model(), st0, 0, 0);
    law_graph_follows_nodes(spec_into_builder(s)->Ok_0, 0);
}

/// The action reached from `a` by following `next` links `i` times.
pub open spec fn follow_next(s: Seq<(ActionId, Action)>, a: Action, i: nat) -> Action
    decreases i,
{
    if i == 0 {
        a
    } else {
        follow_next(s, action_for(s, a.next->0), (i - 1) as nat)
    }
}

/// A successful pass from `cur` adds nodes, in order, for `a` and for the
/// actions its `next` links lead to; every one but the last is made for a
/// talk action with a `next`.
proof fn lemma_walk_chain(
    s: Seq<(ActionId, Action)>,
    cur: ActionId,
    a: Action,
    b: BuilderModel,
    st: PassState,
    entry_len: nat,
    depth: nat,
)
    ensures
        walk(s, cur, a, b, st, entry_len, depth).0 is Ok ==> {
            let r = walk(s, cur, a, b, st, entry_len, depth).0->Ok_0;
            &&& keeps_prefix(b, r)
            &&& forall|i: nat|
                b.nodes.len() + i < r.nodes.len() ==> node_made_for(
                    #[trigger] r.nodes[(b.nodes.len() + i) as int],
                    follow_next(s, a, i),
                )
            &&& forall|i: nat|
                b.nodes.len() + i + 1 < r.nodes.len() ==> (#[trigger] follow_next(s, a, i)).kind == NodeKind::Talk
                    && follow_next(s, a, i).next is Some
        },
    decreases s.len() - entry_len, s.len() + 1 - depth, 1int, s.len() - st.visited.len(),
{
    lemma_walk_first(s, cur, a, b, st, entry_len, depth);
    let w = walk(s, cur, a, b, st, entry_len, depth);
    if w.0 is Ok {
        let r = w.0->Ok_0;
        match a.kind {
            NodeKind::Talk => {
                let id = st.next_node as usize;
                let n = NodeModel { id, text: a.text@, choices: Seq::empty(), manual_connections: Seq::empty() };
                let b2 = with_node(b, n);
                let st2 = PassState { visited: visit(st.visited, cur, id), next_node: st.next_node + 1 };
                match a.next {
                    None => {
                        assert(r.nodes.len() == b.nodes.len() + 1);
                    },
                    Some(nx) => match visited_node(st2.visited, nx) {
                        Some(node) => {
                            assert(r.nodes.len() == b.nodes.len() + 1);
                        },
                        None => {
                            lemma_walk_chain(s, nx, action_for(s, nx), b2, st2, entry_len, depth);
                            assert forall|i: nat| b.nodes.len() + i < r.nodes.len() implies node_made_for(
                                #[trigger] r.nodes[(b.nodes.len() + i) as int],
                                follow_next(s, a, i),
                            ) by {
                                if i > 0 {
                                    let j = (i - 1) as nat;
                                    assert(b2.nodes.len() + j == b.nodes.len() + i);
                                    assert(follow_next(s, a, i) == follow_next(s, action_for(s, nx), j));
                                }
                            }
                            assert forall|i: nat| b.nodes.len() + i + 1 < r.nodes.len() implies (
                            #[trigger] follow_next(s, a, i)).kind == NodeKind::Talk && follow_next(s, a, i).next is Some by {
                                if i > 0 {
                                    let j = (i - 1) as nat;
                                    assert(b2.nodes.len() + j + 1 == b.nodes.len() + i + 1);
                                    assert(follow_next(s, a, i) == follow_next(s, action_for(s, nx), j));
                                }
                            }
                        },
                    },
                }
            },
            _ => {
                assert(r.nodes.len() == b.nodes.len() + 1);
            },
        }
    }
}

/// A built talk follows its script: its nodes are made, in order, for the
/// first action and for the actions reached from it by `next` links; each
/// node but the last is a talk action's node, and the graph links it to the
/// node after it.
pub proof fn law_built_talk_follows_script(s: Seq<(ActionId, Action)>)
    requires
        spec_into_builder(s) is Ok,
    ensures
        forall|k: nat|
            k < spec_into_builder(s)->Ok_0.nodes.len() ==> node_made_for(
                #[trigger] spec_into_builder(s)->Ok_0.nodes[k as int],
                follow_next(s, s[0].1, k),
            ),
        forall|k: nat|
            k + 1 < spec_into_builder(s)->Ok_0.nodes.len() ==> (#[trigger] follow_next(s, s[0].1, k)).kind
                == NodeKind::Talk && follow_next(s, s[0].1, k).next is Some && spec_talk_graph(
                spec_into_builder(s)->Ok_0,
            ).edges.contains(
                (
                    GraphNode::Node(spec_into_builder(s)->Ok_0.nodes[k as int].id),
                    spec_into_builder(s)->Ok_0.nodes[(k + 1) as int].id,
                ),
            ),
{
    let st0 = PassState { visited: Seq::empty(), next_node: 0 };
    lemma_walk_chain(s, s[0].0, s[0].1, empty_model(), st0, 0, 0);
    let m = spec_into_builder(s)->Ok_0;
    assert(empty_model().nodes.len() == 0);
    assert forall|k: nat| k < m.nodes.len() implies node_made_for(#[trigger] m.nodes[k as int], follow_next(s, s[0].1, k)) by {
        assert(0 + k == k);
    }
    assert forall|k: nat| k + 1 < m.nodes.len() implies (#[trigger] follow_next(s, s[0].1, k)).kind == NodeKind::Talk
        && follow_next(s, s[0].1, k).next is Some && spec_talk_graph(m).edges.contains(
        (GraphNode::Node(m.nodes[k as int].id), m.nodes[(k + 1) as int].id),
    ) by {
        assert(0 + k + 1 == k + 1);
        assert(node_made_for(m.nodes[k as int], follow_next(s, s[0].1, k)));
        law_graph_follows_nodes(m, (k + 1) as int);
    }
}

proof fn lemma_no_match<T>(s: Seq<T>, p: spec_fn(T) -> bool)
    requires
        first_match(s, p) is None,
    ensures
        forall|j: int| 0 <= j < s.len() ==> !p(#[trigger] s[j]),
{
    assert forall|j: int| 0 <= j < s.len() implies !p(#[trigger] s[j]) by {
        if p(s[j]) {
            lemma_first_match_some(s, p, j);
        }
    }
}

/// Pairs that name each action once, all of `s`, are no more than `s`.
proof fn lemma_visited_len(s: Seq<(ActionId, Action)>, v: Seq<(ActionId, BuildNodeId)>)
    requires
        visited_ok(s, v),
    ensures
        v.len() <= s.len(),
{
    let kv = v.map_values(|p: (ActionId, BuildNodeId)| p.0);
    let ks = s.map_values(|e: (ActionId, Action)| e.0);
    assert(kv.no_duplicates()) by {
        assert forall|i: int, j: int| 0 <= i < kv.len() && 0 <= j < kv.len() && i != j implies kv[i] != kv[j] by {
            if i < j {
                assert(v[i].0 != v[j].0);
            } else {
                assert(v[j].0 != v[i].0);
            }
        }
    }
    kv.unique_seq_to_set();
    ks.lemma_cardinality_of_set();
    assert(kv.to_set().subset_of(ks.to_set())) by {
        assert forall|x: ActionId| kv.to_set().contains(x) implies ks.to_set().contains(x) by {
            let i = choose|i: int| 0 <= i < kv.len() && kv[i] == x;
            assert(has_key(s, v[i].0));
            let j = choose|j: int| 0 <= j < s.len() && s[j].0 == v[i].0;
            assert(ks[j] == x);
        }
    }
    vstd::set_lib::lemma_len_subset(kv.to_set(), ks.to_set());
}

/// With unique keys, an entry with key `k` holds the action for `k`.
proof fn lemma_action_for(s: Seq<(ActionId, Action)>, k: ActionId, i: int)
    requires
        keys_unique(s),
        0 <= i < s.len(),
        s[i].0 == k,
    ensures
        action_for(s, k) == s[i].1,
{
    assert forall|j: int| 0 <= j < i implies !is_entry_of(k)(#[trigger] s[j]) by {
        assert(s[j].0 != s[i].0);
    }
    assert(is_first_match(s, is_entry_of(k), i));
    lemma_first_match_is(s, is_entry_of(k), i);
}

/// The position of the pair of action `k`, if any.
fn find_visited(v: &Vec<(ActionId, BuildNodeId)>, k: ActionId) -> (r: Option<usize>)
    ensures
        match r {
            Some(i) => first_match(v@, is_key(k)) == Some(i as int) && i < v@.len(),
            None => first_match(v@, is_key(k)) is None,
        },
{
    let mut i: usize = 0;
    while i < v.len()
        invariant
            i <= v@.len(),
            forall|j: int| 0 <= j < i ==> !is_key(k)(#[trigger] v@[j]),
        decreases v@.len() - i,
    {
        if v[i].0 == k {
            proof {
                assert(is_first_match(v@, is_key(k), i as int));
                lemma_first_match_is(v@, is_key(k), i as int);
            }
            return Some(i);
        }
        i = i + 1;
    }
    proof {
        crate::first::lemma_first_match_none(v@, is_key(k));
    }
    None
}

/// Records node `id` for action `k`.
fn visit_node(v: &mut Vec<(ActionId, BuildNodeId)>, k: ActionId, id: BuildNodeId)
    ensures
        final(v)@ == visit(old(v)@, k, id),
{
    match find_visited(v, k) {
        Some(i) => {
            v.set(i, (k, id));
        },
        None => {
            v.push((k, id));
        },
    }
}

proof fn lemma_visit_ok(s: Seq<(ActionId, Action)>, v: Seq<(ActionId, BuildNodeId)>, k: ActionId, id: BuildNodeId)
    requires
        visited_ok(s, v),
        has_key(s, k),
    ensures
        visited_ok(s, visit(v, k, id)),
        visit(v, k, id).len() >= v.len(),
        visited_node(v, k) is None ==> visit(v, k, id).len() == v.len() + 1,
{
    match first_match(v, is_key(k)) {
        Some(i) => {
            lemma_first_match_some_is(v, is_key(k));
            let w = visit(v, k, id);
            assert forall|a: int| 0 <= a < w.len() implies has_key(s, #[trigger] w[a].0) by {
                if a != i {
                    assert(w[a] == v[a]);
                }
            }
            assert forall|a: int, b: int| 0 <= a < b < w.len() implies w[a].0 != w[b].0 by {
                assert(w[a].0 == v[a].0);
                assert(w[b].0 == v[b].0);
            }
        },
        None => {
            lemma_no_match(v, is_key(k));
            let w = visit(v, k, id);
            assert forall|a: int| 0 <= a < w.len() implies has_key(s, #[trigger] w[a].0) by {
                if a < v.len() {
                    assert(w[a] == v[a]);
                }
            }
            assert forall|a: int, b: int| 0 <= a < b < w.len() implies w[a].0 != w[b].0 by {
                assert(w[a] == v[a]);
                if b == v.len() {
                    assert(!is_key(k)(v[a]));
                } else {
                    assert(w[b] == v[b]);
                }
            }
        },
    }
}

proof fn lemma_first_match_some_is<T>(s: Seq<T>, p: spec_fn(T) -> bool)
    requires
        first_match(s, p) is Some,
    ensures
        is_first_match(s, p, first_match(s, p)->0),
{
}

/// The pass from action `start`, adding to `builder`; `visited` and
/// `next_node` carry the pass's state, `depth` as in [`walk`].
fn build_pass(
    start: ActionId,
    actions: &IndexMap<ActionId, Action, RandomState>,
    builder: TalkBuilder,
    visited: &mut Vec<(ActionId, BuildNodeId)>,
    next_node: &mut usize,
    depth: usize,
) -> (r: Result<TalkBuilder, BuildTalkError>)
    requires
        keys_unique(script_entries(*actions)),
        has_key(script_entries(*actions), start),
        visited_ok(script_entries(*actions), old(visited)@),
        visited_node(old(visited)@, start) is None,
        depth <= script_entries(*actions).len(),
    ensures
        (result_model(r), PassState { visited: final(visited)@, next_node: *final(next_node) as nat }) == walk(
            script_entries(*actions),
            start,
            action_for(script_entries(*actions), start),
            builder@,
            PassState { visited: old(visited)@, next_node: *old(next_node) as nat },
            old(visited)@.len(),
            depth as nat,
        ),
        visited_ok(script_entries(*actions), final(visited)@),
        old(visited)@.len() <= final(visited)@.len(),
    decreases script_entries(*actions).len() - old(visited)@.len(), script_entries(*actions).len() + 1 - depth,
{
    let ghost s = script_entries(*actions);
    let ghost builder0 = builder@;
    let ghost target = walk(
        s,
        start,
        action_for(s, start),
        builder@,
        PassState { visited: visited@, next_node: *next_node as nat },
        visited@.len(),
        depth as nat,
    );
    let n = script_len(actions);
    let entry_len = visited.len();
    let mut plan = builder;
    let mut the_id = start;
    let mut the_action = match script_get(actions, start) {
        Some(a) => a,
        None => {
            proof {
                assert(false);
            }
            return Err(BuildTalkError::EmptyTalk);
        },
    };
    proof {
        let i = choose|i: int| 0 <= i < s.len() && s[i].0 == start && *the_action == crate::script_map::entry_action(s[i]);
        lemma_action_for(s, start, i);
        lemma_visited_len(s, visited@);
    }
    loop
        invariant
            s == script_entries(*actions),
            n == s.len(),
            keys_unique(s),
            depth <= n,
            entry_len == old(visited)@.len(),
            builder@ == builder0,
            target == walk(
                s,
                start,
                action_for(s, start),
                builder0,
                PassState { visited: old(visited)@, next_node: *old(next_node) as nat },
                old(visited)@.len(),
                depth as nat,
            ),
            entry_len <= visited@.len() <= n,
            visited_ok(s, visited@),
            has_key(s, the_id),
            visited_node(visited@, the_id) is None,
            *the_action == action_for(s, the_id),
            walk(
                s,
                the_id,
                *the_action,
                plan@,
                PassState { visited: visited@, next_node: *next_node as nat },
                entry_len as nat,
                depth as nat,
            ) == target,
        decreases n - visited@.len(),
    {
        let ghost st = PassState { visited: visited@, next_node: *next_node as nat };
        let ghost b0 = plan@;
        match the_action.kind {
            NodeKind::Join => {
                return Err(BuildTalkError::UnsupportedAction(the_id));
            },
            NodeKind::Leave => {
                return Err(BuildTalkError::UnsupportedAction(the_id));
            },
            NodeKind::Talk => {
                if *next_node == usize::MAX {
                    return Err(BuildTalkError::TooManyNodes);
                }
                let id = *next_node;
                *next_node = id + 1;
                plan = plan.say(the_action.text.clone(), id);
                proof {
                    lemma_visit_ok(s, visited@, the_id, id);
                }
                visit_node(visited, the_id, id);
                proof {
                    lemma_visited_len(s, visited@);
                }
                match the_action.next {
                    None => {
                        return Ok(plan);
                    },
                    Some(nx) => {
                        match find_visited(visited, nx) {
                            Some(i) => {
                                let node = visited[i].1;
                                return Ok(plan.connect_to(node));
                            },
                            None => {
                                match script_get(actions, nx) {
                                    None => {
                                        return Err(BuildTalkError::InvalidNextAction(the_id, nx));
                                    },
                                    Some(a) => {
                                        proof {
                                            let i = choose|i: int|
                                                0 <= i < s.len() && s[i].0 == nx && *a
                                                    == crate::script_map::entry_action(s[i]);
                                            lemma_action_for(s, nx, i);
                                        }
                                        the_action = a;
                                        the_id = nx;
                                    },
                                }
                            },
                        }
                    },
                }
            },
            NodeKind::Choice => {
                let cs = &the_action.choices;
                let ghost st_c = st;
                let mut choice_vec: Vec<(String, TalkBuilder)> = Vec::new();
                let mut k: usize = 0;
                while k < cs.len()
                    invariant
                        s == script_entries(*actions),
                        n == s.len(),
                        keys_unique(s),
                        depth <= n,
                        entry_len <= visited@.len() <= n,
                        visited_ok(s, visited@),
                        has_key(s, the_id),
                        k <= cs@.len(),
                        entry_len == old(visited)@.len(),
                        builder@ == builder0,
                        target == walk(
                            s,
                            start,
                            action_for(s, start),
                            builder0,
                            PassState { visited: old(visited)@, next_node: *old(next_node) as nat },
                            old(visited)@.len(),
                            depth as nat,
                        ),
                        the_action.kind == NodeKind::Choice,
                        cs@ == the_action.choices@,
                        walk(s, the_id, *the_action, plan@, st_c, entry_len as nat, depth as nat) == target,
                        branches(s, the_id, cs@, 0, Seq::empty(), st_c, entry_len as nat, depth as nat) == branches(
                            s,
                            the_id,
                            cs@,
                            k as nat,
                            choice_models(choice_vec@),
                            PassState { visited: visited@, next_node: *next_node as nat },
                            entry_len as nat,
                            depth as nat,
                        ),
                    decreases cs@.len() - k,
                {
                    let text = cs[k].text.clone();
                    let nx = cs[k].next;
                    let ghost before = choice_vec@;
                    match find_visited(visited, nx) {
                        Some(i) => {
                            let node = visited[i].1;
                            let inner = TalkBuilder::new().connect_to(node);
                            choice_vec.push((text, inner));
                            proof {
                                lemma_choice_models_push(before, (text, inner));
                            }
                        },
                        None => {
                            if !script_contains_key(actions, nx) {
                                return Err(BuildTalkError::InvalidNextAction(the_id, nx));
                            }
                            if visited.len() == entry_len && depth >= n {
                                return Err(BuildTalkError::ChoiceCycle(nx));
                            }
                            let child_depth = if visited.len() > entry_len {
                                0
                            } else {
                                depth + 1
                            };
                            let res = build_pass(nx, actions, TalkBuilder::new(), visited, next_node, child_depth);
                            match res {
                                Err(e) => {
                                    return Err(e);
                                },
                                Ok(inner) => {
                                    choice_vec.push((text, inner));
                                    proof {
                                        lemma_choice_models_push(before, (text, inner));
                                        lemma_visited_len(s, visited@);
                                    }
                                },
                            }
                        },
                    }
                    k = k + 1;
                }
                if *next_node == usize::MAX {
                    return Err(BuildTalkError::TooManyNodes);
                }
                let id = *next_node;
                *next_node = id + 1;
                let built = plan.choose_branches(choice_vec, id);
                proof {
                    lemma_visit_ok(s, visited@, the_id, id);
                }
                visit_node(visited, the_id, id);
                return Ok(built);
            },
        }
    }
}

impl TalkData {
    /// The builder for this talk: refused when the script is empty or when an
    /// action leads to a missing one; otherwise built from the first action
    /// on.
    pub fn into_builder(self) -> (r: Result<TalkBuilder, BuildTalkError>)
        requires
            keys_unique(script_entries(self.script)),
        ensures
            result_model(r) == spec_into_builder(script_entries(self.script)),
    {
        let ghost s = script_entries(self.script);
        let n = script_len(&self.script);
        if n == 0 {
            return Err(BuildTalkError::EmptyTalk);
        }
        match validate_all_nexts(&self.script) {
            Ok(()) => {},
            Err(e) => {
                match e {
                    RonLoaderError::InvalidNextAction(a, b) => {
                        return Err(BuildTalkError::InvalidNextAction(a, b));
                    },
                    _ => {
                        proof {
                            assert(false);
                        }
                        return Err(BuildTalkError::EmptyTalk);
                    },
                }
            },
        }
        let start = script_key_at(&self.script, 0);
        let mut visited: Vec<(ActionId, BuildNodeId)> = Vec::new();
        let mut next_node: usize = 0;
        proof {
            lemma_action_for(s, start, 0);
            assert(has_key(s, start));
            crate::first::lemma_first_match_none(visited@, is_key(start));
        }
        build_pass(start, &self.script, TalkBuilder::new(), &mut visited, &mut next_node, 0)
    }
}

} // verus!
