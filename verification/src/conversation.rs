//! A conversation built from a list of dialogues: the dialogues become the
//! nodes of a directed graph, linked to the dialogue they name as `next`,
//! or (without a `next`) carrying one edge per choice.

use vstd::prelude::*;

use std::collections::HashMap;

use petgraph::graph::DiGraph;

use crate::dialogue::Dialogue;
use crate::dialogue_line::Choice;
use crate::first::{first_match, lemma_first_match_is, lemma_first_match_none};
use crate::graph::{add_edge, add_node, edge_count, graph_edges, graph_nodes, new_graph, node_count};

verus! {

broadcast use vstd::std_specs::hash::group_hash_axioms;

/// Why a list of dialogues does not make a conversation.
#[derive(Debug, Clone, PartialEq, Eq)]
pub enum ConversationError {
    /// An empty dialogue list was used to build the conversation.
    NoDialogues,
    /// The dialogue with the first id points to the second id, which was not found.
    NextDialogueNotFound(i32, i32),
    /// The dialogue tree cannot be built, for the reason given.
    InvalidDialogueTree(String),
    /// The dialogue with this id has the same id as another dialogue.
    RepeatedId(i32),
}

/// A conversation: the dialogue graph and the current node.
#[derive(Debug)]
pub struct Conversation {
    /// The dialogue graph.
    graph: DiGraph<Box<Dialogue>, ()>,
    /// Index of the current node.
    current: usize,
}

// ---------------------------------------------------------------------------
// The model.
// ---------------------------------------------------------------------------

/// The predicate "has this id".
pub open spec fn dialogue_has_id(id: i32) -> spec_fn(Dialogue) -> bool {
    |d: Dialogue| d.id == id
}

/// Whether some dialogue of the list has the id.
pub open spec fn has_dialogue(ds: Seq<Dialogue>, id: i32) -> bool {
    exists|i: int| 0 <= i < ds.len() && (#[trigger] ds[i]).id == id
}

/// The predicate "is a dialogue whose id occurred before it" (position-wise).
pub open spec fn repeats_earlier(ds: Seq<Dialogue>, i: int) -> bool {
    exists|j: int| 0 <= j < i && ds[j].id == ds[i].id
}

/// The first position whose id repeats an earlier one.
pub open spec fn first_repeat(ds: Seq<Dialogue>) -> Option<int> {
    first_match(Seq::new(ds.len(), |i: int| i), |i: int| repeats_earlier(ds, i))
}

/// The predicate "is a choice leading to no dialogue of the list".
pub open spec fn choice_dangles(ds: Seq<Dialogue>) -> spec_fn(Choice) -> bool {
    |c: Choice| !has_dialogue(ds, c.next)
}

/// The id a dialogue leads to that no dialogue of the list has: its `next`
/// when it has one, else its first dangling choice.
pub open spec fn missing_target(ds: Seq<Dialogue>, d: Dialogue) -> Option<i32> {
    match d.next {
        Some(n) => if has_dialogue(ds, n) {
            None
        } else {
            Some(n)
        },
        None => match d.choices {
            Some(cs) => match first_match(cs@, choice_dangles(ds)) {
                Some(k) => Some(cs@[k].next),
                None => None,
            },
            None => None,
        },
    }
}

/// The predicate "leads to a missing dialogue".
pub open spec fn dangles(ds: Seq<Dialogue>) -> spec_fn(Dialogue) -> bool {
    |d: Dialogue| missing_target(ds, d) is Some
}

/// The position of the dialogue with the id `id`.
pub open spec fn position_of(ds: Seq<Dialogue>, id: i32) -> int {
    first_match(ds, dialogue_has_id(id))->0
}

/// The edges contributed by the dialogue at position `i`: one to the
/// position of its `next`, or else one to the position each choice leads
/// to.
pub open spec fn edges_for(ds: Seq<Dialogue>, i: int) -> Seq<(int, int)> {
    match ds[i].next {
        Some(n) => seq![(i, position_of(ds, n))],
        None => match ds[i].choices {
            Some(cs) => Seq::new(cs@.len(), |k: int| (i, position_of(ds, cs@[k].next))),
            None => Seq::empty(),
        },
    }
}

/// The edges of the dialogues before position `n`, in order.
pub open spec fn edges_upto(ds: Seq<Dialogue>, n: int) -> Seq<(int, int)>
    decreases n,
{
    if n <= 0 {
        Seq::empty()
    } else {
        edges_upto(ds, n - 1) + edges_for(ds, n - 1)
    }
}

/// How many edges the dialogues before position `n` contribute at most.
pub open spec fn edge_budget(ds: Seq<Dialogue>, n: int) -> int
    decreases n,
{
    if n <= 0 {
        0
    } else {
        edge_budget(ds, n - 1) + match ds[n - 1].next {
            Some(_) => 1int,
            None => match ds[n - 1].choices {
                Some(cs) => cs@.len() as int,
                None => 0int,
            },
        }
    }
}

/// The outcome of building a conversation from a list of dialogues: no
/// dialogue, a repeated id (the first repetition), a dangling target (the
/// first dialogue leading to a missing one), or success.
pub open spec fn build_error(ds: Seq<Dialogue>) -> Option<ConversationError> {
    if ds.len() == 0 {
        Some(ConversationError::NoDialogues)
    } else {
        match first_repeat(ds) {
            Some(i) => Some(ConversationError::RepeatedId(ds[i].id)),
            None => match first_match(ds, dangles(ds)) {
                Some(i) => Some(
                    ConversationError::NextDialogueNotFound(ds[i].id, missing_target(ds, ds[i])->0),
                ),
                None => None,
            },
        }
    }
}

impl Conversation {
    /// The dialogues of the graph, in node order.
    pub closed spec fn nodes(&self) -> Seq<Dialogue> {
        graph_nodes(self.graph)
    }

    /// The edges of the graph, in order.
    pub closed spec fn edges(&self) -> Seq<(int, int)> {
        graph_edges(self.graph)
    }

    /// The index of the current node.
    pub closed spec fn current_node(&self) -> int {
        self.current as int
    }

    /// Builds the conversation graph of a list of dialogues, checking that
    /// the list is not empty, that ids are unique, and that every `next`
    /// (or, without a `next`, every choice) leads to a dialogue of the list.
    pub fn new(ds: Vec<Dialogue>) -> (r: Result<Conversation, ConversationError>)
        requires
            ds@.len() < u32::MAX,
            edge_budget(ds@, ds@.len() as int) < u32::MAX,
        ensures
            match build_error(ds@) {
                Some(e) => r == Err::<Conversation, ConversationError>(e),
                None => r is Ok && r->Ok_0.nodes() == ds@ && r->Ok_0.edges() == edges_upto(
                    ds@,
                    ds@.len() as int,
                ) && r->Ok_0.current_node() == 0,
            },
    {
        if ds.len() == 0 {
            return Err(ConversationError::NoDialogues);
        }
        let ghost all = ds@;
        // Index each id by its position, stopping at the first repeated id.
        let mut index: HashMap<i32, usize> = HashMap::new();
        let mut i: usize = 0;
        while i < ds.len()
            invariant
                i <= ds@.len(),
                all == ds@,
                forall|a: int| 0 <= a < i ==> !repeats_earlier(all, a),
                forall|id: i32|
                    #![trigger index@.contains_key(id)]
                    index@.contains_key(id) <==> exists|a: int| 0 <= a < i && all[a].id == id,
                forall|id: i32|
                    #![trigger index@[id]]
                    index@.contains_key(id) ==> index@[id] < i && all[index@[id] as int].id == id,
            decreases ds@.len() - i,
        {
            let id = ds[i].id;
            if index.contains_key(&id) {
                proof {
                    let j = index@[id] as int;
                    assert(repeats_earlier(all, i as int));
                    let s = Seq::new(all.len(), |q: int| q);
                    assert(s[i as int] == i as int);
                    assert forall|q: int| 0 <= q < i implies !(|x: int| repeats_earlier(all, x))(
                        #[trigger] s[q],
                    ) by {
                        assert(s[q] == q);
                    }
                    lemma_first_match_is(s, |x: int| repeats_earlier(all, x), i as int);
                }
                return Err(ConversationError::RepeatedId(id));
            }
            index.insert(id, i);
            i = i + 1;
        }
        proof {
            let s = Seq::new(all.len(), |q: int| q);
            assert forall|q: int| 0 <= q < s.len() implies !(|x: int| repeats_earlier(all, x))(
                #[trigger] s[q],
            ) by {
                assert(s[q] == q);
            }
            lemma_first_match_none(s, |x: int| repeats_earlier(all, x));
        }
        // Check every target before building, recording what leads where.
        let mut j: usize = 0;
        while j < ds.len()
            invariant
                j <= ds@.len(),
                all == ds@,
                first_repeat(all) is None,
                forall|a: int| 0 <= a < all.len() ==> !repeats_earlier(all, a),
                forall|id: i32|
                    #![trigger index@.contains_key(id)]
                    index@.contains_key(id) <==> has_dialogue(all, id),
                forall|id: i32|
                    #![trigger index@[id]]
                    index@.contains_key(id) ==> index@[id] < all.len() && all[index@[id] as int].id == id,
                forall|a: int| 0 <= a < j ==> !(#[trigger] dangles(all)(all[a])),
            decreases ds@.len() - j,
        {
            let d = &ds[j];
            match d.next {
                Some(n) => {
                    if !index.contains_key(&n) {
                        proof {
                            self::lemma_first_dangling(all, j as int);
                        }
                        return Err(ConversationError::NextDialogueNotFound(d.id, n));
                    }
                },
                None => match &d.choices {
                    Some(cs) => {
                        let mut k: usize = 0;
                        while k < cs.len()
                            invariant
                                k <= cs@.len(),
                                all == ds@,
                                j < all.len(),
                                *d == all[j as int],
                                d.choices == Some(*cs),
                                d.next is None,
                                first_repeat(all) is None,
                                forall|a: int| 0 <= a < j ==> !(#[trigger] dangles(all)(all[a])),
                                forall|id: i32|
                                    #![trigger index@.contains_key(id)]
                                    index@.contains_key(id) <==> has_dialogue(all, id),
                                forall|m: int| 0 <= m < k ==> !(#[trigger] choice_dangles(all)(cs@[m])),
                            decreases cs@.len() - k,
                        {
                            if !index.contains_key(&cs[k].next) {
                                proof {
                                    lemma_first_match_is(cs@, choice_dangles(all), k as int);
                                    assert(missing_target(all, all[j as int]) == Some(cs@[k as int].next));
                                    self::lemma_first_dangling(all, j as int);
                                }
                                return Err(ConversationError::NextDialogueNotFound(d.id, cs[k].next));
                            }
                            k = k + 1;
                        }
                        proof {
                            lemma_first_match_none(cs@, choice_dangles(all));
                        }
                    },
                    None => {},
                },
            }
            j = j + 1;
        }
        proof {
            lemma_first_match_none(all, dangles(all));
        }
        // Record the targets, then move the dialogues into the graph.
        let mut targets: Vec<(Option<usize>, Vec<usize>)> = Vec::new();
        let mut t: usize = 0;
        while t < ds.len()
            invariant
                t <= ds@.len(),
                all == ds@,
                forall|id: i32|
                    #![trigger index@.contains_key(id)]
                    index@.contains_key(id) <==> has_dialogue(all, id),
                forall|id: i32|
                    #![trigger index@[id]]
                    index@.contains_key(id) ==> index@[id] < all.len() && all[index@[id] as int].id == id,
                forall|a: int| 0 <= a < all.len() ==> !repeats_earlier(all, a),
                forall|a: int| 0 <= a < all.len() ==> !(#[trigger] dangles(all)(all[a])),
                targets@.len() == t,
                forall|a: int| 0 <= a < t ==> #[trigger] target_ok(all, a, targets@[a]),
            decreases ds@.len() - t,
        {
            let d = &ds[t];
            let entry = match d.next {
                Some(n) => {
                    assert(!dangles(all)(all[t as int]));
                    let p = match index.get(&n) {
                        Some(p) => *p,
                        None => 0,
                    };
                    proof {
                        assert(has_dialogue(all, n));
                        assert(index@.contains_key(n));
                        self::lemma_position_of(all, n, p as int);
                    }
                    (Some(p), Vec::new())
                },
                None => match &d.choices {
                    Some(cs) => {
                        let mut ps: Vec<usize> = Vec::new();
                        let mut k: usize = 0;
                        while k < cs.len()
                            invariant
                                k <= cs@.len(),
                                all == ds@,
                                t < all.len(),
                                *d == all[t as int],
                                d.next is None,
                                d.choices == Some(*cs),
                                !dangles(all)(all[t as int]),
                                forall|a: int| 0 <= a < all.len() ==> !repeats_earlier(all, a),
                                forall|id: i32|
                                    #![trigger index@.contains_key(id)]
                                    index@.contains_key(id) <==> has_dialogue(all, id),
                                forall|id: i32|
                                    #![trigger index@[id]]
                                    index@.contains_key(id) ==> index@[id] < all.len() && all[index@[id] as int].id
                                        == id,
                                ps@.len() == k,
                                forall|q: int|
                                    0 <= q < k ==> ps@[q] < all.len() && first_match(
                                        all,
                                        dialogue_has_id(cs@[q].next),
                                    ) == Some(#[trigger] ps@[q] as int),
                            decreases cs@.len() - k,
                        {
                            let nx = cs[k].next;
                            proof {
                                if !has_dialogue(all, nx) {
                                    crate::first::lemma_first_match_some(cs@, choice_dangles(all), k as int);
                                }
                            }
                            let p = match index.get(&nx) {
                                Some(p) => *p,
                                None => 0,
                            };
                            proof {
                                assert(index@.contains_key(nx));
                                self::lemma_position_of(all, nx, p as int);
                            }
                            ps.push(p);
                            k = k + 1;
                        }
                        (None, ps)
                    },
                    None => (None, Vec::new()),
                },
            };
            targets.push(entry);
            assert(target_ok(all, t as int, targets@[t as int]));
            t = t + 1;
        }
        proof {
            lemma_edges_len(all, all.len() as int);
        }
        let mut graph = new_graph();
        let mut rest = ds;
        let mut moved: usize = 0;
        let ghost n = all.len();
        proof {
            assert(rest@ =~= all.subrange(0, n as int));
        }
        // Nodes are added in list order: take the dialogues from the front.
        let mut front: Vec<Dialogue> = Vec::new();
        while rest.len() > 0
            invariant
                n == all.len(),
                front@ + rest@.reverse() =~= all.reverse().subrange(0, n as int),
            decreases rest@.len(),
        {
            let d = rest.pop().unwrap();
            front.push(d);
            proof {
                assert(front@ + rest@.reverse() =~= all.reverse().subrange(0, n as int));
            }
        }
        proof {
            assert(front@ =~= all.reverse());
        }
        while front.len() > 0
            invariant
                n == all.len() < u32::MAX,
                moved + front@.len() == n,
                graph_nodes(graph) == all.subrange(0, moved as int),
                graph_edges(graph) == Seq::<(int, int)>::empty(),
                front@ =~= all.subrange(moved as int, n as int).reverse(),
            decreases front@.len(),
        {
            let d = front.pop().unwrap();
            proof {
                assert(d == all[moved as int]);
            }
            add_node(&mut graph, Box::new(d));
            moved = moved + 1;
            proof {
                assert(graph_nodes(graph) =~= all.subrange(0, moved as int));
                assert(front@ =~= all.subrange(moved as int, n as int).reverse());
            }
        }
        proof {
            assert(all.subrange(0, n as int) =~= all);
        }
        let mut e: usize = 0;
        while e < targets.len()
            invariant
                e <= targets@.len() == n == all.len(),
                graph_nodes(graph) == all,
                graph_edges(graph) == edges_upto(all, e as int),
                edge_budget(all, n as int) < u32::MAX,
                forall|a: int| 0 <= a < n ==> #[trigger] target_ok(all, a, targets@[a]),
            decreases n - e,
        {
            proof {
                self::lemma_budget_grows(all, e as int + 1, n as int);
                lemma_edges_len(all, e as int);
                assert(target_ok(all, e as int, targets@[e as int]));
            }
            match targets[e].0 {
                Some(p) => {
                    add_edge(&mut graph, e, p);
                    proof {
                        assert(graph_edges(graph) =~= edges_upto(all, e as int + 1));
                    }
                },
                None => {
                    let ps = &targets[e].1;
                    let ghost before = graph_edges(graph);
                    assert(before.len() == edge_budget(all, e as int));
                    let mut k: usize = 0;
                    while k < ps.len()
                        invariant
                            k <= ps@.len(),
                            e < n == all.len(),
                            all[e as int].next is None,
                            target_ok(all, e as int, targets@[e as int]),
                            *ps == targets@[e as int].1,
                            graph_nodes(graph) == all,
                            graph_edges(graph) == before + edges_for(all, e as int).take(k as int),
                            before.len() + ps@.len() == edge_budget(all, e as int + 1),
                            edge_budget(all, e as int + 1) <= edge_budget(all, n as int),
                            edge_budget(all, n as int) < u32::MAX,
                        decreases ps@.len() - k,
                    {
                        assert(ps@[k as int] < all.len());
                        add_edge(&mut graph, e, ps[k]);
                        proof {
                            let cs = all[e as int].choices->0;
                            assert(first_match(all, dialogue_has_id(cs@[k as int].next)) == Some(ps@[k as int] as int));
                            assert(edges_for(all, e as int)[k as int] == (e as int, ps@[k as int] as int));
                            assert(graph_edges(graph) =~= before + edges_for(all, e as int).take(k + 1));
                        }
                        k = k + 1;
                    }
                    proof {
                        assert(edges_for(all, e as int).take(k as int) =~= edges_for(all, e as int));
                        assert(graph_edges(graph) =~= edges_upto(all, e as int + 1));
                    }
                },
            }
            e = e + 1;
        }
        Ok(Conversation { graph, current: 0 })
    }

    /// The number of dialogue nodes.
    pub fn node_count(&self) -> (r: usize)
        ensures
            r == self.nodes().len(),
    {
        node_count(&self.graph)
    }

    /// The number of edges.
    pub fn edge_count(&self) -> (r: usize)
        ensures
            r == self.edges().len(),
    {
        edge_count(&self.graph)
    }

    /// The index of the current node.
    pub fn current(&self) -> (r: usize)
        ensures
            r == self.current_node(),
    {
        self.current
    }
}

/// `tgt` records what the dialogue at position `a` leads to: the position
/// of its `next`, or else the position each of its choices leads to.
pub open spec fn target_ok(ds: Seq<Dialogue>, a: int, tgt: (Option<usize>, Vec<usize>)) -> bool {
    match ds[a].next {
        Some(nx) => tgt.0 is Some && tgt.0->0 < ds.len() && first_match(ds, dialogue_has_id(nx)) == Some(
            tgt.0->0 as int,
        ),
        None => tgt.0 is None && tgt.1@.len() == match ds[a].choices {
            Some(cs) => cs@.len(),
            None => 0,
        } && forall|q: int|
            0 <= q < tgt.1@.len() ==> tgt.1@[q] < ds.len() && first_match(
                ds,
                dialogue_has_id(ds[a].choices->0@[q].next),
            ) == Some(#[trigger] tgt.1@[q] as int),
    }
}

proof fn lemma_edges_len(ds: Seq<Dialogue>, n: int)
    requires
        0 <= n <= ds.len(),
    ensures
        edges_upto(ds, n).len() == edge_budget(ds, n),
    decreases n,
{
    if n > 0 {
        lemma_edges_len(ds, n - 1);
    }
}

proof fn lemma_position_of(ds: Seq<Dialogue>, id: i32, p: int)
    requires
        0 <= p < ds.len(),
        ds[p].id == id,
        forall|a: int| 0 <= a < ds.len() ==> !repeats_earlier(ds, a),
    ensures
        first_match(ds, dialogue_has_id(id)) == Some(p),
{
    assert forall|q: int| 0 <= q < p implies !dialogue_has_id(id)(#[trigger] ds[q]) by {
        if ds[q].id == id {
            assert(repeats_earlier(ds, p));
        }
    }
    lemma_first_match_is(ds, dialogue_has_id(id), p);
}

proof fn lemma_first_dangling(ds: Seq<Dialogue>, j: int)
    requires
        0 <= j < ds.len(),
        dangles(ds)(ds[j]),
        forall|a: int| 0 <= a < j ==> !(#[trigger] dangles(ds)(ds[a])),
        first_repeat(ds) is None,
    ensures
        build_error(ds) == Some(ConversationError::NextDialogueNotFound(ds[j].id, missing_target(ds, ds[j])->0)),
{
    lemma_first_match_is(ds, dangles(ds), j);
}

proof fn lemma_budget_grows(ds: Seq<Dialogue>, a: int, b: int)
    requires
        0 <= a <= b,
    ensures
        edge_budget(ds, a) <= edge_budget(ds, b),
    decreases b - a,
{
    if a < b {
        lemma_budget_grows(ds, a, b - 1);
    }
}

} // verus!
