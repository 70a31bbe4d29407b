//! The talk builder: a tree that describes the dialogue graph to spawn.
//!
//! A builder is a queue of nodes. Each node has an id, a text, the choices
//! that branch from it (each a text and a nested builder for its branch) and
//! the ids of the nodes it is manually connected to. A nested builder that
//! holds no node may instead name the node its parent connects to.

use vstd::prelude::*;

verus! {

/// The id of a node of a builder, used to connect nodes by hand.
pub type BuildNodeId = usize;

/// A node of a builder.
#[derive(Debug)]
pub struct BuildNode {
    /// The id of the node.
    pub id: BuildNodeId,
    /// The text of the node; empty for a choice node.
    pub text: String,
    /// The choices of a choice node: a text and the branch it leads to.
    pub choices: Vec<(String, TalkBuilder)>,
    /// The ids of the nodes this node is connected to by hand.
    pub manual_connections: Vec<BuildNodeId>,
}

/// A tree of nodes to spawn as a dialogue graph.
#[derive(Debug)]
pub struct TalkBuilder {
    /// The nodes, in the order they follow each other.
    pub queue: Vec<BuildNode>,
    /// Set when `connect_to` is called on a builder with no node: the node
    /// the parent choice connects to.
    pub connect_parent: Option<BuildNodeId>,
}

/// A node, read as values.
pub struct NodeModel {
    /// The id of the node.
    pub id: BuildNodeId,
    /// The text of the node.
    pub text: Seq<char>,
    /// The choices: text and branch.
    pub choices: Seq<(Seq<char>, BuilderModel)>,
    /// The ids of the nodes connected to by hand.
    pub manual_connections: Seq<BuildNodeId>,
}

/// A builder, read as values.
pub struct BuilderModel {
    /// The nodes in order.
    pub nodes: Seq<NodeModel>,
    /// The node the parent choice connects to, for a builder with no node.
    pub connect_parent: Option<BuildNodeId>,
}

/// The value a builder stands for.
pub open spec fn builder_model(b: TalkBuilder) -> BuilderModel
    decreases b,
{
    BuilderModel { nodes: node_models(b.queue@), connect_parent: b.connect_parent }
}

/// The values a sequence of nodes stands for.
pub open spec fn node_models(s: Seq<BuildNode>) -> Seq<NodeModel>
    decreases s,
{
    if s.len() == 0 {
        Seq::empty()
    } else {
        node_models(s.subrange(0, s.len() - 1)).push(node_model(s[s.len() - 1]))
    }
}

/// The value a node stands for.
pub open spec fn node_model(n: BuildNode) -> NodeModel
    decreases n,
{
    NodeModel {
        id: n.id,
        text: n.text@,
        choices: choice_models(n.choices@),
        manual_connections: n.manual_connections@,
    }
}

/// The values a sequence of choices stands for.
pub open spec fn choice_models(s: Seq<(String, TalkBuilder)>) -> Seq<(Seq<char>, BuilderModel)>
    decreases s,
{
    if s.len() == 0 {
        Seq::empty()
    } else {
        choice_models(s.subrange(0, s.len() - 1)).push((s[s.len() - 1].0@, builder_model(s[s.len() - 1].1)))
    }
}

impl View for TalkBuilder {
    type V = BuilderModel;

    open spec fn view(&self) -> BuilderModel {
        builder_model(*self)
    }
}

/// A builder model with a node appended.
pub open spec fn with_node(b: BuilderModel, n: NodeModel) -> BuilderModel {
    BuilderModel { nodes: b.nodes.push(n), connect_parent: b.connect_parent }
}

/// The builder model with no node.
pub open spec fn empty_model() -> BuilderModel {
    BuilderModel { nodes: Seq::empty(), connect_parent: None }
}

/// A builder model after `connect_to(id)`: the last node gains the
/// connection; with no node, the parent's connection is set.
pub open spec fn connected(b: BuilderModel, id: BuildNodeId) -> BuilderModel {
    if b.nodes.len() == 0 {
        BuilderModel { nodes: b.nodes, connect_parent: Some(id) }
    } else {
        let last = b.nodes.last();
        BuilderModel {
            nodes: b.nodes.update(
                b.nodes.len() - 1,
                NodeModel {
                    id: last.id,
                    text: last.text,
                    choices: last.choices,
                    manual_connections: last.manual_connections.push(id),
                },
            ),
            connect_parent: b.connect_parent,
        }
    }
}

proof fn lemma_node_models_push(s: Seq<BuildNode>, n: BuildNode)
    ensures
        node_models(s.push(n)) == node_models(s).push(node_model(n)),
{
    assert(s.push(n).subrange(0, s.len() as int) =~= s);
}

pub proof fn lemma_node_models_len(s: Seq<BuildNode>)
    ensures
        node_models(s).len() == s.len(),
    decreases s.len(),
{
    if s.len() > 0 {
        lemma_node_models_len(s.subrange(0, s.len() - 1));
    }
}

proof fn lemma_node_models_update_last(s: Seq<BuildNode>, n: BuildNode)
    requires
        s.len() > 0,
    ensures
        node_models(s.update(s.len() - 1, n)) == node_models(s).update(s.len() - 1, node_model(n)),
{
    let p = s.subrange(0, s.len() - 1);
    assert(s.update(s.len() - 1, n) =~= p.push(n));
    assert(s =~= p.push(s[s.len() - 1]));
    lemma_node_models_push(p, n);
    lemma_node_models_push(p, s[s.len() - 1]);
    lemma_node_models_len(p);
    assert(node_models(p).push(node_model(n)) =~= node_models(p).push(node_model(s[s.len() - 1])).update(
        s.len() - 1,
        node_model(n),
    ));
}

/// The values of choices after one more is pushed.
pub proof fn lemma_choice_models_push(s: Seq<(String, TalkBuilder)>, c: (String, TalkBuilder))
    ensures
        choice_models(s.push(c)) == choice_models(s).push((c.0@, builder_model(c.1))),
{
    assert(s.push(c).subrange(0, s.len() as int) =~= s);
}

/// The ids of every node of a builder model, branches included: each node
/// comes after the nodes of its branches.
pub open spec fn model_ids(b: BuilderModel) -> Seq<BuildNodeId>
    decreases b,
{
    nodes_ids(b.nodes)
}

/// The ids of the nodes of a sequence, with their branches.
pub open spec fn nodes_ids(s: Seq<NodeModel>) -> Seq<BuildNodeId>
    decreases s,
{
    if s.len() == 0 {
        Seq::empty()
    } else {
        nodes_ids(s.subrange(0, s.len() - 1)) + node_ids(s[s.len() - 1])
    }
}

/// The ids of a node's branches, then its own.
pub open spec fn node_ids(n: NodeModel) -> Seq<BuildNodeId>
    decreases n,
{
    choices_ids(n.choices).push(n.id)
}

/// The ids of the nodes of a sequence of branches.
pub open spec fn choices_ids(cs: Seq<(Seq<char>, BuilderModel)>) -> Seq<BuildNodeId>
    decreases cs,
{
    if cs.len() == 0 {
        Seq::empty()
    } else {
        choices_ids(cs.subrange(0, cs.len() - 1)) + model_ids(cs[cs.len() - 1].1)
    }
}

/// Appending a node appends its ids.
pub proof fn lemma_ids_with_node(b: BuilderModel, n: NodeModel)
    ensures
        model_ids(with_node(b, n)) == model_ids(b) + node_ids(n),
{
    assert(b.nodes.push(n).subrange(0, b.nodes.len() as int) =~= b.nodes);
}

/// A connection made by hand adds no node.
pub proof fn lemma_ids_connected(b: BuilderModel, id: BuildNodeId)
    ensures
        model_ids(connected(b, id)) == model_ids(b),
{
    if b.nodes.len() > 0 {
        let c = connected(b, id);
        let p = b.nodes.subrange(0, b.nodes.len() - 1);
        assert(c.nodes.subrange(0, c.nodes.len() - 1) =~= p);
    }
}

/// Adding a branch appends the ids of its nodes.
pub proof fn lemma_ids_choice_push(cs: Seq<(Seq<char>, BuilderModel)>, c: (Seq<char>, BuilderModel))
    ensures
        choices_ids(cs.push(c)) == choices_ids(cs) + model_ids(c.1),
{
    assert(cs.push(c).subrange(0, cs.len() as int) =~= cs);
}

/// The ids of every node that a builder model connects to by hand (manual
/// connections and a named parent connection), branches included.
pub open spec fn model_targets(b: BuilderModel) -> Seq<BuildNodeId>
    decreases b,
{
    parent_targets(b.connect_parent) + nodes_targets(b.nodes)
}

/// The parent connection named by a builder with no node, as a sequence.
pub open spec fn parent_targets(p: Option<BuildNodeId>) -> Seq<BuildNodeId> {
    match p {
        Some(id) => seq![id],
        None => Seq::empty(),
    }
}

/// The hand-made connection targets of a sequence of nodes.
pub open spec fn nodes_targets(s: Seq<NodeModel>) -> Seq<BuildNodeId>
    decreases s,
{
    if s.len() == 0 {
        Seq::empty()
    } else {
        nodes_targets(s.subrange(0, s.len() - 1)) + node_targets(s[s.len() - 1])
    }
}

/// The hand-made connection targets of a node's branches, then its own.
pub open spec fn node_targets(n: NodeModel) -> Seq<BuildNodeId>
    decreases n,
{
    choices_targets(n.choices) + n.manual_connections
}

/// The hand-made connection targets of a sequence of branches.
pub open spec fn choices_targets(cs: Seq<(Seq<char>, BuilderModel)>) -> Seq<BuildNodeId>
    decreases cs,
{
    if cs.len() == 0 {
        Seq::empty()
    } else {
        choices_targets(cs.subrange(0, cs.len() - 1)) + model_targets(cs[cs.len() - 1].1)
    }
}

/// Every id of `x` is below `hi`.
pub open spec fn all_below(x: Seq<BuildNodeId>, hi: nat) -> bool {
    forall|i: int| 0 <= i < x.len() ==> (#[trigger] x[i]) < hi
}

/// Appending a node appends its targets.
pub proof fn lemma_targets_with_node(b: BuilderModel, n: NodeModel)
    ensures
        model_targets(with_node(b, n)) == model_targets(b) + node_targets(n),
{
    assert(b.nodes.push(n).subrange(0, b.nodes.len() as int) =~= b.nodes);
    let pre = parent_targets(b.connect_parent);
    assert(pre + (nodes_targets(b.nodes) + node_targets(n)) =~= (pre + nodes_targets(b.nodes)) + node_targets(n));
}

/// A connection to `id` adds only `id` as a target.
pub proof fn lemma_targets_connected(b: BuilderModel, id: BuildNodeId, hi: nat)
    requires
        all_below(model_targets(b), hi),
        id < hi,
    ensures
        all_below(model_targets(connected(b, id)), hi),
{
    let c = connected(b, id);
    if b.nodes.len() == 0 {
        assert(nodes_targets(c.nodes) =~= Seq::<BuildNodeId>::empty());
        assert(model_targets(c) =~= seq![id]);
    } else {
        let p = b.nodes.subrange(0, b.nodes.len() - 1);
        assert(c.nodes.subrange(0, c.nodes.len() - 1) =~= p);
        let last = b.nodes.last();
        let last2 = c.nodes.last();
        assert(node_targets(last2) =~= node_targets(last).push(id));
        let pre = parent_targets(b.connect_parent);
        assert(model_targets(b) =~= pre + (nodes_targets(p) + node_targets(last)));
        assert(model_targets(c) =~= (pre + (nodes_targets(p) + node_targets(last))).push(id));
        let t = model_targets(c);
        assert forall|i: int| 0 <= i < t.len() implies (#[trigger] t[i]) < hi by {
            if i < t.len() - 1 {
                assert(t[i] == model_targets(b)[i]);
            }
        }
    }
}

/// Adding a branch appends its targets.
pub proof fn lemma_targets_choice_push(cs: Seq<(Seq<char>, BuilderModel)>, c: (Seq<char>, BuilderModel))
    ensures
        choices_targets(cs.push(c)) == choices_targets(cs) + model_targets(c.1),
{
    assert(cs.push(c).subrange(0, cs.len() as int) =~= cs);
}

/// The value of the `k`-th node.
pub proof fn lemma_node_models_index(s: Seq<BuildNode>, k: int)
    requires
        0 <= k < s.len(),
    ensures
        node_models(s).len() == s.len(),
        node_models(s)[k] == node_model(s[k]),
    decreases s.len(),
{
    lemma_node_models_len(s);
    if k < s.len() - 1 {
        lemma_node_models_index(s.subrange(0, s.len() - 1), k);
    }
}

/// The number of choices a sequence of choice values holds.
pub proof fn lemma_choice_models_len(s: Seq<(String, TalkBuilder)>)
    ensures
        choice_models(s).len() == s.len(),
    decreases s.len(),
{
    if s.len() > 0 {
        lemma_choice_models_len(s.subrange(0, s.len() - 1));
    }
}

/// The value of the `j`-th choice.
pub proof fn lemma_choice_models_index(s: Seq<(String, TalkBuilder)>, j: int)
    requires
        0 <= j < s.len(),
    ensures
        choice_models(s).len() == s.len(),
        choice_models(s)[j] == (s[j].0@, builder_model(s[j].1)),
    decreases s.len(),
{
    lemma_choice_models_len(s);
    if j < s.len() - 1 {
        lemma_choice_models_index(s.subrange(0, s.len() - 1), j);
    }
}

impl TalkBuilder {
    /// A builder with no node.
    pub fn new() -> (r: TalkBuilder)
        ensures
            r@ == empty_model(),
    {
        let r = TalkBuilder { queue: Vec::new(), connect_parent: None };
        assert(r.queue@ =~= Seq::<BuildNode>::empty());
        r
    }

    /// Adds a text node with the id `id`.
    pub fn say(self, text: String, id: BuildNodeId) -> (r: TalkBuilder)
        ensures
            r@ == with_node(
                self@,
                NodeModel { id, text: text@, choices: Seq::empty(), manual_connections: Seq::empty() },
            ),
    {
        let node = BuildNode { id, text, choices: Vec::new(), manual_connections: Vec::new() };
        let mut queue = self.queue;
        let ghost before = queue@;
        queue.push(node);
        proof {
            lemma_node_models_push(before, node);
            assert(node.choices@ =~= Seq::<(String, TalkBuilder)>::empty());
            assert(node.manual_connections@ =~= Seq::<BuildNodeId>::empty());
        }
        TalkBuilder { queue, connect_parent: self.connect_parent }
    }

    /// Adds a choice node with the id `id`, branching into `choices`. A
    /// choice node without choices is a text node with an empty text.
    pub fn choose_branches(self, choices: Vec<(String, TalkBuilder)>, id: BuildNodeId) -> (r: TalkBuilder)
        ensures
            r@ == with_node(
                self@,
                NodeModel {
                    id,
                    text: Seq::empty(),
                    choices: choice_models(choices@),
                    manual_connections: Seq::empty(),
                },
            ),
    {
        let node = BuildNode { id, text: String::new(), choices, manual_connections: Vec::new() };
        let mut queue = self.queue;
        let ghost before = queue@;
        queue.push(node);
        proof {
            lemma_node_models_push(before, node);
            assert(node.manual_connections@ =~= Seq::<BuildNodeId>::empty());
        }
        TalkBuilder { queue, connect_parent: self.connect_parent }
    }

    /// Connects the last node to the node `node_id`; on a builder with no
    /// node, names `node_id` as the node the parent choice connects to.
    pub fn connect_to(self, node_id: BuildNodeId) -> (r: TalkBuilder)
        ensures
            r@ == connected(self@, node_id),
    {
        let mut queue = self.queue;
        let ghost before = queue@;
        proof {
            lemma_node_models_len(before);
        }
        match queue.pop() {
            None => TalkBuilder { queue, connect_parent: Some(node_id) },
            Some(last) => {
                let ghost old_last = last;
                let mut manual = last.manual_connections;
                manual.push(node_id);
                let node = BuildNode { id: last.id, text: last.text, choices: last.choices, manual_connections: manual };
                queue.push(node);
                proof {
                    assert(queue@ =~= before.update(before.len() - 1, node));
                    lemma_node_models_update_last(before, node);
                }
                TalkBuilder { queue, connect_parent: self.connect_parent }
            },
        }
    }

    /// The id of the last node added.
    pub fn last_node_id(&self) -> (r: BuildNodeId)
        requires
            self@.nodes.len() > 0,
        ensures
            r == self@.nodes.last().id,
    {
        proof {
            lemma_node_models_len(self.queue@);
            let s = self.queue@;
            assert(s =~= s.subrange(0, s.len() - 1).push(s[s.len() - 1]));
            lemma_node_models_push(s.subrange(0, s.len() - 1), s[s.len() - 1]);
        }
        self.queue[self.queue.len() - 1].id
    }
}

} // verus!
