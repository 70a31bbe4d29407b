//! Turning a [`TalkBuilder`] into the links of a dialogue graph.
//!
//! A start node leads to the first node of the builder. Each node leads to
//! the node after it, except after a choice node: there, every leaf of the
//! choice's branches leads to the next node instead, so that the branches
//! converge. A choice node leads to the first node of each branch (or to the
//! node a branch names by hand), and every node leads to the nodes it is
//! connected to by hand. The last node of every builder is a leaf; one that
//! is connected to nothing by hand is an end node.

use vstd::prelude::*;

use crate::builder::{
    choice_models, lemma_choice_models_index, lemma_choice_models_len, lemma_node_models_index, lemma_node_models_len,
    BuildNodeId, BuilderModel, NodeModel, TalkBuilder,
};

verus! {

/// A node of the graph: the start node, or a node of the builder.
#[derive(Debug, Clone, Copy, PartialEq, Eq, Structural)]
pub enum GraphNode {
    /// The node the dialogue starts from.
    Start,
    /// The node of the builder with this id.
    Node(BuildNodeId),
}

/// The links of a dialogue graph.
#[derive(Debug)]
pub struct TalkGraph {
    /// Each node of the builder with its text, branches after their choice
    /// node.
    pub nodes: Vec<(BuildNodeId, String)>,
    /// Each link, from a node to the node that follows it, in the order made.
    pub edges: Vec<(GraphNode, BuildNodeId)>,
    /// Each option of a choice node: the choice node, the option's text and
    /// the node the option leads to, in the order made.
    pub options: Vec<(BuildNodeId, String, GraphNode)>,
    /// The nodes that end the dialogue.
    pub ends: Vec<BuildNodeId>,
}

/// The links of a dialogue graph, read as values.
pub struct GraphModel {
    /// The nodes with their texts.
    pub nodes: Seq<(BuildNodeId, Seq<char>)>,
    /// The links.
    pub edges: Seq<(GraphNode, BuildNodeId)>,
    /// The options of the choice nodes.
    pub options: Seq<(BuildNodeId, Seq<char>, GraphNode)>,
    /// The end nodes.
    pub ends: Seq<BuildNodeId>,
}

/// An option read as values.
pub open spec fn option_model(o: (BuildNodeId, String, GraphNode)) -> (BuildNodeId, Seq<char>, GraphNode) {
    (o.0, o.1@, o.2)
}

impl View for TalkGraph {
    type V = GraphModel;

    open spec fn view(&self) -> GraphModel {
        GraphModel {
            nodes: self.nodes@.map_values(|n: (BuildNodeId, String)| (n.0, n.1@)),
            edges: self.edges@,
            options: self.options@.map_values(|o: (BuildNodeId, String, GraphNode)| option_model(o)),
            ends: self.ends@,
        }
    }
}

/// A graph with no link.
pub open spec fn empty_graph() -> GraphModel {
    GraphModel { nodes: Seq::empty(), edges: Seq::empty(), options: Seq::empty(), ends: Seq::empty() }
}

/// The graph with the link `e` added.
pub open spec fn add_edge(g: GraphModel, e: (GraphNode, BuildNodeId)) -> GraphModel {
    GraphModel { nodes: g.nodes, edges: g.edges.push(e), options: g.options, ends: g.ends }
}

/// The links from each of `leaves` to `to`.
pub open spec fn leaf_edges(leaves: Seq<BuildNodeId>, to: BuildNodeId) -> Seq<(GraphNode, BuildNodeId)> {
    leaves.map_values(|l: BuildNodeId| (GraphNode::Node(l), to))
}

/// The links from `from` to each node of `targets`.
pub open spec fn manual_edges(from: BuildNodeId, targets: Seq<BuildNodeId>) -> Seq<(GraphNode, BuildNodeId)> {
    targets.map_values(|t: BuildNodeId| (GraphNode::Node(from), t))
}

/// The links of builder `b` below `root`, added to `g`: the graph, the node
/// that `root` leads to first, and the leaves of `b`.
pub open spec fn form(root: GraphNode, b: BuilderModel, g: GraphModel) -> (GraphModel, GraphNode, Seq<BuildNodeId>)
    decreases b, 2int, 0int,
{
    let g1 = match b.connect_parent {
        Some(id) => add_edge(g, (root, id)),
        None => g,
    };
    let first = match b.connect_parent {
        Some(id) => GraphNode::Node(id),
        None => if b.nodes.len() > 0 {
            GraphNode::Node(b.nodes[0].id)
        } else {
            root
        },
    };
    let r = queue(root, b.nodes, 0, g1, Seq::empty(), false);
    (r.0, first, r.1)
}

/// The links of the nodes from position `k` on, after `parent`; `leaves`
/// are the leaves waiting for the next node and `after_choice` whether the
/// previous node was a choice node. Gives the graph and the leaves.
pub open spec fn queue(
    parent: GraphNode,
    nodes: Seq<NodeModel>,
    k: nat,
    g: GraphModel,
    leaves: Seq<BuildNodeId>,
    after_choice: bool,
) -> (GraphModel, Seq<BuildNodeId>)
    decreases nodes, 1int, nodes.len() - k,
{
    if k >= nodes.len() {
        (g, leaves)
    } else {
        let n = nodes[k as int];
        let g0 = GraphModel { nodes: g.nodes.push((n.id, n.text)), edges: g.edges, options: g.options, ends: g.ends };
        let (g1, leaves1) = if after_choice {
            (
                GraphModel {
                    nodes: g0.nodes,
                    edges: g0.edges + leaf_edges(leaves, n.id),
                    options: g0.options,
                    ends: g0.ends,
                },
                Seq::empty(),
            )
        } else {
            (add_edge(g0, (parent, n.id)), leaves)
        };
        let (g2, leaves2) = if n.choices.len() > 0 {
            branches(n.id, n.choices, 0, g1, leaves1)
        } else {
            (g1, leaves1)
        };
        let g3 = GraphModel {
            nodes: g2.nodes,
            edges: g2.edges + manual_edges(n.id, n.manual_connections),
            options: g2.options,
            ends: if k + 1 == nodes.len() && n.manual_connections.len() == 0 {
                g2.ends.push(n.id)
            } else {
                g2.ends
            },
        };
        let leaves3 = if k + 1 == nodes.len() {
            leaves2.push(n.id)
        } else {
            leaves2
        };
        queue(GraphNode::Node(n.id), nodes, k + 1, g3, leaves3, n.choices.len() > 0)
    }
}

/// The links of the branches of choice node `c` from the `j`-th on, with
/// their options; their leaves are added to `leaves`.
pub open spec fn branches(
    c: BuildNodeId,
    cs: Seq<(Seq<char>, BuilderModel)>,
    j: nat,
    g: GraphModel,
    leaves: Seq<BuildNodeId>,
) -> (GraphModel, Seq<BuildNodeId>)
    decreases cs, 1int, cs.len() - j,
{
    if j >= cs.len() {
        (g, leaves)
    } else {
        let r = form(GraphNode::Node(c), cs[j as int].1, g);
        let g2 = GraphModel {
            nodes: r.0.nodes,
            edges: r.0.edges,
            options: r.0.options.push((c, cs[j as int].0, r.1)),
            ends: r.0.ends,
        };
        branches(c, cs, j + 1, g2, leaves + r.2)
    }
}

/// The links of the dialogue graph of a builder, from the start node.
pub open spec fn spec_talk_graph(b: BuilderModel) -> GraphModel {
    form(GraphNode::Start, b, empty_graph()).0
}

/// Adds the links of builder `b` below `root` to `g`; gives the node that
/// `root` leads to first and the leaves of `b`.
fn form_graph(root: GraphNode, b: &TalkBuilder, g: &mut TalkGraph) -> (r: (GraphNode, Vec<BuildNodeId>))
    ensures
        (final(g)@, r.0, r.1@) == form(root, b@, old(g)@),
    decreases b,
{
    let ghost bm = b@;
    let ghost target = form(root, b@, g@);
    proof {
        lemma_node_models_len(b.queue@);
    }
    match b.connect_parent {
        Some(id) => {
            g.edges.push((root, id));
        },
        None => {},
    }
    let first = match b.connect_parent {
        Some(id) => GraphNode::Node(id),
        None => if b.queue.len() > 0 {
            proof {
                lemma_node_models_index(b.queue@, 0);
            }
            GraphNode::Node(b.queue[0].id)
        } else {
            root
        },
    };
    let ghost g1 = g@;
    let mut leaves: Vec<BuildNodeId> = Vec::new();
    let mut parent = root;
    let mut after_choice = false;
    let mut k: usize = 0;
    proof {
        assert(leaves@ =~= Seq::<BuildNodeId>::empty());
    }
    while k < b.queue.len()
        invariant
            bm == b@,
            k <= b.queue@.len(),
            bm.nodes.len() == b.queue@.len(),
            target == form(root, bm, old(g)@),
            target.1 == first,
            target.0 == queue(root, bm.nodes, 0, g1, Seq::empty(), false).0,
            target.2 == queue(root, bm.nodes, 0, g1, Seq::empty(), false).1,
            queue(root, bm.nodes, 0, g1, Seq::empty(), false) == queue(
                parent,
                bm.nodes,
                k as nat,
                g@,
                leaves@,
                after_choice,
            ),
        decreases b.queue@.len() - k,
    {
        let n = &b.queue[k];
        let ghost nm = bm.nodes[k as int];
        proof {
            lemma_node_models_index(b.queue@, k as int);
            lemma_choice_models_len(n.choices@);
        }
        assert(nm.id == n.id);
        assert(nm.manual_connections == n.manual_connections@);
        assert(nm.text == n.text@);
        let ghost gpre = g@;
        g.nodes.push((n.id, n.text.clone()));
        proof {
            assert(g@.nodes =~= gpre.nodes.push((n.id, n.text@)));
        }
        let ghost gq = g@;
        let ghost lq = leaves@;
        if after_choice {
            let mut i: usize = 0;
            while i < leaves.len()
                invariant
                    i <= leaves@.len(),
                    leaves@ == lq,
                    g@.nodes == gq.nodes,
                    g@.options == gq.options,
                    g@.ends == gq.ends,
                    g@.edges == gq.edges + leaf_edges(lq.take(i as int), n.id),
                decreases leaves@.len() - i,
            {
                g.edges.push((GraphNode::Node(leaves[i]), n.id));
                proof {
                    assert(leaf_edges(lq.take(i + 1), n.id) =~= leaf_edges(lq.take(i as int), n.id).push(
                        (GraphNode::Node(lq[i as int]), n.id),
                    ));
                    assert(gq.edges + leaf_edges(lq.take(i + 1), n.id) =~= (gq.edges + leaf_edges(
                        lq.take(i as int),
                        n.id,
                    )).push((GraphNode::Node(lq[i as int]), n.id)));
                }
                i = i + 1;
            }
            proof {
                assert(lq.take(lq.len() as int) =~= lq);
            }
            leaves = Vec::new();
            proof {
                assert(leaves@ =~= Seq::<BuildNodeId>::empty());
            }
        } else {
            g.edges.push((parent, n.id));
        }
        let ghost g1n = g@;
        let ghost l1n = leaves@;
        if n.choices.len() > 0 {
            let mut j: usize = 0;
            while j < n.choices.len()
                invariant
                    bm == b@,
                    k < b.queue@.len(),
                    *n == b.queue@[k as int],
                    nm == bm.nodes[k as int],
                    nm.id == n.id,
                    nm.choices.len() == n.choices@.len(),
                    j <= n.choices@.len(),
                    nm.choices == choice_models(n.choices@),
                    branches(n.id, nm.choices, 0, g1n, l1n) == branches(n.id, nm.choices, j as nat, g@, leaves@),
                decreases n.choices@.len() - j,
            {
                proof {
                    lemma_choice_models_index(n.choices@, j as int);
                }
                let branch = &n.choices[j].1;
                let ghost gb = g@;
                let ghost lb = leaves@;
                let (fb, bl) = form_graph(GraphNode::Node(n.id), branch, g);
                let text = n.choices[j].0.clone();
                let ghost gf = g@;
                g.options.push((n.id, text, fb));
                proof {
                    assert(g@.nodes =~= gf.nodes);
                    assert(g@.options =~= gf.options.push((n.id, nm.choices[j as int].0, fb)));
                }
                let mut q: usize = 0;
                while q < bl.len()
                    invariant
                        q <= bl@.len(),
                        leaves@ == lb + bl@.take(q as int),
                    decreases bl@.len() - q,
                {
                    leaves.push(bl[q]);
                    proof {
                        assert(lb + bl@.take(q + 1) =~= (lb + bl@.take(q as int)).push(bl@[q as int]));
                    }
                    q = q + 1;
                }
                proof {
                    assert(bl@.take(bl@.len() as int) =~= bl@);
                }
                j = j + 1;
            }
        }
        let ghost g2n = g@;
        let mut m: usize = 0;
        while m < n.manual_connections.len()
            invariant
                m <= n.manual_connections@.len(),
                g@.nodes == g2n.nodes,
                g@.options == g2n.options,
                g@.ends == g2n.ends,
                g@.edges == g2n.edges + manual_edges(n.id, n.manual_connections@.take(m as int)),
            decreases n.manual_connections@.len() - m,
        {
            g.edges.push((GraphNode::Node(n.id), n.manual_connections[m]));
            proof {
                let t = n.manual_connections@;
                assert(manual_edges(n.id, t.take(m + 1)) =~= manual_edges(n.id, t.take(m as int)).push(
                    (GraphNode::Node(n.id), t[m as int]),
                ));
                assert(g2n.edges + manual_edges(n.id, t.take(m + 1)) =~= (g2n.edges + manual_edges(
                    n.id,
                    t.take(m as int),
                )).push((GraphNode::Node(n.id), t[m as int])));
            }
            m = m + 1;
        }
        proof {
            assert(n.manual_connections@.take(n.manual_connections@.len() as int) =~= n.manual_connections@);
        }
        if k + 1 == b.queue.len() {
            if n.manual_connections.len() == 0 {
                g.ends.push(n.id);
            }
            leaves.push(n.id);
        }
        parent = GraphNode::Node(n.id);
        after_choice = n.choices.len() > 0;
        k = k + 1;
    }
    (first, leaves)
}

/// The links of the dialogue graph of a builder, from the start node.
pub fn talk_graph(b: &TalkBuilder) -> (r: TalkGraph)
    ensures
        r@ == spec_talk_graph(b@),
{
    let mut g = TalkGraph { nodes: Vec::new(), edges: Vec::new(), options: Vec::new(), ends: Vec::new() };
    proof {
        assert(g@.nodes =~= Seq::<(BuildNodeId, Seq<char>)>::empty());
        assert(g@.options =~= Seq::<(BuildNodeId, Seq<char>, GraphNode)>::empty());
        assert(g@ == empty_graph());
    }
    let _ = form_graph(GraphNode::Start, b, &mut g);
    g
}

/// The leaves of a builder: its last node, and the leaves of the branches
/// of that node and of the choice nodes leading up to it.
pub open spec fn leaves_of(b: BuilderModel) -> Seq<BuildNodeId> {
    form(GraphNode::Start, b, empty_graph()).2
}

/// The links of `h` begin with those of `g`.
pub open spec fn edges_grow(g: GraphModel, h: GraphModel) -> bool {
    &&& g.edges.len() <= h.edges.len()
    &&& forall|i: int| 0 <= i < g.edges.len() ==> #[trigger] h.edges[i] == g.edges[i]
}

proof fn lemma_form_leaves(r1: GraphNode, r2: GraphNode, b: BuilderModel, g1: GraphModel, g2: GraphModel)
    ensures
        form(r1, b, g1).2 == form(r2, b, g2).2,
    decreases b, 2int, 0int,
{
    let h1 = match b.connect_parent {
        Some(id) => add_edge(g1, (r1, id)),
        None => g1,
    };
    let h2 = match b.connect_parent {
        Some(id) => add_edge(g2, (r2, id)),
        None => g2,
    };
    lemma_queue_leaves(r1, r2, b.nodes, 0, h1, h2, Seq::empty(), false);
}

proof fn lemma_queue_leaves(
    p1: GraphNode,
    p2: GraphNode,
    nodes: Seq<NodeModel>,
    k: nat,
    g1: GraphModel,
    g2: GraphModel,
    leaves: Seq<BuildNodeId>,
    after_choice: bool,
)
    ensures
        queue(p1, nodes, k, g1, leaves, after_choice).1 == queue(p2, nodes, k, g2, leaves, after_choice).1,
    decreases nodes, 1int, nodes.len() - k,
{
    if k < nodes.len() {
        let n = nodes[k as int];
        let a0 = GraphModel { nodes: g1.nodes.push((n.id, n.text)), edges: g1.edges, options: g1.options, ends: g1.ends };
        let b0 = GraphModel { nodes: g2.nodes.push((n.id, n.text)), edges: g2.edges, options: g2.options, ends: g2.ends };
        let (a1, l1) = if after_choice {
            (
                GraphModel { nodes: a0.nodes, edges: a0.edges + leaf_edges(leaves, n.id), options: a0.options, ends: a0.ends },
                Seq::empty(),
            )
        } else {
            (add_edge(a0, (p1, n.id)), leaves)
        };
        let b1 = if after_choice {
            GraphModel { nodes: b0.nodes, edges: b0.edges + leaf_edges(leaves, n.id), options: b0.options, ends: b0.ends }
        } else {
            add_edge(b0, (p2, n.id))
        };
        let (a2, l2) = if n.choices.len() > 0 {
            branches(n.id, n.choices, 0, a1, l1)
        } else {
            (a1, l1)
        };
        let (b2, m2) = if n.choices.len() > 0 {
            branches(n.id, n.choices, 0, b1, l1)
        } else {
            (b1, l1)
        };
        if n.choices.len() > 0 {
            lemma_branches_leaves(n.id, n.choices, 0, a1, b1, l1);
        }
        let a3 = GraphModel {
            nodes: a2.nodes,
            edges: a2.edges + manual_edges(n.id, n.manual_connections),
            options: a2.options,
            ends: if k + 1 == nodes.len() && n.manual_connections.len() == 0 {
                a2.ends.push(n.id)
            } else {
                a2.ends
            },
        };
        let b3 = GraphModel {
            nodes: b2.nodes,
            edges: b2.edges + manual_edges(n.id, n.manual_connections),
            options: b2.options,
            ends: if k + 1 == nodes.len() && n.manual_connections.len() == 0 {
                b2.ends.push(n.id)
            } else {
                b2.ends
            },
        };
        let l3 = if k + 1 == nodes.len() {
            l2.push(n.id)
        } else {
            l2
        };
        lemma_queue_leaves(
            GraphNode::Node(n.id),
            GraphNode::Node(n.id),
            nodes,
            k + 1,
            a3,
            b3,
            l3,
            n.choices.len() > 0,
        );
    }
}

proof fn lemma_branches_leaves(
    c: BuildNodeId,
    cs: Seq<(Seq<char>, BuilderModel)>,
    j: nat,
    g1: GraphModel,
    g2: GraphModel,
    leaves: Seq<BuildNodeId>,
)
    ensures
        branches(c, cs, j, g1, leaves).1 == branches(c, cs, j, g2, leaves).1,
    decreases cs, 1int, cs.len() - j,
{
    if j < cs.len() {
        let r1 = form(GraphNode::Node(c), cs[j as int].1, g1);
        let r2 = form(GraphNode::Node(c), cs[j as int].1, g2);
        lemma_form_leaves(GraphNode::Node(c), GraphNode::Node(c), cs[j as int].1, g1, g2);
        let h1 = GraphModel { nodes: r1.0.nodes, edges: r1.0.edges, options: r1.0.options.push((c, cs[j as int].0, r1.1)), ends: r1.0.ends };
        let h2 = GraphModel { nodes: r2.0.nodes, edges: r2.0.edges, options: r2.0.options.push((c, cs[j as int].0, r2.1)), ends: r2.0.ends };
        lemma_branches_leaves(c, cs, j + 1, h1, h2, leaves + r1.2);
    }
}

proof fn lemma_grow_trans(a: GraphModel, b: GraphModel, c: GraphModel)
    requires
        edges_grow(a, b),
        edges_grow(b, c),
    ensures
        edges_grow(a, c),
{
    assert forall|i: int| 0 <= i < a.edges.len() implies #[trigger] c.edges[i] == a.edges[i] by {
        assert(c.edges[i] == b.edges[i]);
    }
}

proof fn lemma_grow_append(g: GraphModel, h: GraphModel, extra: Seq<(GraphNode, BuildNodeId)>)
    requires
        h.edges == g.edges + extra,
    ensures
        edges_grow(g, h),
{
    assert forall|i: int| 0 <= i < g.edges.len() implies #[trigger] h.edges[i] == g.edges[i] by {}
}

proof fn lemma_form_grows(r: GraphNode, b: BuilderModel, g: GraphModel)
    ensures
        edges_grow(g, form(r, b, g).0),
    decreases b, 2int, 0int,
{
    let h = match b.connect_parent {
        Some(id) => add_edge(g, (r, id)),
        None => g,
    };
    lemma_grow_append(g, h, h.edges.subrange(g.edges.len() as int, h.edges.len() as int));
    assert(h.edges =~= g.edges + h.edges.subrange(g.edges.len() as int, h.edges.len() as int));
    lemma_queue_grows(r, b.nodes, 0, h, Seq::empty(), false);
    lemma_grow_trans(g, h, form(r, b, g).0);
}

proof fn lemma_queue_grows(
    p: GraphNode,
    nodes: Seq<NodeModel>,
    k: nat,
    g: GraphModel,
    leaves: Seq<BuildNodeId>,
    after_choice: bool,
)
    ensures
        edges_grow(g, queue(p, nodes, k, g, leaves, after_choice).0),
    decreases nodes, 1int, nodes.len() - k,
{
    if k >= nodes.len() {
        lemma_grow_append(g, g, Seq::empty());
        assert(g.edges =~= g.edges + Seq::<(GraphNode, BuildNodeId)>::empty());
    } else {
        let n = nodes[k as int];
        let g0 = GraphModel { nodes: g.nodes.push((n.id, n.text)), edges: g.edges, options: g.options, ends: g.ends };
        let (g1, l1) = if after_choice {
            (
                GraphModel { nodes: g0.nodes, edges: g0.edges + leaf_edges(leaves, n.id), options: g0.options, ends: g0.ends },
                Seq::empty(),
            )
        } else {
            (add_edge(g0, (p, n.id)), leaves)
        };
        if after_choice {
            lemma_grow_append(g, g1, leaf_edges(leaves, n.id));
        } else {
            assert(g1.edges =~= g.edges + seq![(p, n.id)]);
            lemma_grow_append(g, g1, seq![(p, n.id)]);
        }
        let (g2, l2) = if n.choices.len() > 0 {
            branches(n.id, n.choices, 0, g1, l1)
        } else {
            (g1, l1)
        };
        if n.choices.len() > 0 {
            lemma_branches_grows(n.id, n.choices, 0, g1, l1);
            lemma_grow_trans(g, g1, g2);
        }
        let g3 = GraphModel {
            nodes: g2.nodes,
            edges: g2.edges + manual_edges(n.id, n.manual_connections),
            options: g2.options,
            ends: if k + 1 == nodes.len() && n.manual_connections.len() == 0 {
                g2.ends.push(n.id)
            } else {
                g2.ends
            },
        };
        lemma_grow_append(g2, g3, manual_edges(n.id, n.manual_connections));
        lemma_grow_trans(g, g2, g3);
        let l3 = if k + 1 == nodes.len() {
            l2.push(n.id)
        } else {
            l2
        };
        lemma_queue_grows(GraphNode::Node(n.id), nodes, k + 1, g3, l3, n.choices.len() > 0);
        lemma_grow_trans(g, g3, queue(GraphNode::Node(n.id), nodes, k + 1, g3, l3, n.choices.len() > 0).0);
    }
}

proof fn lemma_branches_grows(
    c: BuildNodeId,
    cs: Seq<(Seq<char>, BuilderModel)>,
    j: nat,
    g: GraphModel,
    leaves: Seq<BuildNodeId>,
)
    ensures
        edges_grow(g, branches(c, cs, j, g, leaves).0),
    decreases cs, 1int, cs.len() - j,
{
    if j >= cs.len() {
        lemma_grow_append(g, g, Seq::empty());
        assert(g.edges =~= g.edges + Seq::<(GraphNode, BuildNodeId)>::empty());
    } else {
        let r = form(GraphNode::Node(c), cs[j as int].1, g);
        lemma_form_grows(GraphNode::Node(c), cs[j as int].1, g);
        let h = GraphModel { nodes: r.0.nodes, edges: r.0.edges, options: r.0.options.push((c, cs[j as int].0, r.1)), ends: r.0.ends };
        lemma_branches_grows(c, cs, j + 1, h, leaves + r.2);
        lemma_grow_trans(g, h, branches(c, cs, j + 1, h, leaves + r.2).0);
    }
}

/// The leaves gathered over branches keep those gathered before.
proof fn lemma_branches_keep(
    c: BuildNodeId,
    cs: Seq<(Seq<char>, BuilderModel)>,
    j: nat,
    g: GraphModel,
    leaves: Seq<BuildNodeId>,
    l: BuildNodeId,
)
    requires
        leaves.contains(l),
    ensures
        branches(c, cs, j, g, leaves).1.contains(l),
    decreases cs.len() - j,
{
    if j < cs.len() {
        let r = form(GraphNode::Node(c), cs[j as int].1, g);
        let h = GraphModel { nodes: r.0.nodes, edges: r.0.edges, options: r.0.options.push((c, cs[j as int].0, r.1)), ends: r.0.ends };
        let q = choose|q: int| 0 <= q < leaves.len() && leaves[q] == l;
        assert((leaves + r.2)[q] == l);
        lemma_branches_keep(c, cs, j + 1, h, leaves + r.2, l);
    }
}

/// The leaves gathered over branches include those of every branch.
proof fn lemma_branches_collect(
    c: BuildNodeId,
    cs: Seq<(Seq<char>, BuilderModel)>,
    j: nat,
    g: GraphModel,
    leaves: Seq<BuildNodeId>,
    j2: int,
    l: BuildNodeId,
)
    requires
        j <= j2 < cs.len(),
        leaves_of(cs[j2].1).contains(l),
    ensures
        branches(c, cs, j, g, leaves).1.contains(l),
    decreases cs.len() - j,
{
    let r = form(GraphNode::Node(c), cs[j as int].1, g);
    let h = GraphModel { nodes: r.0.nodes, edges: r.0.edges, options: r.0.options.push((c, cs[j as int].0, r.1)), ends: r.0.ends };
    if j == j2 {
        lemma_form_leaves(GraphNode::Node(c), GraphNode::Start, cs[j as int].1, g, empty_graph());
        let q = choose|q: int| 0 <= q < r.2.len() && r.2[q] == l;
        assert((leaves + r.2)[leaves.len() + q] == l);
        lemma_branches_keep(c, cs, j + 1, h, leaves + r.2, l);
    } else {
        lemma_branches_collect(c, cs, j + 1, h, leaves + r.2, j2, l);
    }
}

proof fn lemma_queue_converge(
    p: GraphNode,
    nodes: Seq<NodeModel>,
    i: nat,
    g: GraphModel,
    leaves: Seq<BuildNodeId>,
    after_choice: bool,
    k: int,
    j: int,
    l: BuildNodeId,
)
    requires
        i <= k,
        k + 1 < nodes.len(),
        0 <= j < nodes[k].choices.len(),
        leaves_of(nodes[k].choices[j].1).contains(l),
    ensures
        queue(p, nodes, i, g, leaves, after_choice).0.edges.contains((GraphNode::Node(l), nodes[k + 1].id)),
    decreases k - i,
{
    let n = nodes[i as int];
    let g0 = GraphModel { nodes: g.nodes.push((n.id, n.text)), edges: g.edges, options: g.options, ends: g.ends };
    let (g1, l1) = if after_choice {
        (
            GraphModel { nodes: g0.nodes, edges: g0.edges + leaf_edges(leaves, n.id), options: g0.options, ends: g0.ends },
            Seq::empty(),
        )
    } else {
        (add_edge(g0, (p, n.id)), leaves)
    };
    let (g2, l2) = if n.choices.len() > 0 {
        branches(n.id, n.choices, 0, g1, l1)
    } else {
        (g1, l1)
    };
    let g3 = GraphModel {
        nodes: g2.nodes,
        edges: g2.edges + manual_edges(n.id, n.manual_connections),
        options: g2.options,
        ends: if i + 1 == nodes.len() && n.manual_connections.len() == 0 {
            g2.ends.push(n.id)
        } else {
            g2.ends
        },
    };
    let l3 = if i + 1 == nodes.len() {
        l2.push(n.id)
    } else {
        l2
    };
    if i < k {
        lemma_queue_converge(GraphNode::Node(n.id), nodes, i + 1, g3, l3, n.choices.len() > 0, k, j, l);
    } else {
        // The choice node: its branch leaves are gathered.
        lemma_branches_collect(n.id, n.choices, 0, g1, l1, j, l);
        assert(l3 == l2);
        let q = choose|q: int| 0 <= q < l3.len() && l3[q] == l;
        // The next node: every gathered leaf leads to it.
        let m = nodes[(i + 1) as int];
        let h0 = GraphModel { nodes: g3.nodes.push((m.id, m.text)), edges: g3.edges, options: g3.options, ends: g3.ends };
        let h1 = GraphModel { nodes: h0.nodes, edges: h0.edges + leaf_edges(l3, m.id), options: h0.options, ends: h0.ends };
        let e = (GraphNode::Node(l), m.id);
        assert(h1.edges[g3.edges.len() + q] == e);
        let (h2, m2) = if m.choices.len() > 0 {
            branches(m.id, m.choices, 0, h1, Seq::empty())
        } else {
            (h1, Seq::empty())
        };
        if m.choices.len() > 0 {
            lemma_branches_grows(m.id, m.choices, 0, h1, Seq::empty());
        } else {
            lemma_grow_append(h1, h2, Seq::empty());
            assert(h2.edges =~= h1.edges + Seq::<(GraphNode, BuildNodeId)>::empty());
        }
        let h3 = GraphModel {
            nodes: h2.nodes,
            edges: h2.edges + manual_edges(m.id, m.manual_connections),
            options: h2.options,
            ends: if i + 2 == nodes.len() && m.manual_connections.len() == 0 {
                h2.ends.push(m.id)
            } else {
                h2.ends
            },
        };
        lemma_grow_append(h2, h3, manual_edges(m.id, m.manual_connections));
        let m3 = if i + 2 == nodes.len() {
            m2.push(m.id)
        } else {
            m2
        };
        lemma_queue_grows(GraphNode::Node(m.id), nodes, i + 2, h3, m3, m.choices.len() > 0);
        let fin = queue(GraphNode::Node(m.id), nodes, i + 2, h3, m3, m.choices.len() > 0).0;
        lemma_grow_trans(h1, h2, h3);
        lemma_grow_trans(h1, h3, fin);
        assert(fin.edges[g3.edges.len() + q] == e);
        assert(queue(GraphNode::Node(n.id), nodes, i + 1, g3, l3, true).0 == fin);
    }
}

/// Choice branches converge: when a choice node is followed by another node
/// in a builder, every leaf of every branch of the choice leads to that
/// node.
pub proof fn law_branches_converge(b: BuilderModel, k: int, j: int, l: BuildNodeId)
    requires
        0 <= k,
        k + 1 < b.nodes.len(),
        0 <= j < b.nodes[k].choices.len(),
        leaves_of(b.nodes[k].choices[j].1).contains(l),
    ensures
        spec_talk_graph(b).edges.contains((GraphNode::Node(l), b.nodes[k + 1].id)),
{
    let g1 = match b.connect_parent {
        Some(id) => add_edge(empty_graph(), (GraphNode::Start, id)),
        None => empty_graph(),
    };
    lemma_queue_converge(GraphNode::Start, b.nodes, 0, g1, Seq::empty(), false, k, j, l);
}

/// The first link a builder makes below `root`: to the node it names by
/// hand, or else to its first node.
pub open spec fn first_link(root: GraphNode, b: BuilderModel) -> Option<(GraphNode, BuildNodeId)> {
    match b.connect_parent {
        Some(id) => Some((root, id)),
        None => if b.nodes.len() > 0 {
            Some((root, b.nodes[0].id))
        } else {
            None
        },
    }
}

proof fn lemma_contains_grows(g: GraphModel, h: GraphModel, e: (GraphNode, BuildNodeId))
    requires
        edges_grow(g, h),
        g.edges.contains(e),
    ensures
        h.edges.contains(e),
{
    let q = choose|q: int| 0 <= q < g.edges.len() && g.edges[q] == e;
    assert(h.edges[q] == e);
}

/// The links one node of a queue makes, as the graph after that node.
proof fn lemma_queue_step(
    p: GraphNode,
    nodes: Seq<NodeModel>,
    i: nat,
    g: GraphModel,
    leaves: Seq<BuildNodeId>,
    after_choice: bool,
    k: int,
)
    requires
        i <= k < nodes.len(),
    ensures
        k == i && !after_choice ==> queue(p, nodes, i, g, leaves, after_choice).0.edges.contains((p, nodes[k].id)),
        k > i && nodes[k - 1].choices.len() == 0 ==> queue(p, nodes, i, g, leaves, after_choice).0.edges.contains(
            (GraphNode::Node(nodes[k - 1].id), nodes[k].id),
        ),
        forall|m: int|
            0 <= m < nodes[k].manual_connections.len() ==> queue(p, nodes, i, g, leaves, after_choice).0.edges.contains(
                (GraphNode::Node(nodes[k].id), #[trigger] nodes[k].manual_connections[m]),
            ),
        forall|j: int|
            0 <= j < nodes[k].choices.len() && (#[trigger] first_link(
                GraphNode::Node(nodes[k].id),
                nodes[k].choices[j].1,
            )) is Some ==> queue(p, nodes, i, g, leaves, after_choice).0.edges.contains(
                first_link(GraphNode::Node(nodes[k].id), nodes[k].choices[j].1)->0,
            ),
    decreases nodes, 0int, k - i,
{
    let n = nodes[i as int];
    let g0 = GraphModel { nodes: g.nodes.push((n.id, n.text)), edges: g.edges, options: g.options, ends: g.ends };
    let (g1, l1) = if after_choice {
        (
            GraphModel { nodes: g0.nodes, edges: g0.edges + leaf_edges(leaves, n.id), options: g0.options, ends: g0.ends },
            Seq::empty(),
        )
    } else {
        (add_edge(g0, (p, n.id)), leaves)
    };
    let (g2, l2) = if n.choices.len() > 0 {
        branches(n.id, n.choices, 0, g1, l1)
    } else {
        (g1, l1)
    };
    let g3 = GraphModel {
        nodes: g2.nodes,
        edges: g2.edges + manual_edges(n.id, n.manual_connections),
        options: g2.options,
        ends: if i + 1 == nodes.len() && n.manual_connections.len() == 0 {
            g2.ends.push(n.id)
        } else {
            g2.ends
        },
    };
    let l3 = if i + 1 == nodes.len() {
        l2.push(n.id)
    } else {
        l2
    };
    let rest = queue(GraphNode::Node(n.id), nodes, i + 1, g3, l3, n.choices.len() > 0);
    if k > i {
        lemma_queue_step(GraphNode::Node(n.id), nodes, i + 1, g3, l3, n.choices.len() > 0, k);
    } else {
        if n.choices.len() > 0 {
            lemma_branches_grows(n.id, n.choices, 0, g1, l1);
        } else {
            lemma_grow_append(g1, g2, Seq::empty());
            assert(g2.edges =~= g1.edges + Seq::<(GraphNode, BuildNodeId)>::empty());
        }
        lemma_grow_append(g2, g3, manual_edges(n.id, n.manual_connections));
        lemma_grow_trans(g1, g2, g3);
        if i + 1 < nodes.len() {
            lemma_queue_grows(GraphNode::Node(n.id), nodes, i + 1, g3, l3, n.choices.len() > 0);
        } else {
            assert(rest.0 == g3);
            lemma_grow_append(g3, rest.0, Seq::empty());
            assert(g3.edges =~= g3.edges + Seq::<(GraphNode, BuildNodeId)>::empty());
        }
        lemma_grow_trans(g1, g3, rest.0);
        lemma_grow_trans(g2, g3, rest.0);
        if !after_choice {
            assert(g1.edges[g.edges.len() as int] == (p, n.id));
            lemma_contains_grows(g1, rest.0, (p, n.id));
        }
        assert forall|m: int| 0 <= m < n.manual_connections.len() implies rest.0.edges.contains(
            (GraphNode::Node(n.id), #[trigger] n.manual_connections[m]),
        ) by {
            assert(g3.edges[g2.edges.len() + m] == (GraphNode::Node(n.id), n.manual_connections[m]));
            lemma_contains_grows(g3, rest.0, (GraphNode::Node(n.id), n.manual_connections[m]));
        }
        assert forall|j: int|
            0 <= j < n.choices.len() && (#[trigger] first_link(GraphNode::Node(n.id), n.choices[j].1)) is Some implies rest.0.edges.contains(
            first_link(GraphNode::Node(n.id), n.choices[j].1)->0,
        ) by {
            lemma_branches_first(n.id, n.choices, 0, g1, l1, j);
            lemma_contains_grows(g2, rest.0, first_link(GraphNode::Node(n.id), n.choices[j].1)->0);
        }
    }
}

/// The links over branches include the first link of every branch.
proof fn lemma_branches_first(
    c: BuildNodeId,
    cs: Seq<(Seq<char>, BuilderModel)>,
    j: nat,
    g: GraphModel,
    leaves: Seq<BuildNodeId>,
    j2: int,
)
    requires
        j <= j2 < cs.len(),
        first_link(GraphNode::Node(c), cs[j2].1) is Some,
    ensures
        branches(c, cs, j, g, leaves).0.edges.contains(first_link(GraphNode::Node(c), cs[j2].1)->0),
    decreases cs, 0int, cs.len() - j,
{
    let r = form(GraphNode::Node(c), cs[j as int].1, g);
    let h = GraphModel { nodes: r.0.nodes, edges: r.0.edges, options: r.0.options.push((c, cs[j as int].0, r.1)), ends: r.0.ends };
    if j == j2 {
        let b = cs[j as int].1;
        let e = first_link(GraphNode::Node(c), b)->0;
        let h0 = match b.connect_parent {
            Some(id) => add_edge(g, (GraphNode::Node(c), id)),
            None => g,
        };
        match b.connect_parent {
            Some(id) => {
                assert(h0.edges[g.edges.len() as int] == e);
                lemma_queue_grows(GraphNode::Node(c), b.nodes, 0, h0, Seq::empty(), false);
                lemma_contains_grows(h0, r.0, e);
            },
            None => {
                lemma_queue_step(GraphNode::Node(c), b.nodes, 0, h0, Seq::empty(), false, 0);
            },
        }
        lemma_branches_grows(c, cs, j + 1, h, leaves + r.2);
        lemma_contains_grows(h, branches(c, cs, j + 1, h, leaves + r.2).0, e);
    } else {
        lemma_branches_first(c, cs, j + 1, h, leaves + r.2, j2);
    }
}

/// The links of a builder's graph follow its nodes: the start node leads to
/// the first node (or the node named by hand); each node that is not a
/// choice leads to the node after it; each node leads to the nodes it is
/// connected to by hand; and each choice node leads to the first node of
/// each branch, or to the node the branch names by hand.
pub proof fn law_graph_follows_nodes(b: BuilderModel, k: int)
    requires
        0 <= k < b.nodes.len(),
    ensures
        k == 0 && b.connect_parent is None ==> spec_talk_graph(b).edges.contains((GraphNode::Start, b.nodes[0].id)),
        k > 0 && b.nodes[k - 1].choices.len() == 0 ==> spec_talk_graph(b).edges.contains(
            (GraphNode::Node(b.nodes[k - 1].id), b.nodes[k].id),
        ),
        forall|m: int|
            0 <= m < b.nodes[k].manual_connections.len() ==> spec_talk_graph(b).edges.contains(
                (GraphNode::Node(b.nodes[k].id), #[trigger] b.nodes[k].manual_connections[m]),
            ),
        forall|j: int|
            0 <= j < b.nodes[k].choices.len() && (#[trigger] first_link(
                GraphNode::Node(b.nodes[k].id),
                b.nodes[k].choices[j].1,
            )) is Some ==> spec_talk_graph(b).edges.contains(
                first_link(GraphNode::Node(b.nodes[k].id), b.nodes[k].choices[j].1)->0,
            ),
{
    let g1 = match b.connect_parent {
        Some(id) => add_edge(empty_graph(), (GraphNode::Start, id)),
        None => empty_graph(),
    };
    lemma_queue_step(GraphNode::Start, b.nodes, 0, g1, Seq::empty(), false, k);
}

/// Every node of a builder at every depth, with its text: each node comes
/// before the nodes of its branches, and the branches in order.
pub open spec fn tree_nodes(b: BuilderModel) -> Seq<(BuildNodeId, Seq<char>)>
    decreases b, 2int,
{
    queue_nodes(b.nodes)
}

/// Every node of a sequence of nodes and of their branches.
pub open spec fn queue_nodes(s: Seq<NodeModel>) -> Seq<(BuildNodeId, Seq<char>)>
    decreases s, 1int,
{
    if s.len() == 0 {
        Seq::empty()
    } else {
        seq![(s[0].id, s[0].text)] + branch_nodes(s[0].choices) + queue_nodes(s.subrange(1, s.len() as int))
    }
}

/// Every node of a sequence of branches.
pub open spec fn branch_nodes(cs: Seq<(Seq<char>, BuilderModel)>) -> Seq<(BuildNodeId, Seq<char>)>
    decreases cs, 1int,
{
    if cs.len() == 0 {
        Seq::empty()
    } else {
        tree_nodes(cs[0].1) + branch_nodes(cs.subrange(1, cs.len() as int))
    }
}

proof fn lemma_form_nodes(r: GraphNode, b: BuilderModel, g: GraphModel)
    ensures
        form(r, b, g).0.nodes == g.nodes + tree_nodes(b),
    decreases b, 2int, 0int,
{
    let h = match b.connect_parent {
        Some(id) => add_edge(g, (r, id)),
        None => g,
    };
    lemma_queue_nodes(r, b.nodes, 0, h, Seq::empty(), false);
    assert(b.nodes.subrange(0, b.nodes.len() as int) =~= b.nodes);
}

proof fn lemma_queue_nodes(
    p: GraphNode,
    nodes: Seq<NodeModel>,
    k: nat,
    g: GraphModel,
    leaves: Seq<BuildNodeId>,
    after_choice: bool,
)
    requires
        k <= nodes.len(),
    ensures
        queue(p, nodes, k, g, leaves, after_choice).0.nodes == g.nodes + queue_nodes(
            nodes.subrange(k as int, nodes.len() as int),
        ),
    decreases nodes, 1int, nodes.len() - k,
{
    let t = nodes.subrange(k as int, nodes.len() as int);
    if k >= nodes.len() {
        assert(t.len() == 0);
        assert(g.nodes + queue_nodes(t) =~= g.nodes);
    } else {
        let n = nodes[k as int];
        let g0 = GraphModel { nodes: g.nodes.push((n.id, n.text)), edges: g.edges, options: g.options, ends: g.ends };
        let (g1, l1) = if after_choice {
            (
                GraphModel { nodes: g0.nodes, edges: g0.edges + leaf_edges(leaves, n.id), options: g0.options, ends: g0.ends },
                Seq::empty(),
            )
        } else {
            (add_edge(g0, (p, n.id)), leaves)
        };
        let (g2, l2) = if n.choices.len() > 0 {
            branches(n.id, n.choices, 0, g1, l1)
        } else {
            (g1, l1)
        };
        if n.choices.len() > 0 {
            lemma_branches_nodes(n.id, n.choices, 0, g1, l1);
            assert(n.choices.subrange(0, n.choices.len() as int) =~= n.choices);
        } else {
            assert(branch_nodes(n.choices) =~= Seq::<(BuildNodeId, Seq<char>)>::empty());
        }
        let g3 = GraphModel {
            nodes: g2.nodes,
            edges: g2.edges + manual_edges(n.id, n.manual_connections),
            options: g2.options,
            ends: if k + 1 == nodes.len() && n.manual_connections.len() == 0 {
                g2.ends.push(n.id)
            } else {
                g2.ends
            },
        };
        let l3 = if k + 1 == nodes.len() {
            l2.push(n.id)
        } else {
            l2
        };
        lemma_queue_nodes(GraphNode::Node(n.id), nodes, k + 1, g3, l3, n.choices.len() > 0);
        assert(t[0] == n);
        assert(t.subrange(1, t.len() as int) =~= nodes.subrange((k + 1) as int, nodes.len() as int));
        assert(g.nodes + queue_nodes(t) =~= g.nodes.push((n.id, n.text)) + branch_nodes(n.choices) + queue_nodes(
            nodes.subrange((k + 1) as int, nodes.len() as int),
        ));
    }
}

proof fn lemma_branches_nodes(
    c: BuildNodeId,
    cs: Seq<(Seq<char>, BuilderModel)>,
    j: nat,
    g: GraphModel,
    leaves: Seq<BuildNodeId>,
)
    requires
        j <= cs.len(),
    ensures
        branches(c, cs, j, g, leaves).0.nodes == g.nodes + branch_nodes(cs.subrange(j as int, cs.len() as int)),
    decreases cs, 1int, cs.len() - j,
{
    let t = cs.subrange(j as int, cs.len() as int);
    if j >= cs.len() {
        assert(g.nodes + branch_nodes(t) =~= g.nodes);
    } else {
        let r = form(GraphNode::Node(c), cs[j as int].1, g);
        lemma_form_nodes(GraphNode::Node(c), cs[j as int].1, g);
        let h = GraphModel { nodes: r.0.nodes, edges: r.0.edges, options: r.0.options.push((c, cs[j as int].0, r.1)), ends: r.0.ends };
        lemma_branches_nodes(c, cs, j + 1, h, leaves + r.2);
        assert(t[0] == cs[j as int]);
        assert(t.subrange(1, t.len() as int) =~= cs.subrange((j + 1) as int, cs.len() as int));
        assert(g.nodes + branch_nodes(t) =~= g.nodes + tree_nodes(cs[j as int].1) + branch_nodes(
            cs.subrange((j + 1) as int, cs.len() as int),
        ));
    }
}

/// The graph of a builder lists every node of the builder at every depth,
/// choice nodes included, each with its id and text, once, in order: a
/// node before the nodes of its branches.
pub proof fn law_graph_lists_every_node(b: BuilderModel)
    ensures
        spec_talk_graph(b).nodes == tree_nodes(b),
{
    lemma_form_nodes(GraphNode::Start, b, empty_graph());
    assert(empty_graph().nodes + tree_nodes(b) =~= tree_nodes(b));
}

} // verus!
