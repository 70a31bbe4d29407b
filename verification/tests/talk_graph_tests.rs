use bevy_talks::builder::TalkBuilder;
use bevy_talks::talk_graph::{talk_graph, GraphNode};

fn s(t: &str) -> String {
    t.to_string()
}

#[test]
fn linear_builder_links_in_order() {
    let b = TalkBuilder::new().say(s("a"), 0).say(s("b"), 1).say(s("c"), 2);
    let g = talk_graph(&b);
    assert_eq!(g.edges, vec![(GraphNode::Start, 0), (GraphNode::Node(0), 1), (GraphNode::Node(1), 2)]);
    assert_eq!(g.ends, vec![2]);
    assert!(g.options.is_empty());
}

#[test]
fn branches_converge_on_the_next_node() {
    let b = TalkBuilder::new()
        .say(s("hello"), 0)
        .choose_branches(
            vec![(s("Choice 1"), TalkBuilder::new().say(s("x"), 1)), (s("Choice 2"), TalkBuilder::new().say(s("y"), 2))],
            3,
        )
        .say(s("hi"), 4);
    let g = talk_graph(&b);
    assert_eq!(
        g.edges,
        vec![
            (GraphNode::Start, 0),
            (GraphNode::Node(0), 3),
            (GraphNode::Node(3), 1),
            (GraphNode::Node(3), 2),
            (GraphNode::Node(1), 4),
            (GraphNode::Node(2), 4),
        ]
    );
    assert_eq!(g.options, vec![(3, s("Choice 1"), GraphNode::Node(1)), (3, s("Choice 2"), GraphNode::Node(2))]);
    assert_eq!(g.ends, vec![1, 2, 4]);
}

#[test]
fn manual_connections_and_parent_connections() {
    let b = TalkBuilder::new().say(s("hello"), 0);
    let b = b.say(s("how are you?"), 1).connect_to(0);
    let b = b.choose_branches(
        vec![(s("again"), TalkBuilder::new().connect_to(0)), (s("stay"), TalkBuilder::new())],
        2,
    );
    let g = talk_graph(&b);
    assert_eq!(
        g.edges,
        vec![
            (GraphNode::Start, 0),
            (GraphNode::Node(0), 1),
            (GraphNode::Node(1), 0),
            (GraphNode::Node(1), 2),
            (GraphNode::Node(2), 0),
        ]
    );
    assert_eq!(g.options, vec![(2, s("again"), GraphNode::Node(0)), (2, s("stay"), GraphNode::Node(2))]);
    assert_eq!(g.ends, vec![2]);
}

#[test]
fn empty_builder_has_no_links() {
    let g = talk_graph(&TalkBuilder::new());
    assert!(g.edges.is_empty());
    assert!(g.ends.is_empty());
}
