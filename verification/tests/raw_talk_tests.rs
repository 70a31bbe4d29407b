use std::collections::BTreeMap;
use std::hash::RandomState;

use bevy_talks::builder::TalkBuilder;
use bevy_talks::errors::BuildTalkError;
use bevy_talks::talk_data::{Action, ChoiceData, NodeKind, TalkData};
use bevy_talks::talk_graph::{talk_graph, GraphNode};
use indexmap::IndexMap;

/// A node of a built tree, with the ids of the nodes it leads to.
struct Flat {
    text: String,
    choice_texts: Vec<String>,
    targets: Vec<usize>,
}

fn first_id(b: &TalkBuilder) -> Option<usize> {
    match b.queue.first() {
        Some(n) => Some(n.id),
        None => b.connect_parent,
    }
}

fn flatten(b: &TalkBuilder, out: &mut BTreeMap<usize, Flat>) {
    for (i, n) in b.queue.iter().enumerate() {
        let mut targets = Vec::new();
        if n.choices.is_empty() {
            if let Some(next) = b.queue.get(i + 1) {
                targets.push(next.id);
            }
        } else {
            for (_, branch) in &n.choices {
                if let Some(t) = first_id(branch) {
                    targets.push(t);
                }
                flatten(branch, out);
            }
        }
        targets.extend(n.manual_connections.iter().copied());
        let choice_texts = n.choices.iter().map(|(t, _)| t.clone()).collect();
        let old = out.insert(n.id, Flat { text: n.text.clone(), choice_texts, targets });
        assert!(old.is_none(), "node ids are distinct");
    }
}

fn graph(b: &TalkBuilder) -> BTreeMap<usize, Flat> {
    let mut out = BTreeMap::new();
    flatten(b, &mut out);
    out
}

/// The texts each text node leads to, by text.
fn text_edges(g: &BTreeMap<usize, Flat>) -> BTreeMap<String, Vec<String>> {
    g.values()
        .filter(|f| f.choice_texts.is_empty())
        .map(|f| (f.text.clone(), f.targets.iter().map(|t| label(g, *t)).collect()))
        .collect()
}

fn label(g: &BTreeMap<usize, Flat>, id: usize) -> String {
    let f = &g[&id];
    if f.choice_texts.is_empty() {
        f.text.clone()
    } else {
        format!("choice: {}", f.choice_texts.join(" | "))
    }
}

fn talk(id_actions: Vec<(usize, Action)>) -> TalkData {
    let mut script: IndexMap<usize, Action, RandomState> = IndexMap::default();
    for (id, a) in id_actions {
        script.insert(id, a);
    }
    TalkData { actors: vec![], script }
}

fn say(text: &str, next: Option<usize>) -> Action {
    Action { text: text.to_string(), next, ..Default::default() }
}

fn choice(choices: Vec<(&str, usize)>) -> Action {
    Action {
        kind: NodeKind::Choice,
        choices: choices.into_iter().map(|(t, n)| ChoiceData { text: t.to_string(), next: n }).collect(),
        ..Default::default()
    }
}

fn count_text(g: &BTreeMap<usize, Flat>) -> usize {
    g.values().filter(|f| f.choice_texts.is_empty()).count()
}

fn count_choice(g: &BTreeMap<usize, Flat>) -> usize {
    g.values().filter(|f| !f.choice_texts.is_empty()).count()
}

fn strings(v: &[&str]) -> Vec<String> {
    v.iter().map(|s| s.to_string()).collect()
}

#[test]
fn error_into_builder_empty() {
    let res = talk(vec![]).into_builder();
    assert!(res.is_err());
    assert_eq!(res.err(), Some(BuildTalkError::EmptyTalk));
}

#[test]
fn raw_talk_error_invalid_next_action() {
    let t = talk(vec![(0, Action { next: Some(2), ..Default::default() })]);
    let res = t.into_builder().err();
    assert_eq!(res, Some(BuildTalkError::InvalidNextAction(0, 2)));
}

#[test]
fn raw_talk_error_not_found_in_choice() {
    let t = talk(vec![
        (0, Action { choices: vec![ChoiceData { next: 2, ..Default::default() }], ..Default::default() }),
        (1, Action { ..Default::default() }),
    ]);
    let res = t.into_builder().err();
    assert_eq!(res, Some(BuildTalkError::InvalidNextAction(0, 2)));
}

#[test]
fn linear_talk_nodes() {
    for nodes in [1usize, 2, 10, 200, 1000] {
        let mut actions = Vec::new();
        for index in 0..nodes {
            let next = if nodes > 1 && index < nodes - 1 { Some(index + 1) } else { None };
            actions.push((index, say("Hello", next)));
        }
        let b = talk(actions).into_builder().unwrap();
        let g = graph(&b);
        assert_eq!(b.queue.len(), nodes);
        assert_eq!(count_text(&g), nodes);
        for (i, n) in b.queue.iter().enumerate() {
            assert_eq!(n.text, "Hello");
            let expected = if i + 1 < nodes { vec![b.queue[i + 1].id] } else { vec![] };
            assert_eq!(g[&n.id].targets, expected);
        }
    }
}

#[test]
fn talk_nodes_with_loop() {
    let t = talk(vec![(1, say("1", Some(10))), (2, say("2", Some(10))), (10, say("10", Some(2)))]);
    let b = t.into_builder().unwrap();
    let g = graph(&b);
    assert_eq!(count_text(&g), 3);
    let edges = text_edges(&g);
    assert_eq!(edges["1"], strings(&["10"]));
    assert_eq!(edges["2"], strings(&["10"]));
    assert_eq!(edges["10"], strings(&["2"]));
    assert_eq!(b.queue[0].text, "1");
}

#[test]
fn choice_pointing_to_talks() {
    let t = talk(vec![
        (0, choice(vec![("Choice 1", 1), ("Choice 2", 2)])),
        (1, say("Hello", Some(2))),
        (2, say("Fin", None)),
    ]);
    let b = t.into_builder().unwrap();
    let g = graph(&b);
    assert_eq!(count_text(&g), 2);
    assert_eq!(count_choice(&g), 1);
    assert_eq!(b.queue.len(), 1);
    let root = &g[&b.queue[0].id];
    assert_eq!(root.choice_texts, strings(&["Choice 1", "Choice 2"]));
    let targets: Vec<String> = root.targets.iter().map(|t| label(&g, *t)).collect();
    assert_eq!(targets, strings(&["Hello", "Fin"]));
    let edges = text_edges(&g);
    assert_eq!(edges["Hello"], strings(&["Fin"]));
    assert!(edges["Fin"].is_empty());
}

#[test]
fn raw_talk_connect_back_from_branch_book_example() {
    let t = talk(vec![
        (0, say("First Text", Some(1))),
        (1, say("Second Text", Some(2))),
        (2, choice(vec![("Choice 1", 3), ("Choice 2", 4)])),
        (3, say("Third Text (End)", None)),
        (4, say("Fourth Text", Some(0))),
    ]);
    let b = t.into_builder().unwrap();
    let g = graph(&b);
    assert_eq!(count_text(&g), 4);
    assert_eq!(count_choice(&g), 1);
    let edges = text_edges(&g);
    assert_eq!(edges["First Text"], strings(&["Second Text"]));
    assert_eq!(edges["Second Text"], strings(&["choice: Choice 1 | Choice 2"]));
    assert!(edges["Third Text (End)"].is_empty());
    assert_eq!(edges["Fourth Text"], strings(&["First Text"]));
    let choice_node = g.values().find(|f| !f.choice_texts.is_empty()).unwrap();
    let targets: Vec<String> = choice_node.targets.iter().map(|t| label(&g, *t)).collect();
    assert_eq!(targets, strings(&["Third Text (End)", "Fourth Text"]));
}

#[test]
fn raw_talk_connect_forward_from_book_example() {
    let t = talk(vec![
        (0, choice(vec![("First Choice 1", 1), ("First Choice 2", 2)])),
        (1, say("First Text", Some(3))),
        (2, say("Last Text", None)),
        (3, choice(vec![("Second Choice 1", 2), ("Second Choice 2", 4)])),
        (4, say("Second Text", Some(2))),
    ]);
    let b = t.into_builder().unwrap();
    let g = graph(&b);
    assert_eq!(count_text(&g), 3);
    assert_eq!(count_choice(&g), 2);
    let edges = text_edges(&g);
    assert_eq!(edges["First Text"], strings(&["choice: Second Choice 1 | Second Choice 2"]));
    assert!(edges["Last Text"].is_empty());
    assert_eq!(edges["Second Text"], strings(&["Last Text"]));
    let first = &g[&b.queue[0].id];
    let targets: Vec<String> = first.targets.iter().map(|t| label(&g, *t)).collect();
    assert_eq!(targets, strings(&["First Text", "Last Text"]));
    let second = g.values().find(|f| f.choice_texts.first().map(String::as_str) == Some("Second Choice 1")).unwrap();
    let targets: Vec<String> = second.targets.iter().map(|t| label(&g, *t)).collect();
    assert_eq!(targets, strings(&["Last Text", "Second Text"]));
}

#[test]
fn node_ids_follow_creation_order() {
    let t = talk(vec![(0, say("a", Some(1))), (1, say("b", None))]);
    let b = t.into_builder().unwrap();
    assert_eq!(b.queue[0].id, 0);
    assert_eq!(b.queue[1].id, 1);
    assert_eq!(b.last_node_id(), 1);
}

#[test]
fn join_action_is_refused() {
    let t = talk(vec![(0, say("a", Some(1))), (1, Action { kind: NodeKind::Join, ..Default::default() })]);
    assert_eq!(t.into_builder().err(), Some(BuildTalkError::UnsupportedAction(1)));
}

#[test]
fn leave_action_is_refused() {
    let t = talk(vec![(7, Action { kind: NodeKind::Leave, ..Default::default() })]);
    assert_eq!(t.into_builder().err(), Some(BuildTalkError::UnsupportedAction(7)));
}

#[test]
fn choice_back_to_itself_is_refused() {
    let t = talk(vec![(0, choice(vec![("again", 0)]))]);
    assert_eq!(t.into_builder().err(), Some(BuildTalkError::ChoiceCycle(0)));
}

#[test]
fn choice_back_through_a_talk_is_built() {
    let t = talk(vec![(0, choice(vec![("go", 1)])), (1, say("t", Some(0)))]);
    let b = t.into_builder().unwrap();
    let g = graph(&b);
    assert_eq!(count_text(&g), 1);
    assert_eq!(count_choice(&g), 2);
}

#[test]
fn choice_without_choices_is_an_empty_text_node() {
    let t = talk(vec![(0, say("a", Some(1))), (1, Action { kind: NodeKind::Choice, ..Default::default() })]);
    let b = t.into_builder().unwrap();
    assert_eq!(b.queue.len(), 2);
    assert_eq!(b.queue[1].text, "");
    assert!(b.queue[1].choices.is_empty());
}

#[test]
fn talk_with_choices_and_missing_next_is_refused() {
    let t = talk(vec![(
        0,
        Action { choices: vec![ChoiceData { next: 0, ..Default::default() }], next: Some(9), ..Default::default() },
    )]);
    assert_eq!(t.into_builder().err(), Some(BuildTalkError::InvalidNextAction(0, 9)));
}

#[test]
fn builder_connect_on_empty_names_parent() {
    let b = TalkBuilder::new().connect_to(4);
    assert!(b.queue.is_empty());
    assert_eq!(b.connect_parent, Some(4));
    let b = TalkBuilder::new().say("x".to_string(), 3).connect_to(4);
    assert_eq!(b.connect_parent, None);
    assert_eq!(b.queue[0].manual_connections, vec![4]);
}

fn targets(b: &TalkBuilder, out: &mut Vec<usize>) {
    out.extend(b.connect_parent);
    for n in &b.queue {
        for (_, branch) in &n.choices {
            targets(branch, out);
        }
        out.extend(n.manual_connections.iter().copied());
    }
}

#[test]
fn connections_lead_to_built_nodes_and_ids_count_up() {
    let t = talk(vec![
        (0, choice(vec![("First Choice 1", 1), ("First Choice 2", 2)])),
        (1, say("First Text", Some(3))),
        (2, say("Last Text", None)),
        (3, choice(vec![("Second Choice 1", 2), ("Second Choice 2", 4)])),
        (4, say("Second Text", Some(2))),
    ]);
    let b = t.into_builder().unwrap();
    let g = graph(&b);
    let ids: Vec<usize> = g.keys().copied().collect();
    assert_eq!(ids, (0..g.len()).collect::<Vec<usize>>());
    let mut ts = Vec::new();
    targets(&b, &mut ts);
    assert!(!ts.is_empty());
    for t in ts {
        assert!(g.contains_key(&t));
    }
}

fn linked(b: &TalkBuilder) -> Vec<(String, String)> {
    let g = graph(b);
    let tg = talk_graph(b);
    let mut out: Vec<(String, String)> = tg
        .edges
        .iter()
        .map(|(from, to)| {
            let from = match from {
                GraphNode::Start => "start".to_string(),
                GraphNode::Node(id) => label(&g, *id),
            };
            (from, label(&g, *to))
        })
        .collect();
    out.sort();
    out
}

fn pairs(v: &[(&str, &str)]) -> Vec<(String, String)> {
    let mut out: Vec<(String, String)> = v.iter().map(|(a, b)| (a.to_string(), b.to_string())).collect();
    out.sort();
    out
}

#[test]
fn book_example_back_links() {
    let t = talk(vec![
        (0, say("First Text", Some(1))),
        (1, say("Second Text", Some(2))),
        (2, choice(vec![("Choice 1", 3), ("Choice 2", 4)])),
        (3, say("Third Text (End)", None)),
        (4, say("Fourth Text", Some(0))),
    ]);
    let b = t.into_builder().unwrap();
    let c = "choice: Choice 1 | Choice 2";
    assert_eq!(
        linked(&b),
        pairs(&[
            ("start", "First Text"),
            ("First Text", "Second Text"),
            ("Second Text", c),
            (c, "Third Text (End)"),
            (c, "Fourth Text"),
            ("Fourth Text", "First Text"),
        ])
    );
}

#[test]
fn book_example_forward_links() {
    let t = talk(vec![
        (0, choice(vec![("First Choice 1", 1), ("First Choice 2", 2)])),
        (1, say("First Text", Some(3))),
        (2, say("Last Text", None)),
        (3, choice(vec![("Second Choice 1", 2), ("Second Choice 2", 4)])),
        (4, say("Second Text", Some(2))),
    ]);
    let b = t.into_builder().unwrap();
    let c1 = "choice: First Choice 1 | First Choice 2";
    let c2 = "choice: Second Choice 1 | Second Choice 2";
    assert_eq!(
        linked(&b),
        pairs(&[
            ("start", c1),
            (c1, "First Text"),
            ("First Text", c2),
            (c2, "Last Text"),
            (c2, "Second Text"),
            ("Second Text", "Last Text"),
            (c1, "Last Text"),
        ])
    );
}
