use bevy_talks::conversation::{Conversation, ConversationError};
use bevy_talks::dialogue::{Dialogue, Talker};
use bevy_talks::dialogue_line::Choice;

fn dialogue(id: i32, name: &str, asset: &str, choices: Option<Vec<Choice>>, next: Option<i32>) -> Dialogue {
    Dialogue {
        id,
        text: "Hello".to_string(),
        talker: Talker { name: name.to_string(), asset: asset.to_string() },
        choices,
        next,
    }
}

#[test]
fn new_error_with_empty_vec() {
    let ds = vec![];
    let graph = Conversation::new(ds);
    assert!(graph.is_err());
    assert_eq!(graph.unwrap_err(), ConversationError::NoDialogues);
}

#[test]
fn new_error_repeated_id() {
    let ds = vec![
        dialogue(1, "Bob", "bob.png", None, None),
        dialogue(1, "Alice", "alice.png", None, None),
    ];
    let graph = Conversation::new(ds);
    assert!(graph.is_err());
    assert_eq!(graph.unwrap_err(), ConversationError::RepeatedId(1));
}

#[test]
fn new_with_one_dialogue() {
    let ds = vec![dialogue(1, "Bob", "bob.png", None, None)];
    let conv = Conversation::new(ds).unwrap();
    assert_eq!(conv.node_count(), 1);
    assert_eq!(conv.edge_count(), 0);
}

#[test]
fn new_2_linear_nodes_builds_graph() {
    let ds = vec![
        dialogue(1, "Bob", "bob.png", None, Some(2)),
        dialogue(2, "Alice", "alice.png", None, None),
    ];
    let convo = Conversation::new(ds).unwrap();
    assert_eq!(convo.node_count(), 2);
    assert_eq!(convo.edge_count(), 1);
    assert_eq!(convo.current(), 0);
}

#[test]
fn new_error_when_next_not_found() {
    let ds = vec![dialogue(1, "Bob", "bob.png", None, Some(2))];
    let convo = Conversation::new(ds);
    assert!(convo.is_err());
    assert_eq!(convo.unwrap_err(), ConversationError::NextDialogueNotFound(1, 2));
}

#[test]
fn new_success_when_next_is_itself() {
    let ds = vec![dialogue(1, "Bob", "bob.png", None, Some(1))];
    let convo = Conversation::new(ds);
    assert!(convo.is_ok());
    let convo = convo.unwrap();
    assert_eq!(convo.node_count(), 1);
    assert_eq!(convo.edge_count(), 1);
}

#[test]
fn new_error_with_bad_branching() {
    let ds = vec![
        dialogue(1, "Bob", "bob.png", Some(vec![Choice { text: "Choice 1".to_string(), next: 3 }]), None),
        dialogue(2, "Alice", "alice.png", None, None),
    ];
    let convo = Conversation::new(ds);
    assert!(convo.is_err());
    assert_eq!(convo.unwrap_err(), ConversationError::NextDialogueNotFound(1, 3));
}

#[test]
fn new_builds_with_branching() {
    let ds = vec![
        dialogue(
            1,
            "Bob",
            "bob.png",
            Some(vec![
                Choice { text: "Choice 1".to_string(), next: 2 },
                Choice { text: "Choice 2".to_string(), next: 3 },
            ]),
            None,
        ),
        dialogue(2, "Alice", "alice.png", None, None),
        dialogue(3, "Alice", "alice.png", None, None),
    ];
    let convo = Conversation::new(ds).unwrap();
    assert_eq!(convo.node_count(), 3);
    assert_eq!(convo.edge_count(), 2);
}
