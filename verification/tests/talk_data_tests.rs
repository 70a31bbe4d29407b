use std::hash::RandomState;

use bevy_talks::talk_data::{
    build_talk_data, validate_all_nexts, Action, ChoiceData, NodeKind, RonAction, RonActor, RonChoice,
    RonLoaderError, RonTalk,
};
use indexmap::IndexMap;

#[test]
fn loader_error_invalid_next_action() {
    let mut script: IndexMap<usize, Action, RandomState> = IndexMap::default();
    script.insert(0, Action { next: Some(2), ..Default::default() });
    let res = validate_all_nexts(&script);
    assert!(res.is_err());
    assert!(matches!(res, Err(RonLoaderError::InvalidNextAction(0, 2))));
}

#[test]
fn loader_error_not_found_in_choice() {
    let mut script: IndexMap<usize, Action, RandomState> = IndexMap::default();
    script.insert(0, Action { choices: vec![ChoiceData { next: 2, ..Default::default() }], ..Default::default() });
    script.insert(1, Action { ..Default::default() });
    let res = validate_all_nexts(&script);
    assert!(res.is_err());
    assert!(matches!(res, Err(RonLoaderError::InvalidNextAction(0, 2))));
}

#[test]
fn choices_take_precedence_over_next() {
    let mut script: IndexMap<usize, Action, RandomState> = IndexMap::default();
    script.insert(
        0,
        Action { choices: vec![ChoiceData { next: 1, ..Default::default() }], next: Some(9), ..Default::default() },
    );
    script.insert(1, Action { next: Some(0), ..Default::default() });
    assert!(validate_all_nexts(&script).is_ok());
}

fn actor(slug: &str) -> RonActor {
    RonActor { slug: slug.to_owned(), name: format!("Name of {slug}") }
}

fn action(id: usize, next: Option<usize>, choices: Option<Vec<RonChoice>>) -> RonAction {
    RonAction { id, text: Some(format!("Text {id}")), next, choices, ..Default::default() }
}

#[test]
fn builds_talk_data_in_script_order() {
    let talk = RonTalk {
        actors: vec![actor("a"), actor("b")],
        script: vec![
            action(5, None, Some(vec![RonChoice { text: "Go".to_owned(), next: 1 }])),
            action(1, Some(7), None),
            RonAction { id: 7, ..Default::default() },
        ],
    };
    let data = build_talk_data(talk).unwrap();
    assert_eq!(data.actors.len(), 2);
    assert_eq!(data.actors[1].slug, "b");
    assert_eq!(data.actors[1].name, "Name of b");
    let keys: Vec<usize> = data.script.keys().copied().collect();
    assert_eq!(keys, vec![5, 1, 7]);
    assert_eq!(data.script[&5].kind, NodeKind::Choice);
    assert_eq!(data.script[&5].choices[0].text, "Go");
    assert_eq!(data.script[&1].kind, NodeKind::Talk);
    assert_eq!(data.script[&1].text, "Text 1");
    assert_eq!(data.script[&7].text, "");
}

#[test]
fn refuses_repeated_slugs_ids_and_dangling_targets() {
    let dup_slug = RonTalk { actors: vec![actor("a"), actor("b"), actor("a")], script: vec![] };
    assert!(matches!(build_talk_data(dup_slug), Err(RonLoaderError::DuplicateActorSlug(s)) if s == "a"));

    let dup_id = RonTalk {
        actors: vec![actor("a")],
        script: vec![action(1, None, None), action(2, Some(9), None), action(1, None, None)],
    };
    assert!(matches!(build_talk_data(dup_id), Err(RonLoaderError::DuplicateActionId(1))));

    let dangling = RonTalk { actors: vec![], script: vec![action(1, Some(2), None), action(2, Some(3), None)] };
    assert!(matches!(build_talk_data(dangling), Err(RonLoaderError::InvalidNextAction(2, 3))));
}
