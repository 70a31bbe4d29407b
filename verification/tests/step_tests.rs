use bevy_talks::data::{
    Actor, ActorId, Conversation, ConversationId, DialogueDatabase, DialogueEntry, EntryId, Link,
};
use bevy_talks::step::{
    entry_at, find_conversation, responses, root_entry, step_from, subtitle_at, ConversationRef,
    Step,
};

fn entry(id: i32, actor: i32, menu: &str, text: &str, group: bool, links: Vec<i32>) -> DialogueEntry {
    DialogueEntry {
        id: EntryId(id),
        actor: ActorId(actor),
        conversant: ActorId(1 - actor),
        menu_text: menu.to_owned(),
        dialogue_text: text.to_owned(),
        is_root: id == 1,
        is_group: group,
        links: links
            .into_iter()
            .map(|to| Link { dest_conversation: ConversationId(1), dest_entry: EntryId(to) })
            .collect(),
        fields: vec![],
        condition: String::new(),
        script: String::new(),
        sequence: String::new(),
    }
}

/// player 0, npc 1; conversation 1: START(1) -> npc line(2) -> {pc 3, pc 4},
/// 3 -> group(5) -> npc 6; 6 -> 2 (cycle back).
fn db() -> DialogueDatabase {
    DialogueDatabase {
        version: "1".to_owned(),
        variables: vec![],
        actors: vec![
            Actor { id: ActorId(0), name: "Player".to_owned(), is_player: true, fields: vec![] },
            Actor { id: ActorId(1), name: "Feri".to_owned(), is_player: false, fields: vec![] },
        ],
        conversations: vec![Conversation {
            id: ConversationId(1),
            title: "Test".to_owned(),
            actor: ActorId(0),
            conversant: ActorId(1),
            entries: vec![
                entry(1, 1, "", "", false, vec![2]),
                entry(2, 1, "", "Hello", false, vec![3, 4]),
                entry(3, 0, "Ask", "What is this?", false, vec![5]),
                entry(4, 0, "Leave", "Bye", false, vec![]),
                entry(5, 1, "", "", true, vec![6]),
                entry(6, 1, "", "The dialogue system for Bevy", false, vec![2]),
            ],
            fields: vec![],
        }],
    }
}

#[test]
fn finds_conversation_by_id_and_title() {
    let db = db();
    assert!(find_conversation(&db, &ConversationRef::Id(ConversationId(1))).is_some());
    assert!(find_conversation(&db, &ConversationRef::Title("Test".to_owned())).is_some());
    assert!(find_conversation(&db, &ConversationRef::Title("Nope".to_owned())).is_none());
    assert!(find_conversation(&db, &ConversationRef::Id(ConversationId(2))).is_none());
}

#[test]
fn start_skips_root_and_presents_first_npc_line() {
    let db = db();
    let step = step_from(&db, (ConversationId(1), EntryId(1)));
    let Step::Line(subtitle) = step else {
        panic!("expected a line, got {step:?}");
    };
    assert_eq!(subtitle.text, "Hello");
    assert_eq!(subtitle.actor, ActorId(1));
}

#[test]
fn player_responses_become_a_menu_with_menu_text_labels() {
    let db = db();
    let step = step_from(&db, (ConversationId(1), EntryId(2)));
    let Step::Menu(responses) = step else {
        panic!("expected a menu, got {step:?}");
    };
    assert_eq!(responses.len(), 2);
    assert_eq!(responses[0].text, "Ask");
    assert_eq!(responses[1].text, "Leave");
    assert!(responses.iter().all(|r| r.is_player));
}

#[test]
fn groups_are_flattened() {
    let db = db();
    let step = step_from(&db, (ConversationId(1), EntryId(3)));
    let Step::Line(subtitle) = step else {
        panic!("expected a line, got {step:?}");
    };
    assert_eq!(subtitle.entry, EntryId(6));
}

#[test]
fn dead_end_ends_the_conversation() {
    let db = db();
    assert_eq!(step_from(&db, (ConversationId(1), EntryId(4))), Step::End);
}

#[test]
fn cycles_terminate() {
    let db = db();
    let step = step_from(&db, (ConversationId(1), EntryId(6)));
    assert!(matches!(step, Step::Line(_)));
}

#[test]
fn menu_label_falls_back_to_dialogue_text() {
    let mut db = db();
    db.conversations[0].entries[2].menu_text.clear();
    let Step::Menu(responses) = step_from(&db, (ConversationId(1), EntryId(2))) else {
        panic!("expected a menu");
    };
    assert_eq!(responses[0].text, "What is this?");
}

#[test]
fn root_falls_back_to_first_entry() {
    let mut db = db();
    assert_eq!(root_entry(&db.conversations[0]).unwrap().id, EntryId(1));
    db.conversations[0].entries[0].is_root = false;
    db.conversations[0].entries[3].is_root = true;
    assert_eq!(root_entry(&db.conversations[0]).unwrap().id, EntryId(4));
    db.conversations[0].entries[3].is_root = false;
    assert_eq!(root_entry(&db.conversations[0]).unwrap().id, EntryId(1));
    db.conversations[0].entries.clear();
    assert!(root_entry(&db.conversations[0]).is_none());
}

#[test]
fn entries_and_subtitles_are_looked_up_by_position() {
    let db = db();
    assert_eq!(entry_at(&db, (ConversationId(1), EntryId(3))).unwrap().menu_text, "Ask");
    assert!(entry_at(&db, (ConversationId(1), EntryId(9))).is_none());
    assert!(entry_at(&db, (ConversationId(2), EntryId(1))).is_none());
    let s = subtitle_at(&db, (ConversationId(1), EntryId(6))).unwrap();
    assert_eq!(s.text, "The dialogue system for Bevy");
    assert_eq!(s.conversant, ActorId(0));
    assert!(subtitle_at(&db, (ConversationId(1), EntryId(9))).is_none());
}

#[test]
fn responses_offer_each_destination_once() {
    let mut db = db();
    // entry 2 links twice to 3 and once to 4: 3 is offered once.
    db.conversations[0].entries[1].links.push(Link {
        dest_conversation: ConversationId(1),
        dest_entry: EntryId(3),
    });
    let rs = responses(&db, (ConversationId(1), EntryId(2)));
    assert_eq!(rs.len(), 2);
    assert_eq!(rs[0].entry, EntryId(3));
    assert_eq!(rs[1].entry, EntryId(4));
}

#[test]
fn missing_destinations_and_unknown_actors_are_handled() {
    let mut db = db();
    db.conversations[0].entries[3].links.push(Link {
        dest_conversation: ConversationId(7),
        dest_entry: EntryId(1),
    });
    assert!(responses(&db, (ConversationId(1), EntryId(4))).is_empty());
    // an actor that isn't in the database is no player: its line is auto-followed.
    db.conversations[0].entries[2].actor = ActorId(42);
    let Step::Line(s) = step_from(&db, (ConversationId(1), EntryId(2))) else {
        panic!("expected a line");
    };
    assert_eq!(s.entry, EntryId(3));
}
