use bevy_talks::data::{
    Actor, ActorId, Conversation, ConversationId, DialogueDatabase, DialogueEntry, EntryId, Link,
};
use bevy_talks::validate::{duplicates, validate, EntryIndex, Issue};

fn database() -> DialogueDatabase {
    DialogueDatabase {
        version: String::new(),
        variables: vec![],
        actors: vec![],
        conversations: vec![Conversation {
            id: ConversationId(1),
            title: String::new(),
            actor: ActorId(0),
            conversant: ActorId(0),
            entries: vec![DialogueEntry {
                id: EntryId(1),
                actor: ActorId(0),
                conversant: ActorId(0),
                menu_text: String::new(),
                dialogue_text: String::new(),
                is_root: true,
                is_group: false,
                links: vec![],
                fields: vec![],
                condition: String::new(),
                script: String::new(),
                sequence: String::new(),
            }],
            fields: vec![],
        }],
    }
}

#[test]
fn clean_database_has_no_issues() {
    assert_eq!(validate(&database()), vec![]);
}

#[test]
fn reports_dangling_link() {
    let mut database = database();
    database.conversations[0].entries[0].links.push(Link {
        dest_conversation: ConversationId(1),
        dest_entry: EntryId(99),
    });
    assert_eq!(
        validate(&database),
        vec![Issue::DanglingLink(ConversationId(1), EntryId(1), ConversationId(1), EntryId(99))]
    );
}

#[test]
fn reports_missing_root() {
    let mut database = database();
    database.conversations[0].entries[0].is_root = false;
    assert_eq!(validate(&database), vec![Issue::NoRoot(ConversationId(1))]);
}

#[test]
fn reports_multiple_roots_and_duplicate_entries() {
    let mut database = database();
    let copy = database.conversations[0].entries[0].clone();
    database.conversations[0].entries.push(copy);
    assert_eq!(
        validate(&database),
        vec![
            Issue::DuplicateEntry(ConversationId(1), EntryId(1)),
            Issue::MultipleRoots(ConversationId(1)),
        ]
    );
}

#[test]
fn reports_duplicate_actors_and_conversations_in_order() {
    let mut database = database();
    let actor = |id: i32| Actor { id: ActorId(id), name: String::new(), is_player: false, fields: vec![] };
    database.actors = vec![actor(3), actor(3), actor(4), actor(3)];
    let copy = database.conversations[0].clone();
    database.conversations.push(copy);
    assert_eq!(
        validate(&database),
        vec![
            Issue::DuplicateActor(ActorId(3)),
            Issue::DuplicateActor(ActorId(3)),
            Issue::DuplicateConversation(ConversationId(1)),
        ]
    );
}

#[test]
fn duplicates_yield_each_extra_occurrence() {
    assert_eq!(duplicates(&vec![1, 2, 1, 1, 3, 2]), vec![1, 1, 2]);
    assert_eq!(duplicates(&vec![]), Vec::<i32>::new());
    assert_eq!(duplicates(&vec![5, 6, 7]), Vec::<i32>::new());
}

#[test]
fn entry_index_uses_the_last_conversation_with_an_id() {
    let mut database = database();
    let mut other = database.conversations[0].clone();
    other.entries[0].id = EntryId(2);
    database.conversations.push(other);
    let index = EntryIndex::build(&database);
    assert!(index.contains(ConversationId(1), EntryId(2)));
    assert!(!index.contains(ConversationId(1), EntryId(1)));
    assert!(!index.contains(ConversationId(5), EntryId(2)));
}
