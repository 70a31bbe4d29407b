use bevy_talks::data::{
    Actor, ActorId, Conversation, ConversationId, DialogueDatabase, DialogueEntry, EntryId, Link,
};
use bevy_talks::runner::{ChooseOutcome, DialogueRunner, Phase, RunnerEvent};
use bevy_talks::step::ConversationRef;
use bevy_talks::variables::Variables;
use bevy_talks::visits::Visits;

/// Player asks one question, NPC answers, conversation ends.
fn db() -> DialogueDatabase {
    let entry = |id: i32, actor: i32, menu: &str, text: &str, links: Vec<i32>| DialogueEntry {
        id: EntryId(id),
        actor: ActorId(actor),
        conversant: ActorId(1 - actor),
        menu_text: menu.to_owned(),
        dialogue_text: text.to_owned(),
        is_root: id == 1,
        is_group: false,
        links: links
            .into_iter()
            .map(|to| Link { dest_conversation: ConversationId(1), dest_entry: EntryId(to) })
            .collect(),
        fields: vec![],
        condition: String::new(),
        script: String::new(),
        sequence: String::new(),
    };
    DialogueDatabase {
        version: "1".to_owned(),
        variables: vec![],
        actors: vec![
            Actor { id: ActorId(0), name: "Player".to_owned(), is_player: true, fields: vec![] },
            Actor { id: ActorId(1), name: "Feri".to_owned(), is_player: false, fields: vec![] },
        ],
        conversations: vec![Conversation {
            id: ConversationId(1),
            title: "Test".to_owned(),
            actor: ActorId(0),
            conversant: ActorId(1),
            entries: vec![
                entry(1, 1, "", "", vec![2]),
                entry(2, 1, "", "Hello", vec![3]),
                entry(3, 0, "Ask", "What is this?", vec![4]),
                entry(4, 1, "", "It's Bevy Talks!", vec![]),
            ],
            fields: vec![],
        }],
    }
}

struct Game {
    db: DialogueDatabase,
    variables: Variables,
    visits: Visits,
    emitted: Vec<String>,
}

impl Game {
    fn new() -> Self {
        Game { db: db(), variables: Variables::new(), visits: Visits::new(), emitted: vec![] }
    }

    fn update(&mut self, runner: &mut DialogueRunner<()>) {
        if let Some(event) = runner.drive(&self.db, &mut self.variables, &mut self.visits) {
            self.emitted.push(match event {
                RunnerEvent::SubtitleStarted { subtitle, .. } => format!("line: {}", subtitle.text),
                RunnerEvent::ResponseMenuOpened(rs) => {
                    let labels: Vec<&str> = rs.iter().map(|r| r.text.as_str()).collect();
                    format!("menu: {}", labels.join(", "))
                }
                RunnerEvent::ConversationEnded => "ended".to_owned(),
            });
        }
    }
}

#[test]
fn plays_a_conversation_end_to_end() {
    let mut game = Game::new();
    let mut runner = DialogueRunner::new((), ConversationRef::Title("Test".to_owned()));
    game.update(&mut runner);
    assert!(runner.advance());
    game.update(&mut runner);
    assert_eq!(runner.choose_response(0), ChooseOutcome::Chosen);
    game.update(&mut runner);
    assert!(runner.advance());
    game.update(&mut runner);
    assert!(runner.advance());
    game.update(&mut runner);
    assert_eq!(
        game.emitted,
        vec!["line: Hello", "menu: Ask", "line: What is this?", "line: It's Bevy Talks!", "ended"]
    );
    assert_eq!(runner.phase, Phase::Ended);
    assert_eq!(runner.save_point(), None);
}

#[test]
fn tracks_visits_and_save_point() {
    let mut game = Game::new();
    let mut runner = DialogueRunner::new((), ConversationRef::Title("Test".to_owned()));
    game.update(&mut runner);
    assert_eq!(runner.save_point(), Some((ConversationId(1), EntryId(2))));
    runner.advance();
    game.update(&mut runner);
    assert_eq!(game.visits.displayed((ConversationId(1), EntryId(2))), 1);
    assert_eq!(game.visits.offered((ConversationId(1), EntryId(3))), 1);
    // A menu's save point is the entry whose links produced it.
    assert_eq!(runner.save_point(), Some((ConversationId(1), EntryId(2))));
}

#[test]
fn resume_re_presents_the_saved_line_without_counting_a_visit() {
    let mut game = Game::new();
    let mut resumed = DialogueRunner::resume((), (ConversationId(1), EntryId(4)));
    assert_eq!(resumed.save_point(), Some((ConversationId(1), EntryId(4))));
    game.update(&mut resumed);
    assert!(game.emitted.contains(&"line: It's Bevy Talks!".to_owned()));
    assert_eq!(game.visits.displayed((ConversationId(1), EntryId(4))), 0);
    assert!(matches!(resumed.phase, Phase::Presenting { .. }));
}

#[test]
fn out_of_bounds_choice_is_ignored() {
    let mut game = Game::new();
    let mut runner = DialogueRunner::new((), ConversationRef::Title("Test".to_owned()));
    game.update(&mut runner);
    runner.advance();
    game.update(&mut runner);
    assert_eq!(runner.choose_response(7), ChooseOutcome::OutOfBounds);
    game.update(&mut runner);
    assert!(matches!(runner.phase, Phase::AwaitingChoice { .. }));
}

#[test]
fn advance_and_choose_need_the_right_phase() {
    let mut game = Game::new();
    let mut runner = DialogueRunner::new((), ConversationRef::Id(ConversationId(1)));
    assert!(!runner.advance());
    assert_eq!(runner.choose_response(0), ChooseOutcome::NoMenu);
    assert!(runner.is_pending());
    game.update(&mut runner);
    assert!(!runner.is_pending());
    // Presenting: a second drive does nothing.
    let before = game.emitted.len();
    game.update(&mut runner);
    assert_eq!(game.emitted.len(), before);
}

#[test]
fn missing_conversation_ends_at_once() {
    let mut game = Game::new();
    let mut runner = DialogueRunner::new((), ConversationRef::Title("Nope".to_owned()));
    game.update(&mut runner);
    assert_eq!(game.emitted, vec!["ended"]);
    assert_eq!(runner.phase, Phase::Ended);
}

#[test]
fn starting_seeds_the_variables() {
    let mut game = Game::new();
    game.db.variables.push(bevy_talks::data::Variable {
        name: "Met".to_owned(),
        initial: bevy_talks::data::FieldValue::Boolean(true),
        fields: vec![],
    });
    let mut runner = DialogueRunner::new((), ConversationRef::Title("Test".to_owned()));
    game.update(&mut runner);
    assert!(game.variables.truthy("Met"));
}

#[test]
fn decide_names_the_pending_step_and_room_covers_touched_counts() {
    let game = Game::new();
    let runner = DialogueRunner::new((), ConversationRef::Title("Test".to_owned()));
    let (step, from, fresh) = runner.decide(&game.db).unwrap();
    assert_eq!(from, (ConversationId(1), EntryId(1)));
    assert!(fresh);
    assert!(game.visits.has_room_for(&step, fresh));
    let mut visits = Visits::new();
    for _ in 0..3 {
        visits.record_displayed((ConversationId(1), EntryId(2)));
    }
    assert_eq!(visits.displayed((ConversationId(1), EntryId(2))), 3);
    assert!(visits.has_room_for(&step, true));
    let waiting = DialogueRunner::resume((), (ConversationId(1), EntryId(4)));
    let (_, at, fresh) = waiting.decide(&game.db).unwrap();
    assert_eq!(at, (ConversationId(1), EntryId(4)));
    assert!(!fresh);
}

#[test]
fn decide_is_none_without_pending_work() {
    let mut game = Game::new();
    let mut runner = DialogueRunner::new((), ConversationRef::Title("Test".to_owned()));
    game.update(&mut runner);
    assert!(runner.decide(&game.db).is_none());
}

fn response(entry: i32) -> bevy_talks::step::Response {
    bevy_talks::step::Response {
        conversation: ConversationId(1),
        entry: EntryId(entry),
        text: format!("r{entry}"),
        is_player: true,
    }
}

#[test]
fn menu_counts_one_offer_per_response_duplicates_included() {
    let mut runner = DialogueRunner::new((), ConversationRef::Title("Test".to_owned()));
    let mut visits = Visits::new();
    let step = bevy_talks::step::Step::Menu(vec![response(3), response(3), response(4)]);
    assert!(visits.has_room_for(&step, true));
    runner.apply_step(&mut visits, step, (ConversationId(1), EntryId(2)), true);
    assert_eq!(visits.offered((ConversationId(1), EntryId(3))), 2);
    assert_eq!(visits.offered((ConversationId(1), EntryId(4))), 1);
    assert_eq!(visits.displayed((ConversationId(1), EntryId(3))), 0);
    assert_eq!(runner.save_point(), Some((ConversationId(1), EntryId(2))));
    let step = bevy_talks::step::Step::Menu(vec![response(3)]);
    runner.apply_step(&mut visits, step, (ConversationId(1), EntryId(2)), false);
    assert_eq!(visits.offered((ConversationId(1), EntryId(3))), 2);
}
