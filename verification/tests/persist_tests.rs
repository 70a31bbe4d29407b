use bevy_talks::data::{ConversationId, DialogueDatabase, EntryId, FieldValue, Variable};
use bevy_talks::persist::DialogueSave;
use bevy_talks::variables::Variables;
use bevy_talks::visits::Visits;

fn db() -> DialogueDatabase {
    DialogueDatabase {
        variables: vec![
            Variable { name: "AcceptedJob".to_owned(), initial: FieldValue::Boolean(false), fields: vec![] },
            Variable { name: "Gold".to_owned(), initial: FieldValue::Number(10.0f32.to_bits()), fields: vec![] },
        ],
        ..Default::default()
    }
}

#[test]
fn saved_values_overwrite_seeded_ones() {
    let mut variables = Variables::new();
    variables.seed(&db());
    let save = DialogueSave {
        variables: vec![("Gold".to_owned(), FieldValue::Number(99.0f32.to_bits()))],
        visits: vec![],
    };
    save.apply(&mut variables, &mut Visits::new());
    assert_eq!(f32::from_bits(variables.number("Gold")), 99.0);
    assert!(!variables.truthy("AcceptedJob"));
}

#[test]
fn seeding_after_restore_fills_only_missing_variables() {
    let mut variables = Variables::new();
    let save = DialogueSave {
        variables: vec![("Gold".to_owned(), FieldValue::Number(99.0f32.to_bits()))],
        visits: vec![],
    };
    save.apply(&mut variables, &mut Visits::new());
    variables.seed(&db());
    assert_eq!(f32::from_bits(variables.number("Gold")), 99.0);
    assert!(!variables.truthy("AcceptedJob"));
}

#[test]
fn record_then_apply_restores_the_state() {
    let mut variables = Variables::new();
    variables.set("AcceptedJob", FieldValue::Boolean(true));
    variables.set("PlayerName", FieldValue::Text("Feri".to_owned()));
    let mut visits = Visits::new();
    visits.record_displayed((ConversationId(1), EntryId(2)));
    visits.record_offered((ConversationId(1), EntryId(3)));

    let save = DialogueSave::record(&variables, &visits);

    let mut restored_variables = Variables::new();
    let mut restored_visits = Visits::new();
    save.apply(&mut restored_variables, &mut restored_visits);

    assert!(restored_variables.truthy("AcceptedJob"));
    assert_eq!(restored_variables.text("PlayerName"), "Feri");
    assert_eq!(restored_visits.displayed((ConversationId(1), EntryId(2))), 1);
    assert_eq!(restored_visits.offered((ConversationId(1), EntryId(3))), 1);
}

#[test]
fn apply_keeps_what_the_save_lacks() {
    let mut variables = Variables::new();
    variables.set("Kept", FieldValue::Boolean(true));
    let mut visits = Visits::new();
    visits.record_displayed((ConversationId(1), EntryId(1)));
    let save = DialogueSave {
        variables: vec![],
        visits: vec![((ConversationId(1), EntryId(2)), bevy_talks::visits::VisitCount { offered: 4, displayed: 5 })],
    };
    save.apply(&mut variables, &mut visits);
    assert!(variables.truthy("Kept"));
    assert_eq!(visits.displayed((ConversationId(1), EntryId(1))), 1);
    assert_eq!(visits.offered((ConversationId(1), EntryId(2))), 4);
    assert_eq!(visits.displayed((ConversationId(1), EntryId(2))), 5);
}
