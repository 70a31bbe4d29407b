use bevy_talks::data::{DialogueDatabase, FieldValue, Variable};
use bevy_talks::variables::Variables;

fn db() -> DialogueDatabase {
    DialogueDatabase {
        variables: vec![
            Variable { name: "AcceptedJob".to_owned(), initial: FieldValue::Boolean(false), fields: vec![] },
            Variable { name: "Gold".to_owned(), initial: FieldValue::Number(10.0f32.to_bits()), fields: vec![] },
        ],
        ..Default::default()
    }
}

fn number(vars: &Variables, name: &str) -> f32 {
    f32::from_bits(vars.number(name))
}

#[test]
fn seed_fills_missing_variables() {
    let mut vars = Variables::new();
    vars.seed(&db());
    assert!(!vars.truthy("AcceptedJob"));
    assert_eq!(number(&vars, "Gold"), 10.0);
}

#[test]
fn seed_keeps_existing_values() {
    let mut vars = Variables::new();
    vars.set("Gold", FieldValue::Number(99.0f32.to_bits()));
    vars.seed(&db());
    assert_eq!(number(&vars, "Gold"), 99.0);
    assert!(!vars.truthy("AcceptedJob"));
}

#[test]
fn typed_accessors_default_on_missing_or_mismatch() {
    let mut vars = Variables::new();
    vars.set("Name", FieldValue::Text("Feri".to_owned()));
    assert_eq!(vars.text("Name"), "Feri");
    assert_eq!(vars.text("Missing"), "");
    assert_eq!(number(&vars, "Name"), 0.0);
    assert!(!vars.truthy("Name"));
}

#[test]
fn set_overwrites_and_get_reads_back() {
    let mut vars = Variables::new();
    assert!(vars.get("Flag").is_none());
    vars.set("Flag", FieldValue::Boolean(false));
    vars.set("Flag", FieldValue::Boolean(true));
    assert_eq!(vars.get("Flag"), Some(&FieldValue::Boolean(true)));
    assert!(vars.truthy("Flag"));
    assert_eq!(vars.pairs().len(), 1);
}

#[test]
fn seeding_twice_changes_nothing() {
    let mut vars = Variables::new();
    vars.seed(&db());
    vars.set("AcceptedJob", FieldValue::Boolean(true));
    vars.seed(&db());
    assert!(vars.truthy("AcceptedJob"));
    assert_eq!(vars.pairs().len(), 2);
}

#[test]
fn number_values_compare_as_floats() {
    assert_eq!(FieldValue::Number(0.0f32.to_bits()), FieldValue::Number((-0.0f32).to_bits()));
    assert_ne!(FieldValue::Number(f32::NAN.to_bits()), FieldValue::Number(f32::NAN.to_bits()));
    assert_ne!(FieldValue::Number(1.0f32.to_bits()), FieldValue::Number(2.0f32.to_bits()));
    assert_eq!(FieldValue::Number(2.5f32.to_bits()), FieldValue::Number(2.5f32.to_bits()));
    assert_ne!(FieldValue::Number(0.0f32.to_bits()), FieldValue::Boolean(false));
    assert_eq!(FieldValue::Text("a".to_owned()), FieldValue::Text("a".to_owned()));
}

#[test]
fn seeding_takes_the_first_variable_of_a_name() {
    let db = DialogueDatabase {
        variables: vec![
            Variable { name: "Gold".to_owned(), initial: FieldValue::Number(1.0f32.to_bits()), fields: vec![] },
            Variable { name: "Gold".to_owned(), initial: FieldValue::Number(2.0f32.to_bits()), fields: vec![] },
        ],
        ..Default::default()
    };
    let mut vars = Variables::new();
    vars.seed(&db);
    assert_eq!(number(&vars, "Gold"), 1.0);
    vars.seed(&db);
    assert_eq!(number(&vars, "Gold"), 1.0);
}
