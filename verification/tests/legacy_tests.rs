use bevy_talks::dialogue_line::{Choice, DialogueLine};

fn line(choices: Option<Vec<Choice>>, next: Option<i32>) -> DialogueLine {
    DialogueLine { id: 1, text: "Hello".to_owned(), talker: None, choices, next, start: None, end: None }
}

#[test]
fn dialogue_line_end_next_and_choices() {
    assert!(line(None, Some(-1)).is_end());
    assert!(!line(None, Some(2)).is_end());
    assert!(!line(None, None).is_end());
    let choices = Some(vec![Choice { text: "Yes".to_owned(), next: 2 }]);
    assert!(!line(choices.clone(), Some(-1)).is_end());
    assert!(line(None, Some(2)).has_next());
    assert!(!line(None, None).has_next());
    assert!(line(choices, None).has_choices());
    assert!(!line(None, None).has_choices());
}
