use bevy_talks::data::{ConversationId, EntryId};
use bevy_talks::visits::{VisitCount, Visits};

#[test]
fn counts_start_at_zero_and_are_per_entry() {
    let mut visits = Visits::new();
    let a = (ConversationId(1), EntryId(1));
    let b = (ConversationId(1), EntryId(2));
    assert_eq!(visits.count(a), VisitCount { offered: 0, displayed: 0 });
    visits.record_displayed(a);
    visits.record_displayed(a);
    visits.record_offered(b);
    assert_eq!(visits.displayed(a), 2);
    assert_eq!(visits.offered(a), 0);
    assert_eq!(visits.offered(b), 1);
    assert_eq!(visits.displayed(b), 0);
    assert!(visits.has_room());
}
