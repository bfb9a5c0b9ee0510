use incident_board_sync::cards::{
    archive_card, card_title, describe, find_label_id, is_open, label_title, new_card,
    progress_comment, CARD_ORDER,
};
use incident_board_sync::clock::{due_date, Timestamp};
use incident_board_sync::model::{Card, Incident, Label, LabelKind};
use incident_board_sync::text::{decimal_text, digit_text, join_lines};

fn incident() -> Incident {
    Incident {
        id: 4711,
        status: "OPEN".to_string(),
        assignee: "alice".to_string(),
        event_count: 12,
        source: "10.0.0.1".to_string(),
        categories: "Malware".to_string(),
        description: "Beaconing".to_string(),
        severity: 5,
        magnitude: 7,
    }
}

fn label(id: u32, title: &str) -> Label {
    Label { id, title: title.to_string() }
}

#[test]
fn digits_and_numbers_as_text() {
    assert_eq!(digit_text(0), "0");
    assert_eq!(digit_text(9), "9");
    assert_eq!(decimal_text(0), "0");
    assert_eq!(decimal_text(42), "42");
    assert_eq!(decimal_text(1000), "1000");
    assert_eq!(decimal_text(u64::MAX), "18446744073709551615");
}

#[test]
fn lines_are_joined_by_line_breaks() {
    assert_eq!(join_lines(&vec![]), "");
    assert_eq!(join_lines(&vec!["one".to_string()]), "one");
    assert_eq!(join_lines(&vec!["one".to_string(), "two".to_string()]), "one\ntwo");
    assert_eq!(
        join_lines(&vec!["a".to_string(), "".to_string(), "c".to_string()]),
        "a\n\nc"
    );
}

#[test]
fn label_titles_and_comment() {
    assert_eq!(label_title(LabelKind::ActionNeeded), "Action needed");
    assert_eq!(label_title(LabelKind::Finished), "Finished");
    assert_eq!(progress_comment(), "Working on progress... Will update you with the results");
}

#[test]
fn only_the_exact_status_counts_as_open() {
    assert!(is_open(&"OPEN".to_string()));
    assert!(!is_open(&"CLOSED".to_string()));
    assert!(!is_open(&"open".to_string()));
    assert!(!is_open(&"OPEN ".to_string()));
    assert!(!is_open(&"".to_string()));
}

#[test]
fn label_is_found_by_its_title() {
    let labels = vec![label(3, "Later"), label(11, "Action needed"), label(12, "Finished")];
    assert_eq!(find_label_id(&labels, &"Action needed".to_string()), Some(11));
    assert_eq!(find_label_id(&labels, &"Finished".to_string()), Some(12));
    assert_eq!(find_label_id(&labels, &"finished".to_string()), None);
    assert_eq!(find_label_id(&vec![], &"Finished".to_string()), None);
}

#[test]
fn first_label_of_a_title_wins() {
    let labels = vec![label(1, "Finished"), label(2, "Finished")];
    assert_eq!(find_label_id(&labels, &"Finished".to_string()), Some(1));
}

#[test]
fn title_names_the_incident() {
    assert_eq!(card_title(4711), "Offense ID 4711");
    assert_eq!(card_title(0), "Offense ID 0");
}

#[test]
fn description_lists_the_fields_in_order() {
    assert_eq!(
        describe(&incident()),
        "This event has been triggered: 12\n\
         The user who handles this offense: alice\n\
         Offense Source: 10.0.0.1\n\
         Status: OPEN\n\
         Categories: Malware\n\
         Description: Beaconing\n\
         Severity: 5\n\
         Magnitude: 7"
    );
}

#[test]
fn due_date_is_five_hours_on() {
    assert_eq!(
        due_date(Timestamp { secs: 0, nanos: 0 }),
        Some("1970-01-01T05:00:00+00:00".to_string())
    );
    assert_eq!(
        due_date(Timestamp { secs: 1_700_000_000, nanos: 0 }),
        Some("2023-11-15T03:13:20+00:00".to_string())
    );
    assert_eq!(
        due_date(Timestamp { secs: 68_400, nanos: 500_000_000 }),
        Some("1970-01-02T00:00:00.500+00:00".to_string())
    );
}

#[test]
fn due_date_beyond_the_calendar_is_none() {
    assert_eq!(due_date(Timestamp { secs: i64::MAX, nanos: 0 }), None);
    assert_eq!(due_date(Timestamp { secs: i64::MAX - 18000, nanos: 0 }), None);
    assert_eq!(due_date(Timestamp { secs: 0, nanos: 2_000_000_000 }), None);
}

#[test]
fn new_card_carries_incident_and_labels() {
    let card = new_card(&incident(), Timestamp { secs: 0, nanos: 0 }, 11, 12);
    assert_eq!(card.title, "Offense ID 4711");
    assert_eq!(card.description, describe(&incident()));
    assert_eq!(card.kind, "plain");
    assert_eq!(card.order, 999);
    assert_eq!(card.order, CARD_ORDER);
    assert_eq!(card.due_date, Some("1970-01-01T05:00:00+00:00".to_string()));
    assert_eq!(card.owner, "alice");
    assert_eq!(card.labels, vec![11, 12]);
}

#[test]
fn archive_card_adds_label_and_notes() {
    let live = Card {
        title: "Offense ID 7".to_string(),
        description: "body".to_string(),
        kind: "plain".to_string(),
        order: 3,
        due_date: Some("2024-01-01T00:00:00+00:00".to_string()),
        owner: "bob".to_string(),
        labels: vec![11],
    };
    let notes = vec!["first".to_string(), "second".to_string()];
    let archive = archive_card(live.clone(), 12, &notes);
    assert_eq!(archive.description, "body\n\nNotes:\nfirst\nsecond");
    assert_eq!(archive.labels, vec![11, 12]);
    assert_eq!(archive.title, live.title);
    assert_eq!(archive.kind, live.kind);
    assert_eq!(archive.order, live.order);
    assert_eq!(archive.due_date, live.due_date);
    assert_eq!(archive.owner, live.owner);
}

#[test]
fn archive_card_without_notes() {
    let live = Card {
        title: "t".to_string(),
        description: "".to_string(),
        kind: "plain".to_string(),
        order: 0,
        due_date: None,
        owner: "".to_string(),
        labels: vec![],
    };
    let archive = archive_card(live, 5, &vec![]);
    assert_eq!(archive.description, "\n\nNotes:\n");
    assert_eq!(archive.labels, vec![5]);
    assert_eq!(archive.due_date, None);
}
