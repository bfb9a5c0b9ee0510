use incident_board_sync::cards::{describe, progress_comment};
use incident_board_sync::clock::Timestamp;
use incident_board_sync::engine::{reconcile, Cycle};
use incident_board_sync::model::{Card, Incident, LabelKind, Stack};
use incident_board_sync::plan::{find_incident, plan, Action};
use incident_board_sync::protocol::{Outcome, Reply, Request};
use incident_board_sync::records::{load, remove_from_text, render_record};
use incident_board_sync::store::{MappingStore, TrackedMapping};

fn incident(id: u32, status: &str) -> Incident {
    Incident {
        id,
        status: status.to_string(),
        assignee: format!("user{}", id),
        event_count: 3,
        source: "10.1.2.3".to_string(),
        categories: "Recon".to_string(),
        description: "Network sweep".to_string(),
        severity: 4,
        magnitude: 6,
    }
}

fn live_card(id: u32) -> Card {
    Card {
        title: format!("Offense ID {}", id),
        description: "as created".to_string(),
        kind: "plain".to_string(),
        order: 999,
        due_date: Some("2024-05-01T10:00:00+00:00".to_string()),
        owner: format!("user{}", id),
        labels: vec![11],
    }
}

/// A board, a tracker and a store file that answer every request, except
/// those for which `fails` says no.
struct World {
    file: Vec<u8>,
    next_card: u32,
    log: Vec<Request>,
    fails: fn(&Request) -> bool,
}

fn nothing_fails(_: &Request) -> bool {
    false
}

impl World {
    fn new(file: &[u8], fails: fn(&Request) -> bool) -> World {
        World { file: file.to_vec(), next_card: 100, log: Vec::new(), fails }
    }

    fn answer(&mut self, request: &Request) -> Reply {
        self.log.push(request.clone());
        if (self.fails)(request) {
            return match request {
                Request::ResolveLabel { .. } => Reply::LabelId(None),
                _ => Reply::Failed,
            };
        }
        match request {
            Request::ReadClock => Reply::Time(Timestamp { secs: 1_700_000_000, nanos: 0 }),
            Request::ResolveLabel { label: LabelKind::ActionNeeded } => Reply::LabelId(Some(11)),
            Request::ResolveLabel { label: LabelKind::Finished } => Reply::LabelId(Some(12)),
            Request::CreateCard { .. } => {
                self.next_card += 1;
                Reply::CardCreated(self.next_card)
            }
            Request::PersistMapping { incident_id, card_id } => {
                let line = render_record(TrackedMapping {
                    incident_id: *incident_id,
                    card_id: *card_id,
                });
                self.file.extend_from_slice(&line);
                Reply::Done
            }
            Request::RemoveMapping { incident_id } => {
                self.file = remove_from_text(&self.file, *incident_id);
                Reply::Done
            }
            Request::FetchCard { card_id } => Reply::Card(live_card(*card_id)),
            Request::FetchNotes { .. } => {
                Reply::Notes(vec!["checked".to_string(), "false alarm".to_string()])
            }
            Request::PostComment { .. } | Request::AssignUser { .. } | Request::DeleteCard { .. } => {
                Reply::Done
            }
        }
    }

    fn cycle(&mut self, snapshot: &[Incident]) -> Cycle {
        self.log.clear();
        let store = load(&self.file);
        let (mut cycle, mut next) = reconcile(snapshot.to_vec(), &store);
        let mut rounds = 0;
        while let Some(request) = next {
            let reply = self.answer(&request);
            let (c, n) = cycle.advance(reply);
            cycle = c;
            next = n;
            rounds += 1;
            assert!(rounds < 1000);
        }
        assert!(cycle.is_finished());
        cycle
    }

    fn created(&self, stack: Stack) -> usize {
        self.log
            .iter()
            .filter(|q| matches!(q, Request::CreateCard { stack: s, .. } if *s == stack))
            .count()
    }
}

fn kinds(log: &[Request]) -> Vec<&'static str> {
    log.iter()
        .map(|q| match q {
            Request::ReadClock => "clock",
            Request::ResolveLabel { .. } => "label",
            Request::CreateCard { .. } => "create",
            Request::PersistMapping { .. } => "persist",
            Request::PostComment { .. } => "comment",
            Request::AssignUser { .. } => "assign",
            Request::FetchCard { .. } => "fetch",
            Request::FetchNotes { .. } => "notes",
            Request::RemoveMapping { .. } => "remove",
            Request::DeleteCard { .. } => "delete",
        })
        .collect()
}

#[test]
fn plan_with_empty_store_creates_for_every_incident() {
    let snapshot = vec![incident(1, "OPEN"), incident(2, "CLOSED"), incident(3, "OPEN")];
    let actions = plan(&snapshot, &MappingStore::new());
    assert_eq!(
        actions,
        vec![
            Action::Create { index: 0 },
            Action::Create { index: 1 },
            Action::Create { index: 2 }
        ]
    );
}

#[test]
fn plan_with_tracked_incidents_closes_out_those_no_longer_open() {
    let snapshot = vec![incident(1, "OPEN"), incident(2, "CLOSED"), incident(3, "HIDDEN")];
    let store = load(b"3,30\n9,90\n1,10\n2,20\n");
    assert_eq!(
        plan(&snapshot, &store),
        vec![
            Action::CloseOut { incident_id: 3, card_id: 30 },
            Action::CloseOut { incident_id: 2, card_id: 20 }
        ]
    );
}

#[test]
fn plan_never_creates_while_something_is_tracked() {
    let snapshot = vec![incident(1, "OPEN"), incident(2, "OPEN")];
    let store = load(b"1,10\n");
    assert_eq!(plan(&snapshot, &store), vec![]);
}

#[test]
fn plan_goes_by_the_first_incident_of_an_identifier() {
    let snapshot = vec![incident(1, "OPEN"), incident(1, "CLOSED")];
    assert_eq!(find_incident(&snapshot, 1), 0);
    assert_eq!(find_incident(&snapshot, 2), 2);
    assert_eq!(plan(&snapshot, &load(b"1,10\n")), vec![]);
}

#[test]
fn idempotent_creation() {
    let snapshot = vec![incident(1, "OPEN"), incident(2, "OPEN"), incident(3, "OPEN")];
    let mut world = World::new(b"", nothing_fails);
    let first = world.cycle(&snapshot);
    assert_eq!(world.created(Stack::Active), 3);
    assert_eq!(world.created(Stack::Archive), 0);
    assert_eq!(world.file, b"1,101\n2,102\n3,103\n".to_vec());
    assert_eq!(load(&world.file).len(), 3);
    assert_eq!(
        first.outcomes(),
        &vec![
            Outcome::Created { card_id: 101, commented: true, assigned: true },
            Outcome::Created { card_id: 102, commented: true, assigned: true },
            Outcome::Created { card_id: 103, commented: true, assigned: true }
        ]
    );
    let second = world.cycle(&snapshot);
    assert!(world.log.is_empty());
    assert!(second.outcomes().is_empty());
    assert_eq!(world.file, b"1,101\n2,102\n3,103\n".to_vec());
}

#[test]
fn creation_asks_in_order() {
    let snapshot = vec![incident(8, "OPEN")];
    let mut world = World::new(b"", nothing_fails);
    world.cycle(&snapshot);
    assert_eq!(
        kinds(&world.log),
        vec!["clock", "label", "label", "create", "persist", "comment", "assign"]
    );
    assert_eq!(world.log[1], Request::ResolveLabel { label: LabelKind::ActionNeeded });
    assert_eq!(world.log[2], Request::ResolveLabel { label: LabelKind::Finished });
    match &world.log[3] {
        Request::CreateCard { stack, card } => {
            assert_eq!(*stack, Stack::Active);
            assert_eq!(card.title, "Offense ID 8");
            assert_eq!(card.description, describe(&snapshot[0]));
            assert_eq!(card.kind, "plain");
            assert_eq!(card.order, 999);
            assert_eq!(card.due_date, Some("2023-11-15T03:13:20+00:00".to_string()));
            assert_eq!(card.owner, "user8");
            assert_eq!(card.labels, vec![11, 12]);
        }
        other => panic!("unexpected request {:?}", other),
    }
    assert_eq!(world.log[4], Request::PersistMapping { incident_id: 8, card_id: 101 });
    assert_eq!(
        world.log[5],
        Request::PostComment { card_id: 101, message: progress_comment() }
    );
    assert_eq!(world.log[6], Request::AssignUser { card_id: 101, user: "user8".to_string() });
}

#[test]
fn close_out_exactly_once() {
    let open = vec![incident(7, "OPEN"), incident(8, "OPEN")];
    let closed = vec![incident(7, "CLOSED"), incident(8, "OPEN")];
    let mut world = World::new(b"7,42\n8,43\n", nothing_fails);
    world.cycle(&open);
    assert!(world.log.is_empty());
    let cycle = world.cycle(&closed);
    assert_eq!(kinds(&world.log), vec!["fetch", "label", "notes", "create", "remove", "delete"]);
    assert_eq!(world.log[0], Request::FetchCard { card_id: 42 });
    assert_eq!(world.log[1], Request::ResolveLabel { label: LabelKind::Finished });
    assert_eq!(world.log[2], Request::FetchNotes { incident_id: 7 });
    match &world.log[3] {
        Request::CreateCard { stack, card } => {
            assert_eq!(*stack, Stack::Archive);
            assert_eq!(card.title, "Offense ID 42");
            assert_eq!(card.description, "as created\n\nNotes:\nchecked\nfalse alarm");
            assert_eq!(card.labels, vec![11, 12]);
            assert_eq!(card.owner, "user42");
        }
        other => panic!("unexpected request {:?}", other),
    }
    assert_eq!(world.log[4], Request::RemoveMapping { incident_id: 7 });
    assert_eq!(world.log[5], Request::DeleteCard { card_id: 42 });
    assert_eq!(world.created(Stack::Archive), 1);
    assert_eq!(cycle.outcomes(), &vec![Outcome::Archived { original_deleted: true }]);
    assert_eq!(world.file, b"8,43\n".to_vec());
    let again = world.cycle(&closed);
    assert!(world.log.is_empty());
    assert!(again.outcomes().is_empty());
    assert_eq!(world.file, b"8,43\n".to_vec());
}

#[test]
fn close_out_of_the_only_mapping_empties_the_store() {
    let closed = vec![incident(7, "CLOSED")];
    let mut world = World::new(b"7,42\n", nothing_fails);
    let cycle = world.cycle(&closed);
    assert_eq!(kinds(&world.log), vec!["fetch", "label", "notes", "create", "remove", "delete"]);
    assert_eq!(cycle.actions(), &vec![Action::CloseOut { incident_id: 7, card_id: 42 }]);
    assert_eq!(world.file, b"".to_vec());
    assert!(load(&world.file).is_empty());
}

#[test]
fn empty_store_takes_every_incident_of_the_snapshot_as_new() {
    let closed = vec![incident(7, "CLOSED")];
    let mut world = World::new(b"", nothing_fails);
    let cycle = world.cycle(&closed);
    assert_eq!(cycle.actions(), &vec![Action::Create { index: 0 }]);
    assert_eq!(world.created(Stack::Active), 1);
    assert_eq!(world.file, b"7,101\n".to_vec());
}

fn archive_creation_fails(q: &Request) -> bool {
    matches!(q, Request::CreateCard { stack: Stack::Archive, .. })
}

#[test]
fn partial_failure_leaves_retry_state() {
    let closed = vec![incident(7, "CLOSED")];
    let mut world = World::new(b"7,42\n", archive_creation_fails);
    let failed = world.cycle(&closed);
    assert_eq!(kinds(&world.log), vec!["fetch", "label", "notes", "create"]);
    assert_eq!(failed.outcomes(), &vec![Outcome::Skipped]);
    assert!(!failed.is_halted());
    assert_eq!(world.file, b"7,42\n".to_vec());
    assert_eq!(load(&world.file).get(7), Some(42));
    world.fails = nothing_fails;
    let retried = world.cycle(&closed);
    assert_eq!(kinds(&world.log), vec!["fetch", "label", "notes", "create", "remove", "delete"]);
    assert_eq!(world.created(Stack::Archive), 1);
    assert_eq!(retried.outcomes(), &vec![Outcome::Archived { original_deleted: true }]);
    assert_eq!(load(&world.file).get(7), None);
}

fn card_fetch_fails(q: &Request) -> bool {
    matches!(q, Request::FetchCard { .. })
}

fn notes_fail(q: &Request) -> bool {
    matches!(q, Request::FetchNotes { .. })
}

#[test]
fn close_out_stops_at_the_first_failure() {
    let closed = vec![incident(7, "CLOSED"), incident(8, "CLOSED")];
    let mut world = World::new(b"7,42\n8,43\n", card_fetch_fails);
    let cycle = world.cycle(&closed);
    assert_eq!(kinds(&world.log), vec!["fetch", "fetch"]);
    assert_eq!(cycle.outcomes(), &vec![Outcome::Skipped, Outcome::Skipped]);
    assert_eq!(world.file, b"7,42\n8,43\n".to_vec());

    let mut world = World::new(b"7,42\n", notes_fail);
    let cycle = world.cycle(&closed);
    assert_eq!(kinds(&world.log), vec!["fetch", "label", "notes"]);
    assert_eq!(cycle.outcomes(), &vec![Outcome::Skipped]);
    assert_eq!(world.file, b"7,42\n".to_vec());
}

fn delete_fails(q: &Request) -> bool {
    matches!(q, Request::DeleteCard { .. })
}

#[test]
fn failed_delete_is_not_retried() {
    let closed = vec![incident(7, "CLOSED"), incident(8, "OPEN")];
    let mut world = World::new(b"7,42\n8,43\n", delete_fails);
    let cycle = world.cycle(&closed);
    assert_eq!(cycle.outcomes(), &vec![Outcome::Archived { original_deleted: false }]);
    assert_eq!(world.file, b"8,43\n".to_vec());
    world.cycle(&closed);
    assert!(world.log.is_empty());
}

#[test]
fn unknown_incident_ignored() {
    let snapshot = vec![incident(1, "OPEN"), incident(2, "CLOSED")];
    let mut world = World::new(b"9,90\n", nothing_fails);
    let cycle = world.cycle(&snapshot);
    assert!(world.log.is_empty());
    assert!(cycle.actions().is_empty());
    assert_eq!(world.file, b"9,90\n".to_vec());
}

fn finished_label_is_missing(q: &Request) -> bool {
    matches!(q, Request::ResolveLabel { label: LabelKind::Finished })
}

fn action_label_is_missing(q: &Request) -> bool {
    matches!(q, Request::ResolveLabel { label: LabelKind::ActionNeeded })
}

#[test]
fn label_resolution_failure_blocks_creation() {
    let snapshot = vec![incident(1, "OPEN"), incident(2, "OPEN")];
    let mut world = World::new(b"", finished_label_is_missing);
    let cycle = world.cycle(&snapshot);
    assert_eq!(kinds(&world.log), vec!["clock", "label", "label", "clock", "label", "label"]);
    assert_eq!(world.created(Stack::Active), 0);
    assert_eq!(cycle.outcomes(), &vec![Outcome::LabelMissing, Outcome::LabelMissing]);
    assert_eq!(world.file, b"".to_vec());

    let mut world = World::new(b"", action_label_is_missing);
    let cycle = world.cycle(&snapshot[..1]);
    assert_eq!(kinds(&world.log), vec!["clock", "label", "label"]);
    assert_eq!(cycle.outcomes(), &vec![Outcome::LabelMissing]);
    assert_eq!(world.file, b"".to_vec());
}

#[test]
fn missing_finished_label_blocks_close_out() {
    let closed = vec![incident(7, "CLOSED")];
    let mut world = World::new(b"7,42\n", finished_label_is_missing);
    let cycle = world.cycle(&closed);
    assert_eq!(kinds(&world.log), vec!["fetch", "label"]);
    assert_eq!(cycle.outcomes(), &vec![Outcome::LabelMissing]);
    assert_eq!(world.file, b"7,42\n".to_vec());
}

fn card_creation_fails(q: &Request) -> bool {
    matches!(q, Request::CreateCard { stack: Stack::Active, .. })
}

#[test]
fn failed_card_creation_is_retried_as_new() {
    let snapshot = vec![incident(1, "OPEN")];
    let mut world = World::new(b"", card_creation_fails);
    let cycle = world.cycle(&snapshot);
    assert_eq!(kinds(&world.log), vec!["clock", "label", "label", "create"]);
    assert_eq!(cycle.outcomes(), &vec![Outcome::Skipped]);
    assert_eq!(world.file, b"".to_vec());
    world.fails = nothing_fails;
    world.cycle(&snapshot);
    assert_eq!(world.created(Stack::Active), 1);
    assert_eq!(world.file, b"1,101\n".to_vec());
}

fn comment_and_assignment_fail(q: &Request) -> bool {
    matches!(q, Request::PostComment { .. } | Request::AssignUser { .. })
}

#[test]
fn failed_comment_and_assignment_keep_card_and_mapping() {
    let snapshot = vec![incident(1, "OPEN")];
    let mut world = World::new(b"", comment_and_assignment_fail);
    let cycle = world.cycle(&snapshot);
    assert_eq!(
        kinds(&world.log),
        vec!["clock", "label", "label", "create", "persist", "comment", "assign"]
    );
    assert_eq!(
        cycle.outcomes(),
        &vec![Outcome::Created { card_id: 101, commented: false, assigned: false }]
    );
    assert_eq!(world.file, b"1,101\n".to_vec());
}

fn store_write_fails(q: &Request) -> bool {
    matches!(q, Request::PersistMapping { .. } | Request::RemoveMapping { .. })
}

#[test]
fn storage_failure_stops_the_cycle() {
    let snapshot = vec![incident(1, "OPEN"), incident(2, "OPEN")];
    let mut world = World::new(b"", store_write_fails);
    let cycle = world.cycle(&snapshot);
    assert_eq!(kinds(&world.log), vec!["clock", "label", "label", "create", "persist"]);
    assert!(cycle.is_halted());
    assert!(cycle.is_finished());
    assert_eq!(cycle.outcomes(), &vec![Outcome::StoreFailed]);

    let closed = vec![incident(7, "CLOSED"), incident(8, "CLOSED")];
    let mut world = World::new(b"7,42\n8,43\n", store_write_fails);
    let cycle = world.cycle(&closed);
    assert_eq!(kinds(&world.log), vec!["fetch", "label", "notes", "create", "remove"]);
    assert!(cycle.is_halted());
    assert_eq!(cycle.outcomes(), &vec![Outcome::StoreFailed]);
}

#[test]
fn finished_cycle_ignores_further_replies() {
    let store = load(b"9,90\n");
    let (cycle, first) = reconcile(vec![incident(1, "OPEN")], &store);
    assert_eq!(first, None);
    assert!(cycle.is_finished());
    let (cycle, next) = cycle.advance(Reply::Done);
    assert_eq!(next, None);
    assert!(cycle.is_finished());
    assert!(cycle.outcomes().is_empty());
}

#[test]
fn reply_of_the_wrong_kind_counts_as_failure() {
    let (cycle, first) = reconcile(vec![incident(1, "OPEN")], &MappingStore::new());
    assert_eq!(first, Some(Request::ReadClock));
    let (cycle, next) = cycle.advance(Reply::Done);
    assert_eq!(next, None);
    assert_eq!(cycle.outcomes(), &vec![Outcome::Skipped]);
}
