//! What holds of every cycle.

use crate::cards::{archived, drafted, is_open_status, progress_comment_of};
use crate::clock::Timestamp;
use crate::engine::{concluded, finished, opening, resolved_label, started, stepped, CycleView};
use crate::model::{CardView, IncidentView, LabelKind, Stack};
use crate::plan::{
    close_out_of, close_outs, close_outs_are_exact, incident_position, lemma_incident_position,
    needs_close_out, planned, Action,
};
use crate::protocol::{Outcome, ReplyView, RequestView};
use crate::store::{
    distinct_incidents, lemma_index_of_incident, lemma_removed, mapping_of, removed, tracks,
    TrackedMapping,
};
use vstd::prelude::*;

verus! {

/// Whether the cycle has just taken up the action `a`: it is the current
/// action, and nothing but its opening request was handed out for it.
pub open spec fn at_start_of(c: CycleView, a: Action) -> bool {
    !finished(c) && c.actions[c.position as int] == a && c.step == opening(a).0
}

/// Whether `q` changes the mapping store.
pub open spec fn writes_store(q: RequestView) -> bool {
    q is PersistMapping || q is RemoveMapping
}

/// Whether what a cycle asks next, if anything, opens the work for an action:
/// such a request reads the clock or a card and changes nothing.
pub open spec fn opens_or_rests(q: Option<RequestView>) -> bool {
    match q {
        Some(RequestView::ReadClock) => true,
        Some(RequestView::FetchCard { card_id }) => true,
        Some(_) => false,
        None => true,
    }
}

/// When an action ends, the cycle records how it ended and moves on by one
/// action; what it asks next, if anything, only opens the next action. After a
/// failure of the mapping store it asks nothing more.
pub proof fn concluding_opens_the_next_action(c: CycleView, outcome: Outcome)
    ensures
        opens_or_rests(concluded(c, outcome).1),
        concluded(c, outcome).0.snapshot == c.snapshot,
        concluded(c, outcome).0.actions == c.actions,
        concluded(c, outcome).0.position == c.position + 1,
        concluded(c, outcome).0.outcomes == c.outcomes.push(outcome),
        outcome == Outcome::StoreFailed ==> finished(concluded(c, outcome).0) && concluded(
            c,
            outcome,
        ).1 is None,
{
}

/// With nothing tracked, a cycle plans one creation for each incident of the
/// snapshot, in the snapshot's order, and nothing else.
pub proof fn bootstrap_plans_every_incident(snapshot: Seq<IncidentView>)
    requires
        snapshot.len() <= usize::MAX,
    ensures
        planned(snapshot, Seq::empty()).len() == snapshot.len(),
        forall|k: int|
            0 <= k < snapshot.len() ==> #[trigger] planned(snapshot, Seq::empty())[k] == (
            Action::Create { index: k as usize }),
{
}

/// Steady state: when something is tracked and every incident of the
/// snapshot is open, the cycle plans nothing, asks nothing and is finished
/// from the start.
pub proof fn steady_state_asks_nothing(snapshot: Seq<IncidentView>, entries: Seq<TrackedMapping>)
    requires
        entries.len() > 0,
        forall|k: int| 0 <= k < snapshot.len() ==> is_open_status((#[trigger] snapshot[k]).status),
    ensures
        planned(snapshot, entries).len() == 0,
        started(snapshot, entries).1 is None,
        finished(started(snapshot, entries).0),
{
    close_outs_are_exact(snapshot, entries);
    let all = close_outs(snapshot, entries);
    if all.len() > 0 {
        let k = choose|k: int|
            0 <= k < entries.len() && needs_close_out(snapshot, entries[k]) && all[0]
                == close_out_of(entries[k]);
        let at = incident_position(snapshot, entries[k].incident_id);
        lemma_incident_position(snapshot, entries[k].incident_id);
        assert(is_open_status(snapshot[at].status));
    }
}

/// A tracked mapping whose incident the snapshot does not hold is left
/// alone: no action is planned for that incident.
pub proof fn absent_incident_is_not_planned(
    snapshot: Seq<IncidentView>,
    entries: Seq<TrackedMapping>,
    k: int,
)
    requires
        0 <= k < entries.len(),
        incident_position(snapshot, entries[k].incident_id) >= snapshot.len(),
    ensures
        forall|j: int|
            0 <= j < planned(snapshot, entries).len() ==> match #[trigger] planned(
                snapshot,
                entries,
            )[j] {
                Action::Create { index } => false,
                Action::CloseOut { incident_id, card_id } => incident_id != entries[k].incident_id,
            },
{
    close_outs_are_exact(snapshot, entries);
    let all = planned(snapshot, entries);
    assert forall|j: int| 0 <= j < all.len() implies match #[trigger] all[j] {
        Action::Create { index } => false,
        Action::CloseOut { incident_id, card_id } => incident_id != entries[k].incident_id,
    } by {
        let m = choose|m: int|
            0 <= m < entries.len() && needs_close_out(snapshot, entries[m]) && all[j]
                == close_out_of(entries[m]);
        assert(all[j] == close_out_of(entries[m]));
    }
}

/// Once an incident is closed out and dropped from a store that still tracks
/// something else, later cycles plan nothing for it: they create no card, and
/// they close out other incidents only.
pub proof fn closed_out_incident_is_not_taken_up_again(
    snapshot: Seq<IncidentView>,
    entries: Seq<TrackedMapping>,
    incident_id: u32,
)
    requires
        distinct_incidents(entries),
        removed(entries, incident_id).len() > 0,
    ensures
        forall|j: int|
            0 <= j < planned(snapshot, removed(entries, incident_id)).len() ==> match #[trigger] planned(
                snapshot,
                removed(entries, incident_id),
            )[j] {
                Action::Create { index } => false,
                Action::CloseOut { incident_id: other, card_id } => other != incident_id,
            },
{
    let rest = removed(entries, incident_id);
    lemma_removed(entries, incident_id);
    assert(!mapping_of(rest).contains_key(incident_id));
    assert(!tracks(rest, incident_id));
    lemma_index_of_incident(rest, incident_id);
    close_outs_are_exact(snapshot, rest);
    let all = planned(snapshot, rest);
    assert forall|j: int| 0 <= j < all.len() implies match #[trigger] all[j] {
        Action::Create { index } => false,
        Action::CloseOut { incident_id: other, card_id } => other != incident_id,
    } by {
        let m = choose|m: int|
            0 <= m < rest.len() && needs_close_out(snapshot, rest[m]) && all[j] == close_out_of(
                rest[m],
            );
        assert(rest[m].incident_id != incident_id);
    }
}

/// A close-out whose every call succeeds asks, after reading the card, for
/// the finished label, the notes, the archive card, the removal of the
/// mapping and the deletion of the original card, in that order and each
/// once, and then ends. Whether the deletion succeeds does not matter: the
/// mapping is gone by then.
pub proof fn close_out_runs_in_order(
    c: CycleView,
    incident_id: u32,
    card_id: u32,
    card: CardView,
    finished_label: u32,
    notes: Seq<Seq<char>>,
    archive_id: u32,
    last: ReplyView,
)
    requires
        at_start_of(c, (Action::CloseOut { incident_id, card_id })),
    ensures
        ({
            let (c1, q1) = stepped(c, ReplyView::Card(card));
            let (c2, q2) = stepped(c1, ReplyView::LabelId(Some(finished_label)));
            let (c3, q3) = stepped(c2, ReplyView::Notes(notes));
            let (c4, q4) = stepped(c3, ReplyView::CardCreated(archive_id));
            let (c5, q5) = stepped(c4, ReplyView::Done);
            &&& opening((Action::CloseOut { incident_id, card_id })).1 == (RequestView::FetchCard {
                card_id,
            })
            &&& q1 == Some((RequestView::ResolveLabel { label: LabelKind::Finished }))
            &&& q2 == Some((RequestView::FetchNotes { incident_id }))
            &&& q3 == Some(
                (RequestView::CreateCard {
                    stack: Stack::Archive,
                    card: archived(card, finished_label, notes),
                }),
            )
            &&& q4 == Some((RequestView::RemoveMapping { incident_id }))
            &&& q5 == Some((RequestView::DeleteCard { card_id }))
            &&& stepped(c5, last) == concluded(
                c,
                (Outcome::Archived { original_deleted: last is Done }),
            )
        }),
{
}

/// A cycle over a store of one mapping whose incident has left the open
/// state does that close-out and nothing else: it opens by reading the card,
/// and when the close-out has ended the cycle is finished.
pub proof fn single_close_out_cycle(
    snapshot: Seq<IncidentView>,
    m: TrackedMapping,
    outcome: Outcome,
)
    requires
        needs_close_out(snapshot, m),
    ensures
        started(snapshot, seq![m]).1 == Some((RequestView::FetchCard { card_id: m.card_id })),
        at_start_of(started(snapshot, seq![m]).0, close_out_of(m)),
        started(snapshot, seq![m]).0.actions == seq![close_out_of(m)],
        finished(concluded(started(snapshot, seq![m]).0, outcome).0),
        concluded(started(snapshot, seq![m]).0, outcome).1 is None,
{
    let entries = seq![m];
    assert(entries.drop_last() =~= Seq::<TrackedMapping>::empty());
    assert(close_outs(snapshot, entries.drop_last()) =~= Seq::<Action>::empty());
    assert(close_outs(snapshot, entries) =~= seq![close_out_of(m)]);
}

/// If a call fails before the archive card exists, the close-out ends with
/// nothing changed: neither the removal of the mapping nor the deletion of
/// the card is asked for, so the next cycle finds the mapping and starts the
/// close-out afresh.
pub proof fn failed_close_out_keeps_the_mapping(
    c: CycleView,
    incident_id: u32,
    card_id: u32,
    r1: ReplyView,
    r2: ReplyView,
    r3: ReplyView,
    r4: ReplyView,
)
    requires
        at_start_of(c, (Action::CloseOut { incident_id, card_id })),
        !(r1 is Card) || resolved_label(r2) is None || !(r3 is Notes) || !(r4 is CardCreated),
    ensures
        ({
            let (c1, q1) = stepped(c, r1);
            let (c2, q2) = stepped(c1, r2);
            let (c3, q3) = stepped(c2, r3);
            let (c4, q4) = stepped(c3, r4);
            let outcome = if r1 is Card && resolved_label(r2) is None {
                Outcome::LabelMissing
            } else {
                Outcome::Skipped
            };
            if !(r1 is Card) {
                (c1, q1) == concluded(c, outcome)
            } else if resolved_label(r2) is None {
                &&& !writes_store(q1->0) && !(q1->0 is DeleteCard)
                &&& (c2, q2) == concluded(c, outcome)
            } else if !(r3 is Notes) {
                &&& !writes_store(q1->0) && !(q1->0 is DeleteCard)
                &&& !writes_store(q2->0) && !(q2->0 is DeleteCard)
                &&& (c3, q3) == concluded(c, outcome)
            } else {
                &&& !writes_store(q1->0) && !(q1->0 is DeleteCard)
                &&& !writes_store(q2->0) && !(q2->0 is DeleteCard)
                &&& !writes_store(q3->0) && !(q3->0 is DeleteCard)
                &&& (c4, q4) == concluded(c, outcome)
            }
        }),
{
}

/// If the mapping store cannot drop the mapping, the cycle stops: the
/// original card is not deleted and no further action is taken up.
pub proof fn failed_removal_stops_the_cycle(
    c: CycleView,
    incident_id: u32,
    card_id: u32,
    card: CardView,
    finished_label: u32,
    notes: Seq<Seq<char>>,
    archive_id: u32,
    r5: ReplyView,
)
    requires
        at_start_of(c, (Action::CloseOut { incident_id, card_id })),
        !(r5 is Done),
    ensures
        ({
            let (c1, q1) = stepped(c, ReplyView::Card(card));
            let (c2, q2) = stepped(c1, ReplyView::LabelId(Some(finished_label)));
            let (c3, q3) = stepped(c2, ReplyView::Notes(notes));
            let (c4, q4) = stepped(c3, ReplyView::CardCreated(archive_id));
            let (c5, q5) = stepped(c4, r5);
            &&& q5 is None
            &&& finished(c5)
            &&& c5.halted
            &&& c5.outcomes == c.outcomes.push(Outcome::StoreFailed)
        }),
{
}

/// The creation of a card, every call succeeding: after the clock come the
/// two labels, then the card, then the mapping, then the comment and the
/// assignment, each once. The mapping and the card stay whatever becomes of
/// the comment and the assignment.
pub proof fn creation_runs_in_order(
    c: CycleView,
    index: usize,
    now: Timestamp,
    action_label: u32,
    finished_label: u32,
    card_id: u32,
    r6: ReplyView,
    r7: ReplyView,
)
    requires
        at_start_of(c, (Action::Create { index })),
        index < c.snapshot.len(),
    ensures
        ({
            let incident = c.snapshot[index as int];
            let (c1, q1) = stepped(c, ReplyView::Time(now));
            let (c2, q2) = stepped(c1, ReplyView::LabelId(Some(action_label)));
            let (c3, q3) = stepped(c2, ReplyView::LabelId(Some(finished_label)));
            let (c4, q4) = stepped(c3, ReplyView::CardCreated(card_id));
            let (c5, q5) = stepped(c4, ReplyView::Done);
            let (c6, q6) = stepped(c5, r6);
            &&& opening((Action::Create { index })).1 == RequestView::ReadClock
            &&& q1 == Some((RequestView::ResolveLabel { label: LabelKind::ActionNeeded }))
            &&& q2 == Some((RequestView::ResolveLabel { label: LabelKind::Finished }))
            &&& q3 == Some(
                (RequestView::CreateCard {
                    stack: Stack::Active,
                    card: drafted(incident, now, action_label, finished_label),
                }),
            )
            &&& q4 == Some((RequestView::PersistMapping { incident_id: incident.id, card_id }))
            &&& q5 == Some((RequestView::PostComment { card_id, message: progress_comment_of() }))
            &&& q6 == Some((RequestView::AssignUser { card_id, user: incident.assignee }))
            &&& stepped(c6, r7) == concluded(
                c,
                (Outcome::Created { card_id, commented: r6 is Done, assigned: r7 is Done }),
            )
        }),
{
}

/// If the board lacks one of the two labels, no card is created and no
/// mapping is written: after the two look-ups the work for the incident ends.
pub proof fn missing_label_blocks_creation(
    c: CycleView,
    index: usize,
    now: Timestamp,
    r2: ReplyView,
    r3: ReplyView,
)
    requires
        at_start_of(c, (Action::Create { index })),
        index < c.snapshot.len(),
        resolved_label(r2) is None || resolved_label(r3) is None,
    ensures
        ({
            let (c1, q1) = stepped(c, ReplyView::Time(now));
            let (c2, q2) = stepped(c1, r2);
            let (c3, q3) = stepped(c2, r3);
            &&& q1 == Some((RequestView::ResolveLabel { label: LabelKind::ActionNeeded }))
            &&& q2 == Some((RequestView::ResolveLabel { label: LabelKind::Finished }))
            &&& (c3, q3) == concluded(c, Outcome::LabelMissing)
            &&& !(q3 is Some && q3->0 is CreateCard)
            &&& !(q3 is Some && writes_store(q3->0))
        }),
{
}

/// If the board does not create the card, no mapping is written, and the
/// incident is new again to the next cycle that starts with nothing tracked.
pub proof fn failed_card_creation_writes_no_mapping(
    c: CycleView,
    index: usize,
    now: Timestamp,
    action_label: u32,
    finished_label: u32,
    r4: ReplyView,
)
    requires
        at_start_of(c, (Action::Create { index })),
        index < c.snapshot.len(),
        !(r4 is CardCreated),
    ensures
        ({
            let (c1, q1) = stepped(c, ReplyView::Time(now));
            let (c2, q2) = stepped(c1, ReplyView::LabelId(Some(action_label)));
            let (c3, q3) = stepped(c2, ReplyView::LabelId(Some(finished_label)));
            let (c4, q4) = stepped(c3, r4);
            &&& q3->0 is CreateCard
            &&& (c4, q4) == concluded(c, Outcome::Skipped)
            &&& !(q4 is Some && writes_store(q4->0))
        }),
{
}

} // verus!
