//! One reconciliation cycle as a machine that hands out requests and takes
//! replies.
//!
//! A cycle works through its actions one at a time. For each action it hands
//! out one request after another; what it asks next depends on the reply to
//! what it asked before. It never calls out by itself.

use crate::cards::{
    archive_card, archived, drafted, new_card, progress_comment, progress_comment_of,
};
use crate::clock::Timestamp;
use crate::model::{incident_views, Card, CardView, Incident, IncidentView, LabelKind, Stack};
use crate::plan::{close_out_of, close_outs_are_exact, needs_close_out, plan, planned, Action};
use crate::protocol::{request_view, Outcome, Reply, ReplyView, Request, RequestView};
use crate::store::{MappingStore, TrackedMapping};
use vstd::prelude::*;

verus! {

/// Where the work for the current action stands: what was asked last.
#[derive(Clone, Debug, PartialEq, Eq)]
pub enum Step {
    /// There is no current action.
    Idle,
    /// Creation: the clock was asked for the time.
    ReadingClock,
    /// Creation: the board was asked for the action-needed label.
    ResolvingActionLabel { now: Timestamp },
    /// Creation: the board was asked for the finished label.
    ResolvingFinishedLabel { now: Timestamp, action_label: Option<u32> },
    /// Creation: the board was asked to create the card.
    CreatingCard,
    /// Creation: the store was asked to record the mapping.
    PersistingMapping { card_id: u32 },
    /// Creation: the board was asked to post the first comment.
    Commenting { card_id: u32 },
    /// Creation: the board was asked to assign the incident's owner.
    Assigning { card_id: u32, commented: bool },
    /// Close-out: the board was asked for the live card.
    FetchingCard,
    /// Close-out: the board was asked for the finished label.
    ResolvingArchiveLabel { card: Card },
    /// Close-out: the tracker was asked for the incident's notes.
    FetchingNotes { card: Card, finished_label: u32 },
    /// Close-out: the board was asked to create the card in the archive.
    Archiving,
    /// Close-out: the store was asked to drop the mapping.
    RemovingMapping,
    /// Close-out: the board was asked to delete the original card.
    DeletingOriginal,
}

/// What a [`Step`] holds, its texts as characters.
pub enum StepView {
    Idle,
    ReadingClock,
    ResolvingActionLabel { now: Timestamp },
    ResolvingFinishedLabel { now: Timestamp, action_label: Option<u32> },
    CreatingCard,
    PersistingMapping { card_id: u32 },
    Commenting { card_id: u32 },
    Assigning { card_id: u32, commented: bool },
    FetchingCard,
    ResolvingArchiveLabel { card: CardView },
    FetchingNotes { card: CardView, finished_label: u32 },
    Archiving,
    RemovingMapping,
    DeletingOriginal,
}

impl View for Step {
    type V = StepView;

    open spec fn view(&self) -> StepView {
        match self {
            Step::Idle => StepView::Idle,
            Step::ReadingClock => StepView::ReadingClock,
            Step::ResolvingActionLabel { now } => StepView::ResolvingActionLabel { now: *now },
            Step::ResolvingFinishedLabel { now, action_label } => StepView::ResolvingFinishedLabel {
                now: *now,
                action_label: *action_label,
            },
            Step::CreatingCard => StepView::CreatingCard,
            Step::PersistingMapping { card_id } => StepView::PersistingMapping {
                card_id: *card_id,
            },
            Step::Commenting { card_id } => StepView::Commenting { card_id: *card_id },
            Step::Assigning { card_id, commented } => StepView::Assigning {
                card_id: *card_id,
                commented: *commented,
            },
            Step::FetchingCard => StepView::FetchingCard,
            Step::ResolvingArchiveLabel { card } => StepView::ResolvingArchiveLabel { card: card@ },
            Step::FetchingNotes { card, finished_label } => StepView::FetchingNotes {
                card: card@,
                finished_label: *finished_label,
            },
            Step::Archiving => StepView::Archiving,
            Step::RemovingMapping => StepView::RemovingMapping,
            Step::DeletingOriginal => StepView::DeletingOriginal,
        }
    }
}

/// What a reply does to the work for one action: it goes on with another
/// request, or it ends.
#[derive(Clone, Debug, PartialEq, Eq)]
pub enum Move {
    Next { step: Step, request: Request },
    End { outcome: Outcome },
}

/// What a [`Move`] holds, its texts as characters.
pub enum MoveView {
    Next { step: StepView, request: RequestView },
    End { outcome: Outcome },
}

impl View for Move {
    type V = MoveView;

    open spec fn view(&self) -> MoveView {
        match self {
            Move::Next { step, request } => MoveView::Next { step: step@, request: request@ },
            Move::End { outcome } => MoveView::End { outcome: *outcome },
        }
    }
}

/// The label identifier that a reply carries, if it carries one.
pub open spec fn resolved_label(reply: ReplyView) -> Option<u32> {
    match reply {
        ReplyView::LabelId(id) => id,
        _ => None,
    }
}

/// What a reply does to the creation of a card for `incident`.
///
/// The time is read, then both labels are looked up; the card is created
/// only if the board has both. Once the card exists the mapping is recorded,
/// and only then come the comment and the assignment, whose failure changes
/// nothing of what was done before.
pub open spec fn creation_step(incident: IncidentView, step: StepView, reply: ReplyView) -> MoveView {
    match step {
        StepView::ReadingClock => match reply {
            ReplyView::Time(now) => MoveView::Next {
                step: StepView::ResolvingActionLabel { now },
                request: RequestView::ResolveLabel { label: LabelKind::ActionNeeded },
            },
            _ => MoveView::End { outcome: Outcome::Skipped },
        },
        StepView::ResolvingActionLabel { now } => MoveView::Next {
            step: StepView::ResolvingFinishedLabel { now, action_label: resolved_label(reply) },
            request: RequestView::ResolveLabel { label: LabelKind::Finished },
        },
        StepView::ResolvingFinishedLabel { now, action_label } => match (
            action_label,
            resolved_label(reply),
        ) {
            (Some(action), Some(finished)) => MoveView::Next {
                step: StepView::CreatingCard,
                request: RequestView::CreateCard {
                    stack: Stack::Active,
                    card: drafted(incident, now, action, finished),
                },
            },
            _ => MoveView::End { outcome: Outcome::LabelMissing },
        },
        StepView::CreatingCard => match reply {
            ReplyView::CardCreated(card_id) => MoveView::Next {
                step: StepView::PersistingMapping { card_id },
                request: RequestView::PersistMapping { incident_id: incident.id, card_id },
            },
            _ => MoveView::End { outcome: Outcome::Skipped },
        },
        StepView::PersistingMapping { card_id } => match reply {
            ReplyView::Done => MoveView::Next {
                step: StepView::Commenting { card_id },
                request: RequestView::PostComment { card_id, message: progress_comment_of() },
            },
            _ => MoveView::End { outcome: Outcome::StoreFailed },
        },
        StepView::Commenting { card_id } => MoveView::Next {
            step: StepView::Assigning { card_id, commented: reply is Done },
            request: RequestView::AssignUser { card_id, user: incident.assignee },
        },
        StepView::Assigning { card_id, commented } => MoveView::End {
            outcome: Outcome::Created { card_id, commented, assigned: reply is Done },
        },
        _ => MoveView::End { outcome: Outcome::Skipped },
    }
}

/// What a reply does to the close-out of the card `card_id` of the incident
/// `incident_id`.
///
/// The card is read, the finished label looked up and the notes read; then
/// the archive card is created. Only when that has succeeded is the mapping
/// dropped, and only then the original card deleted. A failure before the
/// mapping is dropped ends the work with nothing changed.
pub open spec fn close_out_step(
    incident_id: u32,
    card_id: u32,
    step: StepView,
    reply: ReplyView,
) -> MoveView {
    match step {
        StepView::FetchingCard => match reply {
            ReplyView::Card(card) => MoveView::Next {
                step: StepView::ResolvingArchiveLabel { card },
                request: RequestView::ResolveLabel { label: LabelKind::Finished },
            },
            _ => MoveView::End { outcome: Outcome::Skipped },
        },
        StepView::ResolvingArchiveLabel { card } => match resolved_label(reply) {
            Some(finished_label) => MoveView::Next {
                step: StepView::FetchingNotes { card, finished_label },
                request: RequestView::FetchNotes { incident_id },
            },
            None => MoveView::End { outcome: Outcome::LabelMissing },
        },
        StepView::FetchingNotes { card, finished_label } => match reply {
            ReplyView::Notes(notes) => MoveView::Next {
                step: StepView::Archiving,
                request: RequestView::CreateCard {
                    stack: Stack::Archive,
                    card: archived(card, finished_label, notes),
                },
            },
            _ => MoveView::End { outcome: Outcome::Skipped },
        },
        StepView::Archiving => match reply {
            ReplyView::CardCreated(_) => MoveView::Next {
                step: StepView::RemovingMapping,
                request: RequestView::RemoveMapping { incident_id },
            },
            _ => MoveView::End { outcome: Outcome::Skipped },
        },
        StepView::RemovingMapping => match reply {
            ReplyView::Done => MoveView::Next {
                step: StepView::DeletingOriginal,
                request: RequestView::DeleteCard { card_id },
            },
            _ => MoveView::End { outcome: Outcome::StoreFailed },
        },
        StepView::DeletingOriginal => MoveView::End {
            outcome: Outcome::Archived { original_deleted: reply is Done },
        },
        _ => MoveView::End { outcome: Outcome::Skipped },
    }
}

/// What a reply does to the work for `action`.
pub open spec fn task_step(
    snapshot: Seq<IncidentView>,
    action: Action,
    step: StepView,
    reply: ReplyView,
) -> MoveView {
    match action {
        Action::Create { index } => if index < snapshot.len() {
            creation_step(snapshot[index as int], step, reply)
        } else {
            MoveView::End { outcome: Outcome::Skipped }
        },
        Action::CloseOut { incident_id, card_id } => close_out_step(
            incident_id,
            card_id,
            step,
            reply,
        ),
    }
}

/// The first step of the work for `action`, and the request that opens it.
pub open spec fn opening(action: Action) -> (StepView, RequestView) {
    match action {
        Action::Create { index } => (StepView::ReadingClock, RequestView::ReadClock),
        Action::CloseOut { incident_id, card_id } => (
            StepView::FetchingCard,
            RequestView::FetchCard { card_id },
        ),
    }
}

/// The state of a cycle.
pub struct CycleView {
    /// The incidents that the tracker reported.
    pub snapshot: Seq<IncidentView>,
    /// What the cycle set out to do.
    pub actions: Seq<Action>,
    /// How many actions are concluded.
    pub position: nat,
    /// Where the work for the current action stands.
    pub step: StepView,
    /// Whether the cycle was stopped by a failure of the mapping store.
    pub halted: bool,
    /// How each concluded action ended.
    pub outcomes: Seq<Outcome>,
}

/// Whether the cycle has nothing more to ask.
pub open spec fn finished(c: CycleView) -> bool {
    c.halted || c.position >= c.actions.len()
}

/// The cycle as it takes up the action at its position, with the request
/// that opens the work, if there is an action left to take up.
pub open spec fn entered(c: CycleView) -> (CycleView, Option<RequestView>) {
    if finished(c) {
        (CycleView { step: StepView::Idle, ..c }, None)
    } else {
        let (step, request) = opening(c.actions[c.position as int]);
        (CycleView { step, ..c }, Some(request))
    }
}

/// The cycle after its current action ended with `outcome`. A failure of the
/// mapping store stops the cycle; after any other outcome it takes up the
/// next action.
pub open spec fn concluded(c: CycleView, outcome: Outcome) -> (CycleView, Option<RequestView>) {
    entered(
        CycleView {
            position: c.position + 1,
            halted: outcome == Outcome::StoreFailed,
            outcomes: c.outcomes.push(outcome),
            ..c
        },
    )
}

/// The cycle after the reply to its last request, and what it asks next.
/// A finished cycle stays as it is and asks nothing.
pub open spec fn stepped(c: CycleView, reply: ReplyView) -> (CycleView, Option<RequestView>) {
    if finished(c) {
        (c, None)
    } else {
        match task_step(c.snapshot, c.actions[c.position as int], c.step, reply) {
            MoveView::Next { step, request } => (CycleView { step, ..c }, Some(request)),
            MoveView::End { outcome } => concluded(c, outcome),
        }
    }
}

/// A new cycle for the tracker's snapshot and the tracked mappings, and its
/// first request.
pub open spec fn started(snapshot: Seq<IncidentView>, entries: Seq<TrackedMapping>) -> (
    CycleView,
    Option<RequestView>,
) {
    entered(
        CycleView {
            snapshot,
            actions: planned(snapshot, entries),
            position: 0,
            step: StepView::Idle,
            halted: false,
            outcomes: Seq::empty(),
        },
    )
}

/// What holds of a cycle at every moment: one outcome is on record for each
/// concluded action; the cycle is stopped exactly when the last of them is a
/// failure of the mapping store, and no earlier outcome is one; every planned
/// creation is for an incident of the snapshot; and the cycle is idle exactly
/// when it is finished.
pub open spec fn well_formed(c: CycleView) -> bool {
    &&& c.position <= c.actions.len()
    &&& c.outcomes.len() == c.position
    &&& c.halted == (c.outcomes.len() > 0 && c.outcomes.last() == Outcome::StoreFailed)
    &&& forall|k: int|
        0 <= k < c.outcomes.len() - 1 ==> #[trigger] c.outcomes[k] != Outcome::StoreFailed
    &&& forall|p: int|
        0 <= p < c.actions.len() ==> match #[trigger] c.actions[p] {
            Action::Create { index } => index < c.snapshot.len(),
            Action::CloseOut { incident_id, card_id } => true,
        }
    &&& finished(c) == (c.step is Idle)
}

/// A new cycle is well formed.
pub proof fn new_cycle_is_well_formed(snapshot: Seq<IncidentView>, entries: Seq<TrackedMapping>)
    requires
        snapshot.len() <= usize::MAX,
    ensures
        well_formed(started(snapshot, entries).0),
        started(snapshot, entries).1 is None == finished(started(snapshot, entries).0),
{
    close_outs_are_exact(snapshot, entries);
    let actions = planned(snapshot, entries);
    assert forall|p: int| 0 <= p < actions.len() implies match #[trigger] actions[p] {
        Action::Create { index } => index < snapshot.len(),
        Action::CloseOut { incident_id, card_id } => true,
    } by {
        if entries.len() > 0 {
            let k = choose|k: int|
                0 <= k < entries.len() && needs_close_out(snapshot, entries[k]) && actions[p]
                    == close_out_of(entries[k]);
            assert(actions[p] == close_out_of(entries[k]));
        }
    }
}

/// Whatever the reply, a well-formed cycle stays well formed, keeps its
/// snapshot and its actions, and asks for something exactly when it is not
/// finished afterwards.
pub proof fn step_keeps_cycle_well_formed(c: CycleView, reply: ReplyView)
    requires
        well_formed(c),
    ensures
        well_formed(stepped(c, reply).0),
        stepped(c, reply).0.snapshot == c.snapshot,
        stepped(c, reply).0.actions == c.actions,
        stepped(c, reply).1 is None == finished(stepped(c, reply).0),
{
    let (c2, q) = stepped(c, reply);
    if c2.position > c.position {
        assert forall|k: int| 0 <= k < c2.outcomes.len() - 1 implies #[trigger] c2.outcomes[k]
            != Outcome::StoreFailed by {
            assert(c2.outcomes[k] == c.outcomes[k]);
            if k == c.outcomes.len() - 1 {
                assert(!c.halted);
            }
        }
    }
}

/// A reconciliation cycle in progress.
#[derive(Debug)]
pub struct Cycle {
    snapshot: Vec<Incident>,
    actions: Vec<Action>,
    position: usize,
    step: Step,
    halted: bool,
    outcomes: Vec<Outcome>,
}

impl View for Cycle {
    type V = CycleView;

    closed spec fn view(&self) -> CycleView {
        CycleView {
            snapshot: incident_views(self.snapshot@),
            actions: self.actions@,
            position: self.position as nat,
            step: self.step@,
            halted: self.halted,
            outcomes: self.outcomes@,
        }
    }
}

/// Whether `reply` reports that a request was carried out with nothing to
/// hand back.
pub fn is_done(reply: &Reply) -> (done: bool)
    ensures
        done == (reply@ is Done),
{
    match reply {
        Reply::Done => true,
        _ => false,
    }
}

/// The label identifier that `reply` carries, if it carries one.
pub fn label_of(reply: &Reply) -> (id: Option<u32>)
    ensures
        id == resolved_label(reply@),
{
    match reply {
        Reply::LabelId(id) => *id,
        _ => None,
    }
}

/// Takes the creation of a card for `incident` one step further.
pub fn advance_creation(incident: &Incident, step: Step, reply: Reply) -> (next: Move)
    ensures
        next@ == creation_step(incident@, step@, reply@),
{
    match step {
        Step::ReadingClock => match reply {
            Reply::Time(now) => Move::Next {
                step: Step::ResolvingActionLabel { now },
                request: Request::ResolveLabel { label: LabelKind::ActionNeeded },
            },
            _ => Move::End { outcome: Outcome::Skipped },
        },
        Step::ResolvingActionLabel { now } => Move::Next {
            step: Step::ResolvingFinishedLabel { now, action_label: label_of(&reply) },
            request: Request::ResolveLabel { label: LabelKind::Finished },
        },
        Step::ResolvingFinishedLabel { now, action_label } => match action_label {
            Some(action) => match label_of(&reply) {
                Some(finished) => Move::Next {
                    step: Step::CreatingCard,
                    request: Request::CreateCard {
                        stack: Stack::Active,
                        card: new_card(incident, now, action, finished),
                    },
                },
                None => Move::End { outcome: Outcome::LabelMissing },
            },
            None => Move::End { outcome: Outcome::LabelMissing },
        },
        Step::CreatingCard => match reply {
            Reply::CardCreated(card_id) => Move::Next {
                step: Step::PersistingMapping { card_id },
                request: Request::PersistMapping { incident_id: incident.id, card_id },
            },
            _ => Move::End { outcome: Outcome::Skipped },
        },
        Step::PersistingMapping { card_id } => match reply {
            Reply::Done => Move::Next {
                step: Step::Commenting { card_id },
                request: Request::PostComment { card_id, message: progress_comment() },
            },
            _ => Move::End { outcome: Outcome::StoreFailed },
        },
        Step::Commenting { card_id } => Move::Next {
            step: Step::Assigning { card_id, commented: is_done(&reply) },
            request: Request::AssignUser { card_id, user: incident.assignee.clone() },
        },
        Step::Assigning { card_id, commented } => Move::End {
            outcome: Outcome::Created { card_id, commented, assigned: is_done(&reply) },
        },
        _ => Move::End { outcome: Outcome::Skipped },
    }
}

/// Takes the close-out of the card `card_id` of the incident `incident_id`
/// one step further.
pub fn advance_close_out(incident_id: u32, card_id: u32, step: Step, reply: Reply) -> (next: Move)
    ensures
        next@ == close_out_step(incident_id, card_id, step@, reply@),
{
    match step {
        Step::FetchingCard => match reply {
            Reply::Card(card) => Move::Next {
                step: Step::ResolvingArchiveLabel { card },
                request: Request::ResolveLabel { label: LabelKind::Finished },
            },
            _ => Move::End { outcome: Outcome::Skipped },
        },
        Step::ResolvingArchiveLabel { card } => match label_of(&reply) {
            Some(finished_label) => Move::Next {
                step: Step::FetchingNotes { card, finished_label },
                request: Request::FetchNotes { incident_id },
            },
            None => Move::End { outcome: Outcome::LabelMissing },
        },
        Step::FetchingNotes { card, finished_label } => match reply {
            Reply::Notes(notes) => Move::Next {
                step: Step::Archiving,
                request: Request::CreateCard {
                    stack: Stack::Archive,
                    card: archive_card(card, finished_label, &notes),
                },
            },
            _ => Move::End { outcome: Outcome::Skipped },
        },
        Step::Archiving => match reply {
            Reply::CardCreated(_) => Move::Next {
                step: Step::RemovingMapping,
                request: Request::RemoveMapping { incident_id },
            },
            _ => Move::End { outcome: Outcome::Skipped },
        },
        Step::RemovingMapping => match reply {
            Reply::Done => Move::Next {
                step: Step::DeletingOriginal,
                request: Request::DeleteCard { card_id },
            },
            _ => Move::End { outcome: Outcome::StoreFailed },
        },
        Step::DeletingOriginal => Move::End {
            outcome: Outcome::Archived { original_deleted: is_done(&reply) },
        },
        _ => Move::End { outcome: Outcome::Skipped },
    }
}

impl Cycle {
    #[verifier::type_invariant]
    spec fn is_well_formed(&self) -> bool {
        well_formed(self@)
    }

    /// Whether the cycle has nothing more to ask.
    pub fn is_finished(&self) -> (done: bool)
        ensures
            done == finished(self@),
    {
        self.halted || self.position >= self.actions.len()
    }

    /// Whether the cycle was stopped by a failure of the mapping store.
    pub fn is_halted(&self) -> (halted: bool)
        ensures
            halted == self@.halted,
    {
        self.halted
    }

    /// The actions that the cycle set out to do.
    pub fn actions(&self) -> (actions: &Vec<Action>)
        ensures
            actions@ == self@.actions,
    {
        &self.actions
    }

    /// How each concluded action ended, in the order of the actions.
    pub fn outcomes(&self) -> (outcomes: &Vec<Outcome>)
        ensures
            outcomes@ == self@.outcomes,
    {
        &self.outcomes
    }

    /// The cycle that takes up the action at `position`, and the request that
    /// opens the work for it.
    fn enter(
        snapshot: Vec<Incident>,
        actions: Vec<Action>,
        position: usize,
        halted: bool,
        outcomes: Vec<Outcome>,
    ) -> (next: (Cycle, Option<Request>))
        requires
            well_formed(
                entered(
                    (CycleView {
                        snapshot: incident_views(snapshot@),
                        actions: actions@,
                        position: position as nat,
                        step: StepView::Idle,
                        halted,
                        outcomes: outcomes@,
                    }),
                ).0,
            ),
        ensures
            (next.0@, request_view(next.1)) == entered(
                (CycleView {
                    snapshot: incident_views(snapshot@),
                    actions: actions@,
                    position: position as nat,
                    step: StepView::Idle,
                    halted,
                    outcomes: outcomes@,
                }),
            ),
    {
        if halted || position >= actions.len() {
            (Cycle { snapshot, actions, position, step: Step::Idle, halted, outcomes }, None)
        } else {
            match actions[position] {
                Action::Create { index } => (
                    Cycle { snapshot, actions, position, step: Step::ReadingClock, halted, outcomes },
                    Some(Request::ReadClock),
                ),
                Action::CloseOut { incident_id, card_id } => (
                    Cycle { snapshot, actions, position, step: Step::FetchingCard, halted, outcomes },
                    Some(Request::FetchCard { card_id }),
                ),
            }
        }
    }

    /// Takes in the reply to the request that the cycle handed out last, and
    /// hands out the next request, if there is one.
    pub fn advance(self, reply: Reply) -> (next: (Cycle, Option<Request>))
        ensures
            (next.0@, request_view(next.1)) == stepped(self@, reply@),
            well_formed(self@),
            well_formed(next.0@),
    {
        proof {
            use_type_invariant(&self);
            step_keeps_cycle_well_formed(self@, reply@);
        }
        if self.is_finished() {
            return (self, None);
        }
        assert(self.position < self.actions.len());
        let ghost before = self@;
        let Cycle { snapshot, actions, position, step, halted, outcomes } = self;
        let moved = match actions[position] {
            Action::Create { index } => if index < snapshot.len() {
                advance_creation(&snapshot[index], step, reply)
            } else {
                Move::End { outcome: Outcome::Skipped }
            },
            Action::CloseOut { incident_id, card_id } => advance_close_out(
                incident_id,
                card_id,
                step,
                reply,
            ),
        };
        match moved {
            Move::Next { step, request } => (
                Cycle { snapshot, actions, position, step, halted, outcomes },
                Some(request),
            ),
            Move::End { outcome } => {
                let mut outcomes = outcomes;
                outcomes.push(outcome);
                let stop = match outcome {
                    Outcome::StoreFailed => true,
                    _ => false,
                };
                assert(concluded(before, outcome) == entered(
                    (CycleView {
                        snapshot: incident_views(snapshot@),
                        actions: actions@,
                        position: (position + 1) as nat,
                        step: StepView::Idle,
                        halted: stop,
                        outcomes: outcomes@,
                    }),
                ));
                Cycle::enter(snapshot, actions, position + 1, stop, outcomes)
            },
        }
    }
}

/// Starts a cycle for the tracker's snapshot and the tracked mappings, and
/// hands out its first request, if there is anything to do.
pub fn reconcile(snapshot: Vec<Incident>, store: &MappingStore) -> (next: (Cycle, Option<Request>))
    ensures
        (next.0@, request_view(next.1)) == started(incident_views(snapshot@), store@),
        well_formed(next.0@),
{
    proof {
        assert(incident_views(snapshot@).len() == snapshot.len());
        new_cycle_is_well_formed(incident_views(snapshot@), store@);
    }
    let actions = plan(&snapshot, store);
    Cycle::enter(snapshot, actions, 0, false, Vec::new())
}

} // verus!
