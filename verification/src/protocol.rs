//! What the engine asks of its surroundings, and what they answer.

use crate::clock::Timestamp;
use crate::model::{Card, CardView, LabelKind, Stack};
use crate::text::texts_of;
use vstd::prelude::*;

verus! {

/// One thing for the caller to do before the cycle can go on.
#[derive(Clone, Debug, PartialEq, Eq)]
pub enum Request {
    /// Read the clock.
    ReadClock,
    /// Look up the identifier of a label on the board.
    ResolveLabel { label: LabelKind },
    /// Create a card in a stack of the board.
    CreateCard { stack: Stack, card: Card },
    /// Record in the mapping store that the card stands for the incident.
    PersistMapping { incident_id: u32, card_id: u32 },
    /// Post a comment on a card.
    PostComment { card_id: u32, message: String },
    /// Assign a user to a card.
    AssignUser { card_id: u32, user: String },
    /// Read a card of the active stack.
    FetchCard { card_id: u32 },
    /// Read the notes of an incident.
    FetchNotes { incident_id: u32 },
    /// Drop the incident from the mapping store.
    RemoveMapping { incident_id: u32 },
    /// Delete a card from the active stack.
    DeleteCard { card_id: u32 },
}

/// What a [`Request`] holds, its texts as characters.
pub enum RequestView {
    ReadClock,
    ResolveLabel { label: LabelKind },
    CreateCard { stack: Stack, card: CardView },
    PersistMapping { incident_id: u32, card_id: u32 },
    PostComment { card_id: u32, message: Seq<char> },
    AssignUser { card_id: u32, user: Seq<char> },
    FetchCard { card_id: u32 },
    FetchNotes { incident_id: u32 },
    RemoveMapping { incident_id: u32 },
    DeleteCard { card_id: u32 },
}

impl View for Request {
    type V = RequestView;

    open spec fn view(&self) -> RequestView {
        match self {
            Request::ReadClock => RequestView::ReadClock,
            Request::ResolveLabel { label } => RequestView::ResolveLabel { label: *label },
            Request::CreateCard { stack, card } => RequestView::CreateCard {
                stack: *stack,
                card: card@,
            },
            Request::PersistMapping { incident_id, card_id } => RequestView::PersistMapping {
                incident_id: *incident_id,
                card_id: *card_id,
            },
            Request::PostComment { card_id, message } => RequestView::PostComment {
                card_id: *card_id,
                message: message@,
            },
            Request::AssignUser { card_id, user } => RequestView::AssignUser {
                card_id: *card_id,
                user: user@,
            },
            Request::FetchCard { card_id } => RequestView::FetchCard { card_id: *card_id },
            Request::FetchNotes { incident_id } => RequestView::FetchNotes {
                incident_id: *incident_id,
            },
            Request::RemoveMapping { incident_id } => RequestView::RemoveMapping {
                incident_id: *incident_id,
            },
            Request::DeleteCard { card_id } => RequestView::DeleteCard { card_id: *card_id },
        }
    }
}

/// The view of a request that may be absent.
pub open spec fn request_view(request: Option<Request>) -> Option<RequestView> {
    match request {
        Some(q) => Some(q@),
        None => None,
    }
}

/// The caller's answer to a [`Request`].
#[derive(Clone, Debug, PartialEq, Eq)]
pub enum Reply {
    /// The clock's reading.
    Time(Timestamp),
    /// The label's identifier, or none if the board has no such label.
    LabelId(Option<u32>),
    /// The identifier of the card that was created.
    CardCreated(u32),
    /// The card that was read.
    Card(Card),
    /// The notes that were read, oldest first.
    Notes(Vec<String>),
    /// The request was carried out; there is nothing to hand back.
    Done,
    /// The request could not be carried out.
    Failed,
}

/// What a [`Reply`] holds, its texts as characters.
pub enum ReplyView {
    Time(Timestamp),
    LabelId(Option<u32>),
    CardCreated(u32),
    Card(CardView),
    Notes(Seq<Seq<char>>),
    Done,
    Failed,
}

impl View for Reply {
    type V = ReplyView;

    open spec fn view(&self) -> ReplyView {
        match self {
            Reply::Time(now) => ReplyView::Time(*now),
            Reply::LabelId(id) => ReplyView::LabelId(*id),
            Reply::CardCreated(card_id) => ReplyView::CardCreated(*card_id),
            Reply::Card(card) => ReplyView::Card(card@),
            Reply::Notes(notes) => ReplyView::Notes(texts_of(notes@)),
            Reply::Done => ReplyView::Done,
            Reply::Failed => ReplyView::Failed,
        }
    }
}

/// How the work for one incident ended in a cycle.
#[derive(Clone, Copy, Debug, PartialEq, Eq, Structural)]
pub enum Outcome {
    /// A card was created and the mapping was recorded. The comment and the
    /// assignment may each have failed; the card and the mapping stay.
    Created { card_id: u32, commented: bool, assigned: bool },
    /// The card went to the archive and the mapping was dropped. Deleting the
    /// original card may have failed; it is not tried again.
    Archived { original_deleted: bool },
    /// A label that the card needs is not on the board. Nothing was changed.
    LabelMissing,
    /// A remote call failed before anything durable was changed. The work is
    /// taken up again in the next cycle.
    Skipped,
    /// The mapping store could not be written. The cycle stops here.
    StoreFailed,
}

} // verus!
