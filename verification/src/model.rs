//! The records that the tracker and the board exchange with the engine.

use crate::text::text_of;
use vstd::prelude::*;

verus! {

/// An incident as the tracker reports it.
#[derive(Clone, Debug, PartialEq, Eq)]
pub struct Incident {
    pub id: u32,
    pub status: String,
    pub assignee: String,
    pub event_count: u64,
    pub source: String,
    pub categories: String,
    pub description: String,
    pub severity: u32,
    pub magnitude: u32,
}

/// What an [`Incident`] holds, its texts as characters.
pub struct IncidentView {
    pub id: u32,
    pub status: Seq<char>,
    pub assignee: Seq<char>,
    pub event_count: u64,
    pub source: Seq<char>,
    pub categories: Seq<char>,
    pub description: Seq<char>,
    pub severity: u32,
    pub magnitude: u32,
}

impl View for Incident {
    type V = IncidentView;

    open spec fn view(&self) -> IncidentView {
        IncidentView {
            id: self.id,
            status: self.status@,
            assignee: self.assignee@,
            event_count: self.event_count,
            source: self.source@,
            categories: self.categories@,
            description: self.description@,
            severity: self.severity,
            magnitude: self.magnitude,
        }
    }
}

/// The incidents of `v`, each as its view.
pub open spec fn incident_views(v: Seq<Incident>) -> Seq<IncidentView> {
    Seq::new(v.len(), |i: int| v[i]@)
}

/// A card of the board: what is sent to create one, and what the board
/// returns of one.
#[derive(Clone, Debug, PartialEq, Eq)]
pub struct Card {
    pub title: String,
    pub description: String,
    pub kind: String,
    pub order: u32,
    pub due_date: Option<String>,
    pub owner: String,
    pub labels: Vec<u32>,
}

/// What a [`Card`] holds, its texts as characters.
pub struct CardView {
    pub title: Seq<char>,
    pub description: Seq<char>,
    pub kind: Seq<char>,
    pub order: u32,
    pub due_date: Option<Seq<char>>,
    pub owner: Seq<char>,
    pub labels: Seq<u32>,
}

impl View for Card {
    type V = CardView;

    open spec fn view(&self) -> CardView {
        CardView {
            title: self.title@,
            description: self.description@,
            kind: self.kind@,
            order: self.order,
            due_date: text_of(self.due_date),
            owner: self.owner@,
            labels: self.labels@,
        }
    }
}

/// A label of the board.
#[derive(Clone, Debug, PartialEq, Eq)]
pub struct Label {
    pub id: u32,
    pub title: String,
}

/// What a [`Label`] holds, its title as characters.
pub struct LabelView {
    pub id: u32,
    pub title: Seq<char>,
}

impl View for Label {
    type V = LabelView;

    open spec fn view(&self) -> LabelView {
        LabelView { id: self.id, title: self.title@ }
    }
}

/// The labels of `v`, each as its view.
pub open spec fn label_views(v: Seq<Label>) -> Seq<LabelView> {
    Seq::new(v.len(), |i: int| v[i]@)
}

/// The two labels that the engine puts on cards.
#[derive(Clone, Copy, Debug, PartialEq, Eq, Structural)]
pub enum LabelKind {
    /// Marks a card that waits for someone to act.
    ActionNeeded,
    /// Marks a card whose incident is dealt with.
    Finished,
}

/// The two areas of the board that the engine writes to.
#[derive(Clone, Copy, Debug, PartialEq, Eq, Structural)]
pub enum Stack {
    /// Where the cards of open incidents live.
    Active,
    /// Where the cards of incidents that are no longer open are kept.
    Archive,
}

} // verus!
