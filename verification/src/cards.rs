//! What the engine writes on a card.

use crate::clock::{due_date, due_date_of, Timestamp};
use crate::model::{
    label_views, Card, CardView, Incident, IncidentView, Label, LabelKind, LabelView,
};
use crate::text::{decimal_chars, join_lines, joined_lines, push_decimal_text, texts_of};
use vstd::prelude::*;
use vstd::string::*;

verus! {

/// The position that a new card asks for in its stack.
pub const CARD_ORDER: u32 = 999;

/// The title under which the board knows the label `kind`.
pub open spec fn label_title_of(kind: LabelKind) -> Seq<char> {
    match kind {
        LabelKind::ActionNeeded => "Action needed"@,
        LabelKind::Finished => "Finished"@,
    }
}

/// The comment that a new card starts with.
pub open spec fn progress_comment_of() -> Seq<char> {
    "Working on progress... Will update you with the results"@
}

/// Whether `status` is that of an open incident.
pub open spec fn is_open_status(status: Seq<char>) -> bool {
    status == "OPEN"@
}

/// The title of the card of the incident `id`.
pub open spec fn title_of(id: u32) -> Seq<char> {
    "Offense ID "@ + decimal_chars(id as nat)
}

/// The description of a new card: the incident's fields, one per line.
pub open spec fn description_of(i: IncidentView) -> Seq<char> {
    "This event has been triggered: "@ + decimal_chars(i.event_count as nat) + "\n"@
        + "The user who handles this offense: "@ + i.assignee + "\n"@ + "Offense Source: "@
        + i.source + "\n"@ + "Status: "@ + i.status + "\n"@ + "Categories: "@ + i.categories
        + "\n"@ + "Description: "@ + i.description + "\n"@ + "Severity: "@ + decimal_chars(
        i.severity as nat,
    ) + "\n"@ + "Magnitude: "@ + decimal_chars(i.magnitude as nat)
}

/// The card that is created for `incident` at `now`, with the two labels
/// under their identifiers on the board.
pub open spec fn drafted(
    incident: IncidentView,
    now: Timestamp,
    action_label: u32,
    finished_label: u32,
) -> CardView {
    CardView {
        title: title_of(incident.id),
        description: description_of(incident),
        kind: "plain"@,
        order: CARD_ORDER,
        due_date: due_date_of(now),
        owner: incident.assignee,
        labels: seq![action_label, finished_label],
    }
}

/// The card that goes to the archive in place of `card`: the same card with
/// the finished label added at the end of its labels and the incident's notes
/// under its description.
pub open spec fn archived(card: CardView, finished_label: u32, notes: Seq<Seq<char>>) -> CardView {
    CardView {
        description: card.description + "\n\nNotes:\n"@ + joined_lines(notes),
        labels: card.labels.push(finished_label),
        ..card
    }
}

/// The identifier of the first label of `labels` that is titled `title`.
pub open spec fn label_id_of(labels: Seq<LabelView>, title: Seq<char>) -> Option<u32>
    decreases labels.len(),
{
    if labels.len() == 0 {
        None
    } else if labels[0].title == title {
        Some(labels[0].id)
    } else {
        label_id_of(labels.drop_first(), title)
    }
}

/// The title under which the board knows the label `kind`.
pub fn label_title(kind: LabelKind) -> (title: String)
    ensures
        title@ == label_title_of(kind),
{
    let mut title = String::new();
    match kind {
        LabelKind::ActionNeeded => title.append("Action needed"),
        LabelKind::Finished => title.append("Finished"),
    }
    assert(title@ =~= label_title_of(kind));
    title
}

/// The comment that a new card starts with.
pub fn progress_comment() -> (message: String)
    ensures
        message@ == progress_comment_of(),
{
    let mut message = String::new();
    message.append("Working on progress... Will update you with the results");
    assert(message@ =~= progress_comment_of());
    message
}

/// Whether `status` is that of an open incident.
pub fn is_open(status: &String) -> (open: bool)
    ensures
        open == is_open_status(status@),
{
    let mut wanted = String::new();
    wanted.append("OPEN");
    assert(wanted@ =~= "OPEN"@);
    *status == wanted
}

/// The identifier of the first label of `labels` that is titled `title`, if
/// there is one.
pub fn find_label_id(labels: &Vec<Label>, title: &String) -> (id: Option<u32>)
    ensures
        id == label_id_of(label_views(labels@), title@),
{
    let ghost all = label_views(labels@);
    let mut k: usize = 0;
    assert(all.skip(0) =~= all);
    while k < labels.len()
        invariant
            k <= labels.len(),
            all == label_views(labels@),
            label_id_of(all.skip(k as int), title@) == label_id_of(all, title@),
        decreases labels.len() - k,
    {
        assert(all.skip(k as int)[0] == labels@[k as int]@);
        if labels[k].title == *title {
            return Some(labels[k].id);
        }
        assert(all.skip(k as int).drop_first() =~= all.skip(k + 1));
        k = k + 1;
    }
    None
}

/// The title of the card of the incident `id`.
pub fn card_title(id: u32) -> (title: String)
    ensures
        title@ == title_of(id),
{
    let mut title = String::new();
    title.append("Offense ID ");
    push_decimal_text(id as u64, &mut title);
    assert(title@ =~= title_of(id));
    title
}

/// The description of a new card for `incident`.
pub fn describe(incident: &Incident) -> (text: String)
    ensures
        text@ == description_of(incident@),
{
    let mut text = String::new();
    text.append("This event has been triggered: ");
    push_decimal_text(incident.event_count, &mut text);
    text.append("\n");
    text.append("The user who handles this offense: ");
    text.append(incident.assignee.as_str());
    text.append("\n");
    text.append("Offense Source: ");
    text.append(incident.source.as_str());
    text.append("\n");
    text.append("Status: ");
    text.append(incident.status.as_str());
    text.append("\n");
    text.append("Categories: ");
    text.append(incident.categories.as_str());
    text.append("\n");
    text.append("Description: ");
    text.append(incident.description.as_str());
    text.append("\n");
    text.append("Severity: ");
    push_decimal_text(incident.severity as u64, &mut text);
    text.append("\n");
    text.append("Magnitude: ");
    push_decimal_text(incident.magnitude as u64, &mut text);
    assert(text@ =~= description_of(incident@));
    text
}

/// The card to create for `incident` at `now`.
pub fn new_card(incident: &Incident, now: Timestamp, action_label: u32, finished_label: u32) -> (card:
    Card)
    ensures
        card@ == drafted(incident@, now, action_label, finished_label),
{
    let mut kind = String::new();
    kind.append("plain");
    assert(kind@ =~= "plain"@);
    let mut labels: Vec<u32> = Vec::new();
    labels.push(action_label);
    labels.push(finished_label);
    assert(labels@ =~= seq![action_label, finished_label]);
    Card {
        title: card_title(incident.id),
        description: describe(incident),
        kind,
        order: CARD_ORDER,
        due_date: due_date(now),
        owner: incident.assignee.clone(),
        labels,
    }
}

/// The card to create in the archive in place of `card`.
pub fn archive_card(card: Card, finished_label: u32, notes: &Vec<String>) -> (archive: Card)
    ensures
        archive@ == archived(card@, finished_label, texts_of(notes@)),
{
    let mut archive = card;
    archive.labels.push(finished_label);
    archive.description.append("\n\nNotes:\n");
    let joined = join_lines(notes);
    archive.description.append(joined.as_str());
    archive
}

} // verus!
