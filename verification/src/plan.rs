//! What a cycle sets out to do: which incidents get a card, and which cards
//! go to the archive.

use crate::cards::{is_open, is_open_status};
use crate::model::{incident_views, Incident, IncidentView};
use crate::store::{MappingStore, TrackedMapping};
use vstd::prelude::*;

verus! {

/// The work that a cycle does for one incident.
#[derive(Clone, Copy, Debug, PartialEq, Eq, Structural)]
pub enum Action {
    /// Create a card for the incident at position `index` of the snapshot.
    Create { index: usize },
    /// Move the card of a tracked incident to the archive.
    CloseOut { incident_id: u32, card_id: u32 },
}

/// The position of the first incident of `snapshot` with the identifier `id`,
/// or the length of `snapshot` if there is none.
pub open spec fn incident_position(snapshot: Seq<IncidentView>, id: u32) -> int
    decreases snapshot.len(),
{
    if snapshot.len() == 0 || snapshot[0].id == id {
        0
    } else {
        1 + incident_position(snapshot.drop_first(), id)
    }
}

/// Whether the card of `m` has to go to the archive: the snapshot holds the
/// incident, and the incident is no longer open.
pub open spec fn needs_close_out(snapshot: Seq<IncidentView>, m: TrackedMapping) -> bool {
    let k = incident_position(snapshot, m.incident_id);
    k < snapshot.len() && !is_open_status(snapshot[k].status)
}

/// The action that closes out `m`.
pub open spec fn close_out_of(m: TrackedMapping) -> Action {
    Action::CloseOut { incident_id: m.incident_id, card_id: m.card_id }
}

/// One close-out for each entry that needs one, in the order of the entries.
pub open spec fn close_outs(snapshot: Seq<IncidentView>, entries: Seq<TrackedMapping>) -> Seq<
    Action,
>
    decreases entries.len(),
{
    if entries.len() == 0 {
        Seq::empty()
    } else {
        let before = close_outs(snapshot, entries.drop_last());
        if needs_close_out(snapshot, entries.last()) {
            before.push(close_out_of(entries.last()))
        } else {
            before
        }
    }
}

/// One creation for each of the first `n` incidents of a snapshot, in order.
pub open spec fn creations(n: nat) -> Seq<Action> {
    Seq::new(n, |k: int| Action::Create { index: k as usize })
}

/// The actions of a cycle. With nothing tracked, every incident of the
/// snapshot gets a card. Otherwise no card is created, and the tracked
/// incidents that the snapshot shows as no longer open are closed out.
pub open spec fn planned(snapshot: Seq<IncidentView>, entries: Seq<TrackedMapping>) -> Seq<
    Action,
> {
    if entries.len() == 0 {
        creations(snapshot.len())
    } else {
        close_outs(snapshot, entries)
    }
}

/// `incident_position` is the least position that holds the identifier.
pub proof fn lemma_incident_position(snapshot: Seq<IncidentView>, id: u32)
    ensures
        0 <= incident_position(snapshot, id) <= snapshot.len(),
        incident_position(snapshot, id) < snapshot.len() ==> snapshot[incident_position(
            snapshot,
            id,
        )].id == id,
        forall|j: int| 0 <= j < incident_position(snapshot, id) ==> (#[trigger] snapshot[j]).id != id,
    decreases snapshot.len(),
{
    if snapshot.len() == 0 || snapshot[0].id == id {
    } else {
        let t = snapshot.drop_first();
        lemma_incident_position(t, id);
        let k = incident_position(t, id);
        assert forall|j: int| 0 <= j < k + 1 implies (#[trigger] snapshot[j]).id != id by {
            if j > 0 {
                assert(snapshot[j] == t[j - 1]);
            }
        }
        if k < t.len() {
            assert(snapshot[k + 1] == t[k]);
        }
    }
}

/// A position before which the identifier does not occur, and which holds it
/// or is the end, is `incident_position`.
pub proof fn lemma_incident_position_is(snapshot: Seq<IncidentView>, id: u32, k: int)
    requires
        0 <= k <= snapshot.len(),
        forall|j: int| 0 <= j < k ==> (#[trigger] snapshot[j]).id != id,
        k < snapshot.len() ==> snapshot[k].id == id,
    ensures
        incident_position(snapshot, id) == k,
{
    lemma_incident_position(snapshot, id);
    let m = incident_position(snapshot, id);
    if m < k {
        assert(snapshot[m].id != id);
    } else if m > k {
        assert(snapshot[k].id != id);
    }
}

/// Every planned close-out is that of a tracked mapping that needs one, and
/// every tracked mapping that needs one is closed out.
pub proof fn close_outs_are_exact(snapshot: Seq<IncidentView>, entries: Seq<TrackedMapping>)
    ensures
        forall|j: int|
            0 <= j < close_outs(snapshot, entries).len() ==> exists|k: int|
                0 <= k < entries.len() && needs_close_out(snapshot, entries[k]) && (
                #[trigger] close_outs(snapshot, entries)[j]) == close_out_of(entries[k]),
        forall|k: int|
            0 <= k < entries.len() && needs_close_out(snapshot, #[trigger] entries[k])
                ==> close_outs(snapshot, entries).contains(close_out_of(entries[k])),
    decreases entries.len(),
{
    if entries.len() > 0 {
        let before = entries.drop_last();
        let last = entries.last();
        close_outs_are_exact(snapshot, before);
        let old = close_outs(snapshot, before);
        let all = close_outs(snapshot, entries);
        assert forall|j: int| 0 <= j < all.len() implies exists|k: int|
            0 <= k < entries.len() && needs_close_out(snapshot, entries[k]) && (#[trigger] all[j])
                == close_out_of(entries[k]) by {
            if j < old.len() {
                assert(all[j] == old[j]);
                let k = choose|k: int|
                    0 <= k < before.len() && needs_close_out(snapshot, before[k]) && old[j]
                        == close_out_of(before[k]);
                assert(before[k] == entries[k]);
            } else {
                assert(all[j] == close_out_of(entries[entries.len() - 1]));
            }
        }
        assert forall|k: int|
            0 <= k < entries.len() && needs_close_out(
                snapshot,
                #[trigger] entries[k],
            ) implies all.contains(close_out_of(entries[k])) by {
            if k < before.len() {
                assert(before[k] == entries[k]);
                let j = choose|j: int|
                    0 <= j < old.len() && old[j] == close_out_of(before[k]);
                assert(all[j] == old[j]);
            } else {
                assert(all[all.len() - 1] == close_out_of(last));
            }
        }
    }
}

/// The position of the first incident of `snapshot` with the identifier `id`,
/// or the length of `snapshot`.
pub fn find_incident(snapshot: &Vec<Incident>, id: u32) -> (k: usize)
    ensures
        k == incident_position(incident_views(snapshot@), id),
        k <= snapshot@.len(),
{
    let ghost all = incident_views(snapshot@);
    let mut k: usize = 0;
    while k < snapshot.len()
        invariant
            k <= snapshot.len(),
            all == incident_views(snapshot@),
            forall|j: int| 0 <= j < k ==> (#[trigger] all[j]).id != id,
        decreases snapshot.len() - k,
    {
        if snapshot[k].id == id {
            proof {
                lemma_incident_position_is(all, id, k as int);
            }
            return k;
        }
        k = k + 1;
    }
    proof {
        lemma_incident_position_is(all, id, k as int);
    }
    k
}

/// Decides what a cycle does, from the tracker's snapshot and the tracked
/// mappings.
pub fn plan(snapshot: &Vec<Incident>, store: &MappingStore) -> (actions: Vec<Action>)
    ensures
        actions@ == planned(incident_views(snapshot@), store@),
{
    let ghost all = incident_views(snapshot@);
    let mut actions: Vec<Action> = Vec::new();
    if store.is_empty() {
        let mut k: usize = 0;
        while k < snapshot.len()
            invariant
                k <= snapshot.len(),
                actions@ == creations(k as nat),
            decreases snapshot.len() - k,
        {
            actions.push(Action::Create { index: k });
            assert(actions@ =~= creations((k + 1) as nat));
            k = k + 1;
        }
        assert(actions@ =~= creations(k as nat));
    } else {
        let mut k: usize = 0;
        while k < store.len()
            invariant
                k <= store@.len(),
                all == incident_views(snapshot@),
                actions@ == close_outs(all, store@.take(k as int)),
            decreases store@.len() - k,
        {
            let m = store.entry(k);
            let at: usize = find_incident(snapshot, m.incident_id);
            assert(store@.take(k + 1).drop_last() =~= store@.take(k as int));
            assert(store@.take(k + 1).last() == m);
            if at < snapshot.len() && !is_open(&snapshot[at].status) {
                actions.push(Action::CloseOut { incident_id: m.incident_id, card_id: m.card_id });
            }
            k = k + 1;
        }
        assert(store@.take(k as int) =~= store@);
    }
    actions
}

} // verus!
