//! Whole cycles: what is asked while a sequence of replies is fed in, and
//! what holds of it.

use crate::engine::{finished, resolved_label, started, stepped, CycleView, StepView};
use crate::laws::{absent_incident_is_not_planned, writes_store};
use crate::model::{IncidentView, Stack};
use crate::plan::{creations, incident_position, planned, Action};
use crate::protocol::{ReplyView, RequestView};
use crate::store::{lemma_index_is, removed, upserted, TrackedMapping};
use vstd::prelude::*;

verus! {

/// The request `q` as a sequence of one, or of none if there is no request.
pub open spec fn asked(q: Option<RequestView>) -> Seq<RequestView> {
    match q {
        Some(x) => seq![x],
        None => Seq::empty(),
    }
}

/// The cycle after the replies were fed to it one after another.
pub open spec fn run(c: CycleView, replies: Seq<ReplyView>) -> CycleView
    decreases replies.len(),
{
    if replies.len() == 0 {
        c
    } else {
        run(stepped(c, replies[0]).0, replies.drop_first())
    }
}

/// The requests that the cycle hands out while the replies are fed to it.
pub open spec fn issued(c: CycleView, replies: Seq<ReplyView>) -> Seq<RequestView>
    decreases replies.len(),
{
    if replies.len() == 0 {
        Seq::empty()
    } else {
        asked(stepped(c, replies[0]).1) + issued(stepped(c, replies[0]).0, replies.drop_first())
    }
}

/// Everything that a new cycle asks, from its first request on, while the
/// replies are fed to it.
pub open spec fn trace(
    snapshot: Seq<IncidentView>,
    entries: Seq<TrackedMapping>,
    replies: Seq<ReplyView>,
) -> Seq<RequestView> {
    asked(started(snapshot, entries).1) + issued(started(snapshot, entries).0, replies)
}

/// Whether the work for the action `a` may ask `q`.
pub open spec fn serves(snapshot: Seq<IncidentView>, a: Action, q: RequestView) -> bool {
    match a {
        Action::Create { index } => match q {
            RequestView::ReadClock => true,
            RequestView::ResolveLabel { label } => true,
            RequestView::CreateCard { stack, card } => stack == Stack::Active,
            RequestView::PersistMapping { incident_id, card_id } => index < snapshot.len()
                && incident_id == snapshot[index as int].id,
            RequestView::PostComment { card_id, message } => true,
            RequestView::AssignUser { card_id, user } => true,
            _ => false,
        },
        Action::CloseOut { incident_id, card_id } => match q {
            RequestView::FetchCard { card_id: asked_card } => asked_card == card_id,
            RequestView::ResolveLabel { label } => true,
            RequestView::FetchNotes { incident_id: asked_incident } => asked_incident
                == incident_id,
            RequestView::CreateCard { stack, card } => stack == Stack::Archive,
            RequestView::RemoveMapping { incident_id: asked_incident } => asked_incident
                == incident_id,
            RequestView::DeleteCard { card_id: asked_card } => asked_card == card_id,
            _ => false,
        },
    }
}

/// Whether `q` reads or changes anything that belongs to the incident `id`:
/// its notes or its mapping.
pub open spec fn concerns_incident(q: RequestView, id: u32) -> bool {
    match q {
        RequestView::PersistMapping { incident_id, card_id } => incident_id == id,
        RequestView::RemoveMapping { incident_id } => incident_id == id,
        RequestView::FetchNotes { incident_id } => incident_id == id,
        _ => false,
    }
}

/// One reply leaves snapshot and actions as they are, never moves the cycle
/// back, and what is asked next serves the current action or the one after.
pub proof fn lemma_step_serves(c: CycleView, reply: ReplyView)
    ensures
        stepped(c, reply).0.snapshot == c.snapshot,
        stepped(c, reply).0.actions == c.actions,
        stepped(c, reply).0.position >= c.position,
        stepped(c, reply).1 is Some ==> exists|p: int|
            c.position <= p < c.actions.len() && serves(
                c.snapshot,
                #[trigger] c.actions[p],
                stepped(c, reply).1->0,
            ),
{
    let (c2, q) = stepped(c, reply);
    if q is Some {
        if c2.position == c.position {
            assert(serves(c.snapshot, c.actions[c.position as int], q->0));
        } else {
            assert(serves(c.snapshot, c.actions[c.position as int + 1], q->0));
        }
    }
}

/// Whatever the replies, every request of a cycle serves one of the actions
/// that the cycle had still to do.
pub proof fn requests_serve_actions(c: CycleView, replies: Seq<ReplyView>, j: int)
    requires
        0 <= j < issued(c, replies).len(),
    ensures
        exists|p: int|
            c.position <= p < c.actions.len() && serves(
                c.snapshot,
                #[trigger] c.actions[p],
                issued(c, replies)[j],
            ),
    decreases replies.len(),
{
    let (c2, q) = stepped(c, replies[0]);
    let head = asked(q);
    let rest = replies.drop_first();
    lemma_step_serves(c, replies[0]);
    if j < head.len() {
        assert(issued(c, replies)[j] == q->0);
    } else {
        requests_serve_actions(c2, rest, j - head.len());
        let p = choose|p: int|
            c2.position <= p < c2.actions.len() && serves(
                c2.snapshot,
                #[trigger] c2.actions[p],
                issued(c2, rest)[j - head.len()],
            );
        assert(issued(c, replies)[j] == issued(c2, rest)[j - head.len()]);
        assert(serves(c.snapshot, c.actions[p], issued(c, replies)[j]));
    }
}

/// A tracked mapping whose incident the snapshot does not hold is left alone
/// for the whole cycle, whatever the replies: nothing is asked about the
/// incident's notes, and its mapping is neither written nor dropped.
pub proof fn absent_incident_is_left_alone(
    snapshot: Seq<IncidentView>,
    entries: Seq<TrackedMapping>,
    k: int,
    replies: Seq<ReplyView>,
    j: int,
)
    requires
        0 <= k < entries.len(),
        incident_position(snapshot, entries[k].incident_id) >= snapshot.len(),
        0 <= j < trace(snapshot, entries, replies).len(),
    ensures
        !concerns_incident(trace(snapshot, entries, replies)[j], entries[k].incident_id),
{
    let (c, first) = started(snapshot, entries);
    let head = asked(first);
    let q = trace(snapshot, entries, replies)[j];
    absent_incident_is_not_planned(snapshot, entries, k);
    if j < head.len() {
        assert(q == first->0);
    } else {
        assert(q == issued(c, replies)[j - head.len()]);
        requests_serve_actions(c, replies, j - head.len());
        let p = choose|p: int|
            c.position <= p < c.actions.len() && serves(
                c.snapshot,
                #[trigger] c.actions[p],
                issued(c, replies)[j - head.len()],
            );
        assert(c.actions[p] == planned(snapshot, entries)[p]);
    }
}

/// How many of the requests create a card in the active stack.
pub open spec fn cards_created(s: Seq<RequestView>) -> nat
    decreases s.len(),
{
    if s.len() == 0 {
        0
    } else {
        let here: nat = match s[0] {
            RequestView::CreateCard { stack: Stack::Active, card } => 1,
            _ => 0,
        };
        here + cards_created(s.drop_first())
    }
}

/// The incidents whose mapping the requests record, in the order of the
/// requests.
pub open spec fn incidents_persisted(s: Seq<RequestView>) -> Seq<u32>
    decreases s.len(),
{
    if s.len() == 0 {
        Seq::empty()
    } else {
        let here = match s[0] {
            RequestView::PersistMapping { incident_id, card_id } => seq![incident_id],
            _ => Seq::empty(),
        };
        here + incidents_persisted(s.drop_first())
    }
}

/// Whether `reply` lets the creation of a card go on from `step`. The replies
/// to the comment and to the assignment do not matter.
pub open spec fn creation_goes_on(step: StepView, reply: ReplyView) -> bool {
    match step {
        StepView::ReadingClock => reply is Time,
        StepView::ResolvingActionLabel { now } => resolved_label(reply) is Some,
        StepView::ResolvingFinishedLabel { now, action_label } => resolved_label(reply) is Some,
        StepView::CreatingCard => reply is CardCreated,
        StepView::PersistingMapping { card_id } => reply is Done,
        _ => true,
    }
}

/// Whether each of the replies lets the creation that it answers go on.
pub open spec fn creations_go_on(c: CycleView, replies: Seq<ReplyView>) -> bool
    decreases replies.len(),
{
    replies.len() == 0 || (creation_goes_on(c.step, replies[0]) && creations_go_on(
        stepped(c, replies[0]).0,
        replies.drop_first(),
    ))
}

/// The identifiers of the incidents of `snapshot` from position `from` on.
pub open spec fn ids_from(snapshot: Seq<IncidentView>, from: int) -> Seq<u32> {
    Seq::new((snapshot.len() - from) as nat, |k: int| snapshot[from + k].id)
}

/// Whether the current creation has not asked for its card yet.
pub open spec fn card_is_ahead(step: StepView) -> bool {
    step is ReadingClock || step is ResolvingActionLabel || step is ResolvingFinishedLabel
}

/// How many cards a cycle that creates a card for every incident has still
/// to ask for.
pub open spec fn cards_ahead(c: CycleView) -> int {
    if finished(c) {
        0
    } else if card_is_ahead(c.step) {
        c.actions.len() - c.position
    } else {
        c.actions.len() - c.position - 1
    }
}

/// The position of the first incident whose mapping a cycle that creates a
/// card for every incident has still to record.
pub open spec fn first_unmapped(c: CycleView) -> int {
    if finished(c) {
        c.actions.len() as int
    } else if card_is_ahead(c.step) || c.step is CreatingCard {
        c.position as int
    } else {
        c.position as int + 1
    }
}

/// Whether `c` is a state of a cycle that creates a card for every incident
/// in which every creation so far went through.
pub open spec fn creating_all(c: CycleView) -> bool {
    &&& c.snapshot.len() <= usize::MAX
    &&& c.actions == creations(c.snapshot.len())
    &&& !c.halted
    &&& c.position <= c.actions.len()
    &&& c.outcomes.len() == c.position
    &&& forall|k: int| 0 <= k < c.outcomes.len() ==> #[trigger] c.outcomes[k] is Created
    &&& !finished(c) ==> match c.step {
        StepView::ReadingClock => true,
        StepView::ResolvingActionLabel { now } => true,
        StepView::ResolvingFinishedLabel { now, action_label } => action_label is Some,
        StepView::CreatingCard => true,
        StepView::PersistingMapping { card_id } => true,
        StepView::Commenting { card_id } => true,
        StepView::Assigning { card_id, commented } => true,
        _ => false,
    }
}

/// Counting the created cards of two runs of requests, one after the other.
pub proof fn lemma_cards_created_add(a: Seq<RequestView>, b: Seq<RequestView>)
    ensures
        cards_created(a + b) == cards_created(a) + cards_created(b),
    decreases a.len(),
{
    if a.len() == 0 {
        assert(a + b =~= b);
    } else {
        assert((a + b).drop_first() =~= a.drop_first() + b);
        lemma_cards_created_add(a.drop_first(), b);
    }
}

/// The persisted incidents of two runs of requests, one after the other.
pub proof fn lemma_incidents_persisted_add(a: Seq<RequestView>, b: Seq<RequestView>)
    ensures
        incidents_persisted(a + b) == incidents_persisted(a) + incidents_persisted(b),
    decreases a.len(),
{
    if a.len() == 0 {
        assert(a + b =~= b);
        assert(incidents_persisted(a) + incidents_persisted(b) =~= incidents_persisted(b));
    } else {
        assert((a + b).drop_first() =~= a.drop_first() + b);
        lemma_incidents_persisted_add(a.drop_first(), b);
        let here = match a[0] {
            RequestView::PersistMapping { incident_id, card_id } => seq![incident_id],
            _ => Seq::<u32>::empty(),
        };
        assert(here + (incidents_persisted(a.drop_first()) + incidents_persisted(b)) =~= (here
            + incidents_persisted(a.drop_first())) + incidents_persisted(b));
    }
}

/// One reply that lets a creation go on takes the cycle one request nearer
/// to its end.
pub proof fn lemma_creation_step(c: CycleView, reply: ReplyView)
    requires
        creating_all(c),
        !finished(c),
        creation_goes_on(c.step, reply),
    ensures
        creating_all(stepped(c, reply).0),
        cards_ahead(c) == cards_created(asked(stepped(c, reply).1)) + cards_ahead(
            stepped(c, reply).0,
        ),
        ids_from(c.snapshot, first_unmapped(c)) == incidents_persisted(
            asked(stepped(c, reply).1),
        ) + ids_from(c.snapshot, first_unmapped(stepped(c, reply).0)),
{
    let (c2, q) = stepped(c, reply);
    let head = asked(q);
    let index = c.position as usize;
    assert(c.actions[c.position as int] == (Action::Create { index }));
    assert(index < c.snapshot.len());
    if q is Some {
        assert(head.drop_first() =~= Seq::<RequestView>::empty());
        assert(cards_created(head.drop_first()) == 0);
        assert(incidents_persisted(head.drop_first()) =~= Seq::<u32>::empty());
    }
    if c2.position > c.position {
        assert forall|k: int| 0 <= k < c2.outcomes.len() implies #[trigger] c2.outcomes[k]
            is Created by {
            if k < c.outcomes.len() {
                assert(c2.outcomes[k] == c.outcomes[k]);
            }
        }
    }
    assert(ids_from(c.snapshot, first_unmapped(c)) =~= incidents_persisted(head) + ids_from(
        c.snapshot,
        first_unmapped(c2),
    ));
}

/// The general form of `bootstrap_creates_one_card_per_incident`, from any
/// state of such a cycle.
pub proof fn lemma_creating_all(c: CycleView, replies: Seq<ReplyView>)
    requires
        creating_all(c),
        creations_go_on(c, replies),
        finished(run(c, replies)),
    ensures
        cards_created(issued(c, replies)) == cards_ahead(c),
        incidents_persisted(issued(c, replies)) == ids_from(c.snapshot, first_unmapped(c)),
        creating_all(run(c, replies)),
        run(c, replies).snapshot == c.snapshot,
    decreases replies.len(),
{
    if replies.len() == 0 {
        assert(ids_from(c.snapshot, first_unmapped(c)) =~= Seq::<u32>::empty());
    } else {
        let (c2, q) = stepped(c, replies[0]);
        let rest = replies.drop_first();
        if finished(c) {
            lemma_creating_all(c, rest);
            assert(asked(q) + issued(c2, rest) =~= issued(c2, rest));
        } else {
            lemma_creation_step(c, replies[0]);
            lemma_creating_all(c2, rest);
            lemma_cards_created_add(asked(q), issued(c2, rest));
            lemma_incidents_persisted_add(asked(q), issued(c2, rest));
        }
    }
}

/// Bootstrap: with nothing tracked, a cycle whose creations all go through
/// and that is run to its end asks for exactly one card per incident of the
/// snapshot and records exactly one mapping per incident, in the snapshot's
/// order. Every action ends with a card created, and the cycle is not
/// stopped. Whether comments and assignments succeed does not matter.
pub proof fn bootstrap_creates_one_card_per_incident(
    snapshot: Seq<IncidentView>,
    replies: Seq<ReplyView>,
)
    requires
        snapshot.len() <= usize::MAX,
        creations_go_on(started(snapshot, Seq::empty()).0, replies),
        finished(run(started(snapshot, Seq::empty()).0, replies)),
    ensures
        cards_created(trace(snapshot, Seq::empty(), replies)) == snapshot.len(),
        incidents_persisted(trace(snapshot, Seq::empty(), replies)) == Seq::new(
            snapshot.len(),
            |k: int| snapshot[k].id,
        ),
        run(started(snapshot, Seq::empty()).0, replies).outcomes.len() == snapshot.len(),
        forall|k: int|
            0 <= k < snapshot.len() ==> #[trigger] run(
                started(snapshot, Seq::empty()).0,
                replies,
            ).outcomes[k] is Created,
        !run(started(snapshot, Seq::empty()).0, replies).halted,
{
    let (c, first) = started(snapshot, Seq::empty());
    let head = asked(first);
    lemma_creating_all(c, replies);
    lemma_cards_created_add(head, issued(c, replies));
    lemma_incidents_persisted_add(head, issued(c, replies));
    if first is Some {
        assert(head.drop_first() =~= Seq::<RequestView>::empty());
        assert(cards_created(head.drop_first()) == 0);
        assert(incidents_persisted(head.drop_first()) =~= Seq::<u32>::empty());
    }
    assert(incidents_persisted(head) =~= Seq::<u32>::empty());
    assert(ids_from(snapshot, 0) =~= Seq::new(snapshot.len(), |k: int| snapshot[k].id));
    assert(incidents_persisted(head) + ids_from(snapshot, 0) =~= ids_from(snapshot, 0));
}

/// How many of the requests create a card, in either stack.
pub open spec fn cards_asked(s: Seq<RequestView>) -> nat
    decreases s.len(),
{
    if s.len() == 0 {
        0
    } else {
        let here: nat = if s[0] is CreateCard {
            1
        } else {
            0
        };
        here + cards_asked(s.drop_first())
    }
}

/// How many of the requests change the mapping store.
pub open spec fn store_writes(s: Seq<RequestView>) -> nat
    decreases s.len(),
{
    if s.len() == 0 {
        0
    } else {
        let here: nat = if writes_store(s[0]) {
            1
        } else {
            0
        };
        here + store_writes(s.drop_first())
    }
}

/// Whether the work for the current action has not asked for its card yet.
pub open spec fn card_pending(step: StepView) -> bool {
    card_is_ahead(step) || step is FetchingCard || step is ResolvingArchiveLabel
        || step is FetchingNotes
}

/// Whether the work for the current action has not asked for its change of
/// the mapping store yet.
pub open spec fn write_pending(step: StepView) -> bool {
    card_pending(step) || step is CreatingCard || step is Archiving
}

/// How many cards the cycle may still ask for: one for each action that is
/// not concluded and has not asked for its card.
pub open spec fn cards_left(c: CycleView) -> int {
    if finished(c) {
        0
    } else if card_pending(c.step) {
        c.actions.len() - c.position
    } else {
        c.actions.len() - c.position - 1
    }
}

/// How many changes of the mapping store the cycle may still ask for.
pub open spec fn writes_left(c: CycleView) -> int {
    if finished(c) {
        0
    } else if write_pending(c.step) {
        c.actions.len() - c.position
    } else {
        c.actions.len() - c.position - 1
    }
}

/// Counting the card requests of two runs of requests, one after the other.
pub proof fn lemma_cards_asked_add(a: Seq<RequestView>, b: Seq<RequestView>)
    ensures
        cards_asked(a + b) == cards_asked(a) + cards_asked(b),
    decreases a.len(),
{
    if a.len() == 0 {
        assert(a + b =~= b);
    } else {
        assert((a + b).drop_first() =~= a.drop_first() + b);
        lemma_cards_asked_add(a.drop_first(), b);
    }
}

/// Counting the store changes of two runs of requests, one after the other.
pub proof fn lemma_store_writes_add(a: Seq<RequestView>, b: Seq<RequestView>)
    ensures
        store_writes(a + b) == store_writes(a) + store_writes(b),
    decreases a.len(),
{
    if a.len() == 0 {
        assert(a + b =~= b);
    } else {
        assert((a + b).drop_first() =~= a.drop_first() + b);
        lemma_store_writes_add(a.drop_first(), b);
    }
}

/// Whatever the replies, and from any state: a cycle asks for at most one
/// card and for at most one change of the mapping store for each action that
/// it has still to conclude.
pub proof fn each_action_asks_at_most_once(c: CycleView, replies: Seq<ReplyView>)
    ensures
        cards_asked(issued(c, replies)) <= cards_left(c),
        store_writes(issued(c, replies)) <= writes_left(c),
        cards_left(c) >= 0,
        writes_left(c) >= 0,
    decreases replies.len(),
{
    if replies.len() > 0 {
        let (c2, q) = stepped(c, replies[0]);
        let rest = replies.drop_first();
        let head = asked(q);
        each_action_asks_at_most_once(c2, rest);
        lemma_cards_asked_add(head, issued(c2, rest));
        lemma_store_writes_add(head, issued(c2, rest));
        if q is Some {
            assert(head.drop_first() =~= Seq::<RequestView>::empty());
            assert(cards_asked(head.drop_first()) == 0);
            assert(store_writes(head.drop_first()) == 0);
        }
        assert(cards_asked(head) + cards_left(c2) <= cards_left(c));
        assert(store_writes(head) + writes_left(c2) <= writes_left(c));
    }
}

/// Whatever the replies, a new cycle asks for no more cards, and for no more
/// changes of the mapping store, than it has planned actions.
pub proof fn cycle_asks_at_most_once_per_action(
    snapshot: Seq<IncidentView>,
    entries: Seq<TrackedMapping>,
    replies: Seq<ReplyView>,
)
    ensures
        cards_asked(trace(snapshot, entries, replies)) <= planned(snapshot, entries).len(),
        store_writes(trace(snapshot, entries, replies)) <= planned(snapshot, entries).len(),
{
    let (c, first) = started(snapshot, entries);
    let head = asked(first);
    each_action_asks_at_most_once(c, replies);
    lemma_cards_asked_add(head, issued(c, replies));
    lemma_store_writes_add(head, issued(c, replies));
    if first is Some {
        assert(head.drop_first() =~= Seq::<RequestView>::empty());
        assert(cards_asked(head.drop_first()) == 0);
        assert(store_writes(head.drop_first()) == 0);
    }
}

/// The tracked mappings after the caller has carried out `q`.
pub open spec fn store_effect(entries: Seq<TrackedMapping>, q: RequestView) -> Seq<TrackedMapping> {
    match q {
        RequestView::PersistMapping { incident_id, card_id } => upserted(
            entries,
            TrackedMapping { incident_id, card_id },
        ),
        RequestView::RemoveMapping { incident_id } => removed(entries, incident_id),
        _ => entries,
    }
}

/// The tracked mappings after the caller has carried out every request of
/// `s` in turn.
pub open spec fn store_after(entries: Seq<TrackedMapping>, s: Seq<RequestView>) -> Seq<
    TrackedMapping,
>
    decreases s.len(),
{
    if s.len() == 0 {
        entries
    } else {
        store_after(store_effect(entries, s[0]), s.drop_first())
    }
}

/// The incidents of the entries, in their order.
pub open spec fn incident_ids(entries: Seq<TrackedMapping>) -> Seq<u32> {
    Seq::new(entries.len(), |k: int| entries[k].incident_id)
}

/// Whether no identifier occurs twice in `ids`.
pub open spec fn all_different(ids: Seq<u32>) -> bool {
    forall|a: int, b: int| 0 <= a < b < ids.len() ==> ids[a] != ids[b]
}

/// Requests that drop nothing and record incidents that are all new and all
/// different add one entry for each recorded incident, in their order.
pub proof fn lemma_store_after_records(entries: Seq<TrackedMapping>, s: Seq<RequestView>)
    requires
        forall|j: int| 0 <= j < s.len() ==> !(#[trigger] s[j] is RemoveMapping),
        all_different(incident_ids(entries) + incidents_persisted(s)),
    ensures
        incident_ids(store_after(entries, s)) == incident_ids(entries) + incidents_persisted(s),
    decreases s.len(),
{
    let all = incident_ids(entries) + incidents_persisted(s);
    if s.len() == 0 {
        assert(all =~= incident_ids(entries));
    } else {
        let rest = s.drop_first();
        let next = store_effect(entries, s[0]);
        assert forall|j: int| 0 <= j < rest.len() implies !(#[trigger] rest[j] is RemoveMapping) by {
            assert(rest[j] == s[j + 1]);
        }
        assert(!(s[0] is RemoveMapping));
        match s[0] {
            RequestView::PersistMapping { incident_id, card_id } => {
                let n = entries.len() as int;
                assert(all[n] == incident_id);
                assert forall|j: int| 0 <= j < n implies (#[trigger] entries[j]).incident_id
                    != incident_id by {
                    assert(all[j] == entries[j].incident_id);
                }
                lemma_index_is(entries, incident_id, n);
                assert(incident_ids(next) =~= incident_ids(entries).push(incident_id));
            },
            _ => {},
        }
        assert(incident_ids(next) + incidents_persisted(rest) =~= all);
        lemma_store_after_records(next, rest);
    }
}

/// Bootstrap, in terms of the store: when the incidents of the snapshot all
/// differ, a cycle that starts with nothing tracked, whose creations all go
/// through and that is run to its end leaves exactly one mapping for each
/// incident of the snapshot, in the snapshot's order.
pub proof fn bootstrap_records_one_mapping_per_incident(
    snapshot: Seq<IncidentView>,
    replies: Seq<ReplyView>,
)
    requires
        snapshot.len() <= usize::MAX,
        forall|a: int, b: int|
            0 <= a < b < snapshot.len() ==> (#[trigger] snapshot[a]).id != (
            #[trigger] snapshot[b]).id,
        creations_go_on(started(snapshot, Seq::empty()).0, replies),
        finished(run(started(snapshot, Seq::empty()).0, replies)),
    ensures
        store_after(Seq::empty(), trace(snapshot, Seq::empty(), replies)).len() == snapshot.len(),
        forall|k: int|
            0 <= k < snapshot.len() ==> (#[trigger] store_after(
                Seq::empty(),
                trace(snapshot, Seq::empty(), replies),
            )[k]).incident_id == snapshot[k].id,
{
    let none = Seq::<TrackedMapping>::empty();
    let (c, first) = started(snapshot, none);
    let t = trace(snapshot, none, replies);
    let head = asked(first);
    bootstrap_creates_one_card_per_incident(snapshot, replies);
    assert forall|j: int| 0 <= j < t.len() implies !(#[trigger] t[j] is RemoveMapping) by {
        if j < head.len() {
            assert(t[j] == first->0);
        } else {
            assert(t[j] == issued(c, replies)[j - head.len()]);
            requests_serve_actions(c, replies, j - head.len());
            let p = choose|p: int|
                c.position <= p < c.actions.len() && serves(
                    c.snapshot,
                    #[trigger] c.actions[p],
                    issued(c, replies)[j - head.len()],
                );
            assert(c.actions[p] == creations(snapshot.len())[p]);
        }
    }
    let ids = Seq::new(snapshot.len(), |k: int| snapshot[k].id);
    assert(incident_ids(none) + incidents_persisted(t) =~= ids);
    lemma_store_after_records(none, t);
    let after = store_after(none, t);
    assert(incident_ids(after) =~= ids);
    assert forall|k: int| 0 <= k < snapshot.len() implies (#[trigger] after[k]).incident_id
        == snapshot[k].id by {
        assert(incident_ids(after)[k] == after[k].incident_id);
        assert(ids[k] == snapshot[k].id);
    }
    assert(incident_ids(after).len() == after.len());
}

} // verus!
