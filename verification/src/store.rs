//! The mapping from incidents to the cards that stand for them.

use vstd::prelude::*;

verus! {

/// One association between an incident and the card created for it.
#[derive(Clone, Copy, Debug, PartialEq, Eq, Structural)]
pub struct TrackedMapping {
    pub incident_id: u32,
    pub card_id: u32,
}

/// The position of the first entry of `s` for `incident_id`, or the length of
/// `s` if there is none.
pub open spec fn index_of_incident(s: Seq<TrackedMapping>, incident_id: u32) -> int
    decreases s.len(),
{
    if s.len() == 0 || s[0].incident_id == incident_id {
        0
    } else {
        1 + index_of_incident(s.drop_first(), incident_id)
    }
}

/// Whether no incident has two entries in `s`.
pub open spec fn distinct_incidents(s: Seq<TrackedMapping>) -> bool {
    forall|i: int, j: int|
        0 <= i < j < s.len() ==> (#[trigger] s[i]).incident_id != (#[trigger] s[j]).incident_id
}

/// Whether `s` holds an entry for `incident_id`.
pub open spec fn tracks(s: Seq<TrackedMapping>, incident_id: u32) -> bool {
    index_of_incident(s, incident_id) < s.len()
}

/// The entries of `s` as a map from incident to card.
pub open spec fn mapping_of(s: Seq<TrackedMapping>) -> Map<u32, u32> {
    Map::new(
        |id: u32| tracks(s, id),
        |id: u32| s[index_of_incident(s, id)].card_id,
    )
}

/// `s` after recording `r`: the entry of the same incident is replaced where
/// it stands, and a new incident is added at the end.
pub open spec fn upserted(s: Seq<TrackedMapping>, r: TrackedMapping) -> Seq<TrackedMapping> {
    let k = index_of_incident(s, r.incident_id);
    if k < s.len() {
        s.update(k, r)
    } else {
        s.push(r)
    }
}

/// `s` without the entry of `incident_id`.
pub open spec fn removed(s: Seq<TrackedMapping>, incident_id: u32) -> Seq<TrackedMapping> {
    let k = index_of_incident(s, incident_id);
    if k < s.len() {
        s.remove(k)
    } else {
        s
    }
}

/// `index_of_incident` is the least position that holds the incident.
pub proof fn lemma_index_of_incident(s: Seq<TrackedMapping>, incident_id: u32)
    ensures
        0 <= index_of_incident(s, incident_id) <= s.len(),
        tracks(s, incident_id) ==> s[index_of_incident(s, incident_id)].incident_id == incident_id,
        forall|j: int|
            0 <= j < index_of_incident(s, incident_id) ==> (#[trigger] s[j]).incident_id
                != incident_id,
    decreases s.len(),
{
    if s.len() == 0 || s[0].incident_id == incident_id {
    } else {
        let t = s.drop_first();
        lemma_index_of_incident(t, incident_id);
        let k = index_of_incident(t, incident_id);
        assert forall|j: int| 0 <= j < k + 1 implies (#[trigger] s[j]).incident_id
            != incident_id by {
            if j > 0 {
                assert(s[j] == t[j - 1]);
            }
        }
        if k < t.len() {
            assert(s[k + 1] == t[k]);
        }
    }
}

/// A position before which the incident does not occur, and which holds it or
/// is the end, is `index_of_incident`.
pub proof fn lemma_index_is(s: Seq<TrackedMapping>, incident_id: u32, k: int)
    requires
        0 <= k <= s.len(),
        forall|j: int| 0 <= j < k ==> (#[trigger] s[j]).incident_id != incident_id,
        k < s.len() ==> s[k].incident_id == incident_id,
    ensures
        index_of_incident(s, incident_id) == k,
{
    lemma_index_of_incident(s, incident_id);
    let m = index_of_incident(s, incident_id);
    if m < k {
        assert(s[m].incident_id != incident_id);
    } else if m > k {
        assert(s[k].incident_id != incident_id);
    }
}

/// Recording an association keeps incidents distinct and changes the map at
/// that incident only.
pub proof fn lemma_upserted(s: Seq<TrackedMapping>, r: TrackedMapping)
    requires
        distinct_incidents(s),
    ensures
        distinct_incidents(upserted(s, r)),
        mapping_of(upserted(s, r)) == mapping_of(s).insert(r.incident_id, r.card_id),
{
    let t = upserted(s, r);
    let k = index_of_incident(s, r.incident_id);
    lemma_index_of_incident(s, r.incident_id);
    assert forall|i: int, j: int| 0 <= i < j < t.len() implies (#[trigger] t[i]).incident_id != (
    #[trigger] t[j]).incident_id by {
        if k < s.len() {
            assert(t[i].incident_id == s[i].incident_id);
            assert(t[j].incident_id == s[j].incident_id);
        } else {
            assert(t[i] == s[i]);
            if j < s.len() {
                assert(t[j] == s[j]);
            }
        }
    }
    assert forall|id: u32|
        tracks(t, id) == (id == r.incident_id || tracks(s, id)) && (tracks(t, id) ==> t[index_of_incident(
            t,
            id,
        )].card_id == if id == r.incident_id {
            r.card_id
        } else {
            s[index_of_incident(s, id)].card_id
        }) by {
        lemma_index_of_incident(s, id);
        let m = index_of_incident(s, id);
        if k < s.len() {
            assert forall|j: int| 0 <= j < m implies (#[trigger] t[j]).incident_id != id by {
                assert(t[j].incident_id == s[j].incident_id);
            }
            lemma_index_is(t, id, m);
        } else if id == r.incident_id {
            assert forall|j: int| 0 <= j < s.len() implies (#[trigger] t[j]).incident_id != id by {
                assert(t[j] == s[j]);
            }
            lemma_index_is(t, id, s.len() as int);
        } else {
            let m2 = if m < s.len() {
                m
            } else {
                m + 1
            };
            assert forall|j: int| 0 <= j < m2 implies (#[trigger] t[j]).incident_id != id by {
                if j < s.len() {
                    assert(t[j] == s[j]);
                }
            }
            lemma_index_is(t, id, m2);
        }
    }
    assert(mapping_of(t) =~= mapping_of(s).insert(r.incident_id, r.card_id));
}

/// Dropping an incident keeps incidents distinct and removes that incident
/// from the map.
pub proof fn lemma_removed(s: Seq<TrackedMapping>, incident_id: u32)
    requires
        distinct_incidents(s),
    ensures
        distinct_incidents(removed(s, incident_id)),
        mapping_of(removed(s, incident_id)) == mapping_of(s).remove(incident_id),
{
    let t = removed(s, incident_id);
    let k = index_of_incident(s, incident_id);
    lemma_index_of_incident(s, incident_id);
    if k < s.len() {
        assert forall|i: int, j: int| 0 <= i < j < t.len() implies (#[trigger] t[i]).incident_id
            != (#[trigger] t[j]).incident_id by {
            let si = if i < k {
                i
            } else {
                i + 1
            };
            let sj = if j < k {
                j
            } else {
                j + 1
            };
            assert(t[i] == s[si]);
            assert(t[j] == s[sj]);
        }
        assert forall|id: u32|
            tracks(t, id) == (id != incident_id && tracks(s, id)) && (tracks(t, id) ==> t[index_of_incident(
                t,
                id,
            )].card_id == s[index_of_incident(s, id)].card_id) by {
            lemma_index_of_incident(s, id);
            let m = index_of_incident(s, id);
            if id == incident_id {
                assert forall|j: int| 0 <= j < t.len() implies (#[trigger] t[j]).incident_id
                    != id by {
                    if j < k {
                        assert(t[j] == s[j]);
                    } else {
                        assert(t[j] == s[j + 1]);
                        assert(s[k].incident_id != s[j + 1].incident_id);
                    }
                }
                lemma_index_is(t, id, t.len() as int);
            } else {
                let m2 = if m < k {
                    m
                } else {
                    m - 1
                };
                assert(m != k);
                assert forall|j: int| 0 <= j < m2 implies (#[trigger] t[j]).incident_id != id by {
                    if j < k {
                        assert(t[j] == s[j]);
                    } else {
                        assert(t[j] == s[j + 1]);
                    }
                }
                if m < s.len() {
                    assert(t[m2] == s[m]);
                }
                lemma_index_is(t, id, m2);
            }
        }
        assert(mapping_of(t) =~= mapping_of(s).remove(incident_id));
    } else {
        assert(mapping_of(t) =~= mapping_of(s).remove(incident_id));
    }
}

/// The associations that are currently tracked, one per incident, in the
/// order in which the incidents were first recorded.
#[derive(Clone, Debug, PartialEq, Eq)]
pub struct MappingStore {
    entries: Vec<TrackedMapping>,
}

impl View for MappingStore {
    type V = Seq<TrackedMapping>;

    closed spec fn view(&self) -> Seq<TrackedMapping> {
        self.entries@
    }
}

impl MappingStore {
    /// Whether no incident is tracked twice. Every store that this module
    /// hands out is well formed, and its methods keep it so.
    pub open spec fn well_formed(&self) -> bool {
        distinct_incidents(self@)
    }

    /// A store that tracks nothing.
    pub fn new() -> (store: MappingStore)
        ensures
            store@ == Seq::<TrackedMapping>::empty(),
            store.well_formed(),
    {
        MappingStore { entries: Vec::new() }
    }

    /// The number of tracked incidents.
    pub fn len(&self) -> (n: usize)
        ensures
            n == self@.len(),
    {
        self.entries.len()
    }

    /// Whether nothing is tracked.
    pub fn is_empty(&self) -> (empty: bool)
        ensures
            empty == (self@.len() == 0),
    {
        self.entries.len() == 0
    }

    /// The entry at position `k`.
    pub fn entry(&self, k: usize) -> (r: TrackedMapping)
        requires
            k < self@.len(),
        ensures
            r == self@[k as int],
    {
        self.entries[k]
    }

    /// The position of the entry of `incident_id`, or `len()` if it is not
    /// tracked.
    pub fn position(&self, incident_id: u32) -> (k: usize)
        ensures
            k == index_of_incident(self@, incident_id),
            k <= self@.len(),
    {
        let mut k: usize = 0;
        while k < self.entries.len()
            invariant
                k <= self.entries.len(),
                forall|j: int| 0 <= j < k ==> (#[trigger] self.entries@[j]).incident_id != incident_id,
            decreases self.entries.len() - k,
        {
            if self.entries[k].incident_id == incident_id {
                proof {
                    lemma_index_is(self.entries@, incident_id, k as int);
                }
                return k;
            }
            k = k + 1;
        }
        proof {
            lemma_index_is(self.entries@, incident_id, k as int);
        }
        k
    }

    /// The card that stands for `incident_id`, if the incident is tracked.
    pub fn get(&self, incident_id: u32) -> (card: Option<u32>)
        ensures
            card == if mapping_of(self@).contains_key(incident_id) {
                Some(mapping_of(self@)[incident_id])
            } else {
                None
            },
    {
        let k: usize = self.position(incident_id);
        if k < self.entries.len() {
            Some(self.entries[k].card_id)
        } else {
            None
        }
    }

    /// Records that `card_id` stands for `incident_id`.
    pub fn upsert(&mut self, incident_id: u32, card_id: u32)
        requires
            old(self).well_formed(),
        ensures
            final(self)@ == upserted(
                old(self)@,
                (TrackedMapping { incident_id, card_id }),
            ),
            mapping_of(final(self)@) == mapping_of(old(self)@).insert(incident_id, card_id),
            final(self).well_formed(),
    {
        proof {
            lemma_upserted(self.entries@, TrackedMapping { incident_id, card_id });
        }
        let r = TrackedMapping { incident_id, card_id };
        let k: usize = self.position(incident_id);
        if k < self.entries.len() {
            self.entries.set(k, r);
        } else {
            self.entries.push(r);
        }
    }

    /// Stops tracking `incident_id`.
    pub fn remove(&mut self, incident_id: u32)
        requires
            old(self).well_formed(),
        ensures
            final(self)@ == removed(old(self)@, incident_id),
            mapping_of(final(self)@) == mapping_of(old(self)@).remove(incident_id),
            final(self).well_formed(),
    {
        proof {
            lemma_removed(self.entries@, incident_id);
        }
        let k: usize = self.position(incident_id);
        if k < self.entries.len() {
            self.entries.remove(k);
        }
    }
}

} // verus!
