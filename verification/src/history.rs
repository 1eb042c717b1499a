//! The events recorded against every track, keyed by identifier and held in
//! identifier order.

use crate::track::TrackId;
use crate::track_events::AnyTrackEvent;
use crate::track_events::TimeTaggedTrackEvent;
use crate::track_events::TimeTaggedTrackEvents;
use crate::time::Time;
use vstd::prelude::*;
use vstd::std_specs::iter::IteratorSpec;

verus! {

broadcast use crate::track::lemma_track_id_eq;

/// The events recorded against every track.
///
/// Tracks are held in identifier order, so writing one out twice gives the
/// same text both times.
#[derive(Debug, Clone, Default, PartialEq, Eq)]
pub struct History {
    tracks: Vec<(TrackId, TimeTaggedTrackEvents)>,
}

/// Whether a sequence of numbers is strictly increasing.
pub open spec fn strictly_increasing(s: Seq<u32>) -> bool {
    forall|i: int, j: int| 0 <= i < j < s.len() ==> s[i] < s[j]
}

impl History {
    /// The identifiers stored, in the order they are held.
    pub closed spec fn ids(self) -> Seq<u32> {
        self.tracks@.map_values(|entry: (TrackId, TimeTaggedTrackEvents)| entry.0@)
    }

    /// Tracks are held in strictly increasing identifier order.
    pub closed spec fn well_formed(self) -> bool {
        strictly_increasing(self.ids())
    }

    /// The position of the entry for `id`.
    closed spec fn position(self, id: u32) -> int {
        choose|i: int| 0 <= i < self.tracks@.len() && self.tracks@[i].0@ == id
    }

    /// The events stored against each identifier.
    pub closed spec fn events(self) -> Map<u32, Seq<TimeTaggedTrackEvent>> {
        Map::new(
            |id: u32| self.ids().contains(id),
            |id: u32| self.tracks@[self.position(id)].1@,
        )
    }

    proof fn lemma_position(self, i: int)
        requires
            self.well_formed(),
            0 <= i < self.tracks@.len(),
        ensures
            self.ids().contains(self.tracks@[i].0@),
            self.position(self.tracks@[i].0@) == i,
            self.events()[self.tracks@[i].0@] == self.tracks@[i].1@,
    {
        let id = self.tracks@[i].0@;
        assert(self.ids()[i] == id);
        let p = self.position(id);
        assert(self.ids()[p] == id);
    }

    proof fn lemma_distinct(self)
        requires
            self.well_formed(),
        ensures
            self.ids().no_duplicates(),
            self.events().dom() == self.ids().to_set(),
            self.events().len() == self.tracks@.len(),
    {
        let ids = self.ids();
        assert forall|a: int, b: int| 0 <= a < ids.len() && 0 <= b < ids.len() && a != b implies ids[a]
            != ids[b] by {
            if a < b {
            } else {
            }
        }
        ids.unique_seq_to_set();
        assert(self.events().dom() =~= ids.to_set());
    }

    proof fn lemma_absent(self, id: u32)
        requires
            forall|i: int| 0 <= i < self.tracks@.len() ==> self.tracks@[i].0@ != id,
        ensures
            !self.events().contains_key(id),
    {
        if self.ids().contains(id) {
            let i = choose|i: int| 0 <= i < self.ids().len() && self.ids()[i] == id;
            assert(self.tracks@[i].0@ == id);
        }
    }

    /// A well-formed history holds finitely many tracks.
    pub proof fn lemma_events_finite(self)
        requires
            self.well_formed(),
        ensures
            self.events().dom().finite(),
    {
        self.lemma_distinct();
        vstd::seq_lib::seq_to_set_is_finite(self.ids());
    }

    /// An empty history.
    pub fn new() -> (h: History)
        ensures
            h.well_formed(),
            h.events() == Map::<u32, Seq<TimeTaggedTrackEvent>>::empty(),
    {
        let h = History { tracks: Vec::new() };
        assert(h.events() =~= Map::<u32, Seq<TimeTaggedTrackEvent>>::empty());
        h
    }

    /// Where the entry for `identifier` is, or where it would go.
    fn search(&self, identifier: TrackId) -> (found: Result<usize, usize>)
        requires
            self.well_formed(),
        ensures
            match found {
                Ok(i) => i < self.tracks@.len() && self.tracks@[i as int].0 == identifier,
                Err(i) => {
                    &&& i <= self.tracks@.len()
                    &&& forall|k: int| 0 <= k < i ==> self.tracks@[k].0@ < identifier@
                    &&& forall|k: int| i <= k < self.tracks@.len() ==> self.tracks@[k].0@ > identifier@
                },
            },
    {
        let mut i: usize = 0;
        while i < self.tracks.len()
            invariant
                self.well_formed(),
                i <= self.tracks@.len(),
                forall|k: int| 0 <= k < i ==> self.tracks@[k].0@ < identifier@,
            decreases self.tracks.len() - i,
        {
            let number = self.tracks[i].0.number();
            if number == identifier.number() {
                return Ok(i);
            }
            if number > identifier.number() {
                assert forall|k: int| i <= k < self.tracks@.len() implies self.tracks@[k].0@ > identifier@ by {
                    assert(self.ids()[i as int] == number);
                    assert(self.ids()[k] == self.tracks@[k].0@);
                }
                return Err(i);
            }
            i = i + 1;
        }
        Err(i)
    }

    /// The events stored against a track.
    pub fn events_for(&self, identifier: TrackId) -> (events: Option<&TimeTaggedTrackEvents>)
        requires
            self.well_formed(),
        ensures
            match events {
                Some(e) => self.events().contains_key(identifier@) && self.events()[identifier@]
                    == e@,
                None => !self.events().contains_key(identifier@),
            },
    {
        match self.search(identifier) {
            Ok(i) => {
                proof {
                    self.lemma_position(i as int);
                }
                Some(&self.tracks[i].1)
            },
            Err(_) => {
                proof {
                    self.lemma_absent(identifier@);
                }
                None
            },
        }
    }

    /// The events stored against a track, borrowed to be changed in place;
    /// `None` when nothing is stored against it. What the borrow holds when
    /// it ends is what the history then holds against the track.
    pub fn events_for_mut(&mut self, identifier: TrackId) -> (events: Option<&mut TimeTaggedTrackEvents>)
        requires
            old(self).well_formed(),
        ensures
            old(self).events().contains_key(identifier@) ==> {
                &&& events is Some
                &&& (*events.unwrap())@ == old(self).events()[identifier@]
                &&& final(self).well_formed()
                &&& final(self).events() == old(self).events().insert(
                    identifier@,
                    (*final(events.unwrap()))@,
                )
            },
            !old(self).events().contains_key(identifier@) ==> events is None && *final(self)
                == *old(self),
    {
        match self.search(identifier) {
            Ok(i) => {
                proof {
                    self.lemma_position(i as int);
                }
                proof {
                    History::lemma_replacing(*self, i as int, identifier);
                }
                let entry = &mut self.tracks[i];
                Some(&mut entry.1)
            },
            Err(_) => {
                proof {
                    self.lemma_absent(identifier@);
                }
                None
            },
        }
    }

    /// Replaces the entry at `i`, which holds `identifier`.
    fn replace_at(&mut self, i: usize, identifier: TrackId, events: TimeTaggedTrackEvents)
        requires
            old(self).well_formed(),
            i < old(self).tracks@.len(),
            old(self).tracks@[i as int].0 == identifier,
        ensures
            final(self).well_formed(),
            final(self).events() == old(self).events().insert(identifier@, events@),
    {
        let ghost before = *self;
        let _ = self.tracks.remove(i);
        self.tracks.insert(i, (identifier, events));
        proof {
            assert(self.tracks@ == before.tracks@.update(i as int, (identifier, events)));
            History::lemma_replaced(before, *self, i as int, identifier, events);
        }
    }

    /// Whatever the events held at `i` are replaced with, the history stays
    /// well formed and holds them against the same identifier.
    proof fn lemma_replacing(before: History, i: int, identifier: TrackId)
        requires
            before.well_formed(),
            0 <= i < before.tracks@.len(),
            before.tracks@[i].0 == identifier,
        ensures
            forall|after: History|
                #![trigger after.events()]
                #![trigger after.well_formed()]
                after.tracks@ == before.tracks@.update(i, (identifier, after.tracks@[i].1)) ==> {
                    &&& after.well_formed()
                    &&& after.events() == before.events().insert(identifier@, after.tracks@[i].1@)
                },
    {
        assert forall|after: History|
            after.tracks@ == before.tracks@.update(i, (identifier, after.tracks@[i].1)) implies {
                &&& after.well_formed()
                &&& after.events() == before.events().insert(identifier@, after.tracks@[i].1@)
            } by {
            History::lemma_replaced(before, after, i, identifier, after.tracks@[i].1);
        }
    }

    /// Replacing the events held at `i` with others keeps the history well
    /// formed and stores the new events against the same identifier.
    proof fn lemma_replaced(
        before: History,
        after: History,
        i: int,
        identifier: TrackId,
        events: TimeTaggedTrackEvents,
    )
        requires
            before.well_formed(),
            0 <= i < before.tracks@.len(),
            before.tracks@[i].0 == identifier,
            after.tracks@ == before.tracks@.update(i, (identifier, events)),
        ensures
            after.well_formed(),
            after.events() == before.events().insert(identifier@, events@),
    {
        assert(after.ids() =~= before.ids().update(i, identifier@));
        assert(before.ids()[i] == identifier@);
        assert(after.ids() =~= before.ids());
        assert forall|id: u32| #[trigger] after.events().contains_key(id)
            == before.events().insert(identifier@, events@).contains_key(id) by {
            if after.ids().contains(id) {
                let k = choose|k: int| 0 <= k < after.ids().len() && after.ids()[k] == id;
                if k != i {
                    assert(before.ids()[k] == id);
                }
            }
            if before.ids().contains(id) {
                let k = choose|k: int| 0 <= k < before.ids().len() && before.ids()[k] == id;
                assert(after.ids()[k] == if k == i { identifier@ } else { id });
                if k == i {
                    assert(id == identifier@);
                }
            }
            if id == identifier@ {
                assert(after.ids()[i] == id);
            }
        }
        assert forall|id: u32| #[trigger] after.events().contains_key(id) implies after.events()[id]
            == before.events().insert(identifier@, events@)[id] by {
            let k = choose|k: int| 0 <= k < after.ids().len() && after.ids()[k] == id;
            after.lemma_position(k);
            if k != i {
                assert(before.tracks@[k] == after.tracks@[k]);
                before.lemma_position(k);
            }
        }
        assert(after.events() =~= before.events().insert(identifier@, events@));
    }

    /// Adds an entry for `identifier` at `i`, where the search put it.
    fn insert_at(&mut self, i: usize, identifier: TrackId, events: TimeTaggedTrackEvents)
        requires
            old(self).well_formed(),
            i <= old(self).tracks@.len(),
            forall|k: int| 0 <= k < i ==> old(self).tracks@[k].0@ < identifier@,
            forall|k: int| i <= k < old(self).tracks@.len() ==> old(self).tracks@[k].0@ > identifier@,
        ensures
            final(self).well_formed(),
            final(self).events() == old(self).events().insert(identifier@, events@),
    {
        let ghost before = *self;
        self.tracks.insert(i, (identifier, events));
        proof {
            let after = *self;
            assert(after.ids() =~= before.ids().insert(i as int, identifier@));
            assert forall|a: int, b: int| 0 <= a < b < after.ids().len() implies after.ids()[a]
                < after.ids()[b] by {
                if b < i {
                } else if a > i {
                    assert(after.ids()[a] == before.ids()[a - 1]);
                    assert(after.ids()[b] == before.ids()[b - 1]);
                } else if a == i {
                    assert(after.ids()[b] == before.tracks@[b - 1].0@);
                } else if b == i {
                    assert(after.ids()[a] == before.tracks@[a].0@);
                } else {
                    assert(after.ids()[a] == before.tracks@[a].0@);
                    assert(after.ids()[b] == before.tracks@[b - 1].0@);
                }
            }
            assert forall|id: u32| #[trigger] after.events().contains_key(id)
                == before.events().insert(identifier@, events@).contains_key(id) by {
                if after.ids().contains(id) {
                    let k = choose|k: int| 0 <= k < after.ids().len() && after.ids()[k] == id;
                    if k < i {
                        assert(before.ids()[k] == id);
                    } else if k > i {
                        assert(before.ids()[k - 1] == id);
                    }
                }
                if before.ids().contains(id) {
                    let k = choose|k: int| 0 <= k < before.ids().len() && before.ids()[k] == id;
                    if k < i {
                        assert(after.ids()[k] == id);
                    } else {
                        assert(after.ids()[k + 1] == id);
                    }
                }
                if id == identifier@ {
                    assert(after.ids()[i as int] == id);
                }
            }
            assert forall|id: u32| #[trigger] after.events().contains_key(id) implies after.events()[id]
                == before.events().insert(identifier@, events@)[id] by {
                let k = choose|k: int| 0 <= k < after.ids().len() && after.ids()[k] == id;
                after.lemma_position(k);
                if k < i {
                    assert(before.tracks@[k] == after.tracks@[k]);
                    before.lemma_position(k);
                } else if k > i {
                    assert(before.tracks@[k - 1] == after.tracks@[k]);
                    before.lemma_position(k - 1);
                }
            }
            assert(after.events() =~= before.events().insert(identifier@, events@));
        }
    }

    /// Appends one event to a track, keeping everything already stored against
    /// it. A track with nothing stored is given an entry of its own.
    pub fn record(&mut self, identifier: TrackId, at: Time, event: AnyTrackEvent)
        requires
            old(self).well_formed(),
        ensures
            final(self).well_formed(),
            final(self).events().dom().finite(),
            final(self).events() == old(self).events().insert(
                identifier@,
                (if old(self).events().contains_key(identifier@) {
                    old(self).events()[identifier@]
                } else {
                    Seq::empty()
                }).push(TimeTaggedTrackEvent { at, event }),
            ),
    {
        match self.search(identifier) {
            Ok(i) => {
                proof {
                    self.lemma_position(i as int);
                }
                let mut events = self.tracks[i].1.duplicate();
                events.record(at, event);
                self.replace_at(i, identifier, events);
            },
            Err(i) => {
                proof {
                    self.lemma_absent(identifier@);
                }
                let mut events = TimeTaggedTrackEvents::new();
                events.record(at, event);
                self.insert_at(i, identifier, events);
            },
        }
        proof {
            self.lemma_events_finite();
        }
    }

    /// Stores the events of a track, replacing whatever was held against its
    /// identifier.
    pub fn store(&mut self, identifier: TrackId, events: TimeTaggedTrackEvents)
        requires
            old(self).well_formed(),
        ensures
            final(self).well_formed(),
            final(self).events().dom().finite(),
            final(self).events() == old(self).events().insert(identifier@, events@),
    {
        match self.search(identifier) {
            Ok(i) => self.replace_at(i, identifier, events),
            Err(i) => self.insert_at(i, identifier, events),
        }
        proof {
            self.lemma_events_finite();
        }
    }

    /// Every track stored, in identifier order.
    pub fn tracks(&self) -> (tracks: std::vec::IntoIter<(TrackId, &TimeTaggedTrackEvents)>)
        requires
            self.well_formed(),
        ensures
            tracks.remaining().len() == self.events().len(),
            strictly_increasing(tracks.remaining().map_values(|entry: (TrackId, &TimeTaggedTrackEvents)| entry.0@)),
            forall|i: int| 0 <= i < tracks.remaining().len() ==> {
                let entry = #[trigger] tracks.remaining()[i];
                self.events().contains_key(entry.0@) && self.events()[entry.0@] == entry.1@
            },
            forall|id: u32| #[trigger] self.events().contains_key(id) ==> exists|i: int|
                0 <= i < tracks.remaining().len() && tracks.remaining()[i].0@ == id,
    {
        broadcast use vstd::std_specs::vec::axiom_spec_into_iter;

        let mut listed: Vec<(TrackId, &TimeTaggedTrackEvents)> = Vec::new();
        let mut i: usize = 0;
        while i < self.tracks.len()
            invariant
                self.well_formed(),
                i <= self.tracks@.len(),
                listed@.len() == i,
                forall|k: int| 0 <= k < i ==> (#[trigger] listed@[k]).0 == self.tracks@[k].0
                    && listed@[k].1@ == self.tracks@[k].1@,
            decreases self.tracks.len() - i,
        {
            listed.push((self.tracks[i].0, &self.tracks[i].1));
            i = i + 1;
        }
        proof {
            self.lemma_distinct();
            let shown = listed@.map_values(|entry: (TrackId, &TimeTaggedTrackEvents)| entry.0@);
            assert(shown =~= self.ids());
            assert forall|k: int| 0 <= k < listed@.len() implies {
                let entry = #[trigger] listed@[k];
                self.events().contains_key(entry.0@) && self.events()[entry.0@] == entry.1@
            } by {
                self.lemma_position(k);
            }
            assert forall|id: u32| #[trigger] self.events().contains_key(id) implies exists|k: int|
                0 <= k < listed@.len() && listed@[k].0@ == id by {
                let k = choose|k: int| 0 <= k < self.ids().len() && self.ids()[k] == id;
                assert(listed@[k].0@ == id);
            }
        }
        listed.into_iter()
    }

    /// How many tracks are stored.
    pub fn len(&self) -> (n: usize)
        requires
            self.well_formed(),
        ensures
            n == self.events().len(),
    {
        proof {
            self.lemma_distinct();
        }
        self.tracks.len()
    }

    /// Whether no track is stored.
    pub fn is_empty(&self) -> (b: bool)
        requires
            self.well_formed(),
        ensures
            b == (self.events().len() == 0),
    {
        self.len() == 0
    }
}

/// What a read gives back of a write: after storing events against a track,
/// reading that track returns them, and every other track reads as before.
pub proof fn lemma_store_then_read(
    before: History,
    after: History,
    identifier: TrackId,
    events: TimeTaggedTrackEvents,
    other: u32,
)
    requires
        after.events() == before.events().insert(identifier@, events@),
        other != identifier@,
    ensures
        after.events()[identifier@] == events@,
        after.events().contains_key(other) == before.events().contains_key(other),
        before.events().contains_key(other) ==> after.events()[other] == before.events()[other],
{
}

} // verus!
