//! The tracks currently in play, and the events recorded against them.
//!
//! A library is built once per session from the tracks discovered on disk
//! and the history stored for them. It caches each track's rating evidence
//! and last-played time, so scoring a draw does not walk every event again;
//! the cache always agrees with the events it summarizes.

use crate::history::History;
use crate::offer;
use crate::offer::Factors;
use crate::path::FsPath;
use crate::rating;
use crate::rating::Evidence;
use crate::rating::Fixed;
use crate::time::Time;
use crate::track::TrackId;
use crate::track::TrackIds;
use crate::track::TrackName;
use crate::track::TrackNames;
use crate::track_events::Added;
use crate::track_events::AnyTrackEvent;
use crate::track_events::TimeTaggedTrackEvent;
use crate::track_events::TimeTaggedTrackEvents;
use vstd::prelude::*;

verus! {

broadcast use crate::track::lemma_track_id_eq;

/// An audio file found below the root, and the identifier assigned to it.
#[derive(Debug, Clone, PartialEq, Eq, Hash)]
pub struct DiscoveredTrack {
    /// The identifier assigned by the catalog.
    pub identifier: TrackId,
    /// The name to display: the file name without its extension.
    pub name: TrackName,
    /// The path of the file.
    pub path: FsPath,
}

/// A borrowed view of one track of a library.
#[derive(Debug, Clone, Copy, PartialEq)]
pub struct TrackView<'library> {
    /// The identifier of the track.
    pub identifier: TrackId,
    /// The name to display.
    pub name: &'library TrackName,
    /// The path of the file.
    pub path: &'library FsPath,
    /// The events recorded against the track, in recording order.
    pub events: &'library TimeTaggedTrackEvents,
}

#[derive(Debug, Clone)]
struct Entry {
    identifier: TrackId,
    path: FsPath,
    events: TimeTaggedTrackEvents,
    evidence: Evidence,
    last_played: Option<Time>,
}

impl Entry {
    spec fn consistent(self) -> bool {
        &&& self.evidence == rating::evidence_spec(self.events@)
        &&& self.last_played == offer::last_offered_spec(self.events@)
    }
}

/// The events a track starts a session with: those stored for it, or, for a
/// track never seen before, its arrival at `now`.
pub open spec fn starting_events(history: History, id: u32, now: Time) -> Seq<TimeTaggedTrackEvent> {
    if history.events().contains_key(id) {
        history.events()[id]
    } else {
        seq![TimeTaggedTrackEvent { at: now, event: AnyTrackEvent::Added(Added {}) }]
    }
}

/// Whether `library` holds the tracks of `discovered`, in order, each under
/// the last path and name given for its identifier, with the events `history`
/// holds for it, or `Added` at `now` if it holds none.
pub open spec fn built_from(library: Library, discovered: Seq<DiscoveredTrack>, history: History, now: Time) -> bool {
    &&& library.ids() == discovered.map_values(|track: DiscoveredTrack| track.identifier)
    &&& forall|i: int| #![trigger discovered[i]]
        is_last_occurrence(library.ids(), i, discovered[i].identifier) ==> {
        &&& library.events_of(discovered[i].identifier) == starting_events(
            history,
            discovered[i].identifier@,
            now,
        )
        &&& library.path_of(discovered[i].identifier) == discovered[i].path@
        &&& library.name_of(discovered[i].identifier) == Some(discovered[i].name)
    }
}

/// Whether position `i` is the last place `id` occurs in `ids`.
pub open spec fn is_last_occurrence(ids: Seq<TrackId>, i: int, id: TrackId) -> bool {
    0 <= i < ids.len() && ids[i] == id && forall|j: int| i < j < ids.len() ==> ids[j] != id
}

/// The tracks currently in play, and the events recorded against them.
#[derive(Debug, Clone, Default)]
pub struct Library {
    identifiers: TrackIds,
    names: TrackNames,
    entries: Vec<Entry>,
}

impl Library {
    /// The identifiers, in discovery order.
    pub closed spec fn ids(self) -> Seq<TrackId> {
        self.identifiers@
    }

    /// Where the live entry for `id` is: the last place it was discovered.
    pub closed spec fn position(self, id: TrackId) -> Option<int> {
        if exists|i: int| is_last_occurrence(self.ids(), i, id) {
            Some(choose|i: int| is_last_occurrence(self.ids(), i, id))
        } else {
            None
        }
    }

    /// Whether the library holds `id`.
    pub open spec fn holds(self, id: TrackId) -> bool {
        self.ids().contains(id)
    }

    /// The events recorded against a track the library holds.
    pub closed spec fn events_of(self, id: TrackId) -> Seq<TimeTaggedTrackEvent> {
        self.entries@[self.position(id).unwrap()].events@
    }

    /// The path of a track the library holds.
    pub closed spec fn path_of(self, id: TrackId) -> (bool, Seq<Seq<char>>) {
        self.entries@[self.position(id).unwrap()].path@
    }

    /// The name of a track the library holds.
    pub closed spec fn name_of(self, id: TrackId) -> Option<TrackName> {
        self.names.name_of(id@ as int)
    }

    /// The library's parts agree with one another, and every cache agrees
    /// with the events it summarizes.
    pub closed spec fn well_formed(self) -> bool {
        &&& self.entries@.len() == self.identifiers@.len()
        &&& forall|i: int| 0 <= i < self.entries@.len() ==> (#[trigger] self.entries@[i]).identifier
            == self.identifiers@[i] && self.entries@[i].consistent()
        &&& forall|i: int| 0 <= i < self.identifiers@.len() ==> (#[trigger] self.names.name_of(
            self.identifiers@[i]@ as int,
        )) is Some
    }

    proof fn lemma_position(self, id: TrackId)
        ensures
            self.holds(id) ==> (self.position(id) matches Some(i) && is_last_occurrence(self.ids(), i, id)),
            !self.holds(id) ==> self.position(id) is None,
    {
        if self.holds(id) {
            let k = choose|k: int| 0 <= k < self.ids().len() && self.ids()[k] == id;
            lemma_last_occurrence_exists(self.ids(), k, id);
        } else {
            if exists|i: int| is_last_occurrence(self.ids(), i, id) {
                let i = choose|i: int| is_last_occurrence(self.ids(), i, id);
                assert(self.ids().contains(id));
            }
        }
    }

    proof fn lemma_unique_position(self, id: TrackId, i: int)
        requires
            is_last_occurrence(self.ids(), i, id),
        ensures
            self.position(id) == Some(i),
    {
        let j = choose|j: int| is_last_occurrence(self.ids(), j, id);
        if j < i {
            assert(self.ids()[i] != id);
        } else if i < j {
            assert(self.ids()[j] != id);
        }
    }

    /// The index of the live entry for `identifier`.
    fn find(&self, identifier: TrackId) -> (found: Option<usize>)
        requires
            self.well_formed(),
        ensures
            match found {
                Some(i) => self.holds(identifier) && self.position(identifier) == Some(i as int)
                    && i < self.entries@.len(),
                None => !self.holds(identifier) && self.position(identifier) is None,
            },
    {
        let mut i: usize = self.entries.len();
        while i > 0
            invariant
                self.well_formed(),
                i <= self.entries@.len(),
                forall|j: int| i <= j < self.ids().len() ==> self.ids()[j] != identifier,
            decreases i,
        {
            let entry = &self.entries[i - 1];
            if entry.identifier == identifier {
                proof {
                    assert(self.ids()[i - 1] == identifier);
                    assert(is_last_occurrence(self.ids(), i - 1, identifier));
                    self.lemma_unique_position(identifier, i - 1);
                    assert(self.ids().contains(identifier));
                }
                return Some(i - 1);
            }
            i = i - 1;
        }
        proof {
            self.lemma_position(identifier);
            if self.holds(identifier) {
                let k = choose|k: int| 0 <= k < self.ids().len() && self.ids()[k] == identifier;
            }
        }
        None
    }

    /// An empty library.
    pub fn new() -> (library: Library)
        ensures
            library.well_formed(),
            library.ids() == Seq::<TrackId>::empty(),
    {
        Library { identifiers: TrackIds::new(), names: TrackNames::new(), entries: Vec::new() }
    }

    fn insert(&mut self, track: DiscoveredTrack, history: &History, now: Time)
        requires
            old(self).well_formed(),
            history.well_formed(),
        ensures
            final(self).well_formed(),
            final(self).ids() == old(self).ids().push(track.identifier),
            final(self).events_of(track.identifier) == starting_events(*history, track.identifier@, now),
            final(self).path_of(track.identifier) == track.path@,
            final(self).name_of(track.identifier) == Some(track.name),
            forall|id: TrackId| id != track.identifier && old(self).holds(id)
                ==> #[trigger] final(self).events_of(id) == old(self).events_of(id),
            forall|id: TrackId| id != track.identifier && old(self).holds(id)
                ==> #[trigger] final(self).path_of(id) == old(self).path_of(id),
            forall|id: TrackId| id != track.identifier
                ==> #[trigger] final(self).name_of(id) == old(self).name_of(id),
    {
        let identifier = track.identifier;
        let ghost before = *self;
        self.identifiers.push(identifier);
        self.names.insert(identifier, track.name);
        let events = match history.events_for(identifier) {
            Some(stored) => stored.duplicate(),
            None => {
                let mut fresh = TimeTaggedTrackEvents::new();
                fresh.record(now, AnyTrackEvent::Added(Added::new()));
                fresh
            },
        };
        let evidence = rating::evidence_of(&events);
        let last_played = offer::last_offered_at(&events);
        self.entries.push(Entry { identifier, path: track.path, events, evidence, last_played });
        proof {
            let after = *self;
            let n = before.ids().len() as int;
            assert(is_last_occurrence(after.ids(), n, identifier));
            after.lemma_unique_position(identifier, n);
            assert(events@ =~= starting_events(*history, identifier@, now));
            assert forall|i: int| 0 <= i < after.identifiers@.len() implies (#[trigger] after.names.name_of(
                after.identifiers@[i]@ as int,
            )) is Some by {
                if i < n {
                    assert(after.identifiers@[i] == before.identifiers@[i]);
                    if after.identifiers@[i]@ != identifier@ {
                        assert(before.names.name_of(before.identifiers@[i]@ as int) is Some);
                    }
                }
            }
            assert forall|id: TrackId| id != identifier && before.holds(id) implies #[trigger] after.events_of(id)
                == before.events_of(id) && after.path_of(id) == before.path_of(id) by {
                before.lemma_position(id);
                let i = before.position(id).unwrap();
                assert(is_last_occurrence(after.ids(), i, id));
                after.lemma_unique_position(id, i);
            }
            assert forall|id: TrackId| id != identifier implies #[trigger] after.name_of(id)
                == before.name_of(id) by {
                assert(id@ != identifier@);
                assert(after.names.name_of(id@ as int) == before.names.name_of(id@ as int));
            }
            assert forall|id: TrackId| id != identifier && before.holds(id) implies #[trigger] after.path_of(id)
                == before.path_of(id) by {
                before.lemma_position(id);
                let i = before.position(id).unwrap();
                assert(is_last_occurrence(after.ids(), i, id));
                after.lemma_unique_position(id, i);
            }
        }
    }

    /// A library of the tracks in `discovered`, carrying the events `history`
    /// holds for each. A track absent from `history` is recorded as `Added`
    /// at `now`.
    pub fn build(discovered: Vec<DiscoveredTrack>, history: &History, now: Time) -> (library: Library)
        requires
            history.well_formed(),
        ensures
            library.well_formed(),
            built_from(library, discovered@, *history, now),
    {
        let mut library = Library::new();
        let mut i: usize = 0;
        let mut rest = discovered;
        let ghost all = rest@;
        let total = rest.len();
        while rest.len() > 0
            invariant
                history.well_formed(),
                library.well_formed(),
                i + rest@.len() == all.len(),
                all.len() == total,
                rest@ == all.subrange(i as int, all.len() as int),
                library.ids() == all.subrange(0, i as int).map_values(|track: DiscoveredTrack| track.identifier),
                forall|k: int| #![trigger all[k]] 0 <= k < i && is_last_occurrence(library.ids(), k, all[k].identifier) ==> {
                    &&& library.events_of(all[k].identifier) == starting_events(*history, all[k].identifier@, now)
                    &&& library.path_of(all[k].identifier) == all[k].path@
                    &&& library.name_of(all[k].identifier) == Some(all[k].name)
                },
            decreases rest@.len(),
        {
            let track = rest.remove(0);
            let ghost before = library;
            proof {
                assert(track == all[i as int]);
            }
            library.insert(track, history, now);
            i = i + 1;
            proof {
                assert(library.ids() =~= all.subrange(0, i as int).map_values(|track: DiscoveredTrack| track.identifier));
                assert(rest@ =~= all.subrange(i as int, all.len() as int));
                assert forall|k: int| #![trigger all[k]] 0 <= k < i && is_last_occurrence(library.ids(), k, all[k].identifier) implies {
                    &&& library.events_of(all[k].identifier) == starting_events(*history, all[k].identifier@, now)
                    &&& library.path_of(all[k].identifier) == all[k].path@
                    &&& library.name_of(all[k].identifier) == Some(all[k].name)
                } by {
                    if k < i - 1 {
                        assert(library.ids()[i - 1] == all[i - 1].identifier);
                        assert(all[k].identifier != all[i - 1].identifier);
                        assert forall|j: int| k < j < before.ids().len() implies before.ids()[j]
                            != all[k].identifier by {
                            assert(before.ids()[j] == library.ids()[j]);
                        }
                        assert(is_last_occurrence(before.ids(), k, all[k].identifier));
                        assert(before.holds(all[k].identifier));
                    }
                }
            }
        }
        proof {
            assert(all.subrange(0, i as int) =~= all);
        }
        library
    }

    /// The identifiers of every track, in discovery order.
    pub fn identifiers(&self) -> (ids: &TrackIds)
        ensures
            ids@ == self.ids(),
    {
        &self.identifiers
    }

    /// How many tracks the library holds.
    pub fn len(&self) -> (n: usize)
        ensures
            n == self.ids().len(),
    {
        self.identifiers.len()
    }

    /// Whether the library is empty.
    pub fn is_empty(&self) -> (b: bool)
        ensures
            b == (self.ids().len() == 0),
    {
        self.identifiers.is_empty()
    }

    /// The name a track is displayed under.
    pub fn name(&self, identifier: TrackId) -> (name: Option<&TrackName>)
        ensures
            match name {
                Some(n) => self.name_of(identifier) == Some(*n),
                None => self.name_of(identifier) is None,
            },
    {
        self.names.get(identifier)
    }

    /// The path of a track's file.
    pub fn path(&self, identifier: TrackId) -> (path: Option<&FsPath>)
        requires
            self.well_formed(),
        ensures
            match path {
                Some(p) => self.holds(identifier) && self.path_of(identifier) == p@,
                None => !self.holds(identifier),
            },
    {
        match self.find(identifier) {
            Some(i) => Some(&self.entries[i].path),
            None => None,
        }
    }

    /// The events recorded against a track.
    pub fn events(&self, identifier: TrackId) -> (events: Option<&TimeTaggedTrackEvents>)
        requires
            self.well_formed(),
        ensures
            match events {
                Some(e) => self.holds(identifier) && self.events_of(identifier) == e@,
                None => !self.holds(identifier),
            },
    {
        match self.find(identifier) {
            Some(i) => Some(&self.entries[i].events),
            None => None,
        }
    }

    /// The measured listener preference for a track, or the starting
    /// preference for one the library does not hold.
    pub fn preference(&self, identifier: TrackId) -> (p: Fixed)
        requires
            self.well_formed(),
        ensures
            p.billionths == if self.holds(identifier) {
                rating::preference_spec(rating::evidence_spec(self.events_of(identifier)))
            } else {
                rating::STARTING_PREFERENCE as int
            },
    {
        match self.find(identifier) {
            Some(i) => rating::preference(self.entries[i].evidence),
            None => Fixed::from_billionths(rating::STARTING_PREFERENCE),
        }
    }

    /// The independent factors a track is scored from.
    pub fn factors(&self, identifier: TrackId, now: Time) -> (f: Factors)
        requires
            self.well_formed(),
        ensures
            f.within_bounds(),
            f.preference.billionths == rating::preference_spec(self.evidence_spec_of(identifier)),
            f.reliability.billionths == rating::reliability_spec(self.evidence_spec_of(identifier)),
            f.staleness.billionths == offer::staleness_spec(self.last_played_spec(identifier), now),
    {
        match self.find(identifier) {
            Some(i) => offer::factors(self.entries[i].evidence, self.entries[i].last_played, now),
            None => offer::factors(Evidence { finishes: 0, quick_skips: 0, failures: 0 }, None, now),
        }
    }

    /// The evidence of a track, or none for a track the library does not
    /// hold.
    pub open spec fn evidence_spec_of(self, id: TrackId) -> Evidence {
        if self.holds(id) {
            rating::evidence_spec(self.events_of(id))
        } else {
            Evidence { finishes: 0, quick_skips: 0, failures: 0 }
        }
    }

    /// When a track was last played, or `None` for a track the library does
    /// not hold or one never played.
    pub open spec fn last_played_spec(self, id: TrackId) -> Option<Time> {
        if self.holds(id) {
            offer::last_offered_spec(self.events_of(id))
        } else {
            None
        }
    }

    /// When a track was last played.
    pub fn last_played(&self, identifier: TrackId) -> (last: Option<Time>)
        requires
            self.well_formed(),
        ensures
            last == self.last_played_spec(identifier),
    {
        match self.find(identifier) {
            Some(i) => self.entries[i].last_played,
            None => None,
        }
    }

    /// Records an event against a track at `at`. An identifier the library
    /// does not hold is ignored.
    pub fn record(&mut self, identifier: TrackId, at: Time, event: AnyTrackEvent)
        requires
            old(self).well_formed(),
        ensures
            final(self).well_formed(),
            final(self).ids() == old(self).ids(),
            old(self).holds(identifier) ==> final(self).events_of(identifier) == old(self).events_of(
                identifier,
            ).push(TimeTaggedTrackEvent { at, event }),
            forall|id: TrackId| id != identifier && old(self).holds(id) ==> #[trigger] final(self).events_of(id)
                == old(self).events_of(id),
            forall|id: TrackId| old(self).holds(id) ==> #[trigger] final(self).path_of(id) == old(self).path_of(id),
            forall|id: TrackId| #[trigger] final(self).name_of(id) == old(self).name_of(id),
    {
        let ghost before = *self;
        match self.find(identifier) {
            Some(i) => {
                let mut entry = self.entries.remove(i);
                proof {
                    assert(entry == before.entries@[i as int]);
                    assert(entry.consistent());
                }
                let ghost previous = entry.events@;
                entry.evidence.observe(&event);
                let replaced = match event {
                    AnyTrackEvent::Added(_) => entry.last_played,
                    _ => match entry.last_played {
                        None => Some(at),
                        Some(last) => Some(last.latest(at)),
                    },
                };
                entry.last_played = replaced;
                entry.events.record(at, event);
                proof {
                    assert(entry.events@.drop_last() =~= previous);
                    assert(entry.consistent());
                }
                self.entries.insert(i, entry);
                proof {
                    let after = *self;
                    assert(after.entries@ == before.entries@.update(i as int, entry));
                    assert(after.ids() == before.ids());
                    after.lemma_unique_position(identifier, i as int);
                    assert forall|id: TrackId| id != identifier && before.holds(id) implies #[trigger] after.events_of(id)
                        == before.events_of(id) by {
                        before.lemma_position(id);
                        after.lemma_position(id);
                    }
                    assert forall|id: TrackId| before.holds(id) implies #[trigger] after.path_of(id) == before.path_of(id) by {
                        before.lemma_position(id);
                        after.lemma_position(id);
                    }
                }
            },
            None => {},
        }
    }

    /// A view of one track.
    pub fn track(&self, identifier: TrackId) -> (view: Option<TrackView<'_>>)
        requires
            self.well_formed(),
        ensures
            match view {
                Some(v) => {
                    &&& self.holds(identifier)
                    &&& v.identifier == identifier
                    &&& self.name_of(identifier) == Some(*v.name)
                    &&& self.path_of(identifier) == v.path@
                    &&& self.events_of(identifier) == v.events@
                },
                None => !self.holds(identifier),
            },
    {
        match self.find(identifier) {
            Some(i) => {
                proof {
                    assert(self.ids()[i as int] == identifier);
                    assert(self.names.name_of(self.identifiers@[i as int]@ as int) is Some);
                }
                let entry = &self.entries[i];
                match self.names.get(identifier) {
                    Some(name) => Some(
                        TrackView { identifier, name, path: &entry.path, events: &entry.events },
                    ),
                    None => None,
                }
            },
            None => None,
        }
    }

    /// The tracks, in discovery order.
    pub fn tracks(&self) -> (views: Vec<TrackView<'_>>)
        requires
            self.well_formed(),
        ensures
            views@.len() == self.ids().len(),
            forall|i: int| 0 <= i < views@.len() ==> {
                let v = #[trigger] views@[i];
                &&& v.identifier == self.ids()[i]
                &&& self.name_of(v.identifier) == Some(*v.name)
                &&& self.path_of(v.identifier) == v.path@
                &&& self.events_of(v.identifier) == v.events@
            },
    {
        let mut views: Vec<TrackView<'_>> = Vec::new();
        let mut i: usize = 0;
        while i < self.identifiers.len()
            invariant
                self.well_formed(),
                i <= self.ids().len(),
                views@.len() == i,
                forall|k: int| 0 <= k < i ==> {
                    let v = #[trigger] views@[k];
                    &&& v.identifier == self.ids()[k]
                    &&& self.name_of(v.identifier) == Some(*v.name)
                    &&& self.path_of(v.identifier) == v.path@
                    &&& self.events_of(v.identifier) == v.events@
                },
            decreases self.ids().len() - i,
        {
            let identifier = self.identifiers.get(i);
            proof {
                assert(self.ids().contains(identifier));
            }
            match self.track(identifier) {
                Some(view) => views.push(view),
                None => {},
            }
            i = i + 1;
        }
        views
    }

    /// Writes every track's events into `history`, replacing what it held for
    /// those tracks and leaving every other track untouched.
    pub fn store_into(&self, history: &mut History)
        requires
            self.well_formed(),
            old(history).well_formed(),
        ensures
            final(history).well_formed(),
            forall|id: u32| #[trigger] final(history).events().contains_key(id) == (old(history).events().contains_key(id)
                || exists|i: int| 0 <= i < self.ids().len() && self.ids()[i]@ == id),
            forall|i: int| 0 <= i < self.ids().len() ==> final(history).events()[#[trigger] self.ids()[i]@]
                == self.events_of(self.ids()[i]),
            forall|id: u32| !(exists|i: int| 0 <= i < self.ids().len() && self.ids()[i]@ == id)
                ==> #[trigger] final(history).events().contains_key(id) ==> final(history).events()[id]
                == old(history).events()[id],
    {
        let views = self.tracks();
        let mut i: usize = 0;
        while i < views.len()
            invariant
                self.well_formed(),
                history.well_formed(),
                views@.len() == self.ids().len(),
                i <= views@.len(),
                forall|k: int| 0 <= k < views@.len() ==> {
                    let v = #[trigger] views@[k];
                    &&& v.identifier == self.ids()[k]
                    &&& self.events_of(v.identifier) == v.events@
                },
                forall|id: u32| #[trigger] history.events().contains_key(id) == (old(history).events().contains_key(id)
                    || exists|k: int| 0 <= k < i && self.ids()[k]@ == id),
                forall|k: int| 0 <= k < i ==> history.events()[#[trigger] self.ids()[k]@]
                    == self.events_of(self.ids()[k]),
                forall|id: u32| !(exists|k: int| 0 <= k < i && self.ids()[k]@ == id)
                    ==> #[trigger] history.events().contains_key(id) ==> history.events()[id]
                    == old(history).events()[id],
            decreases views@.len() - i,
        {
            let view = views[i];
            let ghost before = history.events();
            history.store(view.identifier, view.events.duplicate());
            i = i + 1;
            proof {
                assert forall|id: u32| #[trigger] history.events().contains_key(id) == (old(history).events().contains_key(id)
                    || exists|k: int| 0 <= k < i && self.ids()[k]@ == id) by {
                    if id == view.identifier@ {
                        assert(self.ids()[i - 1]@ == id);
                    } else if exists|k: int| 0 <= k < i && self.ids()[k]@ == id {
                        let k = choose|k: int| 0 <= k < i && self.ids()[k]@ == id;
                        assert(k < i - 1);
                    }
                }
                assert forall|k: int| 0 <= k < i implies history.events()[#[trigger] self.ids()[k]@]
                    == self.events_of(self.ids()[k]) by {
                    if self.ids()[k]@ != view.identifier@ {
                    } else {
                        assert(self.ids()[k] == view.identifier);
                    }
                }
                assert forall|id: u32| !(exists|k: int| 0 <= k < i && self.ids()[k]@ == id)
                    implies #[trigger] history.events().contains_key(id) ==> history.events()[id]
                    == old(history).events()[id] by {
                    if id == view.identifier@ {
                        assert(self.ids()[i - 1]@ == id);
                    }
                }
            }
        }
    }
}

proof fn lemma_last_occurrence_exists(ids: Seq<TrackId>, k: int, id: TrackId)
    requires
        0 <= k < ids.len(),
        ids[k] == id,
    ensures
        exists|i: int| is_last_occurrence(ids, i, id),
    decreases ids.len() - k,
{
    if forall|j: int| k < j < ids.len() ==> ids[j] != id {
        assert(is_last_occurrence(ids, k, id));
    } else {
        let j = choose|j: int| k < j < ids.len() && ids[j] == id;
        lemma_last_occurrence_exists(ids, j, id);
    }
}

/// A track the library holds last played at the latest time among its
/// events other than its arrival, and never if it only arrived; so an event
/// recorded later than every other, and not an arrival, is when it last
/// played.
pub proof fn lemma_last_played_is_latest_play(library: Library, id: TrackId)
    requires
        library.holds(id),
    ensures
        library.last_played_spec(id) is None <==> forall|i: int|
            0 <= i < library.events_of(id).len() ==> (#[trigger] library.events_of(id)[i]).event is Added,
        library.last_played_spec(id) matches Some(t) ==> {
            &&& exists|i: int| 0 <= i < library.events_of(id).len() && !((#[trigger] library.events_of(id)[i]).event is Added)
                && library.events_of(id)[i].at == t
            &&& forall|i: int| 0 <= i < library.events_of(id).len() && !((#[trigger] library.events_of(id)[i]).event is Added)
                ==> library.events_of(id)[i].at.millis() <= t.millis()
        },
{
    offer::lemma_last_offered_is_latest_play(library.events_of(id));
}

} // verus!
