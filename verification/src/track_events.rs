//! The events recorded against a track.
//!
//! A track carries no score, only its events, so the rules for rating a track
//! can change without rewriting its history. Each entry pairs an event with
//! the time it was recorded at.

use crate::time::Duration;
use crate::time::Time;
use vstd::prelude::*;
use vstd::std_specs::iter::IteratorSpec;

verus! {

/// The track entered the library. Carries no payload.
#[derive(Debug, Clone, Copy, Default, PartialEq, Eq, Structural)]
pub struct Added {}

impl Added {
    /// The event.
    pub fn new() -> (a: Added)
        ensures
            a == (Added {}),
    {
        Added {}
    }
}

/// The listener cut the track short.
#[derive(Debug, Clone, Copy, PartialEq, Eq, Structural)]
pub struct Skipped {
    /// How long the track had been playing.
    pub listened_for: Duration,
}

impl Skipped {
    /// A skip after `listened_for` of playback.
    pub fn new(listened_for: Duration) -> (s: Skipped)
        ensures
            s.listened_for == listened_for,
    {
        Skipped { listened_for }
    }
}

/// The listener ended playback while the track was playing.
#[derive(Debug, Clone, Copy, PartialEq, Eq, Structural)]
pub struct Stopped {
    /// How long the track had been playing.
    pub listened_for: Duration,
}

impl Stopped {
    /// A stop after `listened_for` of playback.
    pub fn new(listened_for: Duration) -> (s: Stopped)
        ensures
            s.listened_for == listened_for,
    {
        Stopped { listened_for }
    }
}

/// Why a backend could not play a track to its end.
#[derive(Debug, Clone, Copy, PartialEq, Eq, Hash, Structural)]
#[non_exhaustive]
pub enum TrackFailure {
    /// The file does not exist.
    FileNotFound,
    /// The backend does not understand the container or codec.
    UnsupportedFormat,
    /// The backend understood the file but failed while decoding it.
    DecoderError,
    /// The backend itself stopped running.
    BackendExited,
}

impl TrackFailure {
    /// Every variant this version defines.
    pub const ALL: [TrackFailure; 4] = [
        TrackFailure::FileNotFound,
        TrackFailure::UnsupportedFormat,
        TrackFailure::DecoderError,
        TrackFailure::BackendExited,
    ];
}

/// How a backend stopped playing a track.
#[derive(Debug, Clone, Copy, PartialEq, Eq, Hash, Structural)]
#[non_exhaustive]
pub enum PlaybackOutcome {
    /// The track played to its end.
    Finished,
    /// The track could not be played to its end.
    Failed(TrackFailure),
}

impl PlaybackOutcome {
    /// Whether the track played to its end.
    pub fn is_finished(self) -> (b: bool)
        ensures
            b == (self is Finished),
    {
        match self {
            PlaybackOutcome::Finished => true,
            PlaybackOutcome::Failed(_) => false,
        }
    }

    /// Why playback stopped early, or `None` if the track finished.
    pub fn failure(self) -> (f: Option<TrackFailure>)
        ensures
            f == (match self {
                PlaybackOutcome::Failed(failure) => Some(failure),
                PlaybackOutcome::Finished => None,
            }),
    {
        match self {
            PlaybackOutcome::Failed(failure) => Some(failure),
            PlaybackOutcome::Finished => None,
        }
    }
}

impl From<TrackFailure> for PlaybackOutcome {
    fn from(failure: TrackFailure) -> PlaybackOutcome {
        PlaybackOutcome::Failed(failure)
    }
}

impl vstd::std_specs::convert::FromSpecImpl<TrackFailure> for PlaybackOutcome {
    open spec fn obeys_from_spec() -> bool {
        true
    }

    open spec fn from_spec(failure: TrackFailure) -> PlaybackOutcome {
        PlaybackOutcome::Failed(failure)
    }
}

/// Any event that can be recorded against a track.
#[derive(Debug, Clone, Copy, PartialEq, Eq, Structural)]
#[non_exhaustive]
pub enum AnyTrackEvent {
    /// The track entered the library.
    Added(Added),
    /// The listener cut the track short.
    Skipped(Skipped),
    /// The listener ended playback while the track was playing.
    Stopped(Stopped),
    /// The backend stopped playing the track on its own.
    PlaybackOutcome(PlaybackOutcome),
}

impl AnyTrackEvent {
    /// The `Added` payload, or `None` when the event is something else.
    pub fn as_added(&self) -> (p: Option<&Added>)
        ensures
            match *self {
                AnyTrackEvent::Added(payload) => p == Some(&payload),
                _ => p is None,
            },
    {
        match self {
            AnyTrackEvent::Added(payload) => Some(payload),
            _ => None,
        }
    }

    /// The `Skipped` payload, or `None` when the event is something else.
    pub fn as_skipped(&self) -> (p: Option<&Skipped>)
        ensures
            match *self {
                AnyTrackEvent::Skipped(payload) => p == Some(&payload),
                _ => p is None,
            },
    {
        match self {
            AnyTrackEvent::Skipped(payload) => Some(payload),
            _ => None,
        }
    }

    /// The `Stopped` payload, or `None` when the event is something else.
    pub fn as_stopped(&self) -> (p: Option<&Stopped>)
        ensures
            match *self {
                AnyTrackEvent::Stopped(payload) => p == Some(&payload),
                _ => p is None,
            },
    {
        match self {
            AnyTrackEvent::Stopped(payload) => Some(payload),
            _ => None,
        }
    }

    /// The `PlaybackOutcome` payload, or `None` when the event is something
    /// else.
    pub fn as_playback_outcome(&self) -> (p: Option<&PlaybackOutcome>)
        ensures
            match *self {
                AnyTrackEvent::PlaybackOutcome(payload) => p == Some(&payload),
                _ => p is None,
            },
    {
        match self {
            AnyTrackEvent::PlaybackOutcome(payload) => Some(payload),
            _ => None,
        }
    }
}

impl From<Added> for AnyTrackEvent {
    fn from(payload: Added) -> AnyTrackEvent {
        AnyTrackEvent::Added(payload)
    }
}

impl vstd::std_specs::convert::FromSpecImpl<Added> for AnyTrackEvent {
    open spec fn obeys_from_spec() -> bool {
        true
    }

    open spec fn from_spec(payload: Added) -> AnyTrackEvent {
        AnyTrackEvent::Added(payload)
    }
}

impl From<Skipped> for AnyTrackEvent {
    fn from(payload: Skipped) -> AnyTrackEvent {
        AnyTrackEvent::Skipped(payload)
    }
}

impl vstd::std_specs::convert::FromSpecImpl<Skipped> for AnyTrackEvent {
    open spec fn obeys_from_spec() -> bool {
        true
    }

    open spec fn from_spec(payload: Skipped) -> AnyTrackEvent {
        AnyTrackEvent::Skipped(payload)
    }
}

impl From<Stopped> for AnyTrackEvent {
    fn from(payload: Stopped) -> AnyTrackEvent {
        AnyTrackEvent::Stopped(payload)
    }
}

impl vstd::std_specs::convert::FromSpecImpl<Stopped> for AnyTrackEvent {
    open spec fn obeys_from_spec() -> bool {
        true
    }

    open spec fn from_spec(payload: Stopped) -> AnyTrackEvent {
        AnyTrackEvent::Stopped(payload)
    }
}

impl From<PlaybackOutcome> for AnyTrackEvent {
    fn from(payload: PlaybackOutcome) -> AnyTrackEvent {
        AnyTrackEvent::PlaybackOutcome(payload)
    }
}

impl vstd::std_specs::convert::FromSpecImpl<PlaybackOutcome> for AnyTrackEvent {
    open spec fn obeys_from_spec() -> bool {
        true
    }

    open spec fn from_spec(payload: PlaybackOutcome) -> AnyTrackEvent {
        AnyTrackEvent::PlaybackOutcome(payload)
    }
}

/// One track event and the time it was recorded at.
#[derive(Debug, Clone, Copy, PartialEq, Eq, Structural)]
pub struct TimeTaggedTrackEvent {
    /// When the event was recorded.
    pub at: Time,
    /// The event.
    pub event: AnyTrackEvent,
}

impl TimeTaggedTrackEvent {
    /// An event recorded at `at`.
    pub fn new(at: Time, event: AnyTrackEvent) -> (e: TimeTaggedTrackEvent)
        ensures
            e.at == at,
            e.event == event,
    {
        TimeTaggedTrackEvent { at, event }
    }
}

/// The events recorded against one track, in the order they were recorded.
///
/// Recording order, not timestamp order, so a clock that jumps backwards
/// remains visible rather than being silently reordered.
#[derive(Debug, Clone, Default, PartialEq, Eq)]
pub struct TimeTaggedTrackEvents {
    events: Vec<TimeTaggedTrackEvent>,
}

impl View for TimeTaggedTrackEvents {
    type V = Seq<TimeTaggedTrackEvent>;

    closed spec fn view(&self) -> Seq<TimeTaggedTrackEvent> {
        self.events@
    }
}

/// A copy of a list of events.
pub fn copy_events(events: &Vec<TimeTaggedTrackEvent>) -> (copy: Vec<TimeTaggedTrackEvent>)
    ensures
        copy@ == events@,
{
    let mut copy: Vec<TimeTaggedTrackEvent> = Vec::new();
    let mut i: usize = 0;
    while i < events.len()
        invariant
            i <= events.len(),
            copy@ == events@.subrange(0, i as int),
        decreases events.len() - i,
    {
        copy.push(events[i]);
        i = i + 1;
        assert(copy@ =~= events@.subrange(0, i as int));
    }
    assert(events@.subrange(0, events.len() as int) =~= events@);
    copy
}

impl TimeTaggedTrackEvents {
    /// An empty collection.
    pub fn new() -> (events: TimeTaggedTrackEvents)
        ensures
            events@ == Seq::<TimeTaggedTrackEvent>::empty(),
    {
        TimeTaggedTrackEvents { events: Vec::new() }
    }

    /// A collection holding `events`, in order.
    pub fn from_vec(events: Vec<TimeTaggedTrackEvent>) -> (collection: TimeTaggedTrackEvents)
        ensures
            collection@ == events@,
    {
        TimeTaggedTrackEvents { events }
    }

    /// Appends an event recorded at `at`.
    pub fn record(&mut self, at: Time, event: AnyTrackEvent)
        ensures
            final(self)@ == old(self)@.push(TimeTaggedTrackEvent { at, event }),
    {
        self.events.push(TimeTaggedTrackEvent::new(at, event));
    }

    /// Appends every one of `more`, in order.
    pub fn extend_from(&mut self, more: Vec<TimeTaggedTrackEvent>)
        ensures
            final(self)@ == old(self)@ + more@,
    {
        let mut more = more;
        self.events.append(&mut more);
    }

    /// How many events are recorded.
    pub fn len(&self) -> (n: usize)
        ensures
            n == self@.len(),
    {
        self.events.len()
    }

    /// Whether no event is recorded.
    pub fn is_empty(&self) -> (b: bool)
        ensures
            b == (self@.len() == 0),
    {
        self.events.len() == 0
    }

    /// The event at `index`, in recording order.
    pub fn get(&self, index: usize) -> (e: TimeTaggedTrackEvent)
        requires
            index < self@.len(),
        ensures
            e == self@[index as int],
    {
        self.events[index]
    }

    /// The events, in the order they were recorded.
    pub fn iter(&self) -> (it: core::slice::Iter<'_, TimeTaggedTrackEvent>)
        ensures
            it.remaining().unref() == self@,
    {
        broadcast use vstd::std_specs::slice::axiom_spec_slice_iter;

        let it = self.events.as_slice().iter();
        assert(it.remaining().unref() =~= self@);
        it
    }

    /// The events as a slice.
    pub fn as_slice(&self) -> (s: &[TimeTaggedTrackEvent])
        ensures
            s@ == self@,
    {
        self.events.as_slice()
    }

    /// A copy of the events, in the order they were recorded.
    pub fn to_vec(&self) -> (events: Vec<TimeTaggedTrackEvent>)
        ensures
            events@ == self@,
    {
        copy_events(&self.events)
    }

    /// A copy of this collection.
    pub fn duplicate(&self) -> (copy: TimeTaggedTrackEvents)
        ensures
            copy@ == self@,
    {
        TimeTaggedTrackEvents { events: copy_events(&self.events) }
    }
}

impl IntoIterator for TimeTaggedTrackEvents {
    type Item = TimeTaggedTrackEvent;
    type IntoIter = std::vec::IntoIter<TimeTaggedTrackEvent>;

    fn into_iter(self) -> (it: std::vec::IntoIter<TimeTaggedTrackEvent>)
        ensures
            it.remaining() == self@,
    {
        broadcast use vstd::std_specs::vec::axiom_spec_into_iter;

        self.events.into_iter()
    }
}

impl<'collection> IntoIterator for &'collection TimeTaggedTrackEvents {
    type Item = &'collection TimeTaggedTrackEvent;
    type IntoIter = core::slice::Iter<'collection, TimeTaggedTrackEvent>;

    fn into_iter(self) -> (it: core::slice::Iter<'collection, TimeTaggedTrackEvent>)
        ensures
            it.remaining().unref() == self@,
    {
        self.iter()
    }
}

} // verus!
