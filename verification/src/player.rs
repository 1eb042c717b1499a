//! Driving the backend and recording the events that result.
//!
//! The player is stepped by its caller: `start` to begin, `poll` each turn,
//! `skip` on request, and `stop` to finish. Every event it records lands in
//! its library; persisting them is the caller's work, and
//! `has_unsaved_events` reports when there is something to save.
//!
//! A track that will not play is recorded and stepped past. Once every track
//! has failed without one playing, the player stalls rather than spinning,
//! and tries again only on the next skip.

use crate::backend::AudioBackend;
use crate::backend::BackendError;
use crate::error::Error;
use crate::library::Library;
use crate::selection;
use crate::selection::Shuffle;
use crate::time::Duration;
use crate::time::Time;
use crate::time::saturating_difference;
use crate::track::TrackId;
use crate::track_events::AnyTrackEvent;
use crate::track_events::PlaybackOutcome;
use crate::track_events::Skipped;
use crate::track_events::Stopped;
use crate::track_events::TimeTaggedTrackEvent;
use rand::rngs::Xoshiro256PlusPlus;
use vstd::prelude::*;

verus! {

broadcast use {crate::time::group_time, crate::track::lemma_track_id_eq};

/// The player's state, as the user interface needs it.
#[derive(Debug, Clone, PartialEq, Eq)]
pub enum ViewModel {
    /// A track is playing.
    Playing {
        /// The name to display.
        name: String,
        /// How long the track has been playing.
        elapsed: Duration,
    },
    /// The library holds no tracks.
    Empty,
    /// Every track was tried and none would play.
    Stalled,
}

/// The track playing and when it started.
#[derive(Debug, Clone, Copy, PartialEq, Eq, Structural)]
struct Playing {
    identifier: TrackId,
    started_at: Time,
}

/// Whether the shuffle may give `id` when asked with `failed` ruled out and
/// `just_played` the track before: the library holds it, it has not failed,
/// and it follows itself only when every other track has failed.
pub open spec fn drawable(library: Library, failed: Seq<TrackId>, just_played: Option<TrackId>, id: TrackId) -> bool {
    &&& library.ids().contains(id)
    &&& !failed.contains(id)
    &&& just_played == Some(id) ==> forall|j: int|
        0 <= j < library.ids().len() && #[trigger] library.ids()[j] != id ==> failed.contains(library.ids()[j])
}

/// Whether the shuffle gives nothing when asked with `failed` ruled out:
/// every track has failed.
pub open spec fn nothing_drawable(library: Library, failed: Seq<TrackId>) -> bool {
    forall|j: int| 0 <= j < library.ids().len() ==> failed.contains(#[trigger] library.ids()[j])
}

/// Whether `after` is `before` with `event` recorded against `id` at `at`.
pub open spec fn recorded(before: Library, after: Library, id: TrackId, at: Time, event: AnyTrackEvent) -> bool {
    &&& after.well_formed()
    &&& after.ids() == before.ids()
    &&& before.holds(id) ==> after.events_of(id) == before.events_of(id).push(
        TimeTaggedTrackEvent { at, event },
    )
    &&& forall|other: TrackId| other != id && before.holds(other) ==> #[trigger] after.events_of(other)
        == before.events_of(other)
    &&& forall|other: TrackId| before.holds(other) ==> #[trigger] after.path_of(other) == before.path_of(other)
    &&& forall|other: TrackId| #[trigger] after.name_of(other) == before.name_of(other)
}

/// The failed tracks after `id` ends with `outcome`: a finish forgets the
/// run of failures, and a failure joins it once.
pub open spec fn noted(failed: Seq<TrackId>, id: TrackId, outcome: PlaybackOutcome) -> Seq<TrackId> {
    if outcome is Finished {
        Seq::empty()
    } else if failed.contains(id) {
        failed
    } else {
        failed.push(id)
    }
}

/// Whether a step that started a track at `now` left `playing` as the
/// shuffle allows: a drawable track started at `now`, or nothing when
/// nothing was drawable.
pub open spec fn started_as_allowed(
    playing: Option<(TrackId, Time)>,
    library: Library,
    failed: Seq<TrackId>,
    just_played: Option<TrackId>,
    now: Time,
) -> bool {
    match playing {
        Some((id, at)) => at == now && drawable(library, failed, just_played, id),
        None => nothing_drawable(library, failed),
    }
}

/// A request the player made of its backend.
pub ghost enum Request {
    /// To play the file at this path.
    Play((bool, Seq<Seq<char>>)),
    /// To stop the current track.
    Stop,
    /// To report how the current track ended, if it has.
    Poll,
}

/// A library, a shuffle, and the backend playing them.
pub struct Player<Backend> {
    backend: Backend,
    library: Library,
    shuffle: Shuffle,
    playing: Option<Playing>,
    failed_tracks: Vec<TrackId>,
    unsaved_events: bool,
    requests: Ghost<Seq<Request>>,
}

impl<Backend: AudioBackend> Player<Backend> {
    /// The library, including everything recorded this session.
    pub closed spec fn library_spec(&self) -> Library {
        self.library
    }

    /// Every request made of the backend, in the order they were made.
    pub closed spec fn requests_spec(&self) -> Seq<Request> {
        self.requests@
    }

    /// The generator the next draw takes its randomness from.
    pub closed spec fn generator_spec(&self) -> Xoshiro256PlusPlus {
        self.shuffle.generator()
    }

    /// Whether `after` is what drawing the next track and asking the backend
    /// to play it leaves, when drawn from `library` with `failed` ruled out
    /// and `just_played` the track before, the generator at `generator`,
    /// `requests` made so far and `playing` what played before. The draw
    /// gives nothing exactly when every track has failed, and then: success,
    /// nothing playing and no request. Otherwise one
    /// request to play the drawn track's file and, on success, that track
    /// playing from `now`; on a backend error, what played before.
    pub open spec fn started_from(
        after: Self,
        library: Library,
        failed: Seq<TrackId>,
        just_played: Option<TrackId>,
        generator: Xoshiro256PlusPlus,
        requests: Seq<Request>,
        playing: Option<(TrackId, Time)>,
        now: Time,
        result: Result<(), Error>,
    ) -> bool {
        let (drawn, next) = selection::draw_spec(
            selection::evaluations_spec(library, now, failed, just_played),
            generator,
        );
        &&& after.generator_spec() == next
        &&& drawn is None <==> nothing_drawable(library, failed)
        &&& match drawn {
            None => {
                &&& result is Ok
                &&& after.playing_spec() is None
                &&& after.requests_spec() == requests
            },
            Some(id) => {
                &&& after.requests_spec() == requests.push(Request::Play(library.path_of(id)))
                &&& match result {
                    Ok(_) => after.playing_spec() == Some((id, now)),
                    Err(e) => e is Backend && after.playing_spec() == playing,
                }
            },
        }
    }

    /// The track playing and when it started, if any.
    pub closed spec fn playing_spec(&self) -> Option<(TrackId, Time)> {
        match self.playing {
            Some(p) => Some((p.identifier, p.started_at)),
            None => None,
        }
    }

    /// The tracks that failed during the current attempt to find one that
    /// plays.
    pub closed spec fn failed_spec(&self) -> Seq<TrackId> {
        self.failed_tracks@
    }

    /// Whether anything recorded has yet to reach the store.
    pub closed spec fn unsaved_spec(&self) -> bool {
        self.unsaved_events
    }

    /// The backend being driven.
    pub closed spec fn backend_spec(&self) -> Backend {
        self.backend
    }

    /// The player's library is well formed.
    pub open spec fn well_formed(&self) -> bool {
        self.library_spec().well_formed()
    }

    /// A player that has not started. Nothing plays until `start`.
    pub fn new(backend: Backend, library: Library, shuffle: Shuffle) -> (player: Self)
        requires
            library.well_formed(),
        ensures
            player.well_formed(),
            player.library_spec() == library,
            player.backend_spec() == backend,
            player.playing_spec() is None,
            player.failed_spec() == Seq::<TrackId>::empty(),
            !player.unsaved_spec(),
            player.requests_spec() == Seq::<Request>::empty(),
            player.generator_spec() == shuffle.generator(),
    {
        Player {
            backend,
            library,
            shuffle,
            playing: None,
            failed_tracks: Vec::new(),
            unsaved_events: false,
            requests: Ghost(Seq::empty()),
        }
    }

    /// Draws a track and starts playing it. An error if the backend is
    /// unusable, and then whatever was playing is left as it was.
    pub fn start(&mut self, now: Time) -> (result: Result<(), Error>)
        requires
            old(self).well_formed(),
        ensures
            final(self).well_formed(),
            final(self).library_spec() == old(self).library_spec(),
            final(self).unsaved_spec() == old(self).unsaved_spec(),
            final(self).failed_spec() == Seq::<TrackId>::empty(),
            result is Ok ==> started_as_allowed(
                final(self).playing_spec(),
                old(self).library_spec(),
                Seq::empty(),
                None,
                now,
            ),
            result matches Err(e) ==> e is Backend && final(self).playing_spec() == old(self).playing_spec(),
            Self::started_from(
                *final(self),
                old(self).library_spec(),
                Seq::empty(),
                None,
                old(self).generator_spec(),
                old(self).requests_spec(),
                old(self).playing_spec(),
                now,
                result,
            ),
    {
        self.failed_tracks.clear();
        self.advance(now, None)
    }

    /// What a skip leaves behind, from the player `before` to the player
    /// `after`, given what it returned: with nothing playing it starts
    /// afresh; otherwise a backend that cannot be stopped leaves nothing
    /// playing and nothing recorded, and one that can has the skip recorded
    /// against the track, for as long as it had played, and another track
    /// started, the same one only when the library holds no other.
    pub open spec fn skip_outcome(before: Self, after: Self, now: Time, result: Result<(), Error>) -> bool {
        &&& before.playing_spec() is None ==> {
            &&& after.library_spec() == before.library_spec()
            &&& after.unsaved_spec() == before.unsaved_spec()
            &&& after.failed_spec() == Seq::<TrackId>::empty()
            &&& result is Ok ==> started_as_allowed(
                after.playing_spec(),
                before.library_spec(),
                Seq::empty(),
                None,
                now,
            )
            &&& result matches Err(e) ==> e is Backend && after.playing_spec() is None
            &&& Self::started_from(
                after,
                before.library_spec(),
                Seq::empty(),
                None,
                before.generator_spec(),
                before.requests_spec(),
                None,
                now,
                result,
            )
        }
        &&& before.playing_spec() matches Some((id, started)) ==> {
            ||| {
                &&& result matches Err(e) && e is Backend
                &&& after.library_spec() == before.library_spec()
                &&& after.unsaved_spec() == before.unsaved_spec()
                &&& after.failed_spec() == before.failed_spec()
                &&& after.playing_spec() is None
                &&& after.requests_spec() == before.requests_spec().push(Request::Stop)
                &&& after.generator_spec() == before.generator_spec()
            }
            ||| {
                &&& recorded(
                    before.library_spec(),
                    after.library_spec(),
                    id,
                    now,
                    AnyTrackEvent::Skipped(
                        Skipped { listened_for: Duration::of_millis(
                            saturating_difference(now.millis() as int, started.millis() as int),
                        ) },
                    ),
                )
                &&& after.unsaved_spec()
                &&& after.failed_spec() == Seq::<TrackId>::empty()
                &&& result is Ok ==> started_as_allowed(
                    after.playing_spec(),
                    after.library_spec(),
                    Seq::empty(),
                    Some(id),
                    now,
                )
                &&& result matches Err(e) ==> e is Backend && after.playing_spec() is None
                &&& Self::started_from(
                    after,
                    after.library_spec(),
                    Seq::empty(),
                    Some(id),
                    before.generator_spec(),
                    before.requests_spec().push(Request::Stop),
                    None,
                    now,
                    result,
                )
            }
        }
        &&& result is Ok ==> match (before.playing_spec(), after.playing_spec()) {
            (Some((id, _)), Some((next, _))) => next == id ==> forall|j: int|
                0 <= j < before.library_spec().ids().len()
                    ==> #[trigger] before.library_spec().ids()[j] == id,
            _ => true,
        }
    }

    /// Records a skip against the current track, for as long as it had
    /// played, and moves to another. With nothing playing, starts afresh.
    ///
    /// A track moved on from this way is followed by itself only when the
    /// library holds no other track. An error if the backend is unusable;
    /// a backend that cannot be stopped leaves nothing playing and nothing
    /// recorded.
    pub fn skip(&mut self, now: Time) -> (result: Result<(), Error>)
        requires
            old(self).well_formed(),
        ensures
            final(self).well_formed(),
            Self::skip_outcome(*old(self), *final(self), now, result),
    {
        match self.playing.take() {
            None => {
                self.failed_tracks.clear();
                self.advance(now, None)
            },
            Some(playing) => {
                self.requests = Ghost(self.requests@.push(Request::Stop));
                match self.backend.stop() {
                    Err(source) => Err(Error::Backend { source }),
                    Ok(()) => {
                        let listened_for = now.duration_since(playing.started_at);
                        self.record(playing.identifier, now, AnyTrackEvent::Skipped(Skipped::new(listened_for)));
                        self.failed_tracks.clear();
                        self.advance(now, Some(playing.identifier))
                    },
                }
            },
        }
    }

    /// Polls the backend and acts on what it reports, as `take_polled`
    /// describes for each answer a backend may give.
    pub fn poll(&mut self, now: Time) -> (result: Result<(), Error>)
        requires
            old(self).well_formed(),
        ensures
            final(self).well_formed(),
            exists|polled: Result<Option<PlaybackOutcome>, BackendError>| #[trigger] Self::polled_outcome(
                *old(self),
                *final(self),
                now,
                polled,
                old(self).requests_spec().push(Request::Poll),
                result,
            ),
    {
        self.requests = Ghost(self.requests@.push(Request::Poll));
        let polled = self.backend.poll_event();
        let ghost answer = polled;
        let ghost asked = *self;
        assert(asked.library_spec() == old(self).library_spec());
        assert(asked.unsaved_spec() == old(self).unsaved_spec());
        assert(asked.failed_spec() == old(self).failed_spec());
        assert(asked.playing_spec() == old(self).playing_spec());
        let result = self.take_polled(now, polled);
        assert(asked.generator_spec() == old(self).generator_spec());
        assert(asked.requests_spec() == old(self).requests_spec().push(Request::Poll));
        assert(Self::polled_outcome(asked, *self, now, answer, asked.requests_spec(), result));
        assert(Self::polled_outcome(*old(self), *self, now, answer, asked.requests_spec(), result));
        result
    }

    /// What acting on an answer from the backend leaves behind, from the
    /// player `before` to the player `after`, given what it returned: a
    /// backend error is returned with nothing changed; no outcome yet
    /// changes nothing; an outcome ends the current track as `ended_with`
    /// describes.
    pub open spec fn polled_outcome(
        before: Self,
        after: Self,
        now: Time,
        polled: Result<Option<PlaybackOutcome>, BackendError>,
        requests: Seq<Request>,
        result: Result<(), Error>,
    ) -> bool {
        match polled {
            Err(source) => {
                &&& result == Err::<(), Error>(Error::Backend { source })
                &&& after.library_spec() == before.library_spec()
                &&& after.unsaved_spec() == before.unsaved_spec()
                &&& after.failed_spec() == before.failed_spec()
                &&& after.playing_spec() == before.playing_spec()
                &&& after.requests_spec() == requests
                &&& after.generator_spec() == before.generator_spec()
            },
            Ok(None) => {
                &&& result is Ok
                &&& after.library_spec() == before.library_spec()
                &&& after.unsaved_spec() == before.unsaved_spec()
                &&& after.failed_spec() == before.failed_spec()
                &&& after.playing_spec() == before.playing_spec()
                &&& after.requests_spec() == requests
                &&& after.generator_spec() == before.generator_spec()
            },
            Ok(Some(outcome)) => Self::ended_with(before, after, now, outcome, requests, result),
        }
    }

    /// Acts on what polling the backend gave. An outcome is recorded against
    /// the track that was playing and noted among the run of failures; then,
    /// unless every track has now failed, another track is started. Nothing
    /// changes while the current track is still playing. A backend error is
    /// returned as the player's own.
    pub fn take_polled(&mut self, now: Time, polled: Result<Option<PlaybackOutcome>, BackendError>) -> (result: Result<(), Error>)
        requires
            old(self).well_formed(),
        ensures
            final(self).well_formed(),
            Self::polled_outcome(*old(self), *final(self), now, polled, old(self).requests_spec(), result),
    {
        let polled = match polled {
            Err(source) => {
                return Err(Error::Backend { source });
            },
            Ok(polled) => polled,
        };
        let outcome = match polled {
            None => {
                return Ok(());
            },
            Some(outcome) => outcome,
        };
        let ghost before = *self;
        let ended = self.playing.take();
        let just_played = match ended {
            Some(playing) => {
                self.record(playing.identifier, now, AnyTrackEvent::PlaybackOutcome(outcome));
                self.note_outcome(playing.identifier, outcome);
                Some(playing.identifier)
            },
            None => None,
        };
        if self.has_stalled() {
            assert(Self::ended_with(before, *self, now, outcome, old(self).requests_spec(), Ok(())));
            assert(Self::ended_with(*old(self), *self, now, outcome, old(self).requests_spec(), Ok(())));
            return Ok(());
        }
        let result = self.advance(now, just_played);
        assert(Self::ended_with(before, *self, now, outcome, old(self).requests_spec(), result));
        assert(Self::ended_with(*old(self), *self, now, outcome, old(self).requests_spec(), result));
        result
    }

    /// Whether `after` is `before` once the backend reported `outcome`: the
    /// outcome recorded against the track that was playing and noted among
    /// the failures, then either a stall, when the failures cover the
    /// library, or another track started as the shuffle allows.
    pub open spec fn ended_with(
        before: Self,
        after: Self,
        now: Time,
        outcome: PlaybackOutcome,
        requests: Seq<Request>,
        result: Result<(), Error>,
    ) -> bool {
        let failed = match before.playing_spec() {
            Some((id, _)) => noted(before.failed_spec(), id, outcome),
            None => before.failed_spec(),
        };
        let just_played = match before.playing_spec() {
            Some((id, _)) => Some(id),
            None => None,
        };
        &&& match before.playing_spec() {
            Some((id, _)) => {
                &&& recorded(before.library_spec(), after.library_spec(), id, now, AnyTrackEvent::PlaybackOutcome(outcome))
                &&& after.unsaved_spec()
            },
            None => {
                &&& after.library_spec() == before.library_spec()
                &&& after.unsaved_spec() == before.unsaved_spec()
            },
        }
        &&& after.failed_spec() == failed
        &&& if failed.len() >= before.library_spec().ids().len() {
            &&& result is Ok
            &&& after.playing_spec() is None
            &&& after.requests_spec() == requests
            &&& after.generator_spec() == before.generator_spec()
        } else {
            &&& result is Ok ==> started_as_allowed(after.playing_spec(), after.library_spec(), failed, just_played, now)
            &&& result matches Err(e) ==> e is Backend && after.playing_spec() is None
            &&& Self::started_from(
                after,
                after.library_spec(),
                failed,
                just_played,
                before.generator_spec(),
                requests,
                None,
                now,
                result,
            )
        }
    }

    /// Stops playing, recording against the current track that the listener
    /// left, and for how long it had played. An error if the backend cannot
    /// be stopped; nothing plays afterwards either way.
    pub fn stop(&mut self, now: Time) -> (result: Result<(), Error>)
        requires
            old(self).well_formed(),
        ensures
            final(self).well_formed(),
            final(self).playing_spec() is None,
            final(self).failed_spec() == old(self).failed_spec(),
            result matches Err(e) ==> e is Backend,
            old(self).playing_spec() is None ==> final(self).library_spec() == old(self).library_spec()
                && final(self).unsaved_spec() == old(self).unsaved_spec(),
            old(self).playing_spec() matches Some((id, started)) ==> recorded(
                old(self).library_spec(),
                final(self).library_spec(),
                id,
                now,
                AnyTrackEvent::Stopped(
                    Stopped { listened_for: Duration::of_millis(
                        saturating_difference(now.millis() as int, started.millis() as int),
                    ) },
                ),
            ) && final(self).unsaved_spec(),
            final(self).requests_spec() == old(self).requests_spec().push(Request::Stop),
            final(self).generator_spec() == old(self).generator_spec(),
    {
        match self.playing.take() {
            Some(playing) => {
                let listened_for = now.duration_since(playing.started_at);
                self.record(playing.identifier, now, AnyTrackEvent::Stopped(Stopped::new(listened_for)));
            },
            None => {},
        }
        self.requests = Ghost(self.requests@.push(Request::Stop));
        match self.backend.stop() {
            Ok(()) => Ok(()),
            Err(source) => Err(Error::Backend { source }),
        }
    }

    /// The player's state as of `now`: `Empty` for an empty library, the
    /// name and elapsed time of the track playing, or `Stalled` when nothing
    /// plays.
    pub fn view(&self, now: Time) -> (view: ViewModel)
        requires
            self.well_formed(),
        ensures
            self.library_spec().ids().len() == 0 ==> view is Empty,
            self.library_spec().ids().len() > 0 ==> match self.playing_spec() {
                Some((id, started)) => match self.library_spec().name_of(id) {
                    Some(name) => view matches ViewModel::Playing { name: shown, elapsed }
                        && shown@ == name@ && elapsed.millis() == saturating_difference(
                        now.millis() as int,
                        started.millis() as int,
                    ),
                    None => view is Stalled,
                },
                None => view is Stalled,
            },
    {
        if self.library.is_empty() {
            return ViewModel::Empty;
        }
        match self.playing {
            Some(playing) => match self.library.name(playing.identifier) {
                Some(name) => ViewModel::Playing {
                    name: name.to_string(),
                    elapsed: now.duration_since(playing.started_at),
                },
                None => ViewModel::Stalled,
            },
            None => ViewModel::Stalled,
        }
    }

    /// The backend being driven, for inspecting what it was asked.
    pub fn backend(&self) -> (backend: &Backend)
        ensures
            *backend == self.backend_spec(),
    {
        &self.backend
    }

    /// The backend being driven, for arranging what it reports.
    pub fn backend_mut(&mut self) -> (backend: &mut Backend)
        ensures
            *backend == old(self).backend_spec(),
            final(self).backend_spec() == *final(backend),
            final(self).library_spec() == old(self).library_spec(),
            final(self).playing_spec() == old(self).playing_spec(),
            final(self).failed_spec() == old(self).failed_spec(),
            final(self).unsaved_spec() == old(self).unsaved_spec(),
            final(self).requests_spec() == old(self).requests_spec(),
            final(self).generator_spec() == old(self).generator_spec(),
    {
        &mut self.backend
    }

    /// The library, including everything recorded this session.
    pub fn library(&self) -> (library: &Library)
        ensures
            *library == self.library_spec(),
    {
        &self.library
    }

    /// Whether anything recorded has yet to reach the store.
    pub fn has_unsaved_events(&self) -> (unsaved: bool)
        ensures
            unsaved == self.unsaved_spec(),
    {
        self.unsaved_events
    }

    /// Records that everything recorded so far has reached the store.
    pub fn mark_saved(&mut self)
        ensures
            !final(self).unsaved_spec(),
            final(self).library_spec() == old(self).library_spec(),
            final(self).playing_spec() == old(self).playing_spec(),
            final(self).failed_spec() == old(self).failed_spec(),
            final(self).requests_spec() == old(self).requests_spec(),
            final(self).generator_spec() == old(self).generator_spec(),
    {
        self.unsaved_events = false;
    }

    /// Records `event` against `identifier` at `at`, and notes that there is
    /// something to save.
    fn record(&mut self, identifier: TrackId, at: Time, event: AnyTrackEvent)
        requires
            old(self).well_formed(),
        ensures
            final(self).well_formed(),
            recorded(old(self).library_spec(), final(self).library_spec(), identifier, at, event),
            final(self).unsaved_spec(),
            final(self).playing == old(self).playing,
            final(self).failed_spec() == old(self).failed_spec(),
            final(self).requests == old(self).requests,
            final(self).shuffle == old(self).shuffle,
    {
        self.library.record(identifier, at, event);
        self.unsaved_events = true;
    }

    /// Notes how `identifier` ended among the run of failures.
    fn note_outcome(&mut self, identifier: TrackId, outcome: PlaybackOutcome)
        ensures
            final(self).failed_spec() == noted(old(self).failed_spec(), identifier, outcome),
            final(self).library == old(self).library,
            final(self).playing == old(self).playing,
            final(self).unsaved_events == old(self).unsaved_events,
            final(self).requests == old(self).requests,
            final(self).shuffle == old(self).shuffle,
    {
        if outcome.is_finished() {
            self.failed_tracks.clear();
        } else if !selection::holds(self.failed_tracks.as_slice(), identifier) {
            self.failed_tracks.push(identifier);
        }
    }

    /// Whether every track has failed without one playing.
    fn has_stalled(&self) -> (stalled: bool)
        requires
            self.well_formed(),
        ensures
            stalled == (self.failed_spec().len() >= self.library_spec().ids().len()),
    {
        self.failed_tracks.len() >= self.library.len()
    }

    /// Draws and starts the next track, avoiding `just_played` where
    /// possible. Leaves nothing playing if the draw comes up empty. An error
    /// if the backend is unusable, and then what was playing is left as it
    /// was.
    fn advance(&mut self, now: Time, just_played: Option<TrackId>) -> (result: Result<(), Error>)
        requires
            old(self).well_formed(),
        ensures
            final(self).well_formed(),
            final(self).library == old(self).library,
            final(self).failed_tracks@ == old(self).failed_tracks@,
            final(self).unsaved_events == old(self).unsaved_events,
            result is Ok ==> started_as_allowed(
                final(self).playing_spec(),
                old(self).library_spec(),
                old(self).failed_spec(),
                just_played,
                now,
            ),
            result matches Err(e) ==> e is Backend && final(self).playing == old(self).playing,
            Self::started_from(
                *final(self),
                old(self).library_spec(),
                old(self).failed_spec(),
                just_played,
                old(self).generator_spec(),
                old(self).requests_spec(),
                old(self).playing_spec(),
                now,
                result,
            ),
    {
        let drawn = self.shuffle.next_track_excluding(
            &self.library,
            just_played,
            now,
            self.failed_tracks.as_slice(),
        );
        let identifier = match drawn {
            None => {
                self.playing = None;
                return Ok(());
            },
            Some(identifier) => identifier,
        };
        let path = match self.library.path(identifier) {
            None => {
                self.playing = None;
                return Ok(());
            },
            Some(path) => path.duplicate(),
        };
        self.requests = Ghost(self.requests@.push(Request::Play(path@)));
        match self.backend.play(&path) {
            Err(source) => Err(Error::Backend { source }),
            Ok(()) => {
                self.playing = Some(Playing { identifier, started_at: now });
                Ok(())
            },
        }
    }
}

} // verus!
