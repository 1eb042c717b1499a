//! The interface between the player and the program that produces sound.
//!
//! `AudioBackend` is the trait an implementation provides. `BackendError`
//! reports that the backend as a whole is unusable, as distinct from a single
//! track that will not play.

use crate::path::FsPath;
use crate::text;
use crate::track_events::PlaybackOutcome;
use vstd::prelude::*;

verus! {

/// The backend is unusable, so nothing will play: the program is missing,
/// failed to start, or stopped responding.
///
/// A single track that will not play is not one of these: that is a failed
/// `PlaybackOutcome`. The distinction determines what the caller does next:
/// move on to another track, or give up.
///
/// Each variant names the request that failed and keeps a description of its
/// cause.
#[derive(Debug)]
pub enum BackendError {
    /// The backend could not be started, so nothing has played.
    Unavailable {
        /// What was attempted and how it failed.
        cause: String,
    },
    /// The backend could not be asked to play a track.
    Play {
        /// The track that was requested.
        path: FsPath,
        /// What went wrong.
        cause: String,
    },
    /// The current track could not be stopped.
    Stop {
        /// What went wrong.
        cause: String,
    },
    /// The backend could not be polled for the state of the current track.
    Poll {
        /// What went wrong.
        cause: String,
    },
}

impl BackendError {
    /// A `BackendError::Unavailable` with `cause`.
    pub fn unavailable(cause: String) -> (e: BackendError)
        ensures
            e matches BackendError::Unavailable { cause: c } && c@ == cause@,
    {
        BackendError::Unavailable { cause }
    }

    /// A `BackendError::Play` for `path`, with `cause`.
    pub fn play(path: FsPath, cause: String) -> (e: BackendError)
        ensures
            e matches BackendError::Play { path: p, cause: c } && p@ == path@ && c@ == cause@,
    {
        BackendError::Play { path, cause }
    }

    /// A `BackendError::Stop` with `cause`.
    pub fn stop(cause: String) -> (e: BackendError)
        ensures
            e matches BackendError::Stop { cause: c } && c@ == cause@,
    {
        BackendError::Stop { cause }
    }

    /// A `BackendError::Poll` with `cause`.
    pub fn poll(cause: String) -> (e: BackendError)
        ensures
            e matches BackendError::Poll { cause: c } && c@ == cause@,
    {
        BackendError::Poll { cause }
    }

    /// What the error says: the request that failed, then its cause.
    pub fn to_string(&self) -> (s: String)
        ensures
            s@ == self.message(),
    {
        let mut s = String::new();
        match self {
            BackendError::Unavailable { cause } => {
                text::append(&mut s, "the audio backend is unavailable: ");
                text::append(&mut s, cause.as_str());
            },
            BackendError::Play { path, cause } => {
                text::append(&mut s, "the audio backend could not be asked to play `");
                let shown = path.to_string();
                text::append(&mut s, shown.as_str());
                text::append(&mut s, "`: ");
                text::append(&mut s, cause.as_str());
            },
            BackendError::Stop { cause } => {
                text::append(&mut s, "the audio backend could not be stopped: ");
                text::append(&mut s, cause.as_str());
            },
            BackendError::Poll { cause } => {
                text::append(&mut s, "the audio backend could not be asked for its state: ");
                text::append(&mut s, cause.as_str());
            },
        }
        s
    }

    /// The text `to_string` gives.
    pub open spec fn message(&self) -> Seq<char> {
        match self {
            BackendError::Unavailable { cause } => "the audio backend is unavailable: "@ + cause@,
            BackendError::Play { path, cause } => "the audio backend could not be asked to play `"@
                + crate::path::path_text(path@) + "`: "@ + cause@,
            BackendError::Stop { cause } => "the audio backend could not be stopped: "@ + cause@,
            BackendError::Poll { cause } => "the audio backend could not be asked for its state: "@
                + cause@,
        }
    }
}

/// A program that plays one track at a time.
///
/// Driven from a single thread: `play`, then `poll_event` until an outcome
/// arrives, or `stop` if the listener moves on first.
///
/// A track that will not play is not an error: the backend works, this track
/// does not. Report it from `poll_event` as a failed `PlaybackOutcome`, and
/// the caller records it and moves on. Return a `BackendError` only when the
/// backend itself is unusable: a track failure while a retry might succeed,
/// a `BackendError` once none can.
///
/// Nothing is promised of what an implementation returns: the player is
/// verified against every answer a backend may give.
pub trait AudioBackend {
    /// Starts playing `path`, replacing whatever was playing. An error only
    /// when the backend is unusable.
    fn play(&mut self, path: &FsPath) -> Result<(), BackendError>;

    /// Stops the current track without producing an outcome. An error only
    /// when the backend is unusable.
    fn stop(&mut self) -> Result<(), BackendError>;

    /// The outcome of the current track, once there is one. Does not block:
    /// `None` while the track plays, and after its outcome has been reported
    /// once.
    fn poll_event(&mut self) -> Result<Option<PlaybackOutcome>, BackendError>;
}

} // verus!
