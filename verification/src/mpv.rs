//! What an mpv process is asked to do, and what its exit amounts to.
//!
//! One mpv process is run per track. When it exits on its own, the track is
//! over: its exit status, together with anything it wrote to standard error,
//! becomes a `PlaybackOutcome`, as `classify_exit` decides.

use crate::text;
use crate::text::contains_text;
use crate::track_events::PlaybackOutcome;
use crate::track_events::TrackFailure;
use vstd::prelude::*;

verus! {

/// The program searched for on `PATH` when none is given.
pub const DEFAULT_PROGRAM: &'static str = "mpv";

/// The arguments every track is played with: no video, no terminal input, no
/// user configuration, errors only, and a trailing `--` so that a track named
/// like a flag is still playable.
pub const ARGUMENTS: [&'static str; 5] = [
    "--no-video",
    "--no-input-terminal",
    "--no-config",
    "--msg-level=all=error",
    "--",
];

/// What mpv writes when it cannot make sense of a file's format.
pub const UNSUPPORTED_FORMAT_SIGNS: [&'static str; 3] = [
    "recognize file format",
    "No audio or video streams",
    "Unrecognized file format",
];

/// What mpv writes when a file is not there to open.
pub const FILE_NOT_FOUND_SIGNS: [&'static str; 3] = ["No such file", "does not exist", "Failed to open"];

/// What mpv writes when it fails while decoding.
pub const DECODER_ERROR_SIGNS: [&'static str; 3] = [
    "Could not open codec",
    "Failed to initialize a decoder",
    "Error decoding",
];

/// What mpv writes when it cannot play anything at all.
pub const BACKEND_EXITED_SIGNS: [&'static str; 1] = ["Could not open/initialize audio device"];

/// Whether `diagnostics` mention any of `signs`.
pub open spec fn mentions(diagnostics: Seq<char>, signs: Seq<&str>) -> bool {
    exists|i: int| 0 <= i < signs.len() && contains_text(diagnostics, (#[trigger] signs[i])@)
}

/// The failure diagnostics name, the most specific first: a file mpv cannot
/// parse produces complaints about both opening the file and its format, and
/// the format is the more informative of the two.
pub open spec fn reported_spec(diagnostics: Seq<char>) -> Option<TrackFailure> {
    if mentions(diagnostics, UNSUPPORTED_FORMAT_SIGNS@) {
        Some(TrackFailure::UnsupportedFormat)
    } else if mentions(diagnostics, FILE_NOT_FOUND_SIGNS@) {
        Some(TrackFailure::FileNotFound)
    } else if mentions(diagnostics, DECODER_ERROR_SIGNS@) {
        Some(TrackFailure::DecoderError)
    } else if mentions(diagnostics, BACKEND_EXITED_SIGNS@) {
        Some(TrackFailure::BackendExited)
    } else {
        None
    }
}

/// The outcome an exit status and its diagnostics amount to. A clean exit
/// is a finish, whatever was written. Otherwise the diagnostics decide; when
/// they name no failure, the exit status does: 2 is a missing file, 3 a
/// decoder failure, and anything else, a killed process among them, the
/// backend giving up.
pub open spec fn classify_spec(code: Option<i32>, diagnostics: Seq<char>) -> PlaybackOutcome {
    if code == Some(0i32) {
        PlaybackOutcome::Finished
    } else {
        match reported_spec(diagnostics) {
            Some(failure) => PlaybackOutcome::Failed(failure),
            None => match code {
                Some(2i32) => PlaybackOutcome::Failed(TrackFailure::FileNotFound),
                Some(3i32) => PlaybackOutcome::Failed(TrackFailure::DecoderError),
                _ => PlaybackOutcome::Failed(TrackFailure::BackendExited),
            },
        }
    }
}

/// Whether `diagnostics` mention any of `signs`.
pub fn mentions_any(diagnostics: &str, signs: &[&str]) -> (b: bool)
    ensures
        b == mentions(diagnostics@, signs@),
{
    let mut i: usize = 0;
    while i < signs.len()
        invariant
            i <= signs@.len(),
            forall|k: int| 0 <= k < i ==> !contains_text(diagnostics@, (#[trigger] signs@[k])@),
        decreases signs.len() - i,
    {
        if text::contains_str(diagnostics, signs[i]) {
            return true;
        }
        i = i + 1;
    }
    false
}

/// The failure `diagnostics` name, or `None` if they name none.
pub fn reported_failure(diagnostics: &str) -> (failure: Option<TrackFailure>)
    ensures
        failure == reported_spec(diagnostics@),
{
    if mentions_any(diagnostics, UNSUPPORTED_FORMAT_SIGNS.as_slice()) {
        Some(TrackFailure::UnsupportedFormat)
    } else if mentions_any(diagnostics, FILE_NOT_FOUND_SIGNS.as_slice()) {
        Some(TrackFailure::FileNotFound)
    } else if mentions_any(diagnostics, DECODER_ERROR_SIGNS.as_slice()) {
        Some(TrackFailure::DecoderError)
    } else if mentions_any(diagnostics, BACKEND_EXITED_SIGNS.as_slice()) {
        Some(TrackFailure::BackendExited)
    } else {
        None
    }
}

/// The outcome an exit status and its diagnostics amount to, as
/// `classify_spec` says.
pub fn classify_exit(code: Option<i32>, diagnostics: &str) -> (outcome: PlaybackOutcome)
    ensures
        outcome == classify_spec(code, diagnostics@),
{
    if code == Some(0i32) {
        return PlaybackOutcome::Finished;
    }
    match reported_failure(diagnostics) {
        Some(failure) => PlaybackOutcome::Failed(failure),
        None => match code {
            Some(2i32) => PlaybackOutcome::Failed(TrackFailure::FileNotFound),
            Some(3i32) => PlaybackOutcome::Failed(TrackFailure::DecoderError),
            _ => PlaybackOutcome::Failed(TrackFailure::BackendExited),
        },
    }
}

/// Only a clean exit is a finish.
pub proof fn lemma_only_a_clean_exit_finishes(code: Option<i32>, diagnostics: Seq<char>)
    ensures
        (classify_spec(code, diagnostics) is Finished) <==> code == Some(0i32),
{
}

} // verus!
