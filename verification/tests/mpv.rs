use jive::mpv::ARGUMENTS;
use jive::mpv::DEFAULT_PROGRAM;
use jive::mpv::classify_exit;
use jive::mpv::reported_failure;
use jive::track_events::PlaybackOutcome;
use jive::track_events::TrackFailure;

const GENERAL_FAILURE: i32 = 1;
const NOTHING_TO_PLAY: i32 = 2;
const NOTHING_PLAYED: i32 = 3;

fn outcome_of(code: i32, diagnostics: &str) -> PlaybackOutcome {
    classify_exit(Some(code), diagnostics)
}

fn failure_of(code: i32, diagnostics: &str) -> Option<TrackFailure> {
    outcome_of(code, diagnostics).failure()
}

#[test]
fn a_process_that_was_killed_means_the_backend_gave_up() {
    assert_eq!(classify_exit(None, "").failure(), Some(TrackFailure::BackendExited));
}

#[test]
fn every_way_a_track_can_fail_is_a_failure_rather_than_a_finish() {
    for (code, diagnostics) in [
        (GENERAL_FAILURE, ""),
        (NOTHING_TO_PLAY, ""),
        (NOTHING_PLAYED, ""),
        (NOTHING_PLAYED, "Failed to recognize file format."),
    ] {
        assert!(!outcome_of(code, diagnostics).is_finished());
    }
}

#[test]
fn mpv_is_asked_for_by_name_and_kept_out_of_the_way() {
    assert_eq!(DEFAULT_PROGRAM, "mpv");
    for argument in ["--no-video", "--no-input-terminal", "--no-config"] {
        assert!(ARGUMENTS.contains(&argument), "{argument} should be passed");
    }
    assert_eq!(ARGUMENTS.last(), Some(&"--"), "a track named like a flag must still be playable");
}

#[test]
fn a_clean_exit_is_a_finish_whatever_was_written() {
    assert_eq!(outcome_of(0, "Error decoding everything"), PlaybackOutcome::Finished);
}

#[test]
fn the_format_is_the_more_informative_complaint() {
    assert_eq!(
        failure_of(GENERAL_FAILURE, "Failed to open x.mp3.\nFailed to recognize file format."),
        Some(TrackFailure::UnsupportedFormat)
    );
}

#[test]
fn the_exit_status_decides_when_the_diagnostics_name_nothing() {
    assert_eq!(failure_of(NOTHING_TO_PLAY, "something odd"), Some(TrackFailure::FileNotFound));
    assert_eq!(failure_of(NOTHING_PLAYED, ""), Some(TrackFailure::DecoderError));
    assert_eq!(failure_of(GENERAL_FAILURE, ""), Some(TrackFailure::BackendExited));
}

#[test]
fn each_complaint_names_its_failure() {
    assert_eq!(reported_failure("No such file or directory"), Some(TrackFailure::FileNotFound));
    assert_eq!(reported_failure("Could not open codec."), Some(TrackFailure::DecoderError));
    assert_eq!(
        reported_failure("Could not open/initialize audio device -> no sound."),
        Some(TrackFailure::BackendExited)
    );
    assert_eq!(reported_failure("all is well"), None);
}
