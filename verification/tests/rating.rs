use jive::Duration;
use jive::Time;
use jive::rating::Evidence;
use jive::rating::MAXIMUM_PREFERENCE;
use jive::rating::MINIMUM_PREFERENCE;
use jive::rating::MINIMUM_RELIABILITY;
use jive::rating::ONE;
use jive::rating::STARTING_PREFERENCE;
use jive::rating::evidence_of;
use jive::rating::preference;
use jive::rating::quick_skip_threshold;
use jive::rating::reliability;
use jive::track_events::AnyTrackEvent;
use jive::track_events::PlaybackOutcome;
use jive::track_events::Skipped;
use jive::track_events::Stopped;
use jive::track_events::TimeTaggedTrackEvent;
use jive::track_events::TimeTaggedTrackEvents;
use jive::track_events::TrackFailure;

fn finished() -> AnyTrackEvent {
    AnyTrackEvent::from(PlaybackOutcome::Finished)
}

fn failed() -> AnyTrackEvent {
    AnyTrackEvent::from(PlaybackOutcome::from(TrackFailure::DecoderError))
}

fn skip_after(seconds: u64) -> AnyTrackEvent {
    AnyTrackEvent::from(Skipped::new(Duration::from_seconds(seconds)))
}

fn quick_skip() -> AnyTrackEvent {
    skip_after(2)
}

fn repeated(event: &AnyTrackEvent, times: usize) -> Vec<AnyTrackEvent> {
    std::iter::repeat_n(*event, times).collect()
}

fn evidence(events: Vec<AnyTrackEvent>) -> Evidence {
    let tagged = events
        .into_iter()
        .map(|event| TimeTaggedTrackEvent::new(Time::epoch(), event))
        .collect();
    evidence_of(&TimeTaggedTrackEvents::from_vec(tagged))
}

fn preference_after(event: &AnyTrackEvent, times: usize) -> u64 {
    preference(evidence(repeated(event, times))).billionths
}

fn reliability_after(event: &AnyTrackEvent, times: usize) -> u64 {
    reliability(evidence(repeated(event, times))).billionths
}

#[test]
fn preference_moves_only_on_what_the_listener_decided() {
    assert!(preference_after(&finished(), 1) > ONE, "a finish");
    assert!(preference_after(&quick_skip(), 1) < ONE, "a quick skip");
    assert_eq!(preference_after(&skip_after(15), 1), ONE, "a late skip");
    assert_eq!(preference_after(&failed(), 1), ONE, "a failure");
}

#[test]
fn a_rating_never_runs_past_its_bounds() {
    assert_eq!(preference_after(&finished(), 10_000), MAXIMUM_PREFERENCE);
    assert_eq!(preference_after(&quick_skip(), 10_000), MINIMUM_PREFERENCE);
    assert_eq!(reliability_after(&failed(), 10_000), MINIMUM_RELIABILITY);
}

#[test]
fn finishes_rehabilitate_a_track_that_kept_failing() {
    let broken = reliability_after(&failed(), 20);
    let recovered = reliability(evidence(
        [repeated(&failed(), 20), repeated(&finished(), 20)].concat(),
    ))
    .billionths;
    assert!(broken < recovered, "{broken} should be worse than {recovered}");
}

#[test]
fn equal_extra_evidence_has_a_diminishing_effect() {
    let after_ten = preference_after(&quick_skip(), 10);
    let first = ONE - after_ten;
    let second = after_ten - preference_after(&quick_skip(), 20);
    assert!(second < first, "{second} should be smaller than {first}");
}

#[test]
fn nothing_recorded_is_the_starting_preference_and_full_reliability() {
    assert_eq!(preference(Evidence::default()).billionths, STARTING_PREFERENCE);
    assert_eq!(reliability(Evidence::default()).billionths, ONE);
}

#[test]
fn one_finish_and_one_quick_skip_are_exact_ratios() {
    assert_eq!(preference_after(&finished(), 1), 1_100_000_000);
    assert_eq!(preference_after(&quick_skip(), 1), 909_090_909);
    assert_eq!(reliability_after(&failed(), 1), 500_000_000);
}

#[test]
fn only_decided_events_count_as_evidence() {
    let counted = evidence(vec![
        finished(),
        failed(),
        quick_skip(),
        skip_after(20),
        AnyTrackEvent::from(Stopped::new(Duration::from_seconds(1))),
    ]);
    assert_eq!(
        counted,
        Evidence {
            finishes: 1,
            quick_skips: 1,
            failures: 1,
        }
    );
}

#[test]
fn a_skip_just_short_of_the_threshold_is_quick() {
    let threshold = quick_skip_threshold().as_milliseconds();
    let just_short = AnyTrackEvent::from(Skipped::new(Duration::from_milliseconds(threshold - 1)));
    assert!(preference_after(&just_short, 1) < ONE);
    let at = AnyTrackEvent::from(Skipped::new(Duration::from_milliseconds(threshold)));
    assert_eq!(preference_after(&at, 1), ONE);
}
