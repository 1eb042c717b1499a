use jive::Time;
use jive::offer::FRESH_MULTIPLIER;
use jive::offer::STALEST_MULTIPLIER;
use jive::offer::factors;
use jive::offer::gone_stale_after;
use jive::offer::last_offered_at;
use jive::offer::staleness;
use jive::rating::Evidence;
use jive::rating::ONE;
use jive::track_events::Added;
use jive::track_events::AnyTrackEvent;
use jive::track_events::PlaybackOutcome;
use jive::track_events::TimeTaggedTrackEvents;

fn now() -> Time {
    Time::epoch() + gone_stale_after()
}

#[test]
fn staleness_runs_from_just_played_to_left_long_enough() {
    assert_eq!(staleness(Some(now()), now()).billionths, FRESH_MULTIPLIER);
    assert_eq!(staleness(Some(Time::epoch()), now()).billionths, STALEST_MULTIPLIER);
    assert_eq!(
        staleness(None, Time::epoch()).billionths,
        STALEST_MULTIPLIER,
        "a track never played is as stale as one left long enough"
    );
}

#[test]
fn staleness_halfway_is_halfway_between_the_multipliers() {
    let halfway = Time::from_unix_milliseconds(gone_stale_after().as_milliseconds() / 2);
    assert_eq!(staleness(Some(Time::epoch()), halfway).billionths, 2_000_000_000);
}

#[test]
fn priority_multiplies_the_independent_factors() {
    let opinionated = Evidence {
        finishes: 5,
        quick_skips: 0,
        failures: 3,
    };
    let value = factors(opinionated, Some(Time::epoch()), now());

    assert_ne!(value.preference.billionths, ONE, "a preference of one is invisible");
    assert_ne!(value.staleness.billionths, ONE, "a staleness of one is invisible");
    assert_ne!(value.reliability.billionths, ONE, "a reliability of one is invisible");
    let product = u128::from(value.preference.billionths)
        * u128::from(value.staleness.billionths)
        * u128::from(value.reliability.billionths)
        / (u128::from(ONE) * u128::from(ONE));
    assert_eq!(u128::from(value.priority().billionths), product);
}

#[test]
fn a_track_is_last_offered_at_its_latest_event_but_the_one_adding_it() {
    let mut events = TimeTaggedTrackEvents::new();
    events.record(
        Time::from_unix_milliseconds(9_000),
        AnyTrackEvent::from(Added::new()),
    );
    assert_eq!(last_offered_at(&events), None);
    events.record(
        Time::from_unix_milliseconds(5_000),
        AnyTrackEvent::from(PlaybackOutcome::Finished),
    );
    events.record(
        Time::from_unix_milliseconds(3_000),
        AnyTrackEvent::from(PlaybackOutcome::Finished),
    );
    assert_eq!(last_offered_at(&events), Some(Time::from_unix_milliseconds(5_000)));
}
