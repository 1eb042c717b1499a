use jive::Duration;
use jive::Time;
use jive::encoding::decode_event;
use jive::encoding::decode_history;
use jive::encoding::decode_outcome;
use jive::encoding::decode_tagged;
use jive::encoding::decode_time;
use jive::encoding::decode_duration;
use jive::encoding::encode_duration;
use jive::encoding::encode_failure;
use jive::encoding::encode_history;
use jive::encoding::encode_outcome;
use jive::encoding::encode_tagged;
use jive::encoding::encode_time;
use jive::json::Json;
use jive::track_events::Added;
use jive::track_events::AnyTrackEvent;
use jive::track_events::PlaybackOutcome;
use jive::track_events::Skipped;
use jive::track_events::Stopped;
use jive::track_events::TimeTaggedTrackEvent;
use jive::track_events::TimeTaggedTrackEvents;
use jive::track_events::TrackFailure;
use std::collections::HashSet;

fn at(seconds: u64) -> Time {
    Time::from_unix_milliseconds(seconds * 1_000)
}

fn span(seconds: u64) -> Duration {
    Duration::from_seconds(seconds)
}

fn added(seconds: u64) -> TimeTaggedTrackEvent {
    TimeTaggedTrackEvent::new(at(seconds), AnyTrackEvent::from(Added::new()))
}

fn skipped(seconds: u64, listened_for: u64) -> TimeTaggedTrackEvent {
    TimeTaggedTrackEvent::new(at(seconds), AnyTrackEvent::from(Skipped::new(span(listened_for))))
}

fn stopped(seconds: u64, listened_for: u64) -> TimeTaggedTrackEvent {
    TimeTaggedTrackEvent::new(at(seconds), AnyTrackEvent::from(Stopped::new(span(listened_for))))
}

fn finished(seconds: u64) -> TimeTaggedTrackEvent {
    TimeTaggedTrackEvent::new(at(seconds), AnyTrackEvent::from(PlaybackOutcome::Finished))
}

fn failed(seconds: u64, reason: TrackFailure) -> TimeTaggedTrackEvent {
    TimeTaggedTrackEvent::new(at(seconds), AnyTrackEvent::from(PlaybackOutcome::from(reason)))
}

fn every_failure() -> Vec<TrackFailure> {
    TrackFailure::ALL.to_vec()
}

fn every_event() -> Vec<TimeTaggedTrackEvent> {
    let mut events = vec![added(1), skipped(2, 3), stopped(4, 5), finished(6)];
    for (number, reason) in every_failure().into_iter().enumerate() {
        events.push(failed(7 + number as u64, reason));
    }
    events
}

fn history(events: impl IntoIterator<Item = TimeTaggedTrackEvent>) -> TimeTaggedTrackEvents {
    TimeTaggedTrackEvents::from_vec(events.into_iter().collect())
}

/// The value JSON text holds, or why it holds none.
fn parsed(text: &str) -> Result<Json, String> {
    serde_json::from_str::<serde_json::Value>(text)
        .map(|value| json_of(&value))
        .map_err(|error| error.to_string())
}

fn json_of(value: &serde_json::Value) -> Json {
    match value {
        serde_json::Value::Null => Json::Null,
        serde_json::Value::Bool(b) => Json::Bool(*b),
        serde_json::Value::Number(n) => match (n.as_u64(), n.as_i64()) {
            (Some(u), _) => Json::Unsigned(u),
            (None, Some(i)) => Json::Negative(i),
            _ => Json::Fraction(n.to_string()),
        },
        serde_json::Value::String(s) => Json::Text(s.clone()),
        serde_json::Value::Array(items) => Json::List(items.iter().map(json_of).collect()),
        serde_json::Value::Object(fields) => Json::Object(
            fields
                .iter()
                .map(|(key, value)| (key.clone(), json_of(value)))
                .collect(),
        ),
    }
}

fn value_of(json: &Json) -> serde_json::Value {
    match json {
        Json::Null => serde_json::Value::Null,
        Json::Bool(b) => serde_json::Value::Bool(*b),
        Json::Unsigned(n) => serde_json::Value::from(*n),
        Json::Negative(n) => serde_json::Value::from(*n),
        Json::Fraction(text) => serde_json::from_str(text).expect("a number"),
        Json::Text(s) => serde_json::Value::String(s.clone()),
        Json::List(items) => serde_json::Value::Array(items.iter().map(value_of).collect()),
        Json::Object(fields) => {
            let mut map = serde_json::Map::new();
            for (key, value) in fields {
                map.insert(key.clone(), value_of(value));
            }
            serde_json::Value::Object(map)
        },
    }
}

fn text_of(json: &Json) -> String {
    serde_json::to_string(&value_of(json)).expect("the value encodes")
}

fn tagged_from_text(text: &str) -> Option<TimeTaggedTrackEvent> {
    parsed(text).ok().and_then(|json| decode_tagged(&json))
}

fn history_from_text(text: &str) -> Option<TimeTaggedTrackEvents> {
    parsed(text).ok().and_then(|json| decode_history(&json))
}

fn outcome_from_text(text: &str) -> Option<PlaybackOutcome> {
    parsed(text).ok().and_then(|json| decode_outcome(&json))
}

fn time_from_text(text: &str) -> Option<Time> {
    parsed(text).ok().and_then(|json| decode_time(&json))
}

#[test]
fn every_reason_there_is_appears_in_the_list() {
    for reason in TrackFailure::ALL {
        match reason {
            TrackFailure::FileNotFound
            | TrackFailure::UnsupportedFormat
            | TrackFailure::DecoderError
            | TrackFailure::BackendExited => {}
            _ => unreachable!("{reason:?} is a reason the list does not name"),
        }
    }
    assert_eq!(
        TrackFailure::ALL.iter().collect::<HashSet<_>>().len(),
        TrackFailure::ALL.len(),
        "a reason is listed twice"
    );
}

#[test]
fn the_added_accessor_answers_for_added() {
    assert!(added(1).event.as_added().is_some());
    assert!(skipped(2, 3).event.as_added().is_none());
    assert!(stopped(4, 5).event.as_added().is_none());
    assert!(finished(6).event.as_added().is_none());
}

#[test]
fn the_skipped_accessor_answers_for_skipped() {
    assert!(skipped(2, 3).event.as_skipped().is_some());
    assert!(added(1).event.as_skipped().is_none());
    assert!(stopped(4, 5).event.as_skipped().is_none());
    assert!(finished(6).event.as_skipped().is_none());
}

#[test]
fn the_stopped_accessor_answers_for_stopped() {
    assert!(stopped(4, 5).event.as_stopped().is_some());
    assert!(added(1).event.as_stopped().is_none());
    assert!(skipped(2, 3).event.as_stopped().is_none());
    assert!(finished(6).event.as_stopped().is_none());
}

#[test]
fn the_outcome_accessor_answers_for_an_outcome() {
    assert!(finished(6).event.as_playback_outcome().is_some());
    assert!(added(1).event.as_playback_outcome().is_none());
    assert!(skipped(2, 3).event.as_playback_outcome().is_none());
    assert!(stopped(4, 5).event.as_playback_outcome().is_none());
}

#[test]
fn an_event_keeps_the_moment_it_happened_and_what_it_carried() {
    assert_eq!(added(7).at, at(7));
    assert_eq!(added(1).event.as_added(), Some(&Added::new()));
    assert_eq!(skipped(9, 4).event.as_skipped().map(|skip| skip.listened_for), Some(span(4)));
    assert_eq!(stopped(9, 4).event.as_stopped().map(|stop| stop.listened_for), Some(span(4)));
}

#[test]
fn a_payload_converts_into_the_wrapper_that_carries_it() {
    assert_eq!(AnyTrackEvent::from(Added::new()), added(1).event);
    assert_eq!(
        PlaybackOutcome::from(TrackFailure::FileNotFound),
        PlaybackOutcome::Failed(TrackFailure::FileNotFound)
    );
}

#[test]
fn an_outcome_reports_whether_it_finished_and_why_not() {
    assert!(PlaybackOutcome::Finished.is_finished());
    assert_eq!(PlaybackOutcome::Finished.failure(), None);

    let failed = PlaybackOutcome::from(TrackFailure::DecoderError);
    assert!(!failed.is_finished());
    assert_eq!(failed.failure(), Some(TrackFailure::DecoderError));
}

#[test]
fn a_history_counts_the_events_it_was_given() {
    assert_eq!(history([]).len(), 0);
    assert!(history([]).is_empty());
    assert!(!history([finished(1)]).is_empty());
    assert_eq!(history(every_event()).len(), every_event().len());
}

#[test]
fn no_failure_counts_as_finishing() {
    for reason in every_failure() {
        let outcome = PlaybackOutcome::from(reason);
        assert!(!outcome.is_finished(), "{reason:?} should not count as finished");
        assert_eq!(outcome.failure(), Some(reason));
    }
}

#[test]
fn a_history_returns_what_was_recorded_in_the_order_it_arrived() {
    let recorded = every_event();
    let mut events = TimeTaggedTrackEvents::new();
    for event in recorded.clone() {
        events.record(event.at, event.event);
    }
    assert_eq!(events.iter().cloned().collect::<Vec<TimeTaggedTrackEvent>>(), recorded);
    assert_eq!(events.as_slice(), recorded.as_slice());
    assert_eq!(events.clone().into_iter().collect::<Vec<TimeTaggedTrackEvent>>(), recorded);
    assert_eq!((&events).into_iter().count(), recorded.len());
}

#[test]
fn a_history_keeps_events_that_arrive_out_of_order_as_they_arrived() {
    let events = history([finished(9), skipped(2, 1)]);
    let moments: Vec<Time> = events.iter().map(|event| event.at).collect();
    assert_eq!(moments, [at(9), at(2)]);
}

#[test]
fn a_history_takes_payloads_as_well_as_events() {
    let mut events = TimeTaggedTrackEvents::new();
    events.record(at(1), AnyTrackEvent::from(Added::new()));
    events.record(at(2), AnyTrackEvent::from(Skipped::new(span(3))));
    events.record(at(3), AnyTrackEvent::from(PlaybackOutcome::Finished));
    assert_eq!(events, history([added(1), skipped(2, 3), finished(3)]));
}

#[test]
fn a_history_can_be_extended_and_collected_the_same_way() {
    let mut extended = history([added(1)]);
    extended.extend_from(vec![finished(2)]);
    assert_eq!(extended, history([added(1), finished(2)]));
}

#[test]
fn events_compare_by_what_they_hold_and_when() {
    assert_eq!(added(1), added(1));
    assert_ne!(added(1), added(2));
    assert_ne!(added(1), finished(1));
    assert_ne!(skipped(1, 2), skipped(1, 3));
    assert_ne!(failed(1, TrackFailure::DecoderError), failed(1, TrackFailure::FileNotFound));
}

#[test]
fn a_point_in_time_encodes_as_milliseconds() {
    assert_eq!(text_of(&encode_time(Time::from_unix_milliseconds(1_500))), "1500");
    assert_eq!(time_from_text("1500"), Some(Time::from_unix_milliseconds(1_500)));
}

#[test]
fn the_epoch_encodes_as_zero() {
    assert_eq!(text_of(&encode_time(Time::epoch())), "0");
    assert_eq!(time_from_text("0"), Some(Time::epoch()));
}

#[test]
fn a_span_encodes_as_milliseconds() {
    assert_eq!(text_of(&encode_duration(Duration::from_seconds(3))), "3000");
    assert_eq!(
        parsed("3000").ok().and_then(|json| decode_duration(&json)),
        Some(Duration::from_seconds(3))
    );
}

#[test]
fn an_unsupported_format_keeps_its_name() {
    assert_eq!(text_of(&encode_failure(TrackFailure::UnsupportedFormat)), r#""unsupported_format""#);
}

#[test]
fn a_decoder_error_keeps_its_name() {
    assert_eq!(text_of(&encode_failure(TrackFailure::DecoderError)), r#""decoder_error""#);
}

#[test]
fn a_backend_exit_keeps_its_name() {
    assert_eq!(text_of(&encode_failure(TrackFailure::BackendExited)), r#""backend_exited""#);
}

fn assert_event_encodes(event: TimeTaggedTrackEvent, encoded: &str) {
    assert_eq!(text_of(&encode_tagged(&event)), encoded, "the encoding changed");
    assert_eq!(tagged_from_text(encoded), Some(event), "the text no longer decodes");
}

#[test]
fn an_event_pairs_a_moment_with_what_happened() {
    assert_event_encodes(added(1), r#"{"at":1000,"event":{"event":"added","data":{}}}"#);
}

#[test]
fn a_skip_carries_only_what_was_heard() {
    assert_event_encodes(
        skipped(2, 3),
        r#"{"at":2000,"event":{"event":"skipped","data":{"listened_for":3000}}}"#,
    );
}

#[test]
fn a_stop_carries_only_what_was_heard() {
    assert_event_encodes(
        stopped(2, 3),
        r#"{"at":2000,"event":{"event":"stopped","data":{"listened_for":3000}}}"#,
    );
}

#[test]
fn a_finished_outcome_encodes_tagged() {
    assert_event_encodes(
        finished(4),
        r#"{"at":4000,"event":{"event":"playback_outcome","data":{"outcome":"finished"}}}"#,
    );
}

#[test]
fn a_failure_encodes_with_its_reason() {
    assert_event_encodes(
        failed(5, TrackFailure::FileNotFound),
        r#"{"at":5000,"event":{"event":"playback_outcome","data":{"outcome":"failed","reason":"file_not_found"}}}"#,
    );
}

#[test]
fn an_empty_history_encodes_as_an_empty_array() {
    assert_eq!(text_of(&encode_history(&history([]))), "[]");
    assert_eq!(history_from_text("[]"), Some(history([])));
}

#[test]
fn a_history_encodes_as_a_bare_array() {
    let encoded = r#"[{"at":4000,"event":{"event":"playback_outcome","data":{"outcome":"finished"}}}]"#;
    assert_eq!(text_of(&encode_history(&history([finished(4)]))), encoded);
    assert_eq!(history_from_text(encoded), Some(history([finished(4)])));
}

#[test]
fn everything_the_crate_can_produce_survives_a_round_trip() {
    let events = history(every_event());
    assert_eq!(history_from_text(&text_of(&encode_history(&events))), Some(events));
}

#[test]
fn every_failure_survives_a_round_trip_on_its_own() {
    for reason in every_failure() {
        let outcome = PlaybackOutcome::from(reason);
        assert_eq!(outcome_from_text(&text_of(&encode_outcome(outcome))), Some(outcome));
    }
}

#[test]
fn a_field_added_to_a_payload_later_is_ignored_by_this_version() {
    let encoded = r#"{"at":7000,"event":{"event":"added","data":{"source":"a later scan"}}}"#;
    assert_eq!(tagged_from_text(encoded), Some(added(7)));
}

#[test]
fn an_event_from_a_later_version_is_reported_rather_than_guessed_at() {
    let encoded = r#"[{"at":1,"event":{"event":"invented_later","data":{}}}]"#;
    assert!(history_from_text(encoded).is_none());
}

#[test]
fn a_failure_reason_from_a_later_version_is_reported_rather_than_guessed_at() {
    let encoded = r#"{"outcome": "failed", "reason": "network_timeout"}"#;
    assert!(outcome_from_text(encoded).is_none());
}

#[test]
fn an_outcome_from_a_later_version_is_reported_rather_than_guessed_at() {
    assert!(outcome_from_text(r#"{"outcome": "interrupted"}"#).is_none());
}

#[test]
fn an_event_without_a_moment_is_reported_rather_than_filled_in() {
    let encoded = r#"[{"event":{"event":"playback_outcome","data":{"outcome":"finished"}}}]"#;
    assert!(history_from_text(encoded).is_none());
}

#[test]
fn a_payload_missing_a_field_is_reported_rather_than_filled_in() {
    let encoded = r#"[{"at":1,"event":{"event":"skipped","data":{}}}]"#;
    assert!(history_from_text(encoded).is_none());
}

#[test]
fn text_that_is_not_the_shape_of_an_event_is_reported() {
    for encoded in [
        "[3]",
        r#"["added"]"#,
        r#"[{"at":1}]"#,
        r#"{"at":1,"event":{"event":"added","data":{}}}"#,
    ] {
        assert!(history_from_text(encoded).is_none(), "{encoded} should not decode as a history");
    }
}

#[test]
fn a_moment_at_the_end_of_the_range_survives_a_round_trip() {
    let latest = Time::from_unix_milliseconds(u64::MAX);
    assert_eq!(time_from_text(&text_of(&encode_time(latest))), Some(latest));
    assert_eq!(
        parsed(&text_of(&encode_duration(Duration::maximum()))).ok().and_then(|json| decode_duration(&json)),
        Some(Duration::maximum())
    );
}

#[test]
fn a_moment_before_the_epoch_is_reported() {
    assert!(time_from_text("-1").is_none());
}

#[test]
fn the_moment_is_read_back_as_it_was_written() {
    let event = tagged_from_text(&text_of(&encode_tagged(&skipped(1_234, 5)))).expect("the text decodes");
    assert_eq!(event.at, at(1_234));
}

#[test]
fn an_event_missing_its_data_is_not_an_event() {
    assert!(parsed(r#"{"event":"added"}"#).ok().and_then(|json| decode_event(&json)).is_none());
}
