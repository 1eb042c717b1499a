//! How events are stored as JSON.
//!
//! The encoding is stable:
//!
//! * Times and durations are a bare count of milliseconds, and failure
//!   reasons their own names in snake case.
//! * An event is a variant name and a payload beside it, tagged `event` and
//!   `data`, so a newer reader understands what an older one wrote.
//! * Payloads ignore unknown fields, and so do outcomes and timestamped
//!   events.
//! * A timestamped event is an object of `at` and `event`, and a history a
//!   bare array of them.
//!
//! An unrecognized event fails to decode on its own, leaving the caller free
//! to set it aside and continue with the rest. Decoding a history as a whole
//! is all-or-nothing: a history silently missing events would misrate the
//! track.

use crate::json::Json;
use crate::json::entry;
use crate::json::field;
use crate::json::find_field;
use crate::json::find_member;
use crate::json::lemma_member_same;
use crate::json::lemma_same_kind;
use crate::json::is_text;
use crate::json::member;
use crate::json::text_of;
use crate::json::text_value;
use crate::json::unsigned_of;
use crate::time::Duration;
use crate::time::Time;
use crate::track_events::Added;
use crate::track_events::AnyTrackEvent;
use crate::track_events::PlaybackOutcome;
use crate::track_events::Skipped;
use crate::track_events::Stopped;
use crate::track_events::TimeTaggedTrackEvent;
use crate::track_events::TimeTaggedTrackEvents;
use crate::track_events::TrackFailure;
use vstd::prelude::*;

verus! {

broadcast use crate::time::group_time;

/// The name a failure reason is stored under.
pub open spec fn failure_name(failure: TrackFailure) -> Seq<char> {
    match failure {
        TrackFailure::FileNotFound => "file_not_found"@,
        TrackFailure::UnsupportedFormat => "unsupported_format"@,
        TrackFailure::DecoderError => "decoder_error"@,
        TrackFailure::BackendExited => "backend_exited"@,
    }
}

/// The failure reason stored under `name`, if any.
pub open spec fn failure_named(name: Seq<char>) -> Option<TrackFailure> {
    if name == "file_not_found"@ {
        Some(TrackFailure::FileNotFound)
    } else if name == "unsupported_format"@ {
        Some(TrackFailure::UnsupportedFormat)
    } else if name == "decoder_error"@ {
        Some(TrackFailure::DecoderError)
    } else if name == "backend_exited"@ {
        Some(TrackFailure::BackendExited)
    } else {
        None
    }
}

/// The failure reason a value holds, if it holds one.
pub open spec fn failure_from(value: Json) -> Option<TrackFailure> {
    match value {
        Json::Text(name) => failure_named(name@),
        _ => None,
    }
}

/// The outcome a value holds: an object tagged `outcome`, `finished` with
/// no reason or a null one, or `failed` with a known `reason`.
pub open spec fn outcome_from(value: Json) -> Option<PlaybackOutcome> {
    match text_of(member(value, "outcome"@)) {
        Some(tag) => if tag == "finished"@ {
            match member(value, "reason"@) {
                None => Some(PlaybackOutcome::Finished),
                Some(Json::Null) => Some(PlaybackOutcome::Finished),
                _ => None,
            }
        } else if tag == "failed"@ {
            match member(value, "reason"@) {
                Some(reason) => match failure_from(reason) {
                    Some(failure) => Some(PlaybackOutcome::Failed(failure)),
                    None => None,
                },
                None => None,
            }
        } else {
            None
        },
        None => None,
    }
}

/// The event a value holds: an object tagged `event` whose `data` is the
/// payload the tag names.
pub open spec fn event_from(value: Json) -> Option<AnyTrackEvent> {
    match (text_of(member(value, "event"@)), member(value, "data"@)) {
        (Some(tag), Some(data)) => if tag == "added"@ {
            if data is Object {
                Some(AnyTrackEvent::Added(Added {  }))
            } else {
                None
            }
        } else if tag == "skipped"@ {
            match unsigned_of(member(data, "listened_for"@)) {
                Some(n) => Some(AnyTrackEvent::Skipped(Skipped { listened_for: Duration::of_millis(n as int) })),
                None => None,
            }
        } else if tag == "stopped"@ {
            match unsigned_of(member(data, "listened_for"@)) {
                Some(n) => Some(AnyTrackEvent::Stopped(Stopped { listened_for: Duration::of_millis(n as int) })),
                None => None,
            }
        } else if tag == "playback_outcome"@ {
            match outcome_from(data) {
                Some(outcome) => Some(AnyTrackEvent::PlaybackOutcome(outcome)),
                None => None,
            }
        } else {
            None
        },
        _ => None,
    }
}

/// The timestamped event a value holds: an object with `at` and `event`.
pub open spec fn tagged_from(value: Json) -> Option<TimeTaggedTrackEvent> {
    match (value, unsigned_of(member(value, "at"@)), member(value, "event"@)) {
        (Json::Object(_), Some(at), Some(event)) => match event_from(event) {
            Some(e) => Some(TimeTaggedTrackEvent { at: Time::at_millis(at as int), event: e }),
            None => None,
        },
        _ => None,
    }
}

/// The events the first `n` of `items` hold, if every one holds one.
pub open spec fn tagged_items(items: Seq<Json>, n: int) -> Option<Seq<TimeTaggedTrackEvent>>
    decreases n,
{
    if n <= 0 {
        Some(Seq::empty())
    } else {
        match (tagged_items(items, n - 1), tagged_from(items[n - 1])) {
            (Some(before), Some(e)) => Some(before.push(e)),
            _ => None,
        }
    }
}

/// The history a value holds: an array of timestamped events, every one of
/// which decodes.
pub open spec fn history_from(value: Json) -> Option<Seq<TimeTaggedTrackEvent>> {
    match value {
        Json::List(items) => tagged_items(items@, items@.len() as int),
        _ => None,
    }
}

/// The time a value holds: a count of milliseconds.
pub open spec fn time_from(value: Json) -> Option<Time> {
    match value {
        Json::Unsigned(n) => Some(Time::at_millis(n as int)),
        _ => None,
    }
}

/// The span a value holds: a count of milliseconds.
pub open spec fn duration_from(value: Json) -> Option<Duration> {
    match value {
        Json::Unsigned(n) => Some(Duration::of_millis(n as int)),
        _ => None,
    }
}

/// Whether `value` is exactly the encoding of `outcome`.
pub open spec fn is_outcome_json(value: Json, outcome: PlaybackOutcome) -> bool {
    match value {
        Json::Object(fields) => match outcome {
            PlaybackOutcome::Finished => {
                &&& fields@.len() == 1
                &&& fields@[0].0@ == "outcome"@
                &&& fields@[0].1 matches Json::Text(t) && t@ == "finished"@
            },
            PlaybackOutcome::Failed(failure) => {
                &&& fields@.len() == 2
                &&& fields@[0].0@ == "outcome"@
                &&& fields@[0].1 matches Json::Text(t) && t@ == "failed"@
                &&& fields@[1].0@ == "reason"@
                &&& fields@[1].1 matches Json::Text(r) && r@ == failure_name(failure)
            },
        },
        _ => false,
    }
}

/// Whether `value` is exactly the encoding of `event`.
pub open spec fn is_event_json(value: Json, event: AnyTrackEvent) -> bool {
    match value {
        Json::Object(fields) => {
            &&& fields@.len() == 2
            &&& fields@[0].0@ == "event"@
            &&& fields@[1].0@ == "data"@
            &&& match event {
                AnyTrackEvent::Added(_) => {
                    &&& fields@[0].1 matches Json::Text(t) && t@ == "added"@
                    &&& fields@[1].1 matches Json::Object(data) && data@.len() == 0
                },
                AnyTrackEvent::Skipped(s) => {
                    &&& fields@[0].1 matches Json::Text(t) && t@ == "skipped"@
                    &&& fields@[1].1 matches Json::Object(data) && data@.len() == 1 && data@[0].0@
                        == "listened_for"@ && data@[0].1 == Json::Unsigned(s.listened_for.millis() as u64)
                },
                AnyTrackEvent::Stopped(s) => {
                    &&& fields@[0].1 matches Json::Text(t) && t@ == "stopped"@
                    &&& fields@[1].1 matches Json::Object(data) && data@.len() == 1 && data@[0].0@
                        == "listened_for"@ && data@[0].1 == Json::Unsigned(s.listened_for.millis() as u64)
                },
                AnyTrackEvent::PlaybackOutcome(o) => {
                    &&& fields@[0].1 matches Json::Text(t) && t@ == "playback_outcome"@
                    &&& is_outcome_json(fields@[1].1, o)
                },
            }
        },
        _ => false,
    }
}

/// Whether `value` is exactly the encoding of a timestamped event.
pub open spec fn is_tagged_json(value: Json, event: TimeTaggedTrackEvent) -> bool {
    match value {
        Json::Object(fields) => {
            &&& fields@.len() == 2
            &&& fields@[0].0@ == "at"@
            &&& fields@[0].1 == Json::Unsigned(event.at.millis() as u64)
            &&& fields@[1].0@ == "event"@
            &&& is_event_json(fields@[1].1, event.event)
        },
        _ => false,
    }
}

/// The failure reason a value holds, if it holds one.
pub fn decode_failure(value: &Json) -> (failure: Option<TrackFailure>)
    ensures
        failure == failure_from(*value),
{
    if is_text(value, "file_not_found") {
        Some(TrackFailure::FileNotFound)
    } else if is_text(value, "unsupported_format") {
        Some(TrackFailure::UnsupportedFormat)
    } else if is_text(value, "decoder_error") {
        Some(TrackFailure::DecoderError)
    } else if is_text(value, "backend_exited") {
        Some(TrackFailure::BackendExited)
    } else {
        None
    }
}

/// The outcome a value holds, if it holds one.
pub fn decode_outcome(value: &Json) -> (outcome: Option<PlaybackOutcome>)
    ensures
        outcome == outcome_from(*value),
{
    let tag = match find_member(value, "outcome") {
        Some(tag) => tag,
        None => return None,
    };
    match tag {
        Json::Text(_) => {},
        _ => return None,
    }
    if is_text(tag, "finished") {
        match find_member(value, "reason") {
            None => Some(PlaybackOutcome::Finished),
            Some(Json::Null) => Some(PlaybackOutcome::Finished),
            Some(_) => None,
        }
    } else if is_text(tag, "failed") {
        match find_member(value, "reason") {
            Some(reason) => match decode_failure(reason) {
                Some(failure) => Some(PlaybackOutcome::Failed(failure)),
                None => None,
            },
            None => None,
        }
    } else {
        None
    }
}

/// A span held in a payload's `listened_for`, if it holds one.
fn listened_for(data: &Json) -> (span: Option<Duration>)
    ensures
        span == match unsigned_of(member(*data, "listened_for"@)) {
            Some(n) => Some(Duration::of_millis(n as int)),
            None => None,
        },
{
    match find_member(data, "listened_for") {
        Some(Json::Unsigned(n)) => Some(Duration::from_milliseconds(*n)),
        _ => None,
    }
}

/// The event a value holds, if it holds one.
pub fn decode_event(value: &Json) -> (event: Option<AnyTrackEvent>)
    ensures
        event == event_from(*value),
{
    let tag = match find_member(value, "event") {
        Some(tag) => tag,
        None => return None,
    };
    match tag {
        Json::Text(_) => {},
        _ => return None,
    }
    let data = match find_member(value, "data") {
        Some(data) => data,
        None => return None,
    };
    if is_text(tag, "added") {
        match data {
            Json::Object(_) => Some(AnyTrackEvent::Added(Added::new())),
            _ => None,
        }
    } else if is_text(tag, "skipped") {
        match listened_for(data) {
            Some(span) => Some(AnyTrackEvent::Skipped(Skipped::new(span))),
            None => None,
        }
    } else if is_text(tag, "stopped") {
        match listened_for(data) {
            Some(span) => Some(AnyTrackEvent::Stopped(Stopped::new(span))),
            None => None,
        }
    } else if is_text(tag, "playback_outcome") {
        match decode_outcome(data) {
            Some(outcome) => Some(AnyTrackEvent::PlaybackOutcome(outcome)),
            None => None,
        }
    } else {
        None
    }
}

/// The timestamped event a value holds, if it holds one.
pub fn decode_tagged(value: &Json) -> (event: Option<TimeTaggedTrackEvent>)
    ensures
        event == tagged_from(*value),
{
    match value {
        Json::Object(_) => {},
        _ => return None,
    }
    let at = match find_member(value, "at") {
        Some(Json::Unsigned(n)) => *n,
        _ => return None,
    };
    let event = match find_member(value, "event") {
        Some(event) => event,
        None => return None,
    };
    match decode_event(event) {
        Some(e) => Some(TimeTaggedTrackEvent::new(Time::from_unix_milliseconds(at), e)),
        None => None,
    }
}

/// The history a value holds, if every event in it decodes.
pub fn decode_history(value: &Json) -> (history: Option<TimeTaggedTrackEvents>)
    ensures
        match history {
            Some(h) => history_from(*value) == Some(h@),
            None => history_from(*value) is None,
        },
{
    match value {
        Json::List(items) => {
            let mut events: Vec<TimeTaggedTrackEvent> = Vec::new();
            let mut i: usize = 0;
            while i < items.len()
                invariant
                    i <= items@.len(),
                    tagged_items(items@, i as int) == Some(events@),
                    history_from(*value) == tagged_items(items@, items@.len() as int),
                decreases items.len() - i,
            {
                match decode_tagged(&items[i]) {
                    Some(e) => {
                        events.push(e);
                    },
                    None => {
                        proof {
                            assert(tagged_items(items@, i as int + 1) is None);
                            lemma_tagged_items_fail(items@, i as int + 1, items@.len() as int);
                        }
                        return None;
                    },
                }
                i = i + 1;
            }
            Some(TimeTaggedTrackEvents::from_vec(events))
        },
        _ => None,
    }
}

/// Once an item fails to decode, every longer prefix fails too.
proof fn lemma_tagged_items_fail(items: Seq<Json>, n: int, m: int)
    requires
        0 < n <= m,
        tagged_items(items, n) is None,
    ensures
        tagged_items(items, m) is None,
    decreases m - n,
{
    if n < m {
        lemma_tagged_items_fail(items, n + 1, m);
    }
}

/// The time a value holds, if it holds one.
pub fn decode_time(value: &Json) -> (time: Option<Time>)
    ensures
        time == time_from(*value),
{
    match value {
        Json::Unsigned(n) => Some(Time::from_unix_milliseconds(*n)),
        _ => None,
    }
}

/// The span a value holds, if it holds one.
pub fn decode_duration(value: &Json) -> (span: Option<Duration>)
    ensures
        span == duration_from(*value),
{
    match value {
        Json::Unsigned(n) => Some(Duration::from_milliseconds(*n)),
        _ => None,
    }
}

/// A time, as a count of milliseconds.
pub fn encode_time(time: Time) -> (value: Json)
    ensures
        value == Json::Unsigned(time.millis() as u64),
        time_from(value) == Some(time),
{
    Json::Unsigned(time.as_unix_milliseconds())
}

/// A span, as a count of milliseconds.
pub fn encode_duration(span: Duration) -> (value: Json)
    ensures
        value == Json::Unsigned(span.millis() as u64),
        duration_from(value) == Some(span),
{
    Json::Unsigned(span.as_milliseconds())
}

/// A failure reason, as its name.
pub fn encode_failure(failure: TrackFailure) -> (value: Json)
    ensures
        value matches Json::Text(name) && name@ == failure_name(failure),
        failure_from(value) == Some(failure),
{
    proof {
        lemma_failure_names();
    }
    match failure {
        TrackFailure::FileNotFound => text_value("file_not_found"),
        TrackFailure::UnsupportedFormat => text_value("unsupported_format"),
        TrackFailure::DecoderError => text_value("decoder_error"),
        TrackFailure::BackendExited => text_value("backend_exited"),
    }
}

/// The names failure reasons are stored under are told apart by their
/// names.
proof fn lemma_failure_names()
    ensures
        forall|failure: TrackFailure| #[trigger] failure_named(failure_name(failure)) == Some(failure),
{
    reveal_strlit("file_not_found");
    reveal_strlit("unsupported_format");
    reveal_strlit("decoder_error");
    reveal_strlit("backend_exited");
    assert forall|failure: TrackFailure| #[trigger] failure_named(failure_name(failure)) == Some(failure) by {
        match failure {
            TrackFailure::FileNotFound => {},
            TrackFailure::UnsupportedFormat => {
                assert("unsupported_format"@.len() != "file_not_found"@.len());
            },
            TrackFailure::DecoderError => {
                assert("decoder_error"@.len() != "file_not_found"@.len());
                assert("decoder_error"@.len() != "unsupported_format"@.len());
            },
            TrackFailure::BackendExited => {
                assert("backend_exited"@.len() == "file_not_found"@.len());
                assert("backend_exited"@[0] != "file_not_found"@[0]);
                assert("backend_exited"@.len() != "unsupported_format"@.len());
                assert("backend_exited"@.len() != "decoder_error"@.len());
            },
        }
    }
}

/// An outcome, tagged `outcome`, with its `reason` beside it when it
/// failed.
pub fn encode_outcome(outcome: PlaybackOutcome) -> (value: Json)
    ensures
        is_outcome_json(value, outcome),
        outcome_from(value) == Some(outcome),
{
    let mut fields: Vec<(String, Json)> = Vec::new();
    match outcome {
        PlaybackOutcome::Finished => {
            fields.push(entry("outcome", text_value("finished")));
        },
        PlaybackOutcome::Failed(failure) => {
            fields.push(entry("outcome", text_value("failed")));
            fields.push(entry("reason", encode_failure(failure)));
        },
    }
    let value = Json::Object(fields);
    proof {
        lemma_outcome_round_trip(value, outcome);
    }
    value
}

/// An outcome's encoding decodes as that outcome.
proof fn lemma_outcome_round_trip(value: Json, outcome: PlaybackOutcome)
    requires
        is_outcome_json(value, outcome),
    ensures
        outcome_from(value) == Some(outcome),
{
    reveal_strlit("outcome");
    reveal_strlit("reason");
    reveal_strlit("finished");
    reveal_strlit("failed");
    lemma_failure_names();
    assert("outcome"@.len() != "reason"@.len());
    assert("finished"@.len() != "failed"@.len());
    if let Json::Object(fields) = value {
        let f = fields@;
        assert(field(f, "outcome"@) == Some(f[0].1));
        if let PlaybackOutcome::Failed(failure) = outcome {
            assert(f[0].0@ != "reason"@);
            assert(f.drop_first()[0] == f[1]);
            assert(field(f.drop_first(), "reason"@) == Some(f[1].1));
            assert(field(f, "reason"@) == Some(f[1].1));
        } else {
            assert(f[0].0@ != "reason"@);
            assert(f.drop_first().len() == 0);
            assert(field(f.drop_first(), "reason"@) is None);
        }
    }
}

/// A payload holding how long the track was heard.
fn listened_payload(span: Duration) -> (value: Json)
    ensures
        value matches Json::Object(data) && data@.len() == 1 && data@[0].0@ == "listened_for"@
            && data@[0].1 == Json::Unsigned(span.millis() as u64),
{
    let mut data: Vec<(String, Json)> = Vec::new();
    data.push(entry("listened_for", encode_duration(span)));
    Json::Object(data)
}

/// An event, tagged `event`, with its payload as `data`.
pub fn encode_event(event: AnyTrackEvent) -> (value: Json)
    ensures
        is_event_json(value, event),
        event_from(value) == Some(event),
{
    let (tag, data) = match event {
        AnyTrackEvent::Added(_) => (text_value("added"), Json::Object(Vec::new())),
        AnyTrackEvent::Skipped(s) => (text_value("skipped"), listened_payload(s.listened_for)),
        AnyTrackEvent::Stopped(s) => (text_value("stopped"), listened_payload(s.listened_for)),
        AnyTrackEvent::PlaybackOutcome(o) => (text_value("playback_outcome"), encode_outcome(o)),
    };
    let mut fields: Vec<(String, Json)> = Vec::new();
    fields.push(entry("event", tag));
    fields.push(entry("data", data));
    let value = Json::Object(fields);
    proof {
        lemma_event_round_trip(value, event);
    }
    value
}

/// An event's encoding decodes as that event.
proof fn lemma_event_round_trip(value: Json, event: AnyTrackEvent)
    requires
        is_event_json(value, event),
    ensures
        event_from(value) == Some(event),
{
    reveal_strlit("event");
    reveal_strlit("data");
    reveal_strlit("added");
    reveal_strlit("skipped");
    reveal_strlit("stopped");
    reveal_strlit("playback_outcome");
    reveal_strlit("listened_for");
    assert("event"@.len() != "data"@.len());
    if let Json::Object(fields) = value {
        let f = fields@;
        assert(field(f, "event"@) == Some(f[0].1));
        assert(f[0].0@ != "data"@);
        assert(f.drop_first()[0] == f[1]);
        assert(field(f.drop_first(), "data"@) == Some(f[1].1));
        assert(field(f, "data"@) == Some(f[1].1));
        match event {
            AnyTrackEvent::Added(a) => {
                assert(a == Added {  });
            },
            AnyTrackEvent::Skipped(s) => {
                if let Json::Object(data) = f[1].1 {
                    assert(field(data@, "listened_for"@) == Some(data@[0].1));
                }
                assert("skipped"@.len() != "added"@.len());
                assert(Duration::of_millis(s.listened_for.millis() as int) == s.listened_for);
            },
            AnyTrackEvent::Stopped(s) => {
                if let Json::Object(data) = f[1].1 {
                    assert(field(data@, "listened_for"@) == Some(data@[0].1));
                }
                assert("stopped"@.len() != "added"@.len());
                assert("stopped"@[1] != "skipped"@[1]);
                assert(Duration::of_millis(s.listened_for.millis() as int) == s.listened_for);
            },
            AnyTrackEvent::PlaybackOutcome(o) => {
                assert("playback_outcome"@.len() != "added"@.len());
                assert("playback_outcome"@.len() != "skipped"@.len());
                assert("playback_outcome"@.len() != "stopped"@.len());
                lemma_outcome_round_trip(f[1].1, o);
            },
        }
    }
}

/// A timestamped event: its moment as `at`, the event beside it.
pub fn encode_tagged(event: &TimeTaggedTrackEvent) -> (value: Json)
    ensures
        is_tagged_json(value, *event),
        tagged_from(value) == Some(*event),
{
    let mut fields: Vec<(String, Json)> = Vec::new();
    fields.push(entry("at", encode_time(event.at)));
    fields.push(entry("event", encode_event(event.event)));
    let value = Json::Object(fields);
    proof {
        reveal_strlit("at");
        reveal_strlit("event");
        assert("at"@.len() != "event"@.len());
        let f = fields@;
        assert(field(f, "at"@) == Some(f[0].1));
        assert(f[0].0@ != "event"@);
        assert(f.drop_first()[0] == f[1]);
        assert(field(f.drop_first(), "event"@) == Some(f[1].1));
        assert(field(f, "event"@) == Some(f[1].1));
        assert(Time::at_millis(event.at.millis() as int) == event.at);
    }
    value
}

/// A history, as a bare array of its events in order.
pub fn encode_history(history: &TimeTaggedTrackEvents) -> (value: Json)
    ensures
        value matches Json::List(items) && items@.len() == history@.len() && (forall|i: int|
            0 <= i < items@.len() ==> is_tagged_json(#[trigger] items@[i], history@[i])),
        history_from(value) == Some(history@),
{
    let mut items: Vec<Json> = Vec::new();
    let mut i: usize = 0;
    while i < history.len()
        invariant
            i <= history@.len(),
            items@.len() == i,
            forall|k: int| 0 <= k < i ==> is_tagged_json(#[trigger] items@[k], history@[k]),
            forall|k: int| 0 <= k < i ==> tagged_from(#[trigger] items@[k]) == Some(history@[k]),
            tagged_items(items@, i as int) == Some(history@.take(i as int)),
        decreases history@.len() - i,
    {
        let event = history.get(i);
        let ghost before = items@;
        items.push(encode_tagged(&event));
        proof {
            assert(items@.take(i as int) =~= before);
            assert forall|n: int| 0 <= n <= i implies tagged_items(items@, n) == tagged_items(before, n) by {
                lemma_tagged_items_prefix(items@, before, n);
            }
            assert(history@.take(i + 1) =~= history@.take(i as int).push(history@[i as int]));
        }
        i = i + 1;
    }
    assert(history@.take(i as int) =~= history@);
    Json::List(items)
}

/// Decoding a prefix looks only at the prefix.
proof fn lemma_tagged_items_prefix(longer: Seq<Json>, shorter: Seq<Json>, n: int)
    requires
        0 <= n <= shorter.len() <= longer.len(),
        forall|k: int| 0 <= k < shorter.len() ==> longer[k] == shorter[k],
    ensures
        tagged_items(longer, n) == tagged_items(shorter, n),
    decreases n,
{
    if n > 0 {
        lemma_tagged_items_prefix(longer, shorter, n - 1);
    }
}

/// The encoding of a timestamped event reads back as that event.
pub proof fn lemma_tagged_round_trip(value: Json, event: TimeTaggedTrackEvent)
    requires
        is_tagged_json(value, event),
    ensures
        tagged_from(value) == Some(event),
{
    reveal_strlit("at");
    reveal_strlit("event");
    assert("at"@.len() != "event"@.len());
    let f = value->Object_0@;
    assert(field(f, "at"@) == Some(f[0].1));
    assert(f[0].0@ != "event"@);
    assert(f.drop_first()[0] == f[1]);
    assert(field(f.drop_first(), "event"@) == Some(f[1].1));
    assert(field(f, "event"@) == Some(f[1].1));
    lemma_event_round_trip(f[1].1, event.event);
    assert(Time::at_millis(event.at.millis() as int) == event.at);
}

/// The members named `key` of two values that hold the same thing hold the
/// same number, text and kind.
proof fn lemma_member_kind(a: Json, b: Json, key: Seq<char>)
    requires
        a.value() == b.value(),
    ensures
        unsigned_of(member(a, key)) == unsigned_of(member(b, key)),
        text_of(member(a, key)) == text_of(member(b, key)),
        member(a, key) is None <==> member(b, key) is None,
        member(a, key) matches Some(x) ==> (member(b, key) matches Some(y) && x.value() == y.value()),
{
    lemma_member_same(a, b, key);
    if let (Some(x), Some(y)) = (member(a, key), member(b, key)) {
        lemma_same_kind(x, y);
    }
}

/// Two values that hold the same thing read as the same outcome.
proof fn lemma_outcome_from_same(a: Json, b: Json)
    requires
        a.value() == b.value(),
    ensures
        outcome_from(a) == outcome_from(b),
{
    lemma_member_kind(a, b, "outcome"@);
    lemma_member_kind(a, b, "reason"@);
    if let (Some(x), Some(y)) = (member(a, "reason"@), member(b, "reason"@)) {
        lemma_same_kind(x, y);
    }
}

/// Two values that hold the same thing read as the same event.
proof fn lemma_event_from_same(a: Json, b: Json)
    requires
        a.value() == b.value(),
    ensures
        event_from(a) == event_from(b),
{
    lemma_member_kind(a, b, "event"@);
    lemma_member_kind(a, b, "data"@);
    if let (Some(x), Some(y)) = (member(a, "data"@), member(b, "data"@)) {
        lemma_same_kind(x, y);
        lemma_member_kind(x, y, "listened_for"@);
        lemma_outcome_from_same(x, y);
    }
}

/// Two values that hold the same thing read as the same timestamped event.
pub proof fn lemma_tagged_from_same(a: Json, b: Json)
    requires
        a.value() == b.value(),
    ensures
        tagged_from(a) == tagged_from(b),
{
    lemma_same_kind(a, b);
    lemma_member_kind(a, b, "at"@);
    lemma_member_kind(a, b, "event"@);
    if let (Some(x), Some(y)) = (member(a, "event"@), member(b, "event"@)) {
        lemma_event_from_same(x, y);
    }
}

} // verus!
