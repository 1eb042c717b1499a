use jive::Duration;
use jive::Time;

fn at(seconds: u64) -> Time {
    Time::from_unix_milliseconds(seconds * 1_000)
}

fn span(seconds: u64) -> Duration {
    Duration::from_seconds(seconds)
}

fn latest() -> Time {
    Time::from_unix_milliseconds(u64::MAX)
}

fn longest_exact_span() -> u64 {
    Duration::MAX_WHOLE_SECONDS
}

#[test]
fn adding_a_span_moves_a_point_forward() {
    assert_eq!(at(10) + span(5), at(15));
}

#[test]
fn a_span_and_a_point_add_in_either_order() {
    assert_eq!(span(5) + at(10), at(15));
}

#[test]
fn subtracting_a_span_moves_a_point_backward() {
    assert_eq!(at(10) - span(5), at(5));
}

#[test]
fn subtracting_two_points_gives_the_span_between() {
    assert_eq!(at(10) - at(4), span(6));
}

#[test]
fn a_point_minus_itself_is_no_span() {
    assert_eq!(at(10) - at(10), Duration::zero());
}

#[test]
fn spans_add() {
    assert_eq!(span(4) + span(5), span(9));
}

#[test]
fn spans_subtract() {
    assert_eq!(span(9) - span(4), span(5));
}

#[test]
fn a_reversed_subtraction_gives_no_span() {
    assert_eq!(at(4) - at(10), Duration::zero());
}

#[test]
fn a_reversed_subtraction_is_refused_when_checked() {
    assert_eq!(at(4).checked_duration_since(at(10)), None);
}

#[test]
fn a_forward_subtraction_is_allowed_when_checked() {
    assert_eq!(at(10).checked_duration_since(at(4)), Some(span(6)));
}

#[test]
fn a_reversed_span_subtraction_saturates() {
    assert_eq!(span(4) - span(9), Duration::zero());
}

#[test]
fn a_reversed_span_subtraction_is_refused_when_checked() {
    assert_eq!(span(4).checked_sub(span(9)), None);
}

#[test]
fn a_forward_span_subtraction_is_allowed_when_checked() {
    assert_eq!(span(9).checked_sub(span(4)), Some(span(5)));
}

#[test]
fn adding_past_the_last_point_saturates() {
    assert_eq!(latest() + span(1), latest());
}

#[test]
fn subtracting_past_the_epoch_saturates() {
    assert_eq!(Time::epoch() - span(1), Time::epoch());
}

#[test]
fn adding_past_the_longest_span_saturates() {
    assert_eq!(Duration::maximum() + span(1), Duration::maximum());
}

#[test]
fn the_span_since_the_epoch_is_the_whole_timeline() {
    assert_eq!(latest() - Time::epoch(), Duration::maximum());
}

#[test]
fn a_span_beyond_the_longest_saturates() {
    assert_eq!(Duration::from_seconds(longest_exact_span() + 1), Duration::maximum());
}

#[test]
fn a_span_beyond_the_longest_is_refused_when_checked() {
    assert_eq!(Duration::checked_from_seconds(longest_exact_span() + 1), None);
}

#[test]
fn each_type_defaults_to_its_own_zero() {
    assert_eq!(Time::default(), Time::epoch());
    assert_eq!(Duration::default(), Duration::zero());
    assert!(Duration::zero().is_zero());
    assert!(!Duration::from_milliseconds(1).is_zero());
}

#[test]
fn a_count_of_milliseconds_reads_back_as_itself() {
    assert_eq!(Time::from_unix_milliseconds(1_234).as_unix_milliseconds(), 1_234);
    assert_eq!(Duration::from_milliseconds(1_234).as_milliseconds(), 1_234);
}

#[test]
fn a_span_reports_whole_seconds_and_drops_the_remainder() {
    assert_eq!(Duration::from_milliseconds(1_999).as_whole_seconds(), 1);
    assert_eq!(Duration::from_milliseconds(999).as_whole_seconds(), 0);
    assert_eq!(span(3_600).as_whole_seconds(), 3_600);
}

#[test]
fn the_longest_exact_span_survives_but_anything_longer_does_not() {
    let longest = longest_exact_span();
    assert_eq!(span(longest).as_whole_seconds(), longest);
    assert_eq!(Duration::checked_from_seconds(longest), Some(span(longest)));
    assert_eq!(Duration::checked_from_seconds(longest + 1), None);
}

#[test]
fn points_and_spans_each_order_by_size() {
    assert!(at(1) < at(2) && at(2) < at(3));
    assert!(span(1) < span(2) && span(2) < span(3));
    assert!(Time::epoch() <= at(0), "the epoch is the earliest point");
}

#[test]
fn the_system_clock_is_after_the_epoch() {
    assert!(Time::now() > Time::epoch());
}

#[test]
fn assigning_forms_agree_with_their_operators() {
    let mut point = at(10);
    point += span(5);
    assert_eq!(point, at(10) + span(5));
    point -= span(3);
    assert_eq!(point, at(12));

    let mut length = span(10);
    length += span(5);
    assert_eq!(length, span(15));
    length -= span(3);
    assert_eq!(length, span(12));
}

#[test]
fn a_point_plus_a_span_walks_back_to_where_it_started() {
    for seconds in [0, 1, 59, 60, 3_599, 3_600, 86_400] {
        let moved = at(1_000) + span(seconds);
        assert_eq!(moved - span(seconds), at(1_000));
        assert_eq!(moved - at(1_000), span(seconds));
    }
}

#[test]
fn the_system_clock_does_not_run_backwards_between_two_readings() {
    let first = Time::now();
    let second = Time::now();
    assert!(second >= first, "{second:?} came before {first:?}");
}

#[test]
fn a_time_reads_the_clock_as_milliseconds_since_the_epoch() {
    let before = Time::now().as_unix_milliseconds();
    assert!(before > 1_600_000_000_000, "the clock reads a time after 2020");
}

#[test]
fn a_clock_before_the_epoch_reads_as_the_epoch() {
    assert_eq!(Time::from_elapsed(None), Time::epoch());
}

#[test]
fn a_clock_reading_keeps_its_whole_milliseconds() {
    assert_eq!(Time::from_elapsed(Some(1_234)).as_unix_milliseconds(), 1_234);
}

#[test]
fn a_clock_past_the_last_millisecond_reads_as_the_last() {
    assert_eq!(Time::from_elapsed(Some(u128::from(u64::MAX) + 1)), latest());
}
