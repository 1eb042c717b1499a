//! Listener preference and playback reliability, derived from track events.
//!
//! Only the events the listener decided determine preference: a finish counts
//! for a track, and a quick skip counts against it. A late skip, a stop, and a
//! playback failure say nothing about taste, and only failures affect
//! reliability.
//!
//! Factors are exact ratios, reported as fixed-point numbers counted in
//! billionths and rounded down.

use crate::time::Duration;
use crate::track_events::AnyTrackEvent;
use crate::track_events::PlaybackOutcome;
use crate::track_events::TimeTaggedTrackEvents;
use vstd::prelude::*;

verus! {

broadcast use crate::time::group_time;

/// The unit of a fixed-point factor: one is a billion billionths.
pub const ONE: u64 = 1_000_000_000;

/// A non-negative number, counted in billionths.
#[derive(Debug, Clone, Copy, PartialEq, Eq, PartialOrd, Ord, Hash, Default, Structural)]
pub struct Fixed {
    /// The number times a billion, rounded down.
    pub billionths: u64,
}

impl Fixed {
    /// The fixed-point number `billionths` billionths.
    pub fn from_billionths(billionths: u64) -> (f: Fixed)
        ensures
            f.billionths == billionths,
    {
        Fixed { billionths }
    }

    /// One.
    pub fn one() -> (f: Fixed)
        ensures
            f.billionths == ONE,
    {
        Fixed { billionths: ONE }
    }
}

/// `num / den` in billionths, rounded down.
pub open spec fn billionths_of(num: int, den: int) -> int {
    (ONE as int) * num / den
}

/// Neutral evidence added to both sides of the preference ratio, so that the
/// first few events move it only so far.
pub const PREFERENCE_PRIOR: u64 = 10;

/// A skip before this much of a track has played counts against it.
pub fn quick_skip_threshold() -> (d: Duration)
    ensures
        d.millis() == 15_000,
{
    Duration::from_seconds(15)
}

/// Lowest listener-preference factor: a third, in billionths.
pub const MINIMUM_PREFERENCE: u64 = 333_333_333;

/// Highest listener-preference factor: three, in billionths.
pub const MAXIMUM_PREFERENCE: u64 = 3_000_000_000;

/// Lowest playback-reliability factor: a twentieth, in billionths.
pub const MINIMUM_RELIABILITY: u64 = 50_000_000;

/// Preference of a track with no evidence either way: one, in billionths.
pub const STARTING_PREFERENCE: u64 = 1_000_000_000;

/// The event counts the rating factors are computed from.
#[derive(Debug, Clone, Copy, Default, PartialEq, Eq, Structural)]
pub struct Evidence {
    /// Plays that reached the end of the track.
    pub finishes: u64,
    /// Skips before the quick-skip threshold.
    pub quick_skips: u64,
    /// Plays that failed.
    pub failures: u64,
}

/// A count one higher, or the same count once it can go no higher.
pub open spec fn bumped(count: u64) -> u64 {
    if count < u64::MAX { (count + 1) as u64 } else { count }
}

/// The evidence after one more event. Counts stop at `u64::MAX`.
pub open spec fn observed(evidence: Evidence, event: AnyTrackEvent) -> Evidence {
    match event {
        AnyTrackEvent::Skipped(skipped) => if skipped.listened_for.millis() < 15_000 {
            Evidence { quick_skips: bumped(evidence.quick_skips), ..evidence }
        } else {
            evidence
        },
        AnyTrackEvent::PlaybackOutcome(outcome) => match outcome {
            PlaybackOutcome::Finished => Evidence { finishes: bumped(evidence.finishes), ..evidence },
            PlaybackOutcome::Failed(_) => Evidence { failures: bumped(evidence.failures), ..evidence },
        },
        _ => evidence,
    }
}

/// The evidence a sequence of events amounts to.
pub open spec fn evidence_spec(events: Seq<crate::track_events::TimeTaggedTrackEvent>) -> Evidence
    decreases events.len(),
{
    if events.len() == 0 {
        Evidence { finishes: 0, quick_skips: 0, failures: 0 }
    } else {
        observed(evidence_spec(events.drop_last()), events.last().event)
    }
}

impl Evidence {
    /// Adds one event to these counts. Events that count for nothing are
    /// ignored.
    pub fn observe(&mut self, event: &AnyTrackEvent)
        ensures
            *final(self) == observed(*old(self), *event),
    {
        match event {
            AnyTrackEvent::Skipped(skipped) => {
                if skipped.listened_for.is_shorter_than(quick_skip_threshold()) {
                    self.quick_skips = self.quick_skips.saturating_add(1);
                }
            },
            AnyTrackEvent::PlaybackOutcome(outcome) => {
                if outcome.is_finished() {
                    self.finishes = self.finishes.saturating_add(1);
                } else {
                    self.failures = self.failures.saturating_add(1);
                }
            },
            _ => {},
        }
    }
}

/// The evidence a track's events amount to.
pub fn evidence_of(events: &TimeTaggedTrackEvents) -> (evidence: Evidence)
    ensures
        evidence == evidence_spec(events@),
{
    let mut evidence = Evidence { finishes: 0, quick_skips: 0, failures: 0 };
    let mut i: usize = 0;
    while i < events.len()
        invariant
            i <= events@.len(),
            evidence == evidence_spec(events@.subrange(0, i as int)),
        decreases events@.len() - i,
    {
        let event = events.get(i);
        proof {
            assert(events@.subrange(0, i + 1).drop_last() =~= events@.subrange(0, i as int));
        }
        evidence.observe(&event.event);
        i = i + 1;
    }
    assert(events@.subrange(0, events@.len() as int) =~= events@);
    evidence
}

/// Listener preference in billionths: the ratio of finishes to quick skips,
/// each side offset by the prior, kept between a third and three.
pub open spec fn preference_spec(evidence: Evidence) -> int {
    let liked = PREFERENCE_PRIOR + evidence.finishes;
    let disliked = PREFERENCE_PRIOR + evidence.quick_skips;
    if liked >= 3 * disliked {
        MAXIMUM_PREFERENCE as int
    } else if 3 * liked <= disliked {
        MINIMUM_PREFERENCE as int
    } else {
        billionths_of(liked, disliked)
    }
}

/// The share of recorded plays that succeeded, in billionths, kept at or above
/// a twentieth.
pub open spec fn reliability_spec(evidence: Evidence) -> int {
    let succeeded = 1 + evidence.finishes;
    let attempted = 1 + evidence.finishes + evidence.failures;
    if 20 * succeeded <= attempted {
        MINIMUM_RELIABILITY as int
    } else {
        billionths_of(succeeded, attempted)
    }
}

/// Listener preference, from a third to three, in billionths.
pub fn preference(evidence: Evidence) -> (p: Fixed)
    ensures
        p.billionths == preference_spec(evidence),
{
    let liked: u128 = PREFERENCE_PRIOR as u128 + evidence.finishes as u128;
    let disliked: u128 = PREFERENCE_PRIOR as u128 + evidence.quick_skips as u128;
    if liked >= 3 * disliked {
        Fixed { billionths: MAXIMUM_PREFERENCE }
    } else if 3 * liked <= disliked {
        Fixed { billionths: MINIMUM_PREFERENCE }
    } else {
        assert((ONE as int) * liked <= 1_000_000_000 * 18_446_744_073_709_551_626) by (nonlinear_arith)
            requires
                0 <= liked <= 18_446_744_073_709_551_626,
        ;
        let value: u128 = (ONE as u128) * liked / disliked;
        proof {
            lemma_ratio_below(liked as int, disliked as int, 3);
        }
        Fixed { billionths: value as u64 }
    }
}

/// The share of recorded plays that succeeded, from a twentieth to one, in
/// billionths.
pub fn reliability(evidence: Evidence) -> (r: Fixed)
    ensures
        r.billionths == reliability_spec(evidence),
{
    let succeeded: u128 = 1 + evidence.finishes as u128;
    let attempted: u128 = 1 + evidence.finishes as u128 + evidence.failures as u128;
    if 20 * succeeded <= attempted {
        Fixed { billionths: MINIMUM_RELIABILITY }
    } else {
        assert((ONE as int) * succeeded <= 1_000_000_000 * 18_446_744_073_709_551_626) by (nonlinear_arith)
            requires
                0 <= succeeded <= 18_446_744_073_709_551_626,
        ;
        let value: u128 = (ONE as u128) * succeeded / attempted;
        proof {
            lemma_ratio_below(succeeded as int, attempted as int, 1);
        }
        Fixed { billionths: value as u64 }
    }
}

proof fn lemma_ratio_below(num: int, den: int, bound: int)
    requires
        0 <= num,
        0 < den,
        0 < bound <= 3,
        num <= bound * den,
    ensures
        0 <= (ONE as int) * num / den <= bound * ONE,
{
    assert((ONE as int) * num <= (bound * ONE) * den) by (nonlinear_arith)
        requires
            0 <= num <= bound * den,
            0 < den,
    ;
    assert((ONE as int) * num / den <= bound * ONE) by (nonlinear_arith)
        requires
            (ONE as int) * num <= (bound * ONE) * den,
            0 < den,
            0 <= (ONE as int) * num,
    ;
    assert(0 <= (ONE as int) * num / den) by (nonlinear_arith)
        requires
            0 <= (ONE as int) * num,
            0 < den,
    ;
}

proof fn lemma_ratio_at_least(num: int, den: int, low_num: int, low_den: int)
    requires
        0 <= num,
        0 < den,
        0 < low_den,
        0 <= low_num,
        low_num * den <= num * low_den,
    ensures
        (ONE as int) * low_num / low_den <= (ONE as int) * num / den,
{
    let a = (ONE as int) * low_num / low_den;
    assert(a * low_den <= (ONE as int) * low_num) by (nonlinear_arith)
        requires
            a == (ONE as int) * low_num / low_den,
            0 < low_den,
            0 <= low_num,
    ;
    assert(a * den <= (ONE as int) * num) by (nonlinear_arith)
        requires
            a * low_den <= (ONE as int) * low_num,
            low_num * den <= num * low_den,
            0 < den,
            0 < low_den,
    ;
    assert(a <= (ONE as int) * num / den) by (nonlinear_arith)
        requires
            a * den <= (ONE as int) * num,
            0 < den,
    ;
}

/// However lopsided the evidence, preference stays between a third and three,
/// and reliability between a twentieth and one, so no track is driven out of
/// the running or made certain to win.
pub proof fn lemma_ratings_are_bounded(evidence: Evidence)
    ensures
        MINIMUM_PREFERENCE <= preference_spec(evidence) <= MAXIMUM_PREFERENCE,
        MINIMUM_RELIABILITY <= reliability_spec(evidence) <= ONE,
{
    let liked = PREFERENCE_PRIOR + evidence.finishes;
    let disliked = PREFERENCE_PRIOR + evidence.quick_skips;
    if !(liked >= 3 * disliked) && !(3 * liked <= disliked) {
        lemma_ratio_below(liked as int, disliked as int, 3);
        lemma_ratio_at_least(liked as int, disliked as int, 1, 3);
    }
    let succeeded = 1 + evidence.finishes;
    let attempted = 1 + evidence.finishes + evidence.failures;
    if !(20 * succeeded <= attempted) {
        lemma_ratio_below(succeeded as int, attempted as int, 1);
        lemma_ratio_at_least(succeeded as int, attempted as int, 1, 20);
    }
}

/// Only what the listener decided moves a preference: a finish can only
/// raise it and a quick skip only lower it, while a late skip, a failure or
/// any other event leaves it as it was.
pub proof fn lemma_preference_moves_only_on_decisions(evidence: Evidence, event: AnyTrackEvent)
    ensures
        match event {
            AnyTrackEvent::Skipped(skipped) => if skipped.listened_for.millis() < 15_000 {
                preference_spec(observed(evidence, event)) <= preference_spec(evidence)
            } else {
                preference_spec(observed(evidence, event)) == preference_spec(evidence)
            },
            AnyTrackEvent::PlaybackOutcome(PlaybackOutcome::Finished) => preference_spec(
                observed(evidence, event),
            ) >= preference_spec(evidence),
            _ => preference_spec(observed(evidence, event)) == preference_spec(evidence),
        },
{
    let after = observed(evidence, event);
    match event {
        AnyTrackEvent::Skipped(skipped) => {
            if skipped.listened_for.millis() < 15_000 {
                lemma_preference_is_monotone(after, evidence);
            }
        },
        AnyTrackEvent::PlaybackOutcome(PlaybackOutcome::Finished) => {
            lemma_preference_is_monotone(evidence, after);
        },
        _ => {},
    }
}

/// More finishes never lower a preference and more quick skips never raise
/// it.
pub proof fn lemma_preference_is_monotone(evidence: Evidence, more: Evidence)
    requires
        more.finishes >= evidence.finishes,
        more.quick_skips <= evidence.quick_skips,
    ensures
        preference_spec(more) >= preference_spec(evidence),
{
    lemma_ratings_are_bounded(evidence);
    lemma_ratings_are_bounded(more);
    let a = PREFERENCE_PRIOR + evidence.finishes;
    let b = PREFERENCE_PRIOR + evidence.quick_skips;
    let c = PREFERENCE_PRIOR + more.finishes;
    let d = PREFERENCE_PRIOR + more.quick_skips;
    if !(c >= 3 * d) && !(3 * c <= d) && !(a >= 3 * b) && !(3 * a <= b) {
        assert(a * d <= c * b) by (nonlinear_arith)
            requires
                0 < a <= c,
                0 < d <= b,
        ;
        lemma_ratio_at_least(c as int, d as int, a as int, b as int);
    } else if !(c >= 3 * d) && !(3 * c <= d) {
        if a >= 3 * b {
            assert(c >= 3 * d);
        }
        lemma_ratio_at_least(c as int, d as int, 1, 3);
    } else if !(a >= 3 * b) && !(3 * a <= b) {
        if 3 * c <= d {
            assert(3 * a <= b);
        }
        lemma_ratio_below(a as int, b as int, 3);
    }
}

/// Later finishes raise reliability again, so a track that has been repaired
/// stops being held back by its failures.
pub proof fn lemma_finishes_restore_reliability(evidence: Evidence, more: Evidence)
    requires
        more.finishes >= evidence.finishes,
        more.failures == evidence.failures,
    ensures
        reliability_spec(more) >= reliability_spec(evidence),
{
    lemma_ratings_are_bounded(evidence);
    lemma_ratings_are_bounded(more);
    let a = 1 + evidence.finishes;
    let b = 1 + evidence.finishes + evidence.failures;
    let c = 1 + more.finishes;
    let d = 1 + more.finishes + more.failures;
    let x = evidence.failures;
    if !(20 * c <= d) && !(20 * a <= b) {
        assert(a * d <= c * b) by (nonlinear_arith)
            requires
                0 < a <= c,
                b == a + x,
                d == c + x,
                0 <= x,
        ;
        lemma_ratio_at_least(c as int, d as int, a as int, b as int);
    } else if !(20 * c <= d) {
        lemma_ratio_at_least(c as int, d as int, 1, 20);
    } else if !(20 * a <= b) {
        assert(20 * a <= b) by (nonlinear_arith)
            requires
                20 * c <= d,
                0 < a <= c,
                b == a + x,
                d == c + x,
                0 <= x,
        ;
    }
}

/// Reliability is the share of plays that succeeded, counting a track's
/// arrival as one play that succeeded: with `s` the finishes plus one and
/// `a` the finishes and failures plus one, it is `s / a` in billionths,
/// rounded down, unless that share is at most a twentieth, when it is the
/// floor of a twentieth.
pub proof fn lemma_reliability_is_success_share(evidence: Evidence)
    ensures
        ({
            let s = 1 + evidence.finishes;
            let a = 1 + evidence.finishes + evidence.failures;
            let r = reliability_spec(evidence);
            &&& 20 * s <= a ==> r == MINIMUM_RELIABILITY
            &&& 20 * s > a ==> r * a <= (ONE as int) * s < (r + 1) * a
        }),
{
    let s: int = 1 + evidence.finishes;
    let a: int = 1 + evidence.finishes + evidence.failures;
    if 20 * s > a {
        let x = (ONE as int) * s;
        vstd::arithmetic::div_mod::lemma_fundamental_div_mod(x, a);
        vstd::arithmetic::div_mod::lemma_mod_bound(x, a);
        let q = x / a;
        assert(reliability_spec(evidence) == q);
        assert(q * a <= x < (q + 1) * a) by (nonlinear_arith)
            requires
                x == a * q + x % a,
                0 <= x % a < a,
        ;
    }
}

/// Preference is the ratio of finishes to quick skips, ten added to each:
/// with `l` the finishes plus ten and `d` the quick skips plus ten, it is
/// `l / d` in billionths, rounded down, held to three when the ratio is at
/// least three and to a third when it is at most a third.
pub proof fn lemma_preference_is_finish_ratio(evidence: Evidence)
    ensures
        ({
            let l = 10 + evidence.finishes;
            let d = 10 + evidence.quick_skips;
            let p = preference_spec(evidence);
            &&& l >= 3 * d ==> p == MAXIMUM_PREFERENCE
            &&& 3 * l <= d ==> p == MINIMUM_PREFERENCE
            &&& 3 * l > d && l < 3 * d ==> p * d <= (ONE as int) * l < (p + 1) * d
        }),
{
    let l: int = 10 + evidence.finishes;
    let d: int = 10 + evidence.quick_skips;
    if 3 * l > d && l < 3 * d {
        let x = (ONE as int) * l;
        vstd::arithmetic::div_mod::lemma_fundamental_div_mod(x, d);
        vstd::arithmetic::div_mod::lemma_mod_bound(x, d);
        let q = x / d;
        assert(preference_spec(evidence) == q);
        assert(q * d <= x < (q + 1) * d) by (nonlinear_arith)
            requires
                x == d * q + x % d,
                0 <= x % d < d,
        ;
    }
}

/// The events among `events` that are finishes.
pub open spec fn finishes_among(events: Seq<crate::track_events::TimeTaggedTrackEvent>) -> nat {
    events.filter(
        |e: crate::track_events::TimeTaggedTrackEvent|
            e.event == AnyTrackEvent::PlaybackOutcome(PlaybackOutcome::Finished),
    ).len()
}

/// The events among `events` that are skips before fifteen seconds.
pub open spec fn quick_skips_among(events: Seq<crate::track_events::TimeTaggedTrackEvent>) -> nat {
    events.filter(
        |e: crate::track_events::TimeTaggedTrackEvent|
            e.event matches AnyTrackEvent::Skipped(skipped) && skipped.listened_for.millis() < 15_000,
    ).len()
}

/// The events among `events` that are failures to play.
pub open spec fn failures_among(events: Seq<crate::track_events::TimeTaggedTrackEvent>) -> nat {
    events.filter(
        |e: crate::track_events::TimeTaggedTrackEvent|
            e.event matches AnyTrackEvent::PlaybackOutcome(PlaybackOutcome::Failed(_)),
    ).len()
}

/// A count, stopped at the largest `u64`.
pub open spec fn capped(count: nat) -> u64 {
    if count < u64::MAX { count as u64 } else { u64::MAX }
}

/// The evidence of a track's events counts them by kind: its finishes, its
/// skips before fifteen seconds, and its failures to play, each count
/// stopping at the largest `u64`. No other event counts.
pub proof fn lemma_evidence_counts_events(events: Seq<crate::track_events::TimeTaggedTrackEvent>)
    ensures
        evidence_spec(events).finishes == capped(finishes_among(events)),
        evidence_spec(events).quick_skips == capped(quick_skips_among(events)),
        evidence_spec(events).failures == capped(failures_among(events)),
    decreases events.len(),
{
    reveal(Seq::filter);
    if events.len() > 0 {
        lemma_evidence_counts_events(events.drop_last());
    }
}

} // verus!
