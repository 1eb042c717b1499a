//! Three independent factors, and the draw priority that is their product.
//!
//! Every factor is positive, so a priority is too: no single factor can drop
//! a track out of the running.

use crate::rating;
use crate::rating::Evidence;
use crate::rating::Fixed;
use crate::rating::ONE;
use crate::time::Duration;
use crate::time::Time;
use crate::track_events::AnyTrackEvent;
use crate::track_events::TimeTaggedTrackEvent;
use crate::track_events::TimeTaggedTrackEvents;
use vstd::prelude::*;

verus! {

broadcast use crate::time::group_time;

/// Staleness of a track that has just played: one, in billionths.
pub const FRESH_MULTIPLIER: u64 = 1_000_000_000;

/// Staleness of a track left long enough: three, in billionths.
pub const STALEST_MULTIPLIER: u64 = 3_000_000_000;

/// Milliseconds a track takes to become fully stale: two hours.
pub const GONE_STALE_MILLISECONDS: u64 = 7_200_000;

/// How long a track takes to become fully stale.
pub fn gone_stale_after() -> (d: Duration)
    ensures
        d.millis() == GONE_STALE_MILLISECONDS,
{
    Duration::from_seconds(2 * 60 * 60)
}

/// The independent factors of a draw priority.
#[derive(Debug, Clone, Copy, PartialEq, Eq, Structural)]
pub struct Factors {
    /// Measured listener preference.
    pub preference: Fixed,
    /// What the time since the track last played counts for.
    pub staleness: Fixed,
    /// Measured playback reliability.
    pub reliability: Fixed,
}

/// The product of three factors, in billionths, rounded down.
pub open spec fn product_spec(p: int, s: int, r: int) -> int {
    p * s * r / ((ONE as int) * (ONE as int))
}

impl Factors {
    /// The factors multiplied together, in billionths.
    pub open spec fn priority_spec(self) -> int {
        product_spec(
            self.preference.billionths as int,
            self.staleness.billionths as int,
            self.reliability.billionths as int,
        )
    }

    /// Each factor lies within the bounds the rating rules give it.
    pub open spec fn within_bounds(self) -> bool {
        &&& rating::MINIMUM_PREFERENCE <= self.preference.billionths <= rating::MAXIMUM_PREFERENCE
        &&& FRESH_MULTIPLIER <= self.staleness.billionths <= STALEST_MULTIPLIER
        &&& rating::MINIMUM_RELIABILITY <= self.reliability.billionths <= ONE
    }

    /// The factors multiplied together. Positive whenever the factors are
    /// within their bounds.
    pub fn priority(self) -> (p: Fixed)
        requires
            self.within_bounds(),
        ensures
            p.billionths == self.priority_spec(),
            p.billionths > 0,
    {
        let p = self.preference.billionths as u128;
        let s = self.staleness.billionths as u128;
        let r = self.reliability.billionths as u128;
        proof {
            lemma_product_bounds(p as int, s as int, r as int);
        }
        let value: u128 = p * s * r / ((ONE as u128) * (ONE as u128));
        Fixed { billionths: value as u64 }
    }
}

proof fn lemma_product_bounds(p: int, s: int, r: int)
    requires
        rating::MINIMUM_PREFERENCE <= p <= rating::MAXIMUM_PREFERENCE,
        FRESH_MULTIPLIER <= s <= STALEST_MULTIPLIER,
        rating::MINIMUM_RELIABILITY <= r <= ONE,
    ensures
        p * s <= 9_000_000_000_000_000_000,
        p * s * r <= 9_000_000_000_000_000_000_000_000_000,
        0 < product_spec(p, s, r) <= 9_000_000_000,
{
    assert(p * s <= 9_000_000_000_000_000_000) by (nonlinear_arith)
        requires
            0 <= p <= 3_000_000_000,
            0 <= s <= 3_000_000_000,
    ;
    assert(p * s * r <= 9_000_000_000_000_000_000_000_000_000) by (nonlinear_arith)
        requires
            0 <= p * s <= 9_000_000_000_000_000_000,
            0 <= r <= 1_000_000_000,
    ;
    assert(p * s * r >= 16_666_666_650_000_000_000_000_000) by (nonlinear_arith)
        requires
            p >= 333_333_333,
            s >= 1_000_000_000,
            r >= 50_000_000,
    ;
    let q = p * s * r;
    assert(q / 1_000_000_000_000_000_000 > 0 && q / 1_000_000_000_000_000_000 <= 9_000_000_000)
        by (nonlinear_arith)
        requires
            16_666_666_650_000_000_000_000_000 <= q <= 9_000_000_000_000_000_000_000_000_000,
    ;
    assert((ONE as int) * (ONE as int) == 1_000_000_000_000_000_000);
}

/// Staleness in billionths: one just after a track played, rising linearly to
/// three over two hours; a track never played is fully stale.
pub open spec fn staleness_spec(last_played: Option<Time>, now: Time) -> int {
    match last_played {
        None => STALEST_MULTIPLIER as int,
        Some(last) => {
            let elapsed = if now.millis() < last.millis() { 0 } else { now.millis() - last.millis() };
            if elapsed >= GONE_STALE_MILLISECONDS {
                STALEST_MULTIPLIER as int
            } else {
                FRESH_MULTIPLIER + 2 * (ONE as int) * elapsed / (GONE_STALE_MILLISECONDS as int)
            }
        },
    }
}

/// Staleness, rising linearly from one to three over two hours.
pub fn staleness(last_played: Option<Time>, now: Time) -> (s: Fixed)
    ensures
        s.billionths == staleness_spec(last_played, now),
        FRESH_MULTIPLIER <= s.billionths <= STALEST_MULTIPLIER,
{
    match last_played {
        None => Fixed { billionths: STALEST_MULTIPLIER },
        Some(last) => {
            let elapsed = now.duration_since(last).as_milliseconds();
            if elapsed >= GONE_STALE_MILLISECONDS {
                Fixed { billionths: STALEST_MULTIPLIER }
            } else {
                let share: u64 = 2 * ONE * elapsed / GONE_STALE_MILLISECONDS;
                proof {
                    assert(2 * (ONE as int) * elapsed < 2 * (ONE as int) * GONE_STALE_MILLISECONDS)
                        by (nonlinear_arith)
                        requires
                            elapsed < GONE_STALE_MILLISECONDS,
                    ;
                }
                Fixed { billionths: FRESH_MULTIPLIER + share }
            }
        },
    }
}

/// Staleness lies between its fresh and stalest multipliers.
pub proof fn lemma_staleness_bounded(last_played: Option<Time>, now: Time)
    ensures
        FRESH_MULTIPLIER <= staleness_spec(last_played, now) <= STALEST_MULTIPLIER,
{
    if let Some(last) = last_played {
        let elapsed: int = if now.millis() < last.millis() { 0 } else { now.millis() - last.millis() };
        if elapsed < GONE_STALE_MILLISECONDS {
            assert(2 * (ONE as int) * elapsed < 2 * (ONE as int) * GONE_STALE_MILLISECONDS)
                by (nonlinear_arith)
                requires
                    0 <= elapsed < GONE_STALE_MILLISECONDS,
            ;
            assert(2 * (ONE as int) * elapsed / (GONE_STALE_MILLISECONDS as int) <= 2 * (ONE as int))
                by (nonlinear_arith)
                requires
                    0 <= 2 * (ONE as int) * elapsed < 2 * (ONE as int) * GONE_STALE_MILLISECONDS,
            ;
            assert(2 * (ONE as int) * elapsed / (GONE_STALE_MILLISECONDS as int) >= 0)
                by (nonlinear_arith)
                requires
                    0 <= elapsed,
            ;
        }
    }
}

/// The factors of a track with this evidence, last played at `last_played`.
pub fn factors(evidence: Evidence, last_played: Option<Time>, now: Time) -> (f: Factors)
    ensures
        f.preference.billionths == rating::preference_spec(evidence),
        f.staleness.billionths == staleness_spec(last_played, now),
        f.reliability.billionths == rating::reliability_spec(evidence),
        f.within_bounds(),
{
    proof {
        rating::lemma_ratings_are_bounded(evidence);
    }
    Factors {
        preference: rating::preference(evidence),
        staleness: staleness(last_played, now),
        reliability: rating::reliability(evidence),
    }
}

/// Every factor is positive, so a priority is too; and none is unbounded, so
/// no priority exceeds nine.
pub proof fn lemma_priority_is_positive(f: Factors)
    requires
        f.within_bounds(),
    ensures
        0 < f.priority_spec() <= 9_000_000_000,
{
    lemma_product_bounds(
        f.preference.billionths as int,
        f.staleness.billionths as int,
        f.reliability.billionths as int,
    );
}

/// A track only grows staler as time passes.
pub proof fn lemma_staleness_grows(last: Time, now: Time, later: Time)
    requires
        now.millis() <= later.millis(),
    ensures
        staleness_spec(Some(last), now) <= staleness_spec(Some(last), later),
{
    let e1: int = if now.millis() < last.millis() { 0 } else { now.millis() - last.millis() };
    let e2: int = if later.millis() < last.millis() { 0 } else { later.millis() - last.millis() };
    assert(e1 <= e2);
    if e2 < GONE_STALE_MILLISECONDS {
        assert(2 * (ONE as int) * e1 / (GONE_STALE_MILLISECONDS as int) <= 2 * (ONE as int) * e2
            / (GONE_STALE_MILLISECONDS as int)) by (nonlinear_arith)
            requires
                0 <= e1 <= e2,
        ;
    } else if e1 < GONE_STALE_MILLISECONDS {
        assert(2 * (ONE as int) * e1 / (GONE_STALE_MILLISECONDS as int) <= 2 * (ONE as int))
            by (nonlinear_arith)
            requires
                0 <= e1 < GONE_STALE_MILLISECONDS,
        ;
    }
}

/// The latest time of any event in `events` other than `Added`, which records
/// the track entering the library rather than a play.
pub open spec fn last_offered_spec(events: Seq<TimeTaggedTrackEvent>) -> Option<Time>
    decreases events.len(),
{
    if events.len() == 0 {
        None
    } else {
        let earlier = last_offered_spec(events.drop_last());
        let last = events.last();
        if last.event is Added {
            earlier
        } else {
            match earlier {
                None => Some(last.at),
                Some(before) => if before.millis() < last.at.millis() { Some(last.at) } else { Some(before) },
            }
        }
    }
}

/// When the track was last played, or `None` if it never has been.
pub fn last_offered_at(events: &TimeTaggedTrackEvents) -> (last: Option<Time>)
    ensures
        last == last_offered_spec(events@),
{
    let mut last: Option<Time> = None;
    let mut i: usize = 0;
    while i < events.len()
        invariant
            i <= events@.len(),
            last == last_offered_spec(events@.subrange(0, i as int)),
        decreases events@.len() - i,
    {
        let event = events.get(i);
        proof {
            assert(events@.subrange(0, i + 1).drop_last() =~= events@.subrange(0, i as int));
        }
        match event.event {
            AnyTrackEvent::Added(_) => {},
            _ => {
                last = match last {
                    None => Some(event.at),
                    Some(before) => Some(before.latest(event.at)),
                };
            },
        }
        i = i + 1;
    }
    assert(events@.subrange(0, events@.len() as int) =~= events@);
    last
}

/// When a track last played is the latest time among its events other than
/// its arrival: none when every event is an arrival, and otherwise the time
/// of some such event, no earlier than any other.
pub proof fn lemma_last_offered_is_latest_play(events: Seq<TimeTaggedTrackEvent>)
    ensures
        last_offered_spec(events) is None <==> forall|i: int| 0 <= i < events.len() ==> (#[trigger] events[i]).event is Added,
        last_offered_spec(events) matches Some(t) ==> {
            &&& exists|i: int| 0 <= i < events.len() && !((#[trigger] events[i]).event is Added) && events[i].at == t
            &&& forall|i: int| 0 <= i < events.len() && !((#[trigger] events[i]).event is Added) ==> events[i].at.millis()
                <= t.millis()
        },
    decreases events.len(),
{
    if events.len() > 0 {
        let front = events.drop_last();
        lemma_last_offered_is_latest_play(front);
        let k = events.len() - 1;
        assert forall|i: int| 0 <= i < front.len() implies front[i] == events[i] by {}
        if last_offered_spec(events) is None {
            assert forall|i: int| 0 <= i < events.len() implies (#[trigger] events[i]).event is Added by {
                if i < k {
                    assert(front[i] == events[i]);
                }
            }
        }
        match last_offered_spec(events) {
            Some(t) => {
                if events[k].event is Added {
                    let j = choose|j: int| 0 <= j < front.len() && !((#[trigger] front[j]).event is Added) && front[j].at == t;
                    assert(events[j] == front[j]);
                } else if let Some(b) = last_offered_spec(front) {
                    if b.millis() < events[k].at.millis() {
                    } else {
                        let j = choose|j: int| 0 <= j < front.len() && !((#[trigger] front[j]).event is Added) && front[j].at == b;
                        assert(events[j] == front[j]);
                    }
                }
                assert forall|i: int| 0 <= i < events.len() && !((#[trigger] events[i]).event is Added) implies events[i].at.millis()
                    <= t.millis() by {
                    if i < k {
                        assert(front[i] == events[i]);
                    }
                }
            },
            None => {},
        }
    }
}

/// Staleness is one just after a track plays and rises in proportion to
/// the time since, by two over two hours, staying at three from then on; a
/// track never played is at three. In billionths, rounded down.
pub proof fn lemma_staleness_rises_with_time(last_played: Option<Time>, now: Time)
    ensures
        last_played is None ==> staleness_spec(last_played, now) == 3_000_000_000,
        last_played matches Some(last) ==> {
            let e: int = if now.millis() < last.millis() { 0 } else { now.millis() - last.millis() };
            let s = staleness_spec(last_played, now);
            &&& e >= 7_200_000 ==> s == 3_000_000_000
            &&& e < 7_200_000 ==> (s - 1_000_000_000) * 7_200_000 <= 2_000_000_000 * e < (s - 1_000_000_000 + 1)
                * 7_200_000
        },
{
    if let Some(last) = last_played {
        let e: int = if now.millis() < last.millis() { 0 } else { now.millis() - last.millis() };
        if e < 7_200_000 {
            let x = 2 * (ONE as int) * e;
            vstd::arithmetic::div_mod::lemma_fundamental_div_mod(x, 7_200_000);
            vstd::arithmetic::div_mod::lemma_mod_bound(x, 7_200_000);
            let q = x / 7_200_000;
            assert(q * 7_200_000 <= x < (q + 1) * 7_200_000) by (nonlinear_arith)
                requires
                    x == 7_200_000 * q + x % 7_200_000,
                    0 <= x % 7_200_000 < 7_200_000,
            ;
        }
    }
}

/// A priority is the product of the three factors, in billionths, rounded
/// down.
pub proof fn lemma_priority_is_product(f: Factors)
    ensures
        ({
            let p = f.priority_spec();
            let product = f.preference.billionths * f.staleness.billionths * f.reliability.billionths;
            p * 1_000_000_000_000_000_000 <= product < (p + 1) * 1_000_000_000_000_000_000
        }),
{
    let product = f.preference.billionths * f.staleness.billionths * f.reliability.billionths;
    let d: int = 1_000_000_000_000_000_000;
    assert((ONE as int) * (ONE as int) == d);
    vstd::arithmetic::div_mod::lemma_fundamental_div_mod(product, d);
    vstd::arithmetic::div_mod::lemma_mod_bound(product, d);
    let q = product / d;
    assert(f.priority_spec() == q);
    assert(q * d <= product < (q + 1) * d) by (nonlinear_arith)
        requires
            product == d * q + product % d,
            0 <= product % d < d,
    ;
}

} // verus!
