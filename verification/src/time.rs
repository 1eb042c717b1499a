//! Timekeeping: a point on a timeline and a length of one, both counted in
//! milliseconds. Arithmetic saturates; the checked forms report overflow.

use core::ops::Add;
use core::ops::AddAssign;
use core::ops::Sub;
use core::ops::SubAssign;
use vstd::prelude::*;
use vstd::std_specs::ops::AddSpec;
use vstd::std_specs::ops::AddSpecImpl;
use vstd::std_specs::ops::SubSpec;
use vstd::std_specs::ops::SubSpecImpl;
use std::time::SystemTime;
use std::time::UNIX_EPOCH;

verus! {

/// The system clock's reading, as std represents it.
#[verifier::external_type_specification]
#[verifier::external_body]
pub struct ExSystemTime(std::time::SystemTime);

/// `SystemTime::now`: what the clock reads. Nothing is stated of it.
#[verifier::external_body]
fn clock_reading() -> SystemTime {
    SystemTime::now()
}

/// `SystemTime::duration_since` the Unix epoch, its error dropped: `None` for
/// a reading before the epoch. Nothing is stated of the span itself.
#[verifier::external_body]
fn since_unix_epoch(reading: &SystemTime) -> Option<core::time::Duration> {
    reading.duration_since(UNIX_EPOCH).ok()
}

/// `Duration::as_millis`: the whole milliseconds in a span. Nothing is stated
/// of the count, as the span itself is opaque here.
#[verifier::external_body]
fn whole_milliseconds(elapsed: &core::time::Duration) -> u128 {
    elapsed.as_millis()
}

/// Milliseconds in one second.
pub const MILLISECONDS_PER_SECOND: u64 = 1000;

/// The saturating sum of two counts.
pub open spec fn saturating_sum(a: int, b: int) -> int {
    if a + b > u64::MAX { u64::MAX as int } else { a + b }
}

/// The saturating difference of two counts.
pub open spec fn saturating_difference(a: int, b: int) -> int {
    if a < b { 0 } else { a - b }
}

/// A point in time, to millisecond resolution, counted from the Unix epoch.
#[derive(Debug, Clone, Copy, PartialEq, Eq, PartialOrd, Ord, Hash, Default, Structural)]
pub struct Time {
    milliseconds: u64,
}

/// A length of time, to millisecond resolution.
#[derive(Debug, Clone, Copy, PartialEq, Eq, PartialOrd, Ord, Hash, Default, Structural)]
pub struct Duration {
    milliseconds: u64,
}

impl Time {
    /// Milliseconds since the Unix epoch.
    pub closed spec fn millis(self) -> nat {
        self.milliseconds as nat
    }

    /// The point `m` milliseconds after the epoch, for `m` within range.
    pub closed spec fn at_millis(m: int) -> Time {
        Time { milliseconds: m as u64 }
    }

    /// The Unix epoch, the earliest representable point in time.
    pub fn epoch() -> (t: Time)
        ensures
            t.millis() == 0,
    {
        Time { milliseconds: 0 }
    }

    /// The current time, as `from_elapsed` reads the clock. What the clock
    /// reads is not stated.
    pub fn now() -> (t: Time) {
        let reading = clock_reading();
        let elapsed = match since_unix_epoch(&reading) {
            None => None,
            Some(span) => Some(whole_milliseconds(&span)),
        };
        Time::from_elapsed(elapsed)
    }

    /// The point a clock reading stands for, given the whole milliseconds
    /// it is past the Unix epoch, or `None` for a reading before the epoch:
    /// a reading before the epoch is the epoch, and one past the last
    /// representable millisecond is that millisecond.
    pub fn from_elapsed(elapsed: Option<u128>) -> (t: Time)
        ensures
            t.millis() == match elapsed {
                None => 0,
                Some(m) => if m > u64::MAX { u64::MAX as int } else { m as int },
            },
    {
        let milliseconds: u64 = match elapsed {
            None => 0,
            Some(whole) => {
                if whole > u64::MAX as u128 {
                    u64::MAX
                } else {
                    whole as u64
                }
            },
        };
        Time { milliseconds }
    }

    /// The point `milliseconds` after the Unix epoch.
    pub fn from_unix_milliseconds(milliseconds: u64) -> (t: Time)
        ensures
            t.millis() == milliseconds,
    {
        Time { milliseconds }
    }

    /// Milliseconds since the Unix epoch.
    pub fn as_unix_milliseconds(self) -> (m: u64)
        ensures
            m == self.millis(),
    {
        self.milliseconds
    }

    /// The time elapsed since `earlier`, or zero if `earlier` is the later.
    pub fn duration_since(self, earlier: Time) -> (d: Duration)
        ensures
            d.millis() == saturating_difference(self.millis() as int, earlier.millis() as int),
    {
        if self.milliseconds < earlier.milliseconds {
            Duration { milliseconds: 0 }
        } else {
            Duration { milliseconds: self.milliseconds - earlier.milliseconds }
        }
    }

    /// The time elapsed since `earlier`, or `None` if `earlier` is the later.
    pub fn checked_duration_since(self, earlier: Time) -> (d: Option<Duration>)
        ensures
            d is None <==> self.millis() < earlier.millis(),
            d matches Some(span) ==> span.millis() == self.millis() - earlier.millis(),
    {
        if self.milliseconds < earlier.milliseconds {
            None
        } else {
            Some(Duration { milliseconds: self.milliseconds - earlier.milliseconds })
        }
    }

    /// The point `span` later, saturating at the end of the range.
    pub fn saturating_add(self, span: Duration) -> (t: Time)
        ensures
            t.millis() == saturating_sum(self.millis() as int, span.millis() as int),
    {
        Time { milliseconds: self.milliseconds.saturating_add(span.milliseconds) }
    }

    /// The point `span` earlier, saturating at the epoch.
    pub fn saturating_sub(self, span: Duration) -> (t: Time)
        ensures
            t.millis() == saturating_difference(self.millis() as int, span.millis() as int),
    {
        Time { milliseconds: self.milliseconds.saturating_sub(span.milliseconds) }
    }

    /// Whether this point is strictly before `other`.
    pub fn is_before(self, other: Time) -> (b: bool)
        ensures
            b == (self.millis() < other.millis()),
    {
        self.milliseconds < other.milliseconds
    }

    /// The later of two points.
    pub fn latest(self, other: Time) -> (t: Time)
        ensures
            t == (if self.millis() < other.millis() { other } else { self }),
    {
        if self.milliseconds < other.milliseconds { other } else { self }
    }
}

impl Duration {
    /// The length in milliseconds.
    pub closed spec fn millis(self) -> nat {
        self.milliseconds as nat
    }

    /// The span of `m` milliseconds, for `m` within range.
    pub closed spec fn of_millis(m: int) -> Duration {
        Duration { milliseconds: m as u64 }
    }

    /// A duration of zero.
    pub fn zero() -> (d: Duration)
        ensures
            d.millis() == 0,
    {
        Duration { milliseconds: 0 }
    }

    /// The longest representable duration.
    pub fn maximum() -> (d: Duration)
        ensures
            d.millis() == u64::MAX,
    {
        Duration { milliseconds: u64::MAX }
    }

    /// The largest count of whole seconds `from_seconds` represents exactly.
    pub const MAX_WHOLE_SECONDS: u64 = 18_446_744_073_709_551;

    /// A duration of `milliseconds`.
    pub fn from_milliseconds(milliseconds: u64) -> (d: Duration)
        ensures
            d.millis() == milliseconds,
    {
        Duration { milliseconds }
    }

    /// A duration of whole seconds, saturating to `Duration::MAX`.
    pub fn from_seconds(seconds: u64) -> (d: Duration)
        ensures
            d.millis() == (if seconds * 1000 > u64::MAX { u64::MAX as int } else { seconds * 1000 }),
    {
        match seconds.checked_mul(MILLISECONDS_PER_SECOND) {
            Some(milliseconds) => Duration { milliseconds },
            None => Duration { milliseconds: u64::MAX },
        }
    }

    /// A duration of whole seconds, or `None` if it exceeds `Duration::MAX`.
    pub fn checked_from_seconds(seconds: u64) -> (d: Option<Duration>)
        ensures
            d is None <==> seconds * 1000 > u64::MAX,
            d matches Some(span) ==> span.millis() == seconds * 1000,
    {
        match seconds.checked_mul(MILLISECONDS_PER_SECOND) {
            Some(milliseconds) => Some(Duration { milliseconds }),
            None => None,
        }
    }

    /// The duration in milliseconds.
    pub fn as_milliseconds(self) -> (m: u64)
        ensures
            m == self.millis(),
    {
        self.milliseconds
    }

    /// The duration in whole seconds, truncated.
    pub fn as_whole_seconds(self) -> (s: u64)
        ensures
            s == self.millis() / 1000,
    {
        self.milliseconds / MILLISECONDS_PER_SECOND
    }

    /// Whether the duration is zero.
    pub fn is_zero(self) -> (b: bool)
        ensures
            b == (self.millis() == 0),
    {
        self.milliseconds == 0
    }

    /// This duration minus `other`, or `None` if `other` is longer.
    pub fn checked_sub(self, other: Duration) -> (d: Option<Duration>)
        ensures
            d is None <==> self.millis() < other.millis(),
            d matches Some(span) ==> span.millis() == self.millis() - other.millis(),
    {
        if self.milliseconds < other.milliseconds {
            None
        } else {
            Some(Duration { milliseconds: self.milliseconds - other.milliseconds })
        }
    }

    /// The sum of two durations, saturating at `Duration::MAX`.
    pub fn saturating_add(self, other: Duration) -> (d: Duration)
        ensures
            d.millis() == saturating_sum(self.millis() as int, other.millis() as int),
    {
        Duration { milliseconds: self.milliseconds.saturating_add(other.milliseconds) }
    }

    /// This duration minus `other`, saturating at zero.
    pub fn saturating_sub(self, other: Duration) -> (d: Duration)
        ensures
            d.millis() == saturating_difference(self.millis() as int, other.millis() as int),
    {
        Duration { milliseconds: self.milliseconds.saturating_sub(other.milliseconds) }
    }

    /// Whether this duration is strictly shorter than `other`.
    pub fn is_shorter_than(self, other: Duration) -> (b: bool)
        ensures
            b == (self.millis() < other.millis()),
    {
        self.milliseconds < other.milliseconds
    }
}

impl Add<Duration> for Time {
    type Output = Time;

    fn add(self, span: Duration) -> (t: Time) {
        self.saturating_add(span)
    }
}

impl AddSpecImpl<Duration> for Time {
    open spec fn obeys_add_spec() -> bool {
        true
    }

    open spec fn add_req(self, span: Duration) -> bool {
        true
    }

    open spec fn add_spec(self, span: Duration) -> Time {
        Time::at_millis(saturating_sum(self.millis() as int, span.millis() as int))
    }
}

impl AddAssign<Duration> for Time {
    fn add_assign(&mut self, span: Duration)
        ensures
            final(self).millis() == saturating_sum(old(self).millis() as int, span.millis() as int),
    {
        *self = self.saturating_add(span);
    }
}

impl Sub<Duration> for Time {
    type Output = Time;

    fn sub(self, span: Duration) -> (t: Time) {
        self.saturating_sub(span)
    }
}

impl SubSpecImpl<Duration> for Time {
    open spec fn obeys_sub_spec() -> bool {
        true
    }

    open spec fn sub_req(self, span: Duration) -> bool {
        true
    }

    open spec fn sub_spec(self, span: Duration) -> Time {
Time::at_millis(saturating_difference(self.millis() as int, span.millis() as int))
    }
}

impl SubAssign<Duration> for Time {
    fn sub_assign(&mut self, span: Duration)
        ensures
            final(self).millis() == saturating_difference(old(self).millis() as int, span.millis() as int),
    {
        *self = self.saturating_sub(span);
    }
}

impl Sub<Time> for Time {
    type Output = Duration;

    fn sub(self, earlier: Time) -> (d: Duration) {
        self.duration_since(earlier)
    }
}

impl SubSpecImpl<Time> for Time {
    open spec fn obeys_sub_spec() -> bool {
        true
    }

    open spec fn sub_req(self, earlier: Time) -> bool {
        true
    }

    open spec fn sub_spec(self, earlier: Time) -> Duration {
Duration::of_millis(saturating_difference(self.millis() as int, earlier.millis() as int))
    }
}

impl Add<Time> for Duration {
    type Output = Time;

    fn add(self, point: Time) -> (t: Time) {
        point.saturating_add(self)
    }
}

impl AddSpecImpl<Time> for Duration {
    open spec fn obeys_add_spec() -> bool {
        true
    }

    open spec fn add_req(self, point: Time) -> bool {
        true
    }

    open spec fn add_spec(self, point: Time) -> Time {
        Time::at_millis(saturating_sum(point.millis() as int, self.millis() as int))
    }
}

impl Add for Duration {
    type Output = Duration;

    fn add(self, other: Duration) -> (d: Duration) {
        self.saturating_add(other)
    }
}

impl AddSpecImpl for Duration {
    open spec fn obeys_add_spec() -> bool {
        true
    }

    open spec fn add_req(self, other: Duration) -> bool {
        true
    }

    open spec fn add_spec(self, other: Duration) -> Duration {
        Duration::of_millis(saturating_sum(self.millis() as int, other.millis() as int))
    }
}

impl AddAssign for Duration {
    fn add_assign(&mut self, other: Duration)
        ensures
            final(self).millis() == saturating_sum(old(self).millis() as int, other.millis() as int),
    {
        *self = self.saturating_add(other);
    }
}

impl Sub for Duration {
    type Output = Duration;

    fn sub(self, other: Duration) -> (d: Duration) {
        self.saturating_sub(other)
    }
}

impl SubSpecImpl for Duration {
    open spec fn obeys_sub_spec() -> bool {
        true
    }

    open spec fn sub_req(self, other: Duration) -> bool {
        true
    }

    open spec fn sub_spec(self, other: Duration) -> Duration {
Duration::of_millis(saturating_difference(self.millis() as int, other.millis() as int))
    }
}

impl SubAssign for Duration {
    fn sub_assign(&mut self, other: Duration)
        ensures
            final(self).millis() == saturating_difference(old(self).millis() as int, other.millis() as int),
    {
        *self = self.saturating_sub(other);
    }
}

/// A point's count of milliseconds is within range.
pub broadcast proof fn lemma_time_bounded(a: Time)
    ensures
        #[trigger] a.millis() <= u64::MAX,
{
}

/// A count within range names the point that holds it.
pub broadcast proof fn lemma_time_at_millis(m: int)
    requires
        0 <= m <= u64::MAX,
    ensures
        (#[trigger] Time::at_millis(m)).millis() == m,
{
}

/// A point is determined by its count of milliseconds.
pub broadcast proof fn lemma_time_eq(a: Time, b: Time)
    requires
        #[trigger] a.millis() == #[trigger] b.millis(),
    ensures
        a == b,
{
}

/// A span's count of milliseconds is within range.
pub broadcast proof fn lemma_duration_bounded(a: Duration)
    ensures
        #[trigger] a.millis() <= u64::MAX,
{
}

/// A count within range names the span that holds it.
pub broadcast proof fn lemma_duration_of_millis(m: int)
    requires
        0 <= m <= u64::MAX,
    ensures
        (#[trigger] Duration::of_millis(m)).millis() == m,
{
}

/// A span is determined by its count of milliseconds.
pub broadcast proof fn lemma_duration_eq(a: Duration, b: Duration)
    requires
        #[trigger] a.millis() == #[trigger] b.millis(),
    ensures
        a == b,
{
}

/// The facts that let other modules reason about points and spans by their
/// counts of milliseconds.
pub broadcast group group_time {
    lemma_time_bounded,
    lemma_time_at_millis,
    lemma_time_eq,
    lemma_duration_bounded,
    lemma_duration_of_millis,
    lemma_duration_eq,
}

/// Moving a point forward by a span and back again returns it to where it
/// started, unless the move forward ran off the end of the timeline; and the
/// span between the two points is the span moved by.
pub proof fn lemma_forward_then_back(point: Time, span: Duration)
    requires
        point.millis() + span.millis() <= u64::MAX,
    ensures
        SubSpec::sub_spec(AddSpec::add_spec(point, span), span) == point,
        SubSpec::sub_spec(AddSpec::add_spec(point, span), point) == span,
{
}

/// Saturating arithmetic never leaves the range: adding to the last point
/// gives the last point, and subtracting from the epoch gives the epoch.
pub proof fn lemma_saturation_at_the_ends(point: Time, span: Duration)
    ensures
        point.millis() == u64::MAX ==> AddSpec::add_spec(point, span) == point,
        point.millis() == 0 ==> SubSpec::sub_spec(point, span) == point,
        SubSpec::sub_spec(point, point).millis() == 0,
{
}

} // verus!
