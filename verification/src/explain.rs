//! Reporting the numbers the shuffle draws from, as text.
//!
//! `rows` takes the same library the player draws from and reports what each
//! factor contributes to a track's priority. `table` lays that out as text,
//! and `legend` describes the columns.

use crate::library::Library;
use crate::path::FsPath;
use crate::path::path_text;
use crate::offer;
use crate::rating;
use crate::rating::Fixed;
use crate::rating::ONE;
use crate::selection::Candidate;
use crate::selection::Exclusion;
use crate::selection::evaluations;
use crate::selection::evaluations_spec;
use crate::selection::lemma_draw_rules;
use crate::selection::priorities;
use crate::selection::weight_sum;
use crate::text;
use crate::text::decimal_text;
use crate::time::Duration;
use crate::time::Time;
use crate::time::saturating_difference;
use crate::track::TrackId;
use crate::ui::fit;
use crate::ui::fitted_text;
use crate::ui::text_columns;
use crate::ui::text_width;
use vstd::prelude::*;

verus! {

broadcast use crate::time::group_time;

/// A duration, in the largest unit that remains meaningful: seconds under a
/// minute, minutes under an hour, hours and minutes under a day, and whole
/// days beyond.
pub open spec fn span_text(seconds: nat) -> Seq<char> {
    if seconds < 60 {
        decimal_text(seconds) + "s"@
    } else if seconds < 3_600 {
        decimal_text(seconds / 60) + "m"@
    } else if seconds < 86_400 {
        decimal_text(seconds / 3_600) + "h "@ + decimal_text((seconds % 3_600) / 60) + "m"@
    } else {
        decimal_text(seconds / 86_400) + "d"@
    }
}

/// A span of whole seconds is shown in the largest unit it reaches, each
/// count the whole number of that unit in it: seconds under a minute;
/// minutes under an hour; hours and the minutes left over under a day; and
/// days beyond.
pub proof fn lemma_span_counts_whole_units(seconds: nat)
    ensures
        seconds < 60 ==> span_text(seconds) == decimal_text(seconds) + "s"@,
        60 <= seconds < 3_600 ==> exists|m: nat|
            m * 60 <= seconds < (m + 1) * 60 && #[trigger] decimal_text(m) + "m"@ == span_text(seconds),
        3_600 <= seconds < 86_400 ==> exists|h: nat, m: nat|
            m < 60 && h * 3_600 + m * 60 <= seconds < h * 3_600 + (m + 1) * 60 && #[trigger] decimal_text(h)
                + "h "@ + #[trigger] decimal_text(m) + "m"@ == span_text(seconds),
        86_400 <= seconds ==> exists|d: nat|
            d * 86_400 <= seconds < (d + 1) * 86_400 && #[trigger] decimal_text(d) + "d"@ == span_text(seconds),
{
    if 60 <= seconds < 3_600 {
        let m = seconds / 60;
        assert(m * 60 <= seconds < (m + 1) * 60) by (nonlinear_arith)
            requires
                m == seconds / 60,
        ;
        assert(decimal_text(m) + "m"@ == span_text(seconds));
    } else if 3_600 <= seconds < 86_400 {
        let h = seconds / 3_600;
        let m = (seconds % 3_600) / 60;
        assert(m < 60 && h * 3_600 + m * 60 <= seconds < h * 3_600 + (m + 1) * 60) by (nonlinear_arith)
            requires
                h == seconds / 3_600,
                m == (seconds % 3_600) / 60,
        ;
        assert(decimal_text(h) + "h "@ + decimal_text(m) + "m"@ == span_text(seconds));
    } else if 86_400 <= seconds {
        let d = seconds / 86_400;
        assert(d * 86_400 <= seconds < (d + 1) * 86_400) by (nonlinear_arith)
            requires
                d == seconds / 86_400,
        ;
        assert(decimal_text(d) + "d"@ == span_text(seconds));
    }
}

/// A duration, in the largest unit that remains meaningful.
pub fn span(length: Duration) -> (shown: String)
    ensures
        shown@ == span_text(length.millis() / 1000),
{
    let seconds = length.as_whole_seconds();
    let mut shown = String::new();
    if seconds < 60 {
        text::append_decimal(&mut shown, seconds);
        text::append(&mut shown, "s");
    } else if seconds < 3_600 {
        text::append_decimal(&mut shown, seconds / 60);
        text::append(&mut shown, "m");
    } else if seconds < 86_400 {
        text::append_decimal(&mut shown, seconds / 3_600);
        text::append(&mut shown, "h ");
        text::append_decimal(&mut shown, (seconds % 3_600) / 60);
        text::append(&mut shown, "m");
    } else {
        text::append_decimal(&mut shown, seconds / 86_400);
        text::append(&mut shown, "d");
    }
    shown
}

/// The two digits of a number below a hundred.
pub open spec fn two_digits(n: nat) -> Seq<char> {
    seq![text::digit_char(n / 10), text::digit_char(n % 10)]
}

/// A quantity in billionths, in whole hundredths: to the nearest, and to
/// the even one of the two nearest when it lies exactly between them.
pub open spec fn rounded_hundredths(billionths: nat) -> nat {
    let whole = billionths / 10_000_000;
    let rest = billionths % 10_000_000;
    if rest > 5_000_000 || (rest == 5_000_000 && whole % 2 == 1) {
        whole + 1
    } else {
        whole
    }
}

/// Rounding to hundredths gives the nearest hundredth, and of two equally
/// near the even one.
pub proof fn lemma_hundredths_are_nearest(billionths: nat)
    ensures
        ({
            let h = rounded_hundredths(billionths);
            let gap = billionths - h * 10_000_000;
            &&& -5_000_000 <= gap <= 5_000_000
            &&& (gap == 5_000_000 || gap == -5_000_000) ==> h % 2 == 0
        }),
{
    let whole = billionths / 10_000_000;
    let rest = billionths % 10_000_000;
    assert(billionths == whole * 10_000_000 + rest && 0 <= rest < 10_000_000) by (nonlinear_arith)
        requires
            whole == billionths / 10_000_000,
            rest == billionths % 10_000_000,
    ;
}

/// A quantity in billionths, to two decimal places.
pub open spec fn two_places_text(billionths: nat) -> Seq<char> {
    let hundredths = rounded_hundredths(billionths);
    decimal_text(hundredths / 100) + "."@ + two_digits(hundredths % 100)
}

/// A quantity in billionths, to two decimal places, a quantity halfway
/// between two hundredths going to the even one.
pub fn two_places(billionths: u64) -> (shown: String)
    ensures
        shown@ == two_places_text(billionths as nat),
{
    let whole = billionths / 10_000_000;
    let rest = billionths % 10_000_000;
    let hundredths = if rest > 5_000_000 || (rest == 5_000_000 && whole % 2 == 1) {
        whole + 1
    } else {
        whole
    };
    let mut shown = String::new();
    text::append_decimal(&mut shown, hundredths / 100);
    text::append(&mut shown, ".");
    let rest = hundredths % 100;
    text::push_char(&mut shown, text::digit_of(rest / 10));
    text::push_char(&mut shown, text::digit_of(rest % 10));
    proof {
        assert(shown@ =~= decimal_text((hundredths / 100) as nat) + "."@ + two_digits(rest as nat));
    }
    shown
}

/// What each column of the report means, and the range each factor spans.
pub open spec fn legend_text() -> Seq<char> {
    "taste     what the listener makes of a track, "@ + two_places_text(
            rating::MINIMUM_PREFERENCE as nat,
        ) + " to "@ + two_places_text(rating::MAXIMUM_PREFERENCE as nat) + "\n"@
            + "stale     "@ + two_places_text(offer::FRESH_MULTIPLIER as nat)
            + " just after a track is played, rising to "@ + two_places_text(
            offer::STALEST_MULTIPLIER as nat,
        ) + " once left for "@ + span_text(offer::GONE_STALE_MILLISECONDS as nat / 1000) + "\n"@
            + "reliable  share of recorded plays that succeeded\n"@
            + "eligible  yes, or why a track is outside this draw\n"@
            + "weight    taste × stale × reliable, or zero when excluded\n"@
            + "share     that weight against every other track's; the bar draws it to scale"@
}

/// What each column of the report means, and the range each factor spans.
pub fn legend() -> (shown: String)
    ensures
        shown@ == legend_text(),
{
    let mut shown = String::new();
    text::append(&mut shown, "taste     what the listener makes of a track, ");
    let low = two_places(rating::MINIMUM_PREFERENCE);
    text::append(&mut shown, low.as_str());
    text::append(&mut shown, " to ");
    let high = two_places(rating::MAXIMUM_PREFERENCE);
    text::append(&mut shown, high.as_str());
    text::append(&mut shown, "\n");
    text::append(&mut shown, "stale     ");
    let fresh = two_places(offer::FRESH_MULTIPLIER);
    text::append(&mut shown, fresh.as_str());
    text::append(&mut shown, " just after a track is played, rising to ");
    let stalest = two_places(offer::STALEST_MULTIPLIER);
    text::append(&mut shown, stalest.as_str());
    text::append(&mut shown, " once left for ");
    let left = span(offer::gone_stale_after());
    text::append(&mut shown, left.as_str());
    text::append(&mut shown, "\n");
    text::append(&mut shown, "reliable  share of recorded plays that succeeded\n");
    text::append(&mut shown, "eligible  yes, or why a track is outside this draw\n");
    text::append(&mut shown, "weight    taste × stale × reliable, or zero when excluded\n");
    text::append(
        &mut shown,
        "share     that weight against every other track's; the bar draws it to scale",
    );
    shown
}

/// What the shuffle computes for one track.
#[derive(Debug, Clone, PartialEq, Eq)]
pub struct Row {
    /// The name displayed.
    pub name: String,
    /// The measured listener preference.
    pub preference: Fixed,
    /// What the time since the track last played contributes.
    pub staleness: Fixed,
    /// The share of recorded plays that succeeded.
    pub reliability: Fixed,
    /// The factors multiplied together: the weight the track is drawn with.
    pub priority: Fixed,
    /// Why the track is excluded from the next draw, if it is.
    pub exclusion: Option<Exclusion>,
    /// The track's share of the next draw, from zero to one.
    pub share: Fixed,
    /// Time since the track last played, or `None` if it never has.
    pub idle_for: Option<Duration>,
    /// How many events are recorded against the track.
    pub events: usize,
}

/// A weight's share of `total`, in billionths rounded down, or zero when
/// nothing weighs anything.
pub open spec fn share_of(weight: int, total: int) -> int {
    if total > 0 {
        weight * (ONE as int) / total
    } else {
        0
    }
}

/// Whether `row` reports `candidate`, a track of `library`, whose weight is
/// drawn against `total`, as of `now`.
pub open spec fn describes(row: Row, library: Library, candidate: Candidate, total: int, now: Time) -> bool {
    let id = candidate.identifier;
    &&& library.name_of(id) matches Some(name) && row.name@ == name@
    &&& row.preference == candidate.factors.preference
    &&& row.staleness == candidate.factors.staleness
    &&& row.reliability == candidate.factors.reliability
    &&& row.priority == candidate.priority
    &&& row.exclusion == candidate.exclusion
    &&& row.share.billionths == share_of(candidate.priority.billionths as int, total)
    &&& match (row.idle_for, library.last_played_spec(id)) {
        (None, None) => true,
        (Some(idle), Some(last)) => idle.millis() == saturating_difference(
            now.millis() as int,
            last.millis() as int,
        ),
        _ => false,
    }
    &&& row.events == library.events_of(id).len()
}

/// `sorted` with `row` placed after every row that weighs at least as much.
pub open spec fn insert_by_weight(sorted: Seq<Row>, row: Row) -> Seq<Row>
    decreases sorted.len(),
{
    if sorted.len() == 0 {
        seq![row]
    } else if sorted[0].priority.billionths >= row.priority.billionths {
        seq![sorted[0]] + insert_by_weight(sorted.drop_first(), row)
    } else {
        seq![row] + sorted
    }
}

/// The rows, heaviest first; rows of equal weight keep their order.
pub open spec fn heaviest_first(rows: Seq<Row>) -> Seq<Row>
    decreases rows.len(),
{
    if rows.len() == 0 {
        Seq::empty()
    } else {
        insert_by_weight(heaviest_first(rows.drop_last()), rows.last())
    }
}

/// Placing a row at the first position that weighs less is what
/// `insert_by_weight` does.
proof fn lemma_insert_at(sorted: Seq<Row>, row: Row, k: int)
    requires
        0 <= k <= sorted.len(),
        forall|j: int| 0 <= j < k ==> (#[trigger] sorted[j]).priority.billionths >= row.priority.billionths,
        k == sorted.len() || sorted[k].priority.billionths < row.priority.billionths,
    ensures
        insert_by_weight(sorted, row) == sorted.insert(k, row),
    decreases sorted.len(),
{
    if sorted.len() == 0 {
        assert(sorted.insert(k, row) =~= seq![row]);
    } else if k == 0 {
        assert(sorted.insert(0, row) =~= seq![row] + sorted);
    } else {
        let rest = sorted.drop_first();
        assert forall|j: int| 0 <= j < k - 1 implies (#[trigger] rest[j]).priority.billionths
            >= row.priority.billionths by {
            assert(rest[j] == sorted[j + 1]);
        }
        lemma_insert_at(rest, row, k - 1);
        assert(sorted.insert(k, row) =~= seq![sorted[0]] + rest.insert(k - 1, row));
    }
}

/// No weight of a list exceeds its sum.
proof fn lemma_weight_below_sum(weights: Seq<u64>, i: int)
    requires
        0 <= i < weights.len(),
    ensures
        weights[i] <= weight_sum(weights),
    decreases weights.len(),
{
    let front = weights.drop_last();
    if i < weights.len() - 1 {
        lemma_weight_below_sum(front, i);
        assert(front[i] == weights[i]);
    } else {
        lemma_weight_sum_nonnegative(front);
    }
}

/// A sum of weights is never negative.
proof fn lemma_weight_sum_nonnegative(weights: Seq<u64>)
    ensures
        weight_sum(weights) >= 0,
    decreases weights.len(),
{
    if weights.len() > 0 {
        lemma_weight_sum_nonnegative(weights.drop_last());
    }
}

/// The shares of a list of rows, added up.
pub open spec fn share_total(rows: Seq<Row>) -> int
    decreases rows.len(),
{
    if rows.len() == 0 {
        0
    } else {
        rows[0].share.billionths + share_total(rows.drop_first())
    }
}

/// Adding up shares from the back gives the same total.
proof fn lemma_share_total_last(rows: Seq<Row>)
    requires
        rows.len() > 0,
    ensures
        share_total(rows) == share_total(rows.drop_last()) + rows.last().share.billionths,
    decreases rows.len(),
{
    if rows.len() > 1 {
        lemma_share_total_last(rows.drop_first());
        assert(rows.drop_first().drop_last() =~= rows.drop_last().drop_first());
        assert(rows.drop_first().last() == rows.last());
    } else {
        assert(rows.drop_last() =~= Seq::<Row>::empty());
        assert(rows.drop_first() =~= Seq::<Row>::empty());
    }
}

/// Placing a row among others adds its share to theirs.
proof fn lemma_insert_total(sorted: Seq<Row>, row: Row)
    ensures
        share_total(insert_by_weight(sorted, row)) == share_total(sorted) + row.share.billionths,
    decreases sorted.len(),
{
    assert(share_total(Seq::<Row>::empty()) == 0);
    if sorted.len() == 0 {
        let placed = seq![row];
        assert(placed.drop_first() =~= Seq::<Row>::empty());
        assert(share_total(placed) == placed[0].share.billionths + share_total(placed.drop_first()));
    } else if sorted[0].priority.billionths >= row.priority.billionths {
        lemma_insert_total(sorted.drop_first(), row);
        let placed = seq![sorted[0]] + insert_by_weight(sorted.drop_first(), row);
        assert(placed.drop_first() =~= insert_by_weight(sorted.drop_first(), row));
        assert(placed[0] == sorted[0]);
        assert(share_total(placed) == placed[0].share.billionths + share_total(placed.drop_first()));
        assert(share_total(sorted) == sorted[0].share.billionths + share_total(sorted.drop_first()));
    } else {
        let placed = seq![row] + sorted;
        assert(placed.drop_first() =~= sorted);
        assert(placed[0] == row);
        assert(share_total(placed) == placed[0].share.billionths + share_total(placed.drop_first()));
    }
}

/// Putting the rows heaviest first leaves their shares adding up as before.
proof fn lemma_heaviest_first_total(rows: Seq<Row>)
    ensures
        share_total(heaviest_first(rows)) == share_total(rows),
    decreases rows.len(),
{
    if rows.len() > 0 {
        lemma_heaviest_first_total(rows.drop_last());
        lemma_insert_total(heaviest_first(rows.drop_last()), rows.last());
        lemma_share_total_last(rows);
    }
}

/// One weight's share of `total`, rounded down, is within one billionth of
/// its exact share.
proof fn lemma_share_step(weight: int, total: int)
    requires
        total > 0,
        weight >= 0,
    ensures
        share_of(weight, total) * total <= weight * (ONE as int),
        share_of(weight, total) * total > weight * (ONE as int) - total,
{
    let a = weight * (ONE as int);
    assert(share_of(weight, total) == a / total);
    assert((a / total) * total <= a && (a / total) * total > a - total) by (nonlinear_arith)
        requires
            total > 0,
            a >= 0,
    ;
}

/// The shares of the first `k` rows, against the weights they report.
proof fn lemma_shares_below_one(rows: Seq<Row>, weights: Seq<u64>, total: int, k: int)
    requires
        total > 0,
        rows.len() == weights.len(),
        forall|i: int| 0 <= i < rows.len() ==> (#[trigger] rows[i]).share.billionths == share_of(weights[i] as int, total),
        0 <= k <= rows.len(),
    ensures
        share_total(rows.take(k)) * total <= weight_sum(weights.take(k)) * (ONE as int),
        share_total(rows.take(k)) * total >= weight_sum(weights.take(k)) * (ONE as int) - k * total,
        k > 0 ==> share_total(rows.take(k)) * total > weight_sum(weights.take(k)) * (ONE as int) - k
            * total,
    decreases k,
{
    if k > 0 {
        lemma_shares_below_one(rows, weights, total, k - 1);
        lemma_share_total_last(rows.take(k));
        assert(rows.take(k).drop_last() =~= rows.take(k - 1));
        assert(weights.take(k).drop_last() =~= weights.take(k - 1));
        lemma_share_step(weights[k - 1] as int, total);
        let s = share_total(rows.take(k - 1));
        let w = weight_sum(weights.take(k - 1));
        let x = share_of(weights[k - 1] as int, total);
        assert(rows.take(k).last() == rows[k - 1]);
        assert(rows[k - 1].share.billionths == x);
        assert(share_total(rows.take(k)) == s + x);
        assert(weights.take(k).last() == weights[k - 1]);
        assert(weight_sum(weights.take(k)) == w + weights[k - 1]);
        assert((s + x) * total == s * total + x * total) by (nonlinear_arith);
        assert((w + weights[k - 1]) * (ONE as int) == w * (ONE as int) + weights[k - 1] * (ONE as int))
            by (nonlinear_arith);
        assert(k * total == (k - 1) * total + total) by (nonlinear_arith);
        assert(x * total > weights[k - 1] * (ONE as int) - total);
        assert(s * total >= w * (ONE as int) - (k - 1) * total);
    } else {
        assert(rows.take(0) =~= Seq::<Row>::empty());
        assert(weights.take(0) =~= Seq::<u64>::empty());
    }
}

/// A row for every track of the library, heaviest first, each reporting the
/// track's factors, its weight and its share of every track's weight, how
/// long ago it last played, and how many events it has.
pub fn rows(library: &Library, now: Time) -> (rows: Vec<Row>)
    requires
        library.well_formed(),
    ensures
        exists|unsorted: Seq<Row>| {
            let candidates = evaluations_spec(*library, now, Seq::empty(), None);
            &&& unsorted.len() == candidates.len()
            &&& forall|i: int| 0 <= i < unsorted.len() ==> describes(
                #[trigger] unsorted[i],
                *library,
                candidates[i],
                weight_sum(priorities(candidates)),
                now,
            )
            &&& rows@ == #[trigger] heaviest_first(unsorted)
        },
        forall|i: int, j: int| 0 <= i < j < rows@.len() ==> (#[trigger] rows@[i]).priority.billionths
            >= (#[trigger] rows@[j]).priority.billionths,
        ({
            let total = weight_sum(priorities(evaluations_spec(*library, now, Seq::empty(), None)));
            &&& total == 0 ==> share_total(rows@) == 0
            &&& total > 0 ==> (ONE as int) - rows@.len() < share_total(rows@) <= ONE as int
        }),
{
    let none: Vec<TrackId> = Vec::new();
    let candidates = evaluations(library, None, now, none.as_slice());
    let ghost all = evaluations_spec(*library, now, Seq::empty(), None);
    proof {
        assert(none@ =~= Seq::<TrackId>::empty());
        lemma_draw_rules(*library, now, Seq::empty(), None);
    }
    let ghost weights = priorities(all);
    let mut total: u128 = 0;
    let mut i: usize = 0;
    while i < candidates.len()
        invariant
            candidates@ == all,
            weights == priorities(all),
            weights.len() == all.len(),
            i <= all.len(),
            total == weight_sum(weights.take(i as int)),
            total <= i * 0xffff_ffff_ffff_ffffu64,
        decreases candidates.len() - i,
    {
        assert(weights.take(i + 1).drop_last() =~= weights.take(i as int));
        assert(weights[i as int] == candidates@[i as int].priority.billionths);
        total = total + candidates[i].priority.billionths as u128;
        i = i + 1;
    }
    assert(weights.take(i as int) =~= weights);
    let mut unsorted: Vec<Row> = Vec::new();
    let mut i: usize = 0;
    while i < candidates.len()
        invariant
            library.well_formed(),
            candidates@ == all,
            weights == priorities(all),
            weights.len() == all.len(),
            all.len() == library.ids().len(),
            forall|k: int| 0 <= k < all.len() ==> (#[trigger] all[k]).identifier == library.ids()[k],
            total == weight_sum(weights),
            i <= all.len(),
            unsorted@.len() == i,
            forall|k: int| 0 <= k < i ==> describes(
                #[trigger] unsorted@[k],
                *library,
                all[k],
                weight_sum(weights),
                now,
            ),
        decreases candidates.len() - i,
    {
        let candidate = candidates[i];
        proof {
            assert(library.ids().contains(candidate.identifier)) by {
                assert(library.ids()[i as int] == candidate.identifier);
            }
            lemma_weight_below_sum(weights, i as int);
            assert(weights[i as int] == candidate.priority.billionths);
        }
        match library.track(candidate.identifier) {
            Some(view) => {
                let p = candidate.priority.billionths as u128;
                let share: u64 = if total > 0 {
                    proof {
                        assert((p as int) * (ONE as int) / (total as int) <= ONE as int) by (nonlinear_arith)
                            requires
                                p <= total,
                                total > 0,
                        ;
                    }
                    (p * (ONE as u128) / total) as u64
                } else {
                    0
                };
                let idle_for = match library.last_played(candidate.identifier) {
                    Some(last) => Some(now.duration_since(last)),
                    None => None,
                };
                let row = Row {
                    name: view.name.to_string(),
                    preference: candidate.factors.preference,
                    staleness: candidate.factors.staleness,
                    reliability: candidate.factors.reliability,
                    priority: candidate.priority,
                    exclusion: candidate.exclusion,
                    share: Fixed { billionths: share },
                    idle_for,
                    events: view.events.len(),
                };
                unsorted.push(row);
            },
            None => {},
        }
        i = i + 1;
    }
    let ghost described = unsorted@;
    let mut sorted: Vec<Row> = Vec::new();
    let mut rest = unsorted;
    let mut taken: usize = 0;
    while rest.len() > 0
        invariant
            taken + rest@.len() == described.len(),
            described.len() <= usize::MAX,
            rest@ == described.skip(taken as int),
            sorted@ == heaviest_first(described.take(taken as int)),
            sorted@.len() == taken,
            forall|a: int, b: int| 0 <= a < b < sorted@.len() ==> (#[trigger] sorted@[a]).priority.billionths
                >= (#[trigger] sorted@[b]).priority.billionths,
        decreases rest@.len(),
    {
        let row = rest.remove(0);
        let weight = row.priority.billionths;
        let mut k: usize = 0;
        while k < sorted.len() && sorted[k].priority.billionths >= weight
            invariant
                k <= sorted@.len(),
                forall|j: int| 0 <= j < k ==> (#[trigger] sorted@[j]).priority.billionths >= weight,
            decreases sorted@.len() - k,
        {
            k = k + 1;
        }
        proof {
            assert(row == described[taken as int]);
            assert(described.take(taken + 1).drop_last() =~= described.take(taken as int));
            assert(described.take(taken + 1).last() == row);
            lemma_insert_at(sorted@, row, k as int);
        }
        let ghost before = sorted@;
        sorted.insert(k, row);
        proof {
            assert forall|a: int, b: int| 0 <= a < b < sorted@.len() implies (#[trigger] sorted@[a]).priority.billionths
                >= (#[trigger] sorted@[b]).priority.billionths by {
                if b < k {
                    assert(sorted@[a] == before[a] && sorted@[b] == before[b]);
                } else if b == k {
                    assert(sorted@[a] == before[a]);
                } else if a < k {
                    assert(sorted@[a] == before[a] && sorted@[b] == before[b - 1]);
                } else if a == k {
                    assert(sorted@[b] == before[b - 1]);
                    if k < before.len() {
                        assert(before[k as int].priority.billionths < weight);
                        if b - 1 > k {
                            assert(before[k as int].priority.billionths >= before[b - 1].priority.billionths);
                        }
                    }
                } else {
                    assert(sorted@[a] == before[a - 1] && sorted@[b] == before[b - 1]);
                }
            }
            assert(rest@ =~= described.skip(taken + 1));
        }
        taken = taken + 1;
    }
    assert(described.take(taken as int) =~= described);
    proof {
        lemma_heaviest_first_total(described);
        assert(share_total(sorted@) == share_total(described));
        let total = weight_sum(weights);
        if total == 0 {
            assert forall|k: int| 0 <= k < described.len() implies (#[trigger] described[k]).share.billionths
                == 0 by {
                assert(describes(described[k], *library, all[k], total, now));
            }
            lemma_zero_shares(described);
        } else {
            assert forall|k: int| 0 <= k < described.len() implies (#[trigger] described[k]).share.billionths
                == share_of(weights[k] as int, total) by {
                assert(describes(described[k], *library, all[k], total, now));
                assert(weights[k] == all[k].priority.billionths);
            }
            assert(weights.len() == described.len());
            if described.len() == 0 {
                assert(weights =~= Seq::<u64>::empty());
            }
            lemma_shares_below_one(described, weights, total, described.len() as int);
            assert(described.take(described.len() as int) =~= described);
            assert(weights.take(weights.len() as int) =~= weights);
            let s = share_total(described);
            let n = described.len() as int;
            assert(s * total <= total * (ONE as int));
            assert(s * total > total * (ONE as int) - n * total);
            assert(s <= ONE as int) by (nonlinear_arith)
                requires
                    s * total <= total * (ONE as int),
                    total > 0,
            ;
            assert(s > (ONE as int) - n) by (nonlinear_arith)
                requires
                    s * total > total * (ONE as int) - n * total,
                    total > 0,
            ;
        }
    }
    sorted
}

/// Rows that each have no share add up to none.
proof fn lemma_zero_shares(rows: Seq<Row>)
    requires
        forall|k: int| 0 <= k < rows.len() ==> (#[trigger] rows[k]).share.billionths == 0,
    ensures
        share_total(rows) == 0,
    decreases rows.len(),
{
    if rows.len() > 0 {
        let rest = rows.drop_first();
        assert forall|k: int| 0 <= k < rest.len() implies (#[trigger] rest[k]).share.billionths == 0 by {
            assert(rest[k] == rows[k + 1]);
        }
        lemma_zero_shares(rest);
    }
}

/// The widest a track name may be, in terminal columns, before it is
/// shortened.
pub const NAME_LIMIT: u16 = 28;

/// The width of a bar standing for the whole of the next draw.
pub const BAR_WIDTH: u64 = 8;

/// The separator between two columns.
pub const DIVIDER: &'static str = " | ";

/// The separator between two columns in the rule below the headings.
pub const RULE_DIVIDER: &'static str = "-+-";

/// The number of columns in the table.
pub const COLUMNS: usize = 8;

/// `n` copies of `c`.
pub open spec fn repeated(c: char, n: nat) -> Seq<char> {
    Seq::new(n, |i: int| c)
}

/// `text` right-aligned in `width` characters.
pub open spec fn right_aligned(text: Seq<char>, width: nat) -> Seq<char> {
    if text.len() < width {
        repeated(' ', (width - text.len()) as nat) + text
    } else {
        text
    }
}

/// Whether a track is in the next draw, or why not.
pub open spec fn eligible_text(exclusion: Option<Exclusion>) -> Seq<char> {
    match exclusion {
        None => "yes"@,
        Some(Exclusion::Recent) => "recent"@,
        Some(Exclusion::Unavailable) => "unavailable"@,
    }
}

/// How long ago a track last played, or `never`.
pub open spec fn idle_text(idle_for: Option<Duration>) -> Seq<char> {
    match idle_for {
        None => "never"@,
        Some(idle) => span_text(idle.millis() / 1000),
    }
}

/// A share in billionths as a percentage to one decimal place, half a
/// tenth rounding up.
pub open spec fn percentage_text(share: nat) -> Seq<char> {
    let tenths = (share + 500_000) / 1_000_000;
    decimal_text(tenths / 10) + "."@ + seq![text::digit_char(tenths % 10)] + "%"@
}

/// A bar of up to `BAR_WIDTH` blocks, proportional to a share in billionths,
/// rounded to the nearest block.
pub open spec fn bar_text(share: nat) -> Seq<char> {
    let filled = (share * BAR_WIDTH + 500_000_000) / 1_000_000_000;
    repeated('\u{2588}', if filled < BAR_WIDTH { filled as nat } else { BAR_WIDTH as nat })
}

/// A share as a percentage, right-aligned, followed by a bar of the same
/// size.
pub open spec fn share_text(share: nat) -> Seq<char> {
    right_aligned(percentage_text(share), 6) + "  "@ + bar_text(share)
}

/// The heading of column `c`.
pub open spec fn heading_text(c: int) -> Seq<char> {
    if c == 0 {
        "track"@
    } else if c == 1 {
        "taste"@
    } else if c == 2 {
        "stale"@
    } else if c == 3 {
        "reliable"@
    } else if c == 4 {
        "weight"@
    } else if c == 5 {
        "eligible"@
    } else if c == 6 {
        "last on"@
    } else {
        "share"@
    }
}

/// Whether column `c` is aligned to its left edge rather than its right.
pub open spec fn left_edge(c: int) -> bool {
    c == 0 || c == 5 || c == 7
}

/// What column `c` shows of a row.
pub open spec fn cell_text(c: int, row: Row) -> Seq<char> {
    if c == 0 {
        fitted_text(row.name@, NAME_LIMIT as int)
    } else if c == 1 {
        two_places_text(row.preference.billionths as nat)
    } else if c == 2 {
        two_places_text(row.staleness.billionths as nat)
    } else if c == 3 {
        two_places_text(row.reliability.billionths as nat)
    } else if c == 4 {
        two_places_text(row.priority.billionths as nat)
    } else if c == 5 {
        eligible_text(row.exclusion)
    } else if c == 6 {
        idle_text(row.idle_for)
    } else {
        share_text(row.share.billionths as nat)
    }
}

/// The widest of column `c`'s heading and its first `n` cells, in terminal
/// columns.
pub open spec fn widest(rows: Seq<Row>, c: int, n: int) -> int
    decreases n,
{
    if n <= 0 {
        text_columns(heading_text(c)) as int
    } else {
        let before = widest(rows, c, n - 1);
        let here = text_columns(cell_text(c, rows[n - 1])) as int;
        if before < here {
            here
        } else {
            before
        }
    }
}

/// The width of column `c`: its widest cell, heading included.
pub open spec fn column_width(rows: Seq<Row>, c: int) -> int {
    widest(rows, c, rows.len() as int)
}

/// `text` padded with spaces to `width` columns, on the side away from its
/// edge.
pub open spec fn padded_text(text: Seq<char>, width: int, left: bool) -> Seq<char> {
    let pad = if width > text_columns(text) { (width - text_columns(text)) as nat } else { 0 };
    if left {
        text + repeated(' ', pad)
    } else {
        repeated(' ', pad) + text
    }
}

/// `parts` with `divider` between each two.
pub open spec fn join_text(parts: Seq<Seq<char>>, divider: Seq<char>) -> Seq<char>
    decreases parts.len(),
{
    if parts.len() == 0 {
        Seq::empty()
    } else if parts.len() == 1 {
        parts[0]
    } else {
        join_text(parts.drop_last(), divider) + divider + parts.last()
    }
}

/// `s` without the spaces it ends with.
pub open spec fn trimmed(s: Seq<char>) -> Seq<char>
    decreases s.len(),
{
    if s.len() > 0 && s.last() == ' ' {
        trimmed(s.drop_last())
    } else {
        s
    }
}

/// The headings, each padded to its column.
pub open spec fn heading_line(rows: Seq<Row>) -> Seq<char> {
    trimmed(
        join_text(
            Seq::new(
                COLUMNS as nat,
                |c: int| padded_text(heading_text(c), column_width(rows, c), left_edge(c)),
            ),
            DIVIDER@,
        ),
    )
}

/// The rule below the headings, as wide as each column.
pub open spec fn rule_line(rows: Seq<Row>) -> Seq<char> {
    trimmed(
        join_text(
            Seq::new(COLUMNS as nat, |c: int| repeated('-', column_width(rows, c) as nat)),
            RULE_DIVIDER@,
        ),
    )
}

/// Row `i`, each cell padded to its column.
pub open spec fn row_line(rows: Seq<Row>, i: int) -> Seq<char> {
    trimmed(
        join_text(
            Seq::new(
                COLUMNS as nat,
                |c: int| padded_text(cell_text(c, rows[i]), column_width(rows, c), left_edge(c)),
            ),
            DIVIDER@,
        ),
    )
}

/// The table of `rows`: the headings, a rule, and a line per row, or `no
/// tracks` for none.
pub open spec fn table_text(rows: Seq<Row>) -> Seq<char> {
    if rows.len() == 0 {
        "no tracks"@
    } else {
        join_text(
            seq![heading_line(rows), rule_line(rows)] + Seq::new(rows.len(), |i: int| row_line(rows, i)),
            "\n"@,
        )
    }
}

/// The views of a list of strings.
pub open spec fn views(parts: Seq<String>) -> Seq<Seq<char>> {
    parts.map_values(|part: String| part@)
}

/// The views of a list with one more string are those of the list, then the
/// string's.
proof fn lemma_views_push(parts: Seq<String>, part: String)
    ensures
        views(parts.push(part)) == views(parts).push(part@),
{
    assert(views(parts.push(part)) =~= views(parts).push(part@));
}

/// `text` shortened to `NAME_LIMIT` columns, an ellipsis ending it when
/// anything was cut.
fn shortened(text: &str) -> (shown: String)
    ensures
        shown@ == fitted_text(text@, NAME_LIMIT as int),
{
    fit(text, NAME_LIMIT)
}

/// `n` copies of `c`.
fn repeat_char(c: char, n: usize) -> (text: String)
    ensures
        text@ == repeated(c, n as nat),
{
    let mut text = String::new();
    let mut i: usize = 0;
    while i < n
        invariant
            i <= n,
            text@ == repeated(c, i as nat),
        decreases n - i,
    {
        text::push_char(&mut text, c);
        assert(repeated(c, (i + 1) as nat) =~= repeated(c, i as nat).push(c));
        i = i + 1;
    }
    text
}

/// Whether a track is in the next draw, or why not.
fn eligible(exclusion: Option<Exclusion>) -> (text: String)
    ensures
        text@ == eligible_text(exclusion),
{
    match exclusion {
        None => text::owned("yes"),
        Some(Exclusion::Recent) => text::owned("recent"),
        Some(Exclusion::Unavailable) => text::owned("unavailable"),
    }
}

/// How long ago a track last played, or `never`.
fn idle(idle_for: Option<Duration>) -> (text: String)
    ensures
        text@ == idle_text(idle_for),
{
    match idle_for {
        None => text::owned("never"),
        Some(idle) => span(idle),
    }
}

/// A share in billionths as a percentage to one decimal place.
fn percentage(share: u64) -> (text: String)
    ensures
        text@ == percentage_text(share as nat),
{
    let tenths: u64 = ((share as u128 + 500_000) / 1_000_000) as u64;
    let mut text = text::decimal(tenths / 10);
    text::append(&mut text, ".");
    text::push_char(&mut text, text::digit_of(tenths % 10));
    text::append(&mut text, "%");
    text
}

/// A bar proportional to a share in billionths.
fn bar(share: u64) -> (text: String)
    ensures
        text@ == bar_text(share as nat),
{
    let scaled: u128 = share as u128;
    assert(scaled * 8 + 500_000_000 <= 0xffff_ffff_ffff_ffff_ffff);
    let filled: u128 = (scaled * 8 + 500_000_000) / 1_000_000_000;
    let blocks: usize = if filled < BAR_WIDTH as u128 { filled as usize } else { BAR_WIDTH as usize };
    repeat_char('\u{2588}', blocks)
}

/// A share as a percentage, right-aligned in six characters, and a bar.
fn share_cell(share: u64) -> (text: String)
    ensures
        text@ == share_text(share as nat),
{
    let shown = percentage(share);
    let length = text::chars_of(shown.as_str()).len();
    let mut text = if length < 6 {
        repeat_char(' ', 6 - length)
    } else {
        String::new()
    };
    text::append(&mut text, shown.as_str());
    text::append(&mut text, "  ");
    let drawn = bar(share);
    text::append(&mut text, drawn.as_str());
    text
}

/// The heading of column `c`.
fn heading(c: usize) -> (text: &'static str)
    requires
        c < COLUMNS,
    ensures
        text@ == heading_text(c as int),
{
    if c == 0 {
        "track"
    } else if c == 1 {
        "taste"
    } else if c == 2 {
        "stale"
    } else if c == 3 {
        "reliable"
    } else if c == 4 {
        "weight"
    } else if c == 5 {
        "eligible"
    } else if c == 6 {
        "last on"
    } else {
        "share"
    }
}

/// What column `c` shows of a row.
fn cell(c: usize, row: &Row) -> (text: String)
    requires
        c < COLUMNS,
    ensures
        text@ == cell_text(c as int, *row),
{
    if c == 0 {
        shortened(row.name.as_str())
    } else if c == 1 {
        two_places(row.preference.billionths)
    } else if c == 2 {
        two_places(row.staleness.billionths)
    } else if c == 3 {
        two_places(row.reliability.billionths)
    } else if c == 4 {
        two_places(row.priority.billionths)
    } else if c == 5 {
        eligible(row.exclusion)
    } else if c == 6 {
        idle(row.idle_for)
    } else {
        share_cell(row.share.billionths)
    }
}

/// Column `c`'s cell for every row, and the column's width.
fn column_of(rows: &[Row], c: usize) -> (column: (Vec<String>, usize))
    requires
        c < COLUMNS,
    ensures
        column.0@.len() == rows@.len(),
        forall|i: int| 0 <= i < rows@.len() ==> (#[trigger] column.0@[i])@ == cell_text(c as int, rows@[i]),
        column.1 == column_width(rows@, c as int),
{
    let mut cells: Vec<String> = Vec::new();
    let mut width: usize = text_width(heading(c));
    let mut i: usize = 0;
    while i < rows.len()
        invariant
            c < COLUMNS,
            i <= rows@.len(),
            cells@.len() == i,
            forall|k: int| 0 <= k < i ==> (#[trigger] cells@[k])@ == cell_text(c as int, rows@[k]),
            width == widest(rows@, c as int, i as int),
        decreases rows.len() - i,
    {
        let text = cell(c, &rows[i]);
        let here = text_width(text.as_str());
        if width < here {
            width = here;
        }
        cells.push(text);
        i = i + 1;
    }
    (cells, width)
}

/// `text` padded with spaces to `width` columns, on the side away from its
/// edge.
fn pad(text: &str, width: usize, left: bool) -> (padded: String)
    ensures
        padded@ == padded_text(text@, width as int, left),
{
    let columns = text_width(text);
    let room = if width > columns { width - columns } else { 0 };
    let spaces = repeat_char(' ', room);
    if left {
        let mut padded = text::owned(text);
        text::append(&mut padded, spaces.as_str());
        padded
    } else {
        let mut padded = spaces;
        text::append(&mut padded, text);
        padded
    }
}

/// `parts` with `divider` between each two.
fn join(parts: &Vec<String>, divider: &str) -> (joined: String)
    ensures
        joined@ == join_text(views(parts@), divider@),
{
    let mut joined = String::new();
    let mut i: usize = 0;
    while i < parts.len()
        invariant
            i <= parts@.len(),
            joined@ == join_text(views(parts@).take(i as int), divider@),
        decreases parts.len() - i,
    {
        let ghost before = views(parts@).take(i as int);
        if i > 0 {
            text::append(&mut joined, divider);
        }
        text::append(&mut joined, parts[i].as_str());
        proof {
            let after = views(parts@).take(i + 1);
            assert(after.drop_last() =~= before);
            assert(after.last() == parts@[i as int]@);
            if i == 0 {
                assert(after.len() == 1);
            }
        }
        i = i + 1;
    }
    assert(views(parts@).take(i as int) =~= views(parts@));
    joined
}

/// `text` without the spaces it ends with.
fn trim_end(text: String) -> (trimmed_text: String)
    ensures
        trimmed_text@ == trimmed(text@),
{
    let chars = text::chars_of(text.as_str());
    let mut end: usize = chars.len();
    assert(chars@.take(end as int) =~= chars@);
    while end > 0 && chars[end - 1] == ' '
        invariant
            end <= chars@.len(),
            trimmed(chars@.take(end as int)) == trimmed(chars@),
        decreases end,
    {
        assert(chars@.take(end - 1) =~= chars@.take(end as int).drop_last());
        end = end - 1;
    }
    let mut kept = String::new();
    let mut i: usize = 0;
    while i < end
        invariant
            end <= chars@.len(),
            i <= end,
            kept@ == chars@.take(i as int),
        decreases end - i,
    {
        text::push_char(&mut kept, chars[i]);
        assert(chars@.take(i + 1) =~= chars@.take(i as int).push(chars@[i as int]));
        i = i + 1;
    }
    proof {
        assert(chars@.take(chars@.len() as int) =~= chars@);
        let t = chars@.take(end as int);
        assert(t.len() == 0 || t.last() != ' ');
        assert(trimmed(t) == t);
    }
    kept
}

/// The rows as a table, one column per input: the headings, a rule below
/// them, and a line per row, each cell padded to its column's width in
/// terminal columns and the spaces ending a line trimmed; `no tracks` for no
/// rows.
pub fn table(rows: &[Row]) -> (shown: String)
    ensures
        shown@ == table_text(rows@),
{
    if rows.len() == 0 {
        return text::owned("no tracks");
    }
    let mut cells: Vec<Vec<String>> = Vec::new();
    let mut widths: Vec<usize> = Vec::new();
    let mut c: usize = 0;
    while c < COLUMNS
        invariant
            c <= COLUMNS,
            cells@.len() == c,
            widths@.len() == c,
            forall|k: int| 0 <= k < c ==> (#[trigger] widths@[k]) == column_width(rows@, k),
            forall|k: int| 0 <= k < c ==> (#[trigger] cells@[k])@.len() == rows@.len(),
            forall|k: int, i: int| 0 <= k < c && 0 <= i < rows@.len() ==> (#[trigger] cells@[k]@[i])@
                == cell_text(k, rows@[i]),
        decreases COLUMNS - c,
    {
        let (column, width) = column_of(rows, c);
        cells.push(column);
        widths.push(width);
        c = c + 1;
    }
    let mut lines: Vec<String> = Vec::new();
    let mut headings: Vec<String> = Vec::new();
    let mut rule: Vec<String> = Vec::new();
    let mut c: usize = 0;
    while c < COLUMNS
        invariant
            c <= COLUMNS,
            widths@.len() == COLUMNS,
            forall|k: int| 0 <= k < COLUMNS ==> (#[trigger] widths@[k]) == column_width(rows@, k),
            views(headings@) == Seq::new(
                COLUMNS as nat,
                |k: int| padded_text(heading_text(k), column_width(rows@, k), left_edge(k)),
            ).take(c as int),
            views(rule@) == Seq::new(
                COLUMNS as nat,
                |k: int| repeated('-', column_width(rows@, k) as nat),
            ).take(c as int),
        decreases COLUMNS - c,
    {
        let left = c == 0 || c == 5 || c == 7;
        let ghost headings_before = headings@;
        let ghost rule_before = rule@;
        let padded_heading = pad(heading(c), widths[c], left);
        let dashes = repeat_char('-', widths[c]);
        assert(padded_heading@ == padded_text(heading_text(c as int), column_width(rows@, c as int), left_edge(c as int)));
        assert(dashes@ == repeated('-', column_width(rows@, c as int) as nat));
        headings.push(padded_heading);
        rule.push(dashes);
        proof {
            lemma_views_push(headings_before, padded_heading);
            lemma_views_push(rule_before, dashes);
            assert(views(headings@) =~= Seq::new(
                COLUMNS as nat,
                |k: int| padded_text(heading_text(k), column_width(rows@, k), left_edge(k)),
            ).take(c + 1));
            assert(views(rule@) =~= Seq::new(
                COLUMNS as nat,
                |k: int| repeated('-', column_width(rows@, k) as nat),
            ).take(c + 1));
        }
        c = c + 1;
    }
    proof {
        assert(views(headings@) =~= Seq::new(
            COLUMNS as nat,
            |k: int| padded_text(heading_text(k), column_width(rows@, k), left_edge(k)),
        ));
        assert(views(rule@) =~= Seq::new(
            COLUMNS as nat,
            |k: int| repeated('-', column_width(rows@, k) as nat),
        ));
    }
    let first = trim_end(join(&headings, DIVIDER));
    let second = trim_end(join(&rule, RULE_DIVIDER));
    lines.push(first);
    lines.push(second);
    proof {
        lemma_views_push(Seq::empty(), first);
        lemma_views_push(seq![first], second);
        assert(seq![first].push(second) == lines@);
    }
    let ghost all_lines = seq![heading_line(rows@), rule_line(rows@)] + Seq::new(
        rows@.len(),
        |i: int| row_line(rows@, i),
    );
    let mut i: usize = 0;
    while i < rows.len()
        invariant
            i <= rows@.len(),
            widths@.len() == COLUMNS,
            forall|k: int| 0 <= k < COLUMNS ==> (#[trigger] widths@[k]) == column_width(rows@, k),
            cells@.len() == COLUMNS,
            forall|k: int| 0 <= k < COLUMNS ==> (#[trigger] cells@[k])@.len() == rows@.len(),
            forall|k: int, j: int| 0 <= k < COLUMNS && 0 <= j < rows@.len() ==> (#[trigger] cells@[k]@[j])@
                == cell_text(k, rows@[j]),
            all_lines == seq![heading_line(rows@), rule_line(rows@)] + Seq::new(
                rows@.len(),
                |j: int| row_line(rows@, j),
            ),
            all_lines.len() == rows@.len() + 2,
            views(lines@) == all_lines.take(i + 2),
        decreases rows.len() - i,
    {
        let mut parts: Vec<String> = Vec::new();
        let mut c: usize = 0;
        while c < COLUMNS
            invariant
                c <= COLUMNS,
                i < rows@.len(),
                widths@.len() == COLUMNS,
                forall|k: int| 0 <= k < COLUMNS ==> (#[trigger] widths@[k]) == column_width(rows@, k),
                cells@.len() == COLUMNS,
                forall|k: int| 0 <= k < COLUMNS ==> (#[trigger] cells@[k])@.len() == rows@.len(),
                forall|k: int, j: int| 0 <= k < COLUMNS && 0 <= j < rows@.len() ==> (#[trigger] cells@[k]@[j])@
                    == cell_text(k, rows@[j]),
                views(parts@) == Seq::new(
                    COLUMNS as nat,
                    |k: int| padded_text(cell_text(k, rows@[i as int]), column_width(rows@, k), left_edge(k)),
                ).take(c as int),
            decreases COLUMNS - c,
        {
            let left = c == 0 || c == 5 || c == 7;
            proof {
                assert((cells@[c as int]@[i as int])@ == cell_text(c as int, rows@[i as int]));
            }
            let ghost parts_before = parts@;
            let padded_cell = pad(cells[c][i].as_str(), widths[c], left);
            assert(padded_cell@ == padded_text(
                cell_text(c as int, rows@[i as int]),
                column_width(rows@, c as int),
                left_edge(c as int),
            ));
            parts.push(padded_cell);
            proof {
                lemma_views_push(parts_before, padded_cell);
                assert(views(parts@) =~= Seq::new(
                    COLUMNS as nat,
                    |k: int| padded_text(cell_text(k, rows@[i as int]), column_width(rows@, k), left_edge(k)),
                ).take(c + 1));
            }
            c = c + 1;
        }
        proof {
            assert(views(parts@) =~= Seq::new(
                COLUMNS as nat,
                |k: int| padded_text(cell_text(k, rows@[i as int]), column_width(rows@, k), left_edge(k)),
            ));
        }
        let ghost lines_before = lines@;
        let line = trim_end(join(&parts, DIVIDER));
        assert(line@ == row_line(rows@, i as int));
        lines.push(line);
        proof {
            lemma_views_push(lines_before, line);
            assert(seq![heading_line(rows@), rule_line(rows@)].len() == 2);
            assert(all_lines[i + 2] == row_line(rows@, i as int));
            assert(views(lines@) =~= all_lines.take(i + 3));
        }
        i = i + 1;
    }
    proof {
        assert(views(lines@) =~= all_lines);
    }
    join(&lines, "\n")
}

/// The whole report on the tracks below `directory`: a line naming the
/// directory and how many tracks it holds, the table, and the legend, a
/// blank line apart.
pub fn report(rows: &Vec<Row>, directory: &FsPath) -> (shown: String)
    ensures
        shown@ == path_text(directory@) + " \u{2014} "@ + decimal_text(rows@.len()) + " tracks\n\n"@
            + table_text(rows@) + "\n\n"@ + legend_text(),
{
    let mut shown = directory.to_string();
    text::append(&mut shown, " \u{2014} ");
    text::append_decimal(&mut shown, rows.len() as u64);
    text::append(&mut shown, " tracks\n\n");
    let laid_out = table(rows.as_slice());
    text::append(&mut shown, laid_out.as_str());
    text::append(&mut shown, "\n\n");
    let explained = legend();
    text::append(&mut shown, explained.as_str());
    shown
}

} // verus!
