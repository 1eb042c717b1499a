//! Which tracks are eligible for the next draw, and which of them is drawn.
//!
//! `evaluations` scores every track in the library. `Shuffle` then draws one
//! with probability proportional to its score.
//!
//! The most recently played tracks are excluded from a draw, a window that
//! grows with the square root of the library. Only tracks played within two
//! hours are counted as recent. A window that leaves nothing eligible is
//! relaxed one track at a time until something can play, and only then is the
//! track that just played allowed to follow itself. Tracks reported
//! unavailable are never relaxed back in.

use crate::library::Library;
use crate::offer;
use crate::offer::Factors;
use crate::rating;
use crate::rating::Fixed;
use crate::time::Time;
use crate::track::TrackId;
use rand::SeedableRng;
use rand::distr::Distribution;
use rand::distr::weighted::WeightedIndex;
use rand::rngs::Xoshiro256PlusPlus;
use vstd::prelude::*;

verus! {

broadcast use {crate::time::group_time, crate::track::lemma_track_id_eq};

/// The xoshiro256++ generator the draws come from.
#[verifier::external_type_specification]
#[verifier::external_body]
pub struct ExXoshiro256PlusPlus(Xoshiro256PlusPlus);

/// A distribution over the indices of a list of integer weights, held as
/// `rand` builds it.
#[verifier::external_body]
pub struct Weighting {
    index: WeightedIndex<u128>,
}

/// The weights a distribution was built from.
pub uninterp spec fn index_weights(weighting: Weighting) -> Seq<u128>;

/// The sum of a list of weights.
pub open spec fn weight_sum(weights: Seq<u64>) -> int
    decreases weights.len(),
{
    if weights.len() == 0 {
        0
    } else {
        weight_sum(weights.drop_last()) + weights.last()
    }
}

/// The sum of a list of wide weights.
pub open spec fn wide_sum(weights: Seq<u128>) -> int
    decreases weights.len(),
{
    if weights.len() == 0 {
        0
    } else {
        wide_sum(weights.drop_last()) + weights.last()
    }
}

/// `Clone` for xoshiro256++, which the crate derives: the copy holds the
/// same state.
pub assume_specification[ <Xoshiro256PlusPlus as Clone>::clone ](generator: &Xoshiro256PlusPlus) -> (copy: Xoshiro256PlusPlus)
    ensures
        copy == *generator,
;

/// The generator xoshiro256++ is started as from a seed.
pub uninterp spec fn seeded_state(seed: u64) -> Xoshiro256PlusPlus;

/// `SeedableRng::seed_from_u64` for xoshiro256++. The state it makes depends
/// on the seed alone, so it is named, and the state itself stays opaque here.
#[verifier::external_body]
fn seeded_generator(seed: u64) -> (generator: Xoshiro256PlusPlus)
    ensures
        generator == seeded_state(seed),
{
    Xoshiro256PlusPlus::seed_from_u64(seed)
}

/// `WeightedIndex::new` on integer weights, its error dropped. It refuses an
/// empty list, a zero total, and a total that overflows `u128`; otherwise the
/// distribution holds exactly the given weights.
#[verifier::external_body]
fn weighted_index(weights: &Vec<u128>) -> (index: Option<Weighting>)
    ensures
        index is None <==> (weights@.len() == 0 || wide_sum(weights@) == 0 || wide_sum(weights@)
            > u128::MAX),
        index matches Some(built) ==> index_weights(built) == weights@,
{
    match WeightedIndex::new(weights.iter()) {
        Ok(index) => Some(Weighting { index }),
        Err(_) => None,
    }
}

/// The index a distribution built from `weights` gives when sampled with
/// the generator at `generator`, and the generator as the sample leaves it.
pub uninterp spec fn sampled(weights: Seq<u128>, generator: Xoshiro256PlusPlus) -> (usize, Xoshiro256PlusPlus);

/// `Distribution::sample` of a `WeightedIndex`: it draws a point below the
/// total weight from the generator and returns the item whose share of the
/// total covers it, so an index into the weights whose weight is positive.
/// The index and the generator it leaves behind depend on the weights and on
/// the generator it was handed alone, so both are named.
#[verifier::external_body]
fn sample_index(index: &Weighting, random: &mut Xoshiro256PlusPlus) -> (drawn: usize)
    requires
        index_weights(*index).len() > 0,
        0 < wide_sum(index_weights(*index)) <= u128::MAX,
    ensures
        drawn < index_weights(*index).len(),
        index_weights(*index)[drawn as int] > 0,
        (drawn, *final(random)) == sampled(index_weights(*index), *old(random)),
{
    index.index.sample(random)
}

/// Why a track is absent from the next draw.
#[derive(Debug, Clone, Copy, PartialEq, Eq, Structural)]
pub enum Exclusion {
    /// It is among the most recently played tracks.
    Recent,
    /// It already failed during the player's current attempt to find a track
    /// that plays.
    Unavailable,
}

/// One track's evaluation for the next draw.
#[derive(Debug, Clone, Copy, PartialEq, Eq, Structural)]
pub struct Candidate {
    /// The track being evaluated.
    pub identifier: TrackId,
    /// The independent scoring factors.
    pub factors: Factors,
    /// The factors multiplied together, or zero if the track is excluded.
    pub priority: Fixed,
    /// Why the track is excluded, if it is.
    pub exclusion: Option<Exclusion>,
}

/// The factors the library gives a track at `now`.
pub open spec fn factors_spec(library: Library, id: TrackId, now: Time) -> Factors {
    Factors {
        preference: Fixed {
            billionths: rating::preference_spec(library.evidence_spec_of(id)) as u64,
        },
        staleness: Fixed {
            billionths: offer::staleness_spec(library.last_played_spec(id), now) as u64,
        },
        reliability: Fixed {
            billionths: rating::reliability_spec(library.evidence_spec_of(id)) as u64,
        },
    }
}

/// Why a track is excluded, if it is.
pub open spec fn exclusion_spec(
    unavailable: Seq<TrackId>,
    recent: Seq<TrackId>,
    just_played: Option<TrackId>,
    exclude_just_played: bool,
    id: TrackId,
) -> Option<Exclusion> {
    if unavailable.contains(id) {
        Some(Exclusion::Unavailable)
    } else if recent.contains(id) || (exclude_just_played && just_played == Some(id)) {
        Some(Exclusion::Recent)
    } else {
        None
    }
}

/// One track's evaluation, given what is excluded.
pub open spec fn candidate_spec(
    library: Library,
    now: Time,
    unavailable: Seq<TrackId>,
    recent: Seq<TrackId>,
    just_played: Option<TrackId>,
    exclude_just_played: bool,
    id: TrackId,
) -> Candidate {
    let factors = factors_spec(library, id, now);
    let exclusion = exclusion_spec(unavailable, recent, just_played, exclude_just_played, id);
    Candidate {
        identifier: id,
        factors,
        priority: Fixed {
            billionths: if exclusion is None { factors.priority_spec() as u64 } else { 0 },
        },
        exclusion,
    }
}

/// Every track's evaluation, in library order, given what is excluded.
pub open spec fn score_spec(
    library: Library,
    now: Time,
    unavailable: Seq<TrackId>,
    recent: Seq<TrackId>,
    just_played: Option<TrackId>,
    exclude_just_played: bool,
) -> Seq<Candidate> {
    library.ids().map_values(
        |id: TrackId|
            candidate_spec(library, now, unavailable, recent, just_played, exclude_just_played, id),
    )
}

/// Whether some candidate may be drawn.
pub open spec fn any_positive(candidates: Seq<Candidate>) -> bool {
    exists|i: int| 0 <= i < candidates.len() && candidates[i].priority.billionths > 0
}

/// Whether a track last played at `last` counts as recent at `now`.
pub open spec fn played_recently(last: Option<Time>, now: Time) -> bool {
    match last {
        Some(t) => (if now.millis() < t.millis() { 0 } else { now.millis() - t.millis() })
            < offer::GONE_STALE_MILLISECONDS,
        None => false,
    }
}

/// The time a track was last played, as a count, or zero if never.
pub open spec fn played_at(library: Library, id: TrackId) -> int {
    match library.last_played_spec(id) {
        Some(t) => t.millis() as int,
        None => 0,
    }
}

/// Where `id` goes in a list ordered latest first: after every track played
/// at the same time or later.
pub open spec fn insertion_point(library: Library, sorted: Seq<TrackId>, id: TrackId, from: int) -> int
    decreases sorted.len() - from,
{
    if from >= sorted.len() {
        sorted.len() as int
    } else if played_at(library, sorted[from]) < played_at(library, id) {
        from
    } else {
        insertion_point(library, sorted, id, from + 1)
    }
}

/// The recently played tracks among the first `n` of the library, latest
/// first, ties in library order.
pub open spec fn recent_spec(library: Library, now: Time, n: int) -> Seq<TrackId>
    decreases n,
{
    if n <= 0 {
        Seq::empty()
    } else {
        let before = recent_spec(library, now, n - 1);
        let id = library.ids()[n - 1];
        if played_recently(library.last_played_spec(id), now) {
            before.insert(insertion_point(library, before, id, 0), id)
        } else {
            before
        }
    }
}

/// The largest integer whose square is at most `n`.
pub open spec fn is_integer_sqrt(root: int, n: int) -> bool {
    0 <= root && root * root <= n < (root + 1) * (root + 1)
}

/// The evaluations with the `kept` most recent tracks excluded, relaxing
/// the window a track at a time until something can be drawn, and at last
/// letting the track that just played follow itself.
pub open spec fn windowed(
    library: Library,
    now: Time,
    unavailable: Seq<TrackId>,
    recent: Seq<TrackId>,
    just_played: Option<TrackId>,
    kept: nat,
) -> Seq<Candidate>
    decreases kept,
{
    let scored = score_spec(library, now, unavailable, recent.take(kept as int), just_played, true);
    if any_positive(scored) {
        scored
    } else if kept == 0 {
        score_spec(library, now, unavailable, Seq::empty(), just_played, false)
    } else {
        windowed(library, now, unavailable, recent, just_played, (kept - 1) as nat)
    }
}

/// The integer square root of `n`.
pub open spec fn integer_sqrt_spec(n: int) -> int {
    choose|root: int| is_integer_sqrt(root, n)
}

/// A number has one integer square root.
pub proof fn lemma_integer_sqrt_unique(a: int, b: int, n: int)
    requires
        is_integer_sqrt(a, n),
        is_integer_sqrt(b, n),
    ensures
        a == b,
{
    if a < b {
        assert((a + 1) * (a + 1) <= b * b) by (nonlinear_arith)
            requires
                0 <= a < b,
        ;
    } else if b < a {
        assert((b + 1) * (b + 1) <= a * a) by (nonlinear_arith)
            requires
                0 <= b < a,
        ;
    }
}

/// Every track's eligibility and score for the next draw.
pub open spec fn evaluations_spec(
    library: Library,
    now: Time,
    unavailable: Seq<TrackId>,
    just_played: Option<TrackId>,
) -> Seq<Candidate> {
    let n = library.ids().len() as int;
    let recent = recent_spec(library, now, n);
    let root = integer_sqrt_spec(n);
    let target = if root < n - 1 { root } else if n > 0 { n - 1 } else { 0 };
    let kept = if target < recent.len() { target } else { recent.len() as int };
    windowed(library, now, unavailable, recent, just_played, kept as nat)
}

/// The largest integer whose square is at most `value`.
fn integer_sqrt(value: usize) -> (root: usize)
    ensures
        is_integer_sqrt(root as int, value as int),
        root == integer_sqrt_spec(value as int),
{
    let mut root: usize = 0;
    loop
        invariant
            root * root <= value,
            root <= value,
        ensures
            root * root <= value,
            root <= value,
            root >= value || (root + 1) * (root + 1) > value,
        decreases value - root,
    {
        if root >= value {
            break;
        }
        let next: u128 = root as u128 + 1;
        assert(next * next <= 0xffff_ffff_ffff_ffff_ffff_ffff_ffff_ffffu128) by (nonlinear_arith)
            requires
                next <= 0xffff_ffff_ffff_ffffu128,
        ;
        if next * next > value as u128 {
            break;
        }
        root = root + 1;
    }
    proof {
        if root >= value {
            assert((root + 1) * (root + 1) > value) by (nonlinear_arith)
                requires
                    root >= value,
                    root >= 0,
            ;
        }
        assert(is_integer_sqrt(root as int, value as int));
        lemma_integer_sqrt_unique(root as int, integer_sqrt_spec(value as int), value as int);
    }
    root
}

/// Whether `ids` holds `id`.
pub(crate) fn holds(ids: &[TrackId], id: TrackId) -> (b: bool)
    ensures
        b == ids@.contains(id),
{
    let mut i: usize = 0;
    while i < ids.len()
        invariant
            i <= ids@.len(),
            forall|k: int| 0 <= k < i ==> ids@[k] != id,
        decreases ids.len() - i,
    {
        if ids[i] == id {
            assert(ids@[i as int] == id);
            return true;
        }
        i = i + 1;
    }
    false
}

/// One candidate per track, excluded tracks scoring zero.
fn score(
    library: &Library,
    now: Time,
    unavailable: &[TrackId],
    recent: &[TrackId],
    just_played: Option<TrackId>,
    exclude_just_played: bool,
) -> (candidates: Vec<Candidate>)
    requires
        library.well_formed(),
    ensures
        candidates@ == score_spec(*library, now, unavailable@, recent@, just_played, exclude_just_played),
{
    let ids = library.identifiers();
    let mut candidates: Vec<Candidate> = Vec::new();
    let mut i: usize = 0;
    while i < ids.len()
        invariant
            library.well_formed(),
            ids@ == library.ids(),
            i <= ids@.len(),
            candidates@ == score_spec(*library, now, unavailable@, recent@, just_played, exclude_just_played).take(i as int),
        decreases ids@.len() - i,
    {
        let identifier = ids.get(i);
        let factors = library.factors(identifier, now);
        let exclusion = if holds(unavailable, identifier) {
            Some(Exclusion::Unavailable)
        } else if holds(recent, identifier) || (exclude_just_played && just_played == Some(identifier)) {
            Some(Exclusion::Recent)
        } else {
            None
        };
        let priority = match exclusion {
            None => factors.priority(),
            Some(_) => Fixed::from_billionths(0),
        };
        candidates.push(Candidate { identifier, factors, priority, exclusion });
        i = i + 1;
        assert(candidates@ =~= score_spec(*library, now, unavailable@, recent@, just_played, exclude_just_played).take(i as int));
    }
    assert(score_spec(*library, now, unavailable@, recent@, just_played, exclude_just_played).take(i as int)
        =~= score_spec(*library, now, unavailable@, recent@, just_played, exclude_just_played));
    candidates
}

/// Whether some candidate may be drawn.
fn has_positive(candidates: &Vec<Candidate>) -> (b: bool)
    ensures
        b == any_positive(candidates@),
{
    let mut i: usize = 0;
    while i < candidates.len()
        invariant
            i <= candidates@.len(),
            forall|k: int| 0 <= k < i ==> candidates@[k].priority.billionths == 0,
        decreases candidates.len() - i,
    {
        if candidates[i].priority.billionths > 0 {
            return true;
        }
        i = i + 1;
    }
    false
}

/// Tracks played within two hours, latest first, ties in library order.
fn recent_tracks(library: &Library, now: Time) -> (recent: Vec<TrackId>)
    requires
        library.well_formed(),
    ensures
        recent@ == recent_spec(*library, now, library.ids().len() as int),
{
    let ids = library.identifiers();
    let mut recent: Vec<TrackId> = Vec::new();
    let mut times: Vec<u64> = Vec::new();
    let mut i: usize = 0;
    while i < ids.len()
        invariant
            library.well_formed(),
            ids@ == library.ids(),
            i <= ids@.len(),
            recent@ == recent_spec(*library, now, i as int),
            times@.len() == recent@.len(),
            forall|k: int| 0 <= k < recent@.len() ==> times@[k] == played_at(*library, #[trigger] recent@[k]),
        decreases ids@.len() - i,
    {
        let identifier = ids.get(i);
        let last = library.last_played(identifier);
        proof {
            assert(library.ids().contains(identifier));
        }
        match last {
            Some(played) => {
                if now.duration_since(played).is_shorter_than(offer::gone_stale_after()) {
                    let t = played.as_unix_milliseconds();
                    let mut at: usize = 0;
                    while at < recent.len() && times[at] >= t
                        invariant
                            times@.len() == recent@.len(),
                            at <= recent@.len(),
                            forall|k: int| 0 <= k < recent@.len() ==> times@[k] == played_at(*library, #[trigger] recent@[k]),
                            insertion_point(*library, recent@, identifier, at as int)
                                == insertion_point(*library, recent@, identifier, 0),
                            t == played_at(*library, identifier),
                        decreases recent@.len() - at,
                    {
                        at = at + 1;
                    }
                    let ghost before = recent@;
                    recent.insert(at, identifier);
                    times.insert(at, t);
                    proof {
                        assert(recent@ == before.insert(at as int, identifier));
                        assert forall|k: int| 0 <= k < recent@.len() implies times@[k] == played_at(
                            *library,
                            #[trigger] recent@[k],
                        ) by {
                            if k < at {
                            } else if k == at {
                            } else {
                                assert(recent@[k] == before[k - 1]);
                            }
                        }
                    }
                }
            },
            None => {},
        }
        i = i + 1;
    }
    recent
}

/// Every track's eligibility and score for the next draw.
///
/// This is what the shuffle draws from, exposed so that the numbers it acts
/// on can be reported.
pub fn evaluations(
    library: &Library,
    just_played: Option<TrackId>,
    now: Time,
    unavailable: &[TrackId],
) -> (candidates: Vec<Candidate>)
    requires
        library.well_formed(),
    ensures
        candidates@ == evaluations_spec(*library, now, unavailable@, just_played),
{
    let recent = recent_tracks(library, now);
    let n = library.len();
    let root = integer_sqrt(n);
    let target = if root < n.saturating_sub(1) {
        root
    } else {
        n.saturating_sub(1)
    };
    let mut kept = if target < recent.len() { target } else { recent.len() };
    let ghost start = kept;
    proof {
        assert(start == (if (if root < n - 1 { root as int } else if n > 0 { n - 1 } else { 0 }) < recent@.len() { if root < n - 1 { root as int } else if n > 0 { n - 1 } else { 0 } } else { recent@.len() as int }));
    }
    loop
        invariant
            library.well_formed(),
            kept <= recent@.len(),
            recent@ == recent_spec(*library, now, library.ids().len() as int),
            windowed(*library, now, unavailable@, recent@, just_played, start as nat)
                == windowed(*library, now, unavailable@, recent@, just_played, kept as nat),
            evaluations_spec(*library, now, unavailable@, just_played)
                == windowed(*library, now, unavailable@, recent@, just_played, start as nat),
        ensures
            kept == 0,
            !any_positive(score_spec(*library, now, unavailable@, recent@.take(0), just_played, true)),
        decreases kept,
    {
        let window = first_ids(&recent, kept);
        let scored = score(library, now, unavailable, window.as_slice(), just_played, true);
        if has_positive(&scored) {
            return scored;
        }
        if kept == 0 {
            break;
        }
        kept = kept - 1;
    }
    let nothing: Vec<TrackId> = Vec::new();
    assert(nothing@ =~= Seq::<TrackId>::empty());
    assert(recent@.take(0) =~= Seq::<TrackId>::empty());
    score(library, now, unavailable, nothing.as_slice(), just_played, false)
}

/// The first `n` identifiers of a list.
fn first_ids(ids: &Vec<TrackId>, n: usize) -> (first: Vec<TrackId>)
    requires
        n <= ids@.len(),
    ensures
        first@ == ids@.take(n as int),
{
    let mut first: Vec<TrackId> = Vec::new();
    let mut i: usize = 0;
    while i < n
        invariant
            n <= ids@.len(),
            i <= n,
            first@ == ids@.take(i as int),
        decreases n - i,
    {
        first.push(ids[i]);
        i = i + 1;
        assert(first@ =~= ids@.take(i as int));
    }
    first
}

/// The factors the library gives any track lie within their bounds.
proof fn lemma_factors_bounded(library: Library, id: TrackId, now: Time)
    ensures
        factors_spec(library, id, now).within_bounds(),
        0 < factors_spec(library, id, now).priority_spec() <= 9_000_000_000,
{
    rating::lemma_ratings_are_bounded(library.evidence_spec_of(id));
    offer::lemma_staleness_bounded(library.last_played_spec(id), now);
    offer::lemma_priority_is_positive(factors_spec(library, id, now));
}

/// A scored track can be drawn exactly when nothing excludes it.
proof fn lemma_scored(
    library: Library,
    now: Time,
    unavailable: Seq<TrackId>,
    recent: Seq<TrackId>,
    just_played: Option<TrackId>,
    exclude_just_played: bool,
)
    ensures
        ({
            let scored = score_spec(library, now, unavailable, recent, just_played, exclude_just_played);
            &&& scored.len() == library.ids().len()
            &&& forall|i: int| 0 <= i < scored.len() ==> (#[trigger] scored[i]).identifier == library.ids()[i]
            &&& forall|i: int| 0 <= i < scored.len() ==> ((#[trigger] scored[i]).priority.billionths > 0
                <==> scored[i].exclusion is None)
            &&& forall|i: int| 0 <= i < scored.len() ==> ((#[trigger] scored[i]).exclusion is None
                <==> exclusion_spec(unavailable, recent, just_played, exclude_just_played, library.ids()[i]) is None)
        }),
{
    let scored = score_spec(library, now, unavailable, recent, just_played, exclude_just_played);
    assert forall|i: int| 0 <= i < scored.len() implies ((#[trigger] scored[i]).priority.billionths > 0
        <==> scored[i].exclusion is None) by {
        let id = library.ids()[i];
        lemma_factors_bounded(library, id, now);
        assert(scored[i] == candidate_spec(library, now, unavailable, recent, just_played, exclude_just_played, id));
    }
}

/// What any window of the draw rules gives: one candidate per track, in
/// library order; an unavailable track never drawable; the track that just
/// played drawable only when every other track is unavailable; and something
/// drawable whenever some track is not unavailable.
proof fn lemma_windowed(
    library: Library,
    now: Time,
    unavailable: Seq<TrackId>,
    recent: Seq<TrackId>,
    just_played: Option<TrackId>,
    kept: nat,
)
    ensures
        ({
            let w = windowed(library, now, unavailable, recent, just_played, kept);
            let ids = library.ids();
            &&& w.len() == ids.len()
            &&& forall|i: int| 0 <= i < w.len() ==> (#[trigger] w[i]).identifier == ids[i]
            &&& forall|i: int| 0 <= i < w.len() && (#[trigger] w[i]).priority.billionths > 0
                ==> !unavailable.contains(ids[i])
            &&& forall|i: int, j: int|
                0 <= i < w.len() && 0 <= j < ids.len() && (#[trigger] w[i]).priority.billionths > 0
                    && just_played == Some(ids[i]) && #[trigger] ids[j] != ids[i]
                    ==> unavailable.contains(ids[j])
            &&& any_positive(w) <==> exists|j: int| 0 <= j < ids.len() && !unavailable.contains(#[trigger] ids[j])
        }),
    decreases kept,
{
    let ids = library.ids();
    let scored = score_spec(library, now, unavailable, recent.take(kept as int), just_played, true);
    lemma_scored(library, now, unavailable, recent.take(kept as int), just_played, true);
    if any_positive(scored) {
        let k = choose|k: int| 0 <= k < scored.len() && scored[k].priority.billionths > 0;
        assert(!unavailable.contains(ids[k]));
    } else if kept == 0 {
        let empty = Seq::<TrackId>::empty();
        assert(recent.take(0) =~= empty);
        let fallback = score_spec(library, now, unavailable, empty, just_played, false);
        lemma_scored(library, now, unavailable, empty, just_played, false);
        assert forall|i: int, j: int|
            0 <= i < fallback.len() && 0 <= j < ids.len() && (#[trigger] fallback[i]).priority.billionths > 0
                && just_played == Some(ids[i]) && #[trigger] ids[j] != ids[i]
                implies unavailable.contains(ids[j]) by {
            if !unavailable.contains(ids[j]) {
                assert(scored[j].priority.billionths > 0);
            }
        }
        if exists|j: int| 0 <= j < ids.len() && !unavailable.contains(#[trigger] ids[j]) {
            let j = choose|j: int| 0 <= j < ids.len() && !unavailable.contains(#[trigger] ids[j]);
            assert(fallback[j].priority.billionths > 0);
        }
    } else {
        lemma_windowed(library, now, unavailable, recent, just_played, (kept - 1) as nat);
    }
}

/// Where a track is placed among tracks ordered latest first: after every
/// track from `from` on that played at the same time or later, and before
/// the first that played earlier.
proof fn lemma_insertion_point(library: Library, sorted: Seq<TrackId>, id: TrackId, from: int)
    requires
        0 <= from <= sorted.len(),
    ensures
        from <= insertion_point(library, sorted, id, from) <= sorted.len(),
        forall|k: int| from <= k < insertion_point(library, sorted, id, from) ==> played_at(library, #[trigger] sorted[k])
            >= played_at(library, id),
        insertion_point(library, sorted, id, from) < sorted.len() ==> played_at(
            library,
            sorted[insertion_point(library, sorted, id, from)],
        ) < played_at(library, id),
    decreases sorted.len() - from,
{
    if from < sorted.len() && played_at(library, sorted[from]) >= played_at(library, id) {
        lemma_insertion_point(library, sorted, id, from + 1);
    }
}

/// The recent tracks among the first `n` of the library are those of them
/// played within the recent span, each latest first.
proof fn lemma_recent_prefix(library: Library, now: Time, n: int)
    requires
        0 <= n <= library.ids().len(),
    ensures
        ({
            let r = recent_spec(library, now, n);
            &&& forall|x: TrackId| r.contains(x) <==> exists|j: int|
                0 <= j < n && #[trigger] library.ids()[j] == x && played_recently(library.last_played_spec(x), now)
            &&& forall|a: int, b: int| 0 <= a < b < r.len() ==> played_at(library, #[trigger] r[a]) >= played_at(
                library,
                #[trigger] r[b],
            )
        }),
    decreases n,
{
    if n > 0 {
        lemma_recent_prefix(library, now, n - 1);
        let before = recent_spec(library, now, n - 1);
        let r = recent_spec(library, now, n);
        let id = library.ids()[n - 1];
        if played_recently(library.last_played_spec(id), now) {
            let p = insertion_point(library, before, id, 0);
            lemma_insertion_point(library, before, id, 0);
            assert(r == before.insert(p, id));
            assert forall|x: TrackId| r.contains(x) <==> exists|j: int|
                0 <= j < n && #[trigger] library.ids()[j] == x && played_recently(library.last_played_spec(x), now) by {
                if r.contains(x) {
                    let k = choose|k: int| 0 <= k < r.len() && r[k] == x;
                    if k != p {
                        let kb = if k < p { k } else { k - 1 };
                        assert(before[kb] == x);
                        assert(before.contains(x));
                    } else {
                        assert(library.ids()[n - 1] == x);
                    }
                }
                if exists|j: int| 0 <= j < n && #[trigger] library.ids()[j] == x && played_recently(library.last_played_spec(x), now) {
                    let j = choose|j: int| 0 <= j < n && #[trigger] library.ids()[j] == x && played_recently(library.last_played_spec(x), now);
                    if j < n - 1 {
                        assert(before.contains(x));
                        let kb = choose|kb: int| 0 <= kb < before.len() && before[kb] == x;
                        let k = if kb < p { kb } else { kb + 1 };
                        assert(r[k] == x);
                    } else {
                        assert(r[p] == x);
                    }
                }
            }
            assert forall|a: int, b: int| 0 <= a < b < r.len() implies played_at(library, #[trigger] r[a]) >= played_at(
                library,
                #[trigger] r[b],
            ) by {
                if b < p {
                    assert(r[a] == before[a] && r[b] == before[b]);
                } else if b == p {
                    assert(r[a] == before[a]);
                } else if a < p {
                    assert(r[a] == before[a] && r[b] == before[b - 1]);
                } else if a == p {
                    assert(r[b] == before[b - 1]);
                    if b - 1 > p {
                        assert(played_at(library, before[p]) >= played_at(library, before[b - 1]));
                    }
                } else {
                    assert(r[a] == before[a - 1] && r[b] == before[b - 1]);
                }
            }
        } else {
            assert forall|x: TrackId| r.contains(x) <==> exists|j: int|
                0 <= j < n && #[trigger] library.ids()[j] == x && played_recently(library.last_played_spec(x), now) by {
                if exists|j: int| 0 <= j < n && #[trigger] library.ids()[j] == x && played_recently(library.last_played_spec(x), now) {
                    let j = choose|j: int| 0 <= j < n && #[trigger] library.ids()[j] == x && played_recently(library.last_played_spec(x), now);
                    assert(j != n - 1);
                }
            }
        }
    }
}

/// The tracks the draw counts as recent are exactly those of the library
/// played within the recent span, latest first.
pub proof fn lemma_recent_lists_recent_plays(library: Library, now: Time)
    ensures
        ({
            let r = recent_spec(library, now, library.ids().len() as int);
            &&& forall|x: TrackId| r.contains(x) <==> (library.holds(x) && played_recently(library.last_played_spec(x), now))
            &&& forall|a: int, b: int| 0 <= a < b < r.len() ==> played_at(library, #[trigger] r[a]) >= played_at(
                library,
                #[trigger] r[b],
            )
        }),
{
    lemma_recent_prefix(library, now, library.ids().len() as int);
}

/// Every count has an integer square root.
proof fn lemma_integer_sqrt_exists(n: int)
    requires
        n >= 0,
    ensures
        is_integer_sqrt(integer_sqrt_spec(n), n),
    decreases n,
{
    if n == 0 {
        assert(is_integer_sqrt(0, 0));
    } else {
        lemma_integer_sqrt_exists(n - 1);
        let r = integer_sqrt_spec(n - 1);
        if (r + 1) * (r + 1) <= n {
            assert(n < (r + 2) * (r + 2)) by (nonlinear_arith)
                requires
                    n - 1 < (r + 1) * (r + 1),
                    r >= 0,
            ;
            assert(is_integer_sqrt(r + 1, n));
        } else {
            assert(is_integer_sqrt(r, n));
        }
    }
}

/// Whenever some track outside the recent window could be drawn, every
/// track in the window is left out as recent, unless it is unavailable: the
/// window being the latest played of the recent tracks, as many as the
/// square root of the library, but never all of it, nor more than have
/// played recently.
pub proof fn lemma_recent_window_excluded(
    library: Library,
    now: Time,
    unavailable: Seq<TrackId>,
    just_played: Option<TrackId>,
)
    ensures
        ({
            let ids = library.ids();
            let n = ids.len() as int;
            let recent = recent_spec(library, now, n);
            let root = integer_sqrt_spec(n);
            let most = if n == 0 { 0 } else if root < n - 1 { root } else { n - 1 };
            let size = if most < recent.len() { most } else { recent.len() as int };
            let window = recent.take(size);
            let c = evaluations_spec(library, now, unavailable, just_played);
            (exists|j: int|
                0 <= j < n && !unavailable.contains(#[trigger] ids[j]) && just_played != Some(ids[j])
                    && !window.contains(ids[j])) ==> forall|i: int|
                0 <= i < n && window.contains(#[trigger] ids[i]) && !unavailable.contains(ids[i])
                    ==> c[i].exclusion == Some(Exclusion::Recent)
        }),
{
    let ids = library.ids();
    let n = ids.len() as int;
    let recent = recent_spec(library, now, n);
    let root = integer_sqrt_spec(n);
    let most = if n == 0 { 0 } else if root < n - 1 { root } else { n - 1 };
    let size = if most < recent.len() { most } else { recent.len() as int };
    let window = recent.take(size);
    let scored = score_spec(library, now, unavailable, window, just_played, true);
    lemma_scored(library, now, unavailable, window, just_played, true);
    if exists|j: int|
        0 <= j < n && !unavailable.contains(#[trigger] ids[j]) && just_played != Some(ids[j])
            && !window.contains(ids[j]) {
        let j = choose|j: int|
            0 <= j < n && !unavailable.contains(#[trigger] ids[j]) && just_played != Some(ids[j])
                && !window.contains(ids[j]);
        assert(scored[j].priority.billionths > 0);
        assert(any_positive(scored));
        lemma_integer_sqrt_exists(n);
        let target = if root < n - 1 { root } else if n > 0 { n - 1 } else { 0 };
        assert(most == target);
        assert(size >= 0);
        assert(recent.take((size as nat) as int) == window);
        assert(windowed(library, now, unavailable, recent, just_played, size as nat) == scored);
        assert(evaluations_spec(library, now, unavailable, just_played) == scored);
        assert forall|i: int|
            0 <= i < n && window.contains(#[trigger] ids[i]) && !unavailable.contains(ids[i])
                implies scored[i].exclusion == Some(Exclusion::Recent) by {
            assert(scored[i] == candidate_spec(library, now, unavailable, window, just_played, true, ids[i]));
        }
    }
}

/// The rules every draw follows, over the evaluations it draws from: one
/// candidate per track in library order; a track reported unavailable is
/// never drawable; the track that just played is drawable only when every
/// other track in the library is unavailable; and something is drawable
/// whenever some track is not unavailable.
pub proof fn lemma_draw_rules(
    library: Library,
    now: Time,
    unavailable: Seq<TrackId>,
    just_played: Option<TrackId>,
)
    ensures
        ({
            let c = evaluations_spec(library, now, unavailable, just_played);
            let ids = library.ids();
            &&& c.len() == ids.len()
            &&& forall|i: int| 0 <= i < c.len() ==> (#[trigger] c[i]).identifier == ids[i]
            &&& forall|i: int| 0 <= i < c.len() && (#[trigger] c[i]).priority.billionths > 0
                ==> !unavailable.contains(ids[i])
            &&& forall|i: int, j: int|
                0 <= i < c.len() && 0 <= j < ids.len() && (#[trigger] c[i]).priority.billionths > 0
                    && just_played == Some(ids[i]) && #[trigger] ids[j] != ids[i]
                    ==> unavailable.contains(ids[j])
            &&& any_positive(c) <==> exists|j: int| 0 <= j < ids.len() && !unavailable.contains(#[trigger] ids[j])
        }),
{
    let n = library.ids().len() as int;
    let recent = recent_spec(library, now, n);
    let root = integer_sqrt_spec(n);
    let target = if root < n - 1 { root } else if n > 0 { n - 1 } else { 0 };
    let kept = if target < recent.len() { target } else { recent.len() as int };
    lemma_windowed(library, now, unavailable, recent, just_played, kept as nat);
}

/// The priorities of a list of candidates, in order.
pub open spec fn priorities(candidates: Seq<Candidate>) -> Seq<u64> {
    candidates.map_values(|candidate: Candidate| candidate.priority.billionths)
}

/// Whether `drawn` is an outcome a draw from `candidates` may have: a
/// candidate of positive priority, or nothing when none has one or their
/// priorities overflow when summed.
pub open spec fn drawn_from(candidates: Seq<Candidate>, drawn: Option<TrackId>) -> bool {
    match drawn {
        Some(id) => exists|i: int|
            0 <= i < candidates.len() && (#[trigger] candidates[i]).identifier == id
                && candidates[i].priority.billionths > 0,
        None => !any_positive(candidates),
    }
}

/// The weights a draw is made with: the priorities, widened so that their
/// sum cannot overflow.
pub open spec fn draw_weights(candidates: Seq<Candidate>) -> Seq<u128> {
    candidates.map_values(|candidate: Candidate| candidate.priority.billionths as u128)
}

/// What a draw from `candidates` gives with the generator at `generator`,
/// and the generator it leaves: nothing, the generator untouched, when no
/// candidate has a positive priority; otherwise the candidate at the index
/// sampled from their priorities.
pub open spec fn draw_spec(candidates: Seq<Candidate>, generator: Xoshiro256PlusPlus) -> (Option<TrackId>, Xoshiro256PlusPlus) {
    if any_positive(candidates) {
        let (at, next) = sampled(draw_weights(candidates), generator);
        (Some(candidates[at as int].identifier), next)
    } else {
        (None, generator)
    }
}

/// A seed fixes the sequence of draws: from generators that stand alike,
/// a draw from the same candidates gives the same track and leaves the
/// generators alike again, so shuffles seeded alike and asked alike draw
/// alike, one draw after another.
pub proof fn lemma_seed_fixes_draws(first: Shuffle, second: Shuffle, candidates: Seq<Candidate>)
    requires
        first.generator() == second.generator(),
    ensures
        draw_spec(candidates, first.generator()) == draw_spec(candidates, second.generator()),
{
}

/// Widening the priorities keeps their sum, which stays below `u64::MAX`
/// for each of them.
proof fn lemma_draw_weights(candidates: Seq<Candidate>)
    ensures
        wide_sum(draw_weights(candidates)) == weight_sum(priorities(candidates)),
        weight_sum(priorities(candidates)) <= candidates.len() * (u64::MAX as int),
    decreases candidates.len(),
{
    if candidates.len() > 0 {
        let front = candidates.drop_last();
        lemma_draw_weights(front);
        assert(draw_weights(candidates).drop_last() =~= draw_weights(front));
        assert(priorities(candidates).drop_last() =~= priorities(front));
        assert(candidates.len() * (u64::MAX as int) == front.len() * (u64::MAX as int) + u64::MAX)
            by (nonlinear_arith)
            requires
                candidates.len() == front.len() + 1,
        ;
    }
}

/// A list of weights sums to zero exactly when every weight is zero.
proof fn lemma_weight_sum_zero(weights: Seq<u64>)
    ensures
        weight_sum(weights) >= 0,
        weight_sum(weights) == 0 <==> forall|i: int| 0 <= i < weights.len() ==> weights[i] == 0,
    decreases weights.len(),
{
    if weights.len() > 0 {
        let front = weights.drop_last();
        lemma_weight_sum_zero(front);
        if weight_sum(weights) == 0 {
            assert forall|i: int| 0 <= i < weights.len() implies weights[i] == 0 by {
                if i < front.len() {
                    assert(front[i] == weights[i]);
                }
            }
        }
        if forall|i: int| 0 <= i < weights.len() ==> weights[i] == 0 {
            assert forall|i: int| 0 <= i < front.len() implies front[i] == 0 by {
                assert(front[i] == weights[i]);
            }
            assert(weights[weights.len() - 1] == 0);
        }
    }
}

/// The random source the next track is drawn from.
///
/// Draws come from xoshiro256++, named rather than reached through a generic
/// small generator, whose algorithm may change between releases and with it
/// the sequence a seed stands for.
#[derive(Debug, Clone, PartialEq, Eq)]
pub struct Shuffle {
    random: Xoshiro256PlusPlus,
}

impl Shuffle {
    /// The generator the next draw takes its randomness from.
    pub closed spec fn generator(&self) -> Xoshiro256PlusPlus {
        self.random
    }

    /// A shuffle whose sequence of draws is fixed by `seed`.
    pub fn seeded(seed: u64) -> (shuffle: Shuffle)
        ensures
            shuffle.generator() == seeded_state(seed),
    {
        Shuffle { random: seeded_generator(seed) }
    }

    /// A shuffle seeded from the clock, so that two runs draw differently:
    /// seeded with the milliseconds since the Unix epoch that the clock
    /// reads.
    pub fn from_clock() -> (shuffle: Shuffle)
        ensures
            exists|now: Time| shuffle.generator() == seeded_state(#[trigger] now.millis() as u64),
    {
        let now = Time::now();
        Shuffle::seeded(now.as_unix_milliseconds())
    }

    /// The next track to play, or `None` if nothing in the library can.
    ///
    /// Drawn in proportion to preference, staleness, and reliability, from
    /// the tracks outside the recent window, as `evaluations` scores them.
    /// `unavailable` names the tracks that have already failed during the
    /// player's current attempt to find one that plays: none of them is
    /// drawn. `just_played` follows itself only when every other track is
    /// unavailable.
    pub fn next_track_excluding(
        &mut self,
        library: &Library,
        just_played: Option<TrackId>,
        now: Time,
        unavailable: &[TrackId],
    ) -> (drawn: Option<TrackId>)
        requires
            library.well_formed(),
        ensures
            (drawn, final(self).generator()) == draw_spec(
                evaluations_spec(*library, now, unavailable@, just_played),
                old(self).generator(),
            ),
            drawn_from(evaluations_spec(*library, now, unavailable@, just_played), drawn),
            drawn matches Some(id) ==> library.ids().contains(id) && !unavailable@.contains(id),
            drawn is Some && drawn == just_played ==> forall|j: int|
                0 <= j < library.ids().len() && Some(#[trigger] library.ids()[j]) != just_played
                    ==> unavailable@.contains(library.ids()[j]),
            drawn is None <==> forall|j: int|
                0 <= j < library.ids().len() ==> unavailable@.contains(#[trigger] library.ids()[j]),
    {
        let candidates = evaluations(library, just_played, now, unavailable);
        let drawn = self.draw(&candidates);
        proof {
            lemma_draw_rules(*library, now, unavailable@, just_played);
            let ids = library.ids();
            if let Some(id) = drawn {
                let i = choose|i: int|
                    0 <= i < candidates@.len() && (#[trigger] candidates@[i]).identifier == id
                        && candidates@[i].priority.billionths > 0;
                assert(candidates@[i].identifier == ids[i]);
                assert(ids.contains(id));
                if drawn == just_played {
                    assert forall|j: int|
                        0 <= j < ids.len() && Some(#[trigger] ids[j]) != just_played
                            implies unavailable@.contains(ids[j]) by {
                        assert(ids[j] != ids[i]);
                    }
                }
            } else {
                if !(forall|j: int| 0 <= j < ids.len() ==> unavailable@.contains(#[trigger] ids[j])) {
                    let j = choose|j: int| !(0 <= j < ids.len() ==> unavailable@.contains(#[trigger] ids[j]));
                    assert(0 <= j < ids.len() && !unavailable@.contains(ids[j]));
                }
            }
        }
        drawn
    }

    /// One candidate, drawn with probability proportional to its priority.
    /// An excluded candidate weighs zero, so all-zero weights mean nothing
    /// can play and the draw is `None`.
    fn draw(&mut self, candidates: &Vec<Candidate>) -> (drawn: Option<TrackId>)
        ensures
            drawn_from(candidates@, drawn),
            (drawn, final(self).generator()) == draw_spec(candidates@, old(self).generator()),
    {
        let mut weights: Vec<u128> = Vec::new();
        let mut i: usize = 0;
        while i < candidates.len()
            invariant
                i <= candidates@.len(),
                weights@ == draw_weights(candidates@).take(i as int),
            decreases candidates@.len() - i,
        {
            weights.push(candidates[i].priority.billionths as u128);
            i = i + 1;
            assert(weights@ =~= draw_weights(candidates@).take(i as int));
        }
        assert(weights@ =~= draw_weights(candidates@));
        let ghost n = candidates@.len();
        proof {
            let p = priorities(candidates@);
            lemma_weight_sum_zero(p);
            lemma_draw_weights(candidates@);
            assert(n <= usize::MAX);
            assert(n * (u64::MAX as int) <= u128::MAX) by (nonlinear_arith)
                requires
                    0 <= n <= usize::MAX,
            ;
            if any_positive(candidates@) {
                let k = choose|k: int| 0 <= k < candidates@.len() && candidates@[k].priority.billionths > 0;
                assert(p[k] > 0);
            } else {
                assert forall|k: int| 0 <= k < p.len() implies p[k] == 0 by {
                    assert(p[k] == candidates@[k].priority.billionths);
                }
            }
        }
        match weighted_index(&weights) {
            None => None,
            Some(index) => {
                let at = sample_index(&index, &mut self.random);
                assert(weights@[at as int] == candidates@[at as int].priority.billionths);
                Some(candidates[at].identifier)
            },
        }
    }
}

} // verus!
