use jive::Duration;
use jive::History;
use jive::Library;
use jive::Time;
use jive::TrackId;
use jive::TrackName;
use jive::library::DiscoveredTrack;
use jive::offer::gone_stale_after;
use jive::path::FsPath;
use jive::selection::Exclusion;
use jive::selection::Shuffle;
use jive::selection::evaluations;
use jive::track_events::AnyTrackEvent;
use jive::track_events::PlaybackOutcome;
use jive::track_events::Skipped;
use jive::track_events::TimeTaggedTrackEvent;
use jive::track_events::TimeTaggedTrackEvents;
use std::collections::HashSet;

const SEED: u64 = 7;

const MARGIN: f64 = 0.05;

fn discovered(names: &[&str]) -> Vec<DiscoveredTrack> {
    names
        .iter()
        .enumerate()
        .map(|(index, name)| DiscoveredTrack {
            identifier: TrackId::new(u32::try_from(index).expect("a small library")),
            name: TrackName::new(name),
            path: FsPath::new(&format!("/music/{name}.mp3")),
        })
        .collect()
}

fn library_of(names: &[&str]) -> Library {
    Library::build(discovered(names), &History::new(), Time::epoch())
}

fn library_with_history(tracks: &[(&str, Vec<AnyTrackEvent>)]) -> Library {
    let names: Vec<&str> = tracks.iter().map(|(name, _)| *name).collect();
    let discovered = discovered(&names);
    let mut history = History::new();
    for (track, (_, events)) in discovered.iter().zip(tracks) {
        let tagged = events
            .iter()
            .map(|event| TimeTaggedTrackEvent::new(Time::epoch(), *event))
            .collect();
        history.store(track.identifier, TimeTaggedTrackEvents::from_vec(tagged));
    }
    Library::build(discovered, &history, Time::epoch())
}

fn finished() -> AnyTrackEvent {
    AnyTrackEvent::from(PlaybackOutcome::Finished)
}

fn quick_skip() -> AnyTrackEvent {
    AnyTrackEvent::from(Skipped::new(Duration::from_seconds(2)))
}

fn repeated(event: &AnyTrackEvent, times: usize) -> Vec<AnyTrackEvent> {
    std::iter::repeat_n(*event, times).collect()
}

fn identifier_named(library: &Library, name: &str) -> TrackId {
    library
        .tracks()
        .iter()
        .find(|track| track.name.as_str() == name)
        .map(|track| track.identifier)
        .expect("a track of that name")
}

fn every_track_finishes_in_turn(library: &mut Library) -> Vec<TrackId> {
    let identifiers = library.identifiers().to_vec();
    for (offset, identifier) in identifiers.iter().enumerate() {
        let seconds = u64::try_from(offset).expect("a small library");
        library.record(
            *identifier,
            Time::epoch() + Duration::from_seconds(seconds),
            finished(),
        );
    }
    identifiers
}

fn draw_sequence(library: &Library, seed: u64, draws: usize) -> Vec<TrackId> {
    let mut shuffle = Shuffle::seeded(seed);
    let mut current = None;
    let mut sequence = Vec::new();
    let mut now = Time::epoch() + gone_stale_after();
    for _ in 0..draws {
        current = shuffle.next_track_excluding(library, current, now, &[]);
        if let Some(identifier) = current {
            sequence.push(identifier);
        }
        now += Duration::from_seconds(1);
    }
    sequence
}

fn share_of(library: &Library, name: &str, seed: u64) -> f64 {
    let wanted = identifier_named(library, name);
    let sequence = draw_sequence(library, seed, 4_000);
    let drawn = sequence.iter().filter(|drawn| **drawn == wanted).count();
    assert!(!sequence.is_empty(), "nothing was drawn");
    drawn as f64 / sequence.len() as f64
}

#[test]
fn empty_and_single_track_libraries_are_safe() {
    assert_eq!(
        Shuffle::seeded(1).next_track_excluding(&library_of(&[]), None, Time::epoch(), &[]),
        None
    );
    assert_eq!(draw_sequence(&library_of(&["alone"]), 1, 5).len(), 5);
}

#[test]
fn a_track_never_immediately_repeats_when_an_alternative_exists() {
    let sequence = draw_sequence(&library_of(&["one", "two", "three"]), 2, 500);
    assert!(sequence.windows(2).all(|pair| pair[0] != pair[1]));
}

#[test]
fn preference_changes_probability_without_making_selection_deterministic() {
    let opinionated = library_with_history(&[
        ("liked", repeated(&finished(), 20)),
        ("disliked", repeated(&quick_skip(), 20)),
        ("neutral", vec![]),
    ]);
    let indifferent = library_of(&["liked", "disliked", "neutral"]);
    let baseline = share_of(&indifferent, "liked", SEED);

    let liked = share_of(&opinionated, "liked", SEED);
    let disliked = share_of(&opinionated, "disliked", SEED);

    assert!(
        liked > baseline + MARGIN,
        "a liked track should come up more than an unrated one: \
         {liked:.3} against a baseline of {baseline:.3}"
    );
    assert!(
        disliked < baseline - MARGIN,
        "a disliked track should come up less than an unrated one: \
         {disliked:.3} against a baseline of {baseline:.3}"
    );
    assert!(
        disliked > 0.0,
        "a disliked track should still come up sometimes"
    );
}

#[test]
fn unavailable_tracks_are_never_relaxed() {
    let library = library_of(&["one", "two"]);
    let one = identifier_named(&library, "one");
    let two = identifier_named(&library, "two");
    assert_eq!(
        Shuffle::seeded(3).next_track_excluding(&library, Some(two), Time::epoch(), &[one]),
        Some(two)
    );
    assert_eq!(
        Shuffle::seeded(3).next_track_excluding(&library, Some(two), Time::epoch(), &[one, two]),
        None
    );
}

#[test]
fn adaptive_window_excludes_the_square_root_most_recent_tracks() {
    let mut library = library_of(&[
        "one", "two", "three", "four", "five", "six", "seven", "eight", "nine",
    ]);
    let identifiers = every_track_finishes_in_turn(&mut library);

    let now = Time::epoch() + Duration::from_seconds(10);
    let excluded: Vec<TrackId> = evaluations(&library, None, now, &[])
        .iter()
        .filter(|candidate| candidate.exclusion == Some(Exclusion::Recent))
        .map(|candidate| candidate.identifier)
        .collect();

    assert_eq!(excluded.len(), 3);
    assert!(
        identifiers[6..]
            .iter()
            .all(|identifier| excluded.contains(identifier)),
        "the three most recently played should be the excluded ones"
    );
}

#[test]
fn a_repeat_can_happen_before_every_track_has_played() {
    let library = library_of(&["one", "two", "three", "four", "five"]);
    let possible = (0..100).any(|seed| {
        let sequence = draw_sequence(&library, seed, 5);
        let distinct: HashSet<TrackId> = sequence.into_iter().collect();
        distinct.len() < library.len()
    });
    assert!(possible);
}

#[test]
fn seed_reproduces_order() {
    let library = library_of(&["one", "two", "three"]);
    assert_eq!(
        draw_sequence(&library, 42, 80),
        draw_sequence(&library, 42, 80)
    );
}

#[test]
fn an_excluded_track_weighs_nothing_and_the_rest_weigh_their_factors() {
    let library = library_of(&["one", "two"]);
    let one = identifier_named(&library, "one");
    let candidates = evaluations(&library, Some(one), Time::epoch(), &[]);
    assert_eq!(candidates.len(), 2);
    let first = candidates[0];
    let second = candidates[1];
    assert_eq!(first.identifier, one);
    assert_eq!(first.exclusion, Some(Exclusion::Recent));
    assert_eq!(first.priority.billionths, 0);
    assert_eq!(second.exclusion, None);
    assert_eq!(second.priority, second.factors.priority());
    assert!(second.priority.billionths > 0);
}
