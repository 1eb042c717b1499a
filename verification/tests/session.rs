use jive::Duration;
use jive::Library;
use jive::Time;
use jive::app::library_to_play;
use jive::backend::AudioBackend;
use jive::backend::BackendError;
use jive::collection::Collection;
use jive::collection::CollectionFile;
use jive::error::Error;
use jive::formats::is_supported;
use jive::json::Json;
use jive::path::FsPath;
use jive::player::Player;
use jive::selection::Shuffle;
use jive::track_events::AnyTrackEvent;
use jive::track_events::PlaybackOutcome;
use jive::track_events::TimeTaggedTrackEvent;
use jive::track_events::TrackFailure;
use std::cell::RefCell;
use std::rc::Rc;

type PlayedTracks = Rc<RefCell<Vec<FsPath>>>;

/// A backend reporting the same outcome for every track.
#[derive(Debug)]
struct Predictable {
    outcome: Option<PlaybackOutcome>,
    played: PlayedTracks,
}

impl Predictable {
    fn always(outcome: PlaybackOutcome) -> Self {
        Self {
            outcome: Some(outcome),
            played: PlayedTracks::default(),
        }
    }

    fn silent() -> Self {
        Self {
            outcome: None,
            played: PlayedTracks::default(),
        }
    }
}

impl AudioBackend for Predictable {
    fn play(&mut self, path: &FsPath) -> Result<(), BackendError> {
        self.played.borrow_mut().push(path.clone());
        Ok(())
    }

    fn stop(&mut self) -> Result<(), BackendError> {
        Ok(())
    }

    fn poll_event(&mut self) -> Result<Option<PlaybackOutcome>, BackendError> {
        Ok(self.outcome)
    }
}

fn json_of(value: &serde_json::Value) -> Json {
    match value {
        serde_json::Value::Null => Json::Null,
        serde_json::Value::Bool(b) => Json::Bool(*b),
        serde_json::Value::Number(n) => match (n.as_u64(), n.as_i64()) {
            (Some(u), _) => Json::Unsigned(u),
            (None, Some(i)) => Json::Negative(i),
            _ => Json::Fraction(n.to_string()),
        },
        serde_json::Value::String(s) => Json::Text(s.clone()),
        serde_json::Value::Array(items) => Json::List(items.iter().map(json_of).collect()),
        serde_json::Value::Object(fields) => Json::Object(
            fields
                .iter()
                .map(|(key, value)| (key.clone(), json_of(value)))
                .collect(),
        ),
    }
}

fn value_of(json: &Json) -> serde_json::Value {
    match json {
        Json::Null => serde_json::Value::Null,
        Json::Bool(b) => serde_json::Value::Bool(*b),
        Json::Unsigned(n) => serde_json::Value::from(*n),
        Json::Negative(n) => serde_json::Value::from(*n),
        Json::Fraction(text) => serde_json::from_str(text).expect("a number"),
        Json::Text(s) => serde_json::Value::String(s.clone()),
        Json::List(items) => serde_json::Value::Array(items.iter().map(value_of).collect()),
        Json::Object(fields) => {
            let mut map = serde_json::Map::new();
            for (key, value) in fields {
                map.insert(key.clone(), value_of(value));
            }
            serde_json::Value::Object(map)
        }
    }
}

/// A music directory, as the files below it, and the text of its collection
/// file, if one has been written.
struct Session {
    root: String,
    files: Vec<String>,
    written: Option<String>,
    clock: Time,
}

impl Session {
    fn holding(files: &[&str]) -> Self {
        Self {
            root: String::from("/music"),
            files: files.iter().map(|file| String::from(*file)).collect(),
            written: None,
            clock: Time::epoch() + Duration::from_seconds(1_000),
        }
    }

    fn add_track(&mut self, file: &str) {
        self.files.push(String::from(file));
    }

    fn remove_track(&mut self, file: &str) {
        self.files.retain(|kept| kept != file);
    }

    fn file(&self) -> CollectionFile {
        CollectionFile::at(FsPath::new("/home/listener/.local/share/jive/state.json"))
    }

    fn stored(&self) -> Collection {
        let written = self.written.as_ref().map(|text| {
            serde_json::from_str::<serde_json::Value>(text)
                .map(|value| json_of(&value))
                .map_err(|error| error.to_string())
        });
        self.file()
            .load_parsed(written)
            .expect("the collection loads")
            .unwrap_or_else(|| Collection::new(FsPath::new(&self.root)))
    }

    /// The audio files below `directory`, as a walk of it would find them.
    fn found_below(&self, directory: &FsPath) -> Vec<FsPath> {
        self.files
            .iter()
            .map(|file| FsPath::new(&format!("{}/{file}", self.root)))
            .filter(|path| path.starts_with(directory) && is_supported(path))
            .collect()
    }

    fn library(&self, collection: &mut Collection, directory: Option<&FsPath>) -> Result<Library, Error> {
        let scanned = collection
            .scan_directory(directory)
            .map_err(Error::Filesystem)?;
        let tracks = collection.scan_found(self.found_below(&scanned));
        library_to_play(tracks, collection.history(), self.clock, scanned)
    }

    fn play(&mut self, backend: Predictable, rounds: usize) -> Vec<FsPath> {
        self.play_under(backend, None, rounds)
    }

    fn play_below(&mut self, backend: Predictable, directory: &str, rounds: usize) {
        let directory = FsPath::new(&format!("{}/{directory}", self.root));
        self.play_under(backend, Some(&directory), rounds);
    }

    fn play_under(&mut self, backend: Predictable, directory: Option<&FsPath>, rounds: usize) -> Vec<FsPath> {
        let played = Rc::clone(&backend.played);
        self.run(backend, directory, |clock, player| {
            for _ in 0..rounds {
                *clock += Duration::from_seconds(200);
                player.poll(*clock).expect("polling works");
            }
        });
        let tracks = played.borrow().clone();
        tracks
    }

    fn play_and_skip_after(&mut self, seconds: u64) {
        self.run(Predictable::silent(), None, |clock, player| {
            *clock += Duration::from_seconds(seconds);
            player.skip(*clock).expect("skipping works");
        });
    }

    /// Reads the collection, plays, and writes it back.
    fn run(
        &mut self,
        backend: Predictable,
        directory: Option<&FsPath>,
        drive: impl FnOnce(&mut Time, &mut Player<Predictable>),
    ) {
        let mut collection = self.stored();
        let library = self
            .library(&mut collection, directory)
            .expect("the directory holds music");
        let mut player = Player::new(backend, library, Shuffle::seeded(4));
        player.start(self.clock).expect("playback starts");
        drive(&mut self.clock, &mut player);
        player.stop(self.clock).expect("stopping works");
        player.library().store_into(collection.history_mut());
        self.written = Some(
            serde_json::to_string_pretty(&value_of(&collection.to_json()))
                .expect("the collection encodes"),
        );
    }

    fn remembered(&self, file: &str) -> Vec<TimeTaggedTrackEvent> {
        let collection = self.stored();
        let Some(identifier) = collection.catalog().identifier_for(&FsPath::new(file)) else {
            return Vec::new();
        };
        collection
            .history()
            .events_for(identifier)
            .map(|events| events.to_vec())
            .unwrap_or_default()
    }

    fn remembered_tracks(&self) -> usize {
        self.stored().history().len()
    }
}

fn count_of(events: &[TimeTaggedTrackEvent], is: fn(&AnyTrackEvent) -> bool) -> usize {
    events.iter().filter(|event| is(&event.event)).count()
}

fn is_skip(event: &AnyTrackEvent) -> bool {
    event.as_skipped().is_some()
}

fn is_outcome(event: &AnyTrackEvent) -> bool {
    event.as_playback_outcome().is_some()
}

fn is_added(event: &AnyTrackEvent) -> bool {
    event.as_added().is_some()
}

fn times_seen(session: &Session, file: &str) -> usize {
    count_of(&session.remembered(file), is_added)
}

fn outcomes_remembered(session: &Session) -> usize {
    ["one.mp3", "two.mp3"]
        .iter()
        .map(|file| count_of(&session.remembered(file), is_outcome))
        .sum()
}

fn finished() -> PlaybackOutcome {
    PlaybackOutcome::Finished
}

#[test]
fn a_first_session_records_that_it_saw_every_track() {
    let mut session = Session::holding(&["one.mp3", "nested/two.flac"]);
    session.play(Predictable::silent(), 0);
    assert_eq!(session.remembered_tracks(), 2);
    assert_eq!(times_seen(&session, "one.mp3"), 1);
}

#[test]
fn what_happened_in_one_session_is_there_in_the_next() {
    const ROUNDS: usize = 4;

    let mut session = Session::holding(&["one.mp3", "two.mp3"]);
    session.play(Predictable::always(finished()), ROUNDS);
    let after_first = outcomes_remembered(&session);
    assert_eq!(after_first, ROUNDS, "each round should finish one track");

    session.play(Predictable::always(finished()), ROUNDS);
    assert_eq!(
        outcomes_remembered(&session),
        after_first + ROUNDS,
        "the second session should add to the first rather than replace it"
    );
    assert_eq!(session.remembered_tracks(), 2);
}

#[test]
fn a_track_is_seen_once_however_many_sessions_run() {
    let mut session = Session::holding(&["one.mp3"]);
    for _ in 0..4 {
        session.play(Predictable::always(finished()), 1);
    }
    assert_eq!(times_seen(&session, "one.mp3"), 1);
}

#[test]
fn cutting_a_track_short_is_remembered_across_sessions() {
    let mut session = Session::holding(&["one.mp3"]);
    session.play_and_skip_after(3);
    let events = session.remembered("one.mp3");
    assert_eq!(count_of(&events, is_skip), 1);
    assert_eq!(
        events
            .iter()
            .filter_map(|event| event.event.as_skipped())
            .map(|skip| skip.listened_for)
            .collect::<Vec<Duration>>(),
        [Duration::from_seconds(3)]
    );
}

#[test]
fn a_track_added_to_the_directory_later_joins_the_library() {
    let mut session = Session::holding(&["one.mp3"]);
    session.play(Predictable::always(finished()), 2);

    session.add_track("two.mp3");
    session.play(Predictable::always(finished()), 2);

    assert_eq!(session.remembered_tracks(), 2);
    assert!(!session.remembered("two.mp3").is_empty());
}

#[test]
fn a_track_added_before_the_others_leaves_their_ratings_where_they_were() {
    let mut session = Session::holding(&["b.mp3", "c.mp3"]);
    session.play(Predictable::always(finished()), 6);
    let before = session.remembered("b.mp3");
    assert!(!before.is_empty());

    session.add_track("a.mp3");
    session.play(Predictable::silent(), 0);

    assert!(
        session.remembered("b.mp3").starts_with(before.as_slice()),
        "the earlier track should have kept every event recorded against it"
    );
}

#[test]
fn a_track_taken_out_of_the_directory_keeps_its_history() {
    let mut session = Session::holding(&["one.mp3", "two.mp3"]);
    session.play(Predictable::always(finished()), 4);
    let before = session.remembered("two.mp3");
    assert!(!before.is_empty());

    session.remove_track("two.mp3");
    session.play(Predictable::always(finished()), 2);

    assert_eq!(session.remembered("two.mp3"), before);
}

#[test]
fn music_moved_somewhere_else_keeps_every_rating() {
    let mut session = Session::holding(&["rock/one.mp3", "two.mp3"]);
    session.play(Predictable::always(finished()), 4);
    let before = session.remembered("two.mp3");
    assert!(count_of(&before, is_outcome) > 0);

    let mut collection = session.stored();
    session.root = String::from("/mnt/moved");
    collection.set_root(FsPath::new("/mnt/moved"));
    let library = session
        .library(&mut collection, None)
        .expect("the music is where it now lives");

    assert_eq!(library.len(), 2);
    let two = FsPath::new("/mnt/moved/two.mp3");
    let identifier = library
        .identifiers()
        .to_vec()
        .into_iter()
        .find(|identifier| library.path(*identifier) == Some(&two))
        .expect("the track is where it now lives");
    assert_eq!(
        library
            .events(identifier)
            .expect("the track is in the library")
            .to_vec(),
        before,
        "the track should have carried its whole history across"
    );
}

#[test]
fn playing_one_directory_leaves_the_rest_of_the_music_alone() {
    let mut session = Session::holding(&["rock/one.mp3", "jazz/two.mp3"]);
    session.play(Predictable::always(finished()), 6);
    let jazz = session.remembered("jazz/two.mp3");
    assert!(!jazz.is_empty());

    session.play_below(Predictable::always(finished()), "rock", 4);

    assert_eq!(session.remembered_tracks(), 2);
    assert_eq!(
        session.remembered("jazz/two.mp3"),
        jazz,
        "the directory that did not play should be untouched"
    );
}

#[test]
fn a_directory_outside_the_music_is_refused() {
    let session = Session::holding(&["one.mp3"]);
    let mut collection = session.stored();
    let elsewhere = FsPath::new("/elsewhere");
    assert!(session.library(&mut collection, Some(&elsewhere)).is_err());
}

#[test]
fn a_session_plays_only_tracks_that_are_in_the_directory() {
    let mut session = Session::holding(&["one.mp3", "two.mp3", "notes.txt"]);
    let played = session.play(Predictable::always(finished()), 10);
    let expected = [FsPath::new("/music/one.mp3"), FsPath::new("/music/two.mp3")];
    assert!(played.iter().all(|path| expected.contains(path)));
    assert!(played.len() > 1);
}

#[test]
fn a_directory_of_mixed_types_plays_the_ones_jive_knows() {
    let mut session = Session::holding(&[
        "known.mp3",
        "known.flac",
        "unknown.dsf",
        "unknown.mid",
        "cover.jpg",
    ]);
    let played = session.play(Predictable::always(finished()), 12);

    assert_eq!(session.remembered_tracks(), 2);
    for file in ["known.mp3", "known.flac"] {
        assert!(
            !session.remembered(file).is_empty(),
            "{file} should have played"
        );
    }
    for file in ["unknown.dsf", "unknown.mid", "cover.jpg"] {
        assert!(
            session.remembered(file).is_empty(),
            "{file} should never have been offered"
        );
        assert!(!played.contains(&FsPath::new(&format!("/music/{file}"))));
    }
}

#[test]
fn a_track_the_backend_will_not_play_does_not_stop_the_rest() {
    let mut session = Session::holding(&["one.mp3", "two.mp3", "three.mp3"]);
    let played = session.play(
        Predictable::always(PlaybackOutcome::from(TrackFailure::UnsupportedFormat)),
        6,
    );

    assert!(played.len() > 1, "jive should have moved on to other tracks");
    let failures: usize = ["one.mp3", "two.mp3", "three.mp3"]
        .iter()
        .map(|file| count_of(&session.remembered(file), is_outcome))
        .sum();
    assert!(failures > 0, "the failures should have been recorded");
}

#[test]
fn a_directory_of_files_that_are_not_audio_is_reported_as_empty() {
    let session = Session::holding(&["cover.jpg", "notes.txt"]);
    let mut collection = session.stored();
    match session.library(&mut collection, None) {
        Err(Error::NoTracks { path }) => assert_eq!(path, FsPath::new("/music")),
        other => panic!("expected no tracks, got {other:?}"),
    }
}

#[test]
fn a_state_file_holding_an_unknown_event_is_carried_through_a_whole_session() {
    let mut session = Session::holding(&["one.mp3"]);
    session.written = Some(String::from(
        r#"{"version": 2, "root": "/music", "next_id": 1, "tracks": [
            {"id": 0, "path": "one.mp3",
              "events": [{"at": 0, "event": {"event": "rated", "data": {"stars": 5}}}]}
        ]}"#,
    ));

    session.play(Predictable::always(finished()), 1);

    assert!(
        count_of(&session.remembered("one.mp3"), is_outcome) >= 1,
        "the session should have run and recorded what it understood"
    );
    let after = session.written.clone().expect("a written file");
    assert!(
        after.contains("rated") && after.contains("stars"),
        "the unknown event should have been written back: {after}"
    );
}

#[test]
fn a_state_file_from_the_previous_version_keeps_its_ratings() {
    let mut session = Session::holding(&["one.mp3"]);
    session.written = Some(String::from(
        r#"{"version": 1, "default_directory": "/music", "tracks": [
            {"path": "/music/one.mp3", "name": "one",
             "events": [{"at": 0, "event": {"event": "playback_outcome", "data": {"outcome": "finished"}}}]}
        ]}"#,
    ));

    assert_eq!(count_of(&session.remembered("one.mp3"), is_outcome), 1);
    assert_eq!(session.remembered_tracks(), 1);
}
