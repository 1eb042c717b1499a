use jive::Time;
use jive::TrackId;
use jive::collection::Collection;
use jive::collection::CollectionFile;
use jive::filesystem::Error;
use jive::json::Json;
use jive::path::FsPath;
use jive::track_events::AnyTrackEvent;
use jive::track_events::PlaybackOutcome;
use jive::track_events::TimeTaggedTrackEvents;

fn json_of(value: &serde_json::Value) -> Json {
    match value {
        serde_json::Value::Null => Json::Null,
        serde_json::Value::Bool(b) => Json::Bool(*b),
        serde_json::Value::Number(n) => match (n.as_u64(), n.as_i64()) {
            (Some(u), _) => Json::Unsigned(u),
            (None, Some(i)) => Json::Negative(i),
            _ => Json::Fraction(n.to_string()),
        },
        serde_json::Value::String(s) => Json::Text(s.clone()),
        serde_json::Value::Array(items) => Json::List(items.iter().map(json_of).collect()),
        serde_json::Value::Object(fields) => Json::Object(
            fields
                .iter()
                .map(|(key, value)| (key.clone(), json_of(value)))
                .collect(),
        ),
    }
}

fn value_of(json: &Json) -> serde_json::Value {
    match json {
        Json::Null => serde_json::Value::Null,
        Json::Bool(b) => serde_json::Value::Bool(*b),
        Json::Unsigned(n) => serde_json::Value::from(*n),
        Json::Negative(n) => serde_json::Value::from(*n),
        Json::Fraction(text) => serde_json::from_str(text).expect("a number"),
        Json::Text(s) => serde_json::Value::String(s.clone()),
        Json::List(items) => serde_json::Value::Array(items.iter().map(value_of).collect()),
        Json::Object(fields) => {
            let mut map = serde_json::Map::new();
            for (key, value) in fields {
                map.insert(key.clone(), value_of(value));
            }
            serde_json::Value::Object(map)
        }
    }
}

fn file() -> CollectionFile {
    CollectionFile::at(FsPath::new("/home/listener/.local/share/jive/state.json"))
}

fn load(contents: &str) -> Result<Option<Collection>, Error> {
    let parsed = serde_json::from_str::<serde_json::Value>(contents)
        .map(|value| json_of(&value))
        .map_err(|error| error.to_string());
    file().load_parsed(Some(parsed))
}

fn loaded_from(contents: &str) -> Collection {
    load(contents).expect("the file loads").expect("a collection")
}

fn written(collection: &Collection) -> serde_json::Value {
    value_of(&collection.to_json())
}

fn written_text(collection: &Collection) -> String {
    serde_json::to_string_pretty(&written(collection)).expect("the value encodes")
}

/// What a file holds after one session: loaded, then saved again.
fn after_a_session_over(contents: &str) -> serde_json::Value {
    written(&loaded_from(contents))
}

fn names(collection: &Collection) -> Vec<(String, u32)> {
    collection
        .catalog()
        .tracks()
        .into_iter()
        .map(|(identifier, path)| (path.to_string(), identifier.number()))
        .collect()
}

fn finished_once() -> TimeTaggedTrackEvents {
    let mut events = TimeTaggedTrackEvents::new();
    events.record(Time::epoch(), AnyTrackEvent::from(PlaybackOutcome::Finished));
    events
}

fn paths(texts: &[&str]) -> Vec<FsPath> {
    texts.iter().map(|text| FsPath::new(text)).collect()
}

/// A collection over `/music` after one scan found `files`, every track
/// having finished once.
fn collection_over(root: &str, files: &[&str]) -> Collection {
    let mut collection = Collection::new(FsPath::new(root));
    let tracks = collection.scan_found(paths(files));
    for track in tracks {
        collection.history_mut().record(
            track.identifier,
            Time::epoch(),
            AnyTrackEvent::from(PlaybackOutcome::Finished),
        );
    }
    collection
}

fn written_events(written: &serde_json::Value) -> Vec<serde_json::Value> {
    written["tracks"][0]["events"]
        .as_array()
        .expect("a track with events")
        .clone()
}

fn kept_events(written: &serde_json::Value) -> Vec<serde_json::Value> {
    written_events(written)
        .into_iter()
        .filter(|event| event["event"]["event"] == "rated")
        .collect()
}

const FROM_A_LATER_VERSION: &str = r#"{
    "version": 2,
    "root": "/music",
    "next_id": 1,
    "tracks": [{"id": 0, "path": "a.mp3", "events": [
        {"at": 0, "event": {"event": "playback_outcome", "data": {"outcome": "finished"}}},
        {"at": 1500, "event": {"event": "rated", "data": {"stars": 4}}}
    ]}]
}"#;

#[test]
fn a_missing_file_holds_no_state_yet() {
    assert!(file().load_parsed(None).expect("a read").is_none());
}

#[test]
fn a_version_1_file_remembering_nothing_at_all_holds_no_state() {
    let loaded = load(r#"{"version": 1, "tracks": []}"#);
    assert!(loaded.expect("the file loads").is_none());
}

#[test]
fn a_state_file_can_be_pointed_anywhere() {
    let elsewhere = FsPath::new("/tmp/elsewhere.json");
    assert_eq!(CollectionFile::at(elsewhere.clone()).path(), &elsewhere);
}

#[test]
fn a_state_survives_a_round_trip() {
    let collection = collection_over("/music", &["/music/one.mp3", "/music/nested/two.flac"]);
    let first = written(&collection);

    let restored = loaded_from(&serde_json::to_string(&first).expect("the value encodes"));

    assert_eq!(written(&restored), first);
    assert_eq!(names(&restored), names(&collection));
    assert_eq!(
        restored.history().events_for(TrackId::new(0)),
        Some(&finished_once())
    );
}

#[test]
fn a_damaged_file_is_reported() {
    assert!(load("this is not json").is_err());
}

#[test]
fn an_empty_file_is_reported() {
    assert!(load("").is_err());
}

#[test]
fn a_file_that_is_not_an_object_is_reported() {
    assert!(load("[]").is_err());
}

#[test]
fn a_file_from_a_later_format_is_reported() {
    assert!(load(r#"{"version": 99, "root": "/music", "next_id": 0, "tracks": []}"#).is_err());
}

#[test]
fn a_file_missing_its_version_is_reported() {
    assert!(load(r#"{"root": "/music", "next_id": 0, "tracks": []}"#).is_err());
}

#[test]
fn a_file_missing_its_root_is_reported() {
    assert!(load(r#"{"version": 2, "next_id": 0, "tracks": []}"#).is_err());
}

#[test]
fn a_track_whose_events_are_not_a_list_is_reported() {
    assert!(load(
        r#"{"version": 2, "root": "/music", "next_id": 1,
            "tracks": [{"id": 0, "path": "x.mp3", "events": "nonsense"}]}"#
    )
    .is_err());
}

#[test]
fn a_track_missing_its_identifier_is_reported() {
    assert!(load(
        r#"{"version": 2, "root": "/music", "next_id": 1,
            "tracks": [{"path": "x.mp3", "events": []}]}"#
    )
    .is_err());
}

#[test]
fn two_tracks_sharing_an_identifier_are_reported() {
    assert!(load(
        r#"{"version": 2, "root": "/music", "next_id": 1,
            "tracks": [{"id": 0, "path": "a.mp3", "events": []},
                       {"id": 0, "path": "b.mp3", "events": []}]}"#
    )
    .is_err());
}

#[test]
fn an_identifier_that_would_be_assigned_again_is_reported() {
    assert!(load(
        r#"{"version": 2, "root": "/music", "next_id": 0,
            "tracks": [{"id": 0, "path": "a.mp3", "events": []}]}"#
    )
    .is_err());
}

#[test]
fn a_damaged_file_is_reported_against_its_own_path() {
    let message = load("this is not json")
        .expect_err("a damaged file fails")
        .to_string();
    assert!(message.contains("state.json"), "{message}");
}

#[test]
fn tracks_are_written_in_a_settled_order() {
    let collection = collection_over(
        "/music",
        &["/music/zebra.mp3", "/music/apple.mp3", "/music/mango.mp3"],
    );
    let first = written_text(&collection);
    assert_eq!(first, written_text(&collection));
    let listed: Vec<String> = written(&collection)["tracks"]
        .as_array()
        .expect("a list of tracks")
        .iter()
        .map(|track| track["path"].as_str().expect("a path").to_string())
        .collect();
    assert_eq!(listed, ["apple.mp3", "mango.mp3", "zebra.mp3"]);
}

#[test]
fn scanning_names_every_track_below_the_root() {
    let mut collection = Collection::new(FsPath::new("/music"));

    let tracks = collection.scan_found(paths(&["/music/b.mp3", "/music/nested/a.flac"]));

    assert_eq!(tracks.len(), 2);
    assert_eq!(
        names(&collection),
        [
            (String::from("b.mp3"), 0),
            (String::from("nested/a.flac"), 1),
        ]
    );
    assert_eq!(tracks[0].name.as_str(), "b");
    assert_eq!(tracks[1].name.as_str(), "a");
}

#[test]
fn scanning_again_gives_every_track_the_name_it_had() {
    let mut collection = Collection::new(FsPath::new("/music"));

    let first = collection.scan_found(paths(&["/music/a.mp3", "/music/b.mp3"]));
    let again = collection.scan_found(paths(&["/music/b.mp3", "/music/a.mp3"]));

    assert_eq!(first, again);
}

#[test]
fn a_track_added_later_is_named_after_the_ones_already_known() {
    let mut collection = Collection::new(FsPath::new("/music"));
    collection.scan_found(paths(&["/music/b.mp3", "/music/c.mp3"]));

    collection.scan_found(paths(&["/music/a.mp3", "/music/b.mp3", "/music/c.mp3"]));

    assert_eq!(
        names(&collection),
        [
            (String::from("a.mp3"), 2),
            (String::from("b.mp3"), 0),
            (String::from("c.mp3"), 1),
        ]
    );
}

#[test]
fn scanning_below_the_root_narrows_what_is_found_without_renaming_it() {
    let mut collection = Collection::new(FsPath::new("/music"));
    let all = collection.scan_found(paths(&["/music/rock/a.mp3", "/music/jazz/b.mp3"]));

    let rock_directory = collection
        .scan_directory(Some(&FsPath::new("/music/rock")))
        .expect("the directory is below the root");
    assert_eq!(rock_directory, FsPath::new("/music/rock"));
    let rock = collection.scan_found(paths(&["/music/rock/a.mp3"]));

    assert_eq!(all.len(), 2);
    assert_eq!(rock.len(), 1);
    let found = rock.first().expect("a track");
    assert_eq!(
        Some(found.identifier),
        all.iter()
            .find(|track| track.path == found.path)
            .map(|track| track.identifier),
        "narrowing the scan should not rename anything"
    );
}

#[test]
fn a_directory_outside_the_root_is_refused() {
    let collection = Collection::new(FsPath::new("/music"));
    match collection.scan_directory(Some(&FsPath::new("/podcasts"))) {
        Err(Error::OutsideRoot { path, root }) => {
            assert_eq!(path, FsPath::new("/podcasts"));
            assert_eq!(root, FsPath::new("/music"));
        }
        other => panic!("expected a refusal, got {other:?}"),
    }
    assert_eq!(
        collection.scan_directory(None).expect("the root itself"),
        FsPath::new("/music")
    );
}

#[test]
fn moving_the_music_leaves_every_track_named_as_it_was() {
    let mut collection = collection_over("/music", &["/music/rock/a.mp3", "/music/b.mp3"]);
    let before = names(&collection);

    collection.set_root(FsPath::new("/mnt/moved"));
    let tracks = collection.scan_found(paths(&["/mnt/moved/rock/a.mp3", "/mnt/moved/b.mp3"]));

    assert_eq!(names(&collection), before, "nothing should have been renamed");
    assert_eq!(tracks.len(), 2, "both tracks should have been found again");
    assert!(
        tracks
            .iter()
            .all(|track| collection.history().events_for(track.identifier)
                == Some(&finished_once())),
        "every track should have kept the events recorded against it"
    );
}

#[test]
fn a_track_taken_out_of_the_directory_keeps_its_events() {
    let mut collection = collection_over("/music", &["/music/kept.mp3", "/music/gone.mp3"]);
    let gone = collection
        .catalog()
        .identifier_for(&FsPath::new("gone.mp3"))
        .expect("a named track");

    collection.scan_found(paths(&["/music/kept.mp3"]));
    let stored = loaded_from(&serde_json::to_string(&written(&collection)).expect("encodes"));

    assert_eq!(stored.history().events_for(gone), Some(&finished_once()));
}

#[test]
fn a_version_1_file_is_carried_over_onto_the_directory_it_remembered() {
    let collection = loaded_from(
        r#"{"version": 1, "default_directory": "/music", "tracks": [
            {"path": "/music/rock/a.mp3", "name": "a", "events": []},
            {"path": "/music/b.mp3", "name": "b", "events": []}
        ]}"#,
    );

    assert_eq!(collection.root(), &FsPath::new("/music"));
    assert_eq!(
        names(&collection),
        [(String::from("b.mp3"), 0), (String::from("rock/a.mp3"), 1),]
    );
}

#[test]
fn a_version_1_file_without_a_directory_is_carried_over_onto_the_one_it_implies() {
    let collection = loaded_from(
        r#"{"version": 1, "tracks": [
            {"path": "/music/rock/a.mp3", "name": "a", "events": []},
            {"path": "/music/jazz/b.mp3", "name": "b", "events": []}
        ]}"#,
    );

    assert_eq!(collection.root(), &FsPath::new("/music"));
    assert_eq!(collection.catalog().len(), 2);
}

#[test]
fn a_version_1_track_from_outside_the_remembered_directory_is_left_behind() {
    let collection = loaded_from(
        r#"{"version": 1, "default_directory": "/music", "tracks": [
            {"path": "/music/a.mp3", "name": "a", "events": []},
            {"path": "/podcasts/b.mp3", "name": "b", "events": []}
        ]}"#,
    );

    assert_eq!(names(&collection), [(String::from("a.mp3"), 0)]);
}

#[test]
fn a_version_1_file_keeps_the_events_of_each_track() {
    let collection = loaded_from(
        r#"{"version": 1, "default_directory": "/music", "tracks": [
            {"path": "/music/a.mp3", "name": "a",
             "events": [{"at": 0, "event": {"event": "playback_outcome", "data": {"outcome": "finished"}}}]}
        ]}"#,
    );

    assert_eq!(
        collection.history().events_for(TrackId::new(0)),
        Some(&finished_once())
    );
}

#[test]
fn an_event_this_version_cannot_read_does_not_stop_the_file_loading() {
    assert!(load(FROM_A_LATER_VERSION).is_ok());
}

#[test]
fn an_event_this_version_cannot_read_carries_no_weight() {
    let collection = loaded_from(FROM_A_LATER_VERSION);
    assert_eq!(
        collection.history().events_for(TrackId::new(0)),
        Some(&finished_once())
    );
}

#[test]
fn an_event_this_version_cannot_read_is_written_back_unchanged() {
    let written = after_a_session_over(FROM_A_LATER_VERSION);

    let kept = kept_events(&written);
    assert_eq!(kept.len(), 1, "the event should be written back once");
    assert_eq!(kept[0]["at"], 1_500);
    assert_eq!(kept[0]["event"]["data"]["stars"], 4);
}

#[test]
fn an_event_this_version_cannot_read_is_written_after_the_ones_it_can() {
    let written = after_a_session_over(FROM_A_LATER_VERSION);

    let events = written_events(&written);
    assert_eq!(events.len(), 2, "nothing should have been dropped");
    assert_eq!(events[0]["event"]["event"], "playback_outcome");
    assert_eq!(events[1]["event"]["event"], "rated");
}

#[test]
fn an_event_this_version_cannot_read_survives_many_sessions() {
    let mut text = String::from(FROM_A_LATER_VERSION);
    for _ in 0..3 {
        let collection = loaded_from(&text);
        text = written_text(&collection);
    }
    let last: serde_json::Value = serde_json::from_str(&text).expect("the file is json");
    assert_eq!(kept_events(&last).len(), 1);
}

#[test]
fn an_event_named_but_not_shaped_like_one_is_kept_rather_than_refused() {
    let written = after_a_session_over(
        r#"{"version": 2, "root": "/music", "next_id": 1, "tracks": [
            {"id": 0, "path": "a.mp3", "events": [
                {"at": 0, "event": "added"},
                {"at": 1000, "event": {"event": "playback_outcome",
                                       "data": {"outcome": "finished"}}}
            ]}
        ]}"#,
    );

    let events = written_events(&written);
    assert_eq!(events.len(), 2, "nothing should have been dropped");
    let expected: serde_json::Value =
        serde_json::from_str(r#"{"at": 0, "event": "added"}"#).expect("json");
    assert_eq!(
        events[1], expected,
        "the event nobody can read should be written back as it was"
    );
}

#[test]
fn text_that_is_no_event_at_all_is_kept_rather_than_refused() {
    let written = after_a_session_over(
        r#"{"version": 2, "root": "/music", "next_id": 1,
            "tracks": [{"id": 0, "path": "a.mp3", "events": ["added"]}]}"#,
    );

    assert_eq!(
        written_events(&written),
        [serde_json::Value::String(String::from("added"))]
    );
}

#[test]
fn a_field_this_version_does_not_know_does_not_stop_the_file_loading() {
    let collection = loaded_from(
        r#"{"version": 2, "root": "/music", "next_id": 1, "listened_for": 900,
            "tracks": [{"id": 0, "path": "a.mp3", "starred": true, "events": [
                {"at": 0, "event": {"event": "playback_outcome",
                                    "data": {"outcome": "finished", "device": "phone"}}}
            ]}]}"#,
    );

    assert_eq!(
        collection.history().events_for(TrackId::new(0)),
        Some(&finished_once()),
        "an event should still read once a field is added to it"
    );
}

#[test]
fn an_event_this_version_cannot_read_is_carried_over_from_version_1() {
    let written = after_a_session_over(
        r#"{"version": 1, "default_directory": "/music", "tracks": [
            {"path": "/music/a.mp3", "name": "a", "events": [
                {"at": 1500, "event": {"event": "rated", "data": {"stars": 4}}}
            ]}
        ]}"#,
    );

    assert_eq!(kept_events(&written).len(), 1);
}

#[test]
fn a_file_that_cannot_be_read_is_reported_with_its_reason() {
    match file().load_parsed(Some(Err(String::from("permission denied")))) {
        Err(Error::File { path, message }) => {
            assert_eq!(path, FsPath::new("/home/listener/.local/share/jive/state.json"));
            assert_eq!(message, "permission denied");
        }
        other => panic!("expected a file error, got {other:?}"),
    }
}

#[test]
fn a_new_collection_is_written_with_nothing_in_it() {
    let collection = Collection::new(FsPath::new("/music"));
    let expected: serde_json::Value = serde_json::from_str(
        r#"{"version": 2, "root": "/music", "next_id": 0, "tracks": []}"#,
    )
    .expect("json");
    assert_eq!(written(&collection), expected);
}

/// A file of each supported type, as a walk of `/music` would hand them over:
/// every one of them becomes a track.
#[test]
fn every_known_extension_is_found() {
    let files: Vec<String> = jive::formats::SUPPORTED_EXTENSIONS
        .iter()
        .map(|extension| format!("/music/track.{extension}"))
        .collect();
    let found: Vec<FsPath> = files
        .iter()
        .map(|file| FsPath::new(file))
        .filter(jive::formats::is_supported)
        .collect();
    let mut collection = Collection::new(FsPath::new("/music"));
    let tracks = collection.scan_found(found);
    assert_eq!(tracks.len(), jive::formats::SUPPORTED_EXTENSIONS.len());
}

/// A path a first-version file lists twice keeps the events listed last,
/// whatever paths come between.
#[test]
fn a_version_1_path_listed_twice_keeps_the_events_listed_last() {
    let collection = loaded_from(
        r#"{"version": 1, "default_directory": "/music", "tracks": [
            {"path": "/music/b.mp3", "name": "b", "events": []},
            {"path": "/music/a.mp3", "name": "a", "events": []},
            {"path": "/music/b.mp3", "name": "b",
             "events": [{"at": 0, "event": {"event": "playback_outcome", "data": {"outcome": "finished"}}}]}
        ]}"#,
    );

    assert_eq!(
        names(&collection),
        [(String::from("a.mp3"), 0), (String::from("b.mp3"), 1)]
    );
    assert_eq!(
        collection.history().events_for(TrackId::new(1)),
        Some(&finished_once())
    );
}

#[test]
fn a_file_read_as_text_loads_like_its_json() {
    let collection = collection_over("/music", &["/music/a.mp3", "/music/b.mp3"]);
    let text = written_text(&collection);
    let from_text = file()
        .load_text(Some(&text))
        .expect("the file loads")
        .expect("a collection");
    assert_eq!(names(&from_text), names(&collection));
    assert_eq!(from_text.history(), collection.history());
}

#[test]
fn no_file_text_is_no_collection() {
    assert!(matches!(file().load_text(None), Ok(None)));
}

#[test]
fn text_that_is_not_json_is_refused_against_the_file() {
    let loaded = file().load_text(Some("{ not json"));
    match loaded {
        Err(Error::File { path, message }) => {
            assert_eq!(path, FsPath::new("/home/listener/.local/share/jive/state.json"));
            assert!(!message.is_empty());
        }
        _ => panic!("a file error"),
    }
}

#[test]
fn a_saved_text_loads_back_the_same_collection() {
    let collection = collection_over("/music", &["/music/rock/a.mp3", "/music/b.mp3"]);
    let text = collection.to_text().expect("the collection is written");
    let loaded = file()
        .load_text(Some(&text))
        .expect("the file loads")
        .expect("a collection");
    assert_eq!(names(&loaded), names(&collection));
    assert_eq!(loaded.history(), collection.history());
    assert_eq!(loaded.root(), collection.root());
}

#[test]
fn a_scan_numbers_only_the_paths_it_has_not_seen() {
    let mut collection = Collection::new(FsPath::new("/music"));
    collection.scan_found(paths(&["/music/b.mp3"]));
    let tracks = collection.scan_found(paths(&[
        "/music/c.mp3",
        "/music/b.mp3",
        "/music/a.mp3",
        "/podcasts/x.mp3",
        "/music/a.mp3",
    ]));
    let numbers: Vec<u32> = tracks.iter().map(|t| t.identifier.number()).collect();
    assert_eq!(numbers, [1, 1, 0, 2]);
    assert_eq!(collection.catalog().next(), 3);
    assert_eq!(
        names(&collection),
        [
            (String::from("a.mp3"), 1),
            (String::from("b.mp3"), 0),
            (String::from("c.mp3"), 2),
        ]
    );
}
