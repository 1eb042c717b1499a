use jive::TrackId;
use jive::catalog::Catalog;
use jive::path::FsPath;

fn path(text: &str) -> FsPath {
    FsPath::new(text)
}

fn catalog() -> Catalog {
    Catalog::new(path("/music"))
}

fn having_seen(tracks: &[&str]) -> Catalog {
    let mut catalog = catalog();
    for track in tracks {
        catalog.identify(&path(track));
    }
    catalog
}

fn identifier_of(catalog: &Catalog, text: &str) -> Option<u32> {
    catalog.identifier_for(&path(text)).map(TrackId::number)
}

fn paths_of(catalog: &Catalog) -> Vec<String> {
    catalog.tracks().iter().map(|(_, path)| path.to_string()).collect()
}

fn numbers_of(catalog: &Catalog) -> Vec<u32> {
    catalog.tracks().iter().map(|(identifier, _)| identifier.number()).collect()
}

fn restored(catalog: &Catalog, next: u32) -> Result<Catalog, String> {
    let tracks: Vec<(FsPath, TrackId)> = catalog
        .tracks()
        .into_iter()
        .map(|(identifier, path)| (path, identifier))
        .collect();
    Catalog::restore(path("/music"), next, tracks)
}

#[test]
fn a_fresh_catalog_holds_no_tracks() {
    let catalog = catalog();
    assert!(catalog.is_empty());
    assert_eq!(identifier_of(&catalog, "a.mp3"), None);
    assert_eq!(catalog.path_of(TrackId::new(0)), None);
}

#[test]
fn a_track_is_named_the_moment_it_is_seen() {
    let catalog = having_seen(&["nested/a.mp3"]);
    assert!(!catalog.is_empty());
    assert_eq!(identifier_of(&catalog, "nested/a.mp3"), Some(0));
    assert_eq!(catalog.path_of(TrackId::new(0)).map(FsPath::to_string), Some(String::from("nested/a.mp3")));
}

#[test]
fn tracks_come_back_in_path_order() {
    let catalog = having_seen(&["z.mp3", "a.mp3", "m/b.mp3"]);
    assert_eq!(paths_of(&catalog), ["a.mp3", "m/b.mp3", "z.mp3"]);
}

#[test]
fn an_identifier_that_would_be_assigned_again_is_refused() {
    assert!(restored(&having_seen(&["a.mp3"]), 0).is_err());
}

#[test]
fn a_catalog_survives_being_stored() {
    let catalog = having_seen(&["a.mp3", "nested/b.mp3"]);
    let next = catalog.next();
    assert_eq!(restored(&catalog, next), Ok(catalog.clone()));
}

#[test]
fn identifiers_are_assigned_in_the_order_tracks_are_seen() {
    let catalog = having_seen(&["b.mp3", "a.mp3", "c.mp3"]);
    assert_eq!(identifier_of(&catalog, "b.mp3"), Some(0));
    assert_eq!(identifier_of(&catalog, "a.mp3"), Some(1));
    assert_eq!(identifier_of(&catalog, "c.mp3"), Some(2));
}

#[test]
fn a_track_seen_again_keeps_the_identifier_it_had() {
    let mut catalog = having_seen(&["a.mp3", "b.mp3"]);
    assert_eq!(catalog.identify(&path("a.mp3")), TrackId::new(0));
    assert_eq!(catalog.len(), 2, "nothing new should have been identified");
}

#[test]
fn an_identifier_is_not_assigned_again_once_its_track_is_gone() {
    let catalog = having_seen(&["gone.mp3", "kept.mp3"]);
    let kept: Vec<(FsPath, TrackId)> = catalog
        .tracks()
        .into_iter()
        .filter(|(_, path)| path.to_string() != "gone.mp3")
        .map(|(identifier, path)| (path, identifier))
        .collect();
    let mut without = Catalog::restore(path("/music"), catalog.next(), kept).expect("the parts are usable");
    assert_eq!(without.identify(&path("fresh.mp3")), TrackId::new(2));
}

#[test]
fn moving_the_root_leaves_every_identifier_alone() {
    let mut catalog = having_seen(&["rock/a.mp3", "jazz/b.mp3"]);
    let before = numbers_of(&catalog);
    catalog.set_root(path("/mnt/elsewhere"));
    assert_eq!(catalog.root().to_string(), "/mnt/elsewhere");
    assert_eq!(numbers_of(&catalog), before);
}

#[test]
fn two_places_sharing_an_identifier_are_refused() {
    let tracks = vec![(path("a.mp3"), TrackId::new(0)), (path("b.mp3"), TrackId::new(0))];
    let refused = Catalog::restore(path("/music"), 1, tracks).expect_err("two tracks cannot be one track");
    assert!(refused.contains("both track 0"), "{refused}");
}

#[test]
fn a_refusal_names_the_track_at_fault() {
    let tracks = vec![(path("a.mp3"), TrackId::new(0)), (path("b.mp3"), TrackId::new(0))];
    let refused = Catalog::restore(path("/music"), 1, tracks).expect_err("refused");
    assert_eq!(refused, "`a.mp3` and `b.mp3` are both track 0");
    let early = vec![(path("x.mp3"), TrackId::new(4))];
    assert_eq!(
        Catalog::restore(path("/music"), 2, early).expect_err("refused"),
        "`x.mp3` is track 4, which has not been assigned yet"
    );
}

#[test]
fn a_path_given_twice_keeps_the_identifier_given_last() {
    let tracks = vec![(path("a.mp3"), TrackId::new(0)), (path("a.mp3"), TrackId::new(1))];
    let catalog = Catalog::restore(path("/music"), 2, tracks).expect("usable");
    assert_eq!(identifier_of(&catalog, "a.mp3"), Some(1));
    assert_eq!(catalog.len(), 1);
}
