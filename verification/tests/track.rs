use jive::TrackId;
use jive::TrackIds;
use jive::TrackName;
use jive::TrackNames;

fn identifiers(count: u32) -> TrackIds {
    TrackIds::from_vec((0..count).map(TrackId::new).collect())
}

fn named(names: &[&str]) -> (TrackIds, TrackNames) {
    let identifiers = identifiers(u32::try_from(names.len()).expect("a small set"));
    let mut stored = TrackNames::new();
    for (identifier, name) in identifiers.iter().zip(names) {
        stored.insert(identifier, TrackName::new(name));
    }
    (identifiers, stored)
}

fn names_of(names: &TrackNames) -> Vec<String> {
    names.iter().map(TrackName::to_string).collect()
}

fn first_of(identifiers: &TrackIds) -> TrackId {
    identifiers.iter().next().expect("a first identifier")
}

fn last_of(identifiers: &TrackIds) -> TrackId {
    identifiers.iter().last().expect("a last identifier")
}

fn resolved(names: &[&str]) -> Vec<String> {
    let (identifiers, stored) = named(names);
    identifiers
        .iter()
        .filter_map(|identifier| stored.get(identifier))
        .map(TrackName::to_string)
        .collect()
}

fn sparse() -> (TrackId, TrackNames) {
    let identifier = TrackId::new(5_000);
    let mut names = TrackNames::new();
    names.insert(identifier, TrackName::new("distant"));
    (identifier, names)
}

#[test]
fn an_empty_set_holds_nothing() {
    let identifiers = identifiers(0);
    assert_eq!(identifiers.len(), 0);
    assert!(identifiers.is_empty());
    assert_eq!(identifiers.iter().count(), 0);
}

#[test]
fn a_set_holds_its_identifiers_in_the_order_they_were_added() {
    let identifiers = identifiers(3);
    assert_eq!(identifiers.len(), 3);
    assert!(!identifiers.is_empty());
    assert_eq!(
        identifiers.iter().collect::<Vec<TrackId>>(),
        [TrackId::new(0), TrackId::new(1), TrackId::new(2)]
    );
}

#[test]
fn a_set_reports_which_identifiers_are_its_own() {
    let two = identifiers(2);
    assert!(two.contains(first_of(&two)));
    assert!(two.contains(last_of(&two)));
    assert_ne!(first_of(&two), last_of(&two), "identifiers are told apart");
    assert!(!identifiers(1).contains(last_of(&two)));
}

#[test]
fn an_identifier_is_the_number_it_was_written_as() {
    assert_eq!(TrackId::new(7).number(), 7);
    assert_eq!(TrackId::new(7).to_string(), "track 7");
}

#[test]
fn a_name_is_the_text_it_was_built_from() {
    for text in ["a name", "", "東京の夜 · pt. 2"] {
        let name = TrackName::new(text);
        assert_eq!(name.as_str(), text);
        assert_eq!(name.to_string(), text);
        assert_eq!(AsRef::<str>::as_ref(&name), text);
        assert_eq!(name.clone().into_string(), String::from(text));
        assert_eq!(TrackName::from(String::from(text)), name);
    }
}

#[test]
fn an_empty_table_holds_nothing() {
    let names = TrackNames::new();
    assert_eq!(names.len(), 0);
    assert!(names.is_empty());
}

#[test]
fn a_table_resolves_the_names_it_holds_in_identifier_order() {
    let (_, stored) = named(&["one", "two"]);
    assert_eq!(stored.len(), 2);
    assert!(!stored.is_empty());
    assert_eq!(resolved(&["one", "two", "three"]), ["one", "two", "three"]);
    assert_eq!(
        stored.get(TrackId::new(4)),
        None,
        "an identifier with no name resolves to nothing"
    );
    assert_eq!(stored.iter().count(), 2);
}

#[test]
fn a_table_collects_from_an_iterator() {
    let collected = TrackNames::from_names(["one", "two"].into_iter().map(TrackName::new).collect());
    assert_eq!(names_of(&collected), ["one", "two"]);
}

#[test]
fn a_distant_identifier_keeps_its_name() {
    let (identifier, names) = sparse();
    assert_eq!(names.get(identifier).map(TrackName::as_str), Some("distant"));
    assert_eq!(names.len(), 1);
    assert!(!names.is_empty());
}

#[test]
fn every_identifier_of_a_set_resolves_to_its_own_name() {
    let names = ["first", "second", "third", "fourth"];
    let (identifiers, stored) = named(&names);
    for (identifier, expected) in identifiers.iter().zip(names) {
        assert_eq!(stored.get(identifier).map(TrackName::as_str), Some(expected));
    }
}

#[test]
fn a_table_keeps_duplicate_names_apart_by_identifier() {
    let (identifiers, stored) = named(&["same", "same"]);
    assert_eq!(stored.len(), 2);
    assert_eq!(names_of(&stored), ["same", "same"]);
    assert_ne!(first_of(&identifiers), last_of(&identifiers));
}

#[test]
fn the_slots_between_two_distant_names_stay_empty() {
    let mut names = TrackNames::new();
    names.insert(TrackId::new(0), TrackName::new("first"));
    names.insert(TrackId::new(9), TrackName::new("last"));
    assert_eq!(names_of(&names), ["first", "last"]);
    assert!((1..9).all(|number| names.get(TrackId::new(number)).is_none()));
}

#[test]
fn a_name_recorded_twice_keeps_the_later_one() {
    let identifier = TrackId::new(3);
    let mut names = TrackNames::new();
    names.insert(identifier, TrackName::new("as it was"));
    names.insert(identifier, TrackName::new("as it is"));
    assert_eq!(names.get(identifier).map(TrackName::as_str), Some("as it is"));
    assert_eq!(names.len(), 1);
}

#[test]
fn a_large_set_holds_distinct_identifiers_throughout() {
    let identifiers = identifiers(5_000);
    let seen: std::collections::HashSet<TrackId> = identifiers.iter().collect();
    assert_eq!(seen.len(), 5_000);
    assert!(identifiers.iter().all(|one| identifiers.contains(one)));
}
