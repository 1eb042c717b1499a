use jive::formats::SUPPORTED_EXTENSIONS;
use jive::formats::display_name;
use jive::formats::is_supported;
use jive::path::FsPath;
use std::collections::HashSet;

fn supports(name: &str) -> bool {
    is_supported(&FsPath::new(name))
}

fn shown(name: &str) -> String {
    display_name(&FsPath::new(name)).to_string()
}

#[test]
fn a_listed_type_is_a_track() {
    assert!(supports("song.mp3"));
}

#[test]
fn a_listed_type_in_capitals_is_a_track() {
    assert!(supports("song.MP3"));
}

#[test]
fn a_listed_type_in_mixed_case_is_a_track() {
    assert!(supports("song.FlAc"));
}

#[test]
fn an_unlisted_type_is_not_a_track() {
    assert!(!supports("song.dsf"));
}

#[test]
fn artwork_is_not_a_track() {
    assert!(!supports("cover.jpg"));
}

#[test]
fn a_cue_sheet_is_not_a_track() {
    assert!(!supports("album.cue"));
}

#[test]
fn a_file_without_an_extension_is_not_a_track() {
    assert!(!supports("README"));
}

#[test]
fn a_file_that_is_only_an_extension_is_not_a_track() {
    assert!(!supports(".mp3"));
}

#[test]
fn a_name_with_dots_goes_by_its_last_one() {
    assert!(supports("artist - track.take 2.mp3"));
}

#[test]
fn a_directory_named_like_a_track_is_judged_the_same_way() {
    assert!(supports("album.mp3"));
}

#[test]
fn a_path_is_judged_by_its_last_part() {
    assert!(supports("/music/covers.jpg/song.flac"));
}

#[test]
fn every_listed_extension_is_written_the_way_matching_expects() {
    let mut seen = HashSet::new();
    for extension in SUPPORTED_EXTENSIONS {
        assert!(!extension.is_empty(), "the list holds an empty extension");
        assert!(
            !extension.contains('.'),
            "{extension} should be written without its dot"
        );
        assert_eq!(
            extension.to_ascii_lowercase(),
            extension,
            "{extension} should be lowercase, since matching lowercases first"
        );
        assert!(seen.insert(extension), "{extension} is listed twice");
        assert!(
            supports(&format!("song.{extension}")),
            "{extension} is listed but not recognized"
        );
    }
}

#[test]
fn a_name_keeps_its_spacing() {
    assert_eq!(shown("/music/A Long Song Name.mp3"), "A Long Song Name");
}

#[test]
fn a_name_keeps_characters_beyond_ascii() {
    assert_eq!(shown("/music/東京の夜.mp3"), "東京の夜");
}

#[test]
fn a_name_keeps_everything_before_the_last_dot() {
    assert_eq!(shown("/music/artist - track.take 2.mp3"), "artist - track.take 2");
}

#[test]
fn a_hidden_file_is_still_named() {
    assert_eq!(shown("/music/.hidden.mp3"), ".hidden");
}

#[test]
fn a_name_is_taken_from_the_last_part_of_the_path() {
    assert_eq!(shown("/music/album.mp3/song.flac"), "song");
    assert_eq!(shown("/music/nested/deeper/song.mp3"), "song");
}
