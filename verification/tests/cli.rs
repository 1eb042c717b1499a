use jive::cli::Arguments;
use jive::cli::HELP;
use jive::cli::Request;
use jive::cli::VERSION;
use jive::error::Error;
use jive::path::FsPath;

fn line(command_line: &[&str]) -> Vec<String> {
    command_line.iter().map(|part| String::from(*part)).collect()
}

fn parse(command_line: &[&str]) -> Request {
    Arguments::parse_from(line(command_line)).expect("the command line parses")
}

fn arguments(command_line: &[&str]) -> Arguments {
    match parse(command_line) {
        Request::Play(arguments) => arguments,
        Request::Print(_) => panic!("expected arguments, not something to print"),
    }
}

fn root(command_line: &[&str], remembered: Option<&str>) -> Option<FsPath> {
    let remembered = remembered.map(FsPath::new);
    arguments(command_line).root_of(remembered.as_ref()).ok()
}

fn played(command_line: &[&str]) -> Option<FsPath> {
    arguments(command_line).directory_to_play().cloned()
}

fn refused(command_line: &[&str]) -> bool {
    Arguments::parse_from(line(command_line)).is_err()
}

fn refusal(command_line: &[&str]) -> String {
    arguments(command_line)
        .root_of(None)
        .expect_err("there is nothing to play")
        .to_string()
}

fn path(text: &str) -> Option<FsPath> {
    Some(FsPath::new(text))
}

#[test]
fn a_first_run_takes_the_directory_it_is_pointed_at() {
    assert_eq!(root(&["/music"], None), path("/music"));
}

#[test]
fn a_remembered_root_is_used_when_none_is_given() {
    assert_eq!(root(&[], Some("/music")), path("/music"));
}

#[test]
fn a_remembered_root_wins_over_a_directory_to_play() {
    assert_eq!(root(&["/music/rock"], Some("/music")), path("/music"));
}

#[test]
fn a_root_given_directly_wins_over_the_remembered_one() {
    assert_eq!(root(&["--root", "/mnt/music"], Some("/music")), path("/mnt/music"));
}

#[test]
fn a_root_given_directly_wins_over_a_directory_to_play() {
    assert_eq!(root(&["/music/rock", "--root", "/music"], None), path("/music"));
}

#[test]
fn a_root_beyond_ascii_is_taken_whole() {
    assert_eq!(root(&["--root", "/music/東京"], None), path("/music/東京"));
}

#[test]
fn a_root_with_spaces_is_taken_whole() {
    assert_eq!(
        root(&["--root", "/music/late night"], None),
        path("/music/late night")
    );
}

#[test]
fn nothing_at_all_is_reported() {
    assert_eq!(root(&[], None), None);
}

#[test]
fn a_directory_given_directly_is_what_plays() {
    assert_eq!(played(&["/music/rock"]), path("/music/rock"));
}

#[test]
fn a_relative_directory_is_taken_as_given() {
    assert_eq!(played(&["."]), path("."));
}

#[test]
fn setting_a_root_plays_all_of_it() {
    assert_eq!(played(&["--root", "/music"]), None);
}

#[test]
fn nothing_given_plays_the_whole_root() {
    assert_eq!(played(&[]), None);
}

#[test]
fn a_directory_spelled_like_a_flag_is_taken_after_a_bare_pair_of_dashes() {
    assert_eq!(played(&["--", "--music"]), path("--music"));
}

#[test]
fn a_lone_dash_is_a_directory() {
    assert_eq!(played(&["-"]), path("-"));
}

#[test]
fn an_unknown_flag_is_refused() {
    assert!(refused(&["--shuffle"]), "should have been refused");
}

#[test]
fn an_unknown_short_flag_is_refused() {
    assert!(refused(&["-x"]), "should have been refused");
}

#[test]
fn a_second_directory_is_refused() {
    assert!(refused(&["/music", "/other"]), "should have been refused");
}

#[test]
fn a_root_without_a_value_is_refused() {
    assert!(refused(&["--root"]), "should have been refused");
}

#[test]
fn a_second_directory_after_the_dashes_is_refused() {
    assert!(refused(&["--", "/music", "/other"]), "should have been refused");
}

#[test]
fn help_is_asked_for_by_its_short_flag() {
    assert_eq!(parse(&["-h"]), Request::Print(HELP));
}

#[test]
fn help_is_asked_for_by_its_long_flag() {
    assert_eq!(parse(&["--help"]), Request::Print(HELP));
}

#[test]
fn help_wins_over_anything_else_on_the_line() {
    assert_eq!(parse(&["/music", "--help"]), Request::Print(HELP));
}

#[test]
fn the_version_is_asked_for_by_its_short_flag() {
    assert_eq!(parse(&["-V"]), Request::Print(VERSION));
}

#[test]
fn the_version_is_asked_for_by_its_long_flag() {
    assert_eq!(parse(&["--version"]), Request::Print(VERSION));
}

#[test]
fn a_directory_to_play_is_kept_apart_from_the_root() {
    let both = arguments(&["/music/rock", "--root", "/music"]);
    assert_eq!(both.directory, path("/music/rock"));
    assert_eq!(both.root, path("/music"));
    assert_eq!(
        arguments(&["/music"]).root,
        None,
        "playing a directory should move nothing"
    );
}

#[test]
fn a_flag_after_the_dashes_is_a_directory_rather_than_a_flag() {
    let after = arguments(&["--", "--help"]);
    assert_eq!(after.directory, path("--help"));
}

#[test]
fn nothing_to_play_says_how_to_fix_it() {
    assert!(refusal(&[]).contains("--root"), "{}", refusal(&[]));
}

#[test]
fn the_help_covers_every_flag_and_every_key() {
    for mention in [
        "--root",
        "--help",
        "--version",
        "DIRECTORY",
        "n",
        "q",
        "ctrl-c",
    ] {
        assert!(HELP.contains(mention), "the help should mention {mention}");
    }
}

#[test]
fn an_unknown_flag_is_named_in_the_refusal() {
    match Arguments::parse_from(line(&["--shuffle"])) {
        Err(Error::UnknownArgument { argument }) => assert_eq!(argument, "--shuffle"),
        other => panic!("expected an unknown argument, got {other:?}"),
    }
}

#[test]
fn a_root_without_a_value_names_the_flag() {
    match Arguments::parse_from(line(&["--root"])) {
        Err(Error::MissingValue { flag }) => assert_eq!(flag, "--root"),
        other => panic!("expected a missing value, got {other:?}"),
    }
}
