use jive::Duration;
use jive::player::ViewModel;
use jive::ui::PANEL_WIDTH;
use jive::ui::SCROLL_GAP;
use jive::ui::centered;
use jive::ui::fit;
use jive::ui::format_elapsed;
use jive::ui::panel_lines;
use jive::ui::redraw_interval;
use jive::ui::rolled;
use jive::ui::scroll_step;
use unicode_width::UnicodeWidthStr;

const TOO_LONG: &str = "An Extremely Long Track Name That Will Never Fit Inside The Panel";

const TOO_WIDE: &str = "東京の夜を歩きながら聴いている長い長い曲の名前と副題まで全部入り";

fn scrolled(name: &str, width: u16, steps: u64) -> String {
    rolled(
        name,
        width,
        Duration::from_milliseconds(steps * scroll_step().as_milliseconds()),
    )
}

fn cycle_of(name: &str) -> u64 {
    let characters = name.chars().count() + SCROLL_GAP.chars().count();
    u64::try_from(characters).expect("a name of a sane length")
}

fn playing(name: &str, seconds: u64) -> ViewModel {
    ViewModel::Playing {
        name: String::from(name),
        elapsed: Duration::from_seconds(seconds),
    }
}

fn shown(view: &ViewModel) -> String {
    panel_lines(view, PANEL_WIDTH).join("\n")
}

#[test]
fn a_scroll_step_is_a_whole_number_of_redraws() {
    assert_eq!(
        scroll_step().as_milliseconds() % redraw_interval().as_milliseconds(),
        0
    );
    assert!(
        scroll_step() >= redraw_interval(),
        "a step shorter than a redraw could not be seen"
    );
}

#[test]
fn a_name_that_fits_is_shown_whole_and_stays_where_it_is() {
    assert_eq!(scrolled("A Song", 20, 0), "A Song");
    assert_eq!(scrolled("A Song", 20, 9), "A Song");
    assert_eq!(scrolled("A Song", 6, 9), "A Song", "a name that just fits");
}

#[test]
fn a_name_too_wide_moves_one_character_at_a_time() {
    assert_eq!(scrolled(TOO_LONG, 20, 0), "An Extremely Long Tr");
    assert_eq!(scrolled(TOO_LONG, 20, 1), "n Extremely Long Tra");
    assert_eq!(scrolled(TOO_LONG, 20, 2), " Extremely Long Trac");
}

#[test]
fn a_scrolling_name_brings_its_whole_length_into_view() {
    let seen: String = (0..cycle_of(TOO_LONG))
        .map(|step| scrolled(TOO_LONG, 20, step))
        .collect();
    for word in TOO_LONG.split(' ') {
        assert!(seen.contains(word), "{word} never came into view");
    }
}

#[test]
fn a_scrolling_name_comes_round_to_where_it_started() {
    let cycle = cycle_of(TOO_LONG);
    for step in 0..3 {
        assert_eq!(
            scrolled(TOO_LONG, 20, step),
            scrolled(TOO_LONG, 20, step + cycle),
            "step {step} should repeat a cycle later"
        );
    }
}

#[test]
fn every_window_of_a_scrolling_name_is_exactly_the_width_it_was_given() {
    for name in [TOO_LONG, TOO_WIDE] {
        for step in 0..cycle_of(name) {
            let shown = scrolled(name, 21, step);
            assert_eq!(
                UnicodeWidthStr::width(shown.as_str()),
                21,
                "{shown:?} at step {step}"
            );
        }
    }
}

#[test]
fn a_name_of_nothing_at_all_still_draws_a_panel() {
    assert_eq!(panel_lines(&playing("", 0), PANEL_WIDTH).len(), 3);
}

#[test]
fn a_name_that_is_only_spaces_still_draws_a_panel() {
    assert_eq!(panel_lines(&playing("     ", 0), PANEL_WIDTH).len(), 3);
}

#[test]
fn a_playing_track_is_named() {
    assert!(shown(&playing("Morning Rain", 0)).contains("Morning Rain"));
}

#[test]
fn a_playing_track_is_not_labelled() {
    assert!(!shown(&playing("A Song", 0)).contains("now playing"));
}

#[test]
fn a_playing_view_shows_no_key_hint() {
    assert!(!shown(&playing("A Song", 0)).contains("next"));
}

#[test]
fn a_stalled_view_shows_no_key_hint() {
    assert!(!shown(&ViewModel::Stalled).contains("next"));
}

#[test]
fn a_playing_view_offers_no_quit_key() {
    assert!(!shown(&playing("A Song", 0)).contains("quit"));
}

#[test]
fn a_stalled_view_says_nothing_would_play() {
    assert!(shown(&ViewModel::Stalled).contains("nothing"));
}

#[test]
fn an_empty_view_offers_no_quit_key() {
    assert!(!shown(&ViewModel::Empty).contains("quit"));
}

#[test]
fn an_empty_view_says_there_is_nothing_to_play() {
    assert!(shown(&ViewModel::Empty).contains("nothing"));
}

#[test]
fn a_long_name_scrolls_rather_than_being_shortened() {
    assert!(!shown(&playing(TOO_LONG, 0)).contains('…'));
}

#[test]
fn a_wide_name_scrolls_rather_than_being_shortened() {
    assert!(!shown(&playing(TOO_WIDE, 0)).contains('…'));
}

#[test]
fn a_name_that_fits_is_left_alone() {
    assert!(!shown(&playing("A Song", 0)).contains('…'));
}

#[test]
fn the_same_view_always_draws_the_same_screen() {
    for view in [
        playing("A Song", 65),
        playing(TOO_LONG, 61),
        playing(TOO_WIDE, 61),
        ViewModel::Empty,
        ViewModel::Stalled,
    ] {
        assert_eq!(shown(&view), shown(&view));
    }
}

#[test]
fn the_time_played_is_shown_in_minutes_and_seconds() {
    assert_eq!(format_elapsed(Duration::from_seconds(65)), "01:05");
    assert_eq!(format_elapsed(Duration::from_seconds(0)), "00:00");
    assert_eq!(format_elapsed(Duration::from_seconds(3_725)), "1:02:05");
}

#[test]
fn the_box_holds_the_track_and_the_time_it_has_played() {
    assert_eq!(
        panel_lines(&playing("A Song", 65), PANEL_WIDTH),
        ["A Song", "", "01:05"]
    );
}

#[test]
fn a_message_too_wide_for_the_panel_is_shortened() {
    assert_eq!(fit("nothing to play", 8), "nothing…");
    assert_eq!(fit("nothing to play", 0), "…");
    assert_eq!(fit("nothing", 7), "nothing");
}

#[test]
fn the_messages_fit_the_panel_at_its_own_width() {
    for view in [ViewModel::Empty, ViewModel::Stalled] {
        for line in panel_lines(&view, PANEL_WIDTH) {
            assert!(UnicodeWidthStr::width(line.as_str()) <= usize::from(PANEL_WIDTH));
            assert!(!line.contains('…'));
        }
    }
}

#[test]
fn a_box_is_centered_and_never_larger_than_the_terminal() {
    assert_eq!(centered((0, 0, 80, 24), 48, 7), (16, 8, 48, 7));
    assert_eq!(centered((0, 0, 20, 5), 48, 7), (0, 0, 20, 5));
    assert_eq!(centered((2, 3, 81, 25), 48, 7), (18, 12, 48, 7));
}
