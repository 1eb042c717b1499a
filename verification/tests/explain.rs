use jive::Duration;
use jive::History;
use jive::Library;
use jive::Time;
use jive::TrackId;
use jive::TrackName;
use jive::explain::NAME_LIMIT;
use jive::explain::Row;
use jive::explain::legend;
use jive::explain::rows;
use jive::explain::span;
use jive::explain::table;
use jive::explain::two_places;
use jive::library::DiscoveredTrack;
use jive::offer::Factors;
use jive::offer::gone_stale_after;
use jive::path::FsPath;
use jive::rating::ONE;
use jive::track_events::AnyTrackEvent;
use jive::track_events::PlaybackOutcome;
use jive::track_events::Skipped;
use jive::track_events::TimeTaggedTrackEvent;
use jive::track_events::TimeTaggedTrackEvents;
use jive::track_events::TrackFailure;
use unicode_width::UnicodeWidthChar;
use unicode_width::UnicodeWidthStr;

fn discovered(names: &[&str]) -> Vec<DiscoveredTrack> {
    names
        .iter()
        .enumerate()
        .map(|(index, name)| DiscoveredTrack {
            identifier: TrackId::new(u32::try_from(index).expect("a small library")),
            name: TrackName::new(name),
            path: FsPath::new(&format!("/music/{name}.mp3")),
        })
        .collect()
}

fn library_of(names: &[&str]) -> Library {
    Library::build(discovered(names), &History::new(), Time::epoch())
}

fn library_with_history(tracks: &[(&str, Vec<AnyTrackEvent>)]) -> Library {
    let names: Vec<&str> = tracks.iter().map(|(name, _)| *name).collect();
    let discovered = discovered(&names);
    let mut history = History::new();
    for (track, (_, events)) in discovered.iter().zip(tracks) {
        let tagged = events
            .iter()
            .map(|event| TimeTaggedTrackEvent::new(Time::epoch(), *event))
            .collect();
        history.store(track.identifier, TimeTaggedTrackEvents::from_vec(tagged));
    }
    Library::build(discovered, &history, Time::epoch())
}

fn library_where_every_track(names: &[&str], events: &[AnyTrackEvent]) -> Library {
    let tracks: Vec<(&str, Vec<AnyTrackEvent>)> =
        names.iter().map(|name| (*name, events.to_vec())).collect();
    library_with_history(&tracks)
}

fn finished() -> AnyTrackEvent {
    AnyTrackEvent::from(PlaybackOutcome::Finished)
}

fn failed() -> AnyTrackEvent {
    AnyTrackEvent::from(PlaybackOutcome::from(TrackFailure::DecoderError))
}

fn quick_skip() -> AnyTrackEvent {
    AnyTrackEvent::from(Skipped::new(Duration::from_seconds(2)))
}

fn repeated(event: &AnyTrackEvent, times: usize) -> Vec<AnyTrackEvent> {
    std::iter::repeat_n(*event, times).collect()
}

fn now() -> Time {
    Time::epoch() + gone_stale_after()
}

fn rows_of(library: &Library) -> Vec<Row> {
    rows(library, now())
}

fn named(rows: &[Row]) -> Vec<String> {
    rows.iter().map(|row| row.name.clone()).collect()
}

fn only_row(library: &Library) -> Row {
    let mut rows = rows_of(library);
    assert_eq!(rows.len(), 1, "one track should make one row");
    rows.pop().expect("a row")
}

fn cell_widths(line: &str) -> Vec<usize> {
    line.split(['|', '+']).map(UnicodeWidthStr::width).collect()
}

fn widths_of(rendered: &str) -> Vec<Vec<usize>> {
    rendered.lines().map(cell_widths).collect()
}

fn divider_places(line: &str) -> Vec<usize> {
    let mut places = Vec::new();
    let mut column = 0;
    for letter in line.chars() {
        if letter == '|' || letter == '+' {
            places.push(column);
        }
        column += UnicodeWidthChar::width(letter).unwrap_or(0);
    }
    places
}

const AWKWARD_NAMES: [&str; 5] = [
    "plain ascii name",
    "Björk - Jóga",
    "東京の夜",
    "日本語のタイトル",
    "a",
];

fn a_row(name: &str, share: u64, idle_for: Option<Duration>) -> Row {
    Row {
        name: String::from(name),
        preference: jive::rating::Fixed::from_billionths(1_000_000_000),
        staleness: jive::rating::Fixed::from_billionths(3_000_000_000),
        reliability: jive::rating::Fixed::from_billionths(500_000_000),
        priority: jive::rating::Fixed::from_billionths(1_500_000_000),
        exclusion: None,
        share: jive::rating::Fixed::from_billionths(share),
        idle_for,
        events: 1,
    }
}

#[test]
fn every_track_gets_a_row_and_an_empty_library_gets_none() {
    assert_eq!(rows_of(&library_of(&["one", "two", "three"])).len(), 3);
    assert!(rows_of(&library_of(&[])).is_empty());
    assert_eq!(table(&[]), "no tracks");
}

#[test]
fn a_row_reports_what_is_recorded_against_its_track() {
    assert_eq!(only_row(&library_of(&["fresh"])).idle_for, None);

    let played = library_where_every_track(&["one"], &repeated(&finished(), 3));
    assert_eq!(only_row(&played).events, 3);
}

#[test]
fn the_heaviest_track_comes_first() {
    let library = library_with_history(&[
        ("disliked", repeated(&quick_skip(), 4)),
        ("liked", repeated(&finished(), 4)),
    ]);
    assert_eq!(named(&rows_of(&library)), ["liked", "disliked"]);
}

#[test]
fn the_shares_add_up_to_everything() {
    let library = library_of(&["one", "two", "three", "four"]);
    let total: u64 = rows_of(&library).iter().map(|row| row.share.billionths).sum();
    assert!(total <= ONE && total + 4 >= ONE, "{total}");
}

#[test]
fn a_row_reports_the_two_inputs_and_what_they_multiply_to() {
    let liked_but_unreliable = [repeated(&finished(), 5), repeated(&failed(), 3)].concat();
    let row = only_row(&library_where_every_track(&["one"], &liked_but_unreliable));

    for factor in [row.preference, row.staleness, row.reliability] {
        assert_ne!(factor.billionths, ONE, "a factor of one is invisible");
    }
    let factors = Factors {
        preference: row.preference,
        staleness: row.staleness,
        reliability: row.reliability,
    };
    assert_eq!(factors.priority(), row.priority);
}

#[test]
fn every_column_is_the_same_width_on_every_line() {
    let rendered = table(&rows_of(&library_of(&AWKWARD_NAMES)));
    let widths = widths_of(&rendered);
    let heading = widths.first().expect("a heading").clone();

    for (line, width) in rendered.lines().zip(&widths) {
        assert_eq!(
            width.len(),
            heading.len(),
            "`{line}` has a different number of cells:\n{rendered}"
        );
        assert_eq!(
            width[..width.len() - 1],
            heading[..heading.len() - 1],
            "`{line}` does not line up:\n{rendered}"
        );
    }
}

#[test]
fn every_divider_stands_in_the_same_place() {
    let rendered = table(&rows_of(&library_of(&AWKWARD_NAMES)));
    let places = divider_places(rendered.lines().next().expect("a heading"));
    assert_eq!(places.len(), 7, "eight columns need seven dividers");
    for line in rendered.lines() {
        assert_eq!(
            divider_places(line),
            places,
            "the dividers moved:\n{rendered}"
        );
    }
}

#[test]
fn a_name_of_wide_characters_does_not_push_the_columns_out() {
    let wide = table(&rows_of(&library_of(&["東京の夜の長い名前"])));
    let plain = table(&rows_of(&library_of(&["a name of that same width"])));
    assert_eq!(
        widths_of(&wide)[0][1..],
        widths_of(&plain)[0][1..],
        "a wide name moved the other columns:\n{wide}\n{plain}"
    );
}

#[test]
fn a_column_is_as_wide_as_the_widest_thing_in_it() {
    let widest = "the widest name here";
    let rendered = table(&rows_of(&library_of(&["a", widest])));
    assert_eq!(
        widths_of(&rendered)[0][0],
        UnicodeWidthStr::width(widest) + 1,
        "the name column should fit the widest name:\n{rendered}"
    );
}

#[test]
fn a_name_of_wide_characters_is_shortened_by_the_room_it_takes() {
    let rendered = table(&rows_of(&library_of(&["東".repeat(40).as_str()])));
    assert!(
        rendered.contains('…'),
        "the name should be shortened:\n{rendered}"
    );
    assert!(
        widths_of(&rendered)[0][0] <= usize::from(NAME_LIMIT) + 1,
        "the name column ran past its limit:\n{rendered}"
    );
}

#[test]
fn a_name_that_fits_is_shown_whole() {
    let name = "a much longer track name";
    let rendered = table(&rows_of(&library_of(&["a", name])));
    assert!(rendered.contains(name), "the name should be shown whole");
}

#[test]
fn the_table_names_every_column() {
    let rendered = table(&rows_of(&library_of(&["one"])));
    for heading in [
        "track", "taste", "stale", "reliable", "weight", "eligible", "last on", "share",
    ] {
        assert!(rendered.contains(heading), "{heading} should be a column");
    }
}

#[test]
fn a_name_too_long_for_its_column_is_shortened() {
    let long = "a track with a preposterously long name that would push the columns across";
    let rendered = table(&rows_of(&library_of(&[long])));
    assert!(
        rendered.contains('…'),
        "the name should be shortened:\n{rendered}"
    );
    assert!(
        !rendered.contains(long),
        "the whole name should not be shown"
    );
    let widest = rendered
        .lines()
        .map(|line| line.chars().count())
        .max()
        .expect("a table");
    assert!(
        widest < 110,
        "the table ran to {widest} columns:\n{rendered}"
    );
}

#[test]
fn a_track_never_on_says_so() {
    let rendered = table(&[a_row("x", 0, None)]);
    assert!(rendered.contains("never"), "{rendered}");
}

#[test]
fn a_row_is_laid_out_cell_by_cell() {
    let rendered = table(&[a_row("song", 500_000_000, Some(Duration::from_seconds(3_600)))]);
    assert_eq!(
        rendered,
        "track | taste | stale | reliable | weight | eligible | last on | share\n\
         ------+-------+-------+----------+--------+----------+---------+-------------\n\
         song  |  1.00 |  3.00 |     0.50 |   1.50 | yes      |   1h 0m |  50.0%  ████"
    );
}

#[test]
fn a_share_of_nothing_draws_no_bar() {
    let rendered = table(&[a_row("song", 0, Some(Duration::from_seconds(59)))]);
    let last = rendered.lines().last().expect("a row");
    assert!(last.ends_with("0.0%"), "{last:?}");
    assert!(last.contains("59s"), "{last:?}");
}

#[test]
fn the_legend_explains_every_column() {
    let shown = legend();
    for column in ["taste", "stale", "reliable", "eligible", "weight", "share"] {
        assert!(shown.contains(column), "{column} should be explained");
    }
    assert!(
        shown.contains("2h 0m"),
        "the legend should say when a track is fully stale"
    );
    assert!(
        shown.contains("the bar draws it to scale"),
        "the bar should be explained"
    );
}

#[test]
fn the_legend_gives_the_range_of_taste_and_staleness() {
    let shown = legend();
    assert!(shown.contains("0.33 to 3.00"), "{shown}");
    assert!(shown.contains("1.00 just after a track is played, rising to 3.00"), "{shown}");
}

#[test]
fn a_factor_is_shown_to_two_places() {
    assert_eq!(two_places(1_000_000_000), "1.00");
    assert_eq!(two_places(333_333_333), "0.33");
    assert_eq!(two_places(1_239_999_999), "1.24");
    assert_eq!(two_places(1_234_999_999), "1.23");
    assert_eq!(two_places(0), "0.00");
}

#[test]
fn a_span_is_shown_in_the_largest_unit_that_means_something() {
    assert_eq!(span(Duration::from_seconds(59)), "59s");
    assert_eq!(span(Duration::from_seconds(61)), "1m");
    assert_eq!(span(Duration::from_seconds(7_200)), "2h 0m");
    assert_eq!(span(Duration::from_seconds(90_000)), "1d");
}

#[test]
fn a_factor_halfway_between_two_hundredths_goes_to_the_even_one() {
    assert_eq!(two_places(125_000_000), "0.12");
    assert_eq!(two_places(135_000_000), "0.14");
    assert_eq!(two_places(125_000_001), "0.13");
}
