use jive::Duration;
use jive::History;
use jive::Library;
use jive::Time;
use jive::TrackId;
use jive::TrackName;
use jive::backend::AudioBackend;
use jive::backend::BackendError;
use jive::library::DiscoveredTrack;
use jive::path::FsPath;
use jive::player::Player;
use jive::player::ViewModel;
use jive::selection::Shuffle;
use jive::track_events::AnyTrackEvent;
use jive::track_events::PlaybackOutcome;
use jive::track_events::TimeTaggedTrackEvent;
use jive::track_events::TimeTaggedTrackEvents;
use jive::track_events::TrackFailure;
use std::collections::HashSet;
use std::collections::VecDeque;

fn path_of(name: &str) -> FsPath {
    FsPath::new(&format!("/music/{name}.mp3"))
}

fn discovered(names: &[&str]) -> Vec<DiscoveredTrack> {
    names
        .iter()
        .enumerate()
        .map(|(index, name)| DiscoveredTrack {
            identifier: TrackId::new(u32::try_from(index).expect("a small library")),
            name: TrackName::new(name),
            path: path_of(name),
        })
        .collect()
}

fn library_of(names: &[&str]) -> Library {
    Library::build(discovered(names), &History::new(), Time::epoch())
}

fn library_where_every_track(names: &[&str], events: &[AnyTrackEvent]) -> Library {
    let discovered = discovered(names);
    let mut history = History::new();
    for track in &discovered {
        let tagged = events
            .iter()
            .map(|event| TimeTaggedTrackEvent::new(Time::epoch(), *event))
            .collect();
        history.store(track.identifier, TimeTaggedTrackEvents::from_vec(tagged));
    }
    Library::build(discovered, &history, Time::epoch())
}

fn finished() -> AnyTrackEvent {
    AnyTrackEvent::from(PlaybackOutcome::Finished)
}

#[derive(Debug, Clone, Copy, PartialEq, Eq)]
enum Failing {
    Play,
    Stop,
    Poll,
}

#[derive(Debug, Default)]
struct FakeBackend {
    played: Vec<FsPath>,
    stops: usize,
    outcomes: VecDeque<PlaybackOutcome>,
    failing: Option<Failing>,
}

impl FakeBackend {
    fn failing(when: Failing) -> Self {
        Self {
            failing: Some(when),
            ..Self::default()
        }
    }

    fn refuse(&self, when: Failing) -> Result<(), BackendError> {
        if self.failing == Some(when) {
            return Err(BackendError::unavailable(String::from(
                "the fake backend was asked to fail",
            )));
        }
        Ok(())
    }
}

impl AudioBackend for FakeBackend {
    fn play(&mut self, path: &FsPath) -> Result<(), BackendError> {
        self.refuse(Failing::Play)?;
        self.played.push(path.clone());
        Ok(())
    }

    fn stop(&mut self) -> Result<(), BackendError> {
        self.refuse(Failing::Stop)?;
        self.stops += 1;
        Ok(())
    }

    fn poll_event(&mut self) -> Result<Option<PlaybackOutcome>, BackendError> {
        self.refuse(Failing::Poll)?;
        Ok(self.outcomes.pop_front())
    }
}

struct PlayerFixture {
    player: Player<FakeBackend>,
    now: Time,
}

impl PlayerFixture {
    fn idle(names: &[&str]) -> Self {
        Self::over(library_of(names), FakeBackend::default())
    }

    fn playing(names: &[&str]) -> Self {
        let mut fixture = Self::idle(names);
        fixture.start();
        fixture
    }

    fn driving(backend: FakeBackend) -> Self {
        let mut fixture = Self::over(library_of(&["one", "two"]), backend);
        fixture.start();
        fixture
    }

    fn idle_driving(backend: FakeBackend) -> Self {
        Self::over(library_of(&["one", "two"]), backend)
    }

    fn over(library: Library, backend: FakeBackend) -> Self {
        Self {
            player: Player::new(backend, library, Shuffle::seeded(1)),
            now: Time::epoch() + Duration::from_seconds(1_000),
        }
    }

    fn start(&mut self) -> &mut Self {
        self.player.start(self.now).expect("playback starts");
        self
    }

    fn wait(&mut self, seconds: u64) -> &mut Self {
        self.now += Duration::from_seconds(seconds);
        self
    }

    fn rewind(&mut self, seconds: u64) -> &mut Self {
        self.now -= Duration::from_seconds(seconds);
        self
    }

    fn press_next(&mut self) -> &mut Self {
        self.player.skip(self.now).expect("skipping works");
        self
    }

    fn backend_reports(&mut self, outcome: PlaybackOutcome) -> &mut Self {
        self.player.backend_mut().outcomes.push_back(outcome);
        self.player.poll(self.now).expect("polling works");
        self
    }

    fn backend_reports_nothing(&mut self) -> &mut Self {
        self.player.poll(self.now).expect("polling works");
        self
    }

    fn quit(&mut self) -> &mut Self {
        self.player.stop(self.now).expect("stopping works");
        self
    }

    fn view(&self) -> ViewModel {
        self.player.view(self.now)
    }

    fn tracks_played(&self) -> usize {
        self.player.backend().played.len()
    }

    fn play_order(&self) -> Vec<FsPath> {
        self.player.backend().played.clone()
    }

    fn backend_stops(&self) -> usize {
        self.player.backend().stops
    }

    fn playing_name(&self) -> Option<String> {
        match self.view() {
            ViewModel::Playing { name, .. } => Some(name),
            _ => None,
        }
    }

    fn elapsed(&self) -> Option<Duration> {
        match self.view() {
            ViewModel::Playing { elapsed, .. } => Some(elapsed),
            _ => None,
        }
    }

    fn recorded(&self) -> Vec<TimeTaggedTrackEvent> {
        self.player
            .library()
            .tracks()
            .iter()
            .flat_map(|track| track.events.to_vec())
            .collect()
    }

    fn skips_recorded_for(&self, name: &str) -> usize {
        let library = self.player.library();
        let identifier = library
            .tracks()
            .iter()
            .find(|track| track.name.as_str() == name)
            .map(|track| track.identifier)
            .expect("a track of that name");
        library
            .events(identifier)
            .map(|events| {
                events
                    .to_vec()
                    .iter()
                    .filter(|event| event.event.as_skipped().is_some())
                    .count()
            })
            .unwrap_or(0)
    }

    fn stops(&self) -> Vec<Duration> {
        self.recorded()
            .iter()
            .filter_map(|event| event.event.as_stopped())
            .map(|stopped| stopped.listened_for)
            .collect()
    }

    fn recorded_at(&self) -> Vec<Time> {
        let mut moments: Vec<Time> = self
            .recorded()
            .iter()
            .filter(|event| event.event.as_added().is_none())
            .map(|event| event.at)
            .collect();
        moments.sort_unstable();
        moments
    }

    fn skips(&self) -> Vec<Duration> {
        self.recorded()
            .iter()
            .filter_map(|event| event.event.as_skipped())
            .map(|skipped| skipped.listened_for)
            .collect()
    }

    fn outcomes(&self) -> Vec<PlaybackOutcome> {
        self.recorded()
            .iter()
            .filter_map(|event| event.event.as_playback_outcome())
            .copied()
            .collect()
    }
}

fn failing(reason: TrackFailure) -> PlaybackOutcome {
    PlaybackOutcome::from(reason)
}

fn after_playing(names: &[&str], seconds: u64) -> PlayerFixture {
    let mut fixture = PlayerFixture::playing(names);
    fixture.wait(seconds);
    fixture
}

fn repeats_in(fixture: &PlayerFixture) -> usize {
    fixture
        .play_order()
        .windows(2)
        .filter(|pair| pair[0] == pair[1])
        .count()
}

#[test]
fn starting_plays_one_track_and_records_nothing_about_it_yet() {
    let fixture = PlayerFixture::playing(&["one", "two"]);
    assert_eq!(fixture.tracks_played(), 1);
    assert_eq!(
        fixture.recorded().len(),
        2,
        "both tracks should only have been noted as seen"
    );
}

#[test]
fn the_track_that_started_is_the_one_shown() {
    let fixture = PlayerFixture::playing(&["only"]);
    assert_eq!(fixture.playing_name(), Some(String::from("only")));
    assert_eq!(fixture.elapsed(), Some(Duration::zero()));
    assert!(matches!(fixture.view(), ViewModel::Playing { .. }));
}

#[test]
fn an_idle_player_has_not_started_yet() {
    let mut fixture = PlayerFixture::idle(&["one"]);
    assert_eq!(fixture.tracks_played(), 0);
    assert_eq!(fixture.view(), ViewModel::Stalled);
    assert!(matches!(fixture.start().view(), ViewModel::Playing { .. }));
}

#[test]
fn an_empty_library_has_nothing_to_play() {
    let mut fixture = PlayerFixture::playing(&[]);
    assert_eq!(fixture.tracks_played(), 0);
    assert_eq!(fixture.view(), ViewModel::Empty);
    assert_eq!(fixture.quit().stops().len(), 0);
}

#[test]
fn the_elapsed_time_follows_the_clock() {
    let fixture = after_playing(&["one"], 90);
    assert_eq!(fixture.elapsed(), Some(Duration::from_seconds(90)));
}

#[test]
fn skipping_records_what_was_heard_and_moves_on() {
    let mut fixture = after_playing(&["one", "two"], 3);
    fixture.press_next();
    assert_eq!(fixture.skips(), [Duration::from_seconds(3)]);
    assert_eq!(fixture.backend_stops(), 1);
    assert_eq!(fixture.tracks_played(), 2);
}

#[test]
fn skipping_at_once_records_no_listening() {
    let mut fixture = PlayerFixture::playing(&["one", "two"]);
    assert_eq!(fixture.press_next().skips(), [Duration::zero()]);
}

#[test]
fn finishing_records_an_outcome_and_moves_on() {
    let mut fixture = PlayerFixture::playing(&["one", "two"]);
    fixture.backend_reports(PlaybackOutcome::Finished);
    assert_eq!(fixture.outcomes(), [PlaybackOutcome::Finished]);
    assert_eq!(fixture.skips().len(), 0);
    assert_eq!(fixture.tracks_played(), 2);
    assert_eq!(fixture.backend_stops(), 0);
}

#[test]
fn a_lone_track_keeps_playing_after_it_finishes() {
    let mut fixture = PlayerFixture::playing(&["alone"]);
    let view = fixture.backend_reports(PlaybackOutcome::Finished).view();
    assert!(matches!(view, ViewModel::Playing { .. }));
}

#[test]
fn a_backend_with_nothing_to_say_changes_nothing() {
    let mut fixture = PlayerFixture::playing(&["one", "two"]);
    assert_eq!(fixture.backend_reports_nothing().tracks_played(), 1);
}

#[test]
fn quitting_stops_the_backend_and_records_that_the_listener_left() {
    let mut fixture = after_playing(&["one"], 5);
    fixture.quit();
    assert_eq!(fixture.backend_stops(), 1);
    assert_eq!(fixture.stops(), [Duration::from_seconds(5)]);
    assert_eq!(fixture.skips().len(), 0, "leaving is not a rejection");
    assert_eq!(fixture.playing_name(), None);
}

#[test]
fn quitting_before_anything_plays_records_nothing() {
    let mut fixture = PlayerFixture::idle(&["one"]);
    assert_eq!(fixture.quit().stops().len(), 0);
}

#[test]
fn a_backend_that_fails_is_reported_rather_than_ignored() {
    let mut idle = PlayerFixture::idle_driving(FakeBackend::failing(Failing::Play));
    let now = idle.now;
    assert!(idle.player.start(now).is_err(), "a backend that will not play");
    let mut stopping = PlayerFixture::driving(FakeBackend::failing(Failing::Stop));
    let now = stopping.now;
    assert!(stopping.player.skip(now).is_err(), "a backend that will not stop");
    let mut polling = PlayerFixture::driving(FakeBackend::failing(Failing::Poll));
    let now = polling.now;
    assert!(polling.player.poll(now).is_err(), "a backend that cannot be polled");
}

#[test]
fn an_event_is_recorded_at_the_moment_it_happens() {
    let mut fixture = PlayerFixture::playing(&["one", "two"]);
    let started = fixture.now;
    fixture.wait(30).backend_reports(PlaybackOutcome::Finished);
    let after_finishing = fixture.now;
    fixture.wait(30).press_next();
    let after_skipping = fixture.now;
    fixture.wait(30).quit();

    assert!(after_finishing > started);
    assert_eq!(
        fixture.recorded_at(),
        [after_finishing, after_skipping, fixture.now],
        "each event should carry its own moment"
    );
}

#[test]
fn a_track_never_follows_itself_however_the_one_before_ended() {
    let mut fixture = PlayerFixture::playing(&["one", "two", "three"]);
    for _ in 0..40 {
        fixture.backend_reports(PlaybackOutcome::Finished);
        fixture.press_next();
        fixture.backend_reports(failing(TrackFailure::DecoderError));
    }
    assert_eq!(repeats_in(&fixture), 0, "played {:?}", fixture.play_order());
}

#[test]
fn a_lone_track_is_allowed_to_follow_itself() {
    let mut fixture = PlayerFixture::playing(&["alone"]);
    for _ in 0..5 {
        fixture.backend_reports(PlaybackOutcome::Finished);
    }
    assert_eq!(fixture.tracks_played(), 6);
    assert_eq!(repeats_in(&fixture), 5);
}

#[test]
fn every_way_a_track_can_fail_is_recorded_and_moved_past() {
    for reason in TrackFailure::ALL {
        let mut fixture = PlayerFixture::playing(&["one", "two"]);
        fixture.backend_reports(failing(reason));
        assert_eq!(fixture.outcomes(), [failing(reason)]);
        assert_eq!(
            fixture.tracks_played(),
            2,
            "{reason:?} should be moved past"
        );
    }
}

#[test]
fn a_library_where_nothing_plays_stalls_instead_of_spinning() {
    let mut fixture = PlayerFixture::playing(&["one", "two", "three"]);
    for _ in 0..3 {
        fixture.backend_reports(failing(TrackFailure::FileNotFound));
    }
    assert_eq!(fixture.view(), ViewModel::Stalled);
    assert_eq!(fixture.tracks_played(), 3);
}

#[test]
fn a_stalled_player_tries_again_when_the_listener_asks() {
    let mut fixture = PlayerFixture::playing(&["one", "two"]);
    for _ in 0..2 {
        fixture.backend_reports(failing(TrackFailure::FileNotFound));
    }
    assert_eq!(fixture.view(), ViewModel::Stalled);
    fixture.press_next();
    assert_eq!(fixture.tracks_played(), 3);
}

#[test]
fn a_run_of_failures_is_forgotten_once_something_plays() {
    let mut fixture = PlayerFixture::playing(&["one", "two", "three"]);
    fixture
        .backend_reports(failing(TrackFailure::FileNotFound))
        .backend_reports(PlaybackOutcome::Finished)
        .backend_reports(failing(TrackFailure::FileNotFound))
        .backend_reports(failing(TrackFailure::FileNotFound));
    assert!(matches!(fixture.view(), ViewModel::Playing { .. }));
}

#[test]
fn a_run_of_failures_is_forgotten_once_the_listener_skips() {
    let mut fixture = PlayerFixture::playing(&["one", "two"]);
    fixture
        .backend_reports(failing(TrackFailure::FileNotFound))
        .press_next()
        .backend_reports(failing(TrackFailure::FileNotFound));
    assert!(matches!(fixture.view(), ViewModel::Playing { .. }));
}

#[test]
fn a_clock_that_jumps_backwards_records_no_listening_rather_than_nonsense() {
    let mut fixture = PlayerFixture::playing(&["one", "two"]);
    fixture.rewind(60).press_next();
    assert_eq!(fixture.skips(), [Duration::zero()]);
}

#[test]
fn what_is_recorded_lands_on_the_track_it_happened_to() {
    let mut fixture = PlayerFixture::playing(&["one", "two"]);
    let played = fixture.playing_name().expect("a track is playing");
    fixture.wait(4).press_next();

    let untouched = if played == "one" { "two" } else { "one" };
    assert_eq!(fixture.skips_recorded_for(&played), 1);
    assert_eq!(fixture.skips_recorded_for(untouched), 0);
}

#[test]
fn a_played_track_is_one_the_library_knows_about() {
    let fixture = PlayerFixture::playing(&["one", "two"]);
    let expected = [path_of("one"), path_of("two")];
    let played = fixture.play_order();
    assert!(!played.is_empty(), "nothing played, so nothing was checked");
    assert!(played.iter().all(|played| expected.contains(played)));
}

#[test]
fn recording_an_event_marks_the_player_unsaved_until_it_is_stored() {
    let mut fixture = PlayerFixture::playing(&["one", "two"]);
    assert!(
        !fixture.player.has_unsaved_events(),
        "starting records nothing of its own"
    );
    fixture.press_next();
    assert!(fixture.player.has_unsaved_events());
    fixture.player.mark_saved();
    assert!(!fixture.player.has_unsaved_events());
}

#[test]
fn nothing_new_leaves_the_player_saved() {
    let mut fixture = PlayerFixture::playing(&["one", "two"]);
    fixture.player.mark_saved();
    fixture.wait(30).backend_reports_nothing();
    assert!(!fixture.player.has_unsaved_events());
}

#[test]
fn a_library_the_listener_has_opinions_about_still_plays_everything() {
    let events: Vec<AnyTrackEvent> = std::iter::repeat_n(finished(), 30).collect();
    let library = library_where_every_track(&["one", "two", "three"], &events);
    let mut fixture = PlayerFixture::over(library, FakeBackend::default());
    fixture.start();
    for _ in 0..60 {
        fixture.backend_reports(PlaybackOutcome::Finished);
    }
    let played: HashSet<FsPath> = fixture.play_order().into_iter().collect();
    assert_eq!(played.len(), 3);
}

#[test]
fn a_failure_never_counts_as_listening() {
    let mut fixture = PlayerFixture::playing(&["one", "two"]);
    fixture
        .wait(120)
        .backend_reports(failing(TrackFailure::DecoderError));
    assert!(fixture.skips().is_empty());
}

#[test]
fn a_failed_start_leaves_nothing_playing() {
    let mut fixture = PlayerFixture::idle_driving(FakeBackend::failing(Failing::Play));
    let now = fixture.now;
    assert!(fixture.player.start(now).is_err());
    assert_eq!(fixture.tracks_played(), 0);
    assert_eq!(fixture.view(), ViewModel::Stalled);
}

#[test]
fn the_next_key_plays_something_else_and_carries_on() {
    let mut fixture = PlayerFixture::playing(&["one", "two"]);
    let now = fixture.now;
    let turn = jive::app::obey(jive::app::Command::Next, &mut fixture.player, now)
        .expect("the next track can be played");
    assert_eq!(turn, jive::app::Turn::Continue);
    assert_eq!(fixture.tracks_played(), 2);
    assert_eq!(fixture.skips().len(), 1);
}

#[test]
fn leaving_does_not_touch_the_track() {
    let mut fixture = PlayerFixture::playing(&["one", "two"]);
    let now = fixture.now;
    let turn = jive::app::obey(jive::app::Command::Quit, &mut fixture.player, now)
        .expect("quitting always works");
    assert_eq!(turn, jive::app::Turn::Leave);
    assert_eq!(fixture.tracks_played(), 1);
    assert!(fixture.skips().is_empty());
}

#[test]
fn an_outcome_handed_over_is_recorded_and_another_track_started() {
    let mut fixture = PlayerFixture::playing(&["one", "two"]);
    let now = fixture.now;
    fixture
        .player
        .take_polled(now, Ok(Some(PlaybackOutcome::Finished)))
        .expect("another track starts");
    assert_eq!(fixture.recorded().iter().filter(|e| e.event == finished()).count(), 1);
    assert_eq!(fixture.tracks_played(), 2);
}

#[test]
fn no_outcome_handed_over_changes_nothing() {
    let mut fixture = PlayerFixture::playing(&["one", "two"]);
    let now = fixture.now;
    let before = fixture.playing_name();
    fixture.player.take_polled(now, Ok(None)).expect("nothing to do");
    assert_eq!(fixture.playing_name(), before);
    assert_eq!(fixture.tracks_played(), 1);
    assert!(fixture.recorded().iter().all(|e| e.event.as_added().is_some()));
}

#[test]
fn a_backend_error_handed_over_is_returned() {
    let mut fixture = PlayerFixture::playing(&["one", "two"]);
    let now = fixture.now;
    let before = fixture.playing_name();
    let result = fixture.player.take_polled(
        now,
        Err(BackendError::poll(String::from("gone"))),
    );
    assert!(matches!(result, Err(jive::error::Error::Backend { .. })));
    assert_eq!(fixture.playing_name(), before);
}
