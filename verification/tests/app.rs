use jive::Duration;
use jive::Time;
use jive::app::Command;
use jive::app::Turn;
use jive::app::command_for_key;
use jive::app::next_draw_due;
use jive::app::should_save;
use jive::ui::redraw_interval;

fn interval() -> u64 {
    redraw_interval().as_milliseconds()
}

fn typing(character: char) -> Option<Command> {
    command_for_key(character, false)
}

#[test]
fn a_draw_that_overran_stays_on_the_schedule() {
    let now = Time::now();
    let missed = now - Duration::from_milliseconds(interval() * 3 + 7);
    let next = next_draw_due(missed, now, interval());

    assert!(next > now, "the next draw should be ahead");
    assert_eq!(
        next.duration_since(missed).as_milliseconds() % interval(),
        0,
        "the schedule should keep to whole intervals"
    );
    assert_eq!(next, missed + Duration::from_milliseconds(interval() * 4));
}

#[test]
fn a_turn_that_ended_early_keeps_the_deadline_it_was_given() {
    let now = Time::now();
    let ahead = now + Duration::from_milliseconds(interval() * 5);
    assert_eq!(next_draw_due(ahead, now, interval()), ahead);
}

#[test]
fn a_draw_due_this_very_moment_moves_to_the_next_interval() {
    let now = Time::from_unix_milliseconds(10_000);
    assert_eq!(
        next_draw_due(now, now, 150),
        Time::from_unix_milliseconds(10_150)
    );
}

#[test]
fn the_only_letters_that_do_anything_are_next_and_quit() {
    let acting: Vec<char> = ('a'..='z')
        .filter(|character| typing(*character).is_some())
        .collect();
    assert_eq!(acting, ['n', 'q']);
}

#[test]
fn the_next_key_asks_for_the_next_track() {
    assert_eq!(typing('n'), Some(Command::Next));
}

#[test]
fn the_next_key_answers_in_upper_case_too() {
    assert_eq!(typing('N'), Some(Command::Next));
}

#[test]
fn the_quit_key_asks_to_leave() {
    assert_eq!(typing('q'), Some(Command::Quit));
}

#[test]
fn the_quit_key_answers_in_upper_case_too() {
    assert_eq!(typing('Q'), Some(Command::Quit));
}

#[test]
fn an_interrupt_asks_to_leave() {
    assert_eq!(command_for_key('c', true), Some(Command::Quit));
}

#[test]
fn an_upper_case_interrupt_asks_to_leave() {
    assert_eq!(command_for_key('C', true), Some(Command::Quit));
}

#[test]
fn an_end_of_input_asks_to_leave() {
    assert_eq!(command_for_key('d', true), Some(Command::Quit));
}

#[test]
fn a_plain_c_does_nothing() {
    assert_eq!(typing('c'), None);
}

#[test]
fn a_store_saves_only_what_is_new_and_only_while_saving_works() {
    assert!(should_save(true, false));
    assert!(!should_save(false, false));
    assert!(!should_save(true, true));
    assert!(!should_save(false, true));
}

#[test]
fn leaving_and_carrying_on_are_told_apart() {
    assert_ne!(Turn::Continue, Turn::Leave);
}
