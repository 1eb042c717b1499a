//! The decisions the terminal loop makes: what a key asks for, when the next
//! draw is due, what a command does to the player, and when to save.

use crate::backend::AudioBackend;
use crate::error::Error;
use crate::history::History;
use crate::library::DiscoveredTrack;
use crate::library::Library;
use crate::library::built_from;
use crate::path::FsPath;
use crate::player::Player;
use crate::time::Time;
use vstd::prelude::*;

verus! {

broadcast use crate::time::group_time;

/// What a key press asks the player to do.
#[derive(Debug, Clone, Copy, PartialEq, Eq, Structural)]
pub enum Command {
    /// Skip to another track. Asked for by `n`, the one key the panel shows.
    Next,
    /// Leave. Asked for by `q` or the terminal's interrupt, neither of which
    /// the panel shows.
    Quit,
}

/// Whether the loop continues after a turn.
#[derive(Debug, Clone, Copy, PartialEq, Eq, Structural)]
pub enum Turn {
    /// Take another turn.
    Continue,
    /// Leave.
    Leave,
}

/// The command a pressed key asks for: `n` to skip, `q` to leave, and the
/// interrupts, control with `c` or `d`, to leave too; either case.
pub fn command_for_key(key: char, control: bool) -> (command: Option<Command>)
    ensures
        command == if control && (key == 'c' || key == 'C' || key == 'd' || key == 'D') {
            Some(Command::Quit)
        } else if key == 'n' || key == 'N' {
            Some(Command::Next)
        } else if key == 'q' || key == 'Q' {
            Some(Command::Quit)
        } else {
            None
        },
{
    if control && (key == 'c' || key == 'C' || key == 'd' || key == 'D') {
        Some(Command::Quit)
    } else if key == 'n' || key == 'N' {
        Some(Command::Next)
    } else if key == 'q' || key == 'Q' {
        Some(Command::Quit)
    } else {
        None
    }
}

/// When the next draw is due, keeping to the fixed schedule `due` sits on,
/// with draws `interval` apart. A turn that ended early keeps the deadline
/// it was given; one that overran is advanced whole intervals at a time
/// until it is in the future, so a slow turn costs one draw rather than
/// leaving the loop to spin through every deadline it missed.
pub fn next_draw_due(due: Time, now: Time, interval: u64) -> (next: Time)
    requires
        interval > 0,
        now.millis() + interval <= u64::MAX,
    ensures
        now.millis() < due.millis() ==> next == due,
        next.millis() > now.millis(),
        next.millis() >= due.millis(),
        (next.millis() - due.millis()) % (interval as int) == 0,
        next.millis() - (interval as int) <= now.millis() || next == due,
{
    let d = due.as_unix_milliseconds();
    let n = now.as_unix_milliseconds();
    if n < d {
        return due;
    }
    let missed = (n - d) / interval + 1;
    proof {
        assert(missed * interval <= n - d + interval) by (nonlinear_arith)
            requires
                missed == (n - d) as int / (interval as int) + 1,
                interval > 0,
                n >= d,
        ;
        assert(missed * interval > n - d) by (nonlinear_arith)
            requires
                missed == (n - d) as int / (interval as int) + 1,
                interval > 0,
                n >= d,
        ;
        assert((missed * interval) % (interval as int) == 0) by (nonlinear_arith)
            requires
                interval > 0,
        ;
    }
    let next = d + missed * interval;
    Time::from_unix_milliseconds(next)
}

/// Acts on a command: skipping to another track, or leaving.
pub fn obey<Backend: AudioBackend>(command: Command, player: &mut Player<Backend>, now: Time) -> (turn: Result<Turn, Error>)
    requires
        old(player).well_formed(),
    ensures
        final(player).well_formed(),
        command is Quit ==> turn == Ok::<Turn, Error>(Turn::Leave) && *final(player) == *old(player),
        command is Next ==> match turn {
            Ok(t) => t == Turn::Continue && Player::skip_outcome(*old(player), *final(player), now, Ok(())),
            Err(e) => Player::skip_outcome(*old(player), *final(player), now, Err(e)),
        },
{
    match command {
        Command::Next => match player.skip(now) {
            Ok(()) => Ok(Turn::Continue),
            Err(e) => Err(e),
        },
        Command::Quit => Ok(Turn::Leave),
    }
}

/// The library to play: the tracks a scan of `directory` found, with the
/// events `history` holds for them. Refused when the scan found none.
pub fn library_to_play(
    tracks: Vec<DiscoveredTrack>,
    history: &History,
    now: Time,
    directory: FsPath,
) -> (library: Result<Library, Error>)
    requires
        history.well_formed(),
    ensures
        tracks@.len() == 0 ==> (library matches Err(Error::NoTracks { path }) && path@ == directory@),
        tracks@.len() > 0 ==> (library matches Ok(l) && l.well_formed() && built_from(
            l,
            tracks@,
            *history,
            now,
        )),
{
    if tracks.len() == 0 {
        Err(Error::NoTracks { path: directory })
    } else {
        Ok(Library::build(tracks, history, now))
    }
}

/// Whether to save after a turn: when something recorded has yet to reach
/// the store, unless a save has already failed, after which none is
/// attempted until the last one.
pub fn should_save(unsaved: bool, save_failed: bool) -> (save: bool)
    ensures
        save == (unsaved && !save_failed),
{
    unsaved && !save_failed
}

} // verus!
