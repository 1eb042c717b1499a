//! The command line: `--root`, the usual `--help` and `--version`, and one
//! optional directory to play.
//!
//! Everything after a bare `--` is taken as the directory, however it is
//! spelled.

use crate::error::Error;
use crate::path::FsPath;
use crate::path::parsed;
use crate::path::same_text;
use crate::text;
use vstd::prelude::*;

verus! {

/// What `--version` prints.
pub const VERSION: &'static str = "0.1.0";

/// What `--help` prints.
pub const HELP: &'static str = "\
jive — a music player with one button, and a shuffle that learns from it

Usage:
    jive [DIRECTORY]
    jive --root DIRECTORY

Arguments:
    DIRECTORY              A directory below the root to play instead of all of
                           it. Searched recursively.

Options:
    --root DIRECTORY       Where your music lives. Remembered between runs, and
                           required once before anything can play. Ratings are
                           kept against paths relative to this directory, so
                           moving your music and pointing --root at its new
                           location preserves them.
    -h, --help             Print this help
    -V, --version          Print the version

Keys:
    n                      Play another track
    q                      Leave, as does ctrl-c
";

/// What the command line asked for.
#[derive(Debug, Clone, PartialEq, Eq)]
pub enum Request {
    /// Play, with these arguments.
    Play(Arguments),
    /// Print this text and exit.
    Print(&'static str),
}

/// The arguments the player was given.
#[derive(Debug, Clone, PartialEq, Eq)]
pub struct Arguments {
    /// A directory below the root to play instead of all of it.
    pub directory: Option<FsPath>,
    /// Where the music lives, to remember and play from here on.
    pub root: Option<FsPath>,
}

/// The flag an argument stands for, as opposed to a directory.
pub enum Flag {
    /// `-h` or `--help`.
    Help,
    /// `-V` or `--version`.
    Version,
    /// `--root`, taking a directory after it.
    Root,
    /// `--`: everything after this is a directory, however it is spelled.
    EndOfFlags,
    /// Anything else that starts with a dash.
    Unknown,
}

/// The flag an argument stands for, or `None` for a directory: anything not
/// starting with a dash, and a lone dash.
pub open spec fn flag_of(argument: Seq<char>) -> Option<Flag> {
    if argument.len() == 0 || argument[0] != '-' || argument == "-"@ {
        None
    } else if argument == "-h"@ || argument == "--help"@ {
        Some(Flag::Help)
    } else if argument == "-V"@ || argument == "--version"@ {
        Some(Flag::Version)
    } else if argument == "--root"@ {
        Some(Flag::Root)
    } else if argument == "--"@ {
        Some(Flag::EndOfFlags)
    } else {
        Some(Flag::Unknown)
    }
}

/// What reading a command line comes to.
pub enum Reading {
    /// Play this directory, with this root, each if given.
    Play(Option<(bool, Seq<Seq<char>>)>, Option<(bool, Seq<Seq<char>>)>),
    /// Print this text.
    Print(Seq<char>),
    /// This argument is not understood.
    Unknown(Seq<char>),
    /// This flag needs a value after it.
    Missing(Seq<char>),
}

/// What the arguments from position `i` on come to, with the directory and
/// root read so far, and whether flags are over.
pub open spec fn reading_from(
    arguments: Seq<Seq<char>>,
    i: int,
    directory: Option<Seq<char>>,
    root: Option<Seq<char>>,
    flags_over: bool,
) -> Reading
    decreases arguments.len() - i,
{
    if i < 0 || i >= arguments.len() {
        Reading::Play(
            match directory {
                Some(d) => Some(parsed(d)),
                None => None,
            },
            match root {
                Some(r) => Some(parsed(r)),
                None => None,
            },
        )
    } else {
        let argument = arguments[i];
        match (if flags_over { None } else { flag_of(argument) }) {
            Some(Flag::Help) => Reading::Print(HELP@),
            Some(Flag::Version) => Reading::Print(VERSION@),
            Some(Flag::EndOfFlags) => reading_from(arguments, i + 1, directory, root, true),
            Some(Flag::Root) => if i + 1 < arguments.len() {
                reading_from(arguments, i + 2, directory, Some(arguments[i + 1]), flags_over)
            } else {
                Reading::Missing("--root"@)
            },
            Some(Flag::Unknown) => Reading::Unknown(argument),
            None => if directory is Some {
                Reading::Unknown(argument)
            } else {
                reading_from(arguments, i + 1, Some(argument), root, flags_over)
            },
        }
    }
}

/// What a command line comes to.
pub open spec fn reading(arguments: Seq<Seq<char>>) -> Reading {
    reading_from(arguments, 0, None, None, false)
}

/// The texts of a list of strings.
pub open spec fn texts(arguments: Seq<String>) -> Seq<Seq<char>> {
    arguments.map_values(|a: String| a@)
}

/// Whether a parse result is what a command line comes to.
pub open spec fn parsed_as(result: Result<Request, Error>, expected: Reading) -> bool {
    match (result, expected) {
        (Ok(Request::Play(a)), Reading::Play(directory, root)) => {
            &&& match a.directory {
                Some(d) => directory == Some(d@),
                None => directory is None,
            }
            &&& match a.root {
                Some(r) => root == Some(r@),
                None => root is None,
            }
        },
        (Ok(Request::Print(t)), Reading::Print(expected)) => t@ == expected,
        (Err(Error::UnknownArgument { argument }), Reading::Unknown(expected)) => argument@ == expected,
        (Err(Error::MissingValue { flag }), Reading::Missing(expected)) => flag@ == expected,
        _ => false,
    }
}

/// Whether `a` is the text `b`.
fn is(a: &String, b: &str) -> (same: bool)
    ensures
        same == (a@ == b@),
{
    same_text(a, &text::owned(b))
}

/// The flag an argument stands for, as `flag_of`.
fn flag(argument: &String) -> (f: Option<Flag>)
    ensures
        f == flag_of(argument@),
{
    let chars = text::chars_of(argument.as_str());
    if chars.len() == 0 || chars[0] != '-' || is(argument, "-") {
        return None;
    }
    if is(argument, "-h") || is(argument, "--help") {
        Some(Flag::Help)
    } else if is(argument, "-V") || is(argument, "--version") {
        Some(Flag::Version)
    } else if is(argument, "--root") {
        Some(Flag::Root)
    } else if is(argument, "--") {
        Some(Flag::EndOfFlags)
    } else {
        Some(Flag::Unknown)
    }
}

impl Arguments {
    /// Reads arguments, excluding the program name: `--help` or `--version`
    /// print their text, `--root` takes the directory after it, `--` ends
    /// the flags, and one other argument is the directory to play. Refused
    /// for anything unrecognized, a second directory, or `--root` without a
    /// value.
    pub fn parse_from(arguments: Vec<String>) -> (request: Result<Request, Error>)
        ensures
            parsed_as(request, reading(texts(arguments@))),
    {
        let ghost all = texts(arguments@);
        let mut directory: Option<String> = None;
        let mut root: Option<String> = None;
        let mut flags_over = false;
        let mut i: usize = 0;
        while i < arguments.len()
            invariant
                all == texts(arguments@),
                i <= arguments@.len(),
                reading(all) == reading_from(
                    all,
                    i as int,
                    match directory {
                        Some(d) => Some(d@),
                        None => None,
                    },
                    match root {
                        Some(r) => Some(r@),
                        None => None,
                    },
                    flags_over,
                ),
            decreases arguments.len() - i,
        {
            let argument = &arguments[i];
            let f = if flags_over { None } else { flag(argument) };
            match f {
                Some(Flag::Help) => return Ok(Request::Print(HELP)),
                Some(Flag::Version) => return Ok(Request::Print(VERSION)),
                Some(Flag::EndOfFlags) => {
                    flags_over = true;
                    i = i + 1;
                },
                Some(Flag::Root) => {
                    if i + 1 < arguments.len() {
                        root = Some(text::owned(arguments[i + 1].as_str()));
                        i = i + 2;
                    } else {
                        return Err(Error::MissingValue { flag: text::owned("--root") });
                    }
                },
                Some(Flag::Unknown) => {
                    return Err(Error::UnknownArgument { argument: text::owned(argument.as_str()) });
                },
                None => {
                    if directory.is_some() {
                        return Err(Error::UnknownArgument { argument: text::owned(argument.as_str()) });
                    }
                    directory = Some(text::owned(argument.as_str()));
                    i = i + 1;
                },
            }
        }
        let directory = match directory {
            Some(d) => Some(FsPath::new(d.as_str())),
            None => None,
        };
        let root = match root {
            Some(r) => Some(FsPath::new(r.as_str())),
            None => None,
        };
        Ok(Request::Play(Arguments { directory, root }))
    }

    /// Where the music lives: the root given on the command line, else the
    /// one remembered from an earlier run, else the directory to play, which
    /// is how a first run settles it. Refused when nothing says where the
    /// music is.
    pub fn root_of(&self, remembered: Option<&FsPath>) -> (root: Result<FsPath, Error>)
        ensures
            match (&self.root, remembered, &self.directory) {
                (Some(r), _, _) => root matches Ok(p) && p@ == r@,
                (None, Some(m), _) => root matches Ok(p) && p@ == m@,
                (None, None, Some(d)) => root matches Ok(p) && p@ == d@,
                (None, None, None) => root matches Err(Error::NoDirectory),
            },
    {
        match (&self.root, remembered, &self.directory) {
            (Some(r), _, _) => Ok(r.duplicate()),
            (None, Some(m), _) => Ok(m.duplicate()),
            (None, None, Some(d)) => Ok(d.duplicate()),
            (None, None, None) => Err(Error::NoDirectory),
        }
    }

    /// Which directory to play, or `None` for everything below the root.
    pub fn directory_to_play(&self) -> (directory: Option<&FsPath>)
        ensures
            match (directory, &self.directory) {
                (Some(d), Some(own)) => d@ == own@,
                (None, None) => true,
                _ => false,
            },
    {
        match &self.directory {
            Some(d) => Some(d),
            None => None,
        }
    }
}

} // verus!
