//! What the `jive-debug` command reads from its command line: a directory
//! below the root to report on, a collection file to read instead of the
//! usual one, and how many minutes ahead to report as of.

use crate::path::parsed;
use crate::error::Error;
use crate::path::FsPath;
use crate::path::same_text;
use crate::text;
use crate::time::Duration;
use vstd::prelude::*;

verus! {

broadcast use crate::time::group_time;

/// The value of a digit.
pub open spec fn digit_value(c: char) -> int {
    (c as int) - ('0' as int)
}

/// Whether a character is a decimal digit.
pub open spec fn is_digit(c: char) -> bool {
    '0' <= c && c <= '9'
}

/// The number the first `n` digits of `digits` make.
pub open spec fn digits_value(digits: Seq<char>, n: int) -> int
    decreases n,
{
    if n <= 0 {
        0
    } else {
        digits_value(digits, n - 1) * 10 + digit_value(digits[n - 1])
    }
}

/// The digits of a number's text: all of it but a leading `+`.
pub open spec fn digits_of(text: Seq<char>) -> Seq<char> {
    if text.len() > 0 && text[0] == '+' {
        text.drop_first()
    } else {
        text
    }
}

/// The unsigned integer a text is written as: an optional `+`, then one or
/// more decimal digits, within `u64`, as std reads one.
pub open spec fn unsigned_text(text: Seq<char>) -> Option<u64> {
    let digits = digits_of(text);
    if digits.len() == 0 || exists|i: int| 0 <= i < digits.len() && !is_digit(#[trigger] digits[i]) {
        None
    } else if digits_value(digits, digits.len() as int) > u64::MAX {
        None
    } else {
        Some(digits_value(digits, digits.len() as int) as u64)
    }
}

/// Values of longer prefixes of digits are no smaller.
proof fn lemma_digits_grow(digits: Seq<char>, n: int, m: int)
    requires
        0 <= n <= m <= digits.len(),
        forall|i: int| 0 <= i < digits.len() ==> is_digit(#[trigger] digits[i]),
    ensures
        0 <= digits_value(digits, n) <= digits_value(digits, m),
    decreases m,
{
    if n < m {
        lemma_digits_grow(digits, n, m - 1);
    } else if n > 0 {
        lemma_digits_grow(digits, n - 1, n - 1);
    }
}

/// The unsigned integer a text is written as, as `unsigned_text` reads it.
pub fn unsigned(value: &str) -> (number: Option<u64>)
    ensures
        number == unsigned_text(value@),
{
    let chars = text::chars_of(value);
    let mut start: usize = 0;
    if chars.len() > 0 && chars[0] == '+' {
        start = 1;
    }
    let ghost digits = digits_of(value@);
    if start >= chars.len() {
        return None;
    }
    let mut number: u64 = 0;
    let mut i: usize = start;
    while i < chars.len()
        invariant
            chars@ == value@,
            digits == digits_of(value@),
            start <= i <= chars@.len(),
            start == chars@.len() - digits.len(),
            forall|k: int| 0 <= k < digits.len() ==> digits[k] == chars@[start + k],
            forall|k: int| start <= k < i ==> is_digit(#[trigger] chars@[k]),
            number == digits_value(digits, i - start),
        decreases chars.len() - i,
    {
        let c = chars[i];
        if !('0' <= c && c <= '9') {
            proof {
                assert(!is_digit(digits[i - start]));
                assert(digits.len() > 0);
                assert(exists|k: int| 0 <= k < digits.len() && !is_digit(#[trigger] digits[k]));
                assert(unsigned_text(value@) is None);
            }
            return None;
        }
        let d = (c as u64) - ('0' as u64);
        if number > (u64::MAX - d) / 10 {
            proof {
                assert(forall|k: int| 0 <= k < digits.len() ==> is_digit(#[trigger] digits[k])
                    || !is_digit(digits[k]));
                if forall|k: int| 0 <= k < digits.len() ==> is_digit(#[trigger] digits[k]) {
                    lemma_digits_grow(digits, i - start + 1, digits.len() as int);
                    assert(digits_value(digits, i - start + 1) == number * 10 + d) by {
                        assert(digits[i - start] == c);
                    }
                    assert(number * 10 + d > u64::MAX) by (nonlinear_arith)
                        requires
                            number > (u64::MAX - d) / 10,
                            d <= 9,
                    ;
                }
            }
            return None;
        }
        proof {
            assert(number * 10 + d <= u64::MAX) by (nonlinear_arith)
                requires
                    number <= (u64::MAX - d) / 10,
                    d <= 9,
            ;
            assert(digits[i - start] == c);
        }
        number = number * 10 + d;
        i = i + 1;
    }
    proof {
        assert forall|k: int| 0 <= k < digits.len() implies is_digit(#[trigger] digits[k]) by {
            assert(digits[k] == chars@[start + k]);
        }
    }
    Some(number)
}

/// A span of whole minutes, as `--in` takes one. Refused when the value is
/// not a whole number of minutes.
pub fn minutes(value: &str) -> (span: Result<Duration, Error>)
    requires
        unsigned_text(value@) matches Some(n) ==> n * 60 <= u64::MAX,
    ensures
        match unsigned_text(value@) {
            Some(n) => span matches Ok(d) && d.millis() == minutes_millis(n),
            None => span matches Err(Error::NotANumber { value: v, unit }) && v@ == value@ && unit@
                == "minutes"@,
        },
{
    match unsigned(value) {
        Some(n) => Ok(Duration::from_seconds(n * 60)),
        None => Err(Error::NotANumber { value: text::owned(value), unit: text::owned("minutes") }),
    }
}

/// What `jive-debug --help` prints.
pub const HELP: &'static str = "\
jive-debug \u{2014} show the numbers the shuffle draws from

Usage:
    jive-debug [DIRECTORY]

Arguments:
    DIRECTORY          A directory below the root to read, as jive would.
                       Defaults to all of the music jive knows about.

Options:
    --state FILE       Read this collection file instead of the usual one
    --in MINUTES       Show the table as it will look this many minutes from now
    -h, --help         Print this help
";

/// What the command line asked for, when it asked for a report.
#[derive(Debug, Clone, PartialEq, Eq)]
pub struct Settings {
    /// A directory below the root to report on, rather than all of it.
    pub directory: Option<FsPath>,
    /// The collection file to read, rather than the usual one.
    pub state: Option<FsPath>,
    /// How far ahead of now to report as of.
    pub ahead: Duration,
}

/// What reading a `jive-debug` command line comes to.
pub enum SettingsReading {
    /// A report on this directory, from this file, this many milliseconds
    /// ahead, each if given.
    Report(Option<Seq<char>>, Option<Seq<char>>, int),
    /// The help.
    Help,
    /// This argument is not understood.
    Unknown(Seq<char>),
    /// This flag needs a value after it.
    Missing(Seq<char>),
    /// This value is not a number of minutes.
    NotMinutes(Seq<char>),
    /// This many minutes do not fit the arithmetic that reads them.
    TooMany(u64),
}

/// The milliseconds in `n` minutes, or the most a duration holds.
pub open spec fn minutes_millis(n: u64) -> int {
    if n * 60 * 1000 > u64::MAX {
        u64::MAX as int
    } else {
        n * 60 * 1000
    }
}

/// What the arguments from position `i` on come to, with the directory,
/// file and span read so far. A flag is anything starting with a dash but a
/// lone dash; `-h` and `--help` ask for the help whatever follows.
pub open spec fn settings_from(
    arguments: Seq<Seq<char>>,
    i: int,
    directory: Option<Seq<char>>,
    state: Option<Seq<char>>,
    ahead: int,
) -> SettingsReading
    decreases arguments.len() - i,
{
    if i < 0 || i >= arguments.len() {
        SettingsReading::Report(directory, state, ahead)
    } else {
        let argument = arguments[i];
        if argument == "-h"@ || argument == "--help"@ {
            SettingsReading::Help
        } else if argument == "--state"@ {
            if i + 1 < arguments.len() {
                settings_from(arguments, i + 2, directory, Some(arguments[i + 1]), ahead)
            } else {
                SettingsReading::Missing("--state"@)
            }
        } else if argument == "--in"@ {
            if i + 1 < arguments.len() {
                match unsigned_text(arguments[i + 1]) {
                    None => SettingsReading::NotMinutes(arguments[i + 1]),
                    Some(n) => if n * 60 > u64::MAX {
                        SettingsReading::TooMany(n)
                    } else {
                        settings_from(arguments, i + 2, directory, state, minutes_millis(n))
                    },
                }
            } else {
                SettingsReading::Missing("--in"@)
            }
        } else if argument.len() > 0 && argument[0] == '-' && argument != "-"@ {
            SettingsReading::Unknown(argument)
        } else if directory is Some {
            SettingsReading::Unknown(argument)
        } else {
            settings_from(arguments, i + 1, Some(argument), state, ahead)
        }
    }
}

/// What a `jive-debug` command line comes to.
pub open spec fn settings_reading(arguments: Seq<Seq<char>>) -> SettingsReading {
    settings_from(arguments, 0, None, None, 0)
}

/// Whether a parse result is what a command line comes to.
pub open spec fn settings_parsed_as(result: Result<Option<Settings>, Error>, expected: SettingsReading) -> bool {
    match (result, expected) {
        (Ok(Some(s)), SettingsReading::Report(directory, state, ahead)) => {
            &&& match s.directory {
                Some(d) => directory matches Some(t) && d@ == parsed(t),
                None => directory is None,
            }
            &&& match s.state {
                Some(f) => state matches Some(t) && f@ == parsed(t),
                None => state is None,
            }
            &&& s.ahead.millis() == ahead
        },
        (Ok(None), SettingsReading::Help) => true,
        (Err(Error::UnknownArgument { argument }), SettingsReading::Unknown(expected)) => argument@ == expected,
        (Err(Error::MissingValue { flag }), SettingsReading::Missing(expected)) => flag@ == expected,
        (Err(Error::NotANumber { value, unit }), SettingsReading::NotMinutes(expected)) => value@ == expected
            && unit@ == "minutes"@,
        _ => false,
    }
}

/// Whether `a` is the text `b`.
fn reads_as(a: &String, b: &str) -> (same: bool)
    ensures
        same == (a@ == b@),
{
    same_text(a, &text::owned(b))
}

/// What reading a `jive-debug` command line gives: the settings, or their
/// refusal; or a span of minutes too large to be counted in seconds.
#[derive(Debug)]
pub enum SettingsOutcome {
    /// The command line was read, or refused.
    Read(Result<Option<Settings>, Error>),
    /// `--in` was given more minutes than can be counted in seconds.
    TooManyMinutes,
}

impl Settings {
    /// Reads a `jive-debug` command line, excluding the program name, as
    /// `settings_reading` says: the settings of a report, `None` when it asks
    /// for the help, or a refusal for an unrecognized flag, a second
    /// directory, a flag without its value, or a span that is not a whole
    /// number of minutes. A span too large to be counted in seconds is told
    /// apart rather than read.
    pub fn read(arguments: Vec<String>) -> (outcome: SettingsOutcome)
        ensures
            match outcome {
                SettingsOutcome::TooManyMinutes => settings_reading(crate::cli::texts(arguments@)) is TooMany,
                SettingsOutcome::Read(settings) => {
                    &&& !(settings_reading(crate::cli::texts(arguments@)) is TooMany)
                    &&& settings_parsed_as(settings, settings_reading(crate::cli::texts(arguments@)))
                },
            },
    {
        let ghost all = crate::cli::texts(arguments@);
        let mut directory: Option<String> = None;
        let mut state: Option<String> = None;
        let mut ahead = Duration::zero();
        let mut i: usize = 0;
        while i < arguments.len()
            invariant
                all == crate::cli::texts(arguments@),
                all.len() == arguments@.len(),
                i <= arguments@.len(),
                settings_reading(all) == settings_from(
                    all,
                    i as int,
                    match directory {
                        Some(d) => Some(d@),
                        None => None,
                    },
                    match state {
                        Some(f) => Some(f@),
                        None => None,
                    },
                    ahead.millis() as int,
                ),
            decreases arguments.len() - i,
        {
            let argument = &arguments[i];
            assert(all[i as int] == argument@);
            if reads_as(argument, "-h") || reads_as(argument, "--help") {
                return SettingsOutcome::Read(Ok(None));
            } else if reads_as(argument, "--state") {
                if i + 1 < arguments.len() {
                    assert(all[i + 1] == arguments@[i + 1]@);
                    state = Some(text::owned(arguments[i + 1].as_str()));
                    i = i + 2;
                } else {
                    return SettingsOutcome::Read(Err(Error::MissingValue { flag: text::owned("--state") }));
                }
            } else if reads_as(argument, "--in") {
                if i + 1 < arguments.len() {
                    assert(all[i + 1] == arguments@[i + 1]@);
                    let value = arguments[i + 1].as_str();
                    match unsigned(value) {
                        None => {
                            return SettingsOutcome::Read(
                                Err(Error::NotANumber { value: text::owned(value), unit: text::owned("minutes") }),
                            );
                        },
                        Some(n) => {
                            if n > u64::MAX / 60 {
                                return SettingsOutcome::TooManyMinutes;
                            }
                            ahead = Duration::from_seconds(n * 60);
                            i = i + 2;
                        },
                    }
                } else {
                    return SettingsOutcome::Read(Err(Error::MissingValue { flag: text::owned("--in") }));
                }
            } else {
                let chars = text::chars_of(argument.as_str());
                if chars.len() > 0 && chars[0] == '-' && !reads_as(argument, "-") {
                    return SettingsOutcome::Read(
                        Err(Error::UnknownArgument { argument: text::owned(argument.as_str()) }),
                    );
                }
                if directory.is_some() {
                    return SettingsOutcome::Read(
                        Err(Error::UnknownArgument { argument: text::owned(argument.as_str()) }),
                    );
                }
                directory = Some(text::owned(argument.as_str()));
                i = i + 1;
            }
        }
        let directory = match directory {
            Some(d) => Some(FsPath::new(d.as_str())),
            None => None,
        };
        let state = match state {
            Some(f) => Some(FsPath::new(f.as_str())),
            None => None,
        };
        SettingsOutcome::Read(Ok(Some(Settings { directory, state, ahead })))
    }

    /// Reads a `jive-debug` command line, excluding the program name, as
    /// `read` does. A span too large to be counted in seconds is left out by
    /// `requires`.
    pub fn parse(arguments: Vec<String>) -> (settings: Result<Option<Settings>, Error>)
        requires
            !(settings_reading(crate::cli::texts(arguments@)) is TooMany),
        ensures
            settings_parsed_as(settings, settings_reading(crate::cli::texts(arguments@))),
    {
        match Settings::read(arguments) {
            SettingsOutcome::Read(settings) => settings,
            SettingsOutcome::TooManyMinutes => Ok(None),
        }
    }
}

} // verus!
