//! What the player's panel shows.
//!
//! A single bordered box, measured from what it holds: the track name and how
//! long it has played. A track name too wide for the panel scrolls, so that
//! all of it can be read in turn; anything else too wide is truncated with an
//! ellipsis. Both are measured in terminal columns, so a name in a
//! double-width script neither overflows nor is cut through the middle of a
//! character.

use crate::player::ViewModel;
use crate::text;
use crate::text::decimal_text;
use crate::time::Duration;
use unicode_width::UnicodeWidthChar;
use unicode_width::UnicodeWidthStr;
use vstd::prelude::*;

verus! {

broadcast use crate::time::group_time;

/// The panel width, unless the terminal is narrower.
pub const PANEL_WIDTH: u16 = 48;

/// Columns of padding inside the border, on each side.
pub const BOX_SIDE_PADDING: u16 = 2;

/// The border and padded row above and below the content.
pub const BOX_MARGIN_ROWS: u16 = 4;

/// Rows the box holds: a heading, a blank row, and the line below it.
pub const CONTENT_ROWS: u16 = 3;

/// The height of the box, unless the terminal is shorter.
pub const PANEL_HEIGHT: u16 = BOX_MARGIN_ROWS + CONTENT_ROWS;

/// Redraws that each step of a scrolling title lasts.
pub const REDRAWS_PER_STEP: u64 = 2;

/// The gap shown between the end of a scrolling title and its restart.
pub const SCROLL_GAP: &'static str = "   ";

/// The mark that stands for text cut short.
pub const ELLIPSIS: char = '…';

/// How often the panel is redrawn: the player waits this long for a key
/// between draws, so it is also the rate at which anything moving on the
/// panel can move.
pub fn redraw_interval() -> (interval: Duration)
    ensures
        interval.millis() == 150,
{
    Duration::from_milliseconds(150)
}

/// How long each step of a scrolling title lasts: a whole number of
/// redraws, so every step lands on one and the title moves at an even
/// cadence.
pub fn scroll_step() -> (step: Duration)
    ensures
        step.millis() == 150 * REDRAWS_PER_STEP,
{
    Duration::from_milliseconds(redraw_interval().as_milliseconds() * REDRAWS_PER_STEP)
}

/// The terminal columns a character takes, as `unicode-width` reports them.
pub uninterp spec fn char_columns(c: char) -> Option<usize>;

/// The terminal columns a text takes, as `unicode-width` reports them.
pub uninterp spec fn text_columns(s: Seq<char>) -> usize;

/// `UnicodeWidthChar::width`: the columns a character takes, or `None` for
/// a control character. What it returns is named, not stated.
#[verifier::external_body]
fn char_width(c: char) -> (columns: Option<usize>)
    ensures
        columns == char_columns(c),
{
    UnicodeWidthChar::width(c)
}

/// `UnicodeWidthStr::width`: the columns a text takes. What it returns is
/// named, not stated.
#[verifier::external_body]
pub(crate) fn text_width(s: &str) -> (columns: usize)
    ensures
        columns == text_columns(s@),
{
    UnicodeWidthStr::width(s)
}

/// The columns a character counts for when text is clipped: none for one
/// that reports no width.
pub open spec fn clip_columns(c: char) -> int {
    match char_columns(c) {
        Some(n) => n as int,
        None => 0,
    }
}

/// The columns the first `n` characters count for.
pub open spec fn prefix_columns(chars: Seq<char>, n: int) -> int
    decreases n,
{
    if n <= 0 {
        0
    } else {
        prefix_columns(chars, n - 1) + clip_columns(chars[n - 1])
    }
}

/// How many characters of `s`, counted from position `n`, fit `width`
/// columns.
pub open spec fn clip_count(s: Seq<char>, width: int, n: int) -> int
    decreases s.len() - n,
{
    if n < 0 || n >= s.len() || prefix_columns(s, n + 1) > width {
        n
    } else {
        clip_count(s, width, n + 1)
    }
}

/// `text` as it fits `width` columns: whole, or as much of it as fits beside
/// an ellipsis.
pub open spec fn fitted_text(text: Seq<char>, width: int) -> Seq<char> {
    if text_columns(text) <= width {
        text
    } else if width <= 0 {
        seq![ELLIPSIS]
    } else {
        text.take(clip_count(text, width - 1, 0)) + seq![ELLIPSIS]
    }
}

/// The columns the first `b` characters take are at least those the first
/// `a` take.
pub proof fn lemma_prefix_grows(s: Seq<char>, a: int, b: int)
    requires
        0 <= a <= b,
    ensures
        prefix_columns(s, a) <= prefix_columns(s, b),
    decreases b,
{
    if a < b {
        lemma_prefix_grows(s, a, b - 1);
        assert(clip_columns(s[b - 1]) >= 0);
    }
}

/// The characters that fit are the longest prefix that fits.
pub proof fn lemma_clip_count(s: Seq<char>, width: int, n: int, m: int)
    requires
        0 <= m <= n <= s.len(),
        prefix_columns(s, n) <= width,
        n == s.len() || prefix_columns(s, n + 1) > width,
    ensures
        clip_count(s, width, m) == n,
    decreases n - m,
{
    if m < n {
        lemma_prefix_grows(s, m + 1, n);
        lemma_clip_count(s, width, n, m + 1);
    }
}

/// As much of `text` as fits `width` terminal columns.
pub fn clipped_to(text: &str, width: usize) -> (clipped: String)
    requires
        width < usize::MAX - 4,
    ensures
        ({
            let n = clipped@.len() as int;
            &&& n <= text@.len()
            &&& clipped@ == text@.take(n)
            &&& prefix_columns(text@, n) <= width
            &&& (n == text@.len() || prefix_columns(text@, n + 1) > width)
        }),
        clipped@ == text@.take(clip_count(text@, width as int, 0)),
{
    let chars = text::chars_of(text);
    let mut clipped = String::new();
    let mut used: usize = 0;
    let mut i: usize = 0;
    while i < chars.len()
        invariant
            chars@ == text@,
            width < usize::MAX - 4,
            i <= chars@.len(),
            used == prefix_columns(chars@, i as int),
            used <= width,
            clipped@ == chars@.take(i as int),
        decreases chars.len() - i,
    {
        let c = chars[i];
        let columns = match char_width(c) {
            Some(n) => n,
            None => 0,
        };
        if columns > width - used {
            proof {
                lemma_clip_count(text@, width as int, i as int, 0);
            }
            return clipped;
        }
        used = used + columns;
        text::push_char(&mut clipped, c);
        proof {
            assert(chars@.take(i + 1) =~= chars@.take(i as int).push(c));
        }
        i = i + 1;
    }
    assert(chars@.take(i as int) =~= chars@);
    proof {
        lemma_clip_count(text@, width as int, i as int, 0);
    }
    clipped
}

/// The characters a name rolls through before it comes round again: the
/// name, then the gap that separates its end from its start.
pub fn ticker(text: &str) -> (characters: Vec<char>)
    ensures
        characters@ == text@ + SCROLL_GAP@,
{
    let mut characters = text::chars_of(text);
    let gap = text::chars_of(SCROLL_GAP);
    let mut i: usize = 0;
    let ghost start = characters@;
    while i < gap.len()
        invariant
            i <= gap@.len(),
            characters@ == start + gap@.take(i as int),
        decreases gap.len() - i,
    {
        characters.push(gap[i]);
        assert(gap@.take(i + 1) =~= gap@.take(i as int).push(gap@[i as int]));
        i = i + 1;
    }
    assert(gap@.take(i as int) =~= gap@);
    characters
}

/// `text`, followed by the spaces that fill it out to `width` columns.
pub fn padded(text: String, width: usize) -> (padded: String)
    ensures
        padded@ == text@ + Seq::new(
            (if width > text_columns(text@) { width - text_columns(text@) } else { 0 }) as nat,
            |i: int| ' ',
        ),
{
    let columns = text_width(text.as_str());
    let room = if width > columns { width - columns } else { 0 };
    let mut padded = text;
    let ghost start = padded@;
    let mut i: usize = 0;
    while i < room
        invariant
            i <= room,
            padded@ == start + Seq::new(i as nat, |k: int| ' '),
        decreases room - i,
    {
        text::push_char(&mut padded, ' ');
        assert(Seq::new((i + 1) as nat, |k: int| ' ') =~= Seq::new(i as nat, |k: int| ' ').push(' '));
        i = i + 1;
    }
    padded
}

/// `text`, or as much of it as fits `width` columns beside an ellipsis.
pub fn fit(text: &str, width: u16) -> (fitted: String)
    ensures
        text_columns(text@) <= width ==> fitted@ == text@,
        text_columns(text@) > width && width == 0 ==> fitted@ == seq![ELLIPSIS],
        text_columns(text@) > width && width > 0 ==> {
            let kept = (fitted@.len() - 1) as int;
            &&& fitted@.len() >= 1
            &&& kept <= text@.len()
            &&& fitted@.last() == ELLIPSIS
            &&& fitted@.drop_last() == text@.take(kept)
            &&& prefix_columns(text@, kept) <= width - 1
            &&& (kept == text@.len() || prefix_columns(text@, kept + 1) > width - 1)
        },
        fitted@ == fitted_text(text@, width as int),
{
    let width = width as usize;
    if text_width(text) <= width {
        return text::owned(text);
    }
    if width == 0 {
        let mut shown = String::new();
        text::push_char(&mut shown, ELLIPSIS);
        return shown;
    }
    let mut shortened = clipped_to(text, width - 1);
    let ghost kept = shortened@;
    text::push_char(&mut shortened, ELLIPSIS);
    assert(shortened@.drop_last() =~= kept);
    assert(kept.push(ELLIPSIS) =~= kept + seq![ELLIPSIS]);
    shortened
}

/// The two digits of a number below a hundred.
pub open spec fn two_digits(n: nat) -> Seq<char> {
    seq![text::digit_char(n / 10), text::digit_char(n % 10)]
}

/// How long a track has played: minutes and seconds, two digits each, with
/// the hours in front once there are any.
pub open spec fn elapsed_text(seconds: nat) -> Seq<char> {
    let hours = seconds / 3_600;
    let minutes = (seconds / 60) % 60;
    let rest = seconds % 60;
    if hours > 0 {
        decimal_text(hours) + ":"@ + two_digits(minutes) + ":"@ + two_digits(rest)
    } else {
        two_digits(minutes) + ":"@ + two_digits(rest)
    }
}

/// The time shown for a track reads back as the whole seconds it has
/// played: hours, when there are any, then minutes and seconds under sixty,
/// two digits each, adding up to the seconds played.
pub proof fn lemma_elapsed_reads_back(seconds: nat)
    ensures
        exists|h: nat, m: nat, s: nat|
            #![trigger h * 3_600 + m * 60 + s]
            m < 60 && s < 60 && h * 3_600 + m * 60 + s == seconds && elapsed_text(seconds) == (if h > 0 {
                decimal_text(h) + ":"@
            } else {
                Seq::<char>::empty()
            }) + seq![
                text::digit_char(m / 10),
                text::digit_char(m % 10),
                ':',
                text::digit_char(s / 10),
                text::digit_char(s % 10),
            ],
{
    let h = seconds / 3_600;
    let m = (seconds / 60) % 60;
    let s = seconds % 60;
    assert(m < 60 && s < 60 && h * 3_600 + m * 60 + s == seconds) by (nonlinear_arith)
        requires
            h == seconds / 3_600,
            m == (seconds / 60) % 60,
            s == seconds % 60,
    ;
    reveal_strlit(":");
    let tail = seq![
        text::digit_char(m / 10),
        text::digit_char(m % 10),
        ':',
        text::digit_char(s / 10),
        text::digit_char(s % 10),
    ];
    assert(two_digits(m) + ":"@ + two_digits(s) =~= tail);
    if h > 0 {
        assert(elapsed_text(seconds) =~= decimal_text(h) + ":"@ + tail);
    } else {
        assert(elapsed_text(seconds) =~= Seq::<char>::empty() + tail);
    }
}

/// Appends the two digits of a number below a hundred.
fn append_two_digits(text: &mut String, n: u64)
    requires
        n < 100,
    ensures
        final(text)@ == old(text)@ + two_digits(n as nat),
{
    text::push_char(text, text::digit_of(n / 10));
    text::push_char(text, text::digit_of(n % 10));
}

/// How long a track has played.
pub fn format_elapsed(elapsed: Duration) -> (shown: String)
    ensures
        shown@ == elapsed_text(elapsed.millis() / 1000),
{
    let total = elapsed.as_whole_seconds();
    let hours = total / 3_600;
    let minutes = (total / 60) % 60;
    let seconds = total % 60;
    let mut shown = String::new();
    if hours > 0 {
        text::append_decimal(&mut shown, hours);
        text::append(&mut shown, ":");
    }
    append_two_digits(&mut shown, minutes);
    text::append(&mut shown, ":");
    append_two_digits(&mut shown, seconds);
    shown
}

/// The characters of a ticker, turned `steps` places: those from
/// `steps % len` on, then those before.
pub open spec fn turned_by(ticker: Seq<char>, steps: int) -> Seq<char> {
    let at = steps % (ticker.len() as int);
    ticker.skip(at) + ticker.take(at)
}

/// A name as it is shown after rolling for `millis` milliseconds: whole if
/// it fits the width, and otherwise a window onto a rolling ticker that moves
/// one character every scroll step, clipped to the width and padded out to
/// it exactly.
pub open spec fn rolled_text(name: Seq<char>, width: int, millis: int) -> Seq<char> {
    if text_columns(name) <= width {
        name
    } else {
        let turned = turned_by(name + SCROLL_GAP@, millis / (150 * REDRAWS_PER_STEP as int));
        let clipped = turned.take(clip_count(turned, width, 0));
        clipped + Seq::new(
            (if width > text_columns(clipped) { width - text_columns(clipped) } else { 0 }) as nat,
            |i: int| ' ',
        )
    }
}

/// A rolling name comes round to where it started once the ticker has
/// moved its whole length, the name and its gap, one scroll step a
/// character.
pub proof fn lemma_rolled_comes_round(name: Seq<char>, width: int, millis: int)
    requires
        millis >= 0,
    ensures
        rolled_text(name, width, millis + (150 * REDRAWS_PER_STEP) * (name + SCROLL_GAP@).len())
            == rolled_text(name, width, millis),
{
    let step: int = 150 * REDRAWS_PER_STEP as int;
    let ticker = name + SCROLL_GAP@;
    let n = ticker.len() as int;
    if text_columns(name) > width {
        reveal_strlit("   ");
        assert(n > 0);
        vstd::arithmetic::div_mod::lemma_hoist_over_denominator(millis, n, step as nat);
        assert(n * step == step * n) by (nonlinear_arith);
        vstd::arithmetic::div_mod::lemma_mod_add_multiples_vanish(millis / step, n);
        assert((millis / step + n) % n == (millis / step) % n);
        assert(turned_by(ticker, (millis + step * n) / step) == turned_by(ticker, millis / step));
    }
}

/// A name as it is shown after rolling for `elapsed`, as `rolled_text` says.
pub fn rolled(name: &str, width: u16, elapsed: Duration) -> (shown: String)
    ensures
        shown@ == rolled_text(name@, width as int, elapsed.millis() as int),
{
    let room = width as usize;
    if text_width(name) <= room {
        return text::owned(name);
    }
    let ticker = ticker(name);
    let step = scroll_step().as_milliseconds();
    let steps = elapsed.as_milliseconds() / step;
    let length = ticker.len() as u64;
    proof {
        reveal_strlit("   ");
        assert(length > 0);
    }
    let at = (steps % length) as usize;
    let mut turned = String::new();
    let mut i: usize = at;
    while i < ticker.len()
        invariant
            at <= i <= ticker@.len(),
            turned@ == ticker@.subrange(at as int, i as int),
        decreases ticker.len() - i,
    {
        text::push_char(&mut turned, ticker[i]);
        assert(ticker@.subrange(at as int, i + 1) =~= ticker@.subrange(at as int, i as int).push(ticker@[i as int]));
        i = i + 1;
    }
    let mut j: usize = 0;
    while j < at
        invariant
            at <= ticker@.len(),
            j <= at,
            turned@ == ticker@.skip(at as int) + ticker@.take(j as int),
        decreases at - j,
    {
        text::push_char(&mut turned, ticker[j]);
        assert(ticker@.take(j + 1) =~= ticker@.take(j as int).push(ticker@[j as int]));
        j = j + 1;
    }
    proof {
        assert(ticker@.subrange(at as int, ticker@.len() as int) =~= ticker@.skip(at as int));
        assert(turned@ == turned_by(ticker@, steps as int));
    }
    let clipped = clipped_to(turned.as_str(), room);
    padded(clipped, room)
}

/// The three rows of the panel for a view: a heading, a blank row, and the
/// line below it. Playing shows the name, rolling, and the time it has
/// played; otherwise a statement and the reason for it. Each is fitted to
/// `width` columns.
pub fn panel_lines(view: &ViewModel, width: u16) -> (lines: Vec<String>)
    ensures
        lines@.len() == 3,
        lines@[1]@ == Seq::<char>::empty(),
        match view {
            ViewModel::Playing { name, elapsed } => {
                &&& lines@[0]@ == rolled_text(name@, width as int, elapsed.millis() as int)
                &&& lines@[2]@ == fitted_text(elapsed_text(elapsed.millis() / 1000), width as int)
            },
            ViewModel::Empty => {
                &&& lines@[0]@ == fitted_text("nothing to play"@, width as int)
                &&& lines@[2]@ == fitted_text("no audio files here"@, width as int)
            },
            ViewModel::Stalled => {
                &&& lines@[0]@ == fitted_text("nothing would play"@, width as int)
                &&& lines@[2]@ == fitted_text("no file could be read"@, width as int)
            },
        },
{
    let mut lines: Vec<String> = Vec::new();
    match view {
        ViewModel::Playing { name, elapsed } => {
            lines.push(rolled(name.as_str(), width, *elapsed));
            lines.push(String::new());
            let shown = format_elapsed(*elapsed);
            lines.push(fit(shown.as_str(), width));
        },
        ViewModel::Empty => {
            lines.push(fit("nothing to play", width));
            lines.push(String::new());
            lines.push(fit("no audio files here", width));
        },
        ViewModel::Stalled => {
            lines.push(fit("nothing would play", width));
            lines.push(String::new());
            lines.push(fit("no file could be read", width));
        },
    }
    lines
}

/// The area a box of `width` by `height` takes, centered in `area`, and no
/// larger than it. Areas are given as column, row, width and height.
pub fn centered(area: (u16, u16, u16, u16), width: u16, height: u16) -> (placed: (u16, u16, u16, u16))
    requires
        area.0 + area.2 <= u16::MAX,
        area.1 + area.3 <= u16::MAX,
    ensures
        placed.2 == if width < area.2 { width } else { area.2 },
        placed.3 == if height < area.3 { height } else { area.3 },
        placed.0 == area.0 + (area.2 - placed.2) / 2,
        placed.1 == area.1 + (area.3 - placed.3) / 2,
{
    let w = if width < area.2 { width } else { area.2 };
    let h = if height < area.3 { height } else { area.3 };
    (area.0 + (area.2 - w) / 2, area.1 + (area.3 - h) / 2, w, h)
}

} // verus!
