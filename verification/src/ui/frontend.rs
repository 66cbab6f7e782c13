//! What the keys of the user mean: the commands that are typed letter by
//! letter, and the state of the screen that the keys change.

use crate::errors::{message_of, ViewError};
use crate::file_buffer::pattern::{compiles_for_text, text_regex_compiles};
use crate::ui::backend::Command;
use crate::utils::text::texts;
use vstd::prelude::*;
use vstd::std_specs::iter::IteratorSpec;

verus! {

/// The number of lines or columns of a fast step.
pub const FAST_SCROLL_LINES: i64 = 5;

/// The number of columns between two tab stops at the start.
pub const DEFAULT_TAB_WIDTH: usize = 4;

/// The largest number that the digits of a command are reckoned up to;
/// larger numbers fit nowhere.
pub const DIGITS_CAP: u128 = 0x1_0000_0000_0000_0000;

/// A key, as far as the keyboard tells keys apart.
#[derive(Debug, Clone, Copy, PartialEq, Eq)]
pub enum KeyCode {
    Char(char),
    Down,
    Up,
    Right,
    Left,
    PageDown,
    PageUp,
    Esc,
    Enter,
    Backspace,
    Other,
}

/// What was held down with a key: nothing, the control key alone, the shift
/// key alone, or anything else.
#[derive(Debug, Clone, Copy, PartialEq, Eq)]
pub enum KeyModifiers {
    Plain,
    Control,
    Shift,
    Other,
}

/// A key that was pressed.
#[derive(Debug, Clone, Copy, PartialEq, Eq)]
pub struct Key {
    pub code: KeyCode,
    pub modifiers: KeyModifiers,
}

/// The way in which the lines are coloured.
#[derive(Debug, Clone, Copy, PartialEq, Eq)]
pub enum ColorMode {
    Default,
    Log,
    Entropy,
}

/// What a typed command means.
#[derive(Debug, Clone, Copy, PartialEq, Eq)]
pub enum Typed {
    /// `?`
    Help,
    /// `q`
    Quit,
    /// `w`
    Wrap,
    /// `f`
    Follow,
    /// `n`
    Next,
    /// `N`
    Previous,
    /// `gg`
    FirstLine,
    /// `GG`
    LastLine,
    /// `j`
    Down,
    /// `J`
    DownFast,
    /// `k`
    Up,
    /// `K`
    UpFast,
    /// `l`
    Right,
    /// `L`
    RightFast,
    /// `h`
    Left,
    /// `H`
    LeftFast,
    /// `clog`
    ColorLog,
    /// `cent`
    ColorEntropy,
    /// `cdef`
    ColorDefault,
    /// `m` and the letter of the mark
    SaveMark(char),
    /// `'` and the letter of the mark
    LoadMark(char),
    /// a number and `gg`, in small or capital letters; without the number
    /// where what stands there is not one
    Line(Option<i64>),
    /// a number and `pp`, in small or capital letters
    Percent,
    /// `/`, a pattern and the enter key
    Search,
    /// a number and `tw`; without the number where what stands there is
    /// not one
    TabWidth(Option<usize>),
    /// nothing yet; the command is over and void where the enter key ended
    /// it
    Pending(bool),
}

/// The digit that a character stands for.
pub open spec fn digit_of(c: char) -> Option<nat> {
    let v = c as u32;
    if 48 <= v <= 57 {
        Some((v - 48) as nat)
    } else {
        None
    }
}

/// The number that a run of digits stands for. There is none for an empty
/// run and for one that holds anything but digits.
pub open spec fn digits_value(s: Seq<char>) -> Option<nat>
    decreases s.len(),
{
    if s.len() == 0 {
        None
    } else {
        match digit_of(s.last()) {
            None => None,
            Some(d) => if s.len() == 1 {
                Some(d)
            } else {
                match digits_value(s.drop_last()) {
                    Some(v) => Some(v * 10 + d),
                    None => None,
                }
            },
        }
    }
}

/// The number that a text stands for: digits behind a sign that may be left
/// out. There is none where the number does not fit.
pub open spec fn parsed_i64(s: Seq<char>) -> Option<i64> {
    let negative = s.len() > 0 && s[0] == '-';
    let signed = s.len() > 0 && (s[0] == '-' || s[0] == '+');
    let body = if signed {
        s.skip(1)
    } else {
        s
    };
    match digits_value(body) {
        Some(v) => {
            let n = if negative {
                -(v as int)
            } else {
                v as int
            };
            if i64::MIN <= n <= i64::MAX {
                Some(n as i64)
            } else {
                None
            }
        },
        None => None,
    }
}

/// The number without a sign that a text stands for: digits behind a plus
/// sign that may be left out. There is none where the number does not fit.
pub open spec fn parsed_usize(s: Seq<char>) -> Option<usize> {
    let body = if s.len() > 0 && s[0] == '+' {
        s.skip(1)
    } else {
        s
    };
    match digits_value(body) {
        Some(v) => if v <= usize::MAX {
            Some(v as usize)
        } else {
            None
        },
        None => None,
    }
}

/// A run with a character that is no digit stands for no number.
proof fn lemma_not_digits(s: Seq<char>, at: int)
    requires
        0 <= at < s.len(),
        digit_of(s[at]) is None,
    ensures
        digits_value(s) is None,
    decreases s.len(),
{
    if at < s.len() - 1 {
        lemma_not_digits(s.drop_last(), at);
    }
}

/// The number that the digits stand for, or the cap where it is larger.
fn parse_digits(chars: &[char]) -> (value: Option<u128>)
    ensures
        match digits_value(chars@) {
            None => value is None,
            Some(v) => value == Some(
                if v > DIGITS_CAP {
                    DIGITS_CAP
                } else {
                    v as u128
                },
            ),
        },
{
    if chars.len() == 0 {
        return None;
    }
    let mut acc: u128 = 0;
    let mut i: usize = 0;
    let ghost mut exact: nat = 0;
    while i < chars.len()
        invariant
            i <= chars@.len(),
            acc <= DIGITS_CAP,
            i == 0 ==> acc == 0 && exact == 0,
            i > 0 ==> digits_value(chars@.take(i as int)) == Some(exact),
            acc == if exact > DIGITS_CAP {
                DIGITS_CAP
            } else {
                exact as u128
            },
        decreases chars@.len() - i,
    {
        let v = chars[i] as u32;
        if v < 48 || v > 57 {
            proof {
                lemma_not_digits(chars@, i as int);
            }
            return None;
        }
        let d = (v - 48) as u128;
        proof {
            let front = chars@.take(i + 1);
            assert(front.drop_last() =~= chars@.take(i as int));
            assert(front.last() == chars@[i as int]);
            exact = exact * 10 + d as nat;
        }
        let next = acc * 10 + d;
        acc = if next > DIGITS_CAP {
            DIGITS_CAP
        } else {
            next
        };
        i = i + 1;
    }
    assert(chars@.take(i as int) =~= chars@);
    Some(acc)
}

/// The number that the text stands for.
pub fn parse_i64(chars: &[char]) -> (value: Option<i64>)
    ensures
        value == parsed_i64(chars@),
{
    let negative = chars.len() > 0 && chars[0] == '-';
    let signed = chars.len() > 0 && (chars[0] == '-' || chars[0] == '+');
    let body = if signed {
        &chars[1..chars.len()]
    } else {
        chars
    };
    assert(signed ==> body@ =~= chars@.skip(1));
    match parse_digits(body) {
        Some(v) => {
            if negative {
                if v <= 0x8000_0000_0000_0000 {
                    Some((-(v as i128)) as i64)
                } else {
                    None
                }
            } else {
                if v <= 0x7fff_ffff_ffff_ffff {
                    Some(v as i64)
                } else {
                    None
                }
            }
        },
        None => None,
    }
}

/// The number without a sign that the text stands for.
pub fn parse_usize(chars: &[char]) -> (value: Option<usize>)
    ensures
        value == parsed_usize(chars@),
{
    let signed = chars.len() > 0 && chars[0] == '+';
    let body = if signed {
        &chars[1..chars.len()]
    } else {
        chars
    };
    assert(signed ==> body@ =~= chars@.skip(1));
    match parse_digits(body) {
        Some(v) => {
            if v <= usize::MAX as u128 {
                Some(v as usize)
            } else {
                None
            }
        },
        None => None,
    }
}

/// Whether a command ends with the given letter twice, in small or capital
/// letters.
pub open spec fn ends_with_twice(command: Seq<char>, small: char, capital: char) -> bool {
    &&& command.len() >= 2
    &&& command[command.len() - 1] == small || command[command.len() - 1] == capital
    &&& command[command.len() - 2] == small || command[command.len() - 2] == capital
}

/// What a command means, by the letters typed so far.
pub open spec fn typed_of(command: Seq<char>) -> Typed {
    if command == seq!['?'] {
        Typed::Help
    } else if command == seq!['q'] {
        Typed::Quit
    } else if command == seq!['w'] {
        Typed::Wrap
    } else if command == seq!['f'] {
        Typed::Follow
    } else if command == seq!['n'] {
        Typed::Next
    } else if command == seq!['N'] {
        Typed::Previous
    } else if command == seq!['g', 'g'] {
        Typed::FirstLine
    } else if command == seq!['G', 'G'] {
        Typed::LastLine
    } else if command == seq!['j'] {
        Typed::Down
    } else if command == seq!['J'] {
        Typed::DownFast
    } else if command == seq!['k'] {
        Typed::Up
    } else if command == seq!['K'] {
        Typed::UpFast
    } else if command == seq!['l'] {
        Typed::Right
    } else if command == seq!['L'] {
        Typed::RightFast
    } else if command == seq!['h'] {
        Typed::Left
    } else if command == seq!['H'] {
        Typed::LeftFast
    } else if command == seq!['c', 'l', 'o', 'g'] {
        Typed::ColorLog
    } else if command == seq!['c', 'e', 'n', 't'] {
        Typed::ColorEntropy
    } else if command == seq!['c', 'd', 'e', 'f'] {
        Typed::ColorDefault
    } else if command.len() > 1 && command[0] == 'm' {
        Typed::SaveMark(command[1])
    } else if command.len() > 1 && command[0] == '\'' {
        Typed::LoadMark(command[1])
    } else if ends_with_twice(command, 'g', 'G') {
        Typed::Line(parsed_i64(command.take(command.len() - 2)))
    } else if ends_with_twice(command, 'p', 'P') {
        Typed::Percent
    } else if command.len() > 1 && command[0] == '/' && command.last() == '\n' {
        Typed::Search
    } else if command.len() >= 2 && command[command.len() - 2] == 't' && command.last() == 'w' {
        Typed::TabWidth(parsed_usize(command.take(command.len() - 2)))
    } else {
        Typed::Pending(command.len() > 0 && command.last() == '\n')
    }
}

/// Whether the command is the one letter.
fn is_letter(command: &[char], letter: char) -> (same: bool)
    ensures
        same == (command@ == seq![letter]),
{
    let same = command.len() == 1 && command[0] == letter;
    assert(same ==> command@ =~= seq![letter]);
    assert(command@ == seq![letter] ==> command@.len() == 1 && command@[0] == letter);
    same
}

/// Whether the command is the two letters.
fn is_pair(command: &[char], first: char, second: char) -> (same: bool)
    ensures
        same == (command@ == seq![first, second]),
{
    let same = command.len() == 2 && command[0] == first && command[1] == second;
    assert(same ==> command@ =~= seq![first, second]);
    assert(command@ == seq![first, second] ==> command@.len() == 2 && command@[0] == first
        && command@[1] == second);
    same
}

/// Whether the command is `c` and the three letters.
fn is_color(command: &[char], a: char, b: char, c: char) -> (same: bool)
    ensures
        same == (command@ == seq!['c', a, b, c]),
{
    let same = command.len() == 4 && command[0] == 'c' && command[1] == a && command[2] == b
        && command[3] == c;
    assert(same ==> command@ =~= seq!['c', a, b, c]);
    assert(command@ == seq!['c', a, b, c] ==> command@.len() == 4 && command@[0] == 'c'
        && command@[1] == a && command@[2] == b && command@[3] == c);
    same
}

/// Whether the command ends with the letter twice, in small or capital
/// letters.
fn ends_twice(command: &[char], small: char, capital: char) -> (yes: bool)
    ensures
        yes == ends_with_twice(command@, small, capital),
{
    let n = command.len();
    n >= 2 && (command[n - 1] == small || command[n - 1] == capital) && (command[n - 2] == small
        || command[n - 2] == capital)
}

/// What the command means.
pub fn classify(command: &[char]) -> (typed: Typed)
    ensures
        typed == typed_of(command@),
{
    let n = command.len();
    if is_letter(command, '?') {
        Typed::Help
    } else if is_letter(command, 'q') {
        Typed::Quit
    } else if is_letter(command, 'w') {
        Typed::Wrap
    } else if is_letter(command, 'f') {
        Typed::Follow
    } else if is_letter(command, 'n') {
        Typed::Next
    } else if is_letter(command, 'N') {
        Typed::Previous
    } else if is_pair(command, 'g', 'g') {
        Typed::FirstLine
    } else if is_pair(command, 'G', 'G') {
        Typed::LastLine
    } else if is_letter(command, 'j') {
        Typed::Down
    } else if is_letter(command, 'J') {
        Typed::DownFast
    } else if is_letter(command, 'k') {
        Typed::Up
    } else if is_letter(command, 'K') {
        Typed::UpFast
    } else if is_letter(command, 'l') {
        Typed::Right
    } else if is_letter(command, 'L') {
        Typed::RightFast
    } else if is_letter(command, 'h') {
        Typed::Left
    } else if is_letter(command, 'H') {
        Typed::LeftFast
    } else if is_color(command, 'l', 'o', 'g') {
        Typed::ColorLog
    } else if is_color(command, 'e', 'n', 't') {
        Typed::ColorEntropy
    } else if is_color(command, 'd', 'e', 'f') {
        Typed::ColorDefault
    } else if n > 1 && command[0] == 'm' {
        Typed::SaveMark(command[1])
    } else if n > 1 && command[0] == '\'' {
        Typed::LoadMark(command[1])
    } else if ends_twice(command, 'g', 'G') {
        let front = &command[0..n - 2];
        assert(front@ =~= command@.take(n - 2));
        Typed::Line(parse_i64(front))
    } else if ends_twice(command, 'p', 'P') {
        Typed::Percent
    } else if n > 1 && command[0] == '/' && command[n - 1] == '\n' {
        Typed::Search
    } else if n >= 2 && command[n - 2] == 't' && command[n - 1] == 'w' {
        let front = &command[0..n - 2];
        assert(front@ =~= command@.take(n - 2));
        Typed::TabWidth(parse_usize(front))
    } else {
        Typed::Pending(n > 0 && command[n - 1] == '\n')
    }
}

/// The state of the screen that the keys change, and the command that is
/// being typed.
pub struct Keyboard {
    /// The letters of the command typed so far.
    pub command: Vec<char>,
    /// The pattern of the last search, while its matches are marked.
    pub search: Option<String>,
    /// Whether long lines are wrapped.
    pub wrap: bool,
    /// Whether the user asked to leave.
    pub stop: bool,
    /// Whether the view follows the end of the file.
    pub follow: bool,
    /// The number of columns that are left out at the left.
    pub right_offset: usize,
    /// The number of columns between two tab stops.
    pub tab_width: usize,
    /// The way in which the lines are coloured.
    pub color_mode: ColorMode,
    /// Whether the help is shown in place of the file.
    pub show_help: bool,
    /// What went wrong with the commands typed so far.
    pub errors: Vec<String>,
    /// The size of the screen that the handler was last told.
    pub last_resize: (Option<usize>, usize),
    /// Whether the last command sent to the handler was a motion by lines.
    pub last_was_move: bool,
}

/// The state of the keyboard as plain values.
#[verifier::ext_equal]
pub struct KeyboardModel {
    pub command: Seq<char>,
    pub search: Option<Seq<char>>,
    pub wrap: bool,
    pub stop: bool,
    pub follow: bool,
    pub right_offset: usize,
    pub tab_width: usize,
    pub color_mode: ColorMode,
    pub show_help: bool,
    pub errors: Seq<Seq<char>>,
    pub last_resize: (Option<usize>, usize),
    pub last_was_move: bool,
}

/// What a key has the screen do towards the handler.
pub enum Effect {
    /// Send the command.
    Send(Command),
    /// Ask for the running search to be cancelled.
    Cancel,
    /// Send a jump to the part of the file that the text gives in percent.
    Percent(String),
}

/// An effect as plain values.
pub enum Wish {
    MoveLine(i64),
    JumpLine(i64),
    JumpFileRatio(u64, u64),
    SearchDown(Seq<char>),
    SearchDownNext(Seq<char>),
    SearchUp(Seq<char>),
    Follow(bool),
    Resize(Option<usize>, usize),
    SaveMark(Seq<char>),
    LoadMark(Seq<char>),
    Cancel,
    Percent(Seq<char>),
}

/// The effect as plain values.
pub open spec fn wish_of(effect: Effect) -> Wish {
    match effect {
        Effect::Send(Command::MoveLine(n)) => Wish::MoveLine(n),
        Effect::Send(Command::JumpLine(n)) => Wish::JumpLine(n),
        Effect::Send(Command::JumpFileRatio(part, whole)) => Wish::JumpFileRatio(part, whole),
        Effect::Send(Command::SearchDown(p)) => Wish::SearchDown(p@),
        Effect::Send(Command::SearchDownNext(p)) => Wish::SearchDownNext(p@),
        Effect::Send(Command::SearchUp(p)) => Wish::SearchUp(p@),
        Effect::Send(Command::Follow(f)) => Wish::Follow(f),
        Effect::Send(Command::Resize(w, h)) => Wish::Resize(w, h),
        Effect::Send(Command::SaveMark(name)) => Wish::SaveMark(name@),
        Effect::Send(Command::LoadMark(name)) => Wish::LoadMark(name@),
        Effect::Cancel => Wish::Cancel,
        Effect::Percent(text) => Wish::Percent(text@),
    }
}

/// The effects as plain values.
pub open spec fn wishes_of(effects: Seq<Effect>) -> Seq<Wish> {
    Seq::new(effects.len(), |i: int| wish_of(effects[i]))
}

/// The sum of two numbers of columns, or the largest number where it does
/// not fit.
pub open spec fn add_columns(a: usize, b: usize) -> usize {
    if a + b > usize::MAX {
        usize::MAX
    } else {
        (a + b) as usize
    }
}

/// The difference of two numbers of columns, or none where it would be
/// less.
pub open spec fn sub_columns(a: usize, b: usize) -> usize {
    if a < b {
        0
    } else {
        (a - b) as usize
    }
}

/// The state after a motion by lines was sent.
pub open spec fn moved(m: KeyboardModel, lines: i64) -> (KeyboardModel, Seq<Wish>) {
    (KeyboardModel { last_was_move: true, ..m }, seq![Wish::MoveLine(lines)])
}

/// The state after a command that is no motion by lines was sent.
pub open spec fn sent(m: KeyboardModel, wish: Wish) -> (KeyboardModel, Seq<Wish>) {
    (KeyboardModel { last_was_move: false, ..m }, seq![wish])
}

/// The state with one more error.
pub open spec fn failed(m: KeyboardModel, error: Seq<char>) -> (KeyboardModel, Seq<Wish>) {
    (KeyboardModel { errors: m.errors.push(error), ..m }, Seq::empty())
}

/// The state after a key and what the key has the screen do, before the
/// command typed so far is looked at. `height` is the number of rows of the
/// screen.
pub open spec fn pressed(m: KeyboardModel, key: Key, height: u16) -> (KeyboardModel, Seq<Wish>) {
    let fast = key.modifiers == KeyModifiers::Shift;
    match key.code {
        KeyCode::Char(c) => if c == 'c' && key.modifiers == KeyModifiers::Control {
            if m.show_help {
                (KeyboardModel { show_help: false, ..m }, Seq::empty())
            } else if m.command.len() > 0 || m.search is Some {
                (
                    KeyboardModel { command: Seq::empty(), search: None, ..m },
                    seq![Wish::Cancel],
                )
            } else {
                (KeyboardModel { stop: true, ..m }, Seq::empty())
            }
        } else {
            (KeyboardModel { command: m.command.push(c), ..m }, Seq::empty())
        },
        KeyCode::Down => moved(
            m,
            if fast {
                FAST_SCROLL_LINES
            } else {
                1
            },
        ),
        KeyCode::Up => moved(
            m,
            if fast {
                (-FAST_SCROLL_LINES) as i64
            } else {
                -1i64
            },
        ),
        KeyCode::Right => (
            KeyboardModel {
                right_offset: add_columns(
                    m.right_offset,
                    if fast {
                        FAST_SCROLL_LINES as usize
                    } else {
                        1
                    },
                ),
                ..m
            },
            Seq::empty(),
        ),
        KeyCode::Left => (
            KeyboardModel {
                right_offset: sub_columns(
                    m.right_offset,
                    if fast {
                        FAST_SCROLL_LINES as usize
                    } else {
                        1
                    },
                ),
                ..m
            },
            Seq::empty(),
        ),
        KeyCode::PageDown => moved(m, height as i64),
        KeyCode::PageUp => moved(m, (-(height as i64)) as i64),
        KeyCode::Esc => if m.show_help {
            (KeyboardModel { show_help: false, ..m }, Seq::empty())
        } else {
            (KeyboardModel { command: Seq::empty(), search: None, ..m }, seq![Wish::Cancel])
        },
        KeyCode::Enter => (KeyboardModel { command: m.command.push('\n'), ..m }, Seq::empty()),
        KeyCode::Backspace => (
            KeyboardModel {
                command: if m.command.len() > 0 {
                    m.command.drop_last()
                } else {
                    m.command
                },
                ..m
            },
            Seq::empty(),
        ),
        KeyCode::Other => (m, Seq::empty()),
    }
}

/// The state after the command typed so far was carried out, and what it
/// has the screen do.
pub open spec fn applied(m: KeyboardModel, typed: Typed) -> (KeyboardModel, Seq<Wish>) {
    match typed {
        Typed::Help => (KeyboardModel { show_help: !m.show_help, ..m }, Seq::empty()),
        Typed::Quit => (KeyboardModel { stop: true, ..m }, Seq::empty()),
        Typed::Wrap => (KeyboardModel { wrap: !m.wrap, right_offset: 0, ..m }, Seq::empty()),
        Typed::Follow => sent(KeyboardModel { follow: !m.follow, ..m }, Wish::Follow(!m.follow)),
        Typed::Next => match m.search {
            Some(pattern) => sent(m, Wish::SearchDownNext(pattern)),
            None => failed(m, "nothing to search"@),
        },
        Typed::Previous => match m.search {
            Some(pattern) => sent(m, Wish::SearchUp(pattern)),
            None => failed(m, "nothing to search"@),
        },
        Typed::FirstLine => sent(m, Wish::JumpLine(1)),
        Typed::LastLine => sent(m, Wish::JumpLine(-1i64)),
        Typed::Down => moved(m, 1),
        Typed::DownFast => moved(m, FAST_SCROLL_LINES),
        Typed::Up => moved(m, -1i64),
        Typed::UpFast => moved(m, (-FAST_SCROLL_LINES) as i64),
        Typed::Right => (
            KeyboardModel { right_offset: add_columns(m.right_offset, 1), ..m },
            Seq::empty(),
        ),
        Typed::RightFast => (
            KeyboardModel {
                right_offset: add_columns(m.right_offset, FAST_SCROLL_LINES as usize),
                ..m
            },
            Seq::empty(),
        ),
        Typed::Left => (
            KeyboardModel { right_offset: sub_columns(m.right_offset, 1), ..m },
            Seq::empty(),
        ),
        Typed::LeftFast => (
            KeyboardModel {
                right_offset: sub_columns(m.right_offset, FAST_SCROLL_LINES as usize),
                ..m
            },
            Seq::empty(),
        ),
        Typed::ColorLog => (KeyboardModel { color_mode: ColorMode::Log, ..m }, Seq::empty()),
        Typed::ColorEntropy => (
            KeyboardModel { color_mode: ColorMode::Entropy, ..m },
            Seq::empty(),
        ),
        Typed::ColorDefault => (
            KeyboardModel { color_mode: ColorMode::Default, ..m },
            Seq::empty(),
        ),
        Typed::SaveMark(name) => sent(m, Wish::SaveMark(seq![name])),
        Typed::LoadMark(name) => sent(m, Wish::LoadMark(seq![name])),
        Typed::Line(Some(line)) => sent(m, Wish::JumpLine(line)),
        Typed::Line(None) => failed(m, "not a number"@),
        Typed::Percent => sent(m, Wish::Percent(m.command.take(m.command.len() - 2))),
        Typed::Search => {
            let pattern = m.command.subrange(1, m.command.len() - 1);
            if pattern.len() == 0 {
                (KeyboardModel { search: None, ..m }, Seq::empty())
            } else if text_regex_compiles(pattern) {
                sent(KeyboardModel { search: Some(pattern), ..m }, Wish::SearchDown(pattern))
            } else {
                failed(m, "invalid regex"@)
            }
        },
        Typed::TabWidth(Some(width)) => (KeyboardModel { tab_width: width, ..m }, Seq::empty()),
        Typed::TabWidth(None) => failed(m, "not a number"@),
        Typed::Pending(_) => (m, Seq::empty()),
    }
}

/// Whether a command is over once it was looked at: any command is but one
/// that means nothing yet and was not ended with the enter key.
pub open spec fn is_over(typed: Typed) -> bool {
    match typed {
        Typed::Pending(done) => done,
        _ => true,
    }
}

/// The state after a key, and what the key has the screen do: first the key
/// itself takes effect, then the command typed so far, which is dropped
/// when it is over.
pub open spec fn handled(m: KeyboardModel, key: Key, height: u16) -> (KeyboardModel, Seq<Wish>) {
    let (after_key, first) = pressed(m, key, height);
    let typed = typed_of(after_key.command);
    let (after_command, second) = applied(after_key, typed);
    (
        if is_over(typed) {
            KeyboardModel { command: Seq::empty(), ..after_command }
        } else {
            after_command
        },
        first + second,
    )
}

/// The state of the screen after the handler was told its size, and the
/// command that tells it: none where the size is the one last told.
pub open spec fn resized(m: KeyboardModel, width: usize, height: usize) -> (
    KeyboardModel,
    Seq<Wish>,
) {
    let size = (
        if m.wrap {
            Some(width)
        } else {
            None
        },
        height,
    );
    if size == m.last_resize {
        (m, Seq::empty())
    } else {
        sent(KeyboardModel { last_resize: size, ..m }, Wish::Resize(size.0, size.1))
    }
}

/// `String::push` of std: the character is put behind the text.
#[verifier::external_body]
fn push_char(text: &mut String, c: char)
    ensures
        final(text)@ == old(text)@.push(c),
{
    text.push(c)
}

/// The text made of the characters.
pub fn string_of(chars: &[char]) -> (text: String)
    ensures
        text@ == chars@,
{
    let mut text = String::new();
    let mut i: usize = 0;
    while i < chars.len()
        invariant
            i <= chars@.len(),
            text@ == chars@.take(i as int),
        decreases chars@.len() - i,
    {
        push_char(&mut text, chars[i]);
        assert(text@ =~= chars@.take(i + 1));
        i = i + 1;
    }
    assert(chars@.take(i as int) =~= chars@);
    text
}

/// The characters of the text.
pub fn chars_of(text: &str) -> (chars: Vec<char>)
    ensures
        chars@ == text@,
{
    let mut chars: Vec<char> = Vec::new();
    let mut rest = text.chars();
    let mut done = false;
    proof {
        vstd::string::axiom_spec_iter(text);
        assert(chars@ + rest.remaining() =~= text@);
    }
    while !done
        invariant
            !done ==> chars@ + rest.remaining() == text@,
            done ==> chars@ == text@,
            rest.decrease() is Some,
        decreases
                (if done {
                    0int
                } else {
                    1int
                }),
                rest.decrease().unwrap(),
    {
        let ghost before = rest;
        let ghost so_far = chars@;
        let next = rest.next();
        proof {
            vstd::string::next_postcondition(&before, &rest, next);
        }
        match next {
            Some(c) => {
                chars.push(c);
                proof {
                    let left = before.remaining();
                    assert(left =~= seq![c] + left.drop_first());
                    assert(so_far.push(c) + left.drop_first() =~= so_far + left);
                }
            },
            None => {
                proof {
                    assert(so_far + before.remaining() =~= so_far);
                }
                done = true;
            },
        }
    }
    chars
}

/// The texts of some strings with one more.
proof fn lemma_texts_push(lines: Seq<String>, line: String)
    ensures
        texts(lines.push(line)) == texts(lines).push(line@),
{
    assert(texts(lines.push(line)) =~= texts(lines).push(line@));
}

impl View for Keyboard {
    type V = KeyboardModel;

    open spec fn view(&self) -> KeyboardModel {
        KeyboardModel {
            command: self.command@,
            search: match self.search {
                Some(pattern) => Some(pattern@),
                None => None,
            },
            wrap: self.wrap,
            stop: self.stop,
            follow: self.follow,
            right_offset: self.right_offset,
            tab_width: self.tab_width,
            color_mode: self.color_mode,
            show_help: self.show_help,
            errors: texts(self.errors@),
            last_resize: self.last_resize,
            last_was_move: self.last_was_move,
        }
    }
}

impl Keyboard {
    /// The keyboard before any key: lines are wrapped and coloured as they
    /// come, tab stops are four columns apart, and nothing is typed.
    pub fn new() -> (keyboard: Self)
        ensures
            keyboard@ == (KeyboardModel {
                command: Seq::empty(),
                search: None,
                wrap: true,
                stop: false,
                follow: false,
                right_offset: 0,
                tab_width: DEFAULT_TAB_WIDTH,
                color_mode: ColorMode::Default,
                show_help: false,
                errors: Seq::empty(),
                last_resize: (None, 0),
                last_was_move: false,
            }),
    {
        let keyboard = Keyboard {
            command: Vec::new(),
            search: None,
            wrap: true,
            stop: false,
            follow: false,
            right_offset: 0,
            tab_width: DEFAULT_TAB_WIDTH,
            color_mode: ColorMode::Default,
            show_help: false,
            errors: Vec::new(),
            last_resize: (None, 0),
            last_was_move: false,
        };
        assert(keyboard@.errors =~= Seq::<Seq<char>>::empty());
        keyboard
    }

    /// The command typed so far, as text.
    pub fn command_text(&self) -> (text: String)
        ensures
            text@ == self@.command,
    {
        string_of(self.command.as_slice())
    }

    /// Sends a motion by lines.
    fn send_move(&mut self, lines: i64) -> (effects: Vec<Effect>)
        ensures
            (final(self)@, wishes_of(effects@)) == moved(old(self)@, lines),
    {
        self.last_was_move = true;
        let mut effects = Vec::new();
        effects.push(Effect::Send(Command::MoveLine(lines)));
        assert(wishes_of(effects@) =~= seq![Wish::MoveLine(lines)]);
        assert(self@ =~= moved(old(self)@, lines).0);
        effects
    }

    /// Sends a command that is no motion by lines.
    fn send(&mut self, command: Command) -> (effects: Vec<Effect>)
        requires
            !(command is MoveLine),
        ensures
            (final(self)@, wishes_of(effects@)) == sent(
                old(self)@,
                wish_of(Effect::Send(command)),
            ),
    {
        self.last_was_move = false;
        let mut effects = Vec::new();
        effects.push(Effect::Send(command));
        assert(wishes_of(effects@) =~= seq![wish_of(Effect::Send(command))]);
        assert(self@ =~= sent(old(self)@, wish_of(Effect::Send(command))).0);
        effects
    }

    /// Notes an error.
    fn fail(&mut self, error: &str) -> (effects: Vec<Effect>)
        ensures
            (final(self)@, wishes_of(effects@)) == failed(old(self)@, error@),
    {
        let text = error.to_owned();
        proof {
            lemma_texts_push(self.errors@, text);
        }
        self.errors.push(text);
        let effects = Vec::new();
        assert(wishes_of(effects@) =~= Seq::<Wish>::empty());
        assert(self@ =~= failed(old(self)@, error@).0);
        effects
    }

    /// No effects: nothing is sent and nothing is asked for.
    fn quiet(&self) -> (effects: Vec<Effect>)
        ensures
            effects@ == Seq::<Effect>::empty(),
            wishes_of(effects@) == Seq::<Wish>::empty(),
    {
        let effects = Vec::new();
        assert(wishes_of(effects@) =~= Seq::<Wish>::empty());
        effects
    }

    /// Drops the command and the search, and asks for the running search to
    /// be cancelled.
    fn cancel(&mut self) -> (effects: Vec<Effect>)
        ensures
            final(self)@ == (KeyboardModel {
                command: Seq::empty(),
                search: None,
                ..old(self)@
            }),
            wishes_of(effects@) == seq![Wish::Cancel],
    {
        self.command = Vec::new();
        self.search = None;
        let mut effects = Vec::new();
        effects.push(Effect::Cancel);
        assert(wishes_of(effects@) =~= seq![Wish::Cancel]);
        assert(self@ =~= (KeyboardModel { command: Seq::empty(), search: None, ..old(self)@ }));
        effects
    }

    /// Lets a key take effect, before the command typed so far is looked
    /// at.
    pub fn press(&mut self, key: Key, height: u16) -> (effects: Vec<Effect>)
        ensures
            (final(self)@, wishes_of(effects@)) == pressed(old(self)@, key, height),
    {
        let fast = match key.modifiers {
            KeyModifiers::Shift => true,
            _ => false,
        };
        let control = match key.modifiers {
            KeyModifiers::Control => true,
            _ => false,
        };
        let step: usize = if fast {
            FAST_SCROLL_LINES as usize
        } else {
            1
        };
        match key.code {
            KeyCode::Char(c) => {
                if c == 'c' && control {
                    if self.show_help {
                        self.show_help = false;
                        assert(self@ =~= pressed(old(self)@, key, height).0);
                        self.quiet()
                    } else if self.command.len() > 0 || self.search.is_some() {
                        self.cancel()
                    } else {
                        self.stop = true;
                        assert(self@ =~= pressed(old(self)@, key, height).0);
                        self.quiet()
                    }
                } else {
                    self.command.push(c);
                    assert(self@ =~= pressed(old(self)@, key, height).0);
                    self.quiet()
                }
            },
            KeyCode::Down => self.send_move(
                if fast {
                    FAST_SCROLL_LINES
                } else {
                    1
                },
            ),
            KeyCode::Up => self.send_move(
                if fast {
                    -FAST_SCROLL_LINES
                } else {
                    -1
                },
            ),
            KeyCode::Right => {
                self.right_offset = self.right_offset.saturating_add(step);
                assert(self@ =~= pressed(old(self)@, key, height).0);
                self.quiet()
            },
            KeyCode::Left => {
                self.right_offset = self.right_offset.saturating_sub(step);
                assert(self@ =~= pressed(old(self)@, key, height).0);
                self.quiet()
            },
            KeyCode::PageDown => self.send_move(height as i64),
            KeyCode::PageUp => self.send_move(-(height as i64)),
            KeyCode::Esc => {
                if self.show_help {
                    self.show_help = false;
                    assert(self@ =~= pressed(old(self)@, key, height).0);
                    self.quiet()
                } else {
                    self.cancel()
                }
            },
            KeyCode::Enter => {
                self.command.push('\n');
                assert(self@ =~= pressed(old(self)@, key, height).0);
                self.quiet()
            },
            KeyCode::Backspace => {
                let _ = self.command.pop();
                assert(self@ =~= pressed(old(self)@, key, height).0);
                self.quiet()
            },
            KeyCode::Other => {
                assert(self@ =~= pressed(old(self)@, key, height).0);
                self.quiet()
            },
        }
    }

    /// Carries out what the command typed so far means.
    pub fn apply(&mut self, typed: Typed) -> (effects: Vec<Effect>)
        requires
            typed == typed_of(old(self)@.command),
        ensures
            (final(self)@, wishes_of(effects@)) == applied(old(self)@, typed),
    {
        match typed {
            Typed::Help => {
                self.show_help = !self.show_help;
                assert(self@ =~= applied(old(self)@, typed).0);
                self.quiet()
            },
            Typed::Quit => {
                self.stop = true;
                assert(self@ =~= applied(old(self)@, typed).0);
                self.quiet()
            },
            Typed::Wrap => {
                self.wrap = !self.wrap;
                self.right_offset = 0;
                assert(self@ =~= applied(old(self)@, typed).0);
                self.quiet()
            },
            Typed::Follow => {
                self.follow = !self.follow;
                let follow = self.follow;
                self.send(Command::Follow(follow))
            },
            Typed::Next => {
                let pattern = match &self.search {
                    Some(pattern) => Some(pattern.clone()),
                    None => None,
                };
                match pattern {
                    Some(pattern) => self.send(Command::SearchDownNext(pattern)),
                    None => self.fail("nothing to search"),
                }
            },
            Typed::Previous => {
                let pattern = match &self.search {
                    Some(pattern) => Some(pattern.clone()),
                    None => None,
                };
                match pattern {
                    Some(pattern) => self.send(Command::SearchUp(pattern)),
                    None => self.fail("nothing to search"),
                }
            },
            Typed::FirstLine => self.send(Command::JumpLine(1)),
            Typed::LastLine => self.send(Command::JumpLine(-1)),
            Typed::Down => self.send_move(1),
            Typed::DownFast => self.send_move(FAST_SCROLL_LINES),
            Typed::Up => self.send_move(-1),
            Typed::UpFast => self.send_move(-FAST_SCROLL_LINES),
            Typed::Right => {
                self.right_offset = self.right_offset.saturating_add(1);
                assert(self@ =~= applied(old(self)@, typed).0);
                self.quiet()
            },
            Typed::RightFast => {
                self.right_offset = self.right_offset.saturating_add(FAST_SCROLL_LINES as usize);
                assert(self@ =~= applied(old(self)@, typed).0);
                self.quiet()
            },
            Typed::Left => {
                self.right_offset = self.right_offset.saturating_sub(1);
                assert(self@ =~= applied(old(self)@, typed).0);
                self.quiet()
            },
            Typed::LeftFast => {
                self.right_offset = self.right_offset.saturating_sub(FAST_SCROLL_LINES as usize);
                assert(self@ =~= applied(old(self)@, typed).0);
                self.quiet()
            },
            Typed::ColorLog => {
                self.color_mode = ColorMode::Log;
                assert(self@ =~= applied(old(self)@, typed).0);
                self.quiet()
            },
            Typed::ColorEntropy => {
                self.color_mode = ColorMode::Entropy;
                assert(self@ =~= applied(old(self)@, typed).0);
                self.quiet()
            },
            Typed::ColorDefault => {
                self.color_mode = ColorMode::Default;
                assert(self@ =~= applied(old(self)@, typed).0);
                self.quiet()
            },
            Typed::SaveMark(name) => {
                let letter: [char; 1] = [name];
                assert(letter@ =~= seq![name]);
                self.send(Command::SaveMark(string_of(letter.as_slice())))
            },
            Typed::LoadMark(name) => {
                let letter: [char; 1] = [name];
                assert(letter@ =~= seq![name]);
                self.send(Command::LoadMark(string_of(letter.as_slice())))
            },
            Typed::Line(Some(line)) => self.send(Command::JumpLine(line)),
            Typed::Line(None) => self.fail("not a number"),
            Typed::Percent => {
                let n = self.command.len();
                let front = &self.command.as_slice()[0..n - 2];
                assert(front@ =~= self@.command.take(n - 2));
                let text = string_of(front);
                self.last_was_move = false;
                let mut effects = Vec::new();
                effects.push(Effect::Percent(text));
                assert(wishes_of(effects@) =~= seq![Wish::Percent(text@)]);
                assert(self@ =~= applied(old(self)@, typed).0);
                effects
            },
            Typed::Search => {
                let n = self.command.len();
                let inner = &self.command.as_slice()[1..n - 1];
                assert(inner@ =~= self@.command.subrange(1, n - 1));
                if inner.len() == 0 {
                    self.search = None;
                    assert(self@ =~= applied(old(self)@, typed).0);
                    self.quiet()
                } else {
                    let pattern = string_of(inner);
                    if compiles_for_text(pattern.as_str()) {
                        self.search = Some(pattern.clone());
                        self.send(Command::SearchDown(pattern))
                    } else {
                        self.fail("invalid regex")
                    }
                }
            },
            Typed::TabWidth(Some(width)) => {
                self.tab_width = width;
                assert(self@ =~= applied(old(self)@, typed).0);
                self.quiet()
            },
            Typed::TabWidth(None) => self.fail("not a number"),
            Typed::Pending(_) => {
                assert(self@ =~= applied(old(self)@, typed).0);
                self.quiet()
            },
        }
    }

    /// Lets a key take effect and carries out the command typed so far.
    /// `height` is the number of rows of the screen.
    pub fn handle_key(&mut self, key: Key, height: u16) -> (effects: Vec<Effect>)
        ensures
            (final(self)@, wishes_of(effects@)) == handled(old(self)@, key, height),
    {
        let mut effects = self.press(key, height);
        let ghost first = wishes_of(effects@);
        let ghost after_key = self@;
        let typed = classify(self.command.as_slice());
        let mut more = self.apply(typed);
        let ghost second = wishes_of(more@);
        let ghost after_command = self@;
        let ghost before = effects@;
        let ghost added = more@;
        effects.append(&mut more);
        let over = match typed {
            Typed::Pending(done) => done,
            _ => true,
        };
        if over {
            self.command = Vec::new();
        }
        proof {
            assert(effects@ =~= before + added);
            assert(wishes_of(effects@) =~= first + second);
            assert(self@ =~= handled(old(self)@, key, height).0);
        }
        effects
    }

    /// Tells the handler the size of the screen, unless it is the size last
    /// told: the number of rows, and the number of columns where lines are
    /// wrapped.
    pub fn resize(&mut self, width: usize, height: usize) -> (effects: Vec<Effect>)
        ensures
            (final(self)@, wishes_of(effects@)) == resized(old(self)@, width, height),
    {
        let columns = if self.wrap {
            Some(width)
        } else {
            None
        };
        let same = match (columns, self.last_resize.0) {
            (Some(a), Some(b)) => a == b,
            (None, None) => true,
            _ => false,
        } && height == self.last_resize.1;
        if same {
            assert(self@ =~= resized(old(self)@, width, height).0);
            self.quiet()
        } else {
            self.last_resize = (columns, height);
            self.send(Command::Resize(columns, height))
        }
    }

    /// Takes note that a command was sent to the handler that the keyboard
    /// did not make itself.
    pub fn note_sent(&mut self, command: &Command)
        ensures
            final(self)@ == (KeyboardModel {
                last_was_move: *command is MoveLine,
                ..old(self)@
            }),
    {
        self.last_was_move = match command {
            Command::MoveLine(_) => true,
            _ => false,
        };
        assert(self@ =~= (KeyboardModel { last_was_move: *command is MoveLine, ..old(self)@ }));
    }

    /// Notes an error of sending.
    pub fn push_error(&mut self, error: String)
        ensures
            final(self)@ == (KeyboardModel {
                errors: old(self)@.errors.push(error@),
                ..old(self)@
            }),
    {
        proof {
            lemma_texts_push(self.errors@, error);
        }
        self.errors.push(error);
        assert(self@ =~= (KeyboardModel {
            errors: old(self)@.errors.push(error@),
            ..old(self)@
        }));
    }
}

/// The texts put one behind the other, with the separator between each
/// two.
pub open spec fn joined(parts: Seq<Seq<char>>, separator: Seq<char>) -> Seq<char>
    decreases parts.len(),
{
    if parts.len() == 0 {
        Seq::empty()
    } else if parts.len() == 1 {
        parts[0]
    } else {
        joined(parts.drop_last(), separator) + separator + parts.last()
    }
}

/// The messages of the errors of the handler that are shown to the user:
/// that a motion reached an end of the file is only shown after a motion
/// by lines.
pub open spec fn shown_errors(errors: Seq<ViewError>, after_move: bool) -> Seq<Seq<char>>
    decreases errors.len(),
{
    if errors.len() == 0 {
        Seq::empty()
    } else {
        let front = shown_errors(errors.drop_last(), after_move);
        let last = errors.last();
        if (last is BOF || last is EOF) && !after_move {
            front
        } else {
            front.push(message_of(last))
        }
    }
}

/// The line that tells the user how things stand: the command that is
/// being typed, or else the errors of the handler, or else the errors of
/// the commands typed before, or else nothing.
pub open spec fn status_of(m: KeyboardModel, back_errors: Seq<ViewError>) -> Seq<char> {
    let shown = shown_errors(back_errors, m.last_was_move);
    if m.command.len() > 0 {
        "Command: "@ + m.command
    } else if shown.len() > 0 {
        "Backend error: "@ + joined(shown, ", "@)
    } else if m.errors.len() > 0 {
        "Frontend error: "@ + joined(m.errors, ", "@)
    } else {
        Seq::empty()
    }
}

/// The texts put one behind the other, with the separator between each
/// two.
pub fn join(parts: &Vec<String>, separator: &str) -> (text: String)
    ensures
        text@ == joined(texts(parts@), separator@),
{
    let mut text = String::new();
    let mut i: usize = 0;
    assert(texts(parts@).take(0) =~= Seq::<Seq<char>>::empty());
    while i < parts.len()
        invariant
            i <= parts@.len(),
            text@ == joined(texts(parts@).take(i as int), separator@),
        decreases parts@.len() - i,
    {
        proof {
            let front = texts(parts@).take(i + 1);
            assert(front.drop_last() =~= texts(parts@).take(i as int));
            assert(front.last() == parts@[i as int]@);
            if i == 0 {
                assert(text@ + parts@[i as int]@ =~= parts@[i as int]@);
            }
        }
        if i > 0 {
            text.append(separator);
        }
        text.append(parts[i].as_str());
        i = i + 1;
    }
    assert(texts(parts@).take(i as int) =~= texts(parts@));
    text
}

impl Keyboard {
    /// The messages of the errors of the handler that are shown to the
    /// user.
    fn shown(&self, back_errors: &[ViewError]) -> (messages: Vec<String>)
        ensures
            texts(messages@) == shown_errors(back_errors@, self@.last_was_move),
    {
        let mut messages: Vec<String> = Vec::new();
        let mut i: usize = 0;
        assert(back_errors@.take(0) =~= Seq::<ViewError>::empty());
        assert(texts(messages@) =~= Seq::<Seq<char>>::empty());
        while i < back_errors.len()
            invariant
                i <= back_errors@.len(),
                texts(messages@) == shown_errors(
                    back_errors@.take(i as int),
                    self@.last_was_move,
                ),
            decreases back_errors@.len() - i,
        {
            proof {
                let front = back_errors@.take(i + 1);
                assert(front.drop_last() =~= back_errors@.take(i as int));
                assert(front.last() == back_errors@[i as int]);
            }
            if !back_errors[i].is_edge() || self.last_was_move {
                let message = back_errors[i].message();
                proof {
                    lemma_texts_push(messages@, message);
                }
                messages.push(message);
            }
            i = i + 1;
        }
        assert(back_errors@.take(i as int) =~= back_errors@);
        messages
    }

    /// The line that tells the user how things stand.
    pub fn build_status(&self, back_errors: &[ViewError]) -> (status: String)
        ensures
            status@ == status_of(self@, back_errors@),
    {
        let shown = self.shown(back_errors);
        if self.command.len() > 0 {
            "Command: ".to_owned().concat(self.command_text().as_str())
        } else if shown.len() > 0 {
            "Backend error: ".to_owned().concat(join(&shown, ", ").as_str())
        } else if self.errors.len() > 0 {
            "Frontend error: ".to_owned().concat(join(&self.errors, ", ").as_str())
        } else {
            String::new()
        }
    }
}

} // verus!
