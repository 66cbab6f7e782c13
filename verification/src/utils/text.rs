//! Turning bytes of a file into lines of text.

use crate::file_view::motion::NEWLINE;
use crate::utils::algorithm::{
    count_matches, find_nth_or_last, is_nth_or_last, lemma_count_matches_one,
    lemma_count_matches_split,
};
use vstd::prelude::*;
use vstd::utf8::{decode_utf8 as utf8_chars, encode_utf8, valid_utf8};

verus! {

/// The byte that may stand before the end of a line and then belongs to it.
pub const CARRIAGE_RETURN: u8 = 13;

/// The length of a run of bytes that do not form UTF-8 at the end of the
/// data up to which the rest of the data is shown without it.
pub const MAX_BROKEN_TAIL: usize = 4;

/// Whether `n` is the length of the longest front part of `bytes` that is
/// valid UTF-8.
pub open spec fn is_valid_up_to(bytes: Seq<u8>, n: int) -> bool {
    &&& 0 <= n <= bytes.len()
    &&& valid_utf8(bytes.take(n))
    &&& forall|k: int| n < k <= bytes.len() ==> !valid_utf8(#[trigger] bytes.take(k))
}

/// The length of the longest front part of `bytes` that is valid UTF-8.
pub open spec fn valid_prefix_len(bytes: Seq<u8>) -> int {
    choose|n: int| is_valid_up_to(bytes, n)
}

/// There is only one longest valid front part.
pub proof fn lemma_valid_up_to_unique(bytes: Seq<u8>, n: int)
    requires
        is_valid_up_to(bytes, n),
    ensures
        valid_prefix_len(bytes) == n,
{
    let m = valid_prefix_len(bytes);
    assert(is_valid_up_to(bytes, m));
    if m < n {
        assert(!valid_utf8(bytes.take(n)));
    } else if n < m {
        assert(!valid_utf8(bytes.take(m)));
    }
}

/// The text that `String::from_utf8_lossy` makes of the bytes.
pub uninterp spec fn lossy_text(bytes: Seq<u8>) -> Seq<char>;

/// The number of columns that `unicode_width::UnicodeWidthStr::width` gives
/// for the text.
pub uninterp spec fn text_width(text: Seq<char>) -> nat;

/// `std::str::from_utf8` and, where it fails, `Utf8Error::valid_up_to`: the
/// length of the longest front part of the data that is valid UTF-8, which
/// is all of it where the data is valid.
#[verifier::external_body]
fn valid_up_to(data: &[u8]) -> (n: usize)
    ensures
        is_valid_up_to(data@, n as int),
{
    match std::str::from_utf8(data) {
        Ok(_) => data.len(),
        Err(e) => e.valid_up_to(),
    }
}

/// `String::from_utf8_lossy`: the text of the data, in which every run of
/// bytes that is not UTF-8 is replaced by the replacement character. Valid
/// data is decoded as it is.
#[verifier::external_body]
pub(crate) fn lossy_string(data: &[u8]) -> (text: String)
    ensures
        text@ == lossy_text(data@),
        valid_utf8(data@) ==> text@ == utf8_chars(data@),
{
    String::from_utf8_lossy(data).into_owned()
}

/// `unicode_width::UnicodeWidthStr::width`: the number of columns that the
/// text takes on a terminal.
#[verifier::external_body]
pub(crate) fn display_width(text: &str) -> (width: usize)
    ensures
        width == text_width(text@),
{
    unicode_width::UnicodeWidthStr::width(text)
}

/// `num_integer::div_ceil` on `usize`: the quotient, rounded up. The call
/// panics for a zero divisor, which `requires` rules out.
#[verifier::external_body]
fn div_ceil(x: usize, y: usize) -> (q: usize)
    requires
        y > 0,
    ensures
        q == ceil_div(x as nat, y as nat),
{
    num_integer::div_ceil(x, y)
}

/// The quotient of two numbers, rounded up.
pub open spec fn ceil_div(x: nat, y: nat) -> nat {
    if x % y == 0 {
        x / y
    } else {
        x / y + 1
    }
}

/// The text that the bytes are shown as. Valid UTF-8 is decoded as it is.
/// Where only a few bytes at the end are not valid, as happens when the
/// data ends in the middle of a character, the valid part in front of them
/// is decoded; where more are left, every run of bytes that is not UTF-8 is
/// replaced by the replacement character.
pub open spec fn decoded_text(bytes: Seq<u8>) -> Seq<char> {
    let n = valid_prefix_len(bytes);
    if n == bytes.len() {
        utf8_chars(bytes)
    } else if bytes.len() - n > MAX_BROKEN_TAIL {
        lossy_text(bytes)
    } else {
        utf8_chars(bytes.take(n))
    }
}

/// Decodes bytes to the text they are shown as.
pub fn decode_utf8(data: &[u8]) -> (text: String)
    ensures
        text@ == decoded_text(data@),
{
    let n = valid_up_to(data);
    proof {
        lemma_valid_up_to_unique(data@, n as int);
    }
    if n == data.len() {
        assert(data@.take(n as int) =~= data@);
        lossy_string(data)
    } else if data.len() - n > MAX_BROKEN_TAIL {
        lossy_string(data)
    } else {
        let front = &data[0..n];
        assert(front@ =~= data@.take(n as int));
        lossy_string(front)
    }
}

/// The number of bytes in front of the first byte `stop`, or the number of
/// all bytes where there is no such byte.
pub open spec fn run_len(bytes: Seq<u8>, stop: u8) -> nat
    decreases bytes.len(),
{
    if bytes.len() == 0 || bytes[0] == stop {
        0
    } else {
        1 + run_len(bytes.skip(1), stop)
    }
}

/// The number of bytes in front of the first line end, or the number of all
/// bytes where there is no line end.
pub open spec fn line_len(bytes: Seq<u8>) -> nat {
    run_len(bytes, NEWLINE)
}

/// A line without the carriage return at its end, if it has one.
pub open spec fn without_carriage_return(line: Seq<u8>) -> Seq<u8> {
    if line.len() > 0 && line.last() == CARRIAGE_RETURN {
        line.drop_last()
    } else {
        line
    }
}

/// The lines of a run of bytes. A line ends with a line end, which may have
/// a carriage return before it; neither is part of the line. What follows
/// the last line end is a line too, unless it is empty.
pub open spec fn lines_of(bytes: Seq<u8>) -> Seq<Seq<u8>>
    decreases bytes.len(),
{
    if bytes.len() == 0 {
        Seq::empty()
    } else {
        let n = line_len(bytes);
        if n >= bytes.len() {
            seq![bytes]
        } else {
            seq![without_carriage_return(bytes.take(n as int))] + lines_of(
                bytes.skip(n as int + 1),
            )
        }
    }
}

/// The number of lines of a run of bytes that are known to be whole: all
/// but the last one where the bytes do not end with a line end.
pub open spec fn whole_lines(bytes: Seq<u8>) -> nat {
    if bytes.len() > 0 && bytes.last() != NEWLINE {
        (lines_of(bytes).len() - 1) as nat
    } else {
        lines_of(bytes).len()
    }
}

/// The lines of text that a run of bytes of a file is shown as.
pub open spec fn text_lines(bytes: Seq<u8>) -> Seq<Seq<char>> {
    let lines = lines_of(encode_utf8(decoded_text(bytes)));
    Seq::new(lines.len(), |i: int| utf8_chars(lines[i]))
}

/// The number of the lines of text of a run of bytes that are known to be
/// whole.
pub open spec fn whole_text_lines(bytes: Seq<u8>) -> nat {
    whole_lines(encode_utf8(decoded_text(bytes)))
}

/// Whether the whole lines of text of a run of bytes fill a screen of
/// `nlines` rows.
pub open spec fn fills_screen(bytes: Seq<u8>, nlines: usize, ncols: Option<usize>) -> bool {
    clip(
        text_lines(bytes).take(whole_text_lines(bytes) as int),
        0,
        0,
        nlines,
        ncols,
    ) is Some
}

/// The texts of some strings.
pub open spec fn texts(lines: Seq<String>) -> Seq<Seq<char>> {
    Seq::new(lines.len(), |i: int| lines[i]@)
}

/// A run ends where the first byte `stop` stands.
pub proof fn lemma_run_len(bytes: Seq<u8>, stop: u8, found: Option<(usize, usize)>)
    requires
        is_nth_or_last(bytes, stop, 0, found),
    ensures
        match found {
            Some((number, index)) => run_len(bytes, stop) == index,
            None => run_len(bytes, stop) == bytes.len(),
        },
        run_len(bytes, stop) <= bytes.len(),
    decreases bytes.len(),
{
    if bytes.len() > 0 {
        let rest = bytes.skip(1);
        lemma_count_matches_split(bytes, stop, 1);
        assert(bytes.take(1) =~= seq![bytes[0]]);
        lemma_count_matches_one(bytes[0], stop);
        match found {
            Some((number, index)) => {
                if index > 0 {
                    let front = bytes.take(index as int);
                    lemma_count_matches_split(front, stop, 1);
                    assert(front.take(1) =~= seq![bytes[0]]);
                    assert(front.skip(1) =~= rest.take(index - 1));
                    assert(rest.skip(index as int) =~= bytes.skip(index + 1));
                    assert(rest[index - 1] == bytes[index as int]);
                    lemma_run_len(rest, stop, Some((0usize, (index - 1) as usize)));
                }
            },
            None => {
                lemma_run_len(rest, stop, None);
            },
        }
    } else {
        assert(count_matches(bytes, stop) == 0);
    }
}

/// The first line ends where the first line end stands.
pub proof fn lemma_line_len(bytes: Seq<u8>, found: Option<(usize, usize)>)
    requires
        is_nth_or_last(bytes, NEWLINE, 0, found),
    ensures
        match found {
            Some((number, index)) => line_len(bytes) == index,
            None => line_len(bytes) == bytes.len(),
        },
{
    lemma_run_len(bytes, NEWLINE, found);
}

/// Whether the text is empty or ends with a line end.
pub fn ends_with_line_end(text: &str) -> (whole: bool)
    ensures
        whole == (whole_lines(encode_utf8(text@)) == lines_of(encode_utf8(text@)).len()),
{
    let bytes = text.as_bytes();
    bytes.len() == 0 || bytes[bytes.len() - 1] == NEWLINE
}

/// What is left of valid UTF-8 in front of a byte that stands for a
/// character of its own, and behind it, is valid UTF-8.
pub proof fn lemma_valid_around(bytes: Seq<u8>, at: int)
    requires
        valid_utf8(bytes),
        0 <= at < bytes.len(),
        bytes[at] < 0x80,
    ensures
        valid_utf8(bytes.take(at)),
        valid_utf8(bytes.skip(at + 1)),
{
    vstd::utf8::is_char_boundary_iff_not_is_continuation_byte(bytes, at);
    vstd::utf8::utf8_byte_ranges_bitwise(bytes[at]);
    vstd::utf8::valid_utf8_split(bytes, at);
    assert(bytes.subrange(0, at) =~= bytes.take(at));
    let behind = bytes.subrange(at, bytes.len() as int);
    assert(behind[0] == bytes[at]);
    assert(vstd::utf8::length_of_first_scalar(behind) == 1);
    assert(vstd::utf8::pop_first_scalar(behind) =~= bytes.skip(at + 1));
}

/// Splits text into its lines.
pub fn split_lines(text: &str) -> (lines: Vec<String>)
    ensures
        texts(lines@) == Seq::new(
            lines_of(encode_utf8(text@)).len(),
            |i: int| utf8_chars(lines_of(encode_utf8(text@))[i]),
        ),
        lines@.len() == lines_of(encode_utf8(text@)).len(),
{
    let bytes = text.as_bytes();
    let ghost all = lines_of(bytes@);
    let mut lines: Vec<String> = Vec::new();
    let mut pos: usize = 0;
    assert(bytes@.skip(0) =~= bytes@);
    proof {
        vstd::utf8::encode_utf8_valid_utf8(text@);
    }
    while pos < bytes.len()
        invariant
            bytes@ == encode_utf8(text@),
            all == lines_of(bytes@),
            pos <= bytes@.len(),
            valid_utf8(bytes@.skip(pos as int)),
            lines@.len() + lines_of(bytes@.skip(pos as int)).len() == all.len(),
            forall|i: int| 0 <= i < lines@.len() ==> (#[trigger] lines@[i])@ == utf8_chars(all[i]),
            forall|i: int|
                0 <= i < lines_of(bytes@.skip(pos as int)).len() ==> all[lines@.len() + i]
                    == #[trigger] lines_of(bytes@.skip(pos as int))[i],
        decreases bytes@.len() - pos,
    {
        let rest = &bytes[pos..bytes.len()];
        assert(rest@ =~= bytes@.skip(pos as int));
        let ghost tail = lines_of(rest@);
        let found = find_nth_or_last(rest, NEWLINE, 0);
        proof {
            lemma_line_len(rest@, found);
        }
        match found {
            Some((number, index)) => {
                let end = if index > 0 && rest[index - 1] == CARRIAGE_RETURN {
                    index - 1
                } else {
                    index
                };
                let line = &rest[0..end];
                assert(line@ =~= without_carriage_return(rest@.take(index as int)));
                proof {
                    lemma_valid_around(rest@, index as int);
                    if end < index {
                        lemma_valid_around(rest@.take(index as int), end as int);
                        assert(rest@.take(index as int).take(end as int) =~= line@);
                    }
                }
                let ghost next = lines_of(rest@.skip(index as int + 1));
                assert(tail =~= seq![line@] + next);
                assert(rest@.skip(index as int + 1) =~= bytes@.skip(pos + index + 1));
                let ghost done = lines@.len();
                lines.push(lossy_string(line));
                pos = pos + index + 1;
                proof {
                    assert(all[done as int] == tail[0]);
                    assert forall|i: int| 0 <= i < next.len() implies all[lines@.len() + i]
                        == #[trigger] next[i] by {
                        assert(tail[i + 1] == next[i]);
                    }
                }
            },
            None => {
                assert(tail =~= seq![rest@]);
                let ghost done = lines@.len();
                lines.push(lossy_string(rest));
                pos = bytes.len();
                proof {
                    assert(all[done as int] == tail[0]);
                    assert(bytes@.skip(pos as int) =~= Seq::<u8>::empty());
                }
            },
        }
    }
    proof {
        assert(bytes@.skip(pos as int) =~= Seq::<u8>::empty());
        assert(texts(lines@) =~= Seq::new(all.len(), |i: int| utf8_chars(all[i])));
    }
    lines
}

/// The number of rows that a line takes on a screen: one where lines are
/// not wrapped, and as many as it takes to hold the columns of the text
/// where lines are wrapped after `ncols` columns, which is none for an
/// empty line.
pub open spec fn line_height(line: Seq<char>, ncols: Option<usize>) -> nat {
    match ncols {
        Some(cols) => ceil_div(text_width(line), cols as nat),
        None => 1,
    }
}

/// The number of rows that a line takes on a screen.
pub fn height_of(line: &str, ncols: Option<usize>) -> (rows: usize)
    requires
        ncols != Some(0usize),
    ensures
        rows == line_height(line@, ncols),
{
    match ncols {
        Some(cols) => div_ceil(display_width(line), cols),
        None => 1,
    }
}

/// The number of lines that fill a screen of `nlines` rows, counted from
/// line `from` on when the lines before it take `rows` rows: the lines up
/// to the first one with which the rows are all taken, or up to the one
/// before it where that line takes more rows than are left. `None` where
/// all lines together leave rows free.
pub open spec fn clip(
    lines: Seq<Seq<char>>,
    from: nat,
    rows: nat,
    nlines: usize,
    ncols: Option<usize>,
) -> Option<nat>
    decreases lines.len() - from,
{
    if from >= lines.len() {
        None
    } else {
        let taken = rows + line_height(lines[from as int], ncols);
        if taken > nlines {
            Some(from)
        } else if taken == nlines {
            Some(from + 1)
        } else {
            clip(lines, from + 1, taken, nlines, ncols)
        }
    }
}

/// The number of rows that some lines take together.
pub open spec fn total_height(lines: Seq<Seq<char>>, ncols: Option<usize>) -> nat
    decreases lines.len(),
{
    if lines.len() == 0 {
        0
    } else {
        total_height(lines.drop_last(), ncols) + line_height(lines.last(), ncols)
    }
}

/// Whether `shown` is what a screen of `nlines` rows shows of the lines
/// `all`: the lines that fill it, or all lines.
pub open spec fn is_shown(
    shown: Seq<Seq<char>>,
    all: Seq<Seq<char>>,
    nlines: usize,
    ncols: Option<usize>,
) -> bool {
    &&& shown.len() <= all.len()
    &&& shown == all.take(shown.len() as int)
    &&& shown.len() == all.len() || clip(all, 0, 0, nlines, ncols) == Some(shown.len())
}

/// What fills a screen is settled by the lines that fill it: lines that
/// follow them do not change it.
pub proof fn lemma_clip_of_front(
    lines: Seq<Seq<char>>,
    limit: int,
    from: nat,
    rows: nat,
    nlines: usize,
    ncols: Option<usize>,
)
    requires
        0 <= limit <= lines.len(),
        clip(lines.take(limit), from, rows, nlines, ncols) is Some,
    ensures
        clip(lines, from, rows, nlines, ncols)
            == clip(lines.take(limit), from, rows, nlines, ncols),
    decreases limit - from,
{
    let front = lines.take(limit);
    if from < front.len() {
        assert(front[from as int] == lines[from as int]);
        let taken = rows + line_height(lines[from as int], ncols);
        if taken < nlines {
            lemma_clip_of_front(lines, limit, from + 1, taken, nlines, ncols);
        }
    }
}

/// The number of the first `limit` lines that fill a screen of `nlines`
/// rows, if they fill it.
pub fn clip_count(lines: &Vec<String>, limit: usize, nlines: usize, ncols: Option<usize>) -> (count:
    Option<usize>)
    requires
        ncols != Some(0usize),
        limit <= lines@.len(),
    ensures
        clip(texts(lines@).take(limit as int), 0, 0, nlines, ncols) == match count {
            Some(k) => Some(k as nat),
            None => None,
        },
        count matches Some(k) ==> k <= limit,
        count is Some ==> clip(texts(lines@), 0, 0, nlines, ncols) == clip(
            texts(lines@).take(limit as int),
            0,
            0,
            nlines,
            ncols,
        ),
{
    let ghost front = texts(lines@).take(limit as int);
    let mut rows: usize = 0;
    let mut i: usize = 0;
    while i < limit
        invariant
            ncols != Some(0usize),
            i <= limit <= lines@.len(),
            front == texts(lines@).take(limit as int),
            rows < nlines || i == 0 && rows == 0,
            clip(front, 0, 0, nlines, ncols) == clip(front, i as nat, rows as nat, nlines, ncols),
        decreases limit - i,
    {
        let height = height_of(lines[i].as_str(), ncols);
        assert(front[i as int] == lines@[i as int]@);
        if height > nlines - rows {
            proof {
                lemma_clip_of_front(texts(lines@), limit as int, 0, 0, nlines, ncols);
            }
            return Some(i);
        }
        if height == nlines - rows {
            proof {
                lemma_clip_of_front(texts(lines@), limit as int, 0, 0, nlines, ncols);
            }
            return Some(i + 1);
        }
        rows = rows + height;
        i = i + 1;
    }
    None
}

/// The number of rows that the lines take together.
pub fn rows_of(lines: &Vec<String>, ncols: Option<usize>) -> (rows: u128)
    requires
        ncols != Some(0usize),
    ensures
        rows == total_height(texts(lines@), ncols),
{
    let mut rows: u128 = 0;
    let mut i: usize = 0;
    assert(texts(lines@).take(0) =~= Seq::<Seq<char>>::empty());
    while i < lines.len()
        invariant
            ncols != Some(0usize),
            i <= lines@.len(),
            rows == total_height(texts(lines@).take(i as int), ncols),
            rows <= i * usize::MAX,
        decreases lines@.len() - i,
    {
        let height = height_of(lines[i].as_str(), ncols);
        proof {
            let front = texts(lines@).take(i + 1);
            assert(front.drop_last() =~= texts(lines@).take(i as int));
            assert(front.last() == lines@[i as int]@);
            assert((i + 1) * usize::MAX == i * usize::MAX + usize::MAX) by (nonlinear_arith);
            assert(i * usize::MAX <= usize::MAX * usize::MAX) by (nonlinear_arith)
                requires
                    i <= usize::MAX,
            ;
            assert(usize::MAX * usize::MAX <= 0xffff_ffff_ffff_ffff * 0xffff_ffff_ffff_ffff)
                by (nonlinear_arith)
                requires
                    usize::MAX <= 0xffff_ffff_ffff_ffff,
            ;
        }
        rows = rows + height as u128;
        i = i + 1;
    }
    assert(texts(lines@).take(i as int) =~= texts(lines@));
    rows
}

/// The byte that moves the text behind it to the next tab stop.
pub const TAB: u8 = 9;

/// The byte that a tab is filled up with.
pub const SPACE: u8 = 32;

/// Whether a byte of UTF-8 starts a character.
pub open spec fn starts_char(byte: u8) -> bool {
    byte < 0x80 || byte >= 0xc0
}

/// The number of characters that some bytes of UTF-8 stand for.
pub open spec fn char_count(bytes: Seq<u8>) -> nat
    decreases bytes.len(),
{
    if bytes.len() == 0 {
        0
    } else {
        char_count(bytes.drop_last()) + if starts_char(bytes.last()) {
            1nat
        } else {
            0nat
        }
    }
}

/// The number of columns up to the first tab stop behind a piece of text of
/// `len` bytes, where the tab stops are `tab_width` columns apart.
pub open spec fn padded_width(len: nat, tab_width: nat) -> nat {
    ceil_div(len + 1, tab_width) * tab_width
}

/// A run of spaces.
pub open spec fn spaces(n: nat) -> Seq<u8> {
    Seq::new(n, |i: int| SPACE)
}

/// A piece of text filled up with spaces to the first tab stop behind it.
/// The tab stop is reckoned from the bytes of the piece and the spaces from
/// its characters.
pub open spec fn padded(part: Seq<u8>, tab_width: nat) -> Seq<u8> {
    part + spaces((padded_width(part.len(), tab_width) - char_count(part)) as nat)
}

/// The bytes of a line in which each piece of text between two tabs, and
/// the pieces before the first and behind the last tab, are filled up to
/// the next tab stop, and the tabs are gone.
pub open spec fn expand_parts(bytes: Seq<u8>, tab_width: nat) -> Seq<u8>
    decreases bytes.len(),
{
    let n = run_len(bytes, TAB);
    if n >= bytes.len() {
        padded(bytes, tab_width)
    } else {
        padded(bytes.take(n as int), tab_width) + expand_parts(bytes.skip(n as int + 1), tab_width)
    }
}

/// The bytes of a line without its tabs.
pub open spec fn without_tabs(bytes: Seq<u8>) -> Seq<u8>
    decreases bytes.len(),
{
    if bytes.len() == 0 {
        Seq::empty()
    } else if bytes.last() == TAB {
        without_tabs(bytes.drop_last())
    } else {
        without_tabs(bytes.drop_last()).push(bytes.last())
    }
}

/// The bytes of a line with its tabs expanded: a line without a tab stays
/// as it is, a tab width of zero takes the tabs out, and any other tab
/// width fills the text up to the tab stops.
pub open spec fn expanded_line(bytes: Seq<u8>, tab_width: nat) -> Seq<u8> {
    if run_len(bytes, TAB) >= bytes.len() {
        bytes
    } else if tab_width == 0 {
        without_tabs(bytes)
    } else {
        expand_parts(bytes, tab_width)
    }
}

/// The tab stop behind a piece of text lies behind the text and at most
/// one tab width behind it.
pub proof fn lemma_padded_width(len: nat, tab_width: nat)
    requires
        tab_width > 0,
    ensures
        len < padded_width(len, tab_width) <= len + tab_width,
{
    let x = (len + 1) as int;
    let y = tab_width as int;
    let q = x / y;
    let r = x % y;
    assert(x == q * y + r && 0 <= r < y) by (nonlinear_arith)
        requires
            y > 0,
            q == x / y,
            r == x % y,
    ;
    if r == 0 {
        assert(ceil_div(x as nat, tab_width) == q);
    } else {
        assert(ceil_div(x as nat, tab_width) == q + 1);
        assert((q + 1) * y == q * y + y) by (nonlinear_arith);
    }
}

/// There are no more characters than bytes.
pub proof fn lemma_char_count_bound(bytes: Seq<u8>)
    ensures
        char_count(bytes) <= bytes.len(),
    decreases bytes.len(),
{
    if bytes.len() > 0 {
        lemma_char_count_bound(bytes.drop_last());
    }
}

/// The number of characters that the bytes stand for.
fn count_chars(bytes: &[u8]) -> (count: usize)
    ensures
        count == char_count(bytes@),
{
    let mut count: usize = 0;
    let mut i: usize = 0;
    assert(bytes@.take(0) =~= Seq::<u8>::empty());
    while i < bytes.len()
        invariant
            i <= bytes@.len(),
            count <= i,
            count == char_count(bytes@.take(i as int)),
        decreases bytes@.len() - i,
    {
        assert(bytes@.take(i + 1).drop_last() =~= bytes@.take(i as int));
        if bytes[i] < 0x80 || bytes[i] >= 0xc0 {
            count = count + 1;
        }
        i = i + 1;
    }
    assert(bytes@.take(i as int) =~= bytes@);
    count
}

/// A run of spaces is valid UTF-8.
pub proof fn lemma_spaces_valid(n: nat)
    ensures
        valid_utf8(spaces(n)),
    decreases n,
{
    if n == 0 {
        assert(spaces(0).len() == 0);
    } else {
        lemma_spaces_valid((n - 1) as nat);
        let one = seq![SPACE];
        vstd::utf8::utf8_byte_ranges_bitwise(SPACE);
        assert(vstd::utf8::length_of_first_scalar(one) == 1);
        assert(vstd::utf8::pop_first_scalar(one) =~= Seq::<u8>::empty());
        assert(valid_utf8(Seq::<u8>::empty()));
        assert(valid_utf8(one));
        vstd::utf8::valid_utf8_concat(one, spaces((n - 1) as nat));
        assert(one + spaces((n - 1) as nat) =~= spaces(n));
    }
}

/// A valid piece of text filled up with spaces is valid UTF-8.
pub proof fn lemma_padded_valid(part: Seq<u8>, tab_width: nat)
    requires
        valid_utf8(part),
    ensures
        valid_utf8(padded(part, tab_width)),
{
    let fill = (padded_width(part.len(), tab_width) - char_count(part)) as nat;
    lemma_spaces_valid(fill);
    vstd::utf8::valid_utf8_concat(part, spaces(fill));
}

/// Puts `part` and the spaces up to the next tab stop behind `out`.
fn push_padded(out: &mut Vec<u8>, part: &[u8], tab_width: usize)
    requires
        tab_width > 0,
        part@.len() + tab_width <= usize::MAX,
    ensures
        final(out)@ == old(out)@ + padded(part@, tab_width as nat),
{
    proof {
        lemma_padded_width(part@.len(), tab_width as nat);
        lemma_char_count_bound(part@);
    }
    let ghost before = out@;
    let mut i: usize = 0;
    while i < part.len()
        invariant
            i <= part@.len(),
            out@ == before + part@.take(i as int),
        decreases part@.len() - i,
    {
        out.push(part[i]);
        assert(out@ =~= before + part@.take(i + 1));
        i = i + 1;
    }
    assert(part@.take(i as int) =~= part@);
    let stops = div_ceil(part.len() + 1, tab_width);
    let width = stops * tab_width;
    let fill = width - count_chars(part);
    let mut k: usize = 0;
    while k < fill
        invariant
            k <= fill,
            out@ == before + part@ + spaces(k as nat),
        decreases fill - k,
    {
        out.push(SPACE);
        assert(out@ =~= before + part@ + spaces((k + 1) as nat));
        k = k + 1;
    }
    assert(out@ =~= before + padded(part@, tab_width as nat));
}

/// The bytes of a line with its tabs expanded.
fn expand_bytes(bytes: &[u8], tab_width: usize) -> (out: Vec<u8>)
    requires
        bytes@.len() + tab_width <= usize::MAX,
    ensures
        out@ == expanded_line(bytes@, tab_width as nat),
        valid_utf8(bytes@) ==> valid_utf8(out@),
{
    let first = find_nth_or_last(bytes, TAB, 0);
    proof {
        lemma_run_len(bytes@, TAB, first);
    }
    let mut out: Vec<u8> = Vec::new();
    if first.is_none() {
        let mut i: usize = 0;
        while i < bytes.len()
            invariant
                i <= bytes@.len(),
                out@ == bytes@.take(i as int),
            decreases bytes@.len() - i,
        {
            out.push(bytes[i]);
            assert(out@ =~= bytes@.take(i + 1));
            i = i + 1;
        }
        assert(bytes@.take(i as int) =~= bytes@);
        return out;
    }
    if tab_width == 0 {
        let mut i: usize = 0;
        assert(bytes@.take(0) =~= Seq::<u8>::empty());
        assert(out@ + bytes@.skip(0) =~= bytes@);
        while i < bytes.len()
            invariant
                i <= bytes@.len(),
                out@ == without_tabs(bytes@.take(i as int)),
                valid_utf8(bytes@) ==> valid_utf8(out@ + bytes@.skip(i as int)),
            decreases bytes@.len() - i,
        {
            let ghost kept = out@;
            proof {
                let front = bytes@.take(i + 1);
                assert(front.drop_last() =~= bytes@.take(i as int));
            }
            if bytes[i] != TAB {
                out.push(bytes[i]);
                assert(out@ + bytes@.skip(i + 1) =~= kept + bytes@.skip(i as int));
            } else {
                proof {
                    if valid_utf8(bytes@) {
                        let joined = kept + bytes@.skip(i as int);
                        lemma_valid_around(joined, kept.len() as int);
                        assert(joined.take(kept.len() as int) =~= kept);
                        assert(joined.skip(kept.len() as int + 1) =~= bytes@.skip(i + 1));
                        vstd::utf8::valid_utf8_concat(kept, bytes@.skip(i + 1));
                    }
                }
            }
            i = i + 1;
        }
        assert(bytes@.take(i as int) =~= bytes@);
        assert(out@ + bytes@.skip(i as int) =~= out@);
        return out;
    }
    let mut pos: usize = 0;
    let mut done = false;
    assert(bytes@.skip(0) =~= bytes@);
    while !done
        invariant
            tab_width > 0,
            bytes@.len() + tab_width <= usize::MAX,
            pos <= bytes@.len(),
            !done ==> out@ + expand_parts(bytes@.skip(pos as int), tab_width as nat)
                == expand_parts(bytes@, tab_width as nat),
            done ==> out@ == expand_parts(bytes@, tab_width as nat),
            valid_utf8(bytes@) ==> valid_utf8(out@) && valid_utf8(bytes@.skip(pos as int)),
        decreases
                (if done {
                    0int
                } else {
                    1int
                }),
                bytes@.len() - pos,
    {
        let rest = &bytes[pos..bytes.len()];
        assert(rest@ =~= bytes@.skip(pos as int));
        let found = find_nth_or_last(rest, TAB, 0);
        proof {
            lemma_run_len(rest@, TAB, found);
        }
        let ghost before = out@;
        match found {
            Some((number, index)) => {
                let part = &rest[0..index];
                assert(part@ =~= rest@.take(index as int));
                push_padded(&mut out, part, tab_width);
                proof {
                    assert(rest@.skip(index as int + 1) =~= bytes@.skip(pos + index + 1));
                    if valid_utf8(bytes@) {
                        lemma_valid_around(rest@, index as int);
                        lemma_padded_valid(part@, tab_width as nat);
                        vstd::utf8::valid_utf8_concat(before, padded(part@, tab_width as nat));
                    }
                    let tail = expand_parts(rest@.skip(index as int + 1), tab_width as nat);
                    assert(before + (padded(part@, tab_width as nat) + tail) =~= (before + padded(
                        part@,
                        tab_width as nat,
                    )) + tail);
                }
                pos = pos + index + 1;
            },
            None => {
                push_padded(&mut out, rest, tab_width);
                proof {
                    if valid_utf8(bytes@) {
                        lemma_padded_valid(rest@, tab_width as nat);
                        vstd::utf8::valid_utf8_concat(before, padded(rest@, tab_width as nat));
                    }
                }
                done = true;
            },
        }
    }
    out
}

/// The text of a line with its tabs expanded to tab stops that are
/// `tab_width` columns apart. A line without a tab stays as it is, and a tab
/// width of zero takes the tabs out.
pub fn expand_tabs(line: &str, tab_width: usize) -> (expanded: String)
    requires
        encode_utf8(line@).len() + tab_width <= usize::MAX,
    ensures
        expanded@ == utf8_chars(expanded_line(encode_utf8(line@), tab_width as nat)),
{
    proof {
        vstd::utf8::encode_utf8_valid_utf8(line@);
    }
    let out = expand_bytes(line.as_bytes(), tab_width);
    lossy_string(out.as_slice())
}

/// Whether each of the lines leaves room for a tab stop behind it.
pub open spec fn lines_fit(lines: Seq<String>, tab_width: usize) -> bool {
    forall|i: int|
        0 <= i < lines.len() ==> encode_utf8((#[trigger] lines[i])@).len() + tab_width
            <= usize::MAX
}

/// Whether each of the lines leaves room for a tab stop behind it.
pub fn tabs_fit(lines: &Vec<String>, tab_width: usize) -> (fit: bool)
    ensures
        fit == lines_fit(lines@, tab_width),
{
    let mut i: usize = 0;
    while i < lines.len()
        invariant
            i <= lines@.len(),
            forall|k: int|
                0 <= k < i ==> encode_utf8((#[trigger] lines@[k])@).len() + tab_width
                    <= usize::MAX,
        decreases lines@.len() - i,
    {
        let len = lines[i].as_str().as_bytes().len();
        if len > usize::MAX - tab_width {
            return false;
        }
        i = i + 1;
    }
    true
}

/// The lines with their tabs expanded to tab stops that are `tab_width`
/// columns apart.
pub fn convert_tabs(lines: Vec<String>, tab_width: usize) -> (converted: Vec<String>)
    requires
        lines_fit(lines@, tab_width),
    ensures
        converted@.len() == lines@.len(),
        forall|i: int|
            0 <= i < lines@.len() ==> (#[trigger] converted@[i])@ == utf8_chars(
                expanded_line(encode_utf8(lines@[i]@), tab_width as nat),
            ),
{
    let mut converted: Vec<String> = Vec::new();
    let mut i: usize = 0;
    while i < lines.len()
        invariant
            i <= lines@.len(),
            lines_fit(lines@, tab_width),
            converted@.len() == i,
            forall|k: int|
                0 <= k < i ==> (#[trigger] converted@[k])@ == utf8_chars(
                    expanded_line(encode_utf8(lines@[k]@), tab_width as nat),
                ),
        decreases lines@.len() - i,
    {
        converted.push(expand_tabs(lines[i].as_str(), tab_width));
        i = i + 1;
    }
    converted
}

} // verus!
