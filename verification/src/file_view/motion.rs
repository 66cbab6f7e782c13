//! What it means for a cursor to have moved by whole lines through a stream
//! of bytes that is only partly loaded.

use crate::utils::algorithm::{count_matches, lemma_count_matches_one, lemma_count_matches_split};
use vstd::prelude::*;

verus! {

/// The byte that ends a line.
pub const NEWLINE: u8 = 10;

/// The number of line ends in a run of bytes.
pub open spec fn newlines(bytes: Seq<u8>) -> nat {
    count_matches(bytes, NEWLINE)
}

/// The line number `delta` lines away from `line`. It is unknown where
/// `line` is unknown, and where the number leaves the range of numbers that
/// a cursor can hold.
pub open spec fn shifted_line(line: Option<i64>, delta: int) -> Option<i64> {
    match line {
        Some(x) => if i64::MIN <= x + delta <= i64::MAX {
            Some((x + delta) as i64)
        } else {
            None
        },
        None => None,
    }
}

/// Whether a cursor moved down by `count` lines. `before` are the bytes that
/// lay below the cursor when it set out, `loaded` the bytes that were loaded
/// behind them on the way, and `after` the bytes that lie below the cursor
/// now. The cursor passed exactly `count` line ends, and it rests right
/// behind the last of them unless it did not move at all.
pub open spec fn moved_down(before: Seq<u8>, loaded: Seq<u8>, after: Seq<u8>, count: nat) -> bool {
    let stream = before + loaded;
    let cut = stream.len() - after.len();
    &&& 0 <= cut
    &&& stream.skip(cut) == after
    &&& newlines(stream.take(cut)) == count
    &&& cut > 0 ==> stream[cut - 1] == NEWLINE
}

/// Whether a cursor moved up by `count` lines. `before` are the bytes that
/// lay above the cursor when it set out, `loaded` the bytes that were loaded
/// in front of them on the way, and `after` the bytes that lie above the
/// cursor now. Leaving aside the byte right above the place where it set
/// out, which is the end of the line before, the cursor passed `count - 1`
/// line ends, and it rests behind a line end or at the very start.
pub open spec fn moved_up(before: Seq<u8>, loaded: Seq<u8>, after: Seq<u8>, count: nat) -> bool {
    let stream = loaded + before;
    let cut = after.len() as int;
    &&& cut <= stream.len()
    &&& stream.take(cut) == after
    &&& count == 0 ==> cut == stream.len()
    &&& count > 0 ==> {
        &&& cut < stream.len()
        &&& newlines(stream.subrange(cut, stream.len() - 1)) == count - 1
        &&& cut > 0 ==> stream[cut - 1] == NEWLINE
    }
}

/// The number of loads in a row after which a motion gives up for want of
/// a line end: each of them brought data, and before each of them the data
/// held no line end for the motion to go to.
pub const IDLE_LOADS: usize = 9;

/// What holds of the data below the cursor where a motion down gives up
/// for want of a line end: the data is that long, and no line end lies in
/// it before the last load.
pub open spec fn stalled_down(below: Seq<u8>) -> bool {
    &&& below.len() >= IDLE_LOADS
    &&& newlines(below.take(IDLE_LOADS - 1)) == 0
}

/// What holds of the data above the cursor where a motion up gives up for
/// want of a line end: the data is that long, and no line end lies in what
/// was there before the last load, leaving aside the byte right above the
/// cursor.
pub open spec fn stalled_up(above: Seq<u8>) -> bool {
    &&& above.len() >= IDLE_LOADS
    &&& newlines(above.subrange(above.len() - IDLE_LOADS + 1, above.len() - 1)) == 0
}

/// What holds of the data above the cursor where setting the cursor back
/// to the start of its line gives up for want of a line end: the data is
/// that long, and no line end lies in what was there before the last load.
pub open spec fn stalled_align(above: Seq<u8>) -> bool {
    &&& above.len() >= IDLE_LOADS
    &&& newlines(above.skip(above.len() - IDLE_LOADS + 1)) == 0
}

/// A stretch at the front of bytes without a line end holds none.
pub proof fn lemma_quiet_front(bytes: Seq<u8>, quiet: int, shorter: int)
    requires
        0 <= shorter <= quiet <= bytes.len(),
        newlines(bytes.take(quiet)) == 0,
    ensures
        newlines(bytes.take(shorter)) == 0,
{
    lemma_count_matches_split(bytes.take(quiet), NEWLINE, shorter);
    assert(bytes.take(quiet).take(shorter) =~= bytes.take(shorter));
}

/// A stretch at the back of bytes without a line end holds none.
pub proof fn lemma_quiet_back(bytes: Seq<u8>, from: int, later: int, end: int)
    requires
        0 <= from <= later <= end <= bytes.len(),
        newlines(bytes.subrange(from, end)) == 0,
    ensures
        newlines(bytes.subrange(later, end)) == 0,
{
    lemma_count_matches_split(bytes.subrange(from, end), NEWLINE, later - from);
    assert(bytes.subrange(from, end).skip(later - from) =~= bytes.subrange(later, end));
}

/// Whether a cursor was set back to the start of the line it stood in:
/// no line end lies between the place it rests at and the place it set out
/// from, and it rests behind a line end or at the very start.
pub open spec fn aligned_up(before: Seq<u8>, loaded: Seq<u8>, after: Seq<u8>) -> bool {
    let stream = loaded + before;
    let cut = after.len() as int;
    &&& cut <= stream.len()
    &&& stream.take(cut) == after
    &&& newlines(stream.skip(cut)) == 0
    &&& cut > 0 ==> stream[cut - 1] == NEWLINE
}

/// The start of the line found by looking back for the last line end in
/// the bytes above the cursor.
pub proof fn lemma_aligned_found(before: Seq<u8>, loaded: Seq<u8>, above: Seq<u8>, pos: int)
    requires
        above == loaded + before,
        0 <= pos < above.len(),
        above[pos] == NEWLINE,
        newlines(above.skip(pos + 1)) == 0,
    ensures
        aligned_up(before, loaded, above.take(pos + 1)),
{
    let stream = loaded + before;
    assert(stream.take(pos + 1) =~= above.take(pos + 1));
}

/// The very start as the start of a line, where no line end lies above the
/// cursor.
pub proof fn lemma_aligned_start(before: Seq<u8>, loaded: Seq<u8>, above: Seq<u8>)
    requires
        above == loaded + before,
        newlines(above) == 0,
    ensures
        aligned_up(before, loaded, Seq::<u8>::empty()),
{
    let stream = loaded + before;
    assert(stream.skip(0) =~= stream);
    assert(stream.take(0) =~= Seq::<u8>::empty());
}

/// Shifting a line number twice in the same direction is shifting it once
/// by the sum.
pub proof fn lemma_shifted_line_twice(line: Option<i64>, a: int, b: int)
    requires
        (a >= 0 && b >= 0) || (a <= 0 && b <= 0),
    ensures
        shifted_line(shifted_line(line, a), b) == shifted_line(line, a + b),
{
}

/// A cursor that has not moved.
pub proof fn lemma_not_moved(bytes: Seq<u8>)
    ensures
        moved_down(bytes, Seq::<u8>::empty(), bytes, 0),
        moved_up(bytes, Seq::<u8>::empty(), bytes, 0),
{
    let stream = bytes + Seq::<u8>::empty();
    assert(stream =~= bytes);
    assert(stream.skip(0) =~= bytes);
    assert(stream.take(0) =~= Seq::<u8>::empty());
    let up_stream = Seq::<u8>::empty() + bytes;
    assert(up_stream =~= bytes);
    assert(up_stream.take(bytes.len() as int) =~= bytes);
}

/// The cursor passes `nth + 1` more line ends inside the bytes below it.
pub proof fn lemma_down_step(
    before: Seq<u8>,
    loaded: Seq<u8>,
    below: Seq<u8>,
    count: nat,
    nth: nat,
    pos: int,
)
    requires
        moved_down(before, loaded, below, count),
        0 <= pos < below.len(),
        below[pos] == NEWLINE,
        newlines(below.take(pos)) == nth,
    ensures
        moved_down(before, loaded, below.skip(pos + 1), count + nth + 1),
{
    let stream = before + loaded;
    let cut = stream.len() - below.len();
    let next = cut + pos + 1;
    assert(stream.skip(next) =~= below.skip(pos + 1));
    let passed = stream.take(next);
    lemma_count_matches_split(passed, NEWLINE, cut);
    assert(passed.take(cut) =~= stream.take(cut));
    assert(passed.skip(cut) =~= below.take(pos + 1));
    lemma_count_matches_split(below.take(pos + 1), NEWLINE, pos);
    assert(below.take(pos + 1).take(pos) =~= below.take(pos));
    assert(below.take(pos + 1).skip(pos) =~= seq![below[pos]]);
    lemma_count_matches_one(below[pos], NEWLINE);
    assert(stream[next - 1] == below[pos]);
}

/// More bytes were loaded below the cursor.
pub proof fn lemma_down_load(
    before: Seq<u8>,
    loaded: Seq<u8>,
    below: Seq<u8>,
    count: nat,
    grown: Seq<u8>,
)
    requires
        moved_down(before, loaded, below, count),
        grown.len() >= below.len(),
        grown.take(below.len() as int) == below,
    ensures
        moved_down(before, loaded + grown.skip(below.len() as int), grown, count),
{
    let stream = before + loaded;
    let cut = stream.len() - below.len();
    let more = grown.skip(below.len() as int);
    let longer = before + (loaded + more);
    assert(longer =~= stream + more);
    assert(grown =~= below + more);
    assert(longer.skip(cut) =~= grown);
    assert(longer.take(cut) =~= stream.take(cut));
}

/// Bytes below the cursor that hold enough line ends for a motion keep the
/// cursor from loading any.
pub proof fn lemma_down_enough(
    before: Seq<u8>,
    loaded: Seq<u8>,
    below: Seq<u8>,
    count: nat,
)
    requires
        moved_down(before, loaded, below, count),
        loaded.len() == 0,
    ensures
        newlines(before) == count + newlines(below),
{
    let stream = before + loaded;
    assert(stream =~= before);
    let cut = stream.len() - below.len();
    lemma_count_matches_split(before, NEWLINE, cut);
}

/// The cursor passes `nth + 1` more lines inside the bytes above it.
pub proof fn lemma_up_step(
    before: Seq<u8>,
    loaded: Seq<u8>,
    above: Seq<u8>,
    count: nat,
    nth: nat,
    pos: int,
)
    requires
        moved_up(before, loaded, above, count),
        0 <= pos < above.len() - 1,
        above[pos] == NEWLINE,
        newlines(above.subrange(pos + 1, above.len() - 1)) == nth,
    ensures
        moved_up(before, loaded, above.take(pos + 1), count + nth + 1),
{
    let stream = loaded + before;
    let cut = above.len() as int;
    let next = pos + 1;
    assert(stream.take(next) =~= above.take(pos + 1));
    assert(stream[next - 1] == above[pos]);
    if count == 0 {
        assert(stream.subrange(next, stream.len() - 1) =~= above.subrange(pos
            + 1, above.len() - 1));
    } else {
        let passed = stream.subrange(next, stream.len() - 1);
        lemma_count_matches_split(passed, NEWLINE, cut - next);
        assert(passed.skip(cut - next) =~= stream.subrange(cut, stream.len() - 1));
        let inner = passed.take(cut - next);
        assert(inner =~= above.subrange(pos + 1, cut));
        lemma_count_matches_split(inner, NEWLINE, cut - 1 - next);
        assert(inner.take(cut - 1 - next) =~= above.subrange(pos + 1, above.len() - 1));
        assert(inner.skip(cut - 1 - next) =~= seq![above[cut - 1]]);
        assert(above[cut - 1] == stream[cut - 1]);
        lemma_count_matches_one(above[cut - 1], NEWLINE);
    }
}

/// The cursor passes the one line that is left above it and rests at the
/// very start.
pub proof fn lemma_up_to_start(before: Seq<u8>, loaded: Seq<u8>, above: Seq<u8>, count: nat)
    requires
        moved_up(before, loaded, above, count),
        above.len() > 0,
        newlines(above.drop_last()) == 0,
    ensures
        moved_up(before, loaded, Seq::<u8>::empty(), count + 1),
{
    let stream = loaded + before;
    let cut = above.len() as int;
    assert(stream.take(0) =~= Seq::<u8>::empty());
    if count == 0 {
        assert(stream.subrange(0, stream.len() - 1) =~= above.drop_last());
    } else {
        let passed = stream.subrange(0, stream.len() - 1);
        lemma_count_matches_split(passed, NEWLINE, cut);
        assert(passed.skip(cut) =~= stream.subrange(cut, stream.len() - 1));
        let inner = passed.take(cut);
        assert(inner =~= above);
        lemma_count_matches_split(above, NEWLINE, cut - 1);
        assert(above.take(cut - 1) =~= above.drop_last());
        assert(above.skip(cut - 1) =~= seq![above[cut - 1]]);
        assert(above[cut - 1] == stream[cut - 1]);
        lemma_count_matches_one(above[cut - 1], NEWLINE);
    }
}

/// More bytes were loaded above the cursor.
pub proof fn lemma_up_load(
    before: Seq<u8>,
    loaded: Seq<u8>,
    above: Seq<u8>,
    count: nat,
    grown: Seq<u8>,
)
    requires
        moved_up(before, loaded, above, count),
        count > 0 ==> above.len() > 0,
        grown.len() >= above.len(),
        grown.skip(grown.len() - above.len()) == above,
    ensures
        moved_up(before, grown.take(grown.len() - above.len()) + loaded, grown, count),
{
    let stream = loaded + before;
    let cut = above.len() as int;
    let more = grown.take(grown.len() - above.len());
    let longer = (more + loaded) + before;
    assert(longer =~= more + stream);
    assert(grown =~= more + above);
    assert(longer.take(more.len() + cut) =~= grown);
    if count > 0 {
        assert(longer.subrange(more.len() + cut, longer.len() - 1) =~= stream.subrange(
            cut,
            stream.len() - 1,
        ));
        assert(longer[more.len() + cut - 1] == stream[cut - 1]);
    }
}

/// As long as nothing was loaded, the line ends that the cursor has still
/// above it and those it passed are the line ends that lay above it when it
/// set out.
pub proof fn lemma_up_enough(before: Seq<u8>, loaded: Seq<u8>, above: Seq<u8>, count: nat)
    requires
        moved_up(before, loaded, above, count),
        loaded.len() == 0,
        above.len() > 0 ==> newlines(above.drop_last()) == 0,
    ensures
        before.len() > 0 ==> newlines(before.drop_last()) <= count,
{
    let stream = loaded + before;
    assert(stream =~= before);
    let cut = above.len() as int;
    if before.len() > 0 {
        if count == 0 {
            assert(above =~= before);
        } else if cut == 0 {
            assert(stream.subrange(0, stream.len() - 1) =~= before.drop_last());
        } else {
            let rest = before.drop_last();
            lemma_count_matches_split(rest, NEWLINE, cut);
            assert(rest.skip(cut) =~= stream.subrange(cut, stream.len() - 1));
            assert(rest.take(cut) =~= above);
            lemma_count_matches_split(above, NEWLINE, cut - 1);
            assert(above.take(cut - 1) =~= above.drop_last());
            assert(above.skip(cut - 1) =~= seq![above[cut - 1]]);
            assert(above[cut - 1] == stream[cut - 1]);
            lemma_count_matches_one(above[cut - 1], NEWLINE);
        }
    }
}

/// Going up by some lines inside the data and then down by as many leads
/// back to the line that the cursor set out from, if it stood at the start
/// of a line there.
///
/// `data` is the data of the buffer, `origin` the offset of the cursor
/// before the two motions, `upper` its offset between them and `back` its
/// offset after them.
pub proof fn lemma_up_then_down_returns(
    data: Seq<u8>,
    origin: int,
    upper: int,
    back: int,
    lines: nat,
)
    requires
        lines > 0,
        0 <= upper <= origin <= data.len(),
        0 <= back <= data.len(),
        origin > 0 && data[origin - 1] == NEWLINE,
        moved_up(data.take(origin), Seq::<u8>::empty(), data.take(upper), lines),
        moved_down(data.skip(upper), Seq::<u8>::empty(), data.skip(back), lines),
    ensures
        back == origin,
{
    let up_stream = Seq::<u8>::empty() + data.take(origin);
    assert(up_stream =~= data.take(origin));
    let down_stream = data.skip(upper) + Seq::<u8>::empty();
    assert(down_stream =~= data.skip(upper));
    let cut = back - upper;
    assert(cut == down_stream.len() - data.skip(back).len());
    // The line ends between the upper place and the place of origin.
    let between = data.subrange(upper, origin);
    assert(up_stream.subrange(upper, origin - 1) =~= between.drop_last());
    assert(between.last() == data[origin - 1]);
    lemma_count_matches_split(between, NEWLINE, between.len() - 1);
    assert(between.take(between.len() - 1) =~= between.drop_last());
    assert(between.skip(between.len() - 1) =~= seq![between.last()]);
    lemma_count_matches_one(between.last(), NEWLINE);
    assert(newlines(between) == lines);
    // The line ends that the way down passed.
    let passed = down_stream.take(cut);
    assert(passed =~= data.subrange(upper, back));
    assert(newlines(passed) == lines);
    assert(cut > 0) by {
        if cut == 0 {
            assert(passed =~= Seq::<u8>::empty());
        }
    }
    assert(data[back - 1] == NEWLINE) by {
        assert(down_stream[cut - 1] == data[back - 1]);
    }
    if back < origin {
        lemma_count_matches_split(between, NEWLINE, cut);
        assert(between.take(cut) =~= passed);
        let rest = between.skip(cut);
        lemma_count_matches_split(rest, NEWLINE, rest.len() - 1);
        assert(rest.skip(rest.len() - 1) =~= seq![data[origin - 1]]);
        lemma_count_matches_one(data[origin - 1], NEWLINE);
    } else if back > origin {
        lemma_count_matches_split(passed, NEWLINE, origin - upper);
        assert(passed.take(origin - upper) =~= between);
        let rest = passed.skip(origin - upper);
        lemma_count_matches_split(rest, NEWLINE, rest.len() - 1);
        assert(rest.skip(rest.len() - 1) =~= seq![data[back - 1]]);
        lemma_count_matches_one(data[back - 1], NEWLINE);
    }
}

/// Whether `to` is a place in the file that a cursor can have gone down to
/// from `from`: it lies behind `from`, and right behind a line end unless it
/// is `from` itself.
pub open spec fn went_down(file: Seq<u8>, from: int, to: int) -> bool {
    &&& 0 <= from <= to <= file.len()
    &&& to > from ==> file[to - 1] == NEWLINE
}

/// The number of lines between two places of a file, counted on the way
/// down: the number of line ends from `from` up to `to`.
pub open spec fn lines_down(file: Seq<u8>, from: int, to: int) -> nat {
    newlines(file.subrange(from, to))
}

/// Whether `to` is a place in the file that a cursor can have gone up to
/// from `from`: it lies before `from`, and at the start of the file or right
/// behind a line end unless it is `from` itself.
pub open spec fn went_up(file: Seq<u8>, from: int, to: int) -> bool {
    &&& 0 <= to <= from <= file.len()
    &&& 0 < to < from ==> file[to - 1] == NEWLINE
}

/// The number of lines between two places of a file, counted on the way up:
/// none where the places are the same, and else one more than the number
/// of line ends from `to` up to the byte before `from`, which is left aside
/// as the end of the line before `from`.
pub open spec fn lines_up(file: Seq<u8>, from: int, to: int) -> nat {
    if to >= from {
        0
    } else {
        1 + newlines(file.subrange(to, from - 1))
    }
}

/// Whether `start` is the start of the line of the file that holds the
/// place `at`: no line end lies between the two, and `start` is the start
/// of the file or lies right behind a line end.
pub open spec fn is_line_start_of(file: Seq<u8>, at: int, start: int) -> bool {
    &&& 0 <= start <= at <= file.len()
    &&& newlines(file.subrange(start, at)) == 0
    &&& start > 0 ==> file[start - 1] == NEWLINE
}

/// A motion down through data that are the bytes of the file, seen as a
/// motion in the file. `from` and `to` are the places of the cursor before
/// and after, `end` is the place up to which the file is loaded after it.
pub proof fn lemma_down_in_file(
    file: Seq<u8>,
    from: int,
    to: int,
    end: int,
    before: Seq<u8>,
    loaded: Seq<u8>,
    after: Seq<u8>,
    count: nat,
)
    requires
        moved_down(before, loaded, after, count),
        0 <= from <= end <= file.len(),
        0 <= to <= end,
        before + loaded == file.subrange(from, end),
        after == file.subrange(to, end),
    ensures
        went_down(file, from, to),
        lines_down(file, from, to) == count,
{
    let stream = before + loaded;
    let cut = stream.len() - after.len();
    assert(cut == to - from);
    assert(stream.take(cut) =~= file.subrange(from, to));
    if cut > 0 {
        assert(stream[cut - 1] == file[to - 1]);
    }
}

/// A motion up through data that are the bytes of the file, seen as a
/// motion in the file. `from` and `to` are the places of the cursor before
/// and after, `start` is the place from which on the file is loaded after
/// it.
pub proof fn lemma_up_in_file(
    file: Seq<u8>,
    from: int,
    to: int,
    start: int,
    before: Seq<u8>,
    loaded: Seq<u8>,
    after: Seq<u8>,
    count: nat,
)
    requires
        moved_up(before, loaded, after, count),
        0 <= start <= to <= from <= file.len(),
        loaded + before == file.subrange(start, from),
        after == file.subrange(start, to),
        count > 0 && to == start ==> start == 0,
    ensures
        went_up(file, from, to),
        lines_up(file, from, to) == count,
{
    let stream = loaded + before;
    let cut = after.len() as int;
    assert(cut == to - start);
    if count > 0 {
        assert(stream.subrange(cut, stream.len() - 1) =~= file.subrange(to, from - 1));
        if cut > 0 {
            assert(stream[cut - 1] == file[to - 1]);
        }
    }
}

/// A cursor set back to the start of its line in data that are the bytes of
/// the file, seen in the file.
pub proof fn lemma_aligned_in_file(
    file: Seq<u8>,
    from: int,
    to: int,
    start: int,
    before: Seq<u8>,
    loaded: Seq<u8>,
    after: Seq<u8>,
)
    requires
        aligned_up(before, loaded, after),
        0 <= start <= to <= from <= file.len(),
        loaded + before == file.subrange(start, from),
        after == file.subrange(start, to),
        to == start ==> start == 0,
    ensures
        is_line_start_of(file, from, to),
{
    let stream = loaded + before;
    let cut = after.len() as int;
    assert(cut == to - start);
    assert(stream.skip(cut) =~= file.subrange(to, from));
    if cut > 0 {
        assert(stream[cut - 1] == file[to - 1]);
    }
}

/// Bytes of the file loaded in front of a stretch of its bytes make a
/// longer stretch.
pub proof fn lemma_stretch_grows_in_front(
    file: Seq<u8>,
    start: int,
    mid: int,
    end: int,
    more: Seq<u8>,
    loaded: Seq<u8>,
    before: Seq<u8>,
)
    requires
        0 <= start <= mid <= end <= file.len(),
        more == file.subrange(start, mid),
        loaded + before == file.subrange(mid, end),
    ensures
        (more + loaded) + before == file.subrange(start, end),
{
    assert((more + loaded) + before =~= more + (loaded + before));
    assert(more + (loaded + before) =~= file.subrange(start, end));
}

/// Bytes of the file loaded behind a stretch of its bytes make a longer
/// stretch.
pub proof fn lemma_stretch_grows_behind(
    file: Seq<u8>,
    start: int,
    mid: int,
    end: int,
    before: Seq<u8>,
    loaded: Seq<u8>,
    more: Seq<u8>,
)
    requires
        0 <= start <= mid <= end <= file.len(),
        before + loaded == file.subrange(start, mid),
        more == file.subrange(mid, end),
    ensures
        before + (loaded + more) == file.subrange(start, end),
{
    assert(before + (loaded + more) =~= (before + loaded) + more);
    assert((before + loaded) + more =~= file.subrange(start, end));
}

} // verus!
