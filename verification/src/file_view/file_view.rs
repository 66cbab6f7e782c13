//! A cursor that moves through a file by lines, on top of a buffer.

use crate::errors::ViewError;
use crate::file_buffer::pattern::{
    find_first, regex_first_match, regex_last_match, SearchPattern,
};
use crate::file_buffer::{as_found, BufferError, FileBuffer};
use crate::file_view::motion::{
    lemma_quiet_back, lemma_quiet_front, stalled_align, stalled_down, stalled_up, IDLE_LOADS,
    aligned_up, is_line_start_of, lemma_aligned_found, lemma_aligned_in_file, lemma_aligned_start,
    lemma_down_enough, lemma_down_in_file, lemma_down_load, lemma_down_step, lemma_not_moved,
    lemma_shifted_line_twice, lemma_stretch_grows_behind, lemma_stretch_grows_in_front,
    lemma_up_enough, lemma_up_in_file, lemma_up_load, lemma_up_step,
    lemma_up_to_start, lines_down, lines_up, moved_down, moved_up, newlines, shifted_line,
    went_down, went_up, NEWLINE,
};
use crate::utils::algorithm::{
    find_nth_or_last, lemma_count_matches_bound, lemma_count_matches_one,
    lemma_count_matches_split, rfind_nth_or_last,
};
use crate::utils::cancel::{after_load, is_cancelled, Round};
use crate::utils::infinite_loop_breaker::InfiniteLoopBreaker;
use crate::utils::text::{
    clip, clip_count, decode_utf8, ends_with_line_end, fills_screen, is_shown, rows_of,
    split_lines, text_lines, texts, total_height, whole_text_lines,
};
use std::ops::Range;
use std::sync::atomic::AtomicBool;
use vstd::prelude::*;

verus! {

/// The number of bytes kept in front of the place where a search through
/// the data goes on after more data was loaded.
pub const MATCH_WINDOW: usize = 0x1000;

/// The length of the data beyond which the view lets the buffer drop what
/// lies behind the cursor.
pub const SHRINK_THRESHOLD: usize = 1_000_000;

/// The number of rounds that a motion may go on without getting anywhere.
pub const MAX_IDLE_ROUNDS: u64 = 10;

/// A place of the view that it can return to: the offset of the cursor in
/// the data, the offset in the file at which the data started, and the line
/// number that the cursor had.
#[derive(Debug, Clone, Copy, PartialEq, Eq)]
pub struct ViewState {
    /// The offset of the cursor in the data.
    pub view_offset: usize,
    /// The offset in the file at which the data started.
    pub buffer_pos: u64,
    /// The number of the line of the cursor, if it was known.
    pub current_line: Option<i64>,
}

/// A cursor at the start of a line of a file. The file is seen through a
/// buffer; the cursor is an offset into the data of the buffer. The view
/// knows the number of the line it stands at as long as it got there by
/// counting lines from either end of the file.
pub struct FileView<B: FileBuffer> {
    real_file_path: String,
    buffer: B,
    view_offset: usize,
    current_line: Option<i64>,
}

/// The error of the view for an error of its buffer.
pub fn view_error(error: BufferError) -> (e: ViewError)
    ensures
        match error {
            BufferError::Interrupted => e == ViewError::Cancelled,
            BufferError::Unsupported => e matches ViewError::Other(text) && text@
                == "unsupported"@,
            BufferError::Failed(text) => e == ViewError::Other(text),
        },
{
    match error {
        BufferError::Interrupted => ViewError::Cancelled,
        BufferError::Unsupported => ViewError::Other("unsupported".to_owned()),
        BufferError::Failed(text) => ViewError::Other(text),
    }
}

impl<B: FileBuffer> FileView<B> {
    /// The cursor lies inside the data of a buffer that is well formed.
    pub closed spec fn wf(&self) -> bool {
        &&& self.buffer.wf()
        &&& self.view_offset <= self.buffer.data_view().len()
    }

    /// The buffer below the view.
    pub closed spec fn buffer(&self) -> B {
        self.buffer
    }

    /// The offset of the cursor in the data of the buffer.
    pub closed spec fn offset_view(&self) -> nat {
        self.view_offset as nat
    }

    /// The number of the line that the cursor stands at, if it is known.
    pub closed spec fn line_view(&self) -> Option<i64> {
        self.current_line
    }

    /// The path that the view was opened with.
    pub closed spec fn path_view(&self) -> Seq<char> {
        self.real_file_path@
    }

    /// The data above the cursor.
    pub open spec fn above(&self) -> Seq<u8> {
        self.buffer().data_view().take(self.offset_view() as int)
    }

    /// The data from the cursor on.
    pub open spec fn below(&self) -> Seq<u8> {
        self.buffer().data_view().skip(self.offset_view() as int)
    }

    /// The bytes of the file.
    pub open spec fn file(&self) -> Seq<u8> {
        self.buffer().file()
    }

    /// The offset in the file of the byte that the cursor stands at, where
    /// the data of the buffer are the bytes of the file.
    pub open spec fn cursor(&self) -> int {
        (self.buffer().range_start() + self.offset_view()) as int
    }

    /// The place that the view stands at.
    pub open spec fn state_view(&self) -> ViewState {
        ViewState {
            view_offset: self.offset_view() as usize,
            buffer_pos: self.buffer().range_start() as u64,
            current_line: self.line_view(),
        }
    }

    /// Whether the view still looks at the same file through the same kind
    /// of buffer as `other`.
    pub open spec fn same_file(&self, other: &Self) -> bool {
        &&& self.buffer().file() == other.buffer().file()
        &&& self.buffer().floor() == other.buffer().floor()
        &&& self.buffer().searchable() == other.buffer().searchable()
        &&& self.buffer().plain() == other.buffer().plain()
        &&& self.buffer().chunk() == other.buffer().chunk()
        &&& self.path_view() == other.path_view()
    }

    /// The cursor of a well-formed view lies inside the data of its buffer,
    /// and the window of the buffer lies inside the file.
    pub proof fn lemma_view_bounds(&self)
        requires
            self.wf(),
        ensures
            self.buffer().wf(),
            self.offset_view() <= self.buffer().data_view().len() <= usize::MAX,
            self.buffer().floor() <= self.buffer().range_start() <= self.buffer().range_end()
                <= self.buffer().file().len(),
            self.buffer().file().len() <= usize::MAX,
    {
        self.buffer.lemma_window_bounds();
    }

    /// Over a buffer whose data are the bytes of the file, the data above
    /// and below the cursor are the bytes of the file around it.
    pub proof fn lemma_plain_view(&self)
        requires
            self.wf(),
            self.buffer().plain(),
        ensures
            self.buffer().range_start() <= self.cursor() <= self.buffer().range_end()
                <= self.file().len(),
            self.above() == self.file().subrange(
                self.buffer().range_start() as int,
                self.cursor(),
            ),
            self.below() == self.file().subrange(
                self.cursor(),
                self.buffer().range_end() as int,
            ),
    {
        self.buffer.lemma_window_bounds();
        let data = self.buffer.data_view();
        assert(data.take(self.view_offset as int) =~= self.file().subrange(
            self.buffer().range_start() as int,
            self.cursor(),
        ));
        assert(data.skip(self.view_offset as int) =~= self.file().subrange(
            self.cursor(),
            self.buffer().range_end() as int,
        ));
    }

    /// A view at the first line of the file behind `buffer`, which has just
    /// been opened; `real_file_path` is the path of that file.
    pub fn new(real_file_path: String, buffer: B) -> (view: Self)
        requires
            buffer.wf(),
        ensures
            view.wf(),
            view.buffer() == buffer,
            view.offset_view() == 0,
            view.line_view() == Some(1i64),
            view.path_view() == real_file_path@,
    {
        FileView { real_file_path, buffer, view_offset: 0, current_line: Some(1) }
    }

    /// The length of the file.
    pub fn file_size(&self) -> (size: u64)
        requires
            self.wf(),
        ensures
            size == self.buffer().file().len(),
    {
        self.buffer.total_size()
    }

    /// The path that the view was opened with.
    pub fn real_file_path(&self) -> (path: &str)
        ensures
            path@ == self.path_view(),
    {
        self.real_file_path.as_str()
    }

    /// Whether the view was opened with this path.
    pub fn has_path(&self, path: &String) -> (same: bool)
        ensures
            same == (path@ == self.path_view()),
    {
        self.real_file_path == *path
    }

    /// The number of the line that the cursor stands at, if it is known.
    pub fn current_line(&self) -> (line: Option<i64>)
        ensures
            line == self.line_view(),
    {
        self.current_line
    }

    /// The data from the cursor on.
    fn current_view(&self) -> (bytes: &[u8])
        requires
            self.wf(),
        ensures
            bytes@ == self.below(),
    {
        let data = self.buffer.data();
        &data[self.view_offset..data.len()]
    }

    /// The data above the cursor.
    fn above_view(&self) -> (bytes: &[u8])
        requires
            self.wf(),
        ensures
            bytes@ == self.above(),
    {
        let data = self.buffer.data();
        &data[0..self.view_offset]
    }

    /// What holds of the view before and after it had the buffer load more
    /// data at the back, where `loaded` is the number of bytes that came or
    /// the error: the cursor stays at its place in the data below it, which
    /// grows at its end by what came. A plain buffer brings a chunk, or
    /// what is left of the file where that is less.
    pub open spec fn loaded_behind(
        before: Self,
        after: Self,
        loaded: Result<usize, ViewError>,
    ) -> bool {
        &&& after.wf()
        &&& after.same_file(&before)
        &&& after.line_view() == before.line_view()
        &&& after.buffer().range_end() >= before.buffer().range_end()
        &&& before.buffer().plain() ==> {
            &&& after.cursor() == before.cursor()
            &&& loaded matches Ok(n) && (n == 0 <==> before.buffer().range_end()
                == before.file().len()) && n == (if before.buffer().chunk()
                <= before.file().len() - before.buffer().range_end() {
                before.buffer().chunk() as int
            } else {
                before.file().len() - before.buffer().range_end()
            })
        }
        &&& match loaded {
            Ok(n) => {
                &&& after.below().len() == before.below().len() + n
                &&& after.below().take(before.below().len() as int) == before.below()
                &&& n > 0 ==> after.buffer().range_end() > before.buffer().range_end()
                &&& n == 0 ==> after.buffer().data_view() == before.buffer().data_view()
                    && after.offset_view() == before.offset_view()
                    && after.buffer().range_start() == before.buffer().range_start()
            },
            Err(e) => {
                &&& after.buffer().data_view() == before.buffer().data_view()
                &&& after.offset_view() == before.offset_view()
                &&& after.buffer().range_start() == before.buffer().range_start()
                &&& after.buffer().range_end() == before.buffer().range_end()
                &&& e is Other
            },
        }
    }

    /// What holds of the view before and after it had the buffer load more
    /// data at the front, where `loaded` is the number of bytes that came
    /// or the error: the cursor stays at its place in the data above it,
    /// which grows at its start by what came. A plain buffer brings a
    /// chunk, or what is left of the file where that is less.
    pub open spec fn loaded_in_front(
        before: Self,
        after: Self,
        loaded: Result<usize, ViewError>,
    ) -> bool {
        &&& after.wf()
        &&& after.same_file(&before)
        &&& after.line_view() == before.line_view()
        &&& after.buffer().range_start() <= before.buffer().range_start()
        &&& before.buffer().plain() ==> {
            &&& after.cursor() == before.cursor()
            &&& loaded matches Ok(n) && (n == 0 <==> before.buffer().range_start() == 0) && n
                == (if before.buffer().chunk() <= before.buffer().range_start() {
                before.buffer().chunk()
            } else {
                before.buffer().range_start()
            })
        }
        &&& match loaded {
            Ok(n) => {
                &&& after.above().len() == before.above().len() + n
                &&& after.above().skip(n as int) == before.above()
                &&& n > 0 ==> after.buffer().range_start() < before.buffer().range_start()
                &&& n == 0 ==> after.buffer().data_view() == before.buffer().data_view()
                    && after.offset_view() == before.offset_view()
            },
            Err(e) => {
                &&& after.buffer().data_view() == before.buffer().data_view()
                &&& after.offset_view() == before.offset_view()
                &&& after.buffer().range_start() == before.buffer().range_start()
                &&& after.buffer().range_end() == before.buffer().range_end()
                &&& e is Other
            },
        }
    }

    /// Whether `walk` is a row of as many loads behind as a motion waits
    /// for a line end: each of them brought data, and before each of them
    /// the data below the cursor held no line end.
    pub open spec fn idled_down(walk: Seq<Self>) -> bool {
        &&& walk.len() == IDLE_LOADS + 1
        &&& Self::loads_behind(walk)
    }

    /// Whether each view of `walk` but the first is what the one before it
    /// became by a load behind that brought data, and the data below the
    /// cursor held no line end before that load.
    pub open spec fn loads_behind(walk: Seq<Self>) -> bool {
        forall|i: int|
            0 <= i < walk.len() - 1 ==> {
                &&& newlines((#[trigger] walk[i]).below()) == 0
                &&& walk[i].below().len() < walk[i + 1].below().len()
                &&& Self::loaded_behind(
                    walk[i],
                    walk[i + 1],
                    Ok((walk[i + 1].below().len() - walk[i].below().len()) as usize),
                )
            }
    }

    /// One more load behind a row of loads.
    pub proof fn lemma_loads_behind_more(walk: Seq<Self>, next: Self, n: usize)
        requires
            walk.len() > 0,
            Self::loads_behind(walk),
            newlines(walk.last().below()) == 0,
            n > 0,
            Self::loaded_behind(walk.last(), next, Ok(n)),
        ensures
            Self::loads_behind(walk.push(next)),
    {
        let longer = walk.push(next);
        assert forall|i: int| 0 <= i < longer.len() - 1 implies {
            &&& newlines((#[trigger] longer[i]).below()) == 0
            &&& longer[i].below().len() < longer[i + 1].below().len()
            &&& Self::loaded_behind(
                longer[i],
                longer[i + 1],
                Ok((longer[i + 1].below().len() - longer[i].below().len()) as usize),
            )
        } by {
            if i < walk.len() - 1 {
                assert(longer[i] == walk[i]);
                assert(longer[i + 1] == walk[i + 1]);
            } else {
                assert(longer[i] == walk.last());
                assert(longer[i + 1] == next);
            }
        }
    }

    /// Whether the data above the cursor holds no line end for a motion up
    /// to go to: none at all where `whole` is set, and else none before the
    /// byte right above the cursor.
    pub open spec fn quiet_above(&self, whole: bool) -> bool {
        if whole {
            newlines(self.above()) == 0
        } else {
            self.above().len() == 0 || newlines(self.above().drop_last()) == 0
        }
    }

    /// Whether `walk` is a row of as many loads in front as a motion waits
    /// for a line end: each of them brought data, and before each of them
    /// the data above the cursor held no line end to go to.
    pub open spec fn idled_up(walk: Seq<Self>, whole: bool) -> bool {
        &&& walk.len() == IDLE_LOADS + 1
        &&& Self::loads_in_front(walk, whole)
    }

    /// Whether each view of `walk` but the first is what the one before it
    /// became by a load in front that brought data, and the data above the
    /// cursor held no line end to go to before that load.
    pub open spec fn loads_in_front(walk: Seq<Self>, whole: bool) -> bool {
        forall|i: int|
            0 <= i < walk.len() - 1 ==> {
                &&& (#[trigger] walk[i]).quiet_above(whole)
                &&& walk[i].above().len() < walk[i + 1].above().len()
                &&& Self::loaded_in_front(
                    walk[i],
                    walk[i + 1],
                    Ok((walk[i + 1].above().len() - walk[i].above().len()) as usize),
                )
            }
    }

    /// One more load in front of a row of loads.
    pub proof fn lemma_loads_in_front_more(walk: Seq<Self>, whole: bool, next: Self, n: usize)
        requires
            walk.len() > 0,
            Self::loads_in_front(walk, whole),
            walk.last().quiet_above(whole),
            n > 0,
            Self::loaded_in_front(walk.last(), next, Ok(n)),
        ensures
            Self::loads_in_front(walk.push(next), whole),
    {
        let longer = walk.push(next);
        assert forall|i: int| 0 <= i < longer.len() - 1 implies {
            &&& (#[trigger] longer[i]).quiet_above(whole)
            &&& longer[i].above().len() < longer[i + 1].above().len()
            &&& Self::loaded_in_front(
                longer[i],
                longer[i + 1],
                Ok((longer[i + 1].above().len() - longer[i].above().len()) as usize),
            )
        } by {
            if i < walk.len() - 1 {
                assert(longer[i] == walk[i]);
                assert(longer[i + 1] == walk[i + 1]);
            } else {
                assert(longer[i] == walk.last());
                assert(longer[i + 1] == next);
            }
        }
    }

    /// Has the buffer load more data at the back. Where the data has grown
    /// long by then, the buffer may drop data above the cursor.
    fn load_next(&mut self) -> (loaded: Result<usize, ViewError>)
        requires
            old(self).wf(),
        ensures
            Self::loaded_behind(*old(self), *final(self), loaded),
    {
        let ghost before = self.buffer.data_view();
        proof {
            self.buffer.lemma_window_bounds();
        }
        match self.buffer.load_next() {
            Ok(n) => {
                proof {
                    self.buffer.lemma_window_bounds();
                    let grown = self.buffer.data_view();
                    assert(grown.skip(self.view_offset as int).take(
                        before.len() - self.view_offset,
                    ) =~= grown.take(before.len() as int).skip(self.view_offset as int));
                    if n == 0 {
                        assert(grown =~= before);
                    }
                    assert(self.below().take(old(self).below().len() as int)
                        =~= old(self).below());
                }
                if n > 0 {
                    let len = self.buffer.data().len();
                    if len > SHRINK_THRESHOLD {
                        let ghost grown = self.buffer.data_view();
                        let kept = self.buffer.shrink_to(
                            Range { start: self.view_offset, end: len },
                        );
                        self.view_offset = self.view_offset - kept.start;
                        proof {
                            assert(self.buffer.data_view().skip(self.view_offset as int)
                                =~= grown.skip(old(self).view_offset as int));
                        }
                    }
                }
                Ok(n)
            },
            Err(e) => Err(view_error(e)),
        }
    }

    /// Has the buffer load more data at the front. Where the data has grown
    /// long by then, the buffer may drop data below the cursor.
    fn load_prev(&mut self) -> (loaded: Result<usize, ViewError>)
        requires
            old(self).wf(),
        ensures
            Self::loaded_in_front(*old(self), *final(self), loaded),
    {
        let ghost before = self.buffer.data_view();
        proof {
            self.buffer.lemma_window_bounds();
        }
        match self.buffer.load_prev() {
            Ok(n) => {
                proof {
                    self.buffer.lemma_window_bounds();
                }
                self.view_offset = self.view_offset + n;
                proof {
                    let grown = self.buffer.data_view();
                    assert(grown.take(self.view_offset as int).skip(n as int) =~= grown.skip(
                        n as int,
                    ).take(old(self).view_offset as int));
                    if n == 0 {
                        assert(grown =~= before);
                    }
                    assert(self.above().skip(n as int) =~= old(self).above());
                }
                if n > 0 {
                    let len = self.buffer.data().len();
                    if len > SHRINK_THRESHOLD {
                        let ghost grown = self.buffer.data_view();
                        let kept = self.buffer.shrink_to(Range { start: 0, end: self.view_offset });
                        proof {
                            assert(self.buffer.data_view().take(self.view_offset as int)
                                =~= grown.take(self.view_offset as int));
                        }
                    }
                }
                Ok(n)
            },
            Err(e) => Err(view_error(e)),
        }
    }

    /// What holds of the view before and after a motion down by `lines` lines.
    pub open spec fn down_post(
        before: Self,
        lines: u64,
        after: Self,
        moved: Result<(), ViewError>,
    ) -> bool {
        &&& after.wf()
        &&& after.same_file(&before)
        &&& exists|loaded: Seq<u8>, count: nat|
                {
                    &&& #[trigger] moved_down(before.below(), loaded, after.below(), count)
                    &&& count <= lines
                    &&& moved is Ok <==> count == lines
                    &&& after.line_view() == shifted_line(before.line_view(), count as int)
                    &&& newlines(before.below()) >= lines ==> loaded.len() == 0
                }
        &&& newlines(before.below()) >= lines ==> moved is Ok && after.buffer() == before.buffer()
        &&& moved matches Err(ViewError::EOF) ==> newlines(after.below()) == 0
        &&& moved matches Err(ViewError::InfiniteLoop) ==> stalled_down(after.below())
        &&& moved matches Err(ViewError::InfiniteLoop) ==> exists|walk: Seq<Self>| #[trigger]
            Self::idled_down(walk) && walk.last() == after
        &&& moved matches Err(e) ==> e is EOF || e is InfiniteLoop || e is Other
        &&& moved is Ok ==> after.line_view() == shifted_line(
                before.line_view(),
                lines as int,
            )
        &&& after.buffer().range_end() >= before.buffer().range_end()
        &&& after.buffer().range_end() == before.buffer().range_end() ==> after.below().len()
            <= before.below().len()
        &&& moved is Ok && lines > 0 && after.buffer().range_end()
            == before.buffer().range_end() ==> after.below().len() < before.below().len()
        &&& before.buffer().plain() ==> {
                let passed = lines_down(before.file(), before.cursor(), after.cursor());
                &&& went_down(before.file(), before.cursor(), after.cursor())
                &&& passed <= lines
                &&& moved is Ok <==> passed == lines
                &&& after.line_view() == shifted_line(before.line_view(), passed as int)
                &&& moved matches Err(ViewError::EOF) ==> newlines(
                    before.file().skip(after.cursor()),
                ) == 0
                &&& moved matches Err(e) ==> e is EOF || e is InfiniteLoop
            }
    }

    /// Moves the cursor down by `lines` lines, loading data as needed.
    ///
    /// The cursor goes from line end to line end. Where the file ends before
    /// `lines` line ends were passed, the cursor stays behind the last one
    /// it passed and the motion fails with `EOF`; where the data loaded for
    /// one line end grows without one in it for too many rounds, it fails
    /// with `InfiniteLoop`. It succeeds exactly when it passed `lines` line
    /// ends, and it does so without loading when the data below the cursor
    /// holds that many.
    pub fn down(&mut self, lines: u64) -> (moved: Result<(), ViewError>)
        requires
            old(self).wf(),
        ensures
            Self::down_post(*old(self), lines, *final(self), moved),
    {
        let moved = self.down_steps(lines);
        proof {
            if old(self).buffer().plain() {
                let (loaded, count) = choose|loaded: Seq<u8>, count: nat|
                    {
                        &&& #[trigger] moved_down(old(self).below(), loaded, self.below(), count)
                        &&& count <= lines
                        &&& moved is Ok <==> count == lines
                        &&& self.line_view() == shifted_line(old(self).line_view(), count as int)
                        &&& newlines(old(self).below()) >= lines ==> loaded.len() == 0
                        &&& old(self).buffer().plain() ==> old(self).below() + loaded
                            == old(self).file().subrange(old(self).cursor(),
                            self.buffer().range_end() as int)
                    };
                old(self).lemma_plain_view();
                self.lemma_plain_view();
                lemma_down_in_file(
                    old(self).file(),
                    old(self).cursor(),
                    self.cursor(),
                    self.buffer().range_end() as int,
                    old(self).below(),
                    loaded,
                    self.below(),
                    count,
                );
                if moved matches Err(ViewError::EOF) {
                    assert(old(self).file().skip(self.cursor()) =~= self.below());
                }
            }
        }
        moved
    }

    /// The steps of a motion down.
    fn down_steps(&mut self, lines: u64) -> (moved: Result<(), ViewError>)
        requires
            old(self).wf(),
        ensures
            final(self).wf(),
            final(self).same_file(old(self)),
            exists|loaded: Seq<u8>, count: nat|
                {
                    &&& #[trigger] moved_down(old(self).below(), loaded, final(self).below(), count)
                    &&& count <= lines
                    &&& moved is Ok <==> count == lines
                    &&& final(self).line_view() == shifted_line(old(self).line_view(), count as int)
                    &&& newlines(old(self).below()) >= lines ==> loaded.len() == 0
                    &&& old(self).buffer().plain() ==> old(self).below() + loaded
                        == old(self).file().subrange(old(self).cursor(),
                        final(self).buffer().range_end() as int)
                },
            newlines(old(self).below()) >= lines ==> moved is Ok && final(self).buffer()
                == old(self).buffer(),
            moved matches Err(ViewError::EOF) ==> newlines(final(self).below()) == 0,
            moved matches Err(ViewError::InfiniteLoop) ==> stalled_down(final(self).below()),
            moved matches Err(ViewError::InfiniteLoop) ==> exists|walk: Seq<Self>| #[trigger]
                Self::idled_down(walk) && walk.last() == *final(self),
            moved matches Err(e) ==> e is EOF || e is InfiniteLoop || e is Other,
            moved is Ok ==> final(self).line_view() == shifted_line(
                old(self).line_view(),
                lines as int,
            ),
            final(self).buffer().range_end() >= old(self).buffer().range_end(),
            final(self).buffer().range_end() == old(self).buffer().range_end()
                ==> final(self).below().len() <= old(self).below().len(),
            moved is Ok && lines > 0 && final(self).buffer().range_end()
                == old(self).buffer().range_end() ==> final(self).below().len()
                < old(self).below().len(),
            old(self).buffer().plain() ==> {
                &&& old(self).cursor() <= final(self).cursor()
                &&& moved matches Err(ViewError::EOF) ==> final(self).buffer().range_end()
                    == old(self).file().len()
                &&& moved matches Err(e) ==> e is EOF || e is InfiniteLoop
            },
    {
        let mut breaker = InfiniteLoopBreaker::new(MAX_IDLE_ROUNDS);
        let mut left = lines;
        let ghost mut loaded = Seq::<u8>::empty();
        let ghost mut count = 0nat;
        let ghost mut idle = 0nat;
        let ghost mut quiet = 0nat;
        let ghost mut walk = seq![*self];
        proof {
            lemma_not_moved(self.below());
            if self.buffer().plain() {
                self.lemma_plain_view();
                assert(self.below() + loaded =~= self.below());
            }
        }
        while left > 0
            invariant
                self.wf(),
                self.same_file(old(self)),
                old(self).wf(),
                old(self).buffer().plain() ==> old(self).cursor() <= self.cursor()
                    && old(self).below() + loaded == old(self).file().subrange(
                    old(self).cursor(),
                    self.buffer().range_end() as int,
                ),
                moved_down(old(self).below(), loaded, self.below(), count),
                count + left == lines,
                self.line_view() == shifted_line(old(self).line_view(), count as int),
                newlines(old(self).below()) >= lines ==> loaded.len() == 0 && self.buffer()
                    == old(self).buffer(),
                self.buffer().range_end() >= old(self).buffer().range_end(),
                self.buffer().range_end() == old(self).buffer().range_end() ==> self.below().len()
                    + count <= old(self).below().len(),
                breaker.budget() == MAX_IDLE_ROUNDS,
                newlines(old(self).below()) >= lines ==> breaker.remaining() == MAX_IDLE_ROUNDS,
                breaker.remaining() + idle == MAX_IDLE_ROUNDS,
                idle > 0 ==> quiet < self.below().len() && quiet + 1 >= idle && newlines(
                    self.below().take(quiet as int),
                ) == 0,
                walk.len() == idle + 1,
                walk.last() == *self,
                Self::loads_behind(walk),
                breaker.remaining() >= 1,
            decreases left, breaker.remaining(),
        {
            if breaker.it().is_err() {
                proof {
                    lemma_quiet_front(self.below(), quiet as int, IDLE_LOADS - 1);
                    assert(Self::idled_down(walk));
                }
                return Err(ViewError::InfiniteLoop);
            }
            let want: usize = if left - 1 > usize::MAX as u64 {
                usize::MAX
            } else {
                (left - 1) as usize
            };
            let found = find_nth_or_last(self.current_view(), NEWLINE, want);
            match found {
                Some((nth, pos)) => {
                    proof {
                        lemma_down_step(
                            old(self).below(),
                            loaded,
                            self.below(),
                            count,
                            nth as nat,
                            pos as int,
                        );
                        lemma_shifted_line_twice(
                            old(self).line_view(),
                            count as int,
                            nth as int + 1,
                        );
                        self.buffer.lemma_window_bounds();
                        assert(self.below().skip(pos as int + 1) =~= self.buffer.data_view().skip(
                            self.view_offset + pos + 1,
                        ));
                        lemma_count_matches_bound(self.below().take(pos as int), NEWLINE);
                    }
                    self.view_offset = self.view_offset + pos + 1;
                    self.current_line = self::advance_line(self.current_line, nth as u64 + 1, true);
                    left = left - (nth as u64 + 1);
                    proof {
                        count = count + nth as nat + 1;
                        idle = 0;
                        walk = seq![*self];
                    }
                    breaker.reset();
                },
                None => {
                    let ghost below = self.below();
                    let ghost stood = *self;
                    let ghost before_end = self.buffer().range_end();
                    proof {
                        if loaded.len() == 0 {
                            lemma_down_enough(old(self).below(), loaded, below, count);
                        }
                        if self.buffer().plain() {
                            self.lemma_plain_view();
                        }
                    }
                    match self.load_next() {
                        Ok(n) => {
                            if n == 0 {
                                proof {
                                    assert(self.below() =~= below);
                                    if self.buffer().plain() {
                                        self.lemma_plain_view();
                                    }
                                }
                                return Err(ViewError::EOF);
                            }
                            proof {
                                lemma_down_load(
                                    old(self).below(),
                                    loaded,
                                    below,
                                    count,
                                    self.below(),
                                );
                                if self.buffer().plain() {
                                    self.lemma_plain_view();
                                    let file = old(self).file();
                                    let more = self.below().skip(below.len() as int);
                                    assert(more =~= file.subrange(
                                        before_end as int,
                                        self.buffer().range_end() as int,
                                    ));
                                    lemma_stretch_grows_behind(
                                        file,
                                        old(self).cursor(),
                                        before_end as int,
                                        self.buffer().range_end() as int,
                                        old(self).below(),
                                        loaded,
                                        more,
                                    );
                                }
                                loaded = loaded + self.below().skip(below.len() as int);
                                quiet = below.len();
                                idle = idle + 1;
                                Self::lemma_loads_behind_more(walk, *self, n);
                                walk = walk.push(*self);
                            }
                        },
                        Err(e) => {
                            proof {
                                assert(self.below() =~= below);
                            }
                            return Err(e);
                        },
                    }
                },
            }
        }
        Ok(())
    }

    /// Whether the data above the cursor holds enough lines for a motion up
    /// by `lines` lines: that many line ends, not counting the byte right
    /// above the cursor.
    pub open spec fn lines_above(&self, lines: u64) -> bool {
        self.above().len() > 0 && newlines(self.above().drop_last()) >= lines
    }

    /// What holds of the view before and after a motion up by `lines` lines.
    pub open spec fn up_post(
        before: Self,
        lines: u64,
        after: Self,
        moved: Result<(), ViewError>,
    ) -> bool {
        &&& after.wf()
        &&& after.same_file(&before)
        &&& exists|loaded: Seq<u8>, count: nat|
                {
                    &&& #[trigger] moved_up(before.above(), loaded, after.above(), count)
                    &&& count <= lines
                    &&& moved is Ok <==> count == lines || (count > 0 && after.offset_view() == 0)
                    &&& moved matches Err(ViewError::BOF) ==> count == 0
                    &&& after.line_view() == if after.offset_view() == 0 && (count > 0
                        || moved == Err::<(), ViewError>(ViewError::BOF)) {
                        Some(1i64)
                    } else {
                        shifted_line(before.line_view(), -(count as int))
                    }
                    &&& before.lines_above(lines) ==> loaded.len() == 0
                }
        &&& before.lines_above(lines) ==> moved is Ok && after.buffer() == before.buffer()
        &&& moved matches Err(ViewError::BOF) ==> after.offset_view() == 0
            && after.line_view() == Some(1i64) && before.offset_view() == 0
        &&& moved is Ok ==> after.line_view() == if after.offset_view() == 0 && lines
                > 0 {
                Some(1i64)
            } else {
                shifted_line(before.line_view(), -(lines as int))
            }
        &&& moved matches Err(ViewError::InfiniteLoop) ==> stalled_up(after.above())
        &&& moved matches Err(ViewError::InfiniteLoop) ==> exists|walk: Seq<Self>| #[trigger]
            Self::idled_up(walk, false) && walk.last() == after
        &&& moved matches Err(e) ==> e is BOF || e is InfiniteLoop || e is Other
        &&& after.buffer().range_start() <= before.buffer().range_start()
        &&& moved is Ok && lines > 0 ==> after.buffer().range_start()
            < before.buffer().range_start() || after.above().len() < before.above().len()
        &&& before.buffer().plain() ==> {
                let passed = lines_up(before.file(), before.cursor(), after.cursor());
                &&& went_up(before.file(), before.cursor(), after.cursor())
                &&& passed <= lines
                &&& moved is Ok <==> passed == lines || (after.cursor() == 0 && before.cursor()
                    > 0)
                &&& (moved matches Err(ViewError::BOF)) <==> lines > 0 && before.cursor() == 0
                &&& after.line_view() == if after.cursor() == 0 && (passed > 0
                    || moved == Err::<(), ViewError>(ViewError::BOF)) {
                    Some(1i64)
                } else {
                    shifted_line(before.line_view(), -(passed as int))
                }
                &&& moved matches Err(ViewError::BOF) ==> after.cursor() == 0
                &&& moved matches Err(e) ==> e is BOF || e is InfiniteLoop
            }
    }

    /// Moves the cursor up by `lines` lines, loading data as needed.
    ///
    /// The byte right above the cursor ends the line before and is passed
    /// over; from there the cursor goes back from line end to line end and
    /// rests behind the last one it reaches. Where no line end is left and
    /// nothing more can be loaded, the cursor goes to the very start, which
    /// is line 1, and the motion is done. It fails with `BOF` only where
    /// the cursor stood at the very start already. So it succeeds exactly
    /// when it has gone up `lines` lines or has reached the start from
    /// another place, and it does so without loading when the data above
    /// the cursor holds `lines` lines.
    pub fn up(&mut self, lines: u64) -> (moved: Result<(), ViewError>)
        requires
            old(self).wf(),
        ensures
            Self::up_post(*old(self), lines, *final(self), moved),
    {
        let moved = self.up_steps(lines);
        proof {
            if old(self).buffer().plain() {
                let (loaded, count) = choose|loaded: Seq<u8>, count: nat|
                    {
                        &&& #[trigger] moved_up(old(self).above(), loaded, self.above(), count)
                        &&& count <= lines
                        &&& moved is Ok <==> count == lines || (count > 0 && self.offset_view()
                            == 0)
                        &&& moved matches Err(ViewError::BOF) ==> count == 0
                        &&& self.line_view() == if self.offset_view() == 0 && (count > 0
                            || moved == Err::<(), ViewError>(ViewError::BOF)) {
                            Some(1i64)
                        } else {
                            shifted_line(old(self).line_view(), -(count as int))
                        }
                        &&& old(self).lines_above(lines) ==> loaded.len() == 0
                        &&& old(self).buffer().plain() ==> loaded + old(self).above()
                            == old(self).file().subrange(self.buffer().range_start() as int,
                            old(self).cursor())
                        &&& old(self).buffer().plain() && count > 0 && self.offset_view() == 0
                            ==> self.buffer().range_start() == 0
                    };
                old(self).lemma_plain_view();
                self.lemma_plain_view();
                lemma_up_in_file(
                    old(self).file(),
                    old(self).cursor(),
                    self.cursor(),
                    self.buffer().range_start() as int,
                    old(self).above(),
                    loaded,
                    self.above(),
                    count,
                );
            }
        }
        moved
    }

    /// The steps of a motion up.
    #[verifier::rlimit(100)]
    fn up_steps(&mut self, lines: u64) -> (moved: Result<(), ViewError>)
        requires
            old(self).wf(),
        ensures
            final(self).wf(),
            final(self).same_file(old(self)),
            exists|loaded: Seq<u8>, count: nat|
                {
                    &&& #[trigger] moved_up(old(self).above(), loaded, final(self).above(), count)
                    &&& count <= lines
                    &&& moved is Ok <==> count == lines || (count > 0 && final(self).offset_view()
                        == 0)
                    &&& moved matches Err(ViewError::BOF) ==> count == 0
                    &&& final(self).line_view() == if final(self).offset_view() == 0 && (count > 0
                        || moved == Err::<(), ViewError>(ViewError::BOF)) {
                        Some(1i64)
                    } else {
                        shifted_line(old(self).line_view(), -(count as int))
                    }
                    &&& old(self).lines_above(lines) ==> loaded.len() == 0
                    &&& old(self).buffer().plain() ==> loaded + old(self).above()
                        == old(self).file().subrange(final(self).buffer().range_start() as int,
                        old(self).cursor())
                    &&& old(self).buffer().plain() && count > 0 && final(self).offset_view() == 0
                        ==> final(self).buffer().range_start() == 0
                },
            old(self).lines_above(lines) ==> moved is Ok && final(self).buffer()
                == old(self).buffer(),
            moved matches Err(ViewError::BOF) ==> final(self).offset_view() == 0
                && final(self).line_view() == Some(1i64),
            moved is Ok ==> final(self).line_view() == if final(self).offset_view() == 0 && lines
                > 0 {
                Some(1i64)
            } else {
                shifted_line(old(self).line_view(), -(lines as int))
            },
            moved matches Err(ViewError::InfiniteLoop) ==> stalled_up(final(self).above()),
            moved matches Err(ViewError::InfiniteLoop) ==> exists|walk: Seq<Self>| #[trigger]
                Self::idled_up(walk, false) && walk.last() == *final(self),
            moved matches Err(e) ==> e is BOF || e is InfiniteLoop || e is Other,
            final(self).buffer().range_start() <= old(self).buffer().range_start(),
            moved is Ok && lines > 0 ==> final(self).buffer().range_start()
                < old(self).buffer().range_start() || final(self).above().len()
                < old(self).above().len(),
            old(self).buffer().plain() ==> {
                &&& final(self).cursor() <= old(self).cursor()
                &&& moved matches Err(ViewError::BOF) ==> final(self).buffer().range_start() == 0
                &&& moved matches Err(e) ==> e is BOF || e is InfiniteLoop
                &&& lines > 0 && old(self).cursor() == 0 ==> moved matches Err(ViewError::BOF)
            },
    {
        let mut breaker = InfiniteLoopBreaker::new(MAX_IDLE_ROUNDS);
        let mut left = lines;
        let ghost mut loaded = Seq::<u8>::empty();
        let ghost mut count = 0nat;
        let ghost mut idle = 0nat;
        let ghost mut quiet = 0nat;
        let ghost mut walk = seq![*self];
        proof {
            lemma_not_moved(self.above());
            if self.buffer().plain() {
                self.lemma_plain_view();
                assert(loaded + self.above() =~= self.above());
            }
        }
        while left > 0
            invariant
                self.wf(),
                self.same_file(old(self)),
                old(self).wf(),
                old(self).buffer().plain() ==> self.cursor() <= old(self).cursor() && loaded
                    + old(self).above() == old(self).file().subrange(
                    self.buffer().range_start() as int,
                    old(self).cursor(),
                ),
                moved_up(old(self).above(), loaded, self.above(), count),
                count + left == lines,
                count > 0 ==> self.offset_view() > 0,
                self.line_view() == shifted_line(old(self).line_view(), -(count as int)),
                old(self).lines_above(lines) ==> loaded.len() == 0 && self.buffer()
                    == old(self).buffer() && breaker.remaining() == MAX_IDLE_ROUNDS,
                self.buffer().range_start() <= old(self).buffer().range_start(),
                self.buffer().range_start() == old(self).buffer().range_start() ==> loaded.len()
                    == 0,
                self.above().len() <= loaded.len() + old(self).above().len(),
                count > 0 ==> self.above().len() < loaded.len() + old(self).above().len(),
                breaker.budget() == MAX_IDLE_ROUNDS,
                old(self).buffer().plain() && old(self).cursor() == 0 ==> self.cursor() == 0
                    && breaker.remaining() == MAX_IDLE_ROUNDS,
                breaker.remaining() + idle == MAX_IDLE_ROUNDS,
                idle > 0 ==> quiet < self.above().len() && quiet + 1 >= idle,
                idle > 0 && quiet > 0 ==> newlines(
                    self.above().subrange(self.above().len() - quiet, self.above().len() - 1),
                ) == 0,
                walk.len() == idle + 1,
                walk.last() == *self,
                Self::loads_in_front(walk, false),
                breaker.remaining() >= 1,
            decreases left, breaker.remaining(),
        {
            if breaker.it().is_err() {
                proof {
                    let len = self.above().len() as int;
                    lemma_quiet_back(self.above(), len - quiet, len - IDLE_LOADS + 1, len - 1);
                    assert(Self::idled_up(walk, false));
                }
                return Err(ViewError::InfiniteLoop);
            }
            let want: usize = if left - 1 > usize::MAX as u64 {
                usize::MAX
            } else {
                (left - 1) as usize
            };
            let above = self.above_view();
            let found = if above.len() > 0 {
                let search = &above[0..above.len() - 1];
                assert(search@ =~= self.above().drop_last());
                rfind_nth_or_last(search, NEWLINE, want)
            } else {
                None
            };
            match found {
                Some((nth, pos)) => {
                    proof {
                        let search = self.above().drop_last();
                        assert(search.skip(pos as int + 1) =~= self.above().subrange(
                            pos as int + 1,
                            self.above().len() - 1,
                        ));
                        lemma_up_step(
                            old(self).above(),
                            loaded,
                            self.above(),
                            count,
                            nth as nat,
                            pos as int,
                        );
                        lemma_shifted_line_twice(
                            old(self).line_view(),
                            -(count as int),
                            -(nth as int + 1),
                        );
                        assert(self.above().take(pos as int + 1) =~= self.buffer.data_view().take(
                            pos as int + 1,
                        ));
                    }
                    self.view_offset = pos + 1;
                    self.current_line = self::advance_line(
                        self.current_line,
                        nth as u64 + 1,
                        false,
                    );
                    left = left - (nth as u64 + 1);
                    proof {
                        count = count + nth as nat + 1;
                        idle = 0;
                        walk = seq![*self];
                    }
                    breaker.reset();
                },
                None => {
                    let ghost upper = self.above();
                    let ghost before_start = self.buffer().range_start();
                    proof {
                        if loaded.len() == 0 {
                            lemma_up_enough(old(self).above(), loaded, upper, count);
                        }
                        if self.buffer().plain() {
                            self.lemma_plain_view();
                        }
                    }
                    match self.load_prev() {
                        Ok(n) => {
                            if n == 0 {
                                proof {
                                    assert(self.above() =~= upper);
                                    if self.buffer().plain() {
                                        self.lemma_plain_view();
                                    }
                                }
                                if self.view_offset == 0 {
                                    self.current_line = Some(1);
                                    assert(self.above() == upper);
                                    assert(moved_up(old(self).above(), loaded, self.above(),
                                        count));
                                    return Err(ViewError::BOF);
                                }
                                proof {
                                    assert(upper.len() > 0);
                                    assert(newlines(upper.drop_last()) == 0);
                                    lemma_up_to_start(old(self).above(), loaded, upper, count);
                                    assert(self.buffer.data_view().take(0) =~= Seq::<u8>::empty());
                                    count = count + 1;
                                }
                                self.view_offset = 0;
                                self.current_line = Some(1);
                                left = left - 1;
                                assert(self.above() == Seq::<u8>::empty());
                                assert(moved_up(old(self).above(), loaded, self.above(), count));
                                return Ok(());
                            }
                            proof {
                                lemma_up_load(
                                    old(self).above(),
                                    loaded,
                                    upper,
                                    count,
                                    self.above(),
                                );
                                let more = self.above().take(self.above().len() - upper.len());
                                if self.buffer().plain() {
                                    self.lemma_plain_view();
                                    old(self).lemma_plain_view();
                                    let file = old(self).file();
                                    assert(more =~= file.subrange(
                                        self.buffer().range_start() as int,
                                        before_start as int,
                                    ));
                                    lemma_stretch_grows_in_front(
                                        file,
                                        self.buffer().range_start() as int,
                                        before_start as int,
                                        old(self).cursor(),
                                        more,
                                        loaded,
                                        old(self).above(),
                                    );
                                }
                                loaded = more + loaded;
                                if upper.len() > 0 {
                                    assert(self.above().subrange(
                                        self.above().len() - upper.len(),
                                        self.above().len() - 1,
                                    ) =~= upper.drop_last());
                                }
                                quiet = upper.len();
                                idle = idle + 1;
                                Self::lemma_loads_in_front_more(walk, false, *self, n);
                                walk = walk.push(*self);
                            }
                        },
                        Err(e) => {
                            proof {
                                assert(self.above() =~= upper);
                            }
                            return Err(e);
                        },
                    }
                },
            }
        }
        Ok(())
    }

    /// Sets the cursor back to the start of the line it stands in, loading
    /// data as needed. Where no line end lies above the cursor and nothing
    /// more can be loaded, that is the very start, which is line 1.
    fn align(&mut self) -> (moved: Result<(), ViewError>)
        requires
            old(self).wf(),
        ensures
            final(self).wf(),
            final(self).same_file(old(self)),
            moved is Ok ==> exists|loaded: Seq<u8>| #[trigger]
                aligned_up(old(self).above(), loaded, final(self).above()),
            moved is Ok ==> final(self).at_line_start(),
            moved is Ok ==> final(self).line_view() == if final(self).offset_view() == 0 {
                Some(1i64)
            } else {
                old(self).line_view()
            },
            moved matches Err(e) ==> e is InfiniteLoop || e is Other,
            moved matches Err(ViewError::InfiniteLoop) ==> stalled_align(final(self).above()),
            moved matches Err(ViewError::InfiniteLoop) ==> exists|walk: Seq<Self>| #[trigger]
                Self::idled_up(walk, true) && walk.last() == *final(self),
            old(self).buffer().plain() ==> {
                &&& moved is Ok ==> is_line_start_of(
                    old(self).file(),
                    old(self).cursor(),
                    final(self).cursor(),
                )
                &&& moved is Ok ==> (final(self).offset_view() == 0 <==> final(self).cursor() == 0)
                &&& moved is Err ==> final(self).cursor() == old(self).cursor()
                &&& moved matches Err(e) ==> e is InfiniteLoop
            },
    {
        let mut breaker = InfiniteLoopBreaker::new(MAX_IDLE_ROUNDS);
        let ghost mut loaded = Seq::<u8>::empty();
        let ghost mut idle = 0nat;
        let ghost mut quiet = 0nat;
        let ghost mut walk = seq![*self];
        proof {
            assert(loaded + old(self).above() =~= self.above());
        }
        loop
            invariant
                self.wf(),
                self.same_file(old(self)),
                old(self).wf(),
                old(self).buffer().plain() ==> self.cursor() == old(self).cursor(),
                self.above() == loaded + old(self).above(),
                self.line_view() == old(self).line_view(),
                breaker.budget() == MAX_IDLE_ROUNDS,
                breaker.remaining() + idle == MAX_IDLE_ROUNDS,
                idle > 0 ==> quiet < self.above().len() && quiet + 1 >= idle && newlines(
                    self.above().skip(self.above().len() - quiet),
                ) == 0,
                walk.len() == idle + 1,
                walk.last() == *self,
                Self::loads_in_front(walk, true),
                breaker.remaining() >= 1,
            decreases breaker.remaining(),
        {
            if breaker.it().is_err() {
                proof {
                    let above = self.above();
                    let len = above.len() as int;
                    assert(above.skip(len - quiet) =~= above.subrange(len - quiet, len));
                    lemma_quiet_back(above, len - quiet, len - IDLE_LOADS + 1, len);
                    assert(above.skip(len - IDLE_LOADS + 1) =~= above.subrange(
                        len - IDLE_LOADS + 1,
                        len,
                    ));
                    assert(Self::idled_up(walk, true));
                }
                return Err(ViewError::InfiniteLoop);
            }
            let ghost upper = self.above();
            let found = rfind_nth_or_last(self.above_view(), NEWLINE, 0);
            match found {
                Some((nth, pos)) => {
                    proof {
                        lemma_aligned_found(old(self).above(), loaded, upper, pos as int);
                        assert(upper.take(pos as int + 1) =~= self.buffer.data_view().take(
                            pos as int + 1,
                        ));
                        if self.buffer().plain() {
                            self.lemma_plain_view();
                            old(self).lemma_plain_view();
                            let start = self.buffer().range_start() as int;
                            assert(upper.take(pos as int + 1) =~= old(self).file().subrange(
                                start,
                                start + pos + 1,
                            ));
                            lemma_aligned_in_file(
                                old(self).file(),
                                old(self).cursor(),
                                start + pos + 1,
                                start,
                                old(self).above(),
                                loaded,
                                upper.take(pos as int + 1),
                            );
                        }
                    }
                    self.view_offset = pos + 1;
                    assert(self.above() == upper.take(pos as int + 1));
                    assert(aligned_up(old(self).above(), loaded, self.above()));
                    assert(self.buffer.data_view()[pos as int] == upper[pos as int]);
                    return Ok(());
                },
                None => {
                    proof {
                        if self.buffer().plain() {
                            self.lemma_plain_view();
                        }
                    }
                    match self.load_prev() {
                        Ok(n) => {
                            if n == 0 {
                                proof {
                                    assert(self.above() =~= upper);
                                    lemma_aligned_start(old(self).above(), loaded, upper);
                                    assert(self.buffer.data_view().take(0) =~= Seq::<u8>::empty());
                                    if self.buffer().plain() {
                                        self.lemma_plain_view();
                                        old(self).lemma_plain_view();
                                        assert(Seq::<u8>::empty() =~= old(self).file().subrange(
                                            0,
                                            0,
                                        ));
                                        lemma_aligned_in_file(
                                            old(self).file(),
                                            old(self).cursor(),
                                            0,
                                            0,
                                            old(self).above(),
                                            loaded,
                                            Seq::<u8>::empty(),
                                        );
                                    }
                                }
                                self.view_offset = 0;
                                self.current_line = Some(1);
                                assert(self.above() == Seq::<u8>::empty());
                                assert(aligned_up(old(self).above(), loaded, self.above()));
                                return Ok(());
                            }
                            proof {
                                let more = self.above().take(n as int);
                                assert(self.above() =~= more + upper);
                                assert(self.above() =~= (more + loaded) + old(self).above());
                                loaded = more + loaded;
                                assert(self.above().skip(self.above().len() - upper.len())
                                    =~= upper);
                                quiet = upper.len();
                                idle = idle + 1;
                                Self::lemma_loads_in_front_more(walk, true, *self, n);
                                walk = walk.push(*self);
                            }
                        },
                        Err(e) => {
                            return Err(e);
                        },
                    }
                },
            }
        }
    }

    /// Whether the cursor stands at the start of a line of the data: at the
    /// start of the data or behind a line end.
    pub open spec fn at_line_start(&self) -> bool {
        self.offset_view() == 0 || self.buffer().data_view()[self.offset_view() - 1] == NEWLINE
    }

    /// What holds of the view before and after a jump to the byte at `bytes`.
    pub open spec fn jump_to_byte_post(
        before: Self,
        bytes: u64,
        after: Self,
        moved: Result<(), ViewError>,
    ) -> bool {
        &&& after.wf()
        &&& after.same_file(&before)
        &&& moved is Ok ==> after.at_line_start()
        &&& moved is Ok && bytes == 0 ==> after.offset_view() == 0 && after.line_view()
            == Some(1i64)
        &&& moved is Ok && bytes != 0 ==> after.line_view() == if after.offset_view()
                == 0 {
                Some(1i64)
            } else {
                None
            }
        &&& moved matches Err(e) ==> e is InfiniteLoop || e is Other
        &&& moved matches Err(ViewError::InfiniteLoop) ==> stalled_align(after.above())
        &&& moved matches Err(ViewError::InfiniteLoop) ==> exists|walk: Seq<Self>| #[trigger]
            Self::idled_up(walk, true) && walk.last() == after
        &&& before.buffer().plain() ==> {
                let target = if bytes <= before.file().len() {
                    bytes as int
                } else {
                    before.file().len() as int
                };
                &&& moved is Ok ==> is_line_start_of(before.file(), target, after.cursor())
                &&& moved is Ok ==> after.line_view() == if after.cursor() == 0 {
                    Some(1i64)
                } else {
                    None
                }
                &&& moved is Err ==> after.cursor() == target
                &&& moved matches Err(e) ==> e is InfiniteLoop
                &&& bytes == 0 ==> moved is Ok && after.cursor() == 0
            }
        &&& bytes == 0 ==> (moved matches Err(e) ==> e is Other)
    }

    /// Moves the view to the line that holds the byte at offset `bytes` of
    /// the file, or to the line that holds the place before it where the
    /// buffer can open a window. A jump to byte 0 leads to line 1; after any
    /// other jump the line number is unknown, unless the line turns out to
    /// be the first one.
    pub fn jump_to_byte(&mut self, bytes: u64) -> (moved: Result<(), ViewError>)
        requires
            old(self).wf(),
        ensures
            Self::jump_to_byte_post(*old(self), bytes, *final(self), moved),
    {
        proof {
            self.buffer.lemma_window_bounds();
        }
        match self.buffer.jump(bytes) {
            Ok(_) => {},
            Err(e) => {
                return Err(view_error(e));
            },
        }
        self.view_offset = 0;
        if bytes == 0 {
            self.current_line = Some(1);
            proof {
                if self.buffer().plain() {
                    assert(newlines(old(self).file().subrange(0, 0)) == 0);
                }
            }
            Ok(())
        } else {
            self.current_line = None;
            let ghost before = self.above();
            let moved = self.align();
            proof {
                if moved is Ok {
                    let loaded = choose|loaded: Seq<u8>| #[trigger]
                        aligned_up(before, loaded, self.above());
                    let stream = loaded + before;
                    let cut = self.above().len() as int;
                    if cut > 0 {
                        assert(stream.take(cut)[cut - 1] == stream[cut - 1]);
                    }
                }
            }
            moved
        }
    }

    /// What holds of the view before and after a jump to the first line.
    pub open spec fn top_post(before: Self, after: Self, moved: Result<(), ViewError>) -> bool {
        &&& after.wf()
        &&& after.same_file(&before)
        &&& moved is Ok ==> after.offset_view() == 0 && after.line_view() == Some(
                1i64,
            )
        &&& moved matches Err(e) ==> e is Other
        &&& before.buffer().plain() ==> moved is Ok && after.cursor() == 0
    }

    /// Moves the view to the first line of the file.
    pub fn top(&mut self) -> (moved: Result<(), ViewError>)
        requires
            old(self).wf(),
        ensures
            Self::top_post(*old(self), *final(self), moved),
    {
        self.jump_to_byte(0)
    }

    /// What holds of the view before and after a jump to the end of the file.
    pub open spec fn bottom_post(before: Self, after: Self, moved: Result<(), ViewError>) -> bool {
        &&& after.wf()
        &&& after.same_file(&before)
        &&& moved is Ok ==> after.below().len() == 0 && after.line_view() == Some(
                0i64,
            )
        &&& moved is Err ==> after.state_view() == before.state_view()
            && after.buffer().data_view() == before.buffer().data_view()
        &&& moved matches Err(e) ==> e is Other
        &&& before.buffer().plain() ==> moved is Ok && after.cursor()
            == if before.file().len() > 0 {
                before.file().len() - 1
            } else {
                0
            }
    }

    /// Moves the view behind the data that the buffer opens at the last
    /// byte of the file. That place counts as line 0, from which the lines
    /// above are numbered downwards.
    pub fn bottom(&mut self) -> (moved: Result<(), ViewError>)
        requires
            old(self).wf(),
        ensures
            Self::bottom_post(*old(self), *final(self), moved),
    {
        proof {
            self.buffer.lemma_window_bounds();
        }
        let size = self.buffer.total_size();
        let last = if size > 0 {
            size - 1
        } else {
            0
        };
        match self.buffer.jump(last) {
            Ok(_) => {
                proof {
                    self.buffer.lemma_window_bounds();
                }
                self.view_offset = self.buffer.data().len();
                self.current_line = Some(0);
                Ok(())
            },
            Err(e) => Err(view_error(e)),
        }
    }

    /// Whether a jump to `line` counts the lines from an end of the file
    /// and not from where the view stands: it does where the line number of
    /// the view is unknown, or counted from the other end than `line` is,
    /// or farther from `line` than the end is.
    pub open spec fn counts_from_end(current: Option<i64>, line: i64) -> bool {
        match current {
            Some(x) => (line > 0) != (x > 0) || self::gap(line as int, x as int) > self::gap(
                line as int,
                0,
            ),
            None => true,
        }
    }

    /// What holds of the view before and after it went to the end of the
    /// file that `line` is counted from.
    pub open spec fn end_post(
        before: Self,
        line: i64,
        after: Self,
        moved: Result<(), ViewError>,
    ) -> bool {
        if line > 0 {
            Self::top_post(before, after, moved)
        } else {
            Self::bottom_post(before, after, moved)
        }
    }

    /// What holds of the view before and after it counted the lines from
    /// where it stood to line `line`.
    pub open spec fn counted_post(
        before: Self,
        line: i64,
        after: Self,
        moved: Result<(), ViewError>,
    ) -> bool {
        match before.line_view() {
            Some(x) if line > x => Self::down_post(before, (line - x) as u64, after, moved),
            Some(x) if line < x => Self::up_post(before, (x - line) as u64, after, moved),
            _ => moved is Ok && after == before,
        }
    }

    /// What holds of the view before and after a jump to line `line`.
    pub open spec fn jump_to_line_post(
        before: Self,
        line: i64,
        after: Self,
        moved: Result<(), ViewError>,
    ) -> bool {
        &&& after.wf()
        &&& after.same_file(&before)
        &&& moved is Ok ==> after.line_view() == Some(line) || (after.offset_view()
                == 0 && after.line_view() == Some(1i64))
        &&& moved matches Err(e) ==> e is EOF || e is BOF || e is InfiniteLoop || e is Other
        &&& if Self::counts_from_end(before.line_view(), line) {
                ||| moved is Err && Self::end_post(before, line, after, moved)
                ||| exists|mid: Self|
                    #[trigger] Self::end_post(before, line, mid, Ok(())) && Self::counted_post(
                        mid,
                        line,
                        after,
                        moved,
                    )
            } else {
                Self::counted_post(before, line, after, moved)
            }
    }

    /// Moves the view to line `line`: a line counted from the first line,
    /// which is line 1, where `line` is positive, and counted upwards from
    /// the end of the file, which is line 0, where it is not. The view
    /// counts the lines from where it stands if its line number is known,
    /// of the same kind and not farther from `line` than the end of the
    /// file that `line` is counted from; else it goes to that end first.
    /// From there it moves down or up by the lines that are left. Where it
    /// succeeds the view stands at line `line`, or at the very start of the
    /// file, which is always numbered 1.
    pub fn jump_to_line(&mut self, line: i64) -> (moved: Result<(), ViewError>)
        requires
            old(self).wf(),
        ensures
            Self::jump_to_line_post(*old(self), line, *final(self), moved),
    {
        let from_end = match self.current_line {
            Some(x) => {
                let far: i128 = if line >= x {
                    line as i128 - x as i128
                } else {
                    x as i128 - line as i128
                };
                let near: i128 = if line >= 0 {
                    line as i128
                } else {
                    -(line as i128)
                };
                (line > 0) != (x > 0) || far > near
            },
            None => true,
        };
        if from_end {
            let reset = if line > 0 {
                self.top()
            } else {
                self.bottom()
            };
            if let Err(e) = reset {
                return Err(e);
            }
        }
        let ghost mid = *self;
        let moved = match self.current_line {
            Some(x) => {
                if line > x {
                    self.down((line as i128 - x as i128) as u64)
                } else if line < x {
                    self.up((x as i128 - line as i128) as u64)
                } else {
                    Ok(())
                }
            },
            None => Ok(()),
        };
        proof {
            assert(Self::counted_post(mid, line, *self, moved));
            if from_end {
                assert(Self::end_post(*old(self), line, mid, Ok(())));
            }
        }
        moved
    }

    /// The place that the view stands at.
    pub fn save_state(&self) -> (state: ViewState)
        requires
            self.wf(),
        ensures
            state == self.state_view(),
    {
        proof {
            self.buffer.lemma_window_bounds();
        }
        ViewState {
            view_offset: self.view_offset,
            current_line: self.current_line,
            buffer_pos: self.buffer.range().start,
        }
    }

    /// What holds of the view before and after it went back to `state`.
    pub open spec fn load_state_post(
        before: Self,
        state: &ViewState,
        after: Self,
        moved: Result<(), ViewError>,
    ) -> bool {
        &&& after.wf()
        &&& after.same_file(&before)
        &&& moved is Ok ==> after.state_view() == *state
        &&& moved matches Err(e) ==> e is Other
        &&& before.buffer().plain() ==> (moved is Ok <==> state.buffer_pos + state.view_offset
                <= before.file().len())
    }

    /// Moves the view back to a place it was at. The buffer opens its
    /// window where it started then and loads data up to the cursor. Where
    /// the window cannot start there any more, or the data does not reach
    /// as far as the cursor was, the view is left where the buffer got to,
    /// with an unknown line number, and the call fails.
    pub fn load_state(&mut self, state: &ViewState) -> (moved: Result<(), ViewError>)
        requires
            old(self).wf(),
        ensures
            Self::load_state_post(*old(self), state, *final(self), moved),
    {
        proof {
            self.buffer.lemma_window_bounds();
        }
        let landed = match self.buffer.jump(state.buffer_pos) {
            Ok(at) => at,
            Err(e) => {
                return Err(view_error(e));
            },
        };
        proof {
            self.buffer.lemma_window_bounds();
        }
        if landed != state.buffer_pos {
            self.view_offset = 0;
            self.current_line = None;
            return Err(ViewError::Other("the place is no longer there".to_owned()));
        }
        self.view_offset = 0;
        self.current_line = None;
        loop
            invariant
                self.wf(),
                self.same_file(old(self)),
                self.view_offset == 0,
                self.buffer().range_start() == state.buffer_pos,
            decreases self.buffer().file().len() - self.buffer().range_end(),
        {
            proof {
                self.buffer.lemma_window_bounds();
            }
            if self.buffer.data().len() >= state.view_offset {
                self.view_offset = state.view_offset;
                self.current_line = state.current_line;
                return Ok(());
            }
            match self.buffer.load_next() {
                Ok(n) => {
                    if n == 0 {
                        return Err(ViewError::Other("the place is no longer there".to_owned()));
                    }
                    proof {
                        self.buffer.lemma_window_bounds();
                    }
                },
                Err(e) => {
                    return Err(view_error(e));
                },
            }
        }
    }

    /// Puts the view on another buffer, which stands on a later state of
    /// the same file, and goes back to the place where the view was.
    pub fn reopen(&mut self, buffer: B) -> (moved: Result<(), ViewError>)
        requires
            old(self).wf(),
            buffer.wf(),
        ensures
            final(self).wf(),
            final(self).buffer().file() == buffer.file(),
            final(self).buffer().floor() == buffer.floor(),
            final(self).buffer().searchable() == buffer.searchable(),
            final(self).buffer().plain() == buffer.plain(),
            final(self).path_view() == old(self).path_view(),
            moved is Ok ==> final(self).state_view() == old(self).state_view(),
            moved matches Err(e) ==> e is Other,
            buffer.plain() ==> (moved is Ok <==> old(self).state_view().buffer_pos + old(self).state_view().view_offset <= buffer.file().len()),
    {
        let state = self.save_state();
        self.buffer = buffer;
        self.view_offset = 0;
        self.current_line = None;
        proof {
            self.buffer.lemma_window_bounds();
        }
        if self.buffer.data().len() > 0 {
            let _ = self.buffer.shrink_to(Range { start: 0, end: 0 });
        }
        self.load_state(&state)
    }

    /// What holds of the view before and after it went back to `state`
    /// following a search that ended with `error`: the call fails with that
    /// error and the view stands at `state`, unless the view could not go
    /// back there, which a view over a plain buffer can wherever `state` is
    /// a place in the file.
    pub open spec fn gave_up(
        before: Self,
        state: ViewState,
        error: ViewError,
        after: Self,
        moved: Result<(), ViewError>,
    ) -> bool {
        &&& after.wf()
        &&& after.same_file(&before)
        &&& moved matches Err(e) && (e == error || e is Other)
        &&& moved == Err::<(), ViewError>(error) ==> after.state_view() == state
        &&& before.buffer().plain() && state.buffer_pos + state.view_offset
            <= before.file().len() ==> moved == Err::<(), ViewError>(error)
    }

    /// Goes back to `state` after a search that ended with `error`, and
    /// returns that error, or the error of going back.
    fn give_up(&mut self, state: &ViewState, error: ViewError) -> (moved: Result<(), ViewError>)
        requires
            old(self).wf(),
            error is NoMatchFound || error is Cancelled,
        ensures
            Self::gave_up(*old(self), *state, error, *final(self), moved),
    {
        match self.load_state(state) {
            Ok(()) => Err(error),
            Err(e) => Err(e),
        }
    }

    /// Whether the view `after` stands at the start of the line in which a
    /// match of `pattern` starts that the view `found` had in its data: the
    /// first match in the data below its cursor where `down` is set, and
    /// else the last match in the data above its cursor. `loaded` is the
    /// data that was loaded in front to get to the start of the line.
    pub open spec fn landed_on(
        found: Self,
        pattern: Seq<char>,
        down: bool,
        loaded: Seq<u8>,
        after: Self,
    ) -> bool {
        &&& found.wf()
        &&& found.same_file(&after)
        &&& if down {
            regex_first_match(pattern, found.below()) matches Some(m) && 0 <= m.0
                <= found.below().len() && aligned_up(
                found.above() + found.below().take(m.0),
                loaded,
                after.above(),
            )
        } else {
            regex_last_match(pattern, found.above()) matches Some(m) && 0 <= m.0
                <= found.above().len() && aligned_up(
                found.above().take(m.0),
                loaded,
                after.above(),
            )
        }
    }

    /// Whether the data of the view holds no match of `pattern` on the side
    /// that is searched: below the cursor where `down` is set, and else
    /// above it.
    pub open spec fn no_match(&self, pattern: Seq<char>, down: bool) -> bool {
        if down {
            regex_first_match(pattern, self.below()) is None
        } else {
            regex_last_match(pattern, self.above()) is None
        }
    }

    /// Whether `skipped` is the view `self` after it has skipped the data
    /// in which it found no match, but for a stretch of `MATCH_WINDOW`
    /// bytes next to where more data is loaded: the last bytes of the data
    /// below the cursor where `down` is set, and else the first bytes of
    /// the data.
    pub open spec fn skips_to(&self, down: bool, skipped: Self) -> bool {
        &&& skipped.buffer() == self.buffer()
        &&& skipped.line_view() == self.line_view()
        &&& skipped.path_view() == self.path_view()
        &&& skipped.offset_view() == if down {
            if self.below().len() > MATCH_WINDOW {
                self.offset_view() + self.below().len() - MATCH_WINDOW
            } else {
                self.offset_view() as int
            }
        } else {
            if self.offset_view() > MATCH_WINDOW {
                MATCH_WINDOW as int
            } else {
                self.offset_view() as int
            }
        }
    }

    /// What holds of the view before and after it had the buffer load more
    /// data, behind where `down` is set and else in front.
    pub open spec fn loaded_on(
        before: Self,
        down: bool,
        after: Self,
        loaded: Result<usize, ViewError>,
    ) -> bool {
        if down {
            Self::loaded_behind(before, after, loaded)
        } else {
            Self::loaded_in_front(before, after, loaded)
        }
    }

    /// Whether the view `next` is what the view `self` became by a round
    /// of a search without a match: its data held no match, it skipped the
    /// data, and more data was loaded. `ended` says whether nothing came.
    pub open spec fn searched_on(
        &self,
        pattern: Seq<char>,
        down: bool,
        next: Self,
        ended: bool,
    ) -> bool {
        &&& self.no_match(pattern, down)
        &&& exists|skipped: Self, n: usize|
            {
                &&& #[trigger] Self::loaded_on(skipped, down, next, Ok(n))
                &&& self.skips_to(down, skipped)
                &&& n == 0 <==> ended
            }
    }

    /// Whether each view of `walk` but the first is what the one before it
    /// became by a round of a search without a match in which data came.
    pub open spec fn searched_rounds(walk: Seq<Self>, pattern: Seq<char>, down: bool) -> bool {
        forall|i: int|
            0 <= i < walk.len() - 1 ==> (#[trigger] walk[i]).searched_on(
                pattern,
                down,
                walk[i + 1],
                false,
            )
    }

    /// Whether `walk` is the way of a search that found no match: rounds
    /// without a match in which data came, and a last round without a match
    /// in which nothing came where `ended` is set, and data came where it
    /// is not.
    pub open spec fn searched_out(
        walk: Seq<Self>,
        pattern: Seq<char>,
        down: bool,
        ended: bool,
    ) -> bool {
        &&& walk.len() >= 2
        &&& Self::searched_rounds(walk.drop_last(), pattern, down)
        &&& walk[walk.len() - 2].searched_on(pattern, down, walk.last(), ended)
    }

    /// One more round after some rounds of a search.
    pub proof fn lemma_searched_more(walk: Seq<Self>, pattern: Seq<char>, down: bool, next: Self)
        requires
            walk.len() > 0,
            Self::searched_rounds(walk, pattern, down),
            walk.last().searched_on(pattern, down, next, false),
        ensures
            Self::searched_rounds(walk.push(next), pattern, down),
    {
        let longer = walk.push(next);
        assert forall|i: int| 0 <= i < longer.len() - 1 implies (#[trigger] longer[i]).searched_on(
            pattern,
            down,
            longer[i + 1],
            false,
        ) by {
            if i < walk.len() - 1 {
                assert(longer[i] == walk[i]);
                assert(longer[i + 1] == walk[i + 1]);
            } else {
                assert(longer[i] == walk.last());
                assert(longer[i + 1] == next);
            }
        }
    }

    /// What holds of the view before and after it searched the data by
    /// itself, for a buffer that does not search, downwards where `down` is
    /// set and else upwards. `state` is the place that the view goes back
    /// to when the search ends without a match.
    pub open spec fn scanned(
        before: Self,
        state: ViewState,
        pattern: Seq<char>,
        down: bool,
        after: Self,
        moved: Result<(), ViewError>,
    ) -> bool {
        &&& after.wf()
        &&& after.same_file(&before)
        &&& moved is Ok ==> after.at_line_start()
        &&& moved is Ok ==> exists|found: Self, loaded: Seq<u8>| #[trigger]
            Self::landed_on(found, pattern, down, loaded, after)
        &&& moved is Ok ==> after.line_view() == if after.offset_view() == 0 {
                Some(1i64)
            } else {
                None
            }
        &&& moved matches Err(e) ==> e is NoMatchFound || e is Cancelled || e is InfiniteLoop
            || e is Other
        &&& moved matches Err(e) ==> (e is NoMatchFound || e is Cancelled ==> after.state_view()
            == state)
        &&& !before.no_match(pattern, down) ==> moved is Ok || (moved matches Err(e) && (e
            is InfiniteLoop || e is Other))
        &&& moved matches Err(ViewError::NoMatchFound) ==> exists|walk: Seq<Self>| #[trigger]
            Self::searched_out(walk, pattern, down, true) && walk[0] == before
        &&& moved matches Err(ViewError::Cancelled) ==> exists|walk: Seq<Self>| #[trigger]
            Self::searched_out(walk, pattern, down, false) && walk[0] == before
        &&& before.buffer().plain() ==> {
            &&& moved is Ok ==> (after.offset_view() == 0 <==> after.cursor() == 0)
            &&& state.buffer_pos + state.view_offset <= before.file().len() ==> (moved matches Err(
                e,
            ) ==> !(e is Other))
        }
    }

    /// What the view does with the answer of the buffer to a search, where
    /// `state` is the place it goes back to without a match. It jumps to
    /// the byte at which a match starts. Without a match it goes back and
    /// fails with `NoMatchFound`, and with `Cancelled` where the buffer was
    /// interrupted. An error of the buffer is handed on by its text. Where
    /// the buffer does not search, the view searches the data by itself.
    pub open spec fn answered(
        before: Self,
        answer: Result<Option<Range<u64>>, BufferError>,
        state: ViewState,
        pattern: Seq<char>,
        down: bool,
        after: Self,
        moved: Result<(), ViewError>,
    ) -> bool {
        match answer {
            Ok(Some(m)) => Self::jump_to_byte_post(before, m.start, after, moved),
            Ok(None) => Self::gave_up(before, state, ViewError::NoMatchFound, after, moved),
            Err(BufferError::Interrupted) => Self::gave_up(
                before,
                state,
                ViewError::Cancelled,
                after,
                moved,
            ),
            Err(BufferError::Unsupported) => Self::scanned(
                before,
                state,
                pattern,
                down,
                after,
                moved,
            ),
            Err(BufferError::Failed(text)) => moved == Err::<(), ViewError>(ViewError::Other(text))
                && after == before,
        }
    }

    /// Acts on the answer of the buffer to a search downwards.
    pub fn answer_down(
        &mut self,
        answer: Result<Option<Range<u64>>, BufferError>,
        pattern: &SearchPattern,
        cancelled: &AtomicBool,
        state: &ViewState,
    ) -> (moved: Result<(), ViewError>)
        requires
            old(self).wf(),
        ensures
            Self::answered(*old(self), answer, *state, pattern@, true, *final(self), moved),
    {
        match answer {
            Ok(Some(m)) => self.jump_to_byte(m.start),
            Ok(None) => self.give_up(state, ViewError::NoMatchFound),
            Err(BufferError::Interrupted) => self.give_up(state, ViewError::Cancelled),
            Err(BufferError::Unsupported) => self.scan_down(pattern, cancelled, state),
            Err(BufferError::Failed(text)) => Err(ViewError::Other(text)),
        }
    }

    /// Acts on the answer of the buffer to a search upwards.
    pub fn answer_up(
        &mut self,
        answer: Result<Option<Range<u64>>, BufferError>,
        pattern: &SearchPattern,
        cancelled: &AtomicBool,
        state: &ViewState,
    ) -> (moved: Result<(), ViewError>)
        requires
            old(self).wf(),
        ensures
            Self::answered(*old(self), answer, *state, pattern@, false, *final(self), moved),
    {
        match answer {
            Ok(Some(m)) => self.jump_to_byte(m.start),
            Ok(None) => self.give_up(state, ViewError::NoMatchFound),
            Err(BufferError::Interrupted) => self.give_up(state, ViewError::Cancelled),
            Err(BufferError::Unsupported) => self.scan_up(pattern, cancelled, state),
            Err(BufferError::Failed(text)) => Err(ViewError::Other(text)),
        }
    }

    /// Searches the data below the cursor for `pattern`, loading more data
    /// as long as there is no match. Between two rounds the cursor skips
    /// all but the last bytes of the data that held no match.
    fn scan_down(&mut self, pattern: &SearchPattern, cancelled: &AtomicBool,
        state: &ViewState) -> (moved:
        Result<(), ViewError>)
        requires
            old(self).wf(),
        ensures
            Self::scanned(*old(self), *state, pattern@, true, *final(self), moved),
    {
        let ghost mut walk = seq![*self];
        loop
            invariant
                self.wf(),
                self.same_file(old(self)),
                walk.len() > 0,
                walk[0] == *old(self),
                walk.last() == *self,
                Self::searched_rounds(walk, pattern@, true),
                walk.len() > 1 ==> old(self).no_match(pattern@, true),
            decreases self.buffer().file().len() - self.buffer().range_end(),
        {
            proof {
                self.buffer.lemma_window_bounds();
            }
            let ghost round = *self;
            let below = self.current_view();
            let len = below.len();
            if let Some((start, end)) = find_first(pattern, below) {
                let ghost found = *self;
                self.view_offset = self.view_offset + start;
                self.current_line = None;
                let ghost reached = self.above();
                let moved = self.align();
                proof {
                    assert(reached =~= found.above() + found.below().take(start as int));
                    if moved is Ok {
                        let loaded = choose|loaded: Seq<u8>| #[trigger]
                            aligned_up(reached, loaded, self.above());
                        assert(Self::landed_on(found, pattern@, true, loaded, *self));
                    }
                }
                return moved;
            }
            let skip = if len > MATCH_WINDOW {
                len - MATCH_WINDOW
            } else {
                0
            };
            self.view_offset = self.view_offset + skip;
            let ghost skipped = *self;
            let loaded = match self.load_next() {
                Ok(n) => n,
                Err(e) => {
                    let _ = self.load_state(state);
                    return Err(e);
                },
            };
            let ghost next = *self;
            proof {
                self.buffer.lemma_window_bounds();
                assert(round.skips_to(true, skipped));
                assert(Self::loaded_on(skipped, true, next, Ok(loaded)));
                assert(round.searched_on(pattern@, true, next, loaded == 0));
                assert(walk.push(next).drop_last() =~= walk);
            }
            match after_load(loaded, is_cancelled(cancelled)) {
                Round::NoMatch => {
                    let moved = self.give_up(state, ViewError::NoMatchFound);
                    proof {
                        assert(Self::searched_out(walk.push(next), pattern@, true, true));
                    }
                    return moved;
                },
                Round::Cancelled => {
                    let moved = self.give_up(state, ViewError::Cancelled);
                    proof {
                        assert(Self::searched_out(walk.push(next), pattern@, true, false));
                    }
                    return moved;
                },
                _ => {
                    proof {
                        Self::lemma_searched_more(walk, pattern@, true, next);
                        walk = walk.push(next);
                    }
                },
            }
        }
    }

    /// Searches the data above the cursor for `pattern`, loading more data
    /// as long as there is no match. Between two rounds the cursor skips
    /// all but the first bytes of the data that held no match.
    fn scan_up(&mut self, pattern: &SearchPattern, cancelled: &AtomicBool,
        state: &ViewState) -> (moved:
        Result<(), ViewError>)
        requires
            old(self).wf(),
        ensures
            Self::scanned(*old(self), *state, pattern@, false, *final(self), moved),
    {
        let ghost mut walk = seq![*self];
        loop
            invariant
                self.wf(),
                self.same_file(old(self)),
                walk.len() > 0,
                walk[0] == *old(self),
                walk.last() == *self,
                Self::searched_rounds(walk, pattern@, false),
                walk.len() > 1 ==> old(self).no_match(pattern@, false),
            decreases self.buffer().range_start(),
        {
            let ghost round = *self;
            let above = self.above_view();
            if let Some((start, end)) = pattern.last_match(above) {
                let ghost found = *self;
                self.view_offset = start;
                self.current_line = None;
                let ghost reached = self.above();
                let moved = self.align();
                proof {
                    assert(reached =~= found.above().take(start as int));
                    if moved is Ok {
                        let loaded = choose|loaded: Seq<u8>| #[trigger]
                            aligned_up(reached, loaded, self.above());
                        assert(Self::landed_on(found, pattern@, false, loaded, *self));
                    }
                }
                return moved;
            }
            if self.view_offset > MATCH_WINDOW {
                self.view_offset = MATCH_WINDOW;
            }
            let ghost skipped = *self;
            let loaded = match self.load_prev() {
                Ok(n) => n,
                Err(e) => {
                    let _ = self.load_state(state);
                    return Err(e);
                },
            };
            let ghost next = *self;
            proof {
                assert(round.skips_to(false, skipped));
                assert(Self::loaded_on(skipped, false, next, Ok(loaded)));
                assert(round.searched_on(pattern@, false, next, loaded == 0));
                assert(walk.push(next).drop_last() =~= walk);
            }
            match after_load(loaded, is_cancelled(cancelled)) {
                Round::NoMatch => {
                    let moved = self.give_up(state, ViewError::NoMatchFound);
                    proof {
                        assert(Self::searched_out(walk.push(next), pattern@, false, true));
                    }
                    return moved;
                },
                Round::Cancelled => {
                    let moved = self.give_up(state, ViewError::Cancelled);
                    proof {
                        assert(Self::searched_out(walk.push(next), pattern@, false, false));
                    }
                    return moved;
                },
                _ => {
                    proof {
                        Self::lemma_searched_more(walk, pattern@, false, next);
                        walk = walk.push(next);
                    }
                },
            }
        }
    }

    /// What holds of the answer of the buffer to a search from where the
    /// view stands, downwards where `down` is set and else upwards, and of
    /// the view `asked` after the buffer was asked: the view stands where
    /// it stood with the data it had, and the answer is the match that the
    /// buffer reports, if it gives one.
    pub open spec fn sought(
        before: Self,
        pattern: Seq<char>,
        down: bool,
        asked: Self,
        answer: Result<Option<Range<u64>>, BufferError>,
    ) -> bool {
        let at = before.offset_view();
        &&& asked.wf()
        &&& asked.same_file(&before)
        &&& asked.state_view() == before.state_view()
        &&& asked.buffer().data_view() == before.buffer().data_view()
        &&& asked.buffer().range_end() == before.buffer().range_end()
        &&& answer matches Ok(Some(m)) ==> m.start <= m.end <= before.file().len()
        &&& answer matches Ok(m) ==> as_found(m) == if down {
            before.buffer().forward_match(pattern, at)
        } else {
            before.buffer().backward_match(pattern, at)
        }
        &&& (answer matches Err(BufferError::Unsupported)) <==> !before.buffer().searchable()
        &&& before.buffer().searchable() && (if down {
            before.buffer().answers_forward(pattern, at)
        } else {
            before.buffer().answers_backward(pattern, at)
        }) ==> (answer matches Ok(Some(_)))
        &&& before.buffer().plain() ==> (answer matches Err(e) ==> !(e is Failed))
    }

    /// What holds of the view before and after a search downwards that
    /// starts where the view stands. `state` is the place that the view goes
    /// back to when the search ends without a match.
    pub open spec fn searched_down(
        before: Self,
        state: ViewState,
        pattern: Seq<char>,
        after: Self,
        moved: Result<(), ViewError>,
    ) -> bool {
        &&& after.wf()
        &&& after.same_file(&before)
        &&& moved is Ok ==> after.at_line_start()
        &&& moved is Ok ==> after.line_view() == if after.offset_view() == 0 {
                Some(1i64)
            } else {
                None
            }
        &&& moved matches Err(e) ==> e is NoMatchFound || e is Cancelled || e is InfiniteLoop
            || e is Other
        &&& moved matches Err(e) ==> (e is NoMatchFound || e is Cancelled ==> after.state_view()
            == state)
        &&& before.buffer().searchable() ==> {
            let found = before.buffer().forward_match(pattern, before.offset_view());
            &&& moved is Ok ==> found is Some
            &&& moved matches Err(ViewError::NoMatchFound) ==> found is None
            &&& moved is Ok && before.buffer().plain() ==> is_line_start_of(
                before.file(),
                found.unwrap().0,
                after.cursor(),
            )
            &&& before.buffer().answers_forward(pattern, before.offset_view()) ==> (
            moved matches Err(e) ==> e is InfiniteLoop || e is Other)
        }
        &&& before.buffer().plain() ==> {
            &&& moved is Ok ==> after.line_view() == if after.cursor() == 0 {
                Some(1i64)
            } else {
                None
            }
            &&& state.buffer_pos + state.view_offset <= before.file().len() ==> (moved matches Err(
                e,
            ) ==> !(e is Other))
        }
        &&& exists|asked: Self, answer: Result<Option<Range<u64>>, BufferError>|
            {
                &&& #[trigger] Self::answered(asked, answer, state, pattern, true, after, moved)
                &&& Self::sought(before, pattern, true, asked, answer)
            }
    }

    /// What holds of the view before and after a search downwards: the
    /// search starts where the view stands, or where a motion down by one
    /// line has left it where the line of the cursor is skipped, and
    /// without a match the view is back where it was before that motion.
    pub open spec fn down_to_line_matching_post(
        before: Self,
        pattern: Seq<char>,
        skip_current: bool,
        after: Self,
        moved: Result<(), ViewError>,
    ) -> bool {
        &&& after.same_file(&before)
        &&& if skip_current {
            exists|from: Self, skipped: Result<(), ViewError>|
                {
                    &&& #[trigger] Self::down_post(before, 1, from, skipped)
                    &&& Self::searched_down(from, before.state_view(), pattern, after, moved)
                }
        } else {
            Self::searched_down(before, before.state_view(), pattern, after, moved)
        }
    }

    /// Searches downwards from where the view stands.
    fn seek_down(&mut self, pattern: &SearchPattern, cancelled: &AtomicBool, state: &ViewState) -> (moved:
        Result<(), ViewError>)
        requires
            old(self).wf(),
        ensures
            Self::searched_down(*old(self), *state, pattern@, *final(self), moved),
    {
        proof {
            self.buffer.lemma_window_bounds();
        }
        let answer = self.buffer.seek_from(pattern, self.view_offset as u64, cancelled);
        let ghost asked = *self;
        let ghost given = answer;
        proof {
            self.buffer.lemma_window_bounds();
        }
        let moved = self.answer_down(answer, pattern, cancelled, state);
        proof {
            assert(Self::sought(*old(self), pattern@, true, asked, given));
            assert(Self::answered(asked, given, *state, pattern@, true, *self, moved));
        }
        moved
    }

    /// Moves the view to the line of the first match of `pattern` at or
    /// below the cursor, or below the line of the cursor where
    /// `skip_current` is set.
    ///
    /// A buffer that searches by itself is asked for the match, and the
    /// view jumps to the byte at which the match starts; with any other
    /// buffer the view searches the data itself. Without a match the call
    /// fails with `NoMatchFound`, and with `Cancelled` where the flag was
    /// seen set; in both cases the view is back at the place where it was.
    /// After a match the line number is unknown, unless the match lies in
    /// the first line.
    pub fn down_to_line_matching(
        &mut self,
        pattern: &SearchPattern,
        skip_current: bool,
        cancelled: &AtomicBool,
    ) -> (moved: Result<(), ViewError>)
        requires
            old(self).wf(),
        ensures
            Self::down_to_line_matching_post(
                *old(self),
                pattern@,
                skip_current,
                *final(self),
                moved,
            ),
    {
        let state = self.save_state();
        if skip_current {
            let skipped = self.down(1);
            let ghost from = *self;
            let moved = self.seek_down(pattern, cancelled, &state);
            proof {
                assert(Self::down_post(*old(self), 1, from, skipped));
                assert(Self::searched_down(from, old(self).state_view(), pattern@, *self, moved));
            }
            moved
        } else {
            self.seek_down(pattern, cancelled, &state)
        }
    }

    /// What holds of the view before and after a search upwards.
    pub open spec fn up_to_line_matching_post(
        before: Self,
        pattern: Seq<char>,
        after: Self,
        moved: Result<(), ViewError>,
    ) -> bool {
        &&& after.wf()
        &&& after.same_file(&before)
        &&& moved is Ok ==> after.at_line_start()
        &&& moved is Ok ==> after.line_view() == if after.offset_view() == 0 {
                Some(1i64)
            } else {
                None
            }
        &&& moved matches Err(e) ==> e is NoMatchFound || e is Cancelled || e is InfiniteLoop
                || e is Other
        &&& moved matches Err(e) ==> (e is NoMatchFound || e is Cancelled
            ==> after.state_view() == before.state_view())
        &&& before.buffer().searchable() ==> {
                let found = before.buffer().backward_match(pattern, before.offset_view());
                &&& moved is Ok ==> found is Some
                &&& moved matches Err(ViewError::NoMatchFound) ==> found is None
                &&& moved is Ok && before.buffer().plain() ==> is_line_start_of(
                    before.file(),
                    found.unwrap().0,
                    after.cursor(),
                )
                &&& before.buffer().answers_backward(pattern, before.offset_view()) ==> (
                moved matches Err(e) ==> e is InfiniteLoop || e is Other)
            }
        &&& before.buffer().plain() ==> {
                &&& moved is Ok ==> after.line_view() == if after.cursor() == 0 {
                    Some(1i64)
                } else {
                    None
                }
                &&& moved matches Err(e) ==> !(e is Other)
            }
        &&& exists|asked: Self, answer: Result<Option<Range<u64>>, BufferError>|
            {
                &&& #[trigger] Self::answered(
                    asked,
                    answer,
                    before.state_view(),
                    pattern,
                    false,
                    after,
                    moved,
                )
                &&& Self::sought(before, pattern, false, asked, answer)
            }
    }

    /// Moves the view to the line of the last match of `pattern` above the
    /// cursor, in the way in which `down_to_line_matching` searches below
    /// it.
    pub fn up_to_line_matching(&mut self, pattern: &SearchPattern,
        cancelled: &AtomicBool) -> (moved:
        Result<(), ViewError>)
        requires
            old(self).wf(),
        ensures
            Self::up_to_line_matching_post(*old(self), pattern@, *final(self), moved),
    {
        let state = self.save_state();
        proof {
            self.buffer.lemma_window_bounds();
        }
        let answer = self.buffer.rseek_from(pattern, self.view_offset as u64, cancelled);
        let ghost asked = *self;
        let ghost given = answer;
        proof {
            self.buffer.lemma_window_bounds();
        }
        let moved = self.answer_up(answer, pattern, cancelled, &state);
        proof {
            assert(Self::sought(*old(self), pattern@, false, asked, given));
            assert(Self::answered(asked, given, state, pattern@, false, *self, moved));
        }
        moved
    }

    /// The lines of text below the cursor, and the number of them that are
    /// known to be whole: all but the last one where the data does not end
    /// with a line end.
    fn lines_below(&self) -> (found: (Vec<String>, usize))
        requires
            self.wf(),
        ensures
            texts(found.0@) == text_lines(self.below()),
            found.1 <= found.0@.len(),
            found.1 == whole_text_lines(self.below()),
    {
        let text = decode_utf8(self.current_view());
        let lines = split_lines(text.as_str());
        assert(texts(lines@) =~= text_lines(self.below()));
        assert(lines@.len() == texts(lines@).len());
        let whole = if ends_with_line_end(text.as_str()) || lines.len() == 0 {
            lines.len()
        } else {
            lines.len() - 1
        };
        (lines, whole)
    }

    /// Whether the view has loaded all that there is behind its data: a load
    /// behind brought nothing and left it as it is. A plain buffer then
    /// holds the file up to its end.
    pub open spec fn at_end(&self) -> bool {
        exists|last: Self| #[trigger] Self::loaded_behind(last, *self, Ok(0))
    }

    /// Whether the view showed the lines that fill the screen from where it
    /// stood: the cursor and the line number are what they were, more data
    /// may have been loaded behind, and the lines shown are the lines of
    /// the data below the cursor that fill the screen. They are whole
    /// lines: lines that the data holds to their end, unless all data is
    /// loaded.
    pub open spec fn shown_in_place(
        before: Self,
        nlines: usize,
        ncols: Option<usize>,
        after: Self,
        shown: Result<Vec<String>, ViewError>,
    ) -> bool {
        &&& after.line_view() == before.line_view()
        &&& before.below().len() <= after.below().len()
        &&& after.below().take(before.below().len() as int) == before.below()
        &&& before.buffer().plain() ==> after.cursor() == before.cursor()
        &&& shown matches Ok(lines) && clip(text_lines(after.below()), 0, 0, nlines, ncols)
            == Some(lines@.len() as nat)
        &&& fills_screen(after.below(), nlines, ncols) || after.at_end()
    }

    /// Whether `walk` is a way up line by line: each of its views is reached
    /// from the one before by going up one line, and the lines below the
    /// cursor did not fill the screen in any of them but the first and the
    /// last.
    pub open spec fn walked_up(walk: Seq<Self>, nlines: usize, ncols: Option<usize>) -> bool {
        &&& walk.len() > 0
        &&& forall|i: int|
            0 <= i < walk.len() - 1 ==> Self::up_post(#[trigger] walk[i], 1, walk[i + 1], Ok(()))
        &&& forall|i: int|
            0 < i < walk.len() - 1 ==> total_height(
                text_lines((#[trigger] walk[i]).below()),
                ncols,
            ) < nlines
    }

    /// One more step up after a way up.
    pub proof fn lemma_walked_up_more(
        walk: Seq<Self>,
        nlines: usize,
        ncols: Option<usize>,
        next: Self,
    )
        requires
            Self::walked_up(walk, nlines, ncols),
            Self::up_post(walk.last(), 1, next, Ok(())),
            walk.len() > 1 ==> total_height(text_lines(walk.last().below()), ncols) < nlines,
        ensures
            Self::walked_up(walk.push(next), nlines, ncols),
    {
        let longer = walk.push(next);
        assert forall|i: int| 0 <= i < longer.len() - 1 implies Self::up_post(
            #[trigger] longer[i],
            1,
            longer[i + 1],
            Ok(()),
        ) by {
            if i < walk.len() - 1 {
                assert(longer[i] == walk[i]);
                assert(longer[i + 1] == walk[i + 1]);
            } else {
                assert(longer[i] == walk.last());
                assert(longer[i + 1] == next);
            }
        }
        assert forall|i: int| 0 < i < longer.len() - 1 implies total_height(
            text_lines((#[trigger] longer[i]).below()),
            ncols,
        ) < nlines by {
            assert(longer[i] == walk[i]);
        }
    }

    /// What holds of the view `ended` that has loaded the data up to the
    /// end of the file without finding lines that fill the screen: it
    /// stands where the view `before` stood, with more data behind what
    /// that view had.
    pub open spec fn loaded_to_end(
        before: Self,
        nlines: usize,
        ncols: Option<usize>,
        ended: Self,
    ) -> bool {
        &&& ended.wf()
        &&& ended.same_file(&before)
        &&& ended.line_view() == before.line_view()
        &&& before.below().len() <= ended.below().len()
        &&& ended.below().take(before.below().len() as int) == before.below()
        &&& clip(text_lines(ended.below()), 0, 0, nlines, ncols) is None
        &&& ended.at_end()
        &&& before.buffer().plain() ==> ended.cursor() == before.cursor()
            && ended.buffer().range_end() == before.file().len()
    }

    /// What holds of the view where the file ended before its lines filled
    /// the screen: from where it stood with all data loaded, which is the
    /// first view of `walk`, the view went up line by line, to the last
    /// view of `walk`, until going up failed, or the lines below the cursor
    /// filled the screen, or more than filled it, in which case it went
    /// down one line again. All lines of the data below the cursor are
    /// shown.
    pub open spec fn shown_from_above(
        walk: Seq<Self>,
        nlines: usize,
        ncols: Option<usize>,
        after: Self,
        shown: Result<Vec<String>, ViewError>,
    ) -> bool {
        let top = walk.last();
        let rows = total_height(text_lines(top.below()), ncols);
        &&& Self::walked_up(walk, nlines, ncols)
        &&& shown matches Ok(lines) && texts(lines@) == text_lines(after.below())
        &&& {
            ||| exists|failed: ViewError| #[trigger]
                Self::up_post(top, 1, after, Err(failed)) && (walk.len() > 1 ==> rows < nlines)
            ||| walk.len() > 1 && rows == nlines && after == top
            ||| walk.len() > 1 && rows > nlines && exists|back: Result<(), ViewError>| #[trigger]
                Self::down_post(top, 1, after, back)
        }
    }

    /// What holds of the view before and after it made the lines for a screen.
    pub open spec fn view_post(
        before: Self,
        nlines: usize,
        ncols: Option<usize>,
        after: Self,
        shown: Result<Vec<String>, ViewError>,
    ) -> bool {
        &&& after.wf()
        &&& after.same_file(&before)
        &&& shown matches Ok(lines) ==> is_shown(
                texts(lines@),
                text_lines(after.below()),
                nlines,
                ncols,
            )
        &&& shown matches Err(e) ==> e is Other
        &&& before.buffer().plain() ==> shown is Ok
        &&& shown is Ok ==> {
                ||| Self::shown_in_place(before, nlines, ncols, after, shown)
                ||| exists|walk: Seq<Self>|
                    {
                        &&& #[trigger] Self::shown_from_above(walk, nlines, ncols, after, shown)
                        &&& Self::loaded_to_end(before, nlines, ncols, walk[0])
                    }
            }
        &&& fills_screen(before.below(), nlines, ncols) ==> after == before
    }

    /// Goes up line by line until the lines below the cursor fill the
    /// screen, or going up fails, and shows all lines below the cursor.
    fn walk_up(&mut self, nlines: usize, ncols: Option<usize>) -> (shown: Result<
        Vec<String>,
        ViewError,
    >)
        requires
            old(self).wf(),
            ncols != Some(0usize),
        ensures
            final(self).wf(),
            final(self).same_file(old(self)),
            shown matches Ok(lines) && is_shown(
                texts(lines@),
                text_lines(final(self).below()),
                nlines,
                ncols,
            ),
            exists|walk: Seq<Self>| #[trigger]
                Self::shown_from_above(walk, nlines, ncols, *final(self), shown) && walk[0] == *old(
                    self,
                ),
    {
        let ghost mut walk = seq![*self];
        loop
            invariant
                self.wf(),
                self.same_file(old(self)),
                ncols != Some(0usize),
                Self::walked_up(walk, nlines, ncols),
                walk[0] == *old(self),
                walk.last() == *self,
                walk.len() > 1 ==> total_height(text_lines(self.below()), ncols) < nlines,
            decreases self.buffer().range_start(), self.above().len(),
        {
            let ghost lower = *self;
            let went = self.up(1);
            if let Err(failed) = went {
                let (lines, whole) = self.lines_below();
                assert(texts(lines@).take(texts(lines@).len() as int) =~= texts(lines@));
                let shown = Ok(lines);
                proof {
                    assert(Self::up_post(lower, 1, *self, Err(failed)));
                    assert(Self::shown_from_above(walk, nlines, ncols, *self, shown));
                }
                return shown;
            }
            proof {
                assert(Self::up_post(lower, 1, *self, Ok(())));
                Self::lemma_walked_up_more(walk, nlines, ncols, *self);
                walk = walk.push(*self);
            }
            let ghost top = *self;
            let (lines, whole) = self.lines_below();
            let rows = rows_of(&lines, ncols);
            if rows >= nlines as u128 {
                if rows > nlines as u128 {
                    let back = self.down(1);
                    let (fewer, whole) = self.lines_below();
                    assert(texts(fewer@).take(texts(fewer@).len() as int) =~= texts(fewer@));
                    let shown = Ok(fewer);
                    proof {
                        assert(Self::down_post(top, 1, *self, back));
                        assert(Self::shown_from_above(walk, nlines, ncols, *self, shown));
                    }
                    return shown;
                }
                assert(texts(lines@).take(texts(lines@).len() as int) =~= texts(lines@));
                let shown = Ok(lines);
                proof {
                    assert(Self::shown_from_above(walk, nlines, ncols, *self, shown));
                }
                return shown;
            }
        }
    }

    /// The lines that a screen of `nlines` rows shows from the cursor on,
    /// where a line is wrapped after `ncols` columns if `ncols` is given.
    ///
    /// Where the whole lines that the data holds below the cursor fill the
    /// screen, they are shown and the view stays as it is. Else data is
    /// loaded until they do, and the cursor stays where it is; a last line
    /// that the data does not hold to its end counts only when all data is
    /// loaded. Where the file ends before the lines below the cursor fill
    /// the screen, the cursor goes up line by line until they do or the
    /// start of the file is reached, and all lines below it are shown. Over
    /// a plain buffer the call does not fail.
    pub fn view(&mut self, nlines: usize, ncols: Option<usize>) -> (shown: Result<
        Vec<String>,
        ViewError,
    >)
        requires
            old(self).wf(),
            ncols != Some(0usize),
        ensures
            Self::view_post(*old(self), nlines, ncols, *final(self), shown),
    {
        let mut at_end = false;
        let ghost mut untouched = true;
        let ghost mut last = *self;
        while !at_end
            invariant
                self.wf(),
                self.same_file(old(self)),
                ncols != Some(0usize),
                untouched ==> *self == *old(self) && !at_end,
                !untouched ==> !fills_screen(old(self).below(), nlines, ncols),
                old(self).wf(),
                self.line_view() == old(self).line_view(),
                old(self).below().len() <= self.below().len(),
                self.below().take(old(self).below().len() as int) == old(self).below(),
                old(self).buffer().plain() ==> self.cursor() == old(self).cursor(),
                at_end ==> Self::loaded_behind(last, *self, Ok(0)),
            decreases
                    (if at_end {
                        0int
                    } else {
                        1int
                    }),
                    self.buffer().file().len() - self.buffer().range_end(),
        {
            proof {
                self.buffer.lemma_window_bounds();
            }
            let (mut lines, whole) = self.lines_below();
            if let Some(k) = clip_count(&lines, whole, nlines, ncols) {
                let ghost all = texts(lines@);
                lines.truncate(k);
                assert(texts(lines@) =~= all.take(k as int));
                return Ok(lines);
            }
            proof {
                untouched = false;
                last = *self;
            }
            match self.load_next() {
                Ok(n) => {
                    if n == 0 {
                        at_end = true;
                    }
                },
                Err(e) => {
                    return Err(e);
                },
            }
            proof {
                self.buffer.lemma_window_bounds();
                assert(self.below().take(old(self).below().len() as int) =~= old(self).below());
            }
        }
        let (mut lines, whole) = self.lines_below();
        let count = lines.len();
        assert(texts(lines@).take(count as int) =~= texts(lines@));
        assert(self.at_end());
        if let Some(k) = clip_count(&lines, count, nlines, ncols) {
            let ghost all = texts(lines@);
            lines.truncate(k);
            assert(texts(lines@) =~= all.take(k as int));
            return Ok(lines);
        }
        proof {
            self.buffer.lemma_window_bounds();
            if old(self).buffer().plain() {
                self.lemma_plain_view();
            }
            assert(Self::loaded_to_end(*old(self), nlines, ncols, *self));
        }
        let ghost ended = *self;
        let shown = self.walk_up(nlines, ncols);
        proof {
            let walk = choose|walk: Seq<Self>| #[trigger]
                Self::shown_from_above(walk, nlines, ncols, *self, shown) && walk[0] == ended;
            assert(Self::loaded_to_end(*old(self), nlines, ncols, walk[0]));
        }
        shown
    }

    /// Going up by some lines and then down by as many leads back to where
    /// the view was, if it stood at the start of a line and the data above
    /// it held that many lines: the two motions succeed without loading, and
    /// the cursor and the line number are what they were. Where the line
    /// number was known, the number of the line reached on the way up has
    /// to be one that the view can hold.
    pub proof fn lemma_up_then_down_returns(
        start: Self,
        upper: Self,
        back: Self,
        lines: u64,
        up: Result<(), ViewError>,
        down: Result<(), ViewError>,
    )
        requires
            start.wf(),
            lines > 0,
            start.at_line_start(),
            start.lines_above(lines),
            start.line_view() is Some ==> shifted_line(start.line_view(), -(lines as int)) is Some,
            Self::up_post(start, lines, upper, up),
            Self::down_post(upper, lines, back, down),
        ensures
            up is Ok,
            down is Ok,
            back.buffer() == start.buffer(),
            back.offset_view() == start.offset_view(),
            back.line_view() == start.line_view(),
    {
        start.buffer.lemma_window_bounds();
        let data = start.buffer().data_view();
        let origin = start.offset_view() as int;
        let (loaded, count) = choose|loaded: Seq<u8>, count: nat|
            {
                &&& #[trigger] moved_up(start.above(), loaded, upper.above(), count)
                &&& count <= lines
                &&& up is Ok <==> count == lines
                &&& upper.line_view() == if upper.offset_view() == 0 && (count > 0 || up == Err::<
                    (),
                    ViewError,
                >(ViewError::BOF)) {
                    Some(1i64)
                } else {
                    shifted_line(start.line_view(), -(count as int))
                }
                &&& start.lines_above(lines) ==> loaded.len() == 0
            };
        assert(loaded =~= Seq::<u8>::empty());
        let at = upper.offset_view() as int;
        let stream = loaded + start.above();
        assert(stream =~= start.above());
        assert(upper.above() == stream.take(at));
        assert(at < origin);
        // The line ends between the two places are those that the way up
        // passed and the one right above the place of origin.
        let between = data.subrange(at, origin);
        assert(stream.subrange(at, stream.len() - 1) =~= between.drop_last());
        assert(between.last() == data[origin - 1]);
        lemma_count_matches_split(between, NEWLINE, between.len() - 1);
        assert(between.take(between.len() - 1) =~= between.drop_last());
        assert(between.skip(between.len() - 1) =~= seq![between.last()]);
        lemma_count_matches_one(between.last(), NEWLINE);
        assert(newlines(between) == lines);
        lemma_count_matches_split(upper.below(), NEWLINE, origin - at);
        assert(upper.below().take(origin - at) =~= between);
        assert(newlines(upper.below()) >= lines);
        assert(at > 0) by {
            if at == 0 {
                lemma_count_matches_bound(between.drop_last(), NEWLINE);
                let rest = start.above().drop_last();
                assert(rest =~= between.drop_last());
            }
        }
        let (reloaded, passed) = choose|reloaded: Seq<u8>, passed: nat|
            {
                &&& #[trigger] moved_down(upper.below(), reloaded, back.below(), passed)
                &&& passed <= lines
                &&& down is Ok <==> passed == lines
                &&& back.line_view() == shifted_line(upper.line_view(), passed as int)
                &&& newlines(upper.below()) >= lines ==> reloaded.len() == 0
            };
        assert(reloaded =~= Seq::<u8>::empty());
        back.buffer.lemma_window_bounds();
        assert(upper.above() == data.take(at));
        assert(upper.below() == data.skip(at));
        assert(back.below() == data.skip(back.offset_view() as int));
        crate::file_view::motion::lemma_up_then_down_returns(
            data,
            origin,
            at,
            back.offset_view() as int,
            lines as nat,
        );
    }

    /// After a jump to the first line, a jump to the end of the file and
    /// another jump to the first line, the view stands at line 1 at the
    /// start of the data, if the last jump succeeded; and over a buffer
    /// whose data are the bytes of the file all three succeed.
    pub proof fn lemma_top_bottom_top(
        start: Self,
        first: Self,
        second: Self,
        third: Self,
        top: Result<(), ViewError>,
        bottom: Result<(), ViewError>,
        again: Result<(), ViewError>,
    )
        requires
            start.wf(),
            Self::top_post(start, first, top),
            Self::bottom_post(first, second, bottom),
            Self::top_post(second, third, again),
        ensures
            again is Ok ==> third.line_view() == Some(1i64) && third.offset_view() == 0,
            start.buffer().plain() ==> top is Ok && bottom is Ok && again is Ok,
    {
    }

    /// A place that was saved is the place of the view again after the view
    /// went back to it, whatever happened to the view in between; and over a
    /// buffer whose data are the bytes of the file, going back succeeds as
    /// long as the view is on the same file.
    pub proof fn lemma_saved_place_returns(
        saved: Self,
        later: Self,
        back: Self,
        state: ViewState,
        moved: Result<(), ViewError>,
    )
        requires
            saved.wf(),
            later.wf(),
            state == saved.state_view(),
            Self::load_state_post(later, &state, back, moved),
        ensures
            moved is Ok ==> back.state_view() == saved.state_view(),
            saved.buffer().plain() && later.same_file(&saved) ==> moved is Ok,
    {
        saved.lemma_view_bounds();
        assert(state.view_offset == saved.offset_view());
        assert(state.buffer_pos == saved.buffer().range_start());
        if saved.buffer().plain() && later.same_file(&saved) {
            saved.lemma_plain_view();
            assert(later.buffer().plain());
            assert(later.file() == saved.file());
            assert(state.buffer_pos + state.view_offset <= later.file().len());
        }
    }

    /// The place in the file that the cursor stands for. It is reckoned from
    /// the range of the buffer: as far into the range as the cursor is into
    /// the data, in proportion, rounded down.
    pub open spec fn offset_spec(&self) -> int {
        let start = self.buffer().range_start() as int;
        let width = self.buffer().range_end() - self.buffer().range_start();
        let len = self.buffer().data_view().len() as int;
        if len == 0 {
            start
        } else {
            start + (self.offset_view() * width) / len
        }
    }

    /// The place in the file that the cursor stands for.
    pub fn offset(&self) -> (at: u64)
        requires
            self.wf(),
        ensures
            at == self.offset_spec(),
            self.buffer().range_start() <= at <= self.buffer().range_end(),
    {
        proof {
            self.buffer.lemma_window_bounds();
        }
        let range = self.buffer.range();
        let len = self.buffer.data().len();
        if len == 0 {
            return range.start;
        }
        let width = range.end - range.start;
        let scaled: u128 = self::scale(self.view_offset as u64, width, len as u64);
        range.start + scaled as u64
    }
}

/// The part `part` of `whole` that `width` is cut down to, rounded down.
pub fn scale(part: u64, width: u64, whole: u64) -> (scaled: u128)
    requires
        part <= whole,
        whole > 0,
    ensures
        scaled == (part * width) / (whole as int),
        scaled <= width,
{
    assert(part * width <= whole * width) by (nonlinear_arith)
        requires
            part <= whole,
            0 <= width,
    ;
    assert(whole * width <= 0xffff_ffff_ffff_ffff * 0xffff_ffff_ffff_ffff) by (nonlinear_arith)
        requires
            whole <= 0xffff_ffff_ffff_ffff,
            width <= 0xffff_ffff_ffff_ffff,
            0 <= whole,
            0 <= width,
    ;
    assert((part * width) / (whole as int) <= width) by (nonlinear_arith)
        requires
            part * width <= whole * width,
            whole > 0,
            0 <= part * width,
    ;
    let product: u128 = part as u128 * width as u128;
    product / whole as u128
}

/// How far two numbers are apart.
pub open spec fn gap(a: int, b: int) -> int {
    if a >= b {
        a - b
    } else {
        b - a
    }
}

/// The line number `by` lines below `line`, or above it where `down` is
/// false. It is unknown where `line` is, and where the number does not fit.
pub fn advance_line(line: Option<i64>, by: u64, down: bool) -> (moved: Option<i64>)
    ensures
        moved == shifted_line(
            line,
            if down {
                by as int
            } else {
                -(by as int)
            },
        ),
{
    match line {
        Some(x) => {
            let target: i128 = if down {
                x as i128 + by as i128
            } else {
                x as i128 - by as i128
            };
            if target < i64::MIN as i128 || target > i64::MAX as i128 {
                None
            } else {
                Some(target as i64)
            }
        },
        None => None,
    }
}

} // verus!
