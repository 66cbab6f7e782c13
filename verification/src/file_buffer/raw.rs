//! The window over a file that is read as it is stored.

use crate::file_buffer::mapped::{map_bytes, mapped_bytes};
use crate::file_buffer::pattern::{find_first, regex_first_match, regex_last_match, SearchPattern};
use crate::file_buffer::{as_found, BufferError, FileBuffer};
use crate::utils::cancel::{after_window, is_cancelled, Round};
use memmap2::Mmap;
use std::ops::Range;
use std::sync::atomic::AtomicBool;
use vstd::prelude::*;

verus! {

/// The number of bytes by which a window grows in one step.
pub const BUFFER_SIZE: u64 = 0x10000;

/// The number of bytes that one run of the pattern matcher looks at.
pub const FIND_WINDOW: u64 = 0x100000;

/// The number of bytes that two neighbouring runs of the matcher share, so
/// that a match no longer than this is seen whole by one of them.
pub const FIND_OVERLAP: u64 = 0x1000;

/// A window over the bytes of a mapped file. Its data are the bytes of the
/// file between the two ends of its range.
pub struct RawFileBuffer {
    start: u64,
    end: u64,
    map: Mmap,
}

/// The smaller of two numbers.
pub open spec fn min_int(a: int, b: int) -> int {
    if a <= b {
        a
    } else {
        b
    }
}

/// The match that a forward search over `file` reports when it starts at
/// `begin`: the matcher runs on one stretch of `FIND_WINDOW` bytes after the
/// other, each starting `FIND_OVERLAP` bytes before the end of the one
/// before, and the first match that a run reports is the result, in offsets
/// into the file.
pub open spec fn scan_forward(pattern: Seq<char>, file: Seq<u8>, begin: int) -> Option<(int, int)>
    decreases file.len() - begin,
{
    let end = min_int(begin + FIND_WINDOW, file.len() as int);
    if begin < 0 || begin > file.len() {
        None
    } else {
        match regex_first_match(pattern, file.subrange(begin, end)) {
            Some((s, e)) => Some((begin + s, begin + e)),
            None => if end == file.len() {
                None
            } else {
                scan_forward(pattern, file, end - FIND_OVERLAP)
            },
        }
    }
}

/// The match that a backward search over `file` reports when it starts at
/// `end`: the matcher runs on one stretch of `FIND_WINDOW` bytes before the
/// other, each ending `FIND_OVERLAP` bytes behind the start of the one
/// before, and the last match of the first run that has one is the result,
/// in offsets into the file.
pub open spec fn scan_backward(pattern: Seq<char>, file: Seq<u8>, end: int) -> Option<(int, int)>
    decreases end,
{
    let begin = if end >= FIND_WINDOW {
        end - FIND_WINDOW
    } else {
        0
    };
    if end < 0 || end > file.len() {
        None
    } else {
        match regex_last_match(pattern, file.subrange(begin, end)) {
            Some((s, e)) => Some((begin + s, begin + e)),
            None => if begin == 0 {
                None
            } else {
                scan_backward(pattern, file, begin + FIND_OVERLAP)
            },
        }
    }
}

/// Whether a forward search over `file` from `begin` finds a match in the
/// first stretch it runs the matcher on, before it looks at the flag.
pub open spec fn found_at_once_forward(pattern: Seq<char>, file: Seq<u8>, begin: int) -> bool {
    &&& 0 <= begin <= file.len()
    &&& regex_first_match(
        pattern,
        file.subrange(begin, min_int(begin + FIND_WINDOW, file.len() as int)),
    ) is Some
}

/// Whether a backward search over `file` from `end` finds a match in the
/// first stretch it runs the matcher on, before it looks at the flag.
pub open spec fn found_at_once_backward(pattern: Seq<char>, file: Seq<u8>, end: int) -> bool {
    &&& 0 <= end <= file.len()
    &&& regex_last_match(
        pattern,
        file.subrange(
            if end >= FIND_WINDOW {
                end - FIND_WINDOW
            } else {
                0
            },
            end,
        ),
    ) is Some
}

impl RawFileBuffer {
    /// The mapped bytes of the file.
    pub closed spec fn mapped(&self) -> Seq<u8> {
        map_bytes(self.map)
    }

    /// The data of the window are the bytes of the file in its range,
    /// whatever jumps, loads and cuts led to the window.
    pub proof fn lemma_data_is_file_range(&self)
        requires
            self.wf(),
        ensures
            self.range_start() <= self.range_end() <= self.file().len(),
            self.data_view() == self.file().subrange(
                self.range_start() as int,
                self.range_end() as int,
            ),
    {
    }

    /// An empty window at the start of the mapped file.
    pub fn new(map: Mmap) -> (buffer: Self)
        ensures
            buffer.wf(),
            buffer.file() == map_bytes(map),
            buffer.range_start() == 0,
            buffer.range_end() == 0,
            buffer.data_view() == Seq::<u8>::empty(),
    {
        let buffer = RawFileBuffer { start: 0, end: 0, map };
        let len = mapped_bytes(&buffer.map).len();
        buffer
    }

    /// The length of the mapped file.
    fn len(&self) -> (n: u64)
        ensures
            n == self.mapped().len(),
    {
        mapped_bytes(&self.map).len() as u64
    }
}

impl FileBuffer for RawFileBuffer {
    closed spec fn wf(&self) -> bool {
        self.start <= self.end <= self.mapped().len() <= usize::MAX
    }

    closed spec fn file(&self) -> Seq<u8> {
        self.mapped()
    }

    closed spec fn data_view(&self) -> Seq<u8> {
        self.mapped().subrange(self.start as int, self.end as int)
    }

    closed spec fn range_start(&self) -> nat {
        self.start as nat
    }

    closed spec fn range_end(&self) -> nat {
        self.end as nat
    }

    open spec fn floor(&self) -> nat {
        0
    }

    open spec fn plain(&self) -> bool {
        true
    }

    open spec fn chunk(&self) -> nat {
        BUFFER_SIZE as nat
    }

    open spec fn searchable(&self) -> bool {
        true
    }

    open spec fn forward_match(&self, pattern: Seq<char>, offset: nat) -> Option<(int, int)> {
        scan_forward(
            pattern,
            self.file(),
            min_int((self.range_start() + offset) as int, self.file().len() as int),
        )
    }

    open spec fn backward_match(&self, pattern: Seq<char>, offset: nat) -> Option<(int, int)> {
        scan_backward(
            pattern,
            self.file(),
            min_int((self.range_start() + offset) as int, self.file().len() as int),
        )
    }

    open spec fn answers_forward(&self, pattern: Seq<char>, offset: nat) -> bool {
        found_at_once_forward(
            pattern,
            self.file(),
            min_int((self.range_start() + offset) as int, self.file().len() as int),
        )
    }

    open spec fn answers_backward(&self, pattern: Seq<char>, offset: nat) -> bool {
        found_at_once_backward(
            pattern,
            self.file(),
            min_int((self.range_start() + offset) as int, self.file().len() as int),
        )
    }

    proof fn lemma_window_bounds(&self) {
    }

    fn data(&self) -> (d: &[u8]) {
        let bytes = mapped_bytes(&self.map);
        &bytes[self.start as usize..self.end as usize]
    }

    fn range(&self) -> (r: Range<u64>) {
        Range { start: self.start, end: self.end }
    }

    fn total_size(&self) -> (size: u64) {
        self.len()
    }

    fn jump(&mut self, byte: u64) -> (landed: Result<u64, BufferError>)
        ensures
            landed == Ok::<u64, BufferError>(
                min_int(byte as int, old(self).file().len() as int) as u64,
            ),
            final(self).data_view() == Seq::<u8>::empty(),
            final(self).range_end() == final(self).range_start(),
    {
        let len = self.len();
        let at = if byte <= len {
            byte
        } else {
            len
        };
        self.start = at;
        self.end = at;
        Ok(at)
    }

    fn load_prev(&mut self) -> (loaded: Result<usize, BufferError>)
        ensures
            loaded matches Ok(n) && n
                == min_int(BUFFER_SIZE as int, old(self).range_start() as int),
    {
        let before = self.start;
        let step = if self.start < BUFFER_SIZE {
            self.start
        } else {
            BUFFER_SIZE
        };
        self.start = self.start - step;
        assert(self.data_view().skip(step as int) =~= old(self).data_view());
        Ok(step as usize)
    }

    fn load_next(&mut self) -> (loaded: Result<usize, BufferError>)
        ensures
            loaded matches Ok(n) && n == min_int(
                BUFFER_SIZE as int,
                old(self).file().len() - old(self).range_end(),
            ),
    {
        let len = self.len();
        let room = len - self.end;
        let step = if room < BUFFER_SIZE {
            room
        } else {
            BUFFER_SIZE
        };
        self.end = self.end + step;
        assert(self.data_view().take(old(self).data_view().len() as int) =~= old(
            self,
        ).data_view());
        Ok(step as usize)
    }

    fn shrink_to(&mut self, range: Range<usize>) -> (kept: Range<usize>)
        ensures
            kept == range,
    {
        let base = self.start;
        self.start = base + range.start as u64;
        self.end = base + range.end as u64;
        assert(self.data_view() =~= old(self).data_view().subrange(
            range.start as int,
            range.end as int,
        ));
        range
    }

    fn seek_from(&mut self, pattern: &SearchPattern, offset: u64, cancelled: &AtomicBool) -> (found:
        Result<Option<Range<u64>>, BufferError>)
        ensures
            final(self).data_view() == old(self).data_view(),
            final(self).range_start() == old(self).range_start(),
            final(self).range_end() == old(self).range_end(),
            found matches Ok(m) ==> as_found(m) == scan_forward(
                pattern@,
                old(self).file(),
                min_int(old(self).range_start() + offset, old(self).file().len() as int),
            ),
            found matches Err(e) ==> e == BufferError::Interrupted,
    {
        let bytes = mapped_bytes(&self.map);
        let len = bytes.len() as u64;
        let begin: u64 = if offset <= len - self.start {
            self.start + offset
        } else {
            len
        };
        search_forward(bytes, pattern, begin as usize, cancelled)
    }

    fn rseek_from(&mut self, pattern: &SearchPattern, offset: u64,
        cancelled: &AtomicBool) -> (found:
        Result<Option<Range<u64>>, BufferError>)
        ensures
            final(self).data_view() == old(self).data_view(),
            final(self).range_start() == old(self).range_start(),
            final(self).range_end() == old(self).range_end(),
            found matches Ok(m) ==> as_found(m) == scan_backward(
                pattern@,
                old(self).file(),
                min_int(old(self).range_start() + offset, old(self).file().len() as int),
            ),
            found matches Err(e) ==> e == BufferError::Interrupted,
    {
        let bytes = mapped_bytes(&self.map);
        let len = bytes.len() as u64;
        let end: u64 = if offset <= len - self.start {
            self.start + offset
        } else {
            len
        };
        search_backward(bytes, pattern, end as usize, cancelled)
    }
}

/// Runs the matcher over `bytes` from `begin` on, one stretch after the
/// other, and looks at the flag between two stretches.
fn search_forward(bytes: &[u8], pattern: &SearchPattern, from: usize,
    cancelled: &AtomicBool) -> (found:
    Result<Option<Range<u64>>, BufferError>)
    requires
        from <= bytes@.len(),
    ensures
        found matches Ok(m) ==> as_found(m) == scan_forward(pattern@, bytes@, from as int),
        found matches Ok(Some(m)) ==> m.start <= m.end <= bytes@.len(),
        found matches Err(e) ==> e == BufferError::Interrupted,
        found_at_once_forward(pattern@, bytes@, from as int) ==> found matches Ok(Some(_)),
{
    let len = bytes.len();
    let window = FIND_WINDOW as usize;
    let overlap = FIND_OVERLAP as usize;
    let mut begin = from;
    loop
        invariant
            len == bytes@.len(),
            window == FIND_WINDOW,
            overlap == FIND_OVERLAP,
            begin <= len,
            scan_forward(pattern@, bytes@, from as int) == scan_forward(
                pattern@,
                bytes@,
                begin as int,
            ),
            begin == from || !found_at_once_forward(pattern@, bytes@, from as int),
        decreases len - begin,
    {
        let end = if len - begin > window {
            begin + window
        } else {
            len
        };
        let found = find_first(pattern, &bytes[begin..end]);
        match after_window(found, is_cancelled(cancelled), end == len) {
            Round::Found(s, e) => {
                return Ok(Some(Range { start: (begin + s) as u64, end: (begin + e) as u64 }));
            },
            Round::Cancelled => {
                return Err(BufferError::Interrupted);
            },
            Round::NoMatch => {
                return Ok(None);
            },
            Round::Again => {
                begin = end - overlap;
            },
        }
    }
}

/// Runs the matcher over `bytes` before `end`, one stretch before the other,
/// and looks at the flag between two stretches.
fn search_backward(bytes: &[u8], pattern: &SearchPattern, upto: usize,
    cancelled: &AtomicBool) -> (found:
    Result<Option<Range<u64>>, BufferError>)
    requires
        upto <= bytes@.len(),
    ensures
        found matches Ok(m) ==> as_found(m) == scan_backward(pattern@, bytes@, upto as int),
        found matches Ok(Some(m)) ==> m.start <= m.end <= bytes@.len(),
        found matches Err(e) ==> e == BufferError::Interrupted,
        found_at_once_backward(pattern@, bytes@, upto as int) ==> found matches Ok(Some(_)),
{
    let len = bytes.len();
    let window = FIND_WINDOW as usize;
    let overlap = FIND_OVERLAP as usize;
    let mut end = upto;
    loop
        invariant
            len == bytes@.len(),
            window == FIND_WINDOW,
            overlap == FIND_OVERLAP,
            end <= len,
            scan_backward(pattern@, bytes@, upto as int) == scan_backward(
                pattern@,
                bytes@,
                end as int,
            ),
            end == upto || !found_at_once_backward(pattern@, bytes@, upto as int),
        decreases end,
    {
        let begin = if end >= window {
            end - window
        } else {
            0
        };
        let found = pattern.last_match(&bytes[begin..end]);
        match after_window(found, is_cancelled(cancelled), begin == 0) {
            Round::Found(s, e) => {
                return Ok(Some(Range { start: (begin + s) as u64, end: (begin + e) as u64 }));
            },
            Round::Cancelled => {
                return Err(BufferError::Interrupted);
            },
            Round::NoMatch => {
                return Ok(None);
            },
            Round::Again => {
                end = begin + overlap;
            },
        }
    }
}

} // verus!
