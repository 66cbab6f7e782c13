//! Byte windows over a file.
//!
//! A buffer holds a run of decoded bytes, its *data*, and knows which range
//! of the file the data came from. The window can be moved to another place
//! of the file, extended at either end and cut down again.

pub mod devec;
pub mod mapped;
pub mod pattern;
pub mod bzip2;
pub mod raw;

use crate::file_buffer::bzip2::{is_bzip2_header, is_header, header_len, Bz2FileBuffer, HEADER_LEN};
use crate::file_buffer::mapped::{map_bytes, mapped_bytes};
use crate::file_buffer::pattern::SearchPattern;
use crate::file_buffer::raw::RawFileBuffer;
use memmap2::Mmap;
use std::ops::Range;
use std::sync::atomic::AtomicBool;
use vstd::prelude::*;

verus! {

/// Why an operation of a buffer did not do its work.
#[derive(Debug)]
pub enum BufferError {
    /// The cancel flag was seen set.
    Interrupted,
    /// The buffer does not offer the operation.
    Unsupported,
    /// The bytes of the file could not be decoded; the text says why.
    Failed(String),
}

/// The larger of two numbers.
pub open spec fn max_nat(a: nat, b: nat) -> nat {
    if a >= b {
        a
    } else {
        b
    }
}

/// What a search returns for the match that a scan reports.
pub open spec fn as_found(found: Option<Range<u64>>) -> Option<(int, int)> {
    match found {
        Some(m) => Some((m.start as int, m.end as int)),
        None => None,
    }
}

/// A window of decoded bytes over a file.
pub trait FileBuffer: Sized {
    /// The window is consistent with the file it stands on.
    spec fn wf(&self) -> bool;

    /// The bytes of the file as it is stored.
    spec fn file(&self) -> Seq<u8>;

    /// The decoded bytes of the window.
    spec fn data_view(&self) -> Seq<u8>;

    /// The offset in the file at which the window starts.
    spec fn range_start(&self) -> nat;

    /// The offset in the file at which the window ends.
    spec fn range_end(&self) -> nat;

    /// The smallest offset at which a window over the file can start.
    spec fn floor(&self) -> nat;

    /// Whether the data of the window are the bytes of the file in its
    /// range, as they are of a file that is read as it is stored.
    spec fn plain(&self) -> bool;

    /// The number of bytes that a plain buffer loads at a time where the
    /// file has that many left on the side it loads on; where it has fewer,
    /// the buffer loads what is left. It says nothing of other buffers.
    spec fn chunk(&self) -> nat;

    /// Whether the buffer searches by itself.
    spec fn searchable(&self) -> bool;

    /// The match in the file that a forward search for `pattern` reports
    /// when it starts at `offset` in the data, if the buffer searches.
    spec fn forward_match(&self, pattern: Seq<char>, offset: nat) -> Option<(int, int)>;

    /// The match in the file that a backward search for `pattern` reports
    /// when it starts at `offset` in the data, if the buffer searches.
    spec fn backward_match(&self, pattern: Seq<char>, offset: nat) -> Option<(int, int)>;

    /// Whether a forward search for `pattern` from `offset` in the data is
    /// answered whatever the flag says: it is where the search finds a
    /// match before it first looks at the flag.
    spec fn answers_forward(&self, pattern: Seq<char>, offset: nat) -> bool;

    /// Whether a backward search for `pattern` from `offset` in the data is
    /// answered whatever the flag says.
    spec fn answers_backward(&self, pattern: Seq<char>, offset: nat) -> bool;

    /// A well-formed window lies inside its file.
    proof fn lemma_window_bounds(&self)
        requires
            self.wf(),
        ensures
            self.floor() <= self.range_start() <= self.range_end() <= self.file().len(),
            self.file().len() <= usize::MAX,
            self.data_view().len() <= usize::MAX,
            self.plain() ==> self.floor() == 0 && self.data_view() == self.file().subrange(
                self.range_start() as int,
                self.range_end() as int,
            ),
            self.plain() ==> self.chunk() > 0,
    ;

    /// The decoded bytes of the window.
    fn data(&self) -> (d: &[u8])
        requires
            self.wf(),
        ensures
            d@ == self.data_view(),
    ;

    /// The range of the file that the window stands for. Its width differs
    /// from the length of the data where the file is compressed.
    fn range(&self) -> (r: Range<u64>)
        requires
            self.wf(),
        ensures
            r.start == self.range_start(),
            r.end == self.range_end(),
    ;

    /// The length of the file.
    fn total_size(&self) -> (size: u64)
        requires
            self.wf(),
        ensures
            size == self.file().len(),
    ;

    /// Drops the window and opens a new one at `byte`, or at a place before
    /// it where a window can start. Returns the start of the new window,
    /// which lies behind `byte` only where `byte` lies below the floor.
    /// When it fails the window is as it was.
    fn jump(&mut self, byte: u64) -> (landed: Result<u64, BufferError>)
        requires
            old(self).wf(),
        ensures
            final(self).wf(),
            final(self).file() == old(self).file(),
            final(self).floor() == old(self).floor(),
            final(self).searchable() == old(self).searchable(),
            final(self).plain() == old(self).plain(),
            final(self).chunk() == old(self).chunk(),
            match landed {
                Ok(at) => {
                    &&& at <= max_nat(byte as nat, old(self).floor())
                    &&& final(self).range_start() == at
                },
                Err(e) => {
                    &&& e is Failed
                    &&& final(self).data_view() == old(self).data_view()
                    &&& final(self).range_start() == old(self).range_start()
                    &&& final(self).range_end() == old(self).range_end()
                },
            },
            old(self).plain() ==> {
                &&& landed == Ok::<u64, BufferError>(
                    if byte <= old(self).file().len() {
                        byte
                    } else {
                        old(self).file().len() as u64
                    },
                )
                &&& final(self).range_end() == final(self).range_start()
            },
    ;

    /// Extends the window towards the start of the file and returns the
    /// number of bytes that the data gained in front: none where the window
    /// already starts at the floor. When it fails the window is as it was.
    fn load_prev(&mut self) -> (loaded: Result<usize, BufferError>)
        requires
            old(self).wf(),
        ensures
            final(self).wf(),
            final(self).file() == old(self).file(),
            final(self).floor() == old(self).floor(),
            final(self).searchable() == old(self).searchable(),
            final(self).plain() == old(self).plain(),
            final(self).chunk() == old(self).chunk(),
            final(self).range_end() == old(self).range_end(),
            final(self).range_start() <= old(self).range_start(),
            match loaded {
                Ok(n) => {
                    &&& final(self).data_view().len() == old(self).data_view().len() + n
                    &&& final(self).data_view().skip(n as int) == old(self).data_view()
                    &&& n > 0 ==> final(self).range_start() < old(self).range_start()
                },
                Err(e) => {
                    &&& e is Failed
                    &&& final(self).data_view() == old(self).data_view()
                    &&& final(self).range_start() == old(self).range_start()
                },
            },
            old(self).range_start() == old(self).floor() ==> loaded == Ok::<usize, BufferError>(
                0,
            ),
            old(self).plain() ==> (loaded matches Ok(n) && (n == 0 <==> old(self).range_start()
                == 0) && n == (if old(self).chunk() <= old(self).range_start() {
                old(self).chunk()
            } else {
                old(self).range_start()
            })),
    ;

    /// Extends the window towards the end of the file and returns the
    /// number of bytes that the data gained at the back: none where the
    /// window already reaches the end of the file. When it fails the window
    /// is as it was.
    fn load_next(&mut self) -> (loaded: Result<usize, BufferError>)
        requires
            old(self).wf(),
        ensures
            final(self).wf(),
            final(self).file() == old(self).file(),
            final(self).floor() == old(self).floor(),
            final(self).searchable() == old(self).searchable(),
            final(self).plain() == old(self).plain(),
            final(self).chunk() == old(self).chunk(),
            final(self).range_start() == old(self).range_start(),
            final(self).range_end() >= old(self).range_end(),
            match loaded {
                Ok(n) => {
                    &&& final(self).data_view().len() == old(self).data_view().len() + n
                    &&& final(self).data_view().take(old(self).data_view().len() as int) == old(
                        self,
                    ).data_view()
                    &&& n > 0 ==> final(self).range_end() > old(self).range_end()
                },
                Err(e) => {
                    &&& e is Failed
                    &&& final(self).data_view() == old(self).data_view()
                    &&& final(self).range_end() == old(self).range_end()
                },
            },
            old(self).range_end() == old(self).file().len() ==> loaded == Ok::<usize, BufferError>(
                0,
            ),
            old(self).plain() ==> (loaded matches Ok(n) && (n == 0 <==> old(self).range_end()
                == old(self).file().len()) && n == (if old(self).chunk() <= old(self).file().len()
                - old(self).range_end() {
                old(self).chunk() as int
            } else {
                old(self).file().len() - old(self).range_end()
            })),
    ;

    /// Drops data outside `range`, which is given in offsets into the data.
    /// Returns the range that was kept: it holds `range` and may be wider
    /// where the data can only be dropped in larger pieces.
    fn shrink_to(&mut self, range: Range<usize>) -> (kept: Range<usize>)
        requires
            old(self).wf(),
            range.start <= range.end <= old(self).data_view().len(),
        ensures
            final(self).wf(),
            final(self).file() == old(self).file(),
            final(self).floor() == old(self).floor(),
            final(self).searchable() == old(self).searchable(),
            final(self).plain() == old(self).plain(),
            final(self).chunk() == old(self).chunk(),
            kept.start <= range.start,
            range.end <= kept.end <= old(self).data_view().len(),
            final(self).data_view() == old(self).data_view().subrange(
                kept.start as int,
                kept.end as int,
            ),
            old(self).range_start() <= final(self).range_start(),
            final(self).range_end() <= old(self).range_end(),
            range.start == 0 ==> final(self).range_start() == old(self).range_start(),
            range.end == old(self).data_view().len() ==> final(self).range_end() == old(
                self,
            ).range_end(),
            old(self).plain() ==> final(self).range_start() == old(self).range_start()
                + kept.start,
    ;

    /// Searches forward for `pattern`, from `offset` in the data to the end
    /// of the file. Returns the match in offsets into the file, `None` where
    /// there is none, `Interrupted` where the flag was seen set, and
    /// `Unsupported` where the buffer leaves searching to its user. The
    /// window stays as it is.
    fn seek_from(&mut self, pattern: &SearchPattern, offset: u64, cancelled: &AtomicBool) -> (found:
        Result<Option<Range<u64>>, BufferError>)
        requires
            old(self).wf(),
        ensures
            final(self).wf(),
            final(self).file() == old(self).file(),
            final(self).floor() == old(self).floor(),
            final(self).searchable() == old(self).searchable(),
            final(self).plain() == old(self).plain(),
            final(self).chunk() == old(self).chunk(),
            found matches Ok(Some(m)) ==> m.start <= m.end <= old(self).file().len(),
            found matches Ok(m) ==> as_found(m) == old(self).forward_match(pattern@, offset as nat),
            found matches Err(BufferError::Unsupported) <==> !old(self).searchable(),
            old(self).searchable() && old(self).answers_forward(pattern@, offset as nat)
                ==> found matches Ok(Some(_)),
            old(self).plain() ==> (found matches Err(e) ==> !(e is Failed)),
            final(self).data_view() == old(self).data_view(),
            final(self).range_start() == old(self).range_start(),
            final(self).range_end() == old(self).range_end(),
    ;

    /// Searches backward for `pattern`, from `offset` in the data to the
    /// start of the file, with the same results as `seek_from`.
    fn rseek_from(&mut self, pattern: &SearchPattern, offset: u64,
        cancelled: &AtomicBool) -> (found:
        Result<Option<Range<u64>>, BufferError>)
        requires
            old(self).wf(),
        ensures
            final(self).wf(),
            final(self).file() == old(self).file(),
            final(self).floor() == old(self).floor(),
            final(self).searchable() == old(self).searchable(),
            final(self).plain() == old(self).plain(),
            final(self).chunk() == old(self).chunk(),
            found matches Ok(Some(m)) ==> m.start <= m.end <= old(self).file().len(),
            found matches Ok(m) ==> as_found(m)
                == old(self).backward_match(pattern@, offset as nat),
            found matches Err(BufferError::Unsupported) <==> !old(self).searchable(),
            old(self).searchable() && old(self).answers_backward(pattern@, offset as nat)
                ==> found matches Ok(Some(_)),
            old(self).plain() ==> (found matches Err(e) ==> !(e is Failed)),
            final(self).data_view() == old(self).data_view(),
            final(self).range_start() == old(self).range_start(),
            final(self).range_end() == old(self).range_end(),
    ;
}

/// The window over a file of either kind.
pub enum AnyFileBuffer {
    /// The file is read as it is stored.
    Raw(RawFileBuffer),
    /// The file is a bzip2 stream and is read decoded.
    Bz2(Bz2FileBuffer),
}

/// Whether a file with these bytes is read as a bzip2 stream: it is where
/// its first four bytes are the head of one.
pub open spec fn is_bzip2_file(file: Seq<u8>) -> bool {
    is_bzip2_header(file.take(header_len(file) as int))
}

/// Opens the window that fits the mapped file: one that decodes where the
/// file starts like a bzip2 stream, and one that reads the bytes as they are
/// otherwise. The window is empty and stands at the start of the file.
pub fn make_file_buffer(map: Mmap) -> (buffer: AnyFileBuffer)
    ensures
        buffer.wf(),
        buffer.file() == map_bytes(map),
        buffer is Bz2 <==> is_bzip2_file(map_bytes(map)),
        buffer.data_view() == Seq::<u8>::empty(),
        buffer.range_start() == buffer.floor(),
        buffer.range_end() == buffer.floor(),
{
    let bytes = mapped_bytes(&map);
    let head = if bytes.len() < HEADER_LEN {
        bytes.len()
    } else {
        HEADER_LEN
    };
    let compressed = is_header(&bytes[0..head]);
    assert(bytes@.subrange(0, head as int) =~= map_bytes(map).take(head as int));
    if compressed {
        AnyFileBuffer::Bz2(Bz2FileBuffer::new(map))
    } else {
        AnyFileBuffer::Raw(RawFileBuffer::new(map))
    }
}

impl FileBuffer for AnyFileBuffer {
    open spec fn wf(&self) -> bool {
        match self {
            AnyFileBuffer::Raw(b) => b.wf(),
            AnyFileBuffer::Bz2(b) => b.wf(),
        }
    }

    open spec fn file(&self) -> Seq<u8> {
        match self {
            AnyFileBuffer::Raw(b) => b.file(),
            AnyFileBuffer::Bz2(b) => b.file(),
        }
    }

    open spec fn data_view(&self) -> Seq<u8> {
        match self {
            AnyFileBuffer::Raw(b) => b.data_view(),
            AnyFileBuffer::Bz2(b) => b.data_view(),
        }
    }

    open spec fn range_start(&self) -> nat {
        match self {
            AnyFileBuffer::Raw(b) => b.range_start(),
            AnyFileBuffer::Bz2(b) => b.range_start(),
        }
    }

    open spec fn range_end(&self) -> nat {
        match self {
            AnyFileBuffer::Raw(b) => b.range_end(),
            AnyFileBuffer::Bz2(b) => b.range_end(),
        }
    }

    open spec fn floor(&self) -> nat {
        match self {
            AnyFileBuffer::Raw(b) => b.floor(),
            AnyFileBuffer::Bz2(b) => b.floor(),
        }
    }

    open spec fn plain(&self) -> bool {
        match self {
            AnyFileBuffer::Raw(b) => b.plain(),
            AnyFileBuffer::Bz2(b) => b.plain(),
        }
    }

    open spec fn chunk(&self) -> nat {
        match self {
            AnyFileBuffer::Raw(b) => b.chunk(),
            AnyFileBuffer::Bz2(b) => b.chunk(),
        }
    }

    open spec fn searchable(&self) -> bool {
        match self {
            AnyFileBuffer::Raw(b) => b.searchable(),
            AnyFileBuffer::Bz2(b) => b.searchable(),
        }
    }

    open spec fn forward_match(&self, pattern: Seq<char>, offset: nat) -> Option<(int, int)> {
        match self {
            AnyFileBuffer::Raw(b) => b.forward_match(pattern, offset),
            AnyFileBuffer::Bz2(b) => b.forward_match(pattern, offset),
        }
    }

    open spec fn backward_match(&self, pattern: Seq<char>, offset: nat) -> Option<(int, int)> {
        match self {
            AnyFileBuffer::Raw(b) => b.backward_match(pattern, offset),
            AnyFileBuffer::Bz2(b) => b.backward_match(pattern, offset),
        }
    }

    open spec fn answers_forward(&self, pattern: Seq<char>, offset: nat) -> bool {
        match self {
            AnyFileBuffer::Raw(b) => b.answers_forward(pattern, offset),
            AnyFileBuffer::Bz2(b) => b.answers_forward(pattern, offset),
        }
    }

    open spec fn answers_backward(&self, pattern: Seq<char>, offset: nat) -> bool {
        match self {
            AnyFileBuffer::Raw(b) => b.answers_backward(pattern, offset),
            AnyFileBuffer::Bz2(b) => b.answers_backward(pattern, offset),
        }
    }

    proof fn lemma_window_bounds(&self) {
        match self {
            AnyFileBuffer::Raw(b) => b.lemma_window_bounds(),
            AnyFileBuffer::Bz2(b) => b.lemma_window_bounds(),
        }
    }

    fn data(&self) -> (d: &[u8]) {
        match self {
            AnyFileBuffer::Raw(b) => b.data(),
            AnyFileBuffer::Bz2(b) => b.data(),
        }
    }

    fn range(&self) -> (r: Range<u64>) {
        match self {
            AnyFileBuffer::Raw(b) => b.range(),
            AnyFileBuffer::Bz2(b) => b.range(),
        }
    }

    fn total_size(&self) -> (size: u64) {
        match self {
            AnyFileBuffer::Raw(b) => b.total_size(),
            AnyFileBuffer::Bz2(b) => b.total_size(),
        }
    }

    fn jump(&mut self, byte: u64) -> (landed: Result<u64, BufferError>)
        ensures
            (*final(self)) is Raw <==> (*old(self)) is Raw,
    {
        match self {
            AnyFileBuffer::Raw(b) => b.jump(byte),
            AnyFileBuffer::Bz2(b) => b.jump(byte),
        }
    }

    fn load_prev(&mut self) -> (loaded: Result<usize, BufferError>)
        ensures
            (*final(self)) is Raw <==> (*old(self)) is Raw,
    {
        match self {
            AnyFileBuffer::Raw(b) => b.load_prev(),
            AnyFileBuffer::Bz2(b) => b.load_prev(),
        }
    }

    fn load_next(&mut self) -> (loaded: Result<usize, BufferError>)
        ensures
            (*final(self)) is Raw <==> (*old(self)) is Raw,
    {
        match self {
            AnyFileBuffer::Raw(b) => b.load_next(),
            AnyFileBuffer::Bz2(b) => b.load_next(),
        }
    }

    fn shrink_to(&mut self, range: Range<usize>) -> (kept: Range<usize>)
        ensures
            (*final(self)) is Raw <==> (*old(self)) is Raw,
    {
        match self {
            AnyFileBuffer::Raw(b) => b.shrink_to(range),
            AnyFileBuffer::Bz2(b) => b.shrink_to(range),
        }
    }

    fn seek_from(&mut self, pattern: &SearchPattern, offset: u64, cancelled: &AtomicBool) -> (found:
        Result<Option<Range<u64>>, BufferError>)
        ensures
            (*final(self)) is Raw <==> (*old(self)) is Raw,
    {
        match self {
            AnyFileBuffer::Raw(b) => b.seek_from(pattern, offset, cancelled),
            AnyFileBuffer::Bz2(b) => b.seek_from(pattern, offset, cancelled),
        }
    }

    fn rseek_from(&mut self, pattern: &SearchPattern, offset: u64,
        cancelled: &AtomicBool) -> (found:
        Result<Option<Range<u64>>, BufferError>)
        ensures
            (*final(self)) is Raw <==> (*old(self)) is Raw,
    {
        match self {
            AnyFileBuffer::Raw(b) => b.rseek_from(pattern, offset, cancelled),
            AnyFileBuffer::Bz2(b) => b.rseek_from(pattern, offset, cancelled),
        }
    }
}

} // verus!
