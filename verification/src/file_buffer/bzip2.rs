//! The window over a bzip2 file.
//!
//! The compressed stream is taken as a row of blocks, each of which starts
//! with the same six bytes and can be decoded on its own once the decoder
//! has seen the four bytes at the head of the file. The window holds the
//! decoded bytes of some blocks in a row.

use crate::file_buffer::mapped::{map_bytes, mapped_bytes};
use crate::file_buffer::pattern::SearchPattern;
use crate::file_buffer::{BufferError, FileBuffer};
use crate::utils::infinite_loop_breaker::InfiniteLoopBreaker;
use memmap2::Mmap;
use std::collections::VecDeque;
use std::ops::Range;
use std::sync::atomic::AtomicBool;
use vstd::prelude::*;
use vstd::slice::slice_to_vec;

verus! {

/// The decoder of the `bzip2` crate.
#[verifier::external_type_specification]
#[verifier::external_body]
pub struct ExDecompress(::bzip2::Decompress);

/// The room that the decoder is given for its output in one step.
pub const ALLOC_SIZE: usize = 0x100000;

/// The number of block boundaries that are tried before a decoding error is
/// handed on.
pub const MAX_INVALID_BLOCKS: u64 = 10;

/// The number of bytes at the head of the file that precede the first block.
pub const HEADER_LEN: usize = 4;

/// The number of bytes of the mark that starts a block.
pub const MAGIC_LEN: usize = 6;

/// Whether the six bytes that start a block stand at `at`.
pub open spec fn is_magic_at(file: Seq<u8>, at: int) -> bool {
    &&& 0 <= at
    &&& at + MAGIC_LEN <= file.len()
    &&& file[at] == 0x31
    &&& file[at + 1] == 0x41
    &&& file[at + 2] == 0x59
    &&& file[at + 3] == 0x26
    &&& file[at + 4] == 0x53
    &&& file[at + 5] == 0x59
}

/// The length of the head of the file: four bytes, or the whole file where
/// it is shorter.
pub open spec fn header_len(file: Seq<u8>) -> nat {
    if file.len() < HEADER_LEN {
        file.len()
    } else {
        HEADER_LEN as nat
    }
}

/// Whether four bytes are the head of a bzip2 file: `BZ`, then `h` or `0`,
/// then a digit from 1 to 9.
pub open spec fn is_bzip2_header(header: Seq<u8>) -> bool {
    &&& header.len() == HEADER_LEN
    &&& header[0] == 0x42
    &&& header[1] == 0x5a
    &&& (header[2] == 0x68 || header[2] == 0x30)
    &&& 0x31 <= header[3] <= 0x39
}

/// Whether a block can start at `at`: right behind the head of the file, or
/// where the mark of a block stands.
pub open spec fn is_block_start(file: Seq<u8>, at: int) -> bool {
    at == header_len(file) || (at >= header_len(file) && is_magic_at(file, at))
}

/// Whether a block can end at `at`: where the mark of the next block
/// stands, or at the last byte of the file.
pub open spec fn is_block_end(file: Seq<u8>, at: int) -> bool {
    is_magic_at(file, at) || at + 1 == file.len()
}

/// The first place at or behind `from` where the mark of a block stands, or
/// the place of the last byte of the file where no mark follows.
pub open spec fn next_block(file: Seq<u8>, from: nat) -> nat
    decreases file.len() - from,
{
    if from >= file.len() {
        if file.len() == 0 {
            0
        } else {
            (file.len() - 1) as nat
        }
    } else if is_magic_at(file, from as int) {
        from
    } else {
        next_block(file, from + 1)
    }
}

/// The last place at or before `upto` where the mark of a block stands
/// behind the head of the file, or the end of the head where there is none.
pub open spec fn prev_block(file: Seq<u8>, upto: nat) -> nat
    decreases upto,
{
    if upto <= header_len(file) {
        header_len(file)
    } else if is_magic_at(file, upto as int) {
        upto
    } else {
        prev_block(file, (upto - 1) as nat)
    }
}

/// The next block lies at or behind the place the search started from, or
/// at the last byte of the file, and never behind the file.
pub proof fn lemma_next_block_bounds(file: Seq<u8>, from: nat)
    ensures
        next_block(file, from) <= file.len(),
        next_block(file, from) >= from || next_block(file, from) + 1 == file.len()
            || file.len() == 0,
        file.len() > 0 ==> is_block_end(file, next_block(file, from) as int),
        file.len() > 0 ==> next_block(file, from) < file.len(),
    decreases file.len() - from,
{
    if from < file.len() && !is_magic_at(file, from as int) {
        lemma_next_block_bounds(file, from + 1);
    }
}

/// The block before a place starts where a block can start, inside the
/// file, and not behind that place unless the place lies in the head.
pub proof fn lemma_prev_block_bounds(file: Seq<u8>, upto: nat)
    ensures
        is_block_start(file, prev_block(file, upto) as int),
        header_len(file) <= prev_block(file, upto) <= file.len(),
        upto >= header_len(file) ==> prev_block(file, upto) <= upto,
    decreases upto,
{
    if upto > header_len(file) && !is_magic_at(file, upto as int) {
        lemma_prev_block_bounds(file, (upto - 1) as nat);
    }
}

/// Whether the mark of a block stands at `at`.
fn magic_at(file: &[u8], at: usize) -> (yes: bool)
    ensures
        yes == is_magic_at(file@, at as int),
{
    if file.len() < MAGIC_LEN || at > file.len() - MAGIC_LEN {
        return false;
    }
    file[at] == 0x31 && file[at + 1] == 0x41 && file[at + 2] == 0x59 && file[at + 3] == 0x26
        && file[at + 4] == 0x53 && file[at + 5] == 0x59
}

/// The first place at or behind `from` where the mark of a block stands, or
/// the place of the last byte of the file where no mark follows.
pub fn first_magic_from(file: &[u8], from: usize) -> (at: usize)
    ensures
        at == next_block(file@, from as nat),
{
    let len = file.len();
    let mut at = from;
    while at < len
        invariant
            len == file@.len(),
            from <= at || at == from,
            next_block(file@, from as nat) == next_block(file@, at as nat),
        decreases len - at,
    {
        if magic_at(file, at) {
            return at;
        }
        at += 1;
    }
    if len == 0 {
        0
    } else {
        len - 1
    }
}

/// The last place at or before `upto` where the mark of a block stands
/// behind the head of the file, or the end of the head where there is none.
pub fn last_magic_upto(file: &[u8], upto: usize) -> (at: usize)
    ensures
        at == prev_block(file@, upto as nat),
{
    let head = if file.len() < HEADER_LEN {
        file.len()
    } else {
        HEADER_LEN
    };
    let mut at = upto;
    while at > head
        invariant
            head == header_len(file@),
            prev_block(file@, upto as nat) == prev_block(file@, at as nat),
        decreases at,
    {
        if magic_at(file, at) {
            return at;
        }
        at -= 1;
    }
    head
}

/// The bytes that the decoder has taken from its input so far, over all
/// its steps.
pub uninterp spec fn decoder_fed(decoder: ::bzip2::Decompress) -> Seq<u8>;

/// The number of bytes that the decoder has written so far, over all its
/// steps.
pub uninterp spec fn decoder_out(decoder: ::bzip2::Decompress) -> nat;

/// What one step of `bzip2::Decompress::decompress` yields for a decoder
/// that has taken the bytes `fed` and written `out` bytes so far, when it is
/// given `input` and room for `room` bytes: the number of bytes that it
/// takes from the input, the bytes that it writes, and how the step ends,
/// as a number (see `step_end`). The decoder is given nothing but its
/// input and the room, and keeps nothing but what it made of the bytes it
/// took before: the same bytes taken, the same number written, the same
/// input and the same room give the same step.
pub uninterp spec fn decoder_step(fed: Seq<u8>, out: nat, input: Seq<u8>, room: nat) -> (
    nat,
    Seq<u8>,
    int,
);

/// How a step ends, by the number that stands for it: `Ok(true)` at the end
/// of the stream, an error where the decoder fails, and `Ok(false)` else.
pub open spec fn step_end(code: int) -> Result<bool, DecodeFault> {
    if code == 1 {
        Ok(true)
    } else if code == 2 {
        Err(DecodeFault::Sequence)
    } else if code == 3 {
        Err(DecodeFault::Data)
    } else if code == 4 {
        Err(DecodeFault::DataMagic)
    } else if code == 5 {
        Err(DecodeFault::Param)
    } else {
        Ok(false)
    }
}

/// What holds of a decoder before and after the step `step` on `input`
/// with room for `room` bytes, of the room after it and of what the step
/// returned: it took no more than it was given and wrote no more than it
/// had room for; what it wrote stands at the front of the room.
pub open spec fn stepped(
    step: (nat, Seq<u8>, int),
    before: ::bzip2::Decompress,
    input: Seq<u8>,
    room: nat,
    after: ::bzip2::Decompress,
    written: Seq<u8>,
    end: Result<bool, DecodeFault>,
) -> bool {
    &&& step.0 <= input.len()
    &&& step.1.len() <= room
    &&& decoder_fed(after) == decoder_fed(before) + input.take(step.0 as int)
    &&& decoder_out(after) == decoder_out(before) + step.1.len()
    &&& written.len() == room
    &&& written.take(step.1.len() as int) == step.1
    &&& end == step_end(step.2)
}

/// `bzip2::Decompress::new`: a decoder at the start of a stream, which uses
/// the faster of the two decoding methods. It has taken and written
/// nothing.
#[verifier::external_body]
fn new_decoder() -> (decoder: ::bzip2::Decompress)
    ensures
        decoder_fed(decoder) == Seq::<u8>::empty(),
        decoder_out(decoder) == 0,
{
    ::bzip2::Decompress::new(false)
}

/// `bzip2::Decompress::total_in`: the number of input bytes that the decoder
/// has taken so far.
#[verifier::external_body]
fn total_consumed(decoder: &::bzip2::Decompress) -> (n: u64)
    ensures
        n == decoder_fed(*decoder).len(),
{
    decoder.total_in()
}

/// `bzip2::Decompress::total_out`: the number of bytes that the decoder has
/// written so far.
#[verifier::external_body]
fn total_produced(decoder: &::bzip2::Decompress) -> (n: u64)
    ensures
        n == decoder_out(*decoder),
{
    decoder.total_out()
}

/// `bzip2::Decompress::decompress`: one step of the decoder, which reads
/// from `input` and writes to the front of `room`, whose length stays. The
/// result tells whether the decoder has reached the end of its stream, or
/// how it failed.
#[verifier::external_body]
fn decode_into(decoder: &mut ::bzip2::Decompress, input: &[u8], room: &mut Vec<u8>) -> (end: Result<
    bool,
    DecodeFault,
>)
    ensures
        stepped(
            decoder_step(
                decoder_fed(*old(decoder)),
                decoder_out(*old(decoder)),
                input@,
                old(room)@.len(),
            ),
            *old(decoder),
            input@,
            old(room)@.len(),
            *final(decoder),
            final(room)@,
            end,
        ),
{
    match decoder.decompress(input, room.as_mut_slice()) {
        Ok(::bzip2::Status::StreamEnd) => Ok(true),
        Ok(_) => Ok(false),
        Err(::bzip2::Error::Sequence) => Err(DecodeFault::Sequence),
        Err(::bzip2::Error::Data) => Err(DecodeFault::Data),
        Err(::bzip2::Error::DataMagic) => Err(DecodeFault::DataMagic),
        Err(::bzip2::Error::Param) => Err(DecodeFault::Param),
    }
}

/// The ways in which the decoder fails.
#[derive(Debug, Clone, Copy, PartialEq, Eq)]
pub enum DecodeFault {
    /// The decoder was called when it could not be.
    Sequence,
    /// The data is not what a bzip2 stream holds.
    Data,
    /// The data does not start as a bzip2 stream does.
    DataMagic,
    /// The decoder was called with values it does not take.
    Param,
}

/// The text that a failure of the decoder is reported with.
pub open spec fn fault_text(fault: DecodeFault) -> Seq<char> {
    match fault {
        DecodeFault::Sequence => "bzip2: sequence of operations invalid"@,
        DecodeFault::Data => "bzip2: invalid data"@,
        DecodeFault::DataMagic => "bzip2: bz2 header missing"@,
        DecodeFault::Param => "bzip2: invalid parameters"@,
    }
}

impl DecodeFault {
    /// The text that the failure is reported with.
    pub fn message(&self) -> (text: String)
        ensures
            text@ == fault_text(*self),
    {
        match self {
            DecodeFault::Sequence => "bzip2: sequence of operations invalid".to_owned(),
            DecodeFault::Data => "bzip2: invalid data".to_owned(),
            DecodeFault::DataMagic => "bzip2: bz2 header missing".to_owned(),
            DecodeFault::Param => "bzip2: invalid parameters".to_owned(),
        }
    }
}

/// The error of the buffer for a failure of the decoder: it holds the text
/// of the failure.
fn decode_failure(fault: DecodeFault) -> (failure: BufferError)
    ensures
        failure matches BufferError::Failed(text) && text@ == fault_text(fault),
{
    BufferError::Failed(fault.message())
}

/// What is to be done after a step of the decoder.
#[derive(Debug, Clone, Copy, PartialEq, Eq)]
pub enum DecodeStep {
    /// The decoder is done: what it wrote is the result.
    Finished,
    /// The count of the decoder does not fit the input it was given.
    OutOfStep,
    /// The decoder goes on behind that many bytes of the input.
    More(usize),
}

/// What is to be done after a step in which the decoder was given `left`
/// bytes, wrote `produced` bytes, and counted `before_in` bytes of input
/// before and `after_in` behind it; `ended` says whether it reported the
/// end of its stream. The decoder is done at the end of its stream, and
/// where it neither read nor wrote; else it goes on behind what it read.
pub open spec fn step_after(
    ended: bool,
    before_in: u64,
    after_in: u64,
    produced: usize,
    left: usize,
) -> DecodeStep {
    if ended {
        DecodeStep::Finished
    } else if after_in < before_in || after_in - before_in > left {
        DecodeStep::OutOfStep
    } else if produced == 0 && after_in == before_in {
        DecodeStep::Finished
    } else {
        DecodeStep::More((after_in - before_in) as usize)
    }
}

/// What is to be done after a step of the decoder.
pub fn next_step(ended: bool, before_in: u64, after_in: u64, produced: usize, left: usize) -> (step:
    DecodeStep)
    ensures
        step == step_after(ended, before_in, after_in, produced, left),
        step matches DecodeStep::More(consumed) ==> consumed <= left && (consumed > 0 || produced
            > 0),
{
    if ended {
        DecodeStep::Finished
    } else if after_in < before_in || after_in - before_in > left as u64 {
        DecodeStep::OutOfStep
    } else if produced == 0 && after_in == before_in {
        DecodeStep::Finished
    } else {
        DecodeStep::More((after_in - before_in) as usize)
    }
}

/// What the steps of a decoder yield together that has taken the bytes
/// `fed` and written `out` bytes, when it is given `input` step by step,
/// each time what is left of it and room for `ALLOC_SIZE` bytes, until it
/// reaches the end of its stream or neither reads nor writes; `written` is
/// what it has written in the steps before. The result is all that it has
/// written then, or the failure of the step that failed.
pub open spec fn decoded_from(fed: Seq<u8>, out: nat, input: Seq<u8>, written: Seq<u8>) -> Result<
    Seq<u8>,
    DecodeFault,
>
    decreases input.len(), usize::MAX - written.len(),
{
    let step = decoder_step(fed, out, input, ALLOC_SIZE as nat);
    let all = written + step.1;
    match step_end(step.2) {
        Err(fault) => Err(fault),
        Ok(true) => Ok(all),
        Ok(false) => if step.0 > input.len() || all.len() > usize::MAX || (step.0 == 0
            && step.1.len() == 0) {
            Ok(all)
        } else {
            decoded_from(
                fed + input.take(step.0 as int),
                out + step.1.len(),
                input.skip(step.0 as int),
                all,
            )
        },
    }
}

/// What decoding the compressed bytes `input` gives with a decoder that has
/// first been shown `header`, with no room to write: the bytes that its
/// steps yield together, or the failure of the step that failed.
pub open spec fn decoded_bytes(header: Seq<u8>, input: Seq<u8>) -> Result<Seq<u8>, DecodeFault> {
    let shown = decoder_step(Seq::<u8>::empty(), 0, header, 0);
    match step_end(shown.2) {
        Err(fault) => Err(fault),
        Ok(_) => decoded_from(
            Seq::<u8>::empty() + header.take(shown.0 as int),
            0 + shown.1.len(),
            input,
            Seq::<u8>::empty(),
        ),
    }
}

/// Decodes the compressed bytes `input` of one block, or of some blocks in
/// a row, with a decoder that has first been shown `header`. The decoder is
/// run until it neither reads nor writes any more, or has reached the end
/// of its stream; what it wrote by then is the result. Where a step of the
/// decoder fails, the error holds the text of that failure.
pub fn decode_block(header: &[u8], input: &[u8]) -> (decoded: Result<Vec<u8>, BufferError>)
    ensures
        match decoded_bytes(header@, input@) {
            Ok(bytes) => decoded matches Ok(data) && data@ == bytes,
            Err(fault) => decoded matches Err(BufferError::Failed(text)) && text@ == fault_text(
                fault,
            ),
        },
{
    let mut decoder = new_decoder();
    let mut output: Vec<u8> = Vec::new();
    let mut room: Vec<u8> = Vec::new();
    if let Err(fault) = decode_into(&mut decoder, header, &mut room) {
        return Err(decode_failure(fault));
    }
    let mut rest: usize = 0;
    assert(input@.skip(0) =~= input@);
    loop
        invariant
            rest <= input@.len(),
            decoded_bytes(header@, input@) == decoded_from(
                decoder_fed(decoder),
                decoder_out(decoder),
                input@.skip(rest as int),
                output@,
            ),
        decreases input@.len() - rest, usize::MAX - output@.len(),
    {
        room.resize(ALLOC_SIZE, 0);
        let before_in = total_consumed(&decoder);
        let before_out = total_produced(&decoder);
        let ghost before = decoder;
        let ghost left = input@.skip(rest as int);
        let slice = &input[rest..input.len()];
        assert(slice@ =~= left);
        let ended = match decode_into(&mut decoder, slice, &mut room) {
            Ok(ended) => ended,
            Err(fault) => {
                return Err(decode_failure(fault));
            },
        };
        let after_in = total_consumed(&decoder);
        let after_out = total_produced(&decoder);
        let ghost step = decoder_step(
            decoder_fed(before),
            decoder_out(before),
            left,
            ALLOC_SIZE as nat,
        );
        assert(after_in - before_in == step.0);
        assert(after_out - before_out == step.1.len());
        let produced = (after_out - before_out) as usize;
        room.truncate(produced);
        assert(room@ =~= step.1);
        output.append(&mut room);
        let grown = output.len();
        match next_step(ended, before_in, after_in, produced, input.len() - rest) {
            DecodeStep::Finished => {
                return Ok(output);
            },
            DecodeStep::OutOfStep => {
                return Err(BufferError::Failed("bzip2: input count out of step".to_owned()));
            },
            DecodeStep::More(consumed) => {
                assert(left.skip(consumed as int) =~= input@.skip(rest + consumed));
                rest = rest + consumed;
            },
        }
    }
}

/// What decoding the bytes of the file from `start` to `end` gives, with a
/// decoder that has been shown the head of the file.
pub open spec fn block_bytes(file: Seq<u8>, start: int, end: int) -> Result<Seq<u8>, DecodeFault> {
    decoded_bytes(file.take(header_len(file) as int), file.subrange(start, end))
}

/// The bytes that the stretch of the file from `range.0` to `range.1`
/// decodes to, and none where the decoder fails on it.
pub open spec fn block_data(file: Seq<u8>, range: (int, int)) -> Seq<u8> {
    match block_bytes(file, range.0, range.1) {
        Ok(bytes) => bytes,
        Err(_) => Seq::empty(),
    }
}

/// The bytes that some stretches of the file decode to, one after the
/// other.
pub open spec fn blocks_data(file: Seq<u8>, ranges: Seq<(int, int)>) -> Seq<u8>
    decreases ranges.len(),
{
    if ranges.len() == 0 {
        Seq::empty()
    } else {
        blocks_data(file, ranges.drop_last()) + block_data(file, ranges.last())
    }
}

/// What two rows of stretches decode to is what the one decodes to and then
/// what the other decodes to.
pub proof fn lemma_blocks_data_concat(file: Seq<u8>, a: Seq<(int, int)>, b: Seq<(int, int)>)
    ensures
        blocks_data(file, a + b) == blocks_data(file, a) + blocks_data(file, b),
    decreases b.len(),
{
    if b.len() == 0 {
        assert(a + b =~= a);
        assert(blocks_data(file, a) + blocks_data(file, b) =~= blocks_data(file, a));
    } else {
        assert((a + b).drop_last() =~= a + b.drop_last());
        assert((a + b).last() == b.last());
        lemma_blocks_data_concat(file, a, b.drop_last());
        assert((blocks_data(file, a) + blocks_data(file, b.drop_last())) + block_data(
            file,
            b.last(),
        ) =~= blocks_data(file, a) + (blocks_data(file, b.drop_last()) + block_data(
            file,
            b.last(),
        )));
    }
}

/// What a single stretch decodes to.
pub proof fn lemma_blocks_data_one(file: Seq<u8>, range: (int, int))
    ensures
        blocks_data(file, seq![range]) == block_data(file, range),
{
    assert(seq![range].drop_last() =~= Seq::<(int, int)>::empty());
    assert(seq![range].last() == range);
    assert(blocks_data(file, Seq::<(int, int)>::empty()) =~= Seq::<u8>::empty());
    assert(Seq::<u8>::empty() + block_data(file, range) =~= block_data(file, range));
}

/// Decodes the block that ends at `end`, taking `first_start` as its start,
/// and, where the decoder refuses that, the start of one block earlier, and
/// so on, as often as the limit on boundaries allows and as long as there is
/// an earlier start. Returns the start that worked with the decoded bytes,
/// or the error of the last try.
fn decode_ending_at(header: &[u8], file: &[u8], first_start: usize, end: usize) -> (decoded: Result<
    (usize, Vec<u8>),
    BufferError,
>)
    requires
        header_len(file@) <= first_start < end <= file@.len(),
        is_block_start(file@, first_start as int),
        header@ == file@.take(header_len(file@) as int),
    ensures
        decoded matches Ok((start, data)) ==> {
            &&& header_len(file@) <= start <= first_start
            &&& is_block_start(file@, start as int)
            &&& block_bytes(file@, start as int, end as int) == Ok::<Seq<u8>, DecodeFault>(data@)
        },
        block_bytes(file@, first_start as int, end as int) is Ok ==> (decoded matches Ok(
            (start, data),
        ) && start == first_start),
        decoded matches Err(e) ==> e is Failed,
{
    let head = if file.len() < HEADER_LEN {
        file.len()
    } else {
        HEADER_LEN
    };
    let mut breaker = InfiniteLoopBreaker::new(MAX_INVALID_BLOCKS);
    let mut start = first_start;
    loop
        invariant
            head == header_len(file@),
            head <= start <= first_start,
            first_start < end <= file@.len(),
            is_block_start(file@, start as int),
            header@ == file@.take(header_len(file@) as int),
            start == first_start || !(block_bytes(file@, first_start as int, end as int) is Ok),
        decreases breaker.remaining(),
    {
        let piece = &file[start..end];
        assert(piece@ =~= file@.subrange(start as int, end as int));
        match decode_block(header, piece) {
            Ok(data) => {
                return Ok((start, data));
            },
            Err(e) => {
                if breaker.it().is_err() || start <= head {
                    return Err(e);
                }
                proof {
                    lemma_prev_block_bounds(file@, (start - 1) as nat);
                }
                start = last_magic_upto(file, start - 1);
            },
        }
    }
}

/// Decodes the block that starts at `start`, taking the next mark behind it
/// as its end, and, where the decoder refuses that, the mark after, and so
/// on, as often as the limit on boundaries allows. Returns the end that
/// worked with the decoded bytes, or the error of the last try. `None` is
/// returned where no block follows `start`, which is where at most one byte
/// of the file lies behind `start`, and only there.
fn decode_starting_at(header: &[u8], file: &[u8], start: usize) -> (decoded: Result<
    Option<(usize, Vec<u8>)>,
    BufferError,
>)
    requires
        start <= file@.len(),
        header@ == file@.take(header_len(file@) as int),
    ensures
        (decoded matches Ok(None)) <==> start + 1 >= file@.len(),
        decoded matches Ok(Some((end, data))) ==> {
            &&& start < end < file@.len()
            &&& next_block(file@, (start + 1) as nat) <= end
            &&& is_block_end(file@, end as int)
            &&& block_bytes(file@, start as int, end as int) == Ok::<Seq<u8>, DecodeFault>(data@)
        },
        start + 1 < file@.len() && block_bytes(
            file@,
            start as int,
            next_block(file@, (start + 1) as nat) as int,
        ) is Ok ==> (decoded matches Ok(Some((end, data))) && end == next_block(
            file@,
            (start + 1) as nat,
        )),
        decoded matches Err(e) ==> e is Failed,
{
    let len = file.len();
    if start >= len || start + 1 >= len {
        return Ok(None);
    }
    let mut breaker = InfiniteLoopBreaker::new(MAX_INVALID_BLOCKS);
    let mut from = start + 1;
    let ghost nearest = next_block(file@, (start + 1) as nat);
    proof {
        lemma_next_block_bounds(file@, (start + 1) as nat);
    }
    loop
        invariant
            len == file@.len(),
            start < from <= len,
            start + 1 < len,
            nearest == next_block(file@, (start + 1) as nat),
            start < nearest < len,
            from == start + 1 || nearest < from,
            header@ == file@.take(header_len(file@) as int),
            from == start + 1 || !(block_bytes(file@, start as int, nearest as int) is Ok),
        decreases breaker.remaining(),
    {
        proof {
            lemma_next_block_bounds(file@, from as nat);
        }
        let end = first_magic_from(file, from);
        let piece = &file[start..end];
        assert(piece@ =~= file@.subrange(start as int, end as int));
        match decode_block(header, piece) {
            Ok(data) => {
                return Ok(Some((end, data)));
            },
            Err(e) => {
                if breaker.it().is_err() || end >= len {
                    return Err(e);
                }
                from = end + 1;
            },
        }
    }
}

/// One decoded block of the window: the range of the file it was decoded
/// from and the number of bytes it decoded to.
struct Block {
    file_range: Range<usize>,
    len: usize,
}

/// The number of decoded bytes of some blocks together.
spec fn total_len(blocks: Seq<Block>) -> nat
    decreases blocks.len(),
{
    if blocks.len() == 0 {
        0
    } else {
        (total_len(blocks.drop_last()) + blocks.last().len) as nat
    }
}

/// The decoded lengths of two rows of blocks add up.
proof fn lemma_total_len_concat(a: Seq<Block>, b: Seq<Block>)
    ensures
        total_len(a + b) == total_len(a) + total_len(b),
    decreases b.len(),
{
    if b.len() == 0 {
        assert(a + b =~= a);
    } else {
        assert((a + b).drop_last() =~= a + b.drop_last());
        lemma_total_len_concat(a, b.drop_last());
    }
}

/// The decoded length of a single block.
proof fn lemma_total_len_one(block: Block)
    ensures
        total_len(seq![block]) == block.len,
{
    assert(seq![block].drop_last() =~= Seq::<Block>::empty());
    assert(seq![block].last() == block);
    assert(total_len(Seq::<Block>::empty()) == 0);
}

/// Whether the blocks follow each other in the file without a gap, from
/// `start` to `end`, and none of them is empty in the file.
spec fn is_chain(blocks: Seq<Block>, start: int, end: int) -> bool {
    &&& blocks.len() == 0 ==> start == end
    &&& blocks.len() > 0 ==> blocks[0].file_range.start == start && blocks.last().file_range.end
        == end
    &&& forall|i: int|
        0 <= i < blocks.len() ==> (#[trigger] blocks[i]).file_range.start < blocks[i].file_range.end
    &&& forall|i: int|
        0 <= i < blocks.len() - 1 ==> (#[trigger] blocks[i]).file_range.end == blocks[i
            + 1].file_range.start
}

/// The stretch of the file that a block was decoded from.
spec fn range_of(block: Block) -> (int, int) {
    (block.file_range.start as int, block.file_range.end as int)
}

/// The stretches of the file that some blocks were decoded from.
spec fn ranges_of(blocks: Seq<Block>) -> Seq<(int, int)> {
    Seq::new(blocks.len(), |i: int| range_of(blocks[i]))
}

/// Whether a block starts where a block can start, and its stretch of the
/// file decodes to as many bytes as the block says.
spec fn sound_block(file: Seq<u8>, block: Block) -> bool {
    &&& is_block_start(file, block.file_range.start as int)
    &&& block_bytes(file, block.file_range.start as int, block.file_range.end as int) is Ok
    &&& block_data(file, range_of(block)).len() == block.len
}

/// Whether each of the blocks starts where a block can start and decodes
/// to as many bytes as it says.
spec fn start_at_boundaries(file: Seq<u8>, blocks: Seq<Block>) -> bool {
    forall|i: int| 0 <= i < blocks.len() ==> sound_block(file, #[trigger] blocks[i])
}

/// The bytes that some blocks decode to, one after the other.
spec fn content(file: Seq<u8>, blocks: Seq<Block>) -> Seq<u8> {
    blocks_data(file, ranges_of(blocks))
}

/// What blocks decode to with one more block in front or behind.
proof fn lemma_content_joined(file: Seq<u8>, a: Seq<Block>, b: Seq<Block>)
    ensures
        content(file, a + b) == content(file, a) + content(file, b),
{
    assert(ranges_of(a + b) =~= ranges_of(a) + ranges_of(b));
    lemma_blocks_data_concat(file, ranges_of(a), ranges_of(b));
}

/// What a single block decodes to.
proof fn lemma_content_one(file: Seq<u8>, block: Block)
    ensures
        content(file, seq![block]) == block_data(file, range_of(block)),
{
    assert(ranges_of(seq![block]) =~= seq![range_of(block)]);
    lemma_blocks_data_one(file, range_of(block));
}

/// A chain without its first block is a chain from the end of that block.
proof fn lemma_chain_without_first(file: Seq<u8>, blocks: Seq<Block>, start: int, end: int)
    requires
        blocks.len() > 1,
        is_chain(blocks, start, end),
        start_at_boundaries(file, blocks),
    ensures
        is_chain(blocks.subrange(1, blocks.len() as int), blocks[0].file_range.end as int, end),
        start_at_boundaries(file, blocks.subrange(1, blocks.len() as int)),
        is_block_start(file, blocks[0].file_range.end as int),
        total_len(blocks) == blocks[0].len + total_len(blocks.subrange(1, blocks.len() as int)),
        start < blocks[0].file_range.end,
        content(file, blocks) == block_data(file, range_of(blocks[0])) + content(
            file,
            blocks.subrange(1, blocks.len() as int),
        ),
        block_data(file, range_of(blocks[0])).len() == blocks[0].len,
{
    let rest = blocks.subrange(1, blocks.len() as int);
    lemma_content_joined(file, seq![blocks[0]], rest);
    lemma_content_one(file, blocks[0]);
    assert(blocks[0].file_range.end == blocks[1].file_range.start);
    assert(rest[0] == blocks[1]);
    assert(rest.last() == blocks.last());
    assert forall|i: int| 0 <= i < rest.len() implies (#[trigger] rest[i]).file_range.start
        < rest[i].file_range.end by {
        assert(rest[i] == blocks[i + 1]);
    }
    assert forall|i: int| 0 <= i < rest.len() - 1 implies (#[trigger] rest[i]).file_range.end
        == rest[i + 1].file_range.start by {
        assert(rest[i] == blocks[i + 1]);
        assert(rest[i + 1] == blocks[i + 2]);
    }
    assert forall|i: int| 0 <= i < rest.len() implies sound_block(file, #[trigger] rest[i]) by {
        assert(rest[i] == blocks[i + 1]);
    }
    assert(blocks =~= seq![blocks[0]] + rest);
    lemma_total_len_one(blocks[0]);
    lemma_total_len_concat(seq![blocks[0]], rest);
}

/// A chain without its last block is a chain to the start of that block,
/// and that start is the mark of a block.
proof fn lemma_chain_without_last(file: Seq<u8>, blocks: Seq<Block>, start: int, end: int)
    requires
        blocks.len() > 1,
        is_chain(blocks, start, end),
        start_at_boundaries(file, blocks),
    ensures
        is_chain(blocks.drop_last(), start, blocks.last().file_range.start as int),
        start_at_boundaries(file, blocks.drop_last()),
        is_block_end(file, blocks.last().file_range.start as int),
        total_len(blocks) == total_len(blocks.drop_last()) + blocks.last().len,
        start < blocks.last().file_range.start < end,
        content(file, blocks) == content(file, blocks.drop_last()) + block_data(
            file,
            range_of(blocks.last()),
        ),
        block_data(file, range_of(blocks.last())).len() == blocks.last().len,
{
    let rest = blocks.drop_last();
    assert(blocks =~= rest + seq![blocks.last()]);
    lemma_content_joined(file, rest, seq![blocks.last()]);
    lemma_content_one(file, blocks.last());
    assert(rest[0] == blocks[0]);
    assert(rest.last() == blocks[blocks.len() - 2]);
    assert(blocks[blocks.len() - 2].file_range.end == blocks[blocks.len() - 1].file_range.start);
    assert forall|i: int| 0 <= i < rest.len() implies (#[trigger] rest[i]).file_range.start
        < rest[i].file_range.end by {
        assert(rest[i] == blocks[i]);
    }
    assert forall|i: int| 0 <= i < rest.len() - 1 implies (#[trigger] rest[i]).file_range.end
        == rest[i + 1].file_range.start by {
        assert(rest[i] == blocks[i]);
        assert(rest[i + 1] == blocks[i + 1]);
    }
    assert forall|i: int| 0 <= i < rest.len() implies sound_block(file, #[trigger] rest[i]) by {
        assert(rest[i] == blocks[i]);
    }
    lemma_chain_ordered(rest, start, blocks.last().file_range.start as int);
    assert(is_block_start(file, blocks[blocks.len() - 1].file_range.start as int));
    assert(blocks[0].file_range.start == start);
    assert(is_block_start(file, blocks[0].file_range.start as int));
}

/// A chain with one more block in front of it.
proof fn lemma_chain_with_first(file: Seq<u8>, blocks: Seq<Block>, block: Block, start: int,
    end: int)
    requires
        is_chain(blocks, start, end),
        start_at_boundaries(file, blocks),
        sound_block(file, block),
        block.file_range.start < block.file_range.end,
        block.file_range.end == start,
    ensures
        is_chain(seq![block] + blocks, block.file_range.start as int, end),
        start_at_boundaries(file, seq![block] + blocks),
        total_len(seq![block] + blocks) == block.len + total_len(blocks),
        content(file, seq![block] + blocks) == block_data(file, range_of(block)) + content(
            file,
            blocks,
        ),
{
    let all = seq![block] + blocks;
    lemma_content_joined(file, seq![block], blocks);
    lemma_content_one(file, block);
    assert(all[0] == block);
    if blocks.len() > 0 {
        assert(all.last() == blocks.last());
        assert(all[1] == blocks[0]);
    }
    assert forall|i: int| 0 <= i < all.len() implies (#[trigger] all[i]).file_range.start
        < all[i].file_range.end by {
        if i > 0 {
            assert(all[i] == blocks[i - 1]);
        }
    }
    assert forall|i: int| 0 <= i < all.len() - 1 implies (#[trigger] all[i]).file_range.end
        == all[i + 1].file_range.start by {
        assert(all[i + 1] == blocks[i]);
        if i > 0 {
            assert(all[i] == blocks[i - 1]);
        }
    }
    assert forall|i: int| 0 <= i < all.len() implies sound_block(file, #[trigger] all[i]) by {
        if i > 0 {
            assert(all[i] == blocks[i - 1]);
        }
    }
    lemma_total_len_one(block);
    lemma_total_len_concat(seq![block], blocks);
}

/// A chain with one more block behind it.
proof fn lemma_chain_with_last(file: Seq<u8>, blocks: Seq<Block>, block: Block, start: int,
    end: int)
    requires
        is_chain(blocks, start, end),
        start_at_boundaries(file, blocks),
        sound_block(file, block),
        block.file_range.start < block.file_range.end,
        block.file_range.start == end,
    ensures
        is_chain(blocks.push(block), start, block.file_range.end as int),
        start_at_boundaries(file, blocks.push(block)),
        total_len(blocks.push(block)) == total_len(blocks) + block.len,
        content(file, blocks.push(block)) == content(file, blocks) + block_data(
            file,
            range_of(block),
        ),
{
    let all = blocks.push(block);
    assert(all =~= blocks + seq![block]);
    lemma_content_joined(file, blocks, seq![block]);
    lemma_content_one(file, block);
    assert(all.last() == block);
    assert(all.drop_last() =~= blocks);
    if blocks.len() > 0 {
        assert(all[0] == blocks[0]);
        assert(all[blocks.len() - 1] == blocks.last());
    }
    assert forall|i: int| 0 <= i < all.len() implies (#[trigger] all[i]).file_range.start
        < all[i].file_range.end by {
        if i < blocks.len() {
            assert(all[i] == blocks[i]);
        }
    }
    assert forall|i: int| 0 <= i < all.len() - 1 implies (#[trigger] all[i]).file_range.end
        == all[i + 1].file_range.start by {
        assert(all[i] == blocks[i]);
        if i + 1 < blocks.len() {
            assert(all[i + 1] == blocks[i + 1]);
        }
    }
    assert forall|i: int| 0 <= i < all.len() implies sound_block(file, #[trigger] all[i]) by {
        if i < blocks.len() {
            assert(all[i] == blocks[i]);
        }
    }
}

/// The place at which a jump to `byte` first tries to start its block: the
/// last mark at or before `byte`, or the end of the head of the file.
pub open spec fn jump_start(file: Seq<u8>, byte: nat) -> nat {
    prev_block(
        file,
        if byte <= file.len() {
            byte
        } else {
            file.len()
        },
    )
}

/// The place at which a jump to `byte` ends its block: the first mark
/// behind `byte` and behind the start of the block, or the last byte of the
/// file.
pub open spec fn jump_end(file: Seq<u8>, byte: nat) -> nat {
    let target = if byte <= file.len() {
        byte
    } else {
        file.len()
    };
    let from = if target > jump_start(file, byte) {
        target
    } else {
        jump_start(file, byte)
    };
    next_block(
        file,
        if from < file.len() {
            from + 1
        } else {
            file.len()
        },
    )
}

/// A window of decoded bytes over a mapped bzip2 file.
pub struct Bz2FileBuffer {
    map: Mmap,
    header: Vec<u8>,
    decoded: Vec<u8>,
    blocks: VecDeque<Block>,
    start: usize,
    end: usize,
}

impl Bz2FileBuffer {
    /// The mapped bytes of the file.
    pub closed spec fn mapped(&self) -> Seq<u8> {
        map_bytes(self.map)
    }

    /// The stretches of the file that the blocks of the window were decoded
    /// from, in the order in which they lie in the file.
    pub closed spec fn held(&self) -> Seq<(int, int)> {
        ranges_of(self.blocks@)
    }

    /// The data of the window is what its blocks decode to, one after the
    /// other; each of them decodes, and they follow each other in the file
    /// from the start of the window to its end.
    pub proof fn lemma_data_is_blocks(&self)
        requires
            self.wf(),
        ensures
            self.data_view() == blocks_data(self.file(), self.held()),
            forall|i: int|
                0 <= i < self.held().len() ==> block_bytes(
                    self.file(),
                    (#[trigger] self.held()[i]).0,
                    self.held()[i].1,
                ) is Ok,
            self.held().len() == 0 ==> self.range_start() == self.range_end(),
            self.held().len() > 0 ==> self.held()[0].0 == self.range_start()
                && self.held().last().1 == self.range_end(),
            forall|i: int|
                0 <= i < self.held().len() - 1 ==> (#[trigger] self.held()[i]).1 == self.held()[i
                    + 1].0,
    {
        assert forall|i: int| 0 <= i < self.held().len() implies block_bytes(
            self.file(),
            (#[trigger] self.held()[i]).0,
            self.held()[i].1,
        ) is Ok by {
            assert(sound_block(self.mapped(), self.blocks@[i]));
        }
        assert forall|i: int| 0 <= i < self.held().len() - 1 implies (#[trigger] self.held()[i]).1
            == self.held()[i + 1].0 by {
            assert(self.blocks@[i].file_range.end == self.blocks@[i + 1].file_range.start);
        }
    }

    /// The window of a well-formed buffer starts where a block can start,
    /// and it is empty or ends where a block can end.
    pub proof fn lemma_window_at_blocks(&self)
        requires
            self.wf(),
        ensures
            is_block_start(self.file(), self.range_start() as int),
            self.range_end() == self.range_start() || is_block_end(
                self.file(),
                self.range_end() as int,
            ),
            self.range_end() == self.range_start() ==> self.data_view().len() == 0,
            self.held().len() == 0 ==> self.range_start() == self.floor() && self.range_end()
                == self.floor(),
    {
        if self.blocks@.len() > 0 {
            lemma_chain_ordered(self.blocks@, self.start as int, self.end as int);
        }
    }

    /// An empty window right behind the head of the mapped file.
    pub fn new(map: Mmap) -> (buffer: Self)
        ensures
            buffer.wf(),
            buffer.file() == map_bytes(map),
            buffer.range_start() == header_len(map_bytes(map)),
            buffer.range_end() == header_len(map_bytes(map)),
            buffer.floor() == header_len(map_bytes(map)),
            buffer.data_view() == Seq::<u8>::empty(),
    {
        let bytes = mapped_bytes(&map);
        let head = if bytes.len() < HEADER_LEN {
            bytes.len()
        } else {
            HEADER_LEN
        };
        let header = slice_to_vec(&bytes[0..head]);
        assert(header@ =~= map_bytes(map).take(head as int));
        Bz2FileBuffer {
            map,
            header,
            decoded: Vec::new(),
            blocks: VecDeque::new(),
            start: head,
            end: head,
        }
    }

    /// Whether the head of the file is that of a bzip2 file.
    pub fn is_valid(&self) -> (valid: bool)
        requires
            self.wf(),
        ensures
            valid == is_bzip2_header(self.file().take(header_len(self.file()) as int)),
    {
        self::is_header(self.header.as_slice())
    }

    /// The first place at or behind `byte` where the mark of a block stands,
    /// or the place of the last byte of the file where no mark follows.
    pub fn find_block_from(&self, byte: usize) -> (at: usize)
        requires
            self.wf(),
        ensures
            at == next_block(self.file(), byte as nat),
    {
        first_magic_from(mapped_bytes(&self.map), byte)
    }

    /// The last place at or before `byte` where a block can start.
    pub fn rfind_block_from(&self, byte: usize) -> (at: usize)
        requires
            self.wf(),
        ensures
            at == prev_block(self.file(), byte as nat),
    {
        last_magic_upto(mapped_bytes(&self.map), byte)
    }
}

/// Whether `header` is the head of a bzip2 file.
pub fn is_header(header: &[u8]) -> (valid: bool)
    ensures
        valid == is_bzip2_header(header@),
{
    header.len() == HEADER_LEN && header[0] == 0x42 && header[1] == 0x5a && (header[2] == 0x68
        || header[2] == 0x30) && 0x31 <= header[3] && header[3] <= 0x39
}

impl FileBuffer for Bz2FileBuffer {
    closed spec fn wf(&self) -> bool {
        &&& self.mapped().len() <= usize::MAX
        &&& self.header@ == self.mapped().take(header_len(self.mapped()) as int)
        &&& header_len(self.mapped()) <= self.start <= self.end <= self.mapped().len()
        &&& is_block_start(self.mapped(), self.start as int)
        &&& is_chain(self.blocks@, self.start as int, self.end as int)
        &&& start_at_boundaries(self.mapped(), self.blocks@)
        &&& self.blocks@.len() > 0 ==> is_block_end(self.mapped(), self.end as int)
        &&& total_len(self.blocks@) == self.decoded@.len()
        &&& self.decoded@.len() <= usize::MAX
        &&& self.decoded@ == content(self.mapped(), self.blocks@)
        &&& self.blocks@.len() == 0 ==> self.start == header_len(self.mapped())
    }

    closed spec fn file(&self) -> Seq<u8> {
        self.mapped()
    }

    closed spec fn data_view(&self) -> Seq<u8> {
        self.decoded@
    }

    closed spec fn range_start(&self) -> nat {
        self.start as nat
    }

    closed spec fn range_end(&self) -> nat {
        self.end as nat
    }

    closed spec fn floor(&self) -> nat {
        header_len(self.mapped())
    }

    open spec fn plain(&self) -> bool {
        false
    }

    open spec fn chunk(&self) -> nat {
        0
    }

    open spec fn searchable(&self) -> bool {
        false
    }

    open spec fn forward_match(&self, pattern: Seq<char>, offset: nat) -> Option<(int, int)> {
        None
    }

    open spec fn backward_match(&self, pattern: Seq<char>, offset: nat) -> Option<(int, int)> {
        None
    }

    open spec fn answers_forward(&self, pattern: Seq<char>, offset: nat) -> bool {
        false
    }

    open spec fn answers_backward(&self, pattern: Seq<char>, offset: nat) -> bool {
        false
    }

    proof fn lemma_window_bounds(&self) {
    }

    fn data(&self) -> (d: &[u8]) {
        self.decoded.as_slice()
    }

    fn range(&self) -> (r: Range<u64>) {
        Range { start: self.start as u64, end: self.end as u64 }
    }

    fn total_size(&self) -> (size: u64) {
        mapped_bytes(&self.map).len() as u64
    }

    /// Opens the window on the block that holds `byte`: it starts at the
    /// last mark at or before `byte` and ends at the first mark behind it.
    /// Where the decoder takes that stretch, the window holds what it
    /// decodes to; where it does not, the block is taken to start at a mark
    /// before, if the decoder takes it from one. Where no block lies there
    /// the window is empty.
    fn jump(&mut self, byte: u64) -> (landed: Result<u64, BufferError>)
        ensures
            landed matches Ok(at) ==> {
                &&& is_block_start(old(self).file(), at as int)
                &&& at <= prev_block(old(self).file(), byte as nat)
                &&& final(self).range_end() == if jump_end(old(self).file(), byte as nat)
                    <= jump_start(old(self).file(), byte as nat) {
                    at as nat
                } else {
                    jump_end(old(self).file(), byte as nat)
                }
                &&& final(self).held() == if final(self).range_end() == at {
                    Seq::<(int, int)>::empty()
                } else {
                    seq![(at as int, final(self).range_end() as int)]
                }
            },
            jump_end(old(self).file(), byte as nat) <= jump_start(old(self).file(), byte as nat)
                ==> landed == Ok::<u64, BufferError>(jump_start(old(self).file(), byte as nat) as u64),
            block_bytes(
                old(self).file(),
                jump_start(old(self).file(), byte as nat) as int,
                jump_end(old(self).file(), byte as nat) as int,
            ) is Ok ==> landed == Ok::<u64, BufferError>(
                jump_start(old(self).file(), byte as nat) as u64,
            ),
            landed matches Err(e) ==> e is Failed,
    {
        let bytes = mapped_bytes(&self.map);
        let len = bytes.len();
        let target: usize = if byte <= len as u64 {
            byte as usize
        } else {
            len
        };
        proof {
            lemma_prev_block_bounds(bytes@, target as nat);
            lemma_prev_block_bounds(bytes@, byte as nat);
            self::lemma_prev_block_beyond(bytes@, byte as nat);
        }
        let first_start = last_magic_upto(bytes, target);
        let from = if target > first_start {
            target
        } else {
            first_start
        };
        let probe = if from < len {
            from + 1
        } else {
            len
        };
        proof {
            lemma_next_block_bounds(bytes@, probe as nat);
        }
        let end = first_magic_from(bytes, probe);
        if end <= first_start {
            self.decoded = Vec::new();
            self.blocks = VecDeque::new();
            self.start = first_start;
            self.end = first_start;
            proof {
                assert(ranges_of(self.blocks@) =~= Seq::<(int, int)>::empty());
                assert(self.decoded@ =~= content(self.mapped(), self.blocks@));
            }
            return Ok(first_start as u64);
        }
        match decode_ending_at(self.header.as_slice(), bytes, first_start, end) {
            Ok((start, data)) => {
                let block = Block { file_range: Range { start, end }, len: data.len() };
                let mut blocks = VecDeque::new();
                blocks.push_back(block);
                proof {
                    lemma_total_len_one(block);
                    assert(blocks@ =~= seq![block]);
                    lemma_content_one(bytes@, block);
                    assert(sound_block(bytes@, block));
                }
                self.decoded = data;
                self.blocks = blocks;
                self.start = start;
                self.end = end;
                Ok(start as u64)
            },
            Err(e) => Err(e),
        }
    }

    /// Decodes the block that ends where the window starts and puts its
    /// bytes in front of the data. Where the decoder takes a block that
    /// starts at the nearest mark before the window, the window then starts
    /// there, and else at the mark before that with which it does. Whether
    /// it takes one is for the decoder to say.
    fn load_prev(&mut self) -> (loaded: Result<usize, BufferError>)
        ensures
            loaded matches Err(e) ==> e is Failed,
            loaded matches Ok(n) ==> (old(self).range_start() > old(self).floor() ==> {
                &&& final(self).held() == seq![
                    (final(self).range_start() as int, old(self).range_start() as int),
                ] + old(self).held()
                &&& block_bytes(
                    old(self).file(),
                    final(self).range_start() as int,
                    old(self).range_start() as int,
                ) == Ok::<Seq<u8>, DecodeFault>(final(self).data_view().take(n as int))
            }),
            ({
                let nearest = (
                    prev_block(old(self).file(), (old(self).range_start() - 1) as nat) as int,
                    old(self).range_start() as int,
                );
                let bytes = block_data(old(self).file(), nearest);
                old(self).range_start() > old(self).floor() && block_bytes(
                    old(self).file(),
                    nearest.0,
                    nearest.1,
                ) is Ok && bytes.len() + old(self).data_view().len() <= usize::MAX ==> loaded
                    == Ok::<usize, BufferError>(bytes.len() as usize)
                    && final(self).range_start() == nearest.0
            }),
            loaded is Ok && old(self).range_start() > old(self).floor()
                ==> final(self).range_start() <= prev_block(
                old(self).file(),
                (old(self).range_start() - 1) as nat,
            ) < old(self).range_start(),
    {
        let bytes = mapped_bytes(&self.map);
        let head = if bytes.len() < HEADER_LEN {
            bytes.len()
        } else {
            HEADER_LEN
        };
        let end = self.start;
        if end <= head {
            return Ok(0);
        }
        proof {
            lemma_prev_block_bounds(bytes@, (end - 1) as nat);
        }
        let first_start = last_magic_upto(bytes, end - 1);
        match decode_ending_at(self.header.as_slice(), bytes, first_start, end) {
            Ok((start, data)) => {
                let n = data.len();
                if n > usize::MAX - self.decoded.len() {
                    return Err(BufferError::Failed("bzip2: decoded data too large".to_owned()));
                }
                let block = Block { file_range: Range { start, end }, len: n };
                let ghost old_blocks = self.blocks@;
                let ghost old_data = self.decoded@;
                let ghost fresh = data@;
                let mut joined = data;
                joined.append(&mut self.decoded);
                self.decoded = joined;
                self.blocks.push_front(block);
                self.start = start;
                proof {
                    lemma_chain_with_first(
                        self.mapped(),
                        old_blocks,
                        block,
                        old(self).start as int,
                        self.end as int,
                    );
                    assert(self.decoded@.skip(n as int) =~= old_data);
                    assert(self.decoded@.take(n as int) =~= fresh);
                    assert(ranges_of(self.blocks@) =~= seq![(start as int, end as int)]
                        + ranges_of(old_blocks));
                    if old_blocks.len() == 0 {
                        assert(is_block_end(self.mapped(), self.end as int));
                    }
                }
                Ok(n)
            },
            Err(e) => Err(e),
        }
    }

    /// Decodes the block that starts where the window ends and puts its
    /// bytes behind the data. Nothing is loaded where at most one byte of
    /// the file lies behind the window, and only there. Else the window
    /// then ends at the nearest mark behind it, where the decoder takes the
    /// block that ends there, and at a mark after that with which it does.
    /// Whether it takes one is for the decoder to say.
    fn load_next(&mut self) -> (loaded: Result<usize, BufferError>)
        ensures
            loaded matches Err(e) ==> e is Failed,
            loaded is Ok && old(self).range_end() + 1 < old(self).file().len() ==> {
                &&& final(self).held() == old(self).held().push(
                    (old(self).range_end() as int, final(self).range_end() as int),
                )
                &&& block_bytes(
                    old(self).file(),
                    old(self).range_end() as int,
                    final(self).range_end() as int,
                ) == Ok::<Seq<u8>, DecodeFault>(
                    final(self).data_view().skip(old(self).data_view().len() as int),
                )
            },
            ({
                let nearest = (
                    old(self).range_end() as int,
                    next_block(old(self).file(), (old(self).range_end() + 1) as nat) as int,
                );
                let bytes = block_data(old(self).file(), nearest);
                old(self).range_end() + 1 < old(self).file().len() && block_bytes(
                    old(self).file(),
                    nearest.0,
                    nearest.1,
                ) is Ok && bytes.len() + old(self).data_view().len() <= usize::MAX ==> loaded
                    == Ok::<usize, BufferError>(bytes.len() as usize)
                    && final(self).range_end() == nearest.1
            }),
            old(self).range_end() + 1 >= old(self).file().len() ==> loaded == Ok::<
                usize,
                BufferError,
            >(0) && final(self).range_end() == old(self).range_end(),
            loaded is Ok && old(self).range_end() + 1 < old(self).file().len()
                ==> old(self).range_end() < next_block(
                old(self).file(),
                (old(self).range_end() + 1) as nat,
            ) <= final(self).range_end(),
    {
        let bytes = mapped_bytes(&self.map);
        let start = self.end;
        match decode_starting_at(self.header.as_slice(), bytes, start) {
            Ok(Some((end, data))) => {
                let n = data.len();
                if n > usize::MAX - self.decoded.len() {
                    return Err(BufferError::Failed("bzip2: decoded data too large".to_owned()));
                }
                let block = Block { file_range: Range { start, end }, len: n };
                let ghost old_blocks = self.blocks@;
                let ghost old_data = self.decoded@;
                let ghost fresh = data@;
                let mut data = data;
                self.decoded.append(&mut data);
                self.blocks.push_back(block);
                self.end = end;
                proof {
                    lemma_chain_with_last(
                        self.mapped(),
                        old_blocks,
                        block,
                        self.start as int,
                        old(self).end as int,
                    );
                    assert(self.decoded@.take(old_data.len() as int) =~= old_data);
                    assert(self.decoded@.skip(old_data.len() as int) =~= fresh);
                    assert(ranges_of(self.blocks@) =~= ranges_of(old_blocks).push(
                        (start as int, end as int),
                    ));
                    lemma_next_block_bounds(self.mapped(), (old(self).end + 1) as nat);
                }
                Ok(n)
            },
            Ok(None) => Ok(0),
            Err(e) => Err(e),
        }
    }

    /// Drops the blocks at the front that lie before `range` as a whole, and
    /// then the blocks at the back that lie behind it as a whole, but never
    /// the last block that is left. So where more than one block stays,
    /// the first and the last of them reach into `range`.
    fn shrink_to(&mut self, range: Range<usize>) -> (kept: Range<usize>)
        ensures
            old(self).held().len() > 0 ==> final(self).held().len() > 0,
            final(self).held().len() > 1 && kept.start < range.start ==> kept.start + block_data(
                old(self).file(),
                final(self).held()[0],
            ).len() > range.start,
            final(self).held().len() > 1 && range.end < kept.end ==> kept.end - block_data(
                old(self).file(),
                final(self).held().last(),
            ).len() < range.end,
    {
        let ghost old_data = self.decoded@;
        let mut dropped: usize = 0;
        let mut total: usize = self.decoded.len();

        while self.blocks.len() > 1 && dropped < range.start && self.blocks[0].len <= range.start
            - dropped
            invariant
                self.mapped() == old(self).mapped(),
                self.header == old(self).header,
                self.decoded == old(self).decoded,
                self.end == old(self).end,
                old(self).start <= self.start,
                self.mapped().len() <= usize::MAX,
                header_len(self.mapped()) <= self.start <= self.end <= self.mapped().len(),
                is_block_start(self.mapped(), self.start as int),
                is_chain(self.blocks@, self.start as int, self.end as int),
                start_at_boundaries(self.mapped(), self.blocks@),
                self.blocks@.len() > 0 ==> is_block_end(self.mapped(), self.end as int),
                dropped <= range.start <= range.end <= total,
                total == old_data.len(),
                dropped + total_len(self.blocks@) == total,
                range.start == 0 ==> self.start == old(self).start,
                old_data.subrange(dropped as int, total as int) == content(
                    self.mapped(),
                    self.blocks@,
                ),
                old(self).blocks@.len() > 0 ==> self.blocks@.len() > 0,
            decreases self.blocks@.len(),
        {
            proof {
                lemma_chain_without_first(
                    self.mapped(),
                    self.blocks@,
                    self.start as int,
                    self.end as int,
                );
            }
            let ghost data = old_data.subrange(dropped as int, total as int);
            let first = self.blocks.pop_front().unwrap();
            dropped = dropped + first.len;
            self.start = first.file_range.end;
            proof {
                lemma_chain_ordered(self.blocks@, self.start as int, self.end as int);
                let front = block_data(self.mapped(), range_of(first));
                assert(data.skip(first.len as int) =~= content(self.mapped(), self.blocks@)) by {
                    assert((front + content(self.mapped(), self.blocks@)).skip(
                        front.len() as int,
                    ) =~= content(self.mapped(), self.blocks@));
                }
                assert(data.skip(first.len as int) =~= old_data.subrange(
                    dropped as int,
                    total as int,
                ));
            }
        }
        while self.blocks.len() > 1 && range.end < total && self.blocks[self.blocks.len() - 1].len
            <= total - range.end
            invariant
                self.mapped() == old(self).mapped(),
                self.header == old(self).header,
                self.decoded == old(self).decoded,
                old(self).start <= self.start,
                self.end <= old(self).end,
                self.mapped().len() <= usize::MAX,
                header_len(self.mapped()) <= self.start <= self.end <= self.mapped().len(),
                is_block_start(self.mapped(), self.start as int),
                is_chain(self.blocks@, self.start as int, self.end as int),
                start_at_boundaries(self.mapped(), self.blocks@),
                self.blocks@.len() > 0 ==> is_block_end(self.mapped(), self.end as int),
                dropped <= range.start <= range.end <= total <= old_data.len(),
                dropped + total_len(self.blocks@) == total,
                range.start == 0 ==> self.start == old(self).start,
                range.end == old_data.len() ==> self.end == old(self).end,
                old_data.subrange(dropped as int, total as int) == content(
                    self.mapped(),
                    self.blocks@,
                ),
                old(self).blocks@.len() > 0 ==> self.blocks@.len() > 0,
                self.blocks@.len() > 1 && dropped < range.start ==> self.blocks@[0].len
                    > range.start - dropped,
            decreases self.blocks@.len(),
        {
            let ghost front = self.blocks@[0];
            proof {
                lemma_chain_without_last(
                    self.mapped(),
                    self.blocks@,
                    self.start as int,
                    self.end as int,
                );
            }
            let ghost data = old_data.subrange(dropped as int, total as int);
            let last = self.blocks.pop_back().unwrap();
            total = total - last.len;
            self.end = last.file_range.start;
            proof {
                let back = block_data(self.mapped(), range_of(last));
                let kept = content(self.mapped(), self.blocks@);
                assert((kept + back).take(kept.len() as int) =~= kept);
                assert(data.take(data.len() - last.len) =~= old_data.subrange(
                    dropped as int,
                    total as int,
                ));
                assert(self.blocks@[0] == front);
            }
        }
        let mut kept_data = self.decoded.split_off(dropped);
        kept_data.truncate(total - dropped);
        proof {
            assert(kept_data@ =~= old_data.subrange(dropped as int, total as int));
        }
        self.decoded = kept_data;
        proof {
            if self.blocks@.len() > 0 {
                assert(sound_block(self.mapped(), self.blocks@[0]));
                assert(sound_block(self.mapped(), self.blocks@.last()));
                assert(ranges_of(self.blocks@)[0] == range_of(self.blocks@[0]));
                assert(ranges_of(self.blocks@).last() == range_of(self.blocks@.last()));
            }
        }
        Range { start: dropped, end: total }
    }

    fn seek_from(&mut self, pattern: &SearchPattern, offset: u64, cancelled: &AtomicBool) -> (found:
        Result<Option<Range<u64>>, BufferError>)
        ensures
            found == Err::<Option<Range<u64>>, BufferError>(BufferError::Unsupported),
    {
        Err(BufferError::Unsupported)
    }

    fn rseek_from(&mut self, pattern: &SearchPattern, offset: u64,
        cancelled: &AtomicBool) -> (found:
        Result<Option<Range<u64>>, BufferError>)
        ensures
            found == Err::<Option<Range<u64>>, BufferError>(BufferError::Unsupported),
    {
        Err(BufferError::Unsupported)
    }
}

/// A place behind the whole file has the same block before it as the end of
/// the file.
pub proof fn lemma_prev_block_beyond(file: Seq<u8>, upto: nat)
    ensures
        upto >= file.len() ==> prev_block(file, upto) == prev_block(file, file.len()),
    decreases upto,
{
    if upto > file.len() {
        lemma_prev_block_beyond(file, (upto - 1) as nat);
    }
}

/// In a chain the first block starts before the chain ends.
proof fn lemma_chain_ordered(blocks: Seq<Block>, start: int, end: int)
    requires
        is_chain(blocks, start, end),
    ensures
        start <= end,
        blocks.len() > 0 ==> start < end,
    decreases blocks.len(),
{
    if blocks.len() > 1 {
        let rest = blocks.drop_last();
        assert(rest.last() == blocks[blocks.len() - 2]);
        assert(rest[0] == blocks[0]);
        assert forall|i: int| 0 <= i < rest.len() implies (#[trigger] rest[i]).file_range.start
            < rest[i].file_range.end by {
            assert(rest[i] == blocks[i]);
        }
        assert forall|i: int| 0 <= i < rest.len() - 1 implies (#[trigger] rest[i]).file_range.end
            == rest[i + 1].file_range.start by {
            assert(rest[i] == blocks[i]);
            assert(rest[i + 1] == blocks[i + 1]);
        }
        lemma_chain_ordered(rest, start, blocks[blocks.len() - 2].file_range.end as int);
        assert(blocks[blocks.len() - 2].file_range.end == blocks[blocks.len()
            - 1].file_range.start);
    }
}

} // verus!
