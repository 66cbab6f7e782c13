use filepager::file_buffer::bzip2::{
    decode_block, first_magic_from, last_magic_upto, next_step, Bz2FileBuffer, DecodeFault,
    DecodeStep,
};
use filepager::file_buffer::pattern::SearchPattern;
use filepager::file_buffer::raw::RawFileBuffer;
use filepager::file_buffer::{make_file_buffer, AnyFileBuffer, BufferError, FileBuffer};
use std::io::Write;
use std::sync::atomic::AtomicBool;

fn map_of(data: &[u8]) -> memmap2::Mmap {
    let mut map = memmap2::MmapMut::map_anon(data.len()).unwrap();
    map.copy_from_slice(data);
    map.make_read_only().unwrap()
}

fn compressed(data: &[u8], level: u32) -> Vec<u8> {
    let mut encoder = bzip2::write::BzEncoder::new(Vec::new(), bzip2::Compression::new(level));
    encoder.write_all(data).unwrap();
    encoder.finish().unwrap()
}

fn numbered_lines(count: usize) -> Vec<u8> {
    let mut data = Vec::new();
    for i in 0..count {
        data.extend_from_slice(format!("line number {}\n", i).as_bytes());
    }
    data
}

#[test]
fn raw_buffer_starts_empty() {
    let buffer = RawFileBuffer::new(map_of(b"hello\nworld\n"));
    assert_eq!(buffer.data(), b"");
    assert_eq!(buffer.range(), 0..0);
    assert_eq!(buffer.total_size(), 12);
}

#[test]
fn raw_buffer_loads_the_bytes_of_the_file() {
    let mut buffer = RawFileBuffer::new(map_of(b"hello\nworld\n"));
    assert_eq!(buffer.load_next().unwrap(), 12);
    assert_eq!(buffer.data(), b"hello\nworld\n");
    assert_eq!(buffer.range(), 0..12);
    assert_eq!(buffer.load_next().unwrap(), 0);
    assert_eq!(buffer.load_prev().unwrap(), 0);
}

#[test]
fn raw_buffer_loads_in_steps() {
    let data = numbered_lines(20000);
    let mut buffer = RawFileBuffer::new(map_of(&data));
    assert_eq!(buffer.jump(100000).unwrap(), 100000);
    assert_eq!(buffer.data(), b"");
    assert_eq!(buffer.load_next().unwrap(), 0x10000);
    assert_eq!(buffer.range(), 100000..(100000 + 0x10000));
    assert_eq!(buffer.load_prev().unwrap(), 0x10000);
    assert_eq!(buffer.range(), (100000 - 0x10000)..(100000 + 0x10000));
    assert_eq!(buffer.data(), &data[(100000 - 0x10000)..(100000 + 0x10000)]);
    assert_eq!(buffer.load_prev().unwrap(), 100000 - 0x10000);
    assert_eq!(buffer.range().start, 0);
    assert_eq!(buffer.data(), &data[..(100000 + 0x10000)]);
}

#[test]
fn raw_buffer_jump_behind_the_file_lands_at_its_end() {
    let mut buffer = RawFileBuffer::new(map_of(b"abc"));
    assert_eq!(buffer.jump(10).unwrap(), 3);
    assert_eq!(buffer.range(), 3..3);
    assert_eq!(buffer.load_next().unwrap(), 0);
    assert_eq!(buffer.load_prev().unwrap(), 3);
    assert_eq!(buffer.data(), b"abc");
}

#[test]
fn raw_buffer_shrinks_to_the_range() {
    let mut buffer = RawFileBuffer::new(map_of(b"0123456789"));
    buffer.load_next().unwrap();
    let kept = buffer.shrink_to(2..7);
    assert_eq!(kept, 2..7);
    assert_eq!(buffer.data(), b"23456");
    assert_eq!(buffer.range(), 2..7);
}

#[test]
fn raw_buffer_of_an_empty_file() {
    let mut buffer = RawFileBuffer::new(map_of(b""));
    assert_eq!(buffer.total_size(), 0);
    assert_eq!(buffer.load_next().unwrap(), 0);
    assert_eq!(buffer.load_prev().unwrap(), 0);
    assert_eq!(buffer.jump(0).unwrap(), 0);
    assert_eq!(buffer.data(), b"");
}

#[test]
fn raw_buffer_finds_a_match_forward() {
    let mut buffer = RawFileBuffer::new(map_of(b"alpha\nbeta\ngamma\n"));
    let flag = AtomicBool::new(false);
    let pattern = SearchPattern::new("gam").unwrap();
    let found = buffer.seek_from(&pattern, 0, &flag).unwrap();
    assert_eq!(found, Some(11..14));
    let pattern = SearchPattern::new("a").unwrap();
    buffer.jump(6).unwrap();
    assert_eq!(buffer.seek_from(&pattern, 0, &flag).unwrap(), Some(9..10));
    assert_eq!(buffer.seek_from(&pattern, 4, &flag).unwrap(), Some(12..13));
    assert_eq!(buffer.range(), 6..6);
}

#[test]
fn raw_buffer_finds_the_last_match_backward() {
    let mut buffer = RawFileBuffer::new(map_of(b"alpha\nbeta\ngamma\n"));
    let flag = AtomicBool::new(false);
    let pattern = SearchPattern::new("a").unwrap();
    buffer.jump(11).unwrap();
    assert_eq!(buffer.rseek_from(&pattern, 0, &flag).unwrap(), Some(9..10));
    let pattern = SearchPattern::new("zzz").unwrap();
    assert_eq!(buffer.rseek_from(&pattern, 0, &flag).unwrap(), None);
}

#[test]
fn raw_buffer_reports_no_match() {
    let mut buffer = RawFileBuffer::new(map_of(b"alpha\nbeta\ngamma\n"));
    let flag = AtomicBool::new(false);
    let pattern = SearchPattern::new("delta").unwrap();
    assert_eq!(buffer.seek_from(&pattern, 0, &flag).unwrap(), None);
}

#[test]
fn raw_buffer_search_sees_a_match_across_two_stretches() {
    let mut data = vec![b'x'; 0x100000 - 2];
    data.extend_from_slice(b"needle");
    data.extend_from_slice(&vec![b'y'; 100]);
    let mut buffer = RawFileBuffer::new(map_of(&data));
    let flag = AtomicBool::new(false);
    let pattern = SearchPattern::new("needle").unwrap();
    let at = 0x100000 - 2;
    assert_eq!(buffer.seek_from(&pattern, 0, &flag).unwrap(), Some(at..(at + 6)));
    buffer.jump(data.len() as u64).unwrap();
    assert_eq!(buffer.rseek_from(&pattern, 0, &flag).unwrap(), Some(at..(at + 6)));
}

#[test]
fn raw_buffer_search_stops_when_cancelled() {
    let data = vec![b'x'; 3 * 0x100000];
    let mut buffer = RawFileBuffer::new(map_of(&data));
    let flag = AtomicBool::new(true);
    let pattern = SearchPattern::new("zzz").unwrap();
    assert!(matches!(buffer.seek_from(&pattern, 0, &flag), Err(BufferError::Interrupted)));
    buffer.jump(data.len() as u64).unwrap();
    assert!(matches!(buffer.rseek_from(&pattern, 0, &flag), Err(BufferError::Interrupted)));
}

#[test]
fn pattern_that_does_not_compile_is_refused() {
    assert!(SearchPattern::new("foo(bar").is_err());
    let pattern = SearchPattern::new("fo+").unwrap();
    assert_eq!(pattern.as_str(), "fo+");
    assert_eq!(pattern.last_match(b"a foo and a fooo"), Some((12, 16)));
    assert_eq!(pattern.last_match(b"nothing"), None);
}

#[test]
fn bzip2_header_is_recognised() {
    let packed = compressed(b"hello\nworld\n", 9);
    assert_eq!(&packed[..4], b"BZh9");
    let buffer = Bz2FileBuffer::new(map_of(&packed));
    assert!(buffer.is_valid());
    let plain = Bz2FileBuffer::new(map_of(b"BZx9 not compressed"));
    assert!(!plain.is_valid());
    let short = Bz2FileBuffer::new(map_of(b"BZ"));
    assert!(!short.is_valid());
}

#[test]
fn make_file_buffer_picks_the_kind_by_the_header() {
    let packed = compressed(b"hello\nworld\n", 9);
    assert!(matches!(make_file_buffer(map_of(&packed)), AnyFileBuffer::Bz2(_)));
    assert!(matches!(make_file_buffer(map_of(b"hello\nworld\n")), AnyFileBuffer::Raw(_)));
    assert!(matches!(make_file_buffer(map_of(b"")), AnyFileBuffer::Raw(_)));
    assert!(matches!(make_file_buffer(map_of(b"BZh0")), AnyFileBuffer::Raw(_)));
    assert!(matches!(make_file_buffer(map_of(b"BZ01")), AnyFileBuffer::Bz2(_)));
}

#[test]
fn bzip2_buffer_decodes_a_small_file() {
    let packed = compressed(b"hello\nworld\n", 9);
    let mut buffer = Bz2FileBuffer::new(map_of(&packed));
    assert_eq!(buffer.total_size(), packed.len() as u64);
    assert_eq!(buffer.range(), 4..4);
    assert_eq!(buffer.jump(0).unwrap(), 4);
    assert_eq!(buffer.data(), b"hello\nworld\n");
    assert_eq!(buffer.range(), 4..(packed.len() as u64 - 1));
    assert_eq!(buffer.load_next().unwrap(), 0);
    assert_eq!(buffer.load_prev().unwrap(), 0);
}

#[test]
fn bzip2_buffer_finds_block_marks() {
    let packed = compressed(b"hello\nworld\n", 9);
    let buffer = Bz2FileBuffer::new(map_of(&packed));
    assert_eq!(buffer.find_block_from(0), 4);
    assert_eq!(buffer.find_block_from(4), 4);
    assert_eq!(buffer.find_block_from(5), packed.len() - 1);
    assert_eq!(buffer.rfind_block_from(0), 4);
    assert_eq!(buffer.rfind_block_from(packed.len()), 4);
}

#[test]
fn bzip2_buffer_decodes_all_blocks_in_turn() {
    let data = numbered_lines(60000);
    let packed = compressed(&data, 1);
    let mut buffer = Bz2FileBuffer::new(map_of(&packed));
    buffer.jump(0).unwrap();
    loop {
        let n = buffer.load_next().unwrap();
        if n == 0 {
            break;
        }
    }
    assert_eq!(buffer.data().len(), data.len());
    assert!(buffer.data() == &data[..]);
    assert_eq!(buffer.range(), 4..(packed.len() as u64 - 1));
}

#[test]
fn bzip2_buffer_over_two_streams() {
    let mut packed = compressed(&vec![b'A'; 900000], 9);
    let first = packed.len();
    packed.extend_from_slice(&compressed(&vec![b'B'; 900000], 9));
    let mut buffer = Bz2FileBuffer::new(map_of(&packed));
    let target = (packed.len() * 3 / 4) as u64;
    let landed = buffer.jump(target).unwrap();
    assert!(landed <= target);
    assert_eq!(landed, first as u64 + 4);
    assert_eq!(buffer.total_size(), packed.len() as u64);
    assert_eq!(buffer.data().len(), 900000);
    assert!(buffer.data().iter().all(|&b| b == b'B'));
    let n = buffer.load_prev().unwrap();
    assert_eq!(n, 900000);
    assert_eq!(buffer.data().len(), 1800000);
    assert_eq!(buffer.data()[0], b'A');
    assert_eq!(buffer.data()[899999], b'A');
    assert_eq!(buffer.data()[900000], b'B');
    assert_eq!(buffer.range().start, 4);
    let kept = buffer.shrink_to(900010..900020);
    assert_eq!(kept, 900000..1800000);
    assert_eq!(buffer.data().len(), 900000);
    assert_eq!(buffer.data()[0], b'B');
    assert_eq!(buffer.range().start, first as u64 + 4);
}

#[test]
fn bzip2_buffer_leaves_searching_to_its_user() {
    let packed = compressed(b"hello\nworld\n", 9);
    let mut buffer = Bz2FileBuffer::new(map_of(&packed));
    let flag = AtomicBool::new(false);
    let pattern = SearchPattern::new("world").unwrap();
    assert!(matches!(buffer.seek_from(&pattern, 0, &flag), Err(BufferError::Unsupported)));
    assert!(matches!(buffer.rseek_from(&pattern, 0, &flag), Err(BufferError::Unsupported)));
}

#[test]
fn bzip2_buffer_reports_broken_data() {
    let mut packed = compressed(&numbered_lines(1000), 9);
    let len = packed.len();
    for byte in packed[10..len - 10].iter_mut() {
        *byte = 0xff;
    }
    let mut buffer = Bz2FileBuffer::new(map_of(&packed));
    assert!(matches!(buffer.jump(0), Err(BufferError::Failed(_))));
    assert_eq!(buffer.range(), 4..4);
    assert_eq!(buffer.data(), b"");
}

#[test]
fn decoder_failures_read_as_the_decoder_prints_them() {
    assert_eq!(DecodeFault::Sequence.message(), bzip2::Error::Sequence.to_string());
    assert_eq!(DecodeFault::Data.message(), bzip2::Error::Data.to_string());
    assert_eq!(DecodeFault::DataMagic.message(), bzip2::Error::DataMagic.to_string());
    assert_eq!(DecodeFault::Param.message(), bzip2::Error::Param.to_string());
    assert_eq!(DecodeFault::Data.message(), "bzip2: invalid data");
}

#[test]
fn decoding_reports_the_failure_of_the_decoder() {
    let packed = compressed(b"some text\n", 9);
    match decode_block(b"XXXX", &packed[4..]) {
        Err(BufferError::Failed(text)) => assert_eq!(text, "bzip2: bz2 header missing"),
        _ => panic!("a wrong head was taken"),
    }
    let mut broken = packed.clone();
    for byte in broken[12..20].iter_mut() {
        *byte = 0xff;
    }
    match decode_block(&broken[..4], &broken[4..]) {
        Err(BufferError::Failed(text)) => assert_eq!(text, "bzip2: invalid data"),
        _ => panic!("broken data was taken"),
    }
    assert_eq!(decode_block(&packed[..4], &packed[4..]).unwrap(), b"some text\n");
}

#[test]
fn steps_of_the_decoder_are_told_apart() {
    assert_eq!(next_step(true, 10, 10, 0, 5), DecodeStep::Finished);
    assert_eq!(next_step(true, 10, 5, 0, 5), DecodeStep::Finished);
    assert_eq!(next_step(false, 10, 10, 0, 5), DecodeStep::Finished);
    assert_eq!(next_step(false, 10, 10, 7, 5), DecodeStep::More(0));
    assert_eq!(next_step(false, 10, 13, 0, 5), DecodeStep::More(3));
    assert_eq!(next_step(false, 10, 15, 2, 5), DecodeStep::More(5));
    assert_eq!(next_step(false, 10, 16, 2, 5), DecodeStep::OutOfStep);
    assert_eq!(next_step(false, 10, 9, 2, 5), DecodeStep::OutOfStep);
}

#[test]
fn bzip2_buffer_loads_from_mark_to_mark() {
    let mut packed = compressed(b"first\n", 9);
    let one = packed.len();
    packed.extend_from_slice(&compressed(b"second\n", 9));
    let two = packed.len();
    packed.extend_from_slice(&compressed(b"third\n", 9));
    let mut buffer = Bz2FileBuffer::new(map_of(&packed));
    buffer.jump(0).unwrap();
    let first = buffer.range();
    assert_eq!(first.start, 4);
    assert_eq!(first.end, first_magic_from(&packed, 5) as u64);
    assert_eq!(first.end, one as u64 + 4);
    assert_eq!(buffer.load_next().unwrap(), 7);
    let second = buffer.range();
    assert_eq!(second.start, 4);
    assert_eq!(second.end, first_magic_from(&packed, first.end as usize + 1) as u64);
    assert_eq!(second.end, two as u64 + 4);
    assert_eq!(buffer.data(), b"first\nsecond\n");

    let mut buffer = Bz2FileBuffer::new(map_of(&packed));
    buffer.jump(packed.len() as u64 - 1).unwrap();
    let last = buffer.range();
    assert_eq!(last, (two as u64 + 4)..(packed.len() as u64 - 1));
    assert_eq!(buffer.data(), b"third\n");
    assert_eq!(buffer.load_next().unwrap(), 0);
    assert_eq!(buffer.range(), last);
    assert_eq!(buffer.load_prev().unwrap(), 7);
    let wider = buffer.range();
    assert_eq!(wider.end, last.end);
    assert_eq!(wider.start, last_magic_upto(&packed, last.start as usize - 1) as u64);
    assert_eq!(wider.start, one as u64 + 4);
    assert_eq!(buffer.data(), b"second\nthird\n");
}

#[test]
fn bzip2_buffer_at_the_head_loads_nothing_in_front() {
    let packed = compressed(b"one\ntwo\n", 9);
    let mut buffer = Bz2FileBuffer::new(map_of(&packed));
    buffer.jump(0).unwrap();
    let window = buffer.range();
    assert_eq!(window.start, 4);
    assert_eq!(buffer.load_prev().unwrap(), 0);
    assert_eq!(buffer.range(), window);
    assert_eq!(buffer.data(), b"one\ntwo\n");
}
