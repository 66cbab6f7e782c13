use filepager::errors::ViewError;
use filepager::file_buffer::pattern::SearchPattern;
use filepager::file_buffer::raw::RawFileBuffer;
use filepager::file_buffer::{make_file_buffer, AnyFileBuffer, BufferError};
use filepager::file_view::file_view::{FileView, ViewState};
use std::io::Write;
use std::sync::atomic::AtomicBool;

fn map_of(data: &[u8]) -> memmap2::Mmap {
    let mut map = memmap2::MmapMut::map_anon(data.len()).unwrap();
    map.copy_from_slice(data);
    map.make_read_only().unwrap()
}

fn raw_view(data: &[u8]) -> FileView<RawFileBuffer> {
    FileView::new("/tmp/file".to_string(), RawFileBuffer::new(map_of(data)))
}

fn any_view(data: &[u8]) -> FileView<AnyFileBuffer> {
    FileView::new("/tmp/file".to_string(), make_file_buffer(map_of(data)))
}

fn compressed(data: &[u8], level: u32) -> Vec<u8> {
    let mut encoder = bzip2::write::BzEncoder::new(Vec::new(), bzip2::Compression::new(level));
    encoder.write_all(data).unwrap();
    encoder.finish().unwrap()
}

fn numbered_lines(count: usize) -> Vec<u8> {
    let mut data = Vec::new();
    for i in 1..=count {
        data.extend_from_slice(format!("line {}\n", i).as_bytes());
    }
    data
}

#[test]
fn paging_down_two_lines() {
    let mut view = raw_view(b"a\nb\nc\nd\ne\n");
    view.top().unwrap();
    view.down(2).unwrap();
    assert_eq!(view.current_line(), Some(3));
    let lines = view.view(3, None).unwrap();
    assert_eq!(lines, vec!["c", "d", "e"]);
    assert_eq!(lines[0].as_bytes()[0], b'c');
}

#[test]
fn new_view_stands_at_line_one() {
    let view = raw_view(b"a\nb\n");
    assert_eq!(view.current_line(), Some(1));
    assert_eq!(view.offset(), 0);
    assert_eq!(view.file_size(), 4);
    assert_eq!(view.real_file_path(), "/tmp/file");
}

#[test]
fn down_past_the_end_fails_and_keeps_what_it_passed() {
    let mut view = raw_view(b"a\nb\nc\n");
    assert!(matches!(view.down(5), Err(ViewError::EOF)));
    assert_eq!(view.current_line(), Some(4));
    assert_eq!(view.offset(), 6);
    assert!(matches!(view.down(1), Err(ViewError::EOF)));
}

#[test]
fn down_by_nothing_stays() {
    let mut view = raw_view(b"a\nb\nc\n");
    view.down(0).unwrap();
    assert_eq!(view.current_line(), Some(1));
    assert_eq!(view.offset(), 0);
}

#[test]
fn up_then_down_returns() {
    let mut view = raw_view(&numbered_lines(50));
    view.down(30).unwrap();
    let before = view.save_state();
    view.up(7).unwrap();
    assert_eq!(view.current_line(), Some(24));
    assert_eq!(view.view(1, None).unwrap(), vec!["line 24"]);
    view.down(7).unwrap();
    assert_eq!(view.save_state(), before);
    assert_eq!(view.current_line(), Some(31));
}

#[test]
fn up_to_the_first_line() {
    let mut view = raw_view(b"a\nb\nc\n");
    view.down(2).unwrap();
    view.up(2).unwrap();
    assert_eq!(view.current_line(), Some(1));
    assert_eq!(view.offset(), 0);
    assert!(matches!(view.up(1), Err(ViewError::BOF)));
    assert_eq!(view.current_line(), Some(1));
}

#[test]
fn up_past_the_start_stops_at_line_one() {
    let mut view = raw_view(b"a\nb\nc\n");
    view.down(2).unwrap();
    assert!(view.up(5).is_ok());
    assert_eq!(view.current_line(), Some(1));
    assert_eq!(view.offset(), 0);
    assert!(matches!(view.up(5), Err(ViewError::BOF)));
    assert_eq!(view.current_line(), Some(1));
    assert_eq!(view.offset(), 0);
    assert!(view.up(0).is_ok());
}

#[test]
fn motions_over_many_loads() {
    let data = numbered_lines(100000);
    let mut view = raw_view(&data);
    view.down(90000).unwrap();
    assert_eq!(view.current_line(), Some(90001));
    assert_eq!(view.view(2, None).unwrap(), vec!["line 90001", "line 90002"]);
    view.up(80000).unwrap();
    assert_eq!(view.current_line(), Some(10001));
    assert_eq!(view.view(1, None).unwrap(), vec!["line 10001"]);
}

#[test]
fn top_bottom_top() {
    let mut view = raw_view(&numbered_lines(100));
    view.top().unwrap();
    view.bottom().unwrap();
    assert_eq!(view.current_line(), Some(0));
    view.top().unwrap();
    assert_eq!(view.current_line(), Some(1));
    assert_eq!(view.save_state().view_offset, 0);
    assert_eq!(view.offset(), 0);
}

#[test]
fn empty_file() {
    let mut view = raw_view(b"");
    assert!(view.top().is_ok());
    assert!(view.bottom().is_ok());
    assert!(matches!(view.down(1), Err(ViewError::EOF)));
    assert_eq!(view.view(10, None).unwrap(), Vec::<String>::new());
}

#[test]
fn one_line_without_line_end() {
    let mut view = raw_view(b"only line");
    assert!(matches!(view.down(1), Err(ViewError::EOF)));
    assert!(matches!(view.up(1), Err(ViewError::BOF)));
    assert_eq!(view.view(10, None).unwrap(), vec!["only line"]);
}

#[test]
fn view_at_the_end_is_anchored_at_the_bottom() {
    let mut view = raw_view(&numbered_lines(10));
    view.bottom().unwrap();
    let lines = view.view(3, None).unwrap();
    assert_eq!(lines, vec!["line 8", "line 9", "line 10"]);
}

#[test]
fn view_of_a_short_file_shows_all_lines() {
    let mut view = raw_view(b"a\nb\n");
    assert_eq!(view.view(10, None).unwrap(), vec!["a", "b"]);
    assert_eq!(view.current_line(), Some(1));
}

#[test]
fn view_counts_wrapped_rows() {
    let mut view = raw_view(b"abcdefghij\nxy\nz\n");
    assert_eq!(view.view(3, Some(4)).unwrap(), vec!["abcdefghij"]);
    assert_eq!(view.view(4, Some(4)).unwrap(), vec!["abcdefghij", "xy"]);
    assert_eq!(view.view(2, Some(4)).unwrap(), Vec::<String>::new());
    assert_eq!(view.view(2, None).unwrap(), vec!["abcdefghij", "xy"]);
}

#[test]
fn view_strips_carriage_returns() {
    let mut view = raw_view(b"a\r\nb\r\nc");
    assert_eq!(view.view(3, None).unwrap(), vec!["a", "b", "c"]);
}

#[test]
fn jump_to_line_from_either_end() {
    let mut view = raw_view(&numbered_lines(100));
    view.jump_to_line(40).unwrap();
    assert_eq!(view.current_line(), Some(40));
    assert_eq!(view.view(1, None).unwrap(), vec!["line 40"]);
    view.jump_to_line(45).unwrap();
    assert_eq!(view.view(1, None).unwrap(), vec!["line 45"]);
    view.jump_to_line(3).unwrap();
    assert_eq!(view.current_line(), Some(3));
    assert_eq!(view.view(1, None).unwrap(), vec!["line 3"]);
    view.jump_to_line(-1).unwrap();
    assert_eq!(view.current_line(), Some(-1));
    assert_eq!(view.view(1, None).unwrap(), vec!["line 100"]);
    view.jump_to_line(-3).unwrap();
    assert_eq!(view.view(1, None).unwrap(), vec!["line 98"]);
    view.jump_to_line(1).unwrap();
    assert_eq!(view.current_line(), Some(1));
    assert_eq!(view.offset(), 0);
}

#[test]
fn jump_to_byte_lands_at_the_start_of_the_line() {
    let mut view = raw_view(b"alpha\nbeta\ngamma\n");
    view.jump_to_byte(8).unwrap();
    assert_eq!(view.current_line(), None);
    assert_eq!(view.view(1, None).unwrap(), vec!["beta"]);
    assert_eq!(view.offset(), 6);
    view.jump_to_byte(11).unwrap();
    assert_eq!(view.view(1, None).unwrap(), vec!["gamma"]);
    view.jump_to_byte(3).unwrap();
    assert_eq!(view.current_line(), Some(1));
    assert_eq!(view.offset(), 0);
}

#[test]
fn search_forward() {
    let mut view = raw_view(b"alpha\nbeta\ngamma\n");
    let flag = AtomicBool::new(false);
    view.top().unwrap();
    let pattern = SearchPattern::new("gam").unwrap();
    view.down_to_line_matching(&pattern, false, &flag).unwrap();
    assert_eq!(view.view(1, None).unwrap()[0], "gamma");
    assert_eq!(view.current_line(), None);
}

#[test]
fn search_forward_skips_the_current_line() {
    let mut view = raw_view(b"one a\ntwo b\nthree a\nfour a\n");
    let flag = AtomicBool::new(false);
    let pattern = SearchPattern::new("a").unwrap();
    view.down_to_line_matching(&pattern, false, &flag).unwrap();
    assert_eq!(view.view(1, None).unwrap()[0], "one a");
    view.down_to_line_matching(&pattern, true, &flag).unwrap();
    assert_eq!(view.view(1, None).unwrap()[0], "three a");
    view.down_to_line_matching(&pattern, true, &flag).unwrap();
    assert_eq!(view.view(1, None).unwrap()[0], "four a");
    let before = view.save_state();
    assert!(matches!(
        view.down_to_line_matching(&pattern, true, &flag),
        Err(ViewError::NoMatchFound)
    ));
    assert_eq!(view.save_state(), before);
}

#[test]
fn search_backward() {
    let mut view = raw_view(b"one a\ntwo b\nthree a\nfour c\n");
    let flag = AtomicBool::new(false);
    view.down(3).unwrap();
    let pattern = SearchPattern::new("a").unwrap();
    view.up_to_line_matching(&pattern, &flag).unwrap();
    assert_eq!(view.view(1, None).unwrap()[0], "three a");
    view.up_to_line_matching(&pattern, &flag).unwrap();
    assert_eq!(view.view(1, None).unwrap()[0], "one a");
    let before = view.save_state();
    assert!(matches!(view.up_to_line_matching(&pattern, &flag), Err(ViewError::NoMatchFound)));
    assert_eq!(view.save_state(), before);
}

#[test]
fn search_without_a_match_leaves_the_view() {
    let mut view = raw_view(&numbered_lines(50000));
    let flag = AtomicBool::new(false);
    view.down(20000).unwrap();
    let before = view.save_state();
    let pattern = SearchPattern::new("zzz").unwrap();
    assert!(matches!(
        view.down_to_line_matching(&pattern, false, &flag),
        Err(ViewError::NoMatchFound)
    ));
    assert_eq!(view.save_state(), before);
    assert_eq!(view.view(1, None).unwrap(), vec!["line 20001"]);
}

#[test]
fn search_cancelled() {
    let data = vec![b'x'; 4 * 0x100000];
    let mut view = raw_view(&data);
    let flag = AtomicBool::new(true);
    let before = view.save_state();
    let pattern = SearchPattern::new("zzz").unwrap();
    assert!(matches!(
        view.down_to_line_matching(&pattern, false, &flag),
        Err(ViewError::Cancelled)
    ));
    assert_eq!(view.save_state(), before);
    assert_eq!(view.current_line(), Some(1));
    assert_eq!(view.offset(), 0);
}

#[test]
fn marks() {
    let mut view = raw_view(&numbered_lines(100));
    view.down(41).unwrap();
    let offset = view.offset();
    let mark = view.save_state();
    view.top().unwrap();
    view.load_state(&mark).unwrap();
    assert_eq!(view.offset(), offset);
    assert_eq!(view.current_line(), Some(42));
    assert_eq!(view.save_state(), mark);
    assert_eq!(view.view(1, None).unwrap(), vec!["line 42"]);
}

#[test]
fn load_state_of_a_place_that_is_not_there_fails() {
    let mut view = raw_view(b"a\nb\n");
    let state = ViewState { view_offset: 0, buffer_pos: 100, current_line: Some(7) };
    assert!(matches!(view.load_state(&state), Err(ViewError::Other(_))));
    let state = ViewState { view_offset: 100, buffer_pos: 0, current_line: Some(7) };
    assert!(matches!(view.load_state(&state), Err(ViewError::Other(_))));
}

#[test]
fn bzip2_view_pages_and_searches() {
    let data = numbered_lines(30000);
    let packed = compressed(&data, 1);
    let mut view = any_view(&packed);
    let flag = AtomicBool::new(false);
    view.top().unwrap();
    assert_eq!(view.view(2, None).unwrap(), vec!["line 1", "line 2"]);
    view.down(25000).unwrap();
    assert_eq!(view.current_line(), Some(25001));
    assert_eq!(view.view(1, None).unwrap(), vec!["line 25001"]);
    view.up(20000).unwrap();
    assert_eq!(view.view(1, None).unwrap(), vec!["line 5001"]);
    let pattern = SearchPattern::new("line 29999").unwrap();
    view.down_to_line_matching(&pattern, false, &flag).unwrap();
    assert_eq!(view.view(1, None).unwrap(), vec!["line 29999"]);
    assert_eq!(view.current_line(), None);
    let pattern = SearchPattern::new("(?m)^line 77$").unwrap();
    view.up_to_line_matching(&pattern, &flag).unwrap();
    assert_eq!(view.view(1, None).unwrap(), vec!["line 77"]);
    let before = view.save_state();
    let pattern = SearchPattern::new("zzz").unwrap();
    assert!(matches!(
        view.down_to_line_matching(&pattern, false, &flag),
        Err(ViewError::NoMatchFound)
    ));
    assert_eq!(view.save_state(), before);
    view.bottom().unwrap();
    assert_eq!(view.view(2, None).unwrap(), vec!["line 29999", "line 30000"]);
}

#[test]
fn bzip2_jump_by_ratio() {
    let mut packed = compressed(&vec![b'A'; 900000], 9);
    let first = packed.len() as u64;
    packed.extend_from_slice(&compressed(&vec![b'B'; 900000], 9));
    let mut view = any_view(&packed);
    let size = view.file_size();
    assert_eq!(size, packed.len() as u64);
    view.jump_to_byte(size * 3 / 4).unwrap();
    // the file is one line, so the line of the block that was landed in starts the file
    assert_eq!(view.current_line(), Some(1));
    assert_eq!(view.offset(), 4);
    assert!(first + 4 <= size * 3 / 4);
}

#[test]
fn bzip2_jump_by_ratio_into_the_second_block() {
    let mut packed = compressed(&b"AAAAAAAAA\n".repeat(90000), 9);
    let first = packed.len() as u64;
    packed.extend_from_slice(&compressed(&b"BBBBBBBBB\n".repeat(90000), 9));
    let mut view = any_view(&packed);
    let size = view.file_size();
    assert_eq!(size, packed.len() as u64);
    view.jump_to_byte(size * 3 / 4).unwrap();
    assert_eq!(view.current_line(), None);
    assert_eq!(view.view(2, None).unwrap(), vec!["BBBBBBBBB", "BBBBBBBBB"]);
    assert!(first + 4 <= size * 3 / 4);
    assert!(view.offset() <= size * 3 / 4);
    view.up(1).unwrap();
    assert_eq!(view.view(2, None).unwrap(), vec!["AAAAAAAAA", "BBBBBBBBB"]);
}

#[test]
fn a_very_long_line_stops_a_motion() {
    let mut data = vec![b'x'; 1_000_000];
    data.push(b'\n');
    data.extend_from_slice(b"second\n");
    let mut view = raw_view(&data);
    assert!(matches!(view.down(1), Err(ViewError::InfiniteLoop)));
    assert_eq!(view.current_line(), Some(1));
    assert_eq!(view.offset(), 0);
    assert!(view.down(1).is_ok());
    assert_eq!(view.current_line(), Some(2));
    assert_eq!(view.offset(), 1_000_001);
    assert_eq!(view.view(1, None).unwrap(), vec!["second"]);
}

#[test]
fn offset_of_a_raw_view_is_the_place_in_the_file() {
    let data = numbered_lines(1000);
    let mut view = raw_view(&data);
    view.down(10).unwrap();
    let expected: usize = (1..=10).map(|i| format!("line {}\n", i).len()).sum();
    assert_eq!(view.offset(), expected as u64);
    view.jump_to_byte(5000).unwrap();
    let offset = view.offset() as usize;
    assert!(offset <= 5000);
    assert_eq!(data[offset - 1], b'\n');
    assert!(!data[offset..5000].contains(&b'\n'));
}

#[test]
fn offset_of_a_compressed_view_is_in_proportion() {
    let data = numbered_lines(2000);
    let packed = compressed(&data, 9);
    let mut view = any_view(&packed);
    view.top().unwrap();
    assert_eq!(view.offset(), 4);
    view.down(1000).unwrap();
    let passed: usize = (1..=1000).map(|i| format!("line {}\n", i).len()).sum();
    let width = packed.len() - 1 - 4;
    let expected = 4 + (passed as u128 * width as u128 / data.len() as u128) as u64;
    assert_eq!(view.offset(), expected);
}

#[test]
fn reopen_keeps_the_place() {
    let mut view = raw_view(b"a\nb\nc\n");
    view.down(2).unwrap();
    let before = view.save_state();
    view.reopen(RawFileBuffer::new(map_of(b"a\nb\nc\nd\ne\n"))).unwrap();
    assert_eq!(view.save_state(), before);
    assert_eq!(view.file_size(), 10);
    assert_eq!(view.view(3, None).unwrap(), vec!["c", "d", "e"]);
    assert!(view.reopen(RawFileBuffer::new(map_of(b"a\n"))).is_err());
}

#[test]
fn view_of_a_full_screen_leaves_the_place() {
    let mut view = raw_view(&numbered_lines(100));
    view.down(10).unwrap();
    let shown = view.view(3, None).unwrap();
    assert_eq!(shown, vec!["line 11", "line 12", "line 13"]);
    let place = view.save_state();
    assert_eq!(view.view(3, None).unwrap(), shown);
    assert_eq!(view.save_state(), place);
    assert_eq!(view.current_line(), Some(11));
}

#[test]
fn jump_to_line_counts_from_the_nearer_place() {
    let mut view = raw_view(&numbered_lines(100));
    view.jump_to_line(50).unwrap();
    let at_fifty = view.offset();
    view.jump_to_line(52).unwrap();
    assert_eq!(view.current_line(), Some(52));
    assert_eq!(view.offset(), at_fifty + 2 * "line 50\n".len() as u64);
    view.jump_to_line(50).unwrap();
    assert_eq!(view.offset(), at_fifty);
    view.jump_to_line(2).unwrap();
    assert_eq!(view.current_line(), Some(2));
    assert_eq!(view.offset(), "line 1\n".len() as u64);
    view.jump_to_line(2).unwrap();
    assert_eq!(view.offset(), "line 1\n".len() as u64);
}

#[test]
fn search_leaves_the_line_number_unknown_but_in_the_first_line() {
    let mut view = raw_view(b"alpha\nbeta\ngamma\n");
    let flag = AtomicBool::new(false);
    view.down(1).unwrap();
    let pattern = SearchPattern::new("lph").unwrap();
    view.up_to_line_matching(&pattern, &flag).unwrap();
    assert_eq!(view.offset(), 0);
    assert_eq!(view.current_line(), Some(1));
    let pattern = SearchPattern::new("amm").unwrap();
    view.down_to_line_matching(&pattern, false, &flag).unwrap();
    assert_eq!(view.current_line(), None);
    assert_eq!(view.view(1, None).unwrap(), vec!["gamma"]);
}

#[test]
fn the_answer_of_the_buffer_decides_how_a_search_ends() {
    let flag = AtomicBool::new(false);
    let pattern = SearchPattern::new("gam").unwrap();
    let mut view = raw_view(b"alpha\nbeta\ngamma\n");
    view.down(1).unwrap();
    let place = view.save_state();

    view.down(1).unwrap();
    let moved = view.answer_down(Ok(None), &pattern, &flag, &place);
    assert!(matches!(moved, Err(ViewError::NoMatchFound)));
    assert_eq!(view.save_state(), place);

    view.down(1).unwrap();
    let moved = view.answer_up(Err(BufferError::Interrupted), &pattern, &flag, &place);
    assert!(matches!(moved, Err(ViewError::Cancelled)));
    assert_eq!(view.save_state(), place);

    let failed = Err(BufferError::Failed("broken".to_string()));
    match view.answer_down(failed, &pattern, &flag, &place) {
        Err(ViewError::Other(text)) => assert_eq!(text, "broken"),
        _ => panic!("the error of the buffer was lost"),
    }
    assert_eq!(view.save_state(), place);

    view.answer_down(Ok(Some(13..16)), &pattern, &flag, &place).unwrap();
    assert_eq!(view.offset(), 11);
    assert_eq!(view.current_line(), None);
    assert_eq!(view.view(1, None).unwrap(), vec!["gamma"]);

    view.answer_up(Ok(Some(2..3)), &pattern, &flag, &place).unwrap();
    assert_eq!(view.offset(), 0);
    assert_eq!(view.current_line(), Some(1));
}

#[test]
fn a_search_over_a_buffer_that_does_not_search_is_done_by_the_view() {
    let flag = AtomicBool::new(false);
    let pattern = SearchPattern::new("two").unwrap();
    let mut view = any_view(&compressed(b"one\ntwo\nthree\n", 9));
    let place = view.save_state();
    view.answer_down(Err(BufferError::Unsupported), &pattern, &flag, &place).unwrap();
    assert_eq!(view.view(1, None).unwrap(), vec!["two"]);
    assert_eq!(view.current_line(), None);
}

#[test]
fn view_over_a_file_that_ends_first_shows_all_lines() {
    let mut view = raw_view(b"");
    assert_eq!(view.view(10, None).unwrap(), Vec::<String>::new());
    assert_eq!(view.current_line(), Some(1));
    let mut view = raw_view(b"a\nb\nc\nd\ne\n");
    view.down(2).unwrap();
    assert_eq!(view.view(3, None).unwrap(), vec!["c", "d", "e"]);
    assert_eq!(view.current_line(), Some(3));
    assert_eq!(view.offset(), 4);
}
