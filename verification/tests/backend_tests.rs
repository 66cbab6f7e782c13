use filepager::errors::ViewError;
use filepager::file_buffer::raw::RawFileBuffer;
use filepager::file_buffer::{make_file_buffer, AnyFileBuffer};
use filepager::file_view::file_view::FileView;
use filepager::ui::backend::{Reload, Backend, BackendState, Command};
use filepager::ui::errors::{BackendError, ChannelError, FrontendError};
use filepager::utils::infinite_loop_breaker::InfiniteLoopError;
use std::io::Write;
use std::sync::atomic::AtomicBool;

fn map_of(data: &[u8]) -> memmap2::Mmap {
    let mut map = memmap2::MmapMut::map_anon(data.len()).unwrap();
    map.copy_from_slice(data);
    map.make_read_only().unwrap()
}

fn backend_of(data: &[u8]) -> Backend<RawFileBuffer> {
    let view = FileView::new("/real/file".to_string(), RawFileBuffer::new(map_of(data)));
    Backend::new("file".to_string(), view)
}

fn numbered_lines(count: usize) -> Vec<u8> {
    let mut data = Vec::new();
    for i in 1..=count {
        data.extend_from_slice(format!("line {}\n", i).as_bytes());
    }
    data
}

fn messages(state: &BackendState) -> Vec<String> {
    state.errors.iter().map(|e| e.message()).collect()
}

#[test]
fn new_state_is_empty() {
    let state = BackendState::new();
    assert_eq!(state.file_path, "");
    assert_eq!(state.real_file_path, "");
    assert_eq!(state.file_size, 0);
    assert!(state.errors.is_empty());
    assert_eq!(state.current_line, None);
    assert_eq!(state.offset, 0);
    assert!(state.text.is_empty());
    assert!(!state.follow);
    assert!(state.marks.is_empty());
}

#[test]
fn first_state_shows_the_top_of_the_file() {
    let mut backend = backend_of(&numbered_lines(100));
    let flag = AtomicBool::new(false);
    backend.execute(Command::Resize(None, 3), &flag);
    let state = backend.publish();
    assert_eq!(state.file_path, "file");
    assert_eq!(state.real_file_path, "/real/file");
    assert_eq!(state.file_size, numbered_lines(100).len() as u64);
    assert_eq!(state.text, vec!["line 1", "line 2", "line 3"]);
    assert_eq!(state.current_line, Some(1));
    assert_eq!(state.offset, 0);
    assert!(!state.follow);
    assert!(state.errors.is_empty());
}

#[test]
fn move_line_goes_down_and_up() {
    let mut backend = backend_of(&numbered_lines(100));
    let flag = AtomicBool::new(false);
    backend.execute(Command::Resize(None, 2), &flag);
    backend.execute(Command::MoveLine(10), &flag);
    let state = backend.publish();
    assert_eq!(state.current_line, Some(11));
    assert_eq!(state.text, vec!["line 11", "line 12"]);
    backend.execute(Command::MoveLine(-4), &flag);
    let state = backend.publish();
    assert_eq!(state.current_line, Some(7));
    assert_eq!(state.text, vec!["line 7", "line 8"]);
    backend.execute(Command::MoveLine(0), &flag);
    let state = backend.publish();
    assert_eq!(state.current_line, Some(7));
    assert!(state.errors.is_empty());
}

#[test]
fn move_line_past_the_start_reports_it() {
    let mut backend = backend_of(&numbered_lines(100));
    let flag = AtomicBool::new(false);
    backend.execute(Command::Resize(None, 2), &flag);
    backend.execute(Command::MoveLine(-1), &flag);
    let state = backend.publish();
    assert_eq!(messages(&state), vec!["beginning of file"]);
    assert_eq!(state.current_line, Some(1));
    backend.execute(Command::MoveLine(1), &flag);
    let state = backend.publish();
    assert!(state.errors.is_empty());
    backend.execute(Command::MoveLine(2), &flag);
    backend.execute(Command::MoveLine(-100), &flag);
    let state = backend.publish();
    assert!(state.errors.is_empty());
    assert_eq!(state.current_line, Some(1));
    assert_eq!(state.offset, 0);
}

#[test]
fn errors_of_one_command_do_not_pile_up() {
    let mut backend = backend_of(&numbered_lines(10));
    let flag = AtomicBool::new(false);
    backend.execute(Command::Resize(None, 2), &flag);
    backend.execute(Command::LoadMark("x".to_string()), &flag);
    backend.execute(Command::SearchDown("(".to_string()), &flag);
    let state = backend.publish();
    assert_eq!(messages(&state), vec!["invalid regex"]);
}

#[test]
fn jump_line_and_ratio() {
    let data = numbered_lines(1000);
    let mut backend = backend_of(&data);
    let flag = AtomicBool::new(false);
    backend.execute(Command::Resize(None, 1), &flag);
    backend.execute(Command::JumpLine(500), &flag);
    let state = backend.publish();
    assert_eq!(state.text, vec!["line 500"]);
    assert_eq!(state.current_line, Some(500));
    backend.execute(Command::JumpFileRatio(1, 2), &flag);
    let state = backend.publish();
    assert_eq!(state.current_line, None);
    assert!(state.offset <= data.len() as u64 / 2);
    assert!(state.offset + 20 > data.len() as u64 / 2);
    assert_eq!(data[state.offset as usize - 1], b'\n');
    backend.execute(Command::JumpFileRatio(0, 1), &flag);
    let state = backend.publish();
    assert_eq!(state.current_line, Some(1));
    assert_eq!(state.offset, 0);
    backend.execute(Command::JumpFileRatio(7, 0), &flag);
    let state = backend.publish();
    assert_eq!(state.offset, 0);
}

#[test]
fn search_commands() {
    let mut backend = backend_of(b"alpha\nbeta\ngamma\n");
    let flag = AtomicBool::new(false);
    backend.execute(Command::Resize(None, 1), &flag);
    backend.execute(Command::SearchDown("gam".to_string()), &flag);
    let state = backend.publish();
    assert_eq!(state.text[0], "gamma");
    assert_eq!(state.current_line, None);
    assert!(state.errors.is_empty());
    backend.execute(Command::SearchUp("a$".to_string()), &flag);
    let state = backend.publish();
    assert_eq!(messages(&state), vec!["no match found"]);
    assert_eq!(state.text[0], "gamma");
    backend.execute(Command::SearchUp("(?m)a$".to_string()), &flag);
    let state = backend.publish();
    assert_eq!(state.text[0], "beta");
    backend.execute(Command::SearchDownNext("a".to_string()), &flag);
    let state = backend.publish();
    assert_eq!(state.text[0], "gamma");
    backend.execute(Command::SearchDownNext("a".to_string()), &flag);
    let state = backend.publish();
    assert_eq!(messages(&state), vec!["no match found"]);
    assert_eq!(state.text[0], "gamma");
}

#[test]
fn search_with_a_broken_pattern() {
    let mut backend = backend_of(b"alpha\nbeta\ngamma\n");
    let flag = AtomicBool::new(false);
    backend.execute(Command::Resize(None, 1), &flag);
    assert!(matches!(
        backend.handle_command(Command::SearchUp("[".to_string()), &flag),
        Err(ViewError::InvalidRegex)
    ));
    assert!(matches!(
        backend.handle_command(Command::SearchDownNext("a{".to_string()), &flag),
        Err(ViewError::InvalidRegex) | Err(ViewError::NoMatchFound)
    ));
}

#[test]
fn search_cancelled_leaves_line_and_offset() {
    let mut data = numbered_lines(10);
    data.extend_from_slice(&vec![b'x'; 3 * 0x100000]);
    let mut backend = backend_of(&data);
    let flag = AtomicBool::new(false);
    backend.execute(Command::Resize(None, 1), &flag);
    backend.execute(Command::MoveLine(4), &flag);
    let before = backend.publish();
    flag.store(true, std::sync::atomic::Ordering::Release);
    backend.execute(Command::SearchDown("zzz".to_string()), &flag);
    let state = backend.publish();
    assert_eq!(messages(&state), vec!["cancelled"]);
    assert_eq!(state.current_line, before.current_line);
    assert_eq!(state.offset, before.offset);
}

#[test]
fn marks_through_commands() {
    let mut backend = backend_of(&numbered_lines(100));
    let flag = AtomicBool::new(false);
    backend.execute(Command::Resize(None, 1), &flag);
    backend.execute(Command::MoveLine(30), &flag);
    let before = backend.publish();
    backend.execute(Command::SaveMark("p".to_string()), &flag);
    backend.execute(Command::JumpLine(1), &flag);
    let top = backend.publish();
    assert_eq!(top.offset, 0);
    assert_eq!(top.marks, vec!["p"]);
    backend.execute(Command::LoadMark("p".to_string()), &flag);
    let state = backend.publish();
    assert_eq!(state.offset, before.offset);
    assert_eq!(state.current_line, before.current_line);
    assert_eq!(state.text, vec!["line 31"]);
    assert!(state.errors.is_empty());
}

#[test]
fn a_mark_saved_twice_keeps_its_place_in_the_list() {
    let mut backend = backend_of(&numbered_lines(100));
    let flag = AtomicBool::new(false);
    backend.execute(Command::Resize(None, 1), &flag);
    backend.execute(Command::SaveMark("a".to_string()), &flag);
    backend.execute(Command::MoveLine(5), &flag);
    backend.execute(Command::SaveMark("b".to_string()), &flag);
    backend.execute(Command::MoveLine(5), &flag);
    backend.execute(Command::SaveMark("a".to_string()), &flag);
    backend.execute(Command::JumpLine(1), &flag);
    backend.execute(Command::LoadMark("a".to_string()), &flag);
    let state = backend.publish();
    assert_eq!(state.marks, vec!["a", "b"]);
    assert_eq!(state.text, vec!["line 11"]);
    backend.execute(Command::LoadMark("b".to_string()), &flag);
    let state = backend.publish();
    assert_eq!(state.text, vec!["line 6"]);
}

#[test]
fn unknown_mark() {
    let mut backend = backend_of(&numbered_lines(10));
    let flag = AtomicBool::new(false);
    backend.execute(Command::Resize(None, 1), &flag);
    backend.execute(Command::MoveLine(3), &flag);
    let done = backend.handle_command(Command::LoadMark("q".to_string()), &flag);
    match done {
        Err(ViewError::UnknownMark(name)) => assert_eq!(name, "q"),
        _ => panic!("the mark should not be known"),
    }
    backend.execute(Command::LoadMark("q".to_string()), &flag);
    let state = backend.publish();
    assert_eq!(messages(&state), vec!["unknown mark: q"]);
    assert_eq!(state.current_line, Some(4));
}

#[test]
fn follow_shows_what_is_appended() {
    let mut backend = backend_of(b"x\n");
    let flag = AtomicBool::new(false);
    backend.execute(Command::Resize(None, 1), &flag);
    backend.execute(Command::Follow(true), &flag);
    assert!(backend.follow());
    assert_eq!(backend.sleep_time_ms(), 100);
    let state = backend.publish();
    assert!(state.follow);
    assert_eq!(state.text, vec!["x"]);
    assert!(backend.tick(2));
    assert!(!backend.tick(2));
    assert!(backend.tick(4));
    backend.remap(RawFileBuffer::new(map_of(b"x\ny\n"))).unwrap();
    let state = backend.publish();
    assert_eq!(state.text.last().unwrap(), "y");
    assert_eq!(state.file_size, 4);
    assert!(state.follow);
    assert_eq!(state.current_line, Some(2));
    backend.execute(Command::Follow(false), &flag);
    assert_eq!(backend.sleep_time_ms(), 10000);
}

#[test]
fn follow_goes_to_the_bottom() {
    let mut backend = backend_of(&numbered_lines(50));
    let flag = AtomicBool::new(false);
    backend.execute(Command::Resize(None, 3), &flag);
    backend.execute(Command::Follow(true), &flag);
    let state = backend.publish();
    assert_eq!(state.text, vec!["line 48", "line 49", "line 50"]);
    assert_eq!(messages(&state), vec!["end of file"]);
}

#[test]
fn state_reports_the_end_of_the_file_when_the_view_had_to_go_up() {
    let mut backend = backend_of(&numbered_lines(10));
    let flag = AtomicBool::new(false);
    backend.execute(Command::Resize(None, 4), &flag);
    backend.execute(Command::MoveLine(8), &flag);
    let state = backend.publish();
    assert_eq!(state.text, vec!["line 7", "line 8", "line 9", "line 10"]);
    assert_eq!(messages(&state), vec!["end of file"]);
    assert_eq!(state.current_line, Some(7));
}

#[test]
fn a_screen_without_columns_does_not_wrap() {
    let mut backend = backend_of(b"abcdef\nxy\n");
    let flag = AtomicBool::new(false);
    backend.execute(Command::Resize(Some(0), 2), &flag);
    let state = backend.publish();
    assert_eq!(state.text, vec!["abcdef", "xy"]);
    backend.execute(Command::Resize(Some(3), 2), &flag);
    let state = backend.publish();
    assert_eq!(state.text, vec!["abcdef"]);
}

#[test]
fn reload_starts_at_the_top_of_the_new_file() {
    let mut backend = backend_of(&numbered_lines(10));
    let flag = AtomicBool::new(false);
    backend.execute(Command::Resize(None, 1), &flag);
    backend.execute(Command::MoveLine(5), &flag);
    backend.execute(Command::SaveMark("m".to_string()), &flag);
    let view = FileView::new("/real/other".to_string(), RawFileBuffer::new(map_of(b"new\nfile\n")));
    backend.reload(view);
    assert_eq!(backend.real_file_path(), "/real/other");
    let state = backend.publish();
    assert_eq!(state.text, vec!["new"]);
    assert_eq!(state.current_line, Some(1));
    assert_eq!(state.real_file_path, "/real/other");
    assert_eq!(state.file_path, "file");
    assert_eq!(state.marks, vec!["m"]);
}

#[test]
fn backend_over_a_compressed_file() {
    let data = numbered_lines(5000);
    let mut encoder = bzip2::write::BzEncoder::new(Vec::new(), bzip2::Compression::new(9));
    encoder.write_all(&data).unwrap();
    let packed = encoder.finish().unwrap();
    let view: FileView<AnyFileBuffer> =
        FileView::new("/real/file.bz2".to_string(), make_file_buffer(map_of(&packed)));
    let mut backend = Backend::new("file.bz2".to_string(), view);
    let flag = AtomicBool::new(false);
    backend.execute(Command::Resize(None, 2), &flag);
    backend.execute(Command::JumpLine(1), &flag);
    let state = backend.publish();
    assert_eq!(state.text, vec!["line 1", "line 2"]);
    assert_eq!(state.file_size, packed.len() as u64);
    backend.execute(Command::SearchDown("line 4321".to_string()), &flag);
    let state = backend.publish();
    assert_eq!(state.text, vec!["line 4321", "line 4322"]);
    assert!(state.offset >= 4 && state.offset <= packed.len() as u64);
}

#[test]
fn error_messages() {
    assert_eq!(ViewError::BOF.message(), "beginning of file");
    assert_eq!(ViewError::EOF.message(), "end of file");
    assert_eq!(ViewError::NoMatchFound.message(), "no match found");
    assert_eq!(ViewError::Cancelled.message(), "cancelled");
    assert_eq!(ViewError::InvalidRegex.message(), "invalid regex");
    assert_eq!(ViewError::InfiniteLoop.message(), "infinite loop");
    assert_eq!(ViewError::UnknownMark("a".to_string()).message(), "unknown mark: a");
    assert_eq!(ViewError::Other("disk on fire".to_string()).message(), "disk on fire");
    assert_eq!(ChannelError::Command.message(), "command channel error");
    assert_eq!(ChannelError::Cancel.message(), "cancel channel error");
    assert_eq!(ChannelError::State.message(), "state channel error");
    assert_eq!(BackendError::Stopped.message(), "backend stopped");
    assert_eq!(BackendError::UnknownMark("z".to_string()).message(), "unknown mark: z");
    assert_eq!(FrontendError::EndOfEventStream.message(), "end of event stream");
    assert_eq!(FrontendError::EndOfSignalStream.message(), "end of signal stream");
    assert_eq!(InfiniteLoopError.message(), "infinite loop");
    assert!(ViewError::EOF.is_edge());
    assert!(ViewError::BOF.is_edge());
    assert!(!ViewError::Cancelled.is_edge());
    assert!(matches!(ViewError::Other("x".to_string()).copy(), ViewError::Other(text) if text == "x"));
}

#[test]
fn jump_by_ratio_lands_on_the_line_of_that_byte() {
    let mut data = Vec::new();
    for i in 0..100 {
        data.extend_from_slice(format!("{:09}\n", i).as_bytes());
    }
    let mut backend = backend_of(&data);
    let flag = AtomicBool::new(false);
    backend.execute(Command::Resize(None, 1), &flag);
    backend.execute(Command::JumpFileRatio(1, 2), &flag);
    let state = backend.publish();
    assert_eq!(state.offset, 500);
    assert_eq!(state.text, vec!["000000050"]);
    backend.execute(Command::JumpFileRatio(505, 1000), &flag);
    assert_eq!(backend.publish().offset, 500);
    backend.execute(Command::JumpFileRatio(3, 2), &flag);
    let state = backend.publish();
    assert_eq!(state.text, vec!["000000099"]);
}

#[test]
fn settle_ends_at_the_end_of_the_file() {
    let mut backend = backend_of(&numbered_lines(5000));
    let flag = AtomicBool::new(false);
    backend.execute(Command::Resize(None, 1), &flag);
    assert!(matches!(backend.settle(), ViewError::EOF));
    let state = backend.generate_state();
    assert_eq!(state.text, vec!["line 5000"]);
    assert_eq!(state.current_line, Some(5000));
    assert_eq!(backend.mapped_size(), numbered_lines(5000).len() as u64);
}

#[test]
fn the_file_is_opened_mapped_or_kept() {
    let backend = backend_of(b"one\ntwo\n");
    let path = backend.real_file_path().to_string();
    assert_eq!(backend.reload_needed(&path, 8), Reload::Keep);
    assert_eq!(backend.reload_needed(&path, 9), Reload::Remap);
    assert_eq!(backend.reload_needed(&path, 0), Reload::Remap);
    assert_eq!(backend.reload_needed(&"/another/file".to_string(), 8), Reload::Open);
    assert_eq!(backend.reload_needed(&"/another/file".to_string(), 9), Reload::Open);
}
