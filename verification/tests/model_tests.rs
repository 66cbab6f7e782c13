use filepager::errors::ViewError;
use filepager::file_buffer::devec::DeVec;
use filepager::file_buffer::pattern::SearchPattern;
use filepager::file_buffer::raw::RawFileBuffer;
use filepager::file_buffer::{make_file_buffer, AnyFileBuffer, FileBuffer};
use filepager::file_view::file_view::FileView;
use filepager::utils::algorithm::{find_nth_or_last, rfind_nth_or_last};
use filepager::utils::text::{decode_utf8, expand_tabs, split_lines};
use std::collections::VecDeque;
use std::io::Write;
use std::sync::atomic::AtomicBool;

struct Dice(u64);

impl Dice {
    fn roll(&mut self, sides: u64) -> u64 {
        self.0 = self.0.wrapping_mul(6364136223846793005).wrapping_add(1442695040888963407);
        (self.0 >> 33) % sides
    }
}

fn map_of(data: &[u8]) -> memmap2::Mmap {
    let mut map = memmap2::MmapMut::map_anon(data.len()).unwrap();
    map.copy_from_slice(data);
    map.make_read_only().unwrap()
}

fn random_text(dice: &mut Dice, lines: usize, longest: u64) -> Vec<u8> {
    let mut data = Vec::new();
    for _ in 0..lines {
        for _ in 0..dice.roll(longest + 1) {
            data.push(b'a' + dice.roll(26) as u8);
        }
        data.push(b'\n');
    }
    data
}

fn line_starts(data: &[u8]) -> Vec<usize> {
    let mut starts = vec![0];
    for (i, b) in data.iter().enumerate() {
        if *b == b'\n' {
            starts.push(i + 1);
        }
    }
    starts
}

#[test]
fn scans_agree_with_a_plain_count() {
    let mut dice = Dice(1);
    for _ in 0..300 {
        let len = dice.roll(40) as usize;
        let data: Vec<u8> = (0..len).map(|_| dice.roll(3) as u8).collect();
        let nth = dice.roll(6) as usize;
        let hits: Vec<usize> = (0..len).filter(|i| data[*i] == 1).collect();
        let expected = if hits.is_empty() {
            None
        } else {
            let number = nth.min(hits.len() - 1);
            Some((number, hits[number]))
        };
        assert_eq!(find_nth_or_last(&data, 1, nth), expected);
        let back: Vec<usize> = hits.iter().rev().cloned().collect();
        let expected = if back.is_empty() {
            None
        } else {
            let number = nth.min(back.len() - 1);
            Some((number, back[number]))
        };
        assert_eq!(rfind_nth_or_last(&data, 1, nth), expected);
    }
}

#[test]
fn devec_agrees_with_a_deque() {
    let mut dice = Dice(2);
    let mut devec: DeVec<u8> = DeVec::new();
    let mut model: VecDeque<u8> = VecDeque::new();
    let mut next = 1u8;
    for _ in 0..2000 {
        let size = dice.roll(30) as usize;
        match dice.roll(5) {
            0 => {
                devec.resize_back(size);
                model.resize(size, 0);
            }
            1 => {
                devec.resize_front(size);
                while model.len() > size {
                    model.pop_front();
                }
                while model.len() < size {
                    model.push_front(0);
                }
            }
            2 => {
                devec.shrink_to(size);
            }
            3 => {
                if dice.roll(10) == 0 {
                    devec.clear();
                    model.clear();
                }
            }
            _ => {
                for slot in devec.as_mut_slice().iter_mut() {
                    *slot = next;
                }
                for slot in model.iter_mut() {
                    *slot = next;
                }
                next = next.wrapping_add(1).max(1);
            }
        }
        assert_eq!(devec.len(), model.len());
        assert!(devec.as_slice().iter().eq(model.iter()));
    }
}

#[test]
fn lines_agree_with_the_standard_library() {
    let mut dice = Dice(3);
    let letters = ['a', '\n', '\r', 'b', '\u{e9}', '\t'];
    for _ in 0..500 {
        let len = dice.roll(12) as usize;
        let text: String = (0..len).map(|_| letters[dice.roll(6) as usize]).collect();
        let expected: Vec<String> = text.lines().map(|x| x.to_string()).collect();
        assert_eq!(split_lines(&text), expected, "{:?}", text);
        assert_eq!(decode_utf8(text.as_bytes()), text);
    }
}

#[test]
fn tabs_agree_with_padding_by_format() {
    let mut dice = Dice(4);
    let letters = ['a', '\t', 'b', '\u{e9}', ' '];
    for _ in 0..500 {
        let len = dice.roll(12) as usize;
        let text: String = (0..len).map(|_| letters[dice.roll(5) as usize]).collect();
        let tab_width = dice.roll(6) as usize;
        let expected = if !text.contains('\t') {
            text.clone()
        } else if tab_width == 0 {
            text.replace('\t', "")
        } else {
            text.split('\t')
                .map(|x| {
                    let width = (x.len() + 1 + tab_width - 1) / tab_width * tab_width;
                    format!("{:width$}", x, width = width)
                })
                .collect::<Vec<String>>()
                .join("")
        };
        assert_eq!(expand_tabs(&text, tab_width), expected, "{:?} {}", text, tab_width);
    }
}

#[test]
fn motions_agree_with_the_line_starts_of_the_file() {
    let mut dice = Dice(5);
    let data = random_text(&mut dice, 20000, 200);
    let starts = line_starts(&data);
    let last = starts.len() - 1;
    let mut view = FileView::new("file".to_string(), RawFileBuffer::new(map_of(&data)));
    let mut line = 0usize;
    for _ in 0..300 {
        let steps = dice.roll(3000) as usize;
        if dice.roll(2) == 0 {
            let moved = view.down(steps as u64);
            if line + steps <= last {
                assert!(moved.is_ok());
                line += steps;
            } else {
                assert!(matches!(moved, Err(ViewError::EOF)));
                line = last;
            }
        } else {
            let moved = view.up(steps as u64);
            if steps <= line {
                assert!(moved.is_ok());
                line -= steps;
            } else if line > 0 {
                assert!(moved.is_ok());
                line = 0;
            } else {
                assert!(matches!(moved, Err(ViewError::BOF)));
            }
        }
        assert_eq!(view.offset(), starts[line] as u64);
        if line == 0 {
            assert_eq!(view.current_line(), Some(1));
        }
    }
    view.top().unwrap();
    view.down(777).unwrap();
    assert_eq!(view.current_line(), Some(778));
    assert_eq!(view.offset(), starts[777] as u64);
}

#[test]
fn jumps_agree_with_the_line_starts_of_the_file() {
    let mut dice = Dice(6);
    let data = random_text(&mut dice, 5000, 100);
    let starts = line_starts(&data);
    let mut view = FileView::new("file".to_string(), RawFileBuffer::new(map_of(&data)));
    for _ in 0..200 {
        let byte = dice.roll(data.len() as u64 + 10);
        view.jump_to_byte(byte).unwrap();
        let at = (byte as usize).min(data.len());
        let expected = *starts.iter().rev().find(|s| **s <= at).unwrap();
        assert_eq!(view.offset(), expected as u64, "byte {}", byte);
    }
    for _ in 0..50 {
        let line = 1 + dice.roll(5000) as i64;
        view.jump_to_line(line).unwrap();
        assert_eq!(view.offset(), starts[line as usize - 1] as u64);
        assert_eq!(view.current_line(), Some(line));
        let back = 1 + dice.roll(4999) as i64;
        view.jump_to_line(-back).unwrap();
        assert_eq!(view.current_line(), Some(-back));
    }
}

#[test]
fn searches_agree_with_a_plain_search() {
    let mut dice = Dice(7);
    let data = random_text(&mut dice, 30000, 60);
    let starts = line_starts(&data);
    let flag = AtomicBool::new(false);
    let mut view = FileView::new("file".to_string(), RawFileBuffer::new(map_of(&data)));
    let pattern = SearchPattern::new("qzx").unwrap();
    let hits: Vec<usize> =
        (0..data.len().saturating_sub(2)).filter(|i| &data[*i..*i + 3] == b"qzx").collect();
    assert!(hits.len() > 5);
    let mut from = 0usize;
    for hit in hits.iter().take(20) {
        if *hit < from {
            continue;
        }
        view.down_to_line_matching(&pattern, false, &flag).unwrap();
        let expected = *starts.iter().rev().find(|s| **s <= *hit).unwrap();
        assert_eq!(view.offset(), expected as u64);
        assert_eq!(view.current_line(), if expected == 0 { Some(1) } else { None });
        view.down(1).unwrap();
        from = view.offset() as usize;
    }
    view.bottom().unwrap();
    view.up_to_line_matching(&pattern, &flag).unwrap();
    let last = *hits.last().unwrap();
    let expected = *starts.iter().rev().find(|s| **s <= last).unwrap();
    assert_eq!(view.offset(), expected as u64);
}

#[test]
fn a_compressed_file_reads_like_the_plain_one() {
    let mut dice = Dice(8);
    let data = random_text(&mut dice, 40000, 50);
    let mut encoder = bzip2::write::BzEncoder::new(Vec::new(), bzip2::Compression::new(1));
    encoder.write_all(&data).unwrap();
    let packed = encoder.finish().unwrap();
    let mut buffer = make_file_buffer(map_of(&packed));
    assert!(matches!(buffer, AnyFileBuffer::Bz2(_)));
    buffer.jump(0).unwrap();
    while buffer.load_next().unwrap() > 0 {}
    assert!(buffer.data() == &data[..]);
    let mut plain: FileView<AnyFileBuffer> =
        FileView::new("plain".to_string(), make_file_buffer(map_of(&data)));
    let mut squeezed: FileView<AnyFileBuffer> =
        FileView::new("packed".to_string(), make_file_buffer(map_of(&packed)));
    for _ in 0..40 {
        let steps = dice.roll(5000);
        let (a, b) = if dice.roll(2) == 0 {
            (plain.down(steps), squeezed.down(steps))
        } else {
            (plain.up(steps), squeezed.up(steps))
        };
        assert_eq!(a.is_ok(), b.is_ok());
        assert_eq!(plain.current_line(), squeezed.current_line());
        assert_eq!(plain.view(5, Some(20)).unwrap(), squeezed.view(5, Some(20)).unwrap());
    }
}

#[test]
fn a_search_over_a_million_lines_is_cancelled_at_once() {
    let mut data = Vec::with_capacity(12_000_000);
    for i in 0..1_000_000 {
        data.extend_from_slice(format!("line {:06}\n", i).as_bytes());
    }
    let mut view = FileView::new("file".to_string(), RawFileBuffer::new(map_of(&data)));
    view.down(10).unwrap();
    let before = view.save_state();
    let flag = AtomicBool::new(true);
    let pattern = SearchPattern::new("zzz").unwrap();
    assert!(matches!(
        view.down_to_line_matching(&pattern, false, &flag),
        Err(ViewError::Cancelled)
    ));
    assert_eq!(view.save_state(), before);
    let flag = AtomicBool::new(false);
    assert!(matches!(
        view.down_to_line_matching(&pattern, false, &flag),
        Err(ViewError::NoMatchFound)
    ));
    assert_eq!(view.save_state(), before);
}
