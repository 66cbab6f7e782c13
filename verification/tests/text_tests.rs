use filepager::utils::text::{
    tabs_fit,
    clip_count, convert_tabs, decode_utf8, expand_tabs, height_of, rows_of, split_lines,
};

#[test]
fn valid_text_is_decoded_as_it_is() {
    assert_eq!(decode_utf8(b"hello"), "hello");
    assert_eq!(decode_utf8("gr\u{fc}n \u{4e2d}".as_bytes()), "gr\u{fc}n \u{4e2d}");
    assert_eq!(decode_utf8(b""), "");
}

#[test]
fn a_broken_character_at_the_end_is_left_out() {
    let mut data = b"abc".to_vec();
    data.extend_from_slice(&"\u{4e2d}".as_bytes()[..2]);
    assert_eq!(decode_utf8(&data), "abc");
    assert_eq!(decode_utf8(&[0xff]), "");
    assert_eq!(decode_utf8(b"abcd\xff123"), "abcd");
    assert_eq!(decode_utf8(b"abcd\xffxyz"), "abcd");
}

#[test]
fn broken_bytes_far_from_the_end_are_replaced() {
    assert_eq!(decode_utf8(b"ab\xffcdefgh"), "ab\u{fffd}cdefgh");
    assert_eq!(decode_utf8(b"ab\xff123"), "ab");
    assert_eq!(decode_utf8(b"ab\xff1234"), "ab\u{fffd}1234");
}

#[test]
fn lines_are_split_at_line_ends() {
    assert_eq!(split_lines("a\nb\nc"), vec!["a", "b", "c"]);
    assert_eq!(split_lines("a\nb\n"), vec!["a", "b"]);
    assert_eq!(split_lines(""), Vec::<String>::new());
    assert_eq!(split_lines("\n"), vec![""]);
    assert_eq!(split_lines("\n\nx"), vec!["", "", "x"]);
    assert_eq!(split_lines("a\r\nb\rc\r\n\r\nd\r"), vec!["a", "b\rc", "", "d\r"]);
    let text = "foo\nbar\n\r\nbaz\r";
    let expected: Vec<String> = text.lines().map(|x| x.to_string()).collect();
    assert_eq!(split_lines(text), expected);
}

#[test]
fn height_counts_the_rows_of_a_wrapped_line() {
    assert_eq!(height_of("abcdefghij", None), 1);
    assert_eq!(height_of("", None), 1);
    assert_eq!(height_of("abcdefghij", Some(4)), 3);
    assert_eq!(height_of("abcdefgh", Some(4)), 2);
    assert_eq!(height_of("", Some(4)), 0);
    assert_eq!(height_of("\u{4e2d}\u{6587}", Some(2)), 2);
    assert_eq!(height_of("\u{4e2d}\u{6587}", Some(80)), 1);
}

#[test]
fn clip_count_stops_when_the_rows_are_taken() {
    let lines: Vec<String> = vec!["a", "bb", "ccc", "dddd"].into_iter().map(String::from).collect();
    assert_eq!(clip_count(&lines, 4, 2, None), Some(2));
    assert_eq!(clip_count(&lines, 4, 4, None), Some(4));
    assert_eq!(clip_count(&lines, 4, 5, None), None);
    assert_eq!(clip_count(&lines, 3, 4, None), None);
    assert_eq!(clip_count(&lines, 4, 0, None), Some(0));
    assert_eq!(clip_count(&lines, 4, 2, Some(2)), Some(2));
    assert_eq!(clip_count(&lines, 4, 3, Some(2)), Some(2));
    assert_eq!(clip_count(&lines, 4, 4, Some(2)), Some(3));
    assert_eq!(rows_of(&lines, Some(2)), 6);
    assert_eq!(rows_of(&lines, None), 4);
}

#[test]
fn tabs_are_expanded_to_tab_stops() {
    assert_eq!(expand_tabs("a\tb", 4), "a   b   ");
    assert_eq!(expand_tabs("abcd\te", 4), "abcd    e   ");
    assert_eq!(expand_tabs("\t", 4), "        ");
    assert_eq!(expand_tabs("a\t", 2), "a   ");
    assert_eq!(expand_tabs("ab\tc", 1), "ab c ");
    assert_eq!(expand_tabs("\u{e9}\tx", 4), "\u{e9}   x   ");
    let lines: Vec<String> = vec!["no tab", "x\ty", ""].into_iter().map(String::from).collect();
    assert_eq!(convert_tabs(lines, 8), vec!["no tab", "x       y       ", ""]);
}

#[test]
fn a_tab_width_of_zero_takes_the_tabs_out() {
    assert_eq!(expand_tabs("a\tb\t\tc", 0), "abc");
    assert_eq!(expand_tabs("abc", 0), "abc");
    let lines: Vec<String> = vec!["\t", "x\ty"].into_iter().map(String::from).collect();
    assert_eq!(convert_tabs(lines, 0), vec!["", "xy"]);
}

#[test]
fn lines_leave_room_for_a_tab_stop() {
    let lines = vec!["a\tb".to_string(), String::new()];
    assert!(tabs_fit(&lines, 8));
    assert!(tabs_fit(&lines, usize::MAX - 3));
    assert!(!tabs_fit(&lines, usize::MAX - 2));
    assert!(tabs_fit(&Vec::new(), usize::MAX));
}
