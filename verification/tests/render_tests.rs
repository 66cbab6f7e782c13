use filepager::file_buffer::pattern::SearchPattern;
use filepager::ui::render::{
    color_matches, color_words, shift_pieces, wrap_pieces, LogLevels, Piece, Word, MATCH_STYLE,
};

fn piece(text: &str, style: Option<usize>) -> Piece {
    Piece { text: text.chars().collect(), style }
}

fn texts(pieces: &[Piece]) -> Vec<(String, Option<usize>)> {
    pieces.iter().map(|p| (p.text.iter().collect::<String>(), p.style)).collect()
}

fn owned(items: &[(&str, Option<usize>)]) -> Vec<(String, Option<usize>)> {
    items.iter().map(|(t, s)| (t.to_string(), *s)).collect()
}

#[test]
fn shifting_drops_characters_from_the_left() {
    let line = vec![piece("ab", None), piece("cde", Some(1)), piece("f", None)];
    assert_eq!(texts(&shift_pieces(&line, 0)), owned(&[("ab", None), ("cde", Some(1)), ("f", None)]));
    assert_eq!(texts(&shift_pieces(&line, 1)), owned(&[("b", None), ("cde", Some(1)), ("f", None)]));
    assert_eq!(texts(&shift_pieces(&line, 2)), owned(&[("cde", Some(1)), ("f", None)]));
    assert_eq!(texts(&shift_pieces(&line, 4)), owned(&[("e", Some(1)), ("f", None)]));
    assert_eq!(texts(&shift_pieces(&line, 6)), owned(&[]));
    assert_eq!(texts(&shift_pieces(&line, 60)), owned(&[]));
    assert_eq!(texts(&shift_pieces(&Vec::new(), 3)), owned(&[]));
}

#[test]
fn words_stand_out() {
    let words = vec![
        Word { text: "error".chars().collect(), style: 3 },
        Word { text: "err".chars().collect(), style: 4 },
        Word { text: "disk".chars().collect(), style: 5 },
    ];
    let line: Vec<char> = "an error: disk err".chars().collect();
    assert_eq!(
        texts(&color_words(&line, &words)),
        owned(&[
            ("an ", None),
            ("error", Some(3)),
            (": ", None),
            ("disk", Some(5)),
            (" ", None),
            ("err", Some(4)),
            ("", None),
        ])
    );
    let line: Vec<char> = "diskdisk".chars().collect();
    assert_eq!(
        texts(&color_words(&line, &words)),
        owned(&[("disk", Some(5)), ("disk", Some(5)), ("", None)])
    );
    let line: Vec<char> = "nothing here".chars().collect();
    assert_eq!(texts(&color_words(&line, &words)), owned(&[("nothing here", None)]));
    assert_eq!(texts(&color_words(&[], &words)), owned(&[("", None)]));
    let empty_word = vec![Word { text: Vec::new(), style: 1 }];
    assert_eq!(texts(&color_words(&line, &empty_word)), owned(&[("nothing here", None)]));
}

#[test]
fn wrapping_cuts_a_line_into_rows() {
    let line = vec![piece("abcdefgh", Some(1)), piece("ij", None)];
    let rows = wrap_pieces(&line, 4);
    let rows: Vec<_> = rows.iter().map(|r| texts(r)).collect();
    assert_eq!(
        rows,
        vec![
            owned(&[("abcd", Some(1))]),
            owned(&[("efgh", Some(1)), ("", None)]),
            owned(&[("ij", None)]),
        ]
    );
    let rows = wrap_pieces(&line, 5);
    let rows: Vec<_> = rows.iter().map(|r| texts(r)).collect();
    assert_eq!(
        rows,
        vec![owned(&[("abcde", Some(1))]), owned(&[("fgh", Some(1)), ("ij", None)])]
    );
    let rows = wrap_pieces(&line, 80);
    assert_eq!(rows.len(), 1);
    assert_eq!(texts(&rows[0]), owned(&[("abcdefgh", Some(1)), ("ij", None)]));
    let rows = wrap_pieces(&line, 0);
    assert_eq!(rows.len(), 1);
    assert_eq!(texts(&rows[0]), owned(&[("abcdefgh", Some(1)), ("ij", None)]));
    let rows = wrap_pieces(&Vec::new(), 10);
    assert_eq!(rows.len(), 1);
    assert!(rows[0].is_empty());
    let line = vec![piece("", None), piece("xy", None)];
    let rows = wrap_pieces(&line, 1);
    let rows: Vec<_> = rows.iter().map(|r| texts(r)).collect();
    assert_eq!(
        rows,
        vec![owned(&[("x", None)]), owned(&[("y", None)])]
    );
}

#[test]
fn matches_stand_out() {
    let pattern = SearchPattern::new("o+").unwrap();
    assert_eq!(
        texts(&color_matches("foo boo!", &pattern)),
        owned(&[
            ("f", None),
            ("oo", Some(MATCH_STYLE)),
            (" b", None),
            ("oo", Some(MATCH_STYLE)),
            ("!", None),
        ])
    );
    assert_eq!(texts(&color_matches("xyz", &pattern)), owned(&[("xyz", None)]));
    assert_eq!(texts(&color_matches("", &pattern)), owned(&[("", None)]));
    let pattern = SearchPattern::new("\u{e9}").unwrap();
    assert_eq!(
        texts(&color_matches("caf\u{e9}s", &pattern)),
        owned(&[("caf", None), ("\u{e9}", Some(MATCH_STYLE)), ("s", None)])
    );
}

#[test]
fn an_empty_match_ends_the_search_for_matches() {
    let pattern = SearchPattern::new("x*").unwrap();
    assert_eq!(
        texts(&color_matches("abc", &pattern)),
        owned(&[("", None), ("", Some(MATCH_STYLE)), ("abc", None)])
    );
    assert_eq!(
        texts(&color_matches("xxa", &pattern)),
        owned(&[
            ("", None),
            ("xx", Some(MATCH_STYLE)),
            ("", None),
            ("", Some(MATCH_STYLE)),
            ("a", None),
        ])
    );
}

#[test]
fn log_levels_are_told_apart() {
    let levels = LogLevels::new();
    assert_eq!(levels.level("12:00 TRACE enter"), Some(0));
    assert_eq!(levels.level("12:00 Debug value"), Some(1));
    assert_eq!(levels.level("just info"), Some(2));
    assert_eq!(levels.level("Warning: low"), Some(3));
    assert_eq!(levels.level("an ERROR and a warning"), Some(3));
    assert_eq!(levels.level("an ERROR"), Some(4));
    assert_eq!(levels.level("CRITICAL failure"), Some(5));
    assert_eq!(levels.level("fatal"), Some(5));
    assert_eq!(levels.level("nothing of note"), None);
    assert_eq!(levels.level(""), None);
}
