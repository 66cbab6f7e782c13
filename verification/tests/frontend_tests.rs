use filepager::errors::ViewError;
use filepager::ui::backend::Command;
use filepager::ui::frontend::{
    classify, join, parse_i64, parse_usize, ColorMode, Effect, Key, KeyCode, KeyModifiers,
    Keyboard, Typed,
};

fn chars(text: &str) -> Vec<char> {
    text.chars().collect()
}

fn plain(code: KeyCode) -> Key {
    Key { code, modifiers: KeyModifiers::Plain }
}

fn type_text(keyboard: &mut Keyboard, text: &str) -> Vec<Effect> {
    let mut effects = Vec::new();
    for c in text.chars() {
        let key = if c == '\n' { plain(KeyCode::Enter) } else { plain(KeyCode::Char(c)) };
        effects.extend(keyboard.handle_key(key, 40));
    }
    effects
}

fn sent(effects: &[Effect]) -> Vec<Command> {
    effects
        .iter()
        .filter_map(|e| match e {
            Effect::Send(c) => Some(c.clone()),
            _ => None,
        })
        .collect()
}

#[test]
fn numbers_are_parsed_like_the_standard_library_parses_them() {
    for text in [
        "0", "7", "42", "-42", "+42", "007", "", "-", "+", "--1", "1-", "12a", " 1", "1 ",
        "9223372036854775807", "9223372036854775808", "-9223372036854775808",
        "-9223372036854775809", "99999999999999999999999999999999999999999999", "1.5", "+-1",
    ] {
        assert_eq!(parse_i64(&chars(text)), text.parse::<i64>().ok(), "{:?}", text);
        assert_eq!(parse_usize(&chars(text)), text.parse::<usize>().ok(), "{:?}", text);
    }
    assert_eq!(parse_usize(&chars("18446744073709551615")), Some(usize::MAX));
    assert_eq!(parse_usize(&chars("18446744073709551616")), None);
}

#[test]
fn commands_are_told_apart() {
    assert_eq!(classify(&chars("?")), Typed::Help);
    assert_eq!(classify(&chars("q")), Typed::Quit);
    assert_eq!(classify(&chars("gg")), Typed::FirstLine);
    assert_eq!(classify(&chars("GG")), Typed::LastLine);
    assert_eq!(classify(&chars("Gg")), Typed::Line(None));
    assert_eq!(classify(&chars("12gg")), Typed::Line(Some(12)));
    assert_eq!(classify(&chars("-3GG")), Typed::Line(Some(-3)));
    assert_eq!(classify(&chars("xgg")), Typed::Line(None));
    assert_eq!(classify(&chars("12g")), Typed::Pending(false));
    assert_eq!(classify(&chars("50pp")), Typed::Percent);
    assert_eq!(classify(&chars("12.5PP")), Typed::Percent);
    assert_eq!(classify(&chars("8tw")), Typed::TabWidth(Some(8)));
    assert_eq!(classify(&chars("tw")), Typed::TabWidth(None));
    assert_eq!(classify(&chars("-1tw")), Typed::TabWidth(None));
    assert_eq!(classify(&chars("ma")), Typed::SaveMark('a'));
    assert_eq!(classify(&chars("m")), Typed::Pending(false));
    assert_eq!(classify(&chars("'a")), Typed::LoadMark('a'));
    assert_eq!(classify(&chars("/abc")), Typed::Pending(false));
    assert_eq!(classify(&chars("/abc\n")), Typed::Search);
    assert_eq!(classify(&chars("/\n")), Typed::Search);
    assert_eq!(classify(&chars("/gg")), Typed::Line(None));
    assert_eq!(classify(&chars("clog")), Typed::ColorLog);
    assert_eq!(classify(&chars("cent")), Typed::ColorEntropy);
    assert_eq!(classify(&chars("cdef")), Typed::ColorDefault);
    assert_eq!(classify(&chars("cd")), Typed::Pending(false));
    assert_eq!(classify(&chars("x\n")), Typed::Pending(true));
    assert_eq!(classify(&chars("")), Typed::Pending(false));
}

#[test]
fn keys_that_move() {
    let mut keyboard = Keyboard::new();
    let effects = keyboard.handle_key(plain(KeyCode::Down), 40);
    assert_eq!(sent(&effects), vec![Command::MoveLine(1)]);
    let shift_up = Key { code: KeyCode::Up, modifiers: KeyModifiers::Shift };
    assert_eq!(sent(&keyboard.handle_key(shift_up, 40)), vec![Command::MoveLine(-5)]);
    assert_eq!(sent(&keyboard.handle_key(plain(KeyCode::PageDown), 40)), vec![Command::MoveLine(40)]);
    assert_eq!(sent(&keyboard.handle_key(plain(KeyCode::PageUp), 40)), vec![Command::MoveLine(-40)]);
    assert_eq!(sent(&type_text(&mut keyboard, "j")), vec![Command::MoveLine(1)]);
    assert_eq!(sent(&type_text(&mut keyboard, "K")), vec![Command::MoveLine(-5)]);
    assert!(keyboard.last_was_move);
    assert!(keyboard.command.is_empty());
    assert_eq!(sent(&type_text(&mut keyboard, "gg")), vec![Command::JumpLine(1)]);
    assert_eq!(sent(&type_text(&mut keyboard, "GG")), vec![Command::JumpLine(-1)]);
    assert_eq!(sent(&type_text(&mut keyboard, "120gg")), vec![Command::JumpLine(120)]);
    assert!(!keyboard.last_was_move);
}

#[test]
fn keys_that_shift_the_screen() {
    let mut keyboard = Keyboard::new();
    keyboard.handle_key(plain(KeyCode::Right), 40);
    keyboard.handle_key(Key { code: KeyCode::Right, modifiers: KeyModifiers::Shift }, 40);
    assert_eq!(keyboard.right_offset, 6);
    type_text(&mut keyboard, "l");
    type_text(&mut keyboard, "L");
    assert_eq!(keyboard.right_offset, 12);
    keyboard.handle_key(plain(KeyCode::Left), 40);
    type_text(&mut keyboard, "H");
    assert_eq!(keyboard.right_offset, 6);
    type_text(&mut keyboard, "H");
    type_text(&mut keyboard, "H");
    assert_eq!(keyboard.right_offset, 0);
    keyboard.handle_key(plain(KeyCode::Right), 40);
    type_text(&mut keyboard, "w");
    assert!(!keyboard.wrap);
    assert_eq!(keyboard.right_offset, 0);
}

#[test]
fn search_commands_of_the_keyboard() {
    let mut keyboard = Keyboard::new();
    assert!(sent(&type_text(&mut keyboard, "n")).is_empty());
    assert_eq!(keyboard.errors, vec!["nothing to search"]);
    let effects = type_text(&mut keyboard, "/fo+\n");
    assert_eq!(sent(&effects), vec![Command::SearchDown("fo+".to_string())]);
    assert_eq!(keyboard.search.as_deref(), Some("fo+"));
    assert_eq!(sent(&type_text(&mut keyboard, "n")), vec![Command::SearchDownNext("fo+".to_string())]);
    assert_eq!(sent(&type_text(&mut keyboard, "N")), vec![Command::SearchUp("fo+".to_string())]);
    assert!(sent(&type_text(&mut keyboard, "/(\n")).is_empty());
    assert_eq!(keyboard.errors, vec!["nothing to search", "invalid regex"]);
    assert_eq!(keyboard.search.as_deref(), Some("fo+"));
    type_text(&mut keyboard, "/\n");
    assert_eq!(keyboard.search, None);
    assert!(keyboard.command.is_empty());
}

#[test]
fn escape_and_control_c() {
    let mut keyboard = Keyboard::new();
    let control_c = Key { code: KeyCode::Char('c'), modifiers: KeyModifiers::Control };
    type_text(&mut keyboard, "12");
    assert_eq!(keyboard.command_text(), "12");
    let effects = keyboard.handle_key(control_c, 40);
    assert!(matches!(effects.as_slice(), [Effect::Cancel]));
    assert!(keyboard.command.is_empty());
    assert!(!keyboard.stop);
    type_text(&mut keyboard, "?");
    assert!(keyboard.show_help);
    keyboard.handle_key(control_c, 40);
    assert!(!keyboard.show_help);
    assert!(!keyboard.stop);
    let effects = keyboard.handle_key(plain(KeyCode::Esc), 40);
    assert!(matches!(effects.as_slice(), [Effect::Cancel]));
    let effects = keyboard.handle_key(control_c, 40);
    assert!(effects.is_empty());
    assert!(keyboard.stop);
    let mut other = Keyboard::new();
    type_text(&mut other, "q");
    assert!(other.stop);
}

#[test]
fn marks_percent_and_settings() {
    let mut keyboard = Keyboard::new();
    assert_eq!(sent(&type_text(&mut keyboard, "ma")), vec![Command::SaveMark("a".to_string())]);
    assert_eq!(sent(&type_text(&mut keyboard, "'a")), vec![Command::LoadMark("a".to_string())]);
    let effects = type_text(&mut keyboard, "12.5pp");
    assert!(matches!(effects.as_slice(), [Effect::Percent(text)] if text == "12.5"));
    assert_eq!(keyboard.tab_width, 4);
    type_text(&mut keyboard, "8tw");
    assert_eq!(keyboard.tab_width, 8);
    type_text(&mut keyboard, "xtw");
    assert_eq!(keyboard.tab_width, 8);
    assert_eq!(keyboard.errors, vec!["not a number"]);
    type_text(&mut keyboard, "clog");
    assert_eq!(keyboard.color_mode, ColorMode::Log);
    type_text(&mut keyboard, "cent");
    assert_eq!(keyboard.color_mode, ColorMode::Entropy);
    type_text(&mut keyboard, "cdef");
    assert_eq!(keyboard.color_mode, ColorMode::Default);
    assert_eq!(sent(&type_text(&mut keyboard, "f")), vec![Command::Follow(true)]);
    assert_eq!(sent(&type_text(&mut keyboard, "f")), vec![Command::Follow(false)]);
    type_text(&mut keyboard, "zz");
    keyboard.handle_key(plain(KeyCode::Backspace), 40);
    assert_eq!(keyboard.command_text(), "z");
    keyboard.handle_key(plain(KeyCode::Enter), 40);
    assert!(keyboard.command.is_empty());
}

#[test]
fn resize_is_sent_when_the_size_changes() {
    let mut keyboard = Keyboard::new();
    assert_eq!(sent(&keyboard.resize(80, 24)), vec![Command::Resize(Some(80), 24)]);
    assert!(keyboard.resize(80, 24).is_empty());
    assert_eq!(sent(&keyboard.resize(80, 30)), vec![Command::Resize(Some(80), 30)]);
    type_text(&mut keyboard, "w");
    assert_eq!(sent(&keyboard.resize(80, 30)), vec![Command::Resize(None, 30)]);
    let mut fresh = Keyboard::new();
    type_text(&mut fresh, "w");
    assert!(fresh.resize(80, 0).is_empty());
}

#[test]
fn status_line() {
    let mut keyboard = Keyboard::new();
    assert_eq!(keyboard.build_status(&[]), "");
    let errors = vec![ViewError::EOF, ViewError::NoMatchFound];
    assert_eq!(keyboard.build_status(&errors), "Backend error: no match found");
    keyboard.handle_key(plain(KeyCode::Down), 40);
    assert_eq!(keyboard.build_status(&errors), "Backend error: end of file, no match found");
    assert_eq!(keyboard.build_status(&[ViewError::BOF]), "Backend error: beginning of file");
    keyboard.note_sent(&Command::JumpLine(3));
    assert_eq!(keyboard.build_status(&[ViewError::BOF]), "");
    keyboard.push_error("first".to_string());
    keyboard.push_error("second".to_string());
    assert_eq!(keyboard.build_status(&[ViewError::BOF]), "Frontend error: first, second");
    assert_eq!(keyboard.build_status(&errors), "Backend error: no match found");
    type_text(&mut keyboard, "12");
    assert_eq!(keyboard.build_status(&errors), "Command: 12");
    let parts: Vec<String> = vec!["a".to_string(), "b".to_string(), "c".to_string()];
    assert_eq!(join(&parts, "--"), "a--b--c");
    assert_eq!(join(&Vec::new(), ", "), "");
}
