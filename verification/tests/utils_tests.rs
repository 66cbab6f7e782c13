use filepager::utils::cancel::{after_load, after_window, Round};
use filepager::utils::algorithm::{find_nth_or_last, nth_or_last, rfind_nth_or_last};
use filepager::utils::infinite_loop_breaker::InfiniteLoopBreaker;

#[test]
fn find_reports_the_requested_occurrence() {
    let data = b"a\nb\nc\nd\n";
    assert_eq!(find_nth_or_last(data, b'\n', 0), Some((0, 1)));
    assert_eq!(find_nth_or_last(data, b'\n', 2), Some((2, 5)));
    assert_eq!(find_nth_or_last(data, b'\n', 3), Some((3, 7)));
}

#[test]
fn find_falls_back_to_the_last_occurrence() {
    let data = b"a\nb\nc";
    assert_eq!(find_nth_or_last(data, b'\n', 5), Some((1, 3)));
}

#[test]
fn find_reports_nothing_without_an_occurrence() {
    assert_eq!(find_nth_or_last(b"abc", b'\n', 0), None);
    let empty: [u8; 0] = [];
    assert_eq!(find_nth_or_last(&empty, b'\n', 3), None);
}

#[test]
fn rfind_counts_from_the_end() {
    let data = b"a\nb\nc\nd\n";
    assert_eq!(rfind_nth_or_last(data, b'\n', 0), Some((0, 7)));
    assert_eq!(rfind_nth_or_last(data, b'\n', 1), Some((1, 5)));
    assert_eq!(rfind_nth_or_last(data, b'\n', 3), Some((3, 1)));
}

#[test]
fn rfind_falls_back_to_the_leftmost_occurrence() {
    let data = b"xx\nb\nc";
    assert_eq!(rfind_nth_or_last(data, b'\n', 9), Some((1, 2)));
    assert_eq!(rfind_nth_or_last(b"abc", b'\n', 0), None);
}

#[test]
fn nth_or_last_takes_the_requested_item() {
    let items = vec![10, 20, 30, 40];
    assert_eq!(nth_or_last(items.iter(), 0), Some((&10, 0)));
    assert_eq!(nth_or_last(items.iter(), 2), Some((&30, 2)));
    assert_eq!(nth_or_last(items.iter(), 3), Some((&40, 3)));
}

#[test]
fn nth_or_last_falls_back_to_the_last_item() {
    let items = vec![10, 20, 30];
    assert_eq!(nth_or_last(items.iter(), 7), Some((&30, 2)));
    let none: Vec<i32> = Vec::new();
    assert_eq!(nth_or_last(none.iter(), 0), None);
}

#[test]
fn nth_or_last_leaves_the_rest_of_the_iterator() {
    let items = vec![1, 2, 3, 4, 5];
    let mut iter = items.iter();
    assert_eq!(nth_or_last(&mut iter, 1), Some((&2, 1)));
    assert_eq!(iter.next(), Some(&3));
}

#[test]
fn breaker_fails_on_the_last_round() {
    let mut breaker = InfiniteLoopBreaker::new(3);
    assert!(breaker.it().is_ok());
    assert!(breaker.it().is_ok());
    assert!(breaker.it().is_err());
    assert!(breaker.it().is_err());
}

#[test]
fn breaker_starts_again_after_reset() {
    let mut breaker = InfiniteLoopBreaker::new(2);
    assert!(breaker.it().is_ok());
    breaker.reset();
    assert!(breaker.it().is_ok());
    assert!(breaker.it().is_err());
    breaker.reset();
    assert!(breaker.it().is_ok());
}

#[test]
fn breaker_without_rounds_fails_at_once() {
    let mut breaker = InfiniteLoopBreaker::new(0);
    assert!(breaker.it().is_err());
    let mut single = InfiniteLoopBreaker::new(1);
    assert!(single.it().is_err());
}

#[test]
fn a_round_over_a_stretch_ends_with_the_match_first() {
    assert_eq!(after_window(Some((2, 5)), true, true), Round::Found(2, 5));
    assert_eq!(after_window(Some((0, 0)), false, false), Round::Found(0, 0));
    assert_eq!(after_window(None, true, true), Round::Cancelled);
    assert_eq!(after_window(None, true, false), Round::Cancelled);
    assert_eq!(after_window(None, false, true), Round::NoMatch);
    assert_eq!(after_window(None, false, false), Round::Again);
}

#[test]
fn a_round_with_a_load_ends_where_nothing_came() {
    assert_eq!(after_load(0, true), Round::NoMatch);
    assert_eq!(after_load(0, false), Round::NoMatch);
    assert_eq!(after_load(7, true), Round::Cancelled);
    assert_eq!(after_load(7, false), Round::Again);
}
