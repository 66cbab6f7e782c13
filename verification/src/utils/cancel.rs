//! The flag by which a running search is asked to stop, and what a search
//! does at the end of a round.

use std::sync::atomic::AtomicBool;
use std::sync::atomic::Ordering;
use vstd::prelude::*;

verus! {

/// How a round of a search ends.
#[derive(Debug, Clone, Copy, PartialEq, Eq)]
pub enum Round {
    /// The matcher found a match, from the first offset to the second.
    Found(usize, usize),
    /// The flag was seen set: the search stops.
    Cancelled,
    /// The end is reached without a match.
    NoMatch,
    /// The search goes on with the next round.
    Again,
}

/// Whether the flag is set at this moment. Another thread may set or clear
/// it at any time, so nothing is promised about the answer.
pub fn is_cancelled(flag: &AtomicBool) -> bool {
    flag.load(Ordering::Acquire)
}

/// How a round ends in which the matcher ran over a stretch of the file:
/// with the match where it found one; else the search stops where the flag
/// is set, ends where the stretch was the last one, and goes on where it
/// was not.
pub open spec fn window_end(found: Option<(usize, usize)>, cancelled: bool, at_end: bool) -> Round {
    match found {
        Some((start, end)) => Round::Found(start, end),
        None => if cancelled {
            Round::Cancelled
        } else if at_end {
            Round::NoMatch
        } else {
            Round::Again
        },
    }
}

/// How a round ends in which the matcher ran over a stretch of the file.
pub fn after_window(found: Option<(usize, usize)>, cancelled: bool, at_end: bool) -> (round: Round)
    ensures
        round == window_end(found, cancelled, at_end),
{
    match found {
        Some((start, end)) => Round::Found(start, end),
        None => if cancelled {
            Round::Cancelled
        } else if at_end {
            Round::NoMatch
        } else {
            Round::Again
        },
    }
}

/// How a round ends in which the data held no match and `loaded` more
/// bytes were loaded: the search ends where nothing came; else it stops
/// where the flag is set and goes on where it is not.
pub open spec fn load_end(loaded: usize, cancelled: bool) -> Round {
    if loaded == 0 {
        Round::NoMatch
    } else if cancelled {
        Round::Cancelled
    } else {
        Round::Again
    }
}

/// How a round ends in which the data held no match and more was loaded.
pub fn after_load(loaded: usize, cancelled: bool) -> (round: Round)
    ensures
        round == load_end(loaded, cancelled),
{
    if loaded == 0 {
        Round::NoMatch
    } else if cancelled {
        Round::Cancelled
    } else {
        Round::Again
    }
}

} // verus!
