//! The errors that the view and the command handler report.

use vstd::prelude::*;

verus! {

/// What can go wrong while the view moves or searches.
#[derive(Debug, Clone)]
pub enum ViewError {
    /// A motion upwards ran into the beginning of the file.
    BOF,
    /// A motion downwards ran into the end of the file.
    EOF,
    /// A search reached the end of its range without a match.
    NoMatchFound,
    /// The cancel flag was seen set during a search.
    Cancelled,
    /// The pattern of a search does not compile.
    InvalidRegex,
    /// A loop made no progress for too many rounds.
    InfiniteLoop,
    /// No mark of this name was saved.
    UnknownMark(String),
    /// An error of the buffer below the view, by its message.
    Other(String),
}

/// The text that an error is shown with.
pub open spec fn message_of(error: ViewError) -> Seq<char> {
    match error {
        ViewError::BOF => "beginning of file"@,
        ViewError::EOF => "end of file"@,
        ViewError::NoMatchFound => "no match found"@,
        ViewError::Cancelled => "cancelled"@,
        ViewError::InvalidRegex => "invalid regex"@,
        ViewError::InfiniteLoop => "infinite loop"@,
        ViewError::UnknownMark(name) => "unknown mark: "@ + name@,
        ViewError::Other(text) => text@,
    }
}

impl ViewError {
    /// The text that the error is shown with.
    pub fn message(&self) -> (text: String)
        ensures
            text@ == message_of(*self),
    {
        match self {
            ViewError::BOF => "beginning of file".to_owned(),
            ViewError::EOF => "end of file".to_owned(),
            ViewError::NoMatchFound => "no match found".to_owned(),
            ViewError::Cancelled => "cancelled".to_owned(),
            ViewError::InvalidRegex => "invalid regex".to_owned(),
            ViewError::InfiniteLoop => "infinite loop".to_owned(),
            ViewError::UnknownMark(name) => "unknown mark: ".to_owned().concat(name.as_str()),
            ViewError::Other(text) => text.clone(),
        }
    }

    /// A copy of the error.
    pub fn copy(&self) -> (same: ViewError)
        ensures
            same == *self,
    {
        match self {
            ViewError::BOF => ViewError::BOF,
            ViewError::EOF => ViewError::EOF,
            ViewError::NoMatchFound => ViewError::NoMatchFound,
            ViewError::Cancelled => ViewError::Cancelled,
            ViewError::InvalidRegex => ViewError::InvalidRegex,
            ViewError::InfiniteLoop => ViewError::InfiniteLoop,
            ViewError::UnknownMark(name) => ViewError::UnknownMark(name.clone()),
            ViewError::Other(text) => ViewError::Other(text.clone()),
        }
    }

    /// Whether the error only says that a motion reached an end of the
    /// file, which the user is told after a motion by lines and not after
    /// other commands.
    pub fn is_edge(&self) -> (edge: bool)
        ensures
            edge == (*self is BOF || *self is EOF),
    {
        match self {
            ViewError::BOF => true,
            ViewError::EOF => true,
            _ => false,
        }
    }
}

} // verus!
