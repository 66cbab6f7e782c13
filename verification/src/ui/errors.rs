//! The errors that end the handler or the user interface.

use vstd::prelude::*;

verus! {

/// One of the channels between the handler and the user interface was
/// closed.
#[derive(Debug, Clone, Copy, PartialEq, Eq)]
pub enum ChannelError {
    /// The channel of commands.
    Command,
    /// The channel of requests to cancel.
    Cancel,
    /// The channel of published states.
    State,
}

impl ChannelError {
    /// The text that the error is shown with.
    pub fn message(&self) -> (text: String)
        ensures
            text@ == match *self {
                ChannelError::Command => "command channel error"@,
                ChannelError::Cancel => "cancel channel error"@,
                ChannelError::State => "state channel error"@,
            },
    {
        match self {
            ChannelError::Command => "command channel error".to_owned(),
            ChannelError::Cancel => "cancel channel error".to_owned(),
            ChannelError::State => "state channel error".to_owned(),
        }
    }
}

/// An error of the handler.
#[derive(Debug, Clone)]
pub enum BackendError {
    /// The handler stopped.
    Stopped,
    /// No mark of this name was saved.
    UnknownMark(String),
}

impl BackendError {
    /// The text that the error is shown with.
    pub fn message(&self) -> (text: String)
        ensures
            text@ == match *self {
                BackendError::Stopped => "backend stopped"@,
                BackendError::UnknownMark(name) => "unknown mark: "@ + name@,
            },
    {
        match self {
            BackendError::Stopped => "backend stopped".to_owned(),
            BackendError::UnknownMark(name) => "unknown mark: ".to_owned().concat(name.as_str()),
        }
    }
}

/// An error of the user interface.
#[derive(Debug, Clone, Copy, PartialEq, Eq)]
pub enum FrontendError {
    /// No more key presses will come.
    EndOfEventStream,
    /// No more signals will come.
    EndOfSignalStream,
}

impl FrontendError {
    /// The text that the error is shown with.
    pub fn message(&self) -> (text: String)
        ensures
            text@ == match *self {
                FrontendError::EndOfEventStream => "end of event stream"@,
                FrontendError::EndOfSignalStream => "end of signal stream"@,
            },
    {
        match self {
            FrontendError::EndOfEventStream => "end of event stream".to_owned(),
            FrontendError::EndOfSignalStream => "end of signal stream".to_owned(),
        }
    }
}

} // verus!
