//! The line cursor over a window of a file.

pub mod file_view;
pub mod motion;
