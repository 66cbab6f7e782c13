//! A paging engine for files that may be very large, compressed or still
//! growing: byte windows over a file, a line cursor on top of a window, and
//! the command handler that drives the cursor.

pub mod errors;
pub mod utils;
pub mod file_buffer;
pub mod file_view;
pub mod ui;
