//! The command handler between the user interface and the view.

pub mod backend;
pub mod errors;
pub mod frontend;
pub mod render;
