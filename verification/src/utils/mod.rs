//! Small building blocks shared by the buffers, the view and the handler.

pub mod algorithm;
pub mod cancel;
pub mod infinite_loop_breaker;
pub mod text;
