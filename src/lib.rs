//! Binds named command-line flags to caller-owned variables, converts the
//! value tokens that follow them, and renders a usage message.

pub mod arguments;
pub mod convert;
pub mod laws;
pub mod order;
pub mod target;

pub use arguments::{Arguments, Filler, ParseFailure};
pub use target::{ArgError, Target};
