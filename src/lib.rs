//! A codec for Go-style duration strings such as `1h30m0s`, `500ms` or `-2µs`.
//!
//! Text is parsed into a signed 64-bit count of nanoseconds ([`GoDuration`]) and
//! a count of nanoseconds is rendered back into its canonical text. Both
//! directions are specified over `Seq<char>` in [`grammar`] and [`format`], and
//! [`laws`] proves that reading what the formatter wrote gives back the value.
pub mod duration;
pub mod format;
pub mod grammar;
pub mod laws;
pub mod nanoseconds;
pub mod parser;
pub mod visitor;

pub use duration::{GoDuration, GoDurationParseError, ParseErrorKind};
pub use parser::{go_duration, parse_go_duration};
pub use visitor::GoDurationVisitor;
