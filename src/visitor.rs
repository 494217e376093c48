//! Decoding a duration from the tokens of a serialization format: a string is
//! read as duration text, an integer as a count of nanoseconds.
use vstd::prelude::*;
use crate::duration::{i64_max, GoDuration, GoDurationParseError, ParseErrorKind};
use crate::grammar::parsed;
use crate::parser::parse_go_duration;

verus! {

/// Turns the tokens that a serialization format hands over into durations.
pub struct GoDurationVisitor;

impl GoDurationVisitor {
    /// What the visitor expects to be given.
    pub fn expecting(&self) -> (r: &'static str)
        ensures
            r@ == "Go-lang style `time.Duration` string"@,
    {
        "Go-lang style `time.Duration` string"
    }

    /// A signed integer is taken as nanoseconds.
    pub fn visit_i64(self, value: i64) -> (r: Result<GoDuration, GoDurationParseError>)
        ensures
            r matches Ok(d) && d.0 == value,
    {
        Ok(GoDuration::from(value))
    }

    /// An unsigned integer is taken as nanoseconds where it fits in an `i64`.
    pub fn visit_u64(self, value: u64) -> (r: Result<GoDuration, GoDurationParseError>)
        ensures
            value <= i64_max() ==> (r matches Ok(d) && d.0 == value),
            value > i64_max() ==> (r matches Err(e) && e@ == ParseErrorKind::InvalidDuration),
    {
        if value <= i64::MAX as u64 {
            self.visit_i64(value as i64)
        } else {
            Err(GoDurationParseError::InvalidDuration)
        }
    }

    /// A string is read as duration text.
    pub fn visit_str(self, value: &str) -> (r: Result<GoDuration, GoDurationParseError>)
        ensures
            match parsed(value@) {
                Ok(v) => r matches Ok(d) && d.0 == v,
                Err(kind) => r matches Err(e) && e@ == kind,
            },
    {
        parse_go_duration(value)
    }
}

} // verus!
