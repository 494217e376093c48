use vstd::prelude::*;

verus! {

/// The greatest value of an `i64`, as a mathematical integer.
pub open spec fn i64_max() -> int {
    0x7fff_ffff_ffff_ffff
}

/// The least value of an `i64`, as a mathematical integer.
pub open spec fn i64_min() -> int {
    -0x8000_0000_0000_0000
}

/// What went wrong while reading a duration string.
#[derive(Debug, Clone, PartialEq, Eq)]
pub enum GoDurationParseError {
    /// The text is empty, malformed, or its value does not fit in an `i64`.
    InvalidDuration,
    /// A number is not followed by a unit.
    MissingUnit,
    /// A number is followed by text that is not a unit; that text is kept.
    UnknownUnit(String),
}

/// The mathematical model of a [`GoDurationParseError`]: the unknown unit is
/// held as its characters.
pub enum ParseErrorKind {
    InvalidDuration,
    MissingUnit,
    UnknownUnit(Seq<char>),
}

impl View for GoDurationParseError {
    type V = ParseErrorKind;

    open spec fn view(&self) -> ParseErrorKind {
        match self {
            GoDurationParseError::InvalidDuration => ParseErrorKind::InvalidDuration,
            GoDurationParseError::MissingUnit => ParseErrorKind::MissingUnit,
            GoDurationParseError::UnknownUnit(text) => ParseErrorKind::UnknownUnit(text@),
        }
    }
}

impl GoDurationParseError {
    /// The message that Go's `time.ParseDuration` gives for this error.
    pub fn message(&self) -> (r: String)
        ensures
            self is InvalidDuration ==> r@ == "time: invalid duration"@,
            self is MissingUnit ==> r@ == "time: missing unit in duration"@,
            self matches GoDurationParseError::UnknownUnit(text) ==> r@ == "time: unknown unit \""@
                + text@ + "\" in duration"@,
    {
        match self {
            GoDurationParseError::InvalidDuration => String::from_str("time: invalid duration"),
            GoDurationParseError::MissingUnit => String::from_str(
                "time: missing unit in duration",
            ),
            GoDurationParseError::UnknownUnit(text) => {
                let mut r = String::from_str("time: unknown unit \"");
                r.append(text.as_str());
                r.append("\" in duration");
                r
            },
        }
    }
}

/// A span of time, as a signed count of nanoseconds.
#[derive(Debug, Clone, Copy, PartialEq, Eq, Structural, PartialOrd, Ord, Hash)]
pub struct GoDuration(
    /// nanoseconds
    pub i64,
);

impl GoDuration {
    /// No time at all.
    pub fn zero() -> (r: GoDuration)
        ensures
            r.0 == 0,
    {
        GoDuration(0)
    }

    /// The shortest duration: `i64::MIN` nanoseconds.
    pub fn min_value() -> (r: GoDuration)
        ensures
            r.0 == i64_min(),
    {
        GoDuration(i64::MIN)
    }

    /// The longest duration: `i64::MAX` nanoseconds.
    pub fn max_value() -> (r: GoDuration)
        ensures
            r.0 == i64_max(),
    {
        GoDuration(i64::MAX)
    }

    /// The number of nanoseconds.
    pub fn nanoseconds(&self) -> (r: i64)
        ensures
            r == self.0,
    {
        self.0
    }

    /// The absolute value; `MIN`, whose absolute value has no `i64`, gives `MAX`.
    pub fn abs(&self) -> (r: GoDuration)
        ensures
            self.0 == i64_min() ==> r.0 == i64_max(),
            self.0 != i64_min() && self.0 < 0 ==> r.0 == -self.0,
            self.0 >= 0 ==> r.0 == self.0,
    {
        if self.0 >= 0 {
            GoDuration(self.0)
        } else if self.0 == i64::MIN {
            GoDuration(i64::MAX)
        } else {
            GoDuration(-self.0)
        }
    }
}

impl Default for GoDuration {
    fn default() -> (r: GoDuration)
        ensures
            r.0 == 0,
    {
        GoDuration(0)
    }
}

impl From<i64> for GoDuration {
    fn from(nanoseconds: i64) -> (r: GoDuration) {
        GoDuration(nanoseconds)
    }
}

impl vstd::std_specs::convert::FromSpecImpl<i64> for GoDuration {
    open spec fn obeys_from_spec() -> bool {
        true
    }

    open spec fn from_spec(nanoseconds: i64) -> GoDuration {
        GoDuration(nanoseconds)
    }
}

} // verus!
