//! The textual form of a duration, stated over its characters.
//!
//! `duration := sign? segment+`, `segment := number unit`, where a number is
//! digits with an optional fraction (`12`, `1.5`, `1.`, `.5`) and a unit is the
//! longest run of characters that are neither digits nor `.`.
use vstd::prelude::*;
use crate::duration::{i64_max, ParseErrorKind};

verus! {

pub open spec fn is_digit(c: char) -> bool {
    '0' <= c && c <= '9'
}

pub open spec fn digit_value(c: char) -> nat {
    (c as int - '0' as int) as nat
}

/// A character that can stand in a unit: neither a digit nor `.`.
pub open spec fn is_unit_char(c: char) -> bool {
    !is_digit(c) && c != '.'
}

pub open spec fn pow10(p: nat) -> nat
    decreases p,
{
    if p == 0 {
        1
    } else {
        10 * pow10((p - 1) as nat)
    }
}

/// Where the longest run of digits that starts at `i` ends.
pub open spec fn digits_end(s: Seq<char>, i: int) -> int
    decreases s.len() - i,
{
    if 0 <= i < s.len() && is_digit(s[i]) {
        digits_end(s, i + 1)
    } else {
        i
    }
}

/// Where the longest run of unit characters that starts at `i` ends.
pub open spec fn unit_end(s: Seq<char>, i: int) -> int
    decreases s.len() - i,
{
    if 0 <= i < s.len() && is_unit_char(s[i]) {
        unit_end(s, i + 1)
    } else {
        i
    }
}

/// The number that the digits `s[i..j]` spell in decimal.
pub open spec fn digits_value(s: Seq<char>, i: int, j: int) -> nat
    decreases j - i,
{
    if j <= i {
        0
    } else {
        10 * digits_value(s, i, j - 1) + digit_value(s[j - 1])
    }
}

/// The nanoseconds that the fraction digits `s[i..j]` add to a number of
/// `scale`-nanosecond units: `scale * 0.s[i..j]`, truncated.
pub open spec fn fraction_nanos(s: Seq<char>, i: int, j: int, scale: nat) -> nat {
    (scale * digits_value(s, i, j)) / pow10((j - i) as nat)
}

/// The nanoseconds in one unit of the given name, or `None` for no unit.
pub open spec fn unit_scale(u: Seq<char>) -> Option<nat> {
    if u == seq!['n', 's'] {
        Some(1)
    } else if u == seq!['u', 's'] || u == seq!['\u{00B5}', 's'] || u == seq!['\u{03BC}', 's'] {
        Some(1_000)
    } else if u == seq!['m', 's'] {
        Some(1_000_000)
    } else if u == seq!['s'] {
        Some(1_000_000_000)
    } else if u == seq!['m'] {
        Some(60_000_000_000)
    } else if u == seq!['h'] {
        Some(3_600_000_000_000)
    } else {
        None
    }
}

/// A number read from the text: its whole part, and the fraction digits
/// `frac_start..end`, where `end` is also where the number ends.
pub struct NumberLexeme {
    pub whole: nat,
    pub frac_start: int,
    pub end: int,
}

/// The number that starts at `i`, if one does and its whole part fits in a `u64`.
pub open spec fn lex_number(s: Seq<char>, i: int) -> Option<NumberLexeme> {
    if 0 <= i < s.len() && s[i] == '.' {
        let e = digits_end(s, i + 1);
        if e == i + 1 {
            None
        } else {
            Some(NumberLexeme { whole: 0, frac_start: i + 1, end: e })
        }
    } else if 0 <= i < s.len() && is_digit(s[i]) {
        let e = digits_end(s, i);
        let whole = digits_value(s, i, e);
        if whole > u64::MAX {
            None
        } else if e < s.len() && s[e] == '.' {
            Some(NumberLexeme { whole, frac_start: e + 1, end: digits_end(s, e + 1) })
        } else {
            Some(NumberLexeme { whole, frac_start: e, end: e })
        }
    } else {
        None
    }
}

/// The nanoseconds of a number in units of `scale` nanoseconds.
pub open spec fn lexeme_nanos(s: Seq<char>, n: NumberLexeme, scale: nat) -> nat {
    n.whole * scale + fraction_nanos(s, n.frac_start, n.end, scale)
}

/// Adds `v` to the total of a successful reading.
pub open spec fn add_nanos(v: nat, r: Result<(nat, int), ParseErrorKind>) -> Result<
    (nat, int),
    ParseErrorKind,
> {
    match r {
        Ok((w, end)) => Ok((v + w, end)),
        Err(e) => Err(e),
    }
}

/// Reads the segments that start at `i`, one at least, for as long as a number
/// follows: the sum of their nanoseconds and where the last one ends, or the
/// error of the first segment that has no valid unit.
pub open spec fn segments(s: Seq<char>, i: int) -> Result<(nat, int), ParseErrorKind>
    decreases s.len() - i,
{
    match lex_number(s, i) {
        None => Err(ParseErrorKind::InvalidDuration),
        Some(n) => {
            let ue = unit_end(s, n.end);
            let u = s.subrange(n.end, ue);
            if ue == n.end {
                Err(ParseErrorKind::MissingUnit)
            } else {
                match unit_scale(u) {
                    None => Err(ParseErrorKind::UnknownUnit(u)),
                    Some(scale) => {
                        let v = lexeme_nanos(s, n, scale);
                        if lex_number(s, ue) is None {
                            Ok((v, ue))
                        } else {
                            proof {
                                lemma_lex_number_advances(s, i);
                                lemma_unit_end_bounds(s, n.end);
                            }
                            add_nanos(v, segments(s, ue))
                        }
                    },
                }
            }
        },
    }
}

pub open spec fn sign_len(s: Seq<char>) -> int {
    if s.len() > 0 && (s[0] == '-' || s[0] == '+') {
        1
    } else {
        0
    }
}

pub open spec fn is_negative(s: Seq<char>) -> bool {
    s.len() > 0 && s[0] == '-'
}

/// The duration that a prefix of `s` spells, in nanoseconds, and where that
/// prefix ends; a value outside the range of `i64` is invalid.
pub open spec fn parsed_prefix(s: Seq<char>) -> Result<(int, int), ParseErrorKind> {
    match segments(s, sign_len(s)) {
        Err(e) => Err(e),
        Ok((m, end)) => {
            if is_negative(s) {
                if m <= i64_max() + 1 {
                    Ok((-m, end))
                } else {
                    Err(ParseErrorKind::InvalidDuration)
                }
            } else {
                if m <= i64_max() {
                    Ok((m as int, end))
                } else {
                    Err(ParseErrorKind::InvalidDuration)
                }
            }
        },
    }
}

/// The duration that the whole of `s` spells, in nanoseconds.
pub open spec fn parsed(s: Seq<char>) -> Result<int, ParseErrorKind> {
    match parsed_prefix(s) {
        Err(e) => Err(e),
        Ok((v, end)) => {
            if end == s.len() {
                Ok(v)
            } else {
                Err(ParseErrorKind::InvalidDuration)
            }
        },
    }
}

pub proof fn lemma_digits_end_bounds(s: Seq<char>, i: int)
    requires
        0 <= i <= s.len(),
    ensures
        i <= digits_end(s, i) <= s.len(),
        forall|k: int| i <= k < digits_end(s, i) ==> is_digit(#[trigger] s[k]),
        digits_end(s, i) < s.len() ==> !is_digit(s[digits_end(s, i)]),
    decreases s.len() - i,
{
    if i < s.len() && is_digit(s[i]) {
        lemma_digits_end_bounds(s, i + 1);
    }
}

pub proof fn lemma_unit_end_bounds(s: Seq<char>, i: int)
    requires
        0 <= i <= s.len(),
    ensures
        i <= unit_end(s, i) <= s.len(),
        forall|k: int| i <= k < unit_end(s, i) ==> is_unit_char(#[trigger] s[k]),
        unit_end(s, i) < s.len() ==> !is_unit_char(s[unit_end(s, i)]),
    decreases s.len() - i,
{
    if i < s.len() && is_unit_char(s[i]) {
        lemma_unit_end_bounds(s, i + 1);
    }
}

/// A number ends after the place where it starts, and within the text; its
/// fraction is made of digits.
pub proof fn lemma_lex_number_advances(s: Seq<char>, i: int)
    requires
        0 <= i <= s.len(),
        lex_number(s, i) is Some,
    ensures
        i < lex_number(s, i)->0.end <= s.len(),
        i < lex_number(s, i)->0.frac_start <= lex_number(s, i)->0.end,
        forall|k: int|
            lex_number(s, i)->0.frac_start <= k < lex_number(s, i)->0.end ==> is_digit(
                #[trigger] s[k],
            ),
{
    if s[i] == '.' {
        lemma_digits_end_bounds(s, i + 1);
    } else {
        lemma_digits_end_bounds(s, i);
        let e = digits_end(s, i);
        if e < s.len() && s[e] == '.' {
            lemma_digits_end_bounds(s, e + 1);
        }
    }
}

pub proof fn lemma_pow10_positive(p: nat)
    ensures
        pow10(p) > 0,
    decreases p,
{
    if p > 0 {
        lemma_pow10_positive((p - 1) as nat);
    }
}

/// The powers of ten that the units of time are apart.
pub proof fn lemma_pow10_values()
    ensures
        pow10(3) == 1_000,
        pow10(6) == 1_000_000,
        pow10(9) == 1_000_000_000,
{
    reveal_with_fuel(pow10, 10);
}

/// The segments end within the text.
pub proof fn lemma_segments_end(s: Seq<char>, i: int)
    requires
        0 <= i <= s.len(),
    ensures
        segments(s, i) matches Ok((_, end)) ==> i < end <= s.len(),
    decreases s.len() - i,
{
    if let Some(n) = lex_number(s, i) {
        lemma_lex_number_advances(s, i);
        lemma_unit_end_bounds(s, n.end);
        let ue = unit_end(s, n.end);
        if lex_number(s, ue) is Some {
            lemma_segments_end(s, ue);
        }
    }
}

} // verus!
