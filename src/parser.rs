//! Reading duration strings: a recursive-descent reader over the characters of
//! the input, proved to follow [`crate::grammar`].
use vstd::prelude::*;
use crate::duration::{GoDuration, GoDurationParseError};
use crate::grammar::{
    add_nanos, digit_value, digits_end, digits_value, fraction_nanos, is_digit, is_negative,
    lemma_digits_end_bounds, lemma_lex_number_advances, lemma_pow10_positive, lemma_segments_end,
    lemma_unit_end_bounds, lex_number, lexeme_nanos, parsed, parsed_prefix, pow10, segments,
    sign_len, unit_end, unit_scale, NumberLexeme,
};

verus! {

/// The characters of `input`, one by one.
fn chars_of(input: &str) -> (cs: Vec<char>)
    ensures
        cs@ == input@,
{
    let mut cs: Vec<char> = Vec::new();
    for c in it: input.chars()
        invariant
            cs@ == it.seq().subrange(0, it.index() as int),
    {
        cs.push(c);
    }
    assert(cs@ =~= input@);
    cs
}

fn char_is_digit(c: char) -> (r: bool)
    ensures
        r == is_digit(c),
{
    '0' <= c && c <= '9'
}

fn char_digit_value(c: char) -> (r: u64)
    requires
        is_digit(c),
    ensures
        r == digit_value(c),
        r <= 9,
{
    (c as u32 - '0' as u32) as u64
}

fn find_digits_end(cs: &Vec<char>, i: usize) -> (e: usize)
    requires
        i <= cs@.len(),
    ensures
        e == digits_end(cs@, i as int),
{
    let mut e = i;
    while e < cs.len() && char_is_digit(cs[e])
        invariant
            i <= e <= cs@.len(),
            digits_end(cs@, i as int) == digits_end(cs@, e as int),
        decreases cs@.len() - e,
    {
        e = e + 1;
    }
    e
}

fn find_unit_end(cs: &Vec<char>, i: usize) -> (e: usize)
    requires
        i <= cs@.len(),
    ensures
        e == unit_end(cs@, i as int),
{
    let mut e = i;
    while e < cs.len() && !char_is_digit(cs[e]) && cs[e] != '.'
        invariant
            i <= e <= cs@.len(),
            unit_end(cs@, i as int) == unit_end(cs@, e as int),
        decreases cs@.len() - e,
    {
        e = e + 1;
    }
    e
}

proof fn lemma_digits_value_grows(s: Seq<char>, i: int, j: int, k: int)
    requires
        i <= j <= k,
    ensures
        digits_value(s, i, j) <= digits_value(s, i, k),
    decreases k - j,
{
    if j < k {
        lemma_digits_value_grows(s, i, j, k - 1);
    }
}

/// The whole number that the digits `cs[i..e]` spell, where it fits in a `u64`.
fn read_whole(cs: &Vec<char>, i: usize, e: usize) -> (r: Option<u64>)
    requires
        i <= e <= cs@.len(),
        forall|k: int| i <= k < e ==> is_digit(#[trigger] cs@[k]),
    ensures
        match r {
            Some(v) => v == digits_value(cs@, i as int, e as int),
            None => digits_value(cs@, i as int, e as int) > u64::MAX,
        },
{
    let mut v: u64 = 0;
    let mut k = i;
    while k < e
        invariant
            i <= k <= e <= cs@.len(),
            forall|k: int| i <= k < e ==> is_digit(#[trigger] cs@[k]),
            v == digits_value(cs@, i as int, k as int),
        decreases e - k,
    {
        let d = char_digit_value(cs[k]);
        if v > (u64::MAX - d) / 10 {
            proof {
                lemma_digits_value_grows(cs@, i as int, k + 1, e as int);
            }
            return None;
        }
        v = v * 10 + d;
        k = k + 1;
    }
    Some(v)
}

/// The first digit of `s[a..b]` weighs `10^(b - a - 1)`.
proof fn lemma_digits_value_first(s: Seq<char>, a: int, b: int)
    requires
        0 <= a < b <= s.len(),
    ensures
        digits_value(s, a, b) == digit_value(s[a]) * pow10((b - a - 1) as nat) + digits_value(
            s,
            a + 1,
            b,
        ),
    decreases b - a,
{
    if b > a + 1 {
        lemma_digits_value_first(s, a, b - 1);
        let p = pow10((b - a - 2) as nat);
        assert(pow10((b - a - 1) as nat) == 10 * p);
        let d = digit_value(s[a]);
        let n = digits_value(s, a + 1, b - 1);
        assert(10 * (d * p + n) == d * (10 * p) + 10 * n) by (nonlinear_arith);
        assert(digits_value(s, a + 1, b) == 10 * n + digit_value(s[b - 1]));
        assert(digits_value(s, a, b) == 10 * digits_value(s, a, b - 1) + digit_value(s[b - 1]));
        assert(digits_value(s, a, b) == d * pow10((b - a - 1) as nat) + digits_value(s, a + 1, b));
    } else {
        assert(digits_value(s, a, b) == 10 * digits_value(s, a, a) + digit_value(s[a]));
        assert(pow10((b - a - 1) as nat) == 1);
        assert(digits_value(s, a + 1, b) == 0);
        assert(digit_value(s[a]) * pow10((b - a - 1) as nat) == digit_value(s[a]));
    }
}

/// The truncated fraction of `s[k-1..b]` follows from that of `s[k..b]`:
/// it is `(digit * scale + rest) / 10`.
proof fn lemma_fraction_step(s: Seq<char>, k: int, b: int, scale: nat)
    requires
        0 < k <= b <= s.len(),
    ensures
        fraction_nanos(s, k - 1, b, scale) == (digit_value(s[k - 1]) * scale + fraction_nanos(
            s,
            k,
            b,
            scale,
        )) / 10,
{
    lemma_digits_value_first(s, k - 1, b);
    let d = digit_value(s[k - 1]);
    let n = digits_value(s, k, b);
    let p = pow10((b - k) as nat);
    lemma_pow10_positive((b - k) as nat);
    assert(pow10((b - k + 1) as nat) == 10 * p);
    let x = scale * n;
    assert(scale * (d * p + n) == x + (scale * d) * p) by (nonlinear_arith)
        requires
            x == scale * n,
    ;
    assert(p * 10 == 10 * p);
    vstd::arithmetic::div_mod::lemma_div_denominator((x + (scale * d) * p) as int, p as int, 10);
    vstd::arithmetic::div_mod::lemma_hoist_over_denominator(x as int, (scale * d) as int, p);
}

/// The nanoseconds that fraction digits `cs[a..b]` add to a number of
/// `scale`-nanosecond units, computed exactly from the last digit back.
fn read_fraction(cs: &Vec<char>, a: usize, b: usize, scale: u64) -> (r: u64)
    requires
        a <= b <= cs@.len(),
        forall|k: int| a <= k < b ==> is_digit(#[trigger] cs@[k]),
        scale <= 3_600_000_000_000,
    ensures
        r == fraction_nanos(cs@, a as int, b as int, scale as nat),
        r <= scale,
{
    let mut t: u64 = 0;
    let mut k = b;
    proof {
        assert(digits_value(cs@, b as int, b as int) == 0);
    }
    while k > a
        invariant
            a <= k <= b <= cs@.len(),
            forall|k: int| a <= k < b ==> is_digit(#[trigger] cs@[k]),
            scale <= 3_600_000_000_000,
            t == fraction_nanos(cs@, k as int, b as int, scale as nat),
            t <= scale,
        decreases k - a,
    {
        proof {
            lemma_fraction_step(cs@, k as int, b as int, scale as nat);
        }
        let d = char_digit_value(cs[k - 1]);
        assert(d * scale <= 9 * scale) by (nonlinear_arith)
            requires
                d <= 9,
        ;
        t = (d * scale + t) / 10;
        k = k - 1;
    }
    t
}

/// Reads the number that starts at `i`: its whole part, and the span of its
/// fraction digits, which ends where the number ends.
fn read_number(cs: &Vec<char>, i: usize) -> (r: Option<(u64, usize, usize)>)
    requires
        i <= cs@.len(),
    ensures
        match r {
            Some((whole, frac_start, end)) => lex_number(cs@, i as int) == Some(
                NumberLexeme { whole: whole as nat, frac_start: frac_start as int, end: end as int },
            ),
            None => lex_number(cs@, i as int) is None,
        },
{
    if i < cs.len() && cs[i] == '.' {
        let e = find_digits_end(cs, i + 1);
        if e == i + 1 {
            None
        } else {
            Some((0, i + 1, e))
        }
    } else if i < cs.len() && char_is_digit(cs[i]) {
        let e = find_digits_end(cs, i);
        proof {
            lemma_digits_end_bounds(cs@, i as int);
        }
        match read_whole(cs, i, e) {
            None => None,
            Some(whole) => {
                if e < cs.len() && cs[e] == '.' {
                    let f = find_digits_end(cs, e + 1);
                    Some((whole, e + 1, f))
                } else {
                    Some((whole, e, e))
                }
            },
        }
    } else {
        None
    }
}

/// What the names of the units are made of.
proof fn lemma_unit_names()
    ensures
        seq!['n', 's'].len() == 2 && seq!['n', 's'][0] == 'n' && seq!['n', 's'][1] == 's',
        seq!['u', 's'].len() == 2 && seq!['u', 's'][0] == 'u' && seq!['u', 's'][1] == 's',
        seq!['\u{00B5}', 's'].len() == 2 && seq!['\u{00B5}', 's'][0] == '\u{00B5}'
            && seq!['\u{00B5}', 's'][1] == 's',
        seq!['\u{03BC}', 's'].len() == 2 && seq!['\u{03BC}', 's'][0] == '\u{03BC}'
            && seq!['\u{03BC}', 's'][1] == 's',
        seq!['m', 's'].len() == 2 && seq!['m', 's'][0] == 'm' && seq!['m', 's'][1] == 's',
        seq!['s'].len() == 1 && seq!['s'][0] == 's',
        seq!['m'].len() == 1 && seq!['m'][0] == 'm',
        seq!['h'].len() == 1 && seq!['h'][0] == 'h',
{
}

/// The nanoseconds in one unit named by `cs[a..b]`.
fn read_unit(cs: &Vec<char>, a: usize, b: usize) -> (r: Option<u64>)
    requires
        a <= b <= cs@.len(),
    ensures
        match unit_scale(cs@.subrange(a as int, b as int)) {
            Some(scale) => r == Some(scale as u64),
            None => r is None,
        },
{
    let ghost u = cs@.subrange(a as int, b as int);
    proof {
        lemma_unit_names();
    }
    if b - a == 1 {
        let c = cs[a];
        assert(u =~= seq![c]);
        if c == 's' {
            Some(1_000_000_000)
        } else if c == 'm' {
            Some(60_000_000_000)
        } else if c == 'h' {
            Some(3_600_000_000_000)
        } else {
            None
        }
    } else if b - a == 2 && cs[a + 1] == 's' {
        let c = cs[a];
        assert(u =~= seq![c, 's']);
        if c == 'n' {
            Some(1)
        } else if c == 'u' || c == '\u{00B5}' || c == '\u{03BC}' {
            Some(1_000)
        } else if c == 'm' {
            Some(1_000_000)
        } else {
            None
        }
    } else {
        assert(u.len() != 1 && (u.len() != 2 || u[1] != 's'));
        None
    }
}

/// The lesser of a total and `u64::MAX`.
pub open spec fn saturated(v: nat) -> nat {
    if v > u64::MAX {
        u64::MAX as nat
    } else {
        v
    }
}

/// Reads the segments that start at `start`, summing their nanoseconds with
/// saturating arithmetic: the saturated sum and where the last segment ends.
fn read_segments(input: &str, cs: &Vec<char>, start: usize) -> (r: Result<
    (u64, usize),
    GoDurationParseError,
>)
    requires
        cs@ == input@,
        start <= cs@.len(),
    ensures
        match segments(cs@, start as int) {
            Ok((m, end)) => r matches Ok((total, e)) && total == saturated(m) && e == end,
            Err(kind) => r matches Err(err) && err@ == kind,
        },
{
    let first = read_number(cs, start);
    if first.is_none() {
        return Err(GoDurationParseError::InvalidDuration);
    }
    let (mut whole, mut frac_start, mut end) = first.unwrap();
    let mut i = start;
    let mut total: u64 = 0;
    let ghost mut exact: nat = 0;
    proof {
        lemma_lex_number_advances(cs@, start as int);
    }
    loop
        invariant
            cs@ == input@,
            start <= i < end <= cs@.len(),
            frac_start <= end,
            lex_number(cs@, i as int) == Some(
                NumberLexeme { whole: whole as nat, frac_start: frac_start as int, end: end as int },
            ),
            segments(cs@, start as int) == add_nanos(exact, segments(cs@, i as int)),
            total == saturated(exact),
        decreases cs@.len() - i,
    {
        proof {
            lemma_lex_number_advances(cs@, i as int);
            lemma_unit_end_bounds(cs@, end as int);
        }
        let ue = find_unit_end(cs, end);
        if ue == end {
            return Err(GoDurationParseError::MissingUnit);
        }
        let scale = match read_unit(cs, end, ue) {
            Some(scale) => scale,
            None => {
                let text = String::from_str(input.substring_char(end, ue));
                return Err(GoDurationParseError::UnknownUnit(text));
            },
        };
        let frac = read_fraction(cs, frac_start, end, scale);
        let scaled = match whole.checked_mul(scale) {
            Some(p) => p,
            None => u64::MAX,
        };
        let v = scaled.saturating_add(frac);
        total = total.saturating_add(v);
        proof {
            exact = exact + lexeme_nanos(cs@, lex_number(cs@, i as int)->0, scale as nat);
        }
        match read_number(cs, ue) {
            None => {
                return Ok((total, ue));
            },
            Some((w, f, e)) => {
                proof {
                    lemma_lex_number_advances(cs@, ue as int);
                }
                whole = w;
                frac_start = f;
                end = e;
                i = ue;
            },
        }
    }
}

/// Reads the optional sign: whether it is `-`, and how many characters it takes.
fn sign(cs: &Vec<char>) -> (r: (bool, usize))
    ensures
        r.0 == is_negative(cs@),
        r.1 == sign_len(cs@),
{
    if cs.len() > 0 && cs[0] == '-' {
        (true, 1)
    } else if cs.len() > 0 && cs[0] == '+' {
        (false, 1)
    } else {
        (false, 0)
    }
}

/// Reads a duration from the start of `input`, leaving what follows the last
/// segment unread: the duration and the rest of the input.
///
/// A sign applies to the whole duration. Reading stops where no number
/// follows a unit; a number without a valid unit is an error.
pub fn go_duration<'a>(input: &'a str) -> (r: Result<(&'a str, GoDuration), GoDurationParseError>)
    ensures
        match parsed_prefix(input@) {
            Ok((v, end)) => r matches Ok((rest, d)) && d.0 == v && rest@ == input@.subrange(
                end,
                input@.len() as int,
            ),
            Err(kind) => r matches Err(e) && e@ == kind,
        },
{
    let cs = chars_of(input);
    let (negative, start) = sign(&cs);
    let (total, end) = match read_segments(input, &cs, start) {
        Ok(read) => read,
        Err(e) => {
            return Err(e);
        },
    };
    proof {
        lemma_segments_end(cs@, start as int);
    }
    let nanos: i64 = if negative {
        if total > 0x8000_0000_0000_0000 {
            return Err(GoDurationParseError::InvalidDuration);
        } else if total == 0x8000_0000_0000_0000 {
            i64::MIN
        } else {
            -(total as i64)
        }
    } else {
        if total > 0x7fff_ffff_ffff_ffff {
            return Err(GoDurationParseError::InvalidDuration);
        }
        total as i64
    };
    Ok((input.substring_char(end, cs.len()), GoDuration(nanos)))
}

/// Reads a duration that takes up the whole of `input`.
pub fn parse_go_duration(input: &str) -> (r: Result<GoDuration, GoDurationParseError>)
    ensures
        match parsed(input@) {
            Ok(v) => r matches Ok(d) && d.0 == v,
            Err(kind) => r matches Err(e) && e@ == kind,
        },
{
    proof {
        lemma_segments_end(input@, sign_len(input@));
    }
    match go_duration(input) {
        Ok((rest, d)) => {
            if rest.unicode_len() == 0 {
                Ok(d)
            } else {
                Err(GoDurationParseError::InvalidDuration)
            }
        },
        Err(e) => Err(e),
    }
}

impl GoDuration {
    /// Reads a duration that takes up the whole of `input`.
    pub fn from_str(input: &str) -> (r: Result<GoDuration, GoDurationParseError>)
        ensures
            match parsed(input@) {
                Ok(v) => r matches Ok(d) && d.0 == v,
                Err(kind) => r matches Err(e) && e@ == kind,
            },
    {
        parse_go_duration(input)
    }

    /// Reads a duration that takes up the whole of `input`.
    pub fn try_from(input: &str) -> (r: Result<GoDuration, GoDurationParseError>)
        ensures
            match parsed(input@) {
                Ok(v) => r matches Ok(d) && d.0 == v,
                Err(kind) => r matches Err(e) && e@ == kind,
            },
    {
        parse_go_duration(input)
    }
}

} // verus!
