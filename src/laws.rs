//! What holds between reading and writing durations.
use vstd::prelude::*;
use crate::duration::{i64_max, ParseErrorKind};
use crate::format::{
    decimal_digits, decimal_text, digit_char, formatted, magnitude_text, minutes_text,
    padded_digits, trimmed, NANOS_PER_HOUR, NANOS_PER_MINUTE,
};
use crate::grammar::{
    add_nanos, digit_value, digits_end, digits_value, is_digit, is_negative, is_unit_char,
    lemma_digits_end_bounds, lemma_lex_number_advances, lemma_pow10_positive, lemma_pow10_values,
    lemma_segments_end, lemma_unit_end_bounds, lex_number, lexeme_nanos, parsed, pow10, segments,
    sign_len, unit_end, unit_scale, NumberLexeme,
};

verus! {

/// A number written with `q` fraction digits: `w` when `q` is zero, else
/// `w.f` with `f` padded to `q` digits.
pub open spec fn number_text(w: nat, f: nat, q: nat) -> Seq<char> {
    if q == 0 {
        decimal_digits(w)
    } else {
        decimal_digits(w) + seq!['.'] + padded_digits(f, q)
    }
}

proof fn lemma_digit_char(d: nat)
    requires
        d < 10,
    ensures
        is_digit(digit_char(d)),
        digit_value(digit_char(d)) == d,
{
}

/// Digits in the same characters spell the same number.
proof fn lemma_digits_value_same(s1: Seq<char>, i1: int, s2: Seq<char>, i2: int, len: int)
    requires
        0 <= len,
        0 <= i1 && i1 + len <= s1.len(),
        0 <= i2 && i2 + len <= s2.len(),
        s1.subrange(i1, i1 + len) == s2.subrange(i2, i2 + len),
    ensures
        digits_value(s1, i1, i1 + len) == digits_value(s2, i2, i2 + len),
    decreases len,
{
    if len > 0 {
        assert(s1.subrange(i1, i1 + len - 1) =~= s1.subrange(i1, i1 + len).subrange(0, len - 1));
        assert(s2.subrange(i2, i2 + len - 1) =~= s2.subrange(i2, i2 + len).subrange(0, len - 1));
        lemma_digits_value_same(s1, i1, s2, i2, len - 1);
        assert(s1[i1 + (len - 1)] == s1.subrange(i1, i1 + len)[len - 1]);
        assert(s2[i2 + (len - 1)] == s2.subrange(i2, i2 + len)[len - 1]);
    }
}

proof fn lemma_decimal_digits(n: nat)
    ensures
        decimal_digits(n).len() >= 1,
        forall|k: int| 0 <= k < decimal_digits(n).len() ==> is_digit(#[trigger] decimal_digits(n)[k]),
        digits_value(decimal_digits(n), 0, decimal_digits(n).len() as int) == n,
    decreases n,
{
    lemma_digit_char(n % 10);
    if n >= 10 {
        lemma_decimal_digits(n / 10);
        let x = decimal_digits(n / 10);
        let s = decimal_digits(n);
        assert(s == x.push(digit_char(n % 10)));
        assert(s.subrange(0, x.len() as int) =~= x.subrange(0, x.len() as int));
        lemma_digits_value_same(s, 0, x, 0, x.len() as int);
        assert(digits_value(s, 0, s.len() as int) == 10 * digits_value(s, 0, x.len() as int)
            + digit_value(s[x.len() as int]));
    } else {
        let s = decimal_digits(n);
        assert(digits_value(s, 0, 1) == 10 * digits_value(s, 0, 0) + digit_value(s[0]));
    }
}

proof fn lemma_padded_digits(r: nat, p: nat)
    requires
        r < pow10(p),
    ensures
        padded_digits(r, p).len() == p,
        forall|k: int| 0 <= k < p ==> is_digit(#[trigger] padded_digits(r, p)[k]),
        digits_value(padded_digits(r, p), 0, p as int) == r,
    decreases p,
{
    if p > 0 {
        lemma_digit_char(r % 10);
        assert(pow10(p) == 10 * pow10((p - 1) as nat));
        lemma_padded_digits(r / 10, (p - 1) as nat);
        let x = padded_digits(r / 10, (p - 1) as nat);
        let s = padded_digits(r, p);
        assert(s == x.push(digit_char(r % 10)));
        assert(s.subrange(0, x.len() as int) =~= x.subrange(0, x.len() as int));
        lemma_digits_value_same(s, 0, x, 0, x.len() as int);
        assert(digits_value(s, 0, p as int) == 10 * digits_value(s, 0, p - 1) + digit_value(
            s[p - 1],
        ));
    }
}

proof fn lemma_pow10_add(a: nat, b: nat)
    ensures
        pow10(a + b) == pow10(a) * pow10(b),
    decreases a,
{
    if a > 0 {
        lemma_pow10_add((a - 1) as nat, b);
        assert(pow10(a + b) == 10 * pow10((a - 1 + b) as nat));
        assert(10 * (pow10((a - 1) as nat) * pow10(b)) == (10 * pow10((a - 1) as nat)) * pow10(b))
            by (nonlinear_arith);
        assert(pow10(a) == 10 * pow10((a - 1) as nat));
    } else {
        assert(a == 0);
        assert(pow10(a) == 1);
        assert(pow10(a) * pow10(b) == pow10(b));
    }
}

proof fn lemma_trimmed(r: nat, p: nat)
    requires
        r < pow10(p),
    ensures
        trimmed(r, p).1 <= p,
        trimmed(r, p).0 < pow10(trimmed(r, p).1),
        r == trimmed(r, p).0 * pow10((p - trimmed(r, p).1) as nat),
        r != 0 ==> trimmed(r, p).1 >= 1,
    decreases p,
{
    if p > 0 && r % 10 == 0 {
        assert(pow10(p) == 10 * pow10((p - 1) as nat));
        lemma_trimmed(r / 10, (p - 1) as nat);
        let (f, q) = trimmed(r / 10, (p - 1) as nat);
        let e = (p - 1 - q) as nat;
        assert(pow10((p - q) as nat) == 10 * pow10(e));
        assert(r == 10 * (r / 10));
        assert(10 * (f * pow10(e)) == f * (10 * pow10(e))) by (nonlinear_arith);
        assert(trimmed(r, p) == (f, q));
        assert(r == f * pow10((p - q) as nat));
    } else {
        assert(pow10(0) == 1);
        assert(trimmed(r, p) == (r, p));
        assert(r * pow10(0) == r);
    }
}

/// `decimal_text(n, p)` is a number text whose value in units of `10^p` is `n`.
proof fn lemma_decimal_text(n: nat, p: nat) -> (fq: (nat, nat))
    ensures
        decimal_text(n, p) == number_text(n / pow10(p), fq.0, fq.1),
        fq.0 < pow10(fq.1),
        pow10(p) * fq.0 / pow10(fq.1) == n % pow10(p),
{
    lemma_pow10_positive(p);
    let r = n % pow10(p);
    if r == 0 {
        assert(pow10(0) == 1);
        (0, 0)
    } else {
        lemma_trimmed(r, p);
        let (f, q) = trimmed(r, p);
        let e = (p - q) as nat;
        lemma_pow10_add(e, q);
        lemma_pow10_positive(q);
        assert(pow10(p) * f == (f * pow10(e)) * pow10(q)) by (nonlinear_arith)
            requires
                pow10(p) == pow10(e) * pow10(q),
        ;
        vstd::arithmetic::div_mod::lemma_div_multiples_vanish(
            (f * pow10(e)) as int,
            pow10(q) as int,
        );
        assert(pow10(q) * (f * pow10(e)) == (f * pow10(e)) * pow10(q)) by (nonlinear_arith);
        (f, q)
    }
}

/// A run of digits followed by a non-digit, or by the end, ends there.
proof fn lemma_digits_end_of(s: Seq<char>, a: int, len: int)
    requires
        0 <= a,
        0 <= len,
        a + len <= s.len(),
        forall|k: int| a <= k < a + len ==> is_digit(#[trigger] s[k]),
        a + len < s.len() ==> !is_digit(s[a + len]),
    ensures
        digits_end(s, a) == a + len,
    decreases len,
{
    if len > 0 {
        lemma_digits_end_of(s, a + 1, len - 1);
    }
}

/// A run of unit characters followed by a digit, or by the end, ends there.
proof fn lemma_unit_end_of(s: Seq<char>, a: int, len: int)
    requires
        0 <= a,
        0 <= len,
        a + len <= s.len(),
        forall|k: int| a <= k < a + len ==> is_unit_char(#[trigger] s[k]),
        a + len < s.len() ==> is_digit(s[a + len]),
    ensures
        unit_end(s, a) == a + len,
    decreases len,
{
    if len > 0 {
        lemma_unit_end_of(s, a + 1, len - 1);
    }
}

/// Reading one segment `number_text(w, f, q) + u` that stands after `pre`.
proof fn lemma_segment(
    s: Seq<char>,
    pre: Seq<char>,
    w: nat,
    f: nat,
    q: nat,
    u: Seq<char>,
    post: Seq<char>,
    scale: nat,
)
    requires
        s == pre + number_text(w, f, q) + u + post,
        w <= u64::MAX,
        f < pow10(q),
        unit_scale(u) == Some(scale),
        u.len() > 0,
        forall|k: int| 0 <= k < u.len() ==> is_unit_char(#[trigger] u[k]),
        post.len() > 0 ==> is_digit(post[0]),
    ensures
        lex_number(s, pre.len() as int) is Some,
        unit_end(s, lex_number(s, pre.len() as int)->0.end) == (pre + number_text(w, f, q)
            + u).len(),
        s.subrange(
            lex_number(s, pre.len() as int)->0.end,
            (pre + number_text(w, f, q) + u).len() as int,
        ) == u,
        lexeme_nanos(s, lex_number(s, pre.len() as int)->0, scale) == w * scale + scale * f / pow10(
            q,
        ),
{
    let a = pre.len() as int;
    let d = decimal_digits(w);
    let t = number_text(w, f, q);
    lemma_decimal_digits(w);
    let l = d.len() as int;
    assert(t.subrange(0, l) == d);
    assert forall|k: int| a <= k < a + l implies is_digit(#[trigger] s[k]) by {
        assert(s[k] == d[k - a]);
    }
    let c = s[a + l];
    if q == 0 {
        assert(c == u[0]);
    } else {
        assert(c == '.');
    }
    lemma_digits_end_of(s, a, l);
    assert(s.subrange(a, a + l) =~= d.subrange(0, l));
    lemma_digits_value_same(s, a, d, 0, l);
    assert(s[a] == d[0]);
    let end = a + t.len();
    let ue = end + u.len();
    assert forall|k: int| end <= k < ue implies is_unit_char(#[trigger] s[k]) by {
        assert(s[k] == u[k - end]);
    }
    if ue < s.len() {
        assert(s[ue] == post[0]);
    }
    lemma_unit_end_of(s, end, u.len() as int);
    assert(s.subrange(end, ue) =~= u);
    lemma_pow10_positive(q);
    if q == 0 {
        assert(lex_number(s, a)->0.end == end);
        assert(digits_value(s, end, end) == 0);
        assert(pow10(0) == 1);
    } else {
        let g = padded_digits(f, q);
        lemma_padded_digits(f, q);
        assert forall|k: int| end - q <= k < end implies is_digit(#[trigger] s[k]) by {
            assert(s[k] == g[k - (end - q)]);
        }
        lemma_digits_end_of(s, a + l + 1, q as int);
        assert(s.subrange(a + l + 1, a + l + 1 + q) =~= g.subrange(0, q as int));
        lemma_digits_value_same(s, a + l + 1, g, 0, q as int);
    }
}

/// What the segments that start after `pre` add up to, where the first one is
/// `number_text(w, f, q) + u`.
proof fn lemma_segments_at(
    s: Seq<char>,
    pre: Seq<char>,
    w: nat,
    f: nat,
    q: nat,
    u: Seq<char>,
    post: Seq<char>,
    scale: nat,
)
    requires
        s == pre + number_text(w, f, q) + u + post,
        w <= u64::MAX,
        f < pow10(q),
        unit_scale(u) == Some(scale),
        u.len() > 0,
        forall|k: int| 0 <= k < u.len() ==> is_unit_char(#[trigger] u[k]),
        post.len() > 0 ==> is_digit(post[0]),
        post.len() > 0 ==> lex_number(s, (pre + number_text(w, f, q) + u).len() as int) is Some,
    ensures
        lex_number(s, pre.len() as int) is Some,
        post.len() == 0 ==> segments(s, pre.len() as int) == Ok::<(nat, int), ParseErrorKind>(
            (w * scale + scale * f / pow10(q), s.len() as int),
        ),
        post.len() > 0 ==> segments(s, pre.len() as int) == add_nanos(
            w * scale + scale * f / pow10(q),
            segments(s, (pre + number_text(w, f, q) + u).len() as int),
        ),
{
    lemma_segment(s, pre, w, f, q, u, post, scale);
}

proof fn lemma_number_text_first(w: nat, f: nat, q: nat)
    ensures
        number_text(w, f, q).len() >= 1,
        is_digit(number_text(w, f, q)[0]),
{
    lemma_decimal_digits(w);
    assert(number_text(w, f, q)[0] == decimal_digits(w)[0]);
}

/// A last segment written as `decimal_text(n, p)` in a unit of `10^p` nanoseconds
/// reads as `n`.
proof fn lemma_last_decimal(s: Seq<char>, pre: Seq<char>, n: nat, p: nat, u: Seq<char>)
    requires
        s == pre + decimal_text(n, p) + u,
        unit_scale(u) == Some(pow10(p)),
        u.len() > 0,
        forall|k: int| 0 <= k < u.len() ==> is_unit_char(#[trigger] u[k]),
        n <= u64::MAX,
    ensures
        lex_number(s, pre.len() as int) is Some,
        segments(s, pre.len() as int) == Ok::<(nat, int), ParseErrorKind>((n, s.len() as int)),
        decimal_text(n, p).len() >= 1,
        is_digit(decimal_text(n, p)[0]),
{
    let fq = lemma_decimal_text(n, p);
    let (f, q) = fq;
    lemma_pow10_positive(p);
    let w = n / pow10(p);
    assert(s =~= pre + number_text(w, f, q) + u + seq![]);
    lemma_segments_at(s, pre, w, f, q, u, seq![], pow10(p));
    lemma_number_text_first(w, f, q);
    vstd::arithmetic::div_mod::lemma_fundamental_div_mod(n as int, pow10(p) as int);
    assert(w * pow10(p) == pow10(p) * w) by (nonlinear_arith);
}

/// Minutes and seconds read as their sum.
proof fn lemma_minutes(s: Seq<char>, pre: Seq<char>, r: nat)
    requires
        s == pre + minutes_text(r),
        r <= i64_max() + 1,
    ensures
        lex_number(s, pre.len() as int) is Some,
        segments(s, pre.len() as int) == Ok::<(nat, int), ParseErrorKind>((r, s.len() as int)),
        is_digit(minutes_text(r)[0]),
{
    lemma_pow10_values();
    let minute = NANOS_PER_MINUTE as nat;
    let mi = r / minute;
    let sec = r % minute;
    let b = decimal_digits(mi);
    let c = decimal_text(sec, 9);
    let pre2 = pre + b + seq!['m'];
    assert(s =~= pre2 + c + seq!['s']);
    assert(seq!['s'][0] == 's');
    lemma_last_decimal(s, pre2, sec, 9, seq!['s']);
    assert(s =~= pre + number_text(mi, 0, 0) + seq!['m'] + (c + seq!['s']));
    assert(seq!['m'][0] == 'm');
    assert(pow10(0) == 1);
    assert((c + seq!['s'])[0] == c[0]);
    lemma_segments_at(s, pre, mi, 0, 0, seq!['m'], c + seq!['s'], minute);
    lemma_decimal_digits(mi);
    assert(minutes_text(r)[0] == b[0]);
    assert(minute * 0 / pow10(0) == 0);
    vstd::arithmetic::div_mod::lemma_fundamental_div_mod(r as int, minute as int);
    assert(mi * minute == minute * mi) by (nonlinear_arith);
}

/// Hours, minutes and seconds read as their sum.
proof fn lemma_hours(s: Seq<char>, pre: Seq<char>, m: nat)
    requires
        s == pre + magnitude_text(m),
        m <= i64_max() + 1,
        m >= NANOS_PER_HOUR,
    ensures
        segments(s, pre.len() as int) == Ok::<(nat, int), ParseErrorKind>((m, s.len() as int)),
        is_digit(magnitude_text(m)[0]),
{
    let hour = NANOS_PER_HOUR as nat;
    let h = m / hour;
    let r = m % hour;
    let a = decimal_digits(h);
    let rest = minutes_text(r);
    let pre2 = pre + a + seq!['h'];
    assert(s =~= pre2 + rest);
    lemma_minutes(s, pre2, r);
    assert(s =~= pre + number_text(h, 0, 0) + seq!['h'] + rest);
    assert(seq!['h'][0] == 'h');
    assert(pow10(0) == 1);
    assert(rest[0] == minutes_text(r)[0]);
    lemma_segments_at(s, pre, h, 0, 0, seq!['h'], rest, hour);
    lemma_decimal_digits(h);
    assert(magnitude_text(m)[0] == a[0]);
    assert(hour * 0 / pow10(0) == 0);
    vstd::arithmetic::div_mod::lemma_fundamental_div_mod(m as int, hour as int);
    assert(h * hour == hour * h) by (nonlinear_arith);
}

/// Under a microsecond: whole nanoseconds, or `0s`.
proof fn lemma_nanos(s: Seq<char>, pre: Seq<char>, m: nat)
    requires
        s == pre + magnitude_text(m),
        m < 1_000,
    ensures
        segments(s, pre.len() as int) == Ok::<(nat, int), ParseErrorKind>((m, s.len() as int)),
        is_digit(magnitude_text(m)[0]),
{
    assert(seq!['s'][0] == 's');
    assert(seq!['n', 's'][0] == 'n' && seq!['n', 's'][1] == 's');
    let u = if m > 0 {
        seq!['n', 's']
    } else {
        seq!['s']
    };
    let scale: nat = if m > 0 {
        1
    } else {
        1_000_000_000
    };
    lemma_decimal_digits(m);
    assert(digit_char(0) == '0');
    assert(magnitude_text(m) =~= decimal_digits(m) + u);
    assert(s =~= pre + number_text(m, 0, 0) + u + seq![]);
    assert(pow10(0) == 1);
    lemma_segments_at(s, pre, m, 0, 0, u, seq![], scale);
    assert(magnitude_text(m)[0] == decimal_digits(m)[0]);
    assert(scale * 0 / pow10(0) == 0);
}

/// The text of a magnitude reads as its segments, and they add up to it.
proof fn lemma_magnitude_segments(s: Seq<char>, pre: Seq<char>, m: nat)
    requires
        s == pre + magnitude_text(m),
        m <= i64_max() + 1,
    ensures
        segments(s, pre.len() as int) == Ok::<(nat, int), ParseErrorKind>((m, s.len() as int)),
        is_digit(magnitude_text(m)[0]),
{
    lemma_pow10_values();
    if m >= NANOS_PER_HOUR {
        lemma_hours(s, pre, m);
    } else if m >= NANOS_PER_MINUTE {
        lemma_minutes(s, pre, m);
    } else if m >= 1_000_000_000 {
        assert(seq!['s'][0] == 's');
        assert(s =~= pre + decimal_text(m, 9) + seq!['s']);
        lemma_last_decimal(s, pre, m, 9, seq!['s']);
    } else if m >= 1_000_000 {
        assert(seq!['m', 's'][0] == 'm' && seq!['m', 's'][1] == 's');
        assert(s =~= pre + decimal_text(m, 6) + seq!['m', 's']);
        lemma_last_decimal(s, pre, m, 6, seq!['m', 's']);
    } else if m >= 1_000 {
        assert(seq!['\u{00B5}', 's'][0] == '\u{00B5}' && seq!['\u{00B5}', 's'][1] == 's');
        assert(s =~= pre + decimal_text(m, 3) + seq!['\u{00B5}', 's']);
        lemma_last_decimal(s, pre, m, 3, seq!['\u{00B5}', 's']);
    } else {
        lemma_nanos(s, pre, m);
    }
}

/// Reading the text that the formatter writes for `n` gives back `n`.
pub proof fn lemma_parse_formatted(n: i64)
    ensures
        parsed(formatted(n as int)) == Ok::<int, ParseErrorKind>(n as int),
{
    let s = formatted(n as int);
    if n < 0 {
        let m = (-n) as nat;
        assert(s =~= seq!['-'] + magnitude_text(m));
        lemma_magnitude_segments(s, seq!['-'], m);
        assert(sign_len(s) == 1);
        assert(is_negative(s));
    } else {
        let m = n as nat;
        assert(s =~= seq![] + magnitude_text(m));
        lemma_magnitude_segments(s, seq![], m);
        assert(s[0] == magnitude_text(m)[0]);
        assert(sign_len(s) == 0);
    }
}

/// Formatting a duration, reading the text back and formatting again gives the
/// text of the first formatting.
pub proof fn law_format_parse_format(n: i64)
    ensures
        parsed(formatted(n as int)) is Ok,
        formatted(parsed(formatted(n as int))->Ok_0) == formatted(n as int),
{
    lemma_parse_formatted(n);
}

/// A reading of `b`, with its positions moved `k` places to the right.
pub open spec fn shifted(r: Result<(nat, int), ParseErrorKind>, k: int) -> Result<
    (nat, int),
    ParseErrorKind,
> {
    match r {
        Ok((v, end)) => Ok((v, end + k)),
        Err(e) => Err(e),
    }
}

pub open spec fn shifted_lexeme(n: Option<NumberLexeme>, k: int) -> Option<NumberLexeme> {
    match n {
        Some(n) => Some(NumberLexeme { whole: n.whole, frac_start: n.frac_start + k, end: n.end + k }),
        None => None,
    }
}

proof fn lemma_digits_end_shift(a: Seq<char>, b: Seq<char>, j: int)
    requires
        0 <= j <= b.len(),
    ensures
        digits_end(a + b, a.len() + j) == a.len() + digits_end(b, j),
    decreases b.len() - j,
{
    if j < b.len() {
        assert((a + b)[a.len() + j] == b[j]);
        lemma_digits_end_shift(a, b, j + 1);
    }
}

proof fn lemma_unit_end_shift(a: Seq<char>, b: Seq<char>, j: int)
    requires
        0 <= j <= b.len(),
    ensures
        unit_end(a + b, a.len() + j) == a.len() + unit_end(b, j),
    decreases b.len() - j,
{
    if j < b.len() {
        assert((a + b)[a.len() + j] == b[j]);
        lemma_unit_end_shift(a, b, j + 1);
    }
}

proof fn lemma_digits_value_shift(a: Seq<char>, b: Seq<char>, i: int, k: int)
    requires
        0 <= i <= k <= b.len(),
    ensures
        digits_value(a + b, a.len() + i, a.len() + k) == digits_value(b, i, k),
{
    assert((a + b).subrange(a.len() + i, a.len() + i + (k - i)) =~= b.subrange(i, i + (k - i)));
    lemma_digits_value_same(a + b, a.len() + i, b, i, k - i);
}

proof fn lemma_lex_number_shift(a: Seq<char>, b: Seq<char>, j: int)
    requires
        0 <= j <= b.len(),
    ensures
        lex_number(a + b, a.len() + j) == shifted_lexeme(lex_number(b, j), a.len() as int),
{
    let t = a + b;
    let l = a.len() as int;
    if j < b.len() {
        assert(t[l + j] == b[j]);
        lemma_digits_end_shift(a, b, j + 1);
        lemma_digits_end_shift(a, b, j);
        lemma_digits_end_bounds(b, j);
        let e = digits_end(b, j);
        lemma_digits_value_shift(a, b, j, e);
        if e < b.len() {
            assert(t[l + e] == b[e]);
            lemma_digits_end_shift(a, b, e + 1);
        }
    }
}

/// Reading the segments of `b` where `b` stands after `a` gives what reading
/// `b` alone gives, at positions moved by the length of `a`.
proof fn lemma_segments_shift(a: Seq<char>, b: Seq<char>, j: int)
    requires
        0 <= j <= b.len(),
    ensures
        segments(a + b, a.len() + j) == shifted(segments(b, j), a.len() as int),
    decreases b.len() - j,
{
    let t = a + b;
    let l = a.len() as int;
    lemma_lex_number_shift(a, b, j);
    if let Some(n) = lex_number(b, j) {
        lemma_lex_number_advances(b, j);
        lemma_unit_end_shift(a, b, n.end);
        lemma_unit_end_bounds(b, n.end);
        let ue = unit_end(b, n.end);
        assert(t.subrange(l + n.end, l + ue) =~= b.subrange(n.end, ue));
        lemma_digits_value_shift(a, b, n.frac_start, n.end);
        lemma_lex_number_shift(a, b, ue);
        if lex_number(b, ue) is Some {
            lemma_segments_shift(a, b, ue);
        }
    }
}

proof fn lemma_digits_end_prefix(a: Seq<char>, b: Seq<char>, i: int)
    requires
        0 <= i <= a.len(),
        digits_end(a, i) < a.len(),
    ensures
        digits_end(a + b, i) == digits_end(a, i),
    decreases a.len() - i,
{
    assert((a + b)[i] == a[i]);
    if is_digit(a[i]) {
        lemma_digits_end_prefix(a, b, i + 1);
    }
}

proof fn lemma_unit_end_prefix(a: Seq<char>, b: Seq<char>, i: int)
    requires
        0 <= i <= a.len(),
        unit_end(a, i) == a.len() ==> b.len() == 0 || !is_unit_char(b[0]),
    ensures
        unit_end(a + b, i) == unit_end(a, i),
    decreases a.len() - i,
{
    if i < a.len() {
        assert((a + b)[i] == a[i]);
        if is_unit_char(a[i]) {
            lemma_unit_end_prefix(a, b, i + 1);
        }
    } else if b.len() > 0 {
        assert((a + b)[i] == b[0]);
    }
}

proof fn lemma_digits_value_prefix(a: Seq<char>, b: Seq<char>, i: int, k: int)
    requires
        0 <= i <= k <= a.len(),
    ensures
        digits_value(a + b, i, k) == digits_value(a, i, k),
{
    assert((a + b).subrange(i, i + (k - i)) =~= a.subrange(i, i + (k - i)));
    lemma_digits_value_same(a + b, i, a, i, k - i);
}

proof fn lemma_lex_number_prefix(a: Seq<char>, b: Seq<char>, i: int)
    requires
        0 <= i <= a.len(),
        lex_number(a, i) matches Some(n) && n.end < a.len(),
    ensures
        lex_number(a + b, i) == lex_number(a, i),
{
    let t = a + b;
    lemma_lex_number_advances(a, i);
    assert(t[i] == a[i]);
    lemma_digits_end_bounds(a, i);
    lemma_digits_end_bounds(a, i + 1);
    if a[i] == '.' {
        lemma_digits_end_prefix(a, b, i + 1);
    } else {
        let e = digits_end(a, i);
        lemma_digits_end_prefix(a, b, i);
        lemma_digits_value_prefix(a, b, i, e);
        assert(t[e] == a[e]);
        if a[e] == '.' {
            lemma_digits_end_bounds(a, e + 1);
            lemma_digits_end_prefix(a, b, e + 1);
        }
    }
}

/// Reading the segments of `a` that start at `i`, where `b` follows `a` and
/// starts with a number: they read as in `a` alone, and reading goes on into `b`.
proof fn lemma_segments_prefix(a: Seq<char>, b: Seq<char>, i: int, v: nat)
    requires
        0 <= i <= a.len(),
        segments(a, i) == Ok::<(nat, int), ParseErrorKind>((v, a.len() as int)),
        lex_number(b, 0) is Some,
    ensures
        lex_number(a + b, i) == lex_number(a, i),
        segments(a + b, i) == add_nanos(v, segments(a + b, a.len() as int)),
    decreases a.len() - i,
{
    let t = a + b;
    let l = a.len() as int;
    let n = lex_number(a, i)->0;
    lemma_lex_number_advances(a, i);
    lemma_unit_end_bounds(a, n.end);
    let ue = unit_end(a, n.end);
    assert(b[0] == '.' || is_digit(b[0]));
    lemma_lex_number_prefix(a, b, i);
    lemma_unit_end_prefix(a, b, n.end);
    assert(t.subrange(n.end, ue) =~= a.subrange(n.end, ue));
    lemma_digits_value_prefix(a, b, n.frac_start, n.end);
    lemma_lex_number_shift(a, b, 0);
    if ue < l {
        lemma_segments_end(a, ue);
        lemma_segments_prefix(a, b, ue, (v - lexeme_nanos(a, n, unit_scale(a.subrange(n.end, ue))->0)) as nat);
    }
}

/// Segments add up: where `a` and `b` are duration texts without a sign, the
/// text `a` followed by `b` reads as the sum of what each reads as, as long as
/// that sum fits in an `i64`.
pub proof fn law_segments_add(a: Seq<char>, b: Seq<char>)
    requires
        sign_len(a) == 0,
        sign_len(b) == 0,
        parsed(a) is Ok,
        parsed(b) is Ok,
        parsed(a)->Ok_0 + parsed(b)->Ok_0 <= i64_max(),
    ensures
        parsed(a + b) == Ok::<int, ParseErrorKind>(parsed(a)->Ok_0 + parsed(b)->Ok_0),
{
    let va = segments(a, 0)->Ok_0.0;
    lemma_segments_prefix(a, b, 0, va);
    lemma_segments_shift(a, b, 0);
    assert((a + b)[0] == a[0]);
}

/// Formatting depends on the value alone: equal durations are written as the
/// same text, whenever and however often they are formatted.
pub proof fn law_format_deterministic(a: i64, b: i64)
    requires
        a == b,
    ensures
        formatted(a as int) == formatted(b as int),
{
}

} // verus!
