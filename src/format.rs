//! Writing durations: the canonical text of a count of nanoseconds.
use vstd::prelude::*;
use crate::duration::GoDuration;
use crate::grammar::{lemma_pow10_positive, lemma_pow10_values, pow10};

verus! {

pub const NANOS_PER_MICROSECOND: u64 = 1_000;

pub const NANOS_PER_MILLISECOND: u64 = 1_000_000;

pub const NANOS_PER_SECOND: u64 = 1_000_000_000;

pub const NANOS_PER_MINUTE: u64 = NANOS_PER_SECOND * 60;

pub const NANOS_PER_HOUR: u64 = NANOS_PER_MINUTE * 60;

/// The decimal digit character for `d < 10`.
pub open spec fn digit_char(d: nat) -> char {
    ((48 + d) as u8) as char
}

/// `n` in decimal, without leading zeros (`0` for zero).
pub open spec fn decimal_digits(n: nat) -> Seq<char>
    decreases n,
{
    if n < 10 {
        seq![digit_char(n)]
    } else {
        decimal_digits(n / 10).push(digit_char(n % 10))
    }
}

/// The last `p` decimal digits of `r`, with zeros in front where `r` is shorter.
pub open spec fn padded_digits(r: nat, p: nat) -> Seq<char>
    decreases p,
{
    if p == 0 {
        seq![]
    } else {
        padded_digits(r / 10, (p - 1) as nat).push(digit_char(r % 10))
    }
}

/// The fraction `r / 10^p` as `f / 10^q` with no trailing zero digit in `f`.
pub open spec fn trimmed(r: nat, p: nat) -> (nat, nat)
    decreases p,
{
    if p > 0 && r % 10 == 0 {
        trimmed(r / 10, (p - 1) as nat)
    } else {
        (r, p)
    }
}

/// `n / 10^p` in decimal, with as many fraction digits as it needs and no
/// point where it needs none.
pub open spec fn decimal_text(n: nat, p: nat) -> Seq<char> {
    let r = n % pow10(p);
    let whole = decimal_digits(n / pow10(p));
    if r == 0 {
        whole
    } else {
        whole + seq!['.'] + padded_digits(trimmed(r, p).0, trimmed(r, p).1)
    }
}

/// `m` nanoseconds, at least a minute, as minutes and seconds.
pub open spec fn minutes_text(m: nat) -> Seq<char> {
    decimal_digits(m / NANOS_PER_MINUTE as nat) + seq!['m'] + decimal_text(
        m % NANOS_PER_MINUTE as nat,
        9,
    ) + seq!['s']
}

/// The text of a magnitude of `m` nanoseconds, in the largest unit it reaches.
pub open spec fn magnitude_text(m: nat) -> Seq<char> {
    if m >= NANOS_PER_HOUR {
        decimal_digits(m / NANOS_PER_HOUR as nat) + seq!['h'] + minutes_text(
            m % NANOS_PER_HOUR as nat,
        )
    } else if m >= NANOS_PER_MINUTE {
        minutes_text(m)
    } else if m >= NANOS_PER_SECOND {
        decimal_text(m, 9) + seq!['s']
    } else if m >= NANOS_PER_MILLISECOND {
        decimal_text(m, 6) + seq!['m', 's']
    } else if m >= NANOS_PER_MICROSECOND {
        decimal_text(m, 3) + seq!['\u{00B5}', 's']
    } else if m > 0 {
        decimal_digits(m) + seq!['n', 's']
    } else {
        seq!['0', 's']
    }
}

/// The canonical text of `n` nanoseconds: a `-` for a negative value, then the
/// magnitude.
pub open spec fn formatted(n: int) -> Seq<char> {
    if n < 0 {
        seq!['-'] + magnitude_text((-n) as nat)
    } else {
        magnitude_text(n as nat)
    }
}

fn digit_text(d: u64) -> (t: &'static str)
    requires
        d <= 9,
    ensures
        t@ == seq![digit_char(d as nat)],
{
    proof {
        reveal_strlit("0");
        reveal_strlit("1");
        reveal_strlit("2");
        reveal_strlit("3");
        reveal_strlit("4");
        reveal_strlit("5");
        reveal_strlit("6");
        reveal_strlit("7");
        reveal_strlit("8");
        reveal_strlit("9");
    }
    match d {
        0 => "0",
        1 => "1",
        2 => "2",
        3 => "3",
        4 => "4",
        5 => "5",
        6 => "6",
        7 => "7",
        8 => "8",
        _ => "9",
    }
}

fn push_digits(out: &mut String, n: u64)
    ensures
        final(out)@ == old(out)@ + decimal_digits(n as nat),
    decreases n,
{
    if n >= 10 {
        push_digits(out, n / 10);
    }
    out.append(digit_text(n % 10));
}

fn push_padded(out: &mut String, r: u64, p: u64)
    ensures
        final(out)@ == old(out)@ + padded_digits(r as nat, p as nat),
    decreases p,
{
    if p > 0 {
        push_padded(out, r / 10, p - 1);
        out.append(digit_text(r % 10));
    }
}

fn push_decimal(out: &mut String, n: u64, p: u64, unit: u64)
    requires
        unit == pow10(p as nat),
        p <= 9,
    ensures
        final(out)@ == old(out)@ + decimal_text(n as nat, p as nat),
{
    proof {
        lemma_pow10_positive(p as nat);
    }
    push_digits(out, n / unit);
    let r = n % unit;
    if r != 0 {
        proof {
            reveal_strlit(".");
        }
        out.append(".");
        let mut f = r;
        let mut q = p;
        while q > 0 && f % 10 == 0
            invariant
                trimmed(f as nat, q as nat) == trimmed(r as nat, p as nat),
            decreases q,
        {
            f = f / 10;
            q = q - 1;
        }
        push_padded(out, f, q);
    }
}

fn push_minutes(out: &mut String, m: u64)
    ensures
        final(out)@ == old(out)@ + minutes_text(m as nat),
{
    proof {
        reveal_strlit("m");
        reveal_strlit("s");
        lemma_pow10_values();
    }
    push_digits(out, m / NANOS_PER_MINUTE);
    out.append("m");
    push_decimal(out, m % NANOS_PER_MINUTE, 9, NANOS_PER_SECOND);
    out.append("s");
}

impl GoDuration {
    /// The canonical text of this duration, as Go's `time.Duration.String`
    /// writes it: `1h30m0s`, `1.5s`, `999.999µs`, `-1ns`, `0s`.
    pub fn to_string(&self) -> (r: String)
        ensures
            r@ == formatted(self.0 as int),
    {
        proof {
            reveal_strlit("-");
            reveal_strlit("h");
            reveal_strlit("s");
            reveal_strlit("ms");
            reveal_strlit("\u{00B5}s");
            reveal_strlit("ns");
            reveal_strlit("0s");
            lemma_pow10_values();
        }
        let mut out = String::new();
        let m: u64 = if self.0 < 0 {
            out.append("-");
            if self.0 == i64::MIN {
                0x8000_0000_0000_0000
            } else {
                (-self.0) as u64
            }
        } else {
            self.0 as u64
        };
        let ghost sign = out@;
        if m >= NANOS_PER_HOUR {
            push_digits(&mut out, m / NANOS_PER_HOUR);
            out.append("h");
            push_minutes(&mut out, m % NANOS_PER_HOUR);
        } else if m >= NANOS_PER_MINUTE {
            push_minutes(&mut out, m);
        } else if m >= NANOS_PER_SECOND {
            push_decimal(&mut out, m, 9, NANOS_PER_SECOND);
            out.append("s");
        } else if m >= NANOS_PER_MILLISECOND {
            push_decimal(&mut out, m, 6, NANOS_PER_MILLISECOND);
            out.append("ms");
        } else if m >= NANOS_PER_MICROSECOND {
            push_decimal(&mut out, m, 3, NANOS_PER_MICROSECOND);
            out.append("\u{00B5}s");
        } else if m > 0 {
            push_digits(&mut out, m);
            out.append("ns");
        } else {
            out.append("0s");
        }
        assert(out@ =~= sign + magnitude_text(m as nat));
        out
    }
}

} // verus!
