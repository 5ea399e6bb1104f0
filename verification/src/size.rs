//! Human-readable file sizes (`B`, `KB`, `MB`, `GB`), with the rounding of
//! Rust's fixed-precision float formatting carried out exactly on integers.
use vstd::prelude::*;
use crate::text::{decimal, digit_char, digit_text, push_decimal};

verus! {

/// `num / den` rounded to the nearest integer, ties to the even one.
pub open spec fn round_half_even(num: nat, den: nat) -> nat {
    let q = num / den;
    let r = num % den;
    if 2 * r > den {
        q + 1
    } else if 2 * r < den {
        q
    } else if q % 2 == 0 {
        q
    } else {
        q + 1
    }
}

/// Spacing of the double-precision floats around `n`: 1 below 2^53, and
/// doubling with each further binary digit of `n`.
pub open spec fn f64_unit(n: nat) -> nat
    decreases n,
{
    if n < 0x20_0000_0000_0000 {
        1
    } else {
        2 * f64_unit(n / 2)
    }
}

/// The value of the integer `n` converted to `f64`: `n` rounded to a multiple
/// of `f64_unit(n)`, ties to even.
pub open spec fn f64_value(n: nat) -> nat {
    round_half_even(n, f64_unit(n)) * f64_unit(n)
}

/// `n / 10` written with one decimal.
pub open spec fn fixed1(n: nat) -> Seq<char> {
    decimal(n / 10) + seq!['.', digit_char(n % 10)]
}

/// `n / 100` written with two decimals.
pub open spec fn fixed2(n: nat) -> Seq<char> {
    decimal(n / 100) + seq!['.', digit_char((n / 10) % 10), digit_char(n % 10)]
}

pub open spec fn kib() -> nat { 1024 }
pub open spec fn mib() -> nat { 1024 * 1024 }
pub open spec fn gib() -> nat { 1024 * 1024 * 1024 }

/// The text of a size of `b` bytes: whole bytes below 1 KiB, then KB and MB with
/// one decimal and GB with two, each rounded to nearest with ties to even.
pub open spec fn size_text(b: nat) -> Seq<char> {
    if b < kib() {
        decimal(b) + seq![' ', 'B']
    } else if b < mib() {
        fixed1(round_half_even(b * 10, kib())) + seq![' ', 'K', 'B']
    } else if b < gib() {
        fixed1(round_half_even(b * 10, mib())) + seq![' ', 'M', 'B']
    } else {
        fixed2(round_half_even(f64_value(b) * 100, gib())) + seq![' ', 'G', 'B']
    }
}

/// `num / den` rounded to nearest, ties to even.
pub fn round_half_even_u128(num: u128, den: u128) -> (r: u128)
    requires
        den > 0,
        num < u128::MAX,
    ensures
        r == round_half_even(num as nat, den as nat),
        r <= num / den + 1,
{
    let q = num / den;
    let rem = num % den;
    assert(q <= num) by (nonlinear_arith)
        requires
            q == num / den,
            den > 0,
    ;
    if rem > den - rem {
        q + 1
    } else if rem < den - rem {
        q
    } else if q % 2 == 0 {
        q
    } else {
        q + 1
    }
}

/// The value of `n as f64`, as an integer.
pub fn f64_value_u128(n: u64) -> (v: u128)
    ensures
        v == f64_value(n as nat),
        v <= 2 * (n as int) + 1,
{
    let mut m: u128 = n as u128;
    let mut unit: u128 = 1;
    while m >= 0x20_0000_0000_0000
        invariant
            f64_unit(n as nat) == unit * f64_unit(m as nat),
            unit * m <= n,
            1 <= unit,
            m >= 1 || unit == 1,
        decreases m,
    {
        let ghost old_m = m;
        let ghost old_unit = unit;
        assert(f64_unit(m as nat) == 2 * f64_unit((m / 2) as nat));
        m = m / 2;
        assert(unit * 2 <= n) by (nonlinear_arith)
            requires
                unit * old_m <= n,
                old_m >= 2,
        ;
        unit = unit * 2;
        assert(f64_unit(n as nat) == unit * f64_unit(m as nat)) by (nonlinear_arith)
            requires
                f64_unit(n as nat) == old_unit * f64_unit(old_m as nat),
                f64_unit(old_m as nat) == 2 * f64_unit(m as nat),
                unit == old_unit * 2,
        ;
        assert(unit * m <= n) by (nonlinear_arith)
            requires
                old_unit * old_m <= n,
                m == old_m / 2,
                unit == old_unit * 2,
        ;
    }
    assert(f64_unit(m as nat) == 1);
    assert(f64_unit(n as nat) == unit as nat) by (nonlinear_arith)
        requires
            f64_unit(n as nat) == unit * f64_unit(m as nat),
            f64_unit(m as nat) == 1,
    ;
    assert(unit == 1 || unit <= n) by (nonlinear_arith)
        requires
            unit * m <= n,
            m >= 1 || unit == 1,
    ;
    let q = round_half_even_u128(n as u128, unit);
    let ghost fl = (n as u128) / unit;
    assert(fl * unit <= n) by (nonlinear_arith)
        requires
            fl == (n as u128) / unit,
            unit >= 1,
    ;
    assert(q * unit <= 2 * (n as int) + 1) by (nonlinear_arith)
        requires
            q <= fl + 1,
            fl * unit <= n,
            unit == 1 || unit <= n,
    ;
    assert(f64_value(n as nat) == q * unit);
    q * unit
}

/// Appends `n / 10` with one decimal.
fn push_fixed1(out: &mut String, n: u128)
    ensures
        final(out)@ == old(out)@ + fixed1(n as nat),
{
    push_decimal(out, n / 10);
    proof { reveal_strlit("."); }
    out.append(".");
    out.append(digit_text((n % 10) as u64));
    assert(final(out)@ =~= old(out)@ + fixed1(n as nat));
}

/// Appends `n / 100` with two decimals.
fn push_fixed2(out: &mut String, n: u128)
    ensures
        final(out)@ == old(out)@ + fixed2(n as nat),
{
    push_decimal(out, n / 100);
    proof { reveal_strlit("."); }
    out.append(".");
    out.append(digit_text(((n / 10) % 10) as u64));
    out.append(digit_text((n % 10) as u64));
    assert(final(out)@ =~= old(out)@ + fixed2(n as nat));
}

/// Formats a size in bytes: `"512 B"`, `"1.5 KB"`, `"20.0 MB"`, `"1.25 GB"`.
pub fn format_size(bytes: u64) -> (s: String)
    ensures
        s@ == size_text(bytes as nat),
{
    let mut s = String::new();
    proof {
        reveal_strlit(" B");
        reveal_strlit(" KB");
        reveal_strlit(" MB");
        reveal_strlit(" GB");
    }
    if bytes < 1024 {
        push_decimal(&mut s, bytes as u128);
        s.append(" B");
    } else if bytes < 1024 * 1024 {
        let n = round_half_even_u128(bytes as u128 * 10, 1024);
        push_fixed1(&mut s, n);
        s.append(" KB");
    } else if bytes < 1024 * 1024 * 1024 {
        let n = round_half_even_u128(bytes as u128 * 10, 1024 * 1024);
        push_fixed1(&mut s, n);
        s.append(" MB");
    } else {
        let v = f64_value_u128(bytes);
        let n = round_half_even_u128(v * 100, 1024 * 1024 * 1024);
        push_fixed2(&mut s, n);
        s.append(" GB");
    }
    assert(s@ =~= size_text(bytes as nat));
    s
}

} // verus!
