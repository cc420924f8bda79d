//! Human-readable file sizes ("512 B", "1.5 KB", "3.0 GB").

use vstd::prelude::*;
use crate::text::{decimal, digit, digit_char, push_char, push_decimal};

verus! {

pub const KIB: u64 = 1024;
pub const MIB: u64 = 1048576;
pub const GIB: u64 = 1073741824;
/// 2^53: every integer below it is a double exactly.
pub const EXACT_DOUBLE_LIMIT: u64 = 9007199254740992;

/// `n / d` rounded to the nearest integer, a tie going to the even neighbour.
pub open spec fn round_half_even(n: nat, d: nat) -> nat {
    let q = n / d;
    let r = n % d;
    if 2 * r > d || (2 * r == d && q % 2 == 1) {
        q + 1
    } else {
        q
    }
}

/// The distance between neighbouring doubles at the magnitude of `b`:
/// 1 below 2^53, and twice as much for each further binary digit.
pub open spec fn double_spacing(b: nat) -> nat
    decreases b,
{
    if b < EXACT_DOUBLE_LIMIT {
        1
    } else {
        2 * double_spacing(b / 2)
    }
}

/// The double nearest to `b` (ties to even), which is what `b as f64` holds.
pub open spec fn nearest_double(b: nat) -> nat {
    round_half_even(b, double_spacing(b)) * double_spacing(b)
}

/// `value / unit` in tenths, rounded to the nearest tenth, a tie going to the even tenth.
pub open spec fn rounded_tenths(value: nat, unit: nat) -> nat {
    round_half_even(10 * value, unit)
}

/// A count of tenths shown with one decimal: "12.3" for 123.
pub open spec fn one_decimal(tenths: nat) -> Seq<char> {
    decimal(tenths / 10) + seq!['.', digit_char(tenths % 10)]
}

/// The text that `format_size` gives for `bytes`: whole bytes below 1 KiB, then
/// KB, MB or GB with one decimal. The GB figure is that of the double nearest to
/// `bytes`, divided by 2^30.
pub open spec fn size_text(bytes: nat) -> Seq<char> {
    if bytes < KIB {
        decimal(bytes) + seq![' ', 'B']
    } else if bytes < MIB {
        one_decimal(rounded_tenths(bytes, KIB as nat)) + seq![' ', 'K', 'B']
    } else if bytes < GIB {
        one_decimal(rounded_tenths(bytes, MIB as nat)) + seq![' ', 'M', 'B']
    } else {
        one_decimal(rounded_tenths(nearest_double(bytes), GIB as nat)) + seq![' ', 'G', 'B']
    }
}

fn rounded_quotient(n: u128, d: u128) -> (res: u128)
    requires
        d > 0,
        n / d < u128::MAX,
    ensures
        res == round_half_even(n as nat, d as nat),
{
    let q = n / d;
    let r = n % d;
    if r > d - r || (r == d - r && q % 2 == 1) {
        q + 1
    } else {
        q
    }
}

fn nearest_double_of(b: u64) -> (res: u128)
    ensures
        res == nearest_double(b as nat),
        res <= b + 4096,
{
    let mut m: u64 = 1;
    let mut t: u64 = b;
    while t >= EXACT_DOUBLE_LIMIT
        invariant
            1 <= m <= 4096,
            t == b / m,
            double_spacing(b as nat) == m * double_spacing(t as nat),
        decreases t,
    {
        proof {
            vstd::arithmetic::div_mod::lemma_div_denominator(b as int, m as int, 2);
            vstd::arithmetic::div_mod::lemma_fundamental_div_mod(b as int, m as int);
            assert(m * t <= b);
            assert(m * EXACT_DOUBLE_LIMIT <= m * t) by (nonlinear_arith)
                requires t >= EXACT_DOUBLE_LIMIT, m >= 1;
            assert(m < 2048);
            let ds = double_spacing((t / 2) as nat);
            assert(double_spacing(t as nat) == 2 * ds);
            assert(m * (2 * ds) == (m * 2) * ds) by (nonlinear_arith);
        }
        t = t / 2;
        m = m * 2;
    }
    assert(double_spacing(t as nat) == 1);
    assert(double_spacing(b as nat) == m) by (nonlinear_arith)
        requires double_spacing(b as nat) == m * double_spacing(t as nat), double_spacing(t as nat) == 1;
    let m128 = m as u128;
    let q = rounded_quotient(b as u128, m128);
    proof {
        vstd::arithmetic::div_mod::lemma_fundamental_div_mod(b as int, m as int);
        assert(q <= b / m + 1);
        assert(q * m <= (b / m + 1) * m) by (nonlinear_arith)
            requires q <= b / m + 1, m >= 1;
        assert((b / m + 1) * m == (b / m) * m + m) by (nonlinear_arith);
        assert((b / m) * m <= b);
        assert(nearest_double(b as nat) == q * m);
    }
    q * m128
}

/// Appends `tenths` with one decimal ("12.3" for 123).
fn push_one_decimal(out: &mut String, tenths: u128)
    ensures
        final(out)@ == old(out)@ + one_decimal(tenths as nat),
{
    let whole = tenths / 10;
    let frac = tenths % 10;
    push_decimal(out, whole);
    push_char(out, '.');
    let c = digit(frac);
    push_char(out, c);
}

/// Formats a byte count for display: "512 B", "1.5 KB", "20.0 MB", "3.2 GB".
pub fn format_size(bytes: u64) -> (res: String)
    ensures
        res@ == size_text(bytes as nat),
{
    let mut out = String::new();
    if bytes < KIB {
        push_decimal(&mut out, bytes as u128);
        push_char(&mut out, ' ');
        push_char(&mut out, 'B');
    } else if bytes < MIB {
        let tenths = rounded_quotient(bytes as u128 * 10, KIB as u128);
        push_one_decimal(&mut out, tenths);
        push_char(&mut out, ' ');
        push_char(&mut out, 'K');
        push_char(&mut out, 'B');
    } else if bytes < GIB {
        let tenths = rounded_quotient(bytes as u128 * 10, MIB as u128);
        push_one_decimal(&mut out, tenths);
        push_char(&mut out, ' ');
        push_char(&mut out, 'M');
        push_char(&mut out, 'B');
    } else {
        let v = nearest_double_of(bytes);
        let tenths = rounded_quotient(v * 10, GIB as u128);
        push_one_decimal(&mut out, tenths);
        push_char(&mut out, ' ');
        push_char(&mut out, 'G');
        push_char(&mut out, 'B');
    }
    assert(out@ == size_text(bytes as nat));
    out
}

} // verus!
