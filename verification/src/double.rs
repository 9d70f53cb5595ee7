//! Positive double-precision numbers, reckoned in integers.
//!
//! The script that keeps shared buckets counts in double precision, and a wait
//! that is reported for such a bucket has to round where the bucket rounds. This
//! module states and computes the two roundings that a wait goes through: that of
//! an integer and that of a quotient. Both are to the nearest double, and to the
//! even one of two equally near. Nothing here comes near the ends of the exponent
//! range.

use vstd::arithmetic::power2::{
    lemma2_to64, lemma2_to64_rest, lemma_pow2_pos, lemma_pow2_strictly_increases,
    lemma_pow2_unfold, pow2,
};
use vstd::prelude::*;

verus! {

/// Two to the fifty-second: the least significand of a double.
pub const SIGNIFICAND: u64 = 4_503_599_627_370_496;

/// The number `mant * 2^exp`.
pub struct Binary {
    pub mant: nat,
    pub exp: int,
}

impl Binary {
    /// The significand has fifty-three bits.
    pub open spec fn normal(self) -> bool {
        SIGNIFICAND <= self.mant < 2 * SIGNIFICAND
    }
}

/// How many binary digits a number has.
pub open spec fn bits(n: nat) -> nat
    decreases n,
{
    if n == 0 {
        0
    } else {
        1 + bits(n / 2)
    }
}

/// The integer nearest to `n / d`, the even one of two.
pub open spec fn round_half_even(n: nat, d: nat) -> nat {
    let quotient = n / d;
    let remainder = n % d;
    if 2 * remainder < d || (2 * remainder == d && quotient % 2 == 0) {
        quotient
    } else {
        quotient + 1
    }
}

/// The double nearest to an integer.
pub open spec fn nearest(n: nat) -> Binary {
    let shift = bits(n) - 53;
    if shift <= 0 {
        Binary { mant: n * pow2((-shift) as nat), exp: shift }
    } else {
        let mant = round_half_even(n, pow2(shift as nat));
        if mant == 2 * SIGNIFICAND {
            Binary { mant: SIGNIFICAND as nat, exp: shift + 1 }
        } else {
            Binary { mant, exp: shift }
        }
    }
}

/// The double nearest to the quotient of two doubles.
pub open spec fn quotient(x: Binary, y: Binary) -> Binary {
    if x.mant >= y.mant {
        Binary {
            mant: round_half_even(x.mant * SIGNIFICAND as nat, y.mant),
            exp: x.exp - y.exp - 52,
        }
    } else {
        Binary {
            mant: round_half_even(x.mant * (2 * SIGNIFICAND) as nat, y.mant),
            exp: x.exp - y.exp - 53,
        }
    }
}

/// The least integer not below a double.
pub open spec fn ceiling(x: Binary) -> nat {
    if x.exp >= 0 {
        x.mant * pow2(x.exp as nat)
    } else {
        let unit = pow2((-x.exp) as nat);
        ((x.mant + unit - 1) / (unit as int)) as nat
    }
}

/// A positive double: `mant * 2^exp`.
#[derive(Debug, Clone, Copy, PartialEq, Eq, Structural)]
pub struct Double {
    pub mant: u64,
    pub exp: i32,
}

impl View for Double {
    type V = Binary;

    open spec fn view(&self) -> Binary {
        Binary { mant: self.mant as nat, exp: self.exp as int }
    }
}

/// A number lies between the powers of two that its digits tell.
pub proof fn lemma_bits(n: nat)
    requires
        n > 0,
    ensures
        bits(n) >= 1,
        pow2((bits(n) - 1) as nat) <= n < pow2(bits(n)),
    decreases n,
{
    lemma_pow2_unfold(bits(n));
    if n == 1 {
        assert(bits(0) == 0);
        assert(bits(1) == 1);
        lemma2_to64();
    } else {
        lemma_bits(n / 2);
        lemma_pow2_unfold((bits(n) - 1) as nat);
    }
}

/// A sixty-four bit number has no more than sixty-four digits.
proof fn lemma_bits_of_u64(n: u64)
    ensures
        bits(n as nat) <= 64,
{
    if n > 0 {
        lemma_bits(n as nat);
        lemma2_to64_rest();
        lemma2_to64();
        if bits(n as nat) > 64 {
            if bits(n as nat) - 1 > 64 {
                lemma_pow2_strictly_increases(64, (bits(n as nat) - 1) as nat);
            }
        }
    }
}

/// How far rounding moves a quotient.
pub proof fn lemma_round_half_even(n: nat, d: nat)
    requires
        d > 0,
    ensures
        2 * n - d <= 2 * (round_half_even(n, d) * d) <= 2 * n + d,
{
    vstd::arithmetic::div_mod::lemma_fundamental_div_mod(n as int, d as int);
    let q = n / d;
    assert((q + 1) * d == q * d + d) by (nonlinear_arith);
    assert(d * q == q * d) by (nonlinear_arith);
}

/// Rounding a quotient between two integers stays between them.
pub proof fn lemma_round_half_even_bounds(n: nat, d: nat, low: nat, high: nat)
    requires
        d > 0,
        low * d <= n <= high * d,
    ensures
        low <= round_half_even(n, d) <= high,
{
    vstd::arithmetic::div_mod::lemma_fundamental_div_mod(n as int, d as int);
    let q = n / d;
    let r = n % d;
    assert(low <= q && (q < high || (q == high && r == 0))) by (nonlinear_arith)
        requires
            d > 0,
            n == d * q + r,
            0 <= r < d,
            low * d <= n <= high * d,
    ;
}

/// The double nearest to a positive integer is normal.
pub proof fn lemma_nearest_normal(n: nat)
    requires
        n > 0,
    ensures
        nearest(n).normal(),
        bits(n) - 53 <= nearest(n).exp <= bits(n) - 52,
{
    lemma2_to64();
    lemma2_to64_rest();
    lemma_bits(n);
    let shift = bits(n) - 53;
    if shift <= 0 {
        let up = (-shift) as nat;
        vstd::arithmetic::power2::lemma_pow2_adds((bits(n) - 1) as nat, up);
        vstd::arithmetic::power2::lemma_pow2_adds(bits(n), up);
        lemma_pow2_pos(up);
        let low = pow2((bits(n) - 1) as nat);
        let high = pow2(bits(n));
        let unit = pow2(up);
        assert(low * unit <= n * unit < high * unit) by (nonlinear_arith)
            requires
                low <= n < high,
                unit > 0,
        ;
    } else {
        let unit = pow2(shift as nat);
        lemma_pow2_pos(shift as nat);
        vstd::arithmetic::power2::lemma_pow2_adds(52, shift as nat);
        vstd::arithmetic::power2::lemma_pow2_adds(53, shift as nat);
        lemma_round_half_even_bounds(n, unit, SIGNIFICAND as nat, (2 * SIGNIFICAND) as nat);
    }
}

/// An integer of up to fifty-three digits is a double.
pub proof fn lemma_nearest_exact(n: nat)
    requires
        0 < n < 2 * SIGNIFICAND,
    ensures
        nearest(n).exp <= 0,
        nearest(n).mant == n * pow2((-nearest(n).exp) as nat),
{
    lemma2_to64_rest();
    lemma_bits(n);
    if bits(n) > 53 {
        if bits(n) - 1 > 53 {
            lemma_pow2_strictly_increases(53, (bits(n) - 1) as nat);
        }
    }
}

/// The double nearest to an integer below two to the sixty-third, or equal to
/// that, is no larger than that.
pub proof fn lemma_nearest_bound(n: nat)
    requires
        0 < n <= 0x8000_0000_0000_0000,
    ensures
        ceiling(nearest(n)) <= 0x8000_0000_0000_0000,
{
    lemma2_to64();
    lemma2_to64_rest();
    lemma_bits(n);
    lemma_nearest_normal(n);
    let shift = bits(n) - 53;
    if shift <= 0 {
        if shift < 0 {
            let unit = pow2((-shift) as nat) as int;
            lemma_pow2_pos((-shift) as nat);
            vstd::arithmetic::div_mod::lemma_fundamental_div_mod_converse(
                n * unit + unit - 1,
                unit,
                n as int,
                unit - 1,
            );
        }
    } else {
        let unit = pow2(shift as nat);
        lemma_pow2_pos(shift as nat);
        if bits(n) > 64 {
            lemma_pow2_strictly_increases(63, (bits(n) - 1) as nat);
        }
        let most = pow2((63 - shift) as nat);
        vstd::arithmetic::power2::lemma_pow2_adds((63 - shift) as nat, shift as nat);
        lemma_round_half_even_bounds(n, unit, 0, most);
        let mant = round_half_even(n, unit);
        assert(mant * unit <= most * unit) by (nonlinear_arith)
            requires
                mant <= most,
                unit > 0,
        ;
        if mant == 2 * SIGNIFICAND {
            lemma_pow2_unfold((shift + 1) as nat);
            assert(SIGNIFICAND as nat * (2 * unit) == mant * unit) by (nonlinear_arith)
                requires
                    mant == 2 * SIGNIFICAND,
            ;
        }
    }
}

/// The quotient of two normal doubles is normal.
pub proof fn lemma_quotient_normal(x: Binary, y: Binary)
    requires
        x.normal(),
        y.normal(),
    ensures
        quotient(x, y).normal(),
        x.exp - y.exp - 53 <= quotient(x, y).exp <= x.exp - y.exp - 52,
{
    let least = SIGNIFICAND as nat;
    let most = (2 * SIGNIFICAND - 1) as nat;
    if x.mant >= y.mant {
        assert(least * y.mant <= x.mant * SIGNIFICAND as nat <= most * y.mant)
            by (nonlinear_arith)
            requires
                least == SIGNIFICAND,
                most == 2 * SIGNIFICAND - 1,
                y.mant <= x.mant <= most,
                y.mant >= SIGNIFICAND,
        ;
        lemma_round_half_even_bounds(x.mant * SIGNIFICAND as nat, y.mant, least, most);
    } else {
        assert(least * y.mant <= x.mant * (2 * SIGNIFICAND) as nat <= most * y.mant)
            by (nonlinear_arith)
            requires
                least == SIGNIFICAND,
                most == 2 * SIGNIFICAND - 1,
                SIGNIFICAND <= x.mant < y.mant <= most,
        ;
        lemma_round_half_even_bounds(x.mant * (2 * SIGNIFICAND) as nat, y.mant, least, most);
    }
}

/// A power of two.
fn power_of_two(k: u32) -> (power: u128)
    requires
        k <= 64,
    ensures
        power == pow2(k as nat),
{
    proof {
        lemma2_to64();
        lemma2_to64_rest();
    }
    let mut power: u128 = 1;
    let mut i: u32 = 0;
    while i < k
        invariant
            i <= k <= 64,
            power == pow2(i as nat),
            pow2(64) == 0x1_0000_0000_0000_0000,
        decreases k - i,
    {
        proof {
            lemma_pow2_unfold((i + 1) as nat);
            lemma_pow2_strictly_increases(i as nat, 64);
        }
        power = 2 * power;
        i += 1;
    }
    power
}

/// How many binary digits `n` has.
fn bit_length(n: u64) -> (length: u32)
    ensures
        length == bits(n as nat),
        length <= 64,
    decreases n,
{
    proof {
        lemma_bits_of_u64(n);
    }
    if n == 0 {
        0
    } else {
        proof {
            lemma_bits_of_u64(n / 2);
        }
        bit_length(n / 2) + 1
    }
}

/// The integer nearest to `n / d`, the even one of two.
fn round_quotient(n: u128, d: u128) -> (rounded: u128)
    requires
        0 < d <= u64::MAX + 1,
        n / d < u128::MAX,
    ensures
        rounded == round_half_even(n as nat, d as nat),
{
    let quotient: u128 = n / d;
    let remainder: u128 = n % d;
    if 2 * remainder < d || (2 * remainder == d && quotient % 2 == 0) {
        quotient
    } else {
        quotient + 1
    }
}

/// The double nearest to `n`, as the cast of an integer to a double gives it.
pub fn nearest_double(n: u64) -> (x: Double)
    requires
        n > 0,
    ensures
        x@ == nearest(n as nat),
        x@.normal(),
        -52 <= x.exp <= 12,
{
    proof {
        lemma_nearest_normal(n as nat);
        lemma_bits(n as nat);
        lemma2_to64();
        lemma2_to64_rest();
    }
    let length = bit_length(n);
    if length <= 53 {
        let up: u32 = 53 - length;
        let unit = power_of_two(up);
        proof {
            let value = nearest(n as nat);
            assert(value.mant == n as nat * unit as nat);
        }
        Double { mant: (n as u128 * unit) as u64, exp: -(up as i32) }
    } else {
        let down: u32 = length - 53;
        let unit = power_of_two(down);
        proof {
            lemma_pow2_strictly_increases(0, down as nat);
            assert(n as u128 / unit <= n) by (nonlinear_arith)
                requires
                    unit >= 1,
            ;
        }
        let mant: u128 = round_quotient(n as u128, unit);
        if mant == 2 * SIGNIFICAND as u128 {
            Double { mant: SIGNIFICAND, exp: down as i32 + 1 }
        } else {
            Double { mant: mant as u64, exp: down as i32 }
        }
    }
}

/// The double nearest to `x / y`, as the division of doubles gives it.
pub fn divide(x: Double, y: Double) -> (q: Double)
    requires
        x@.normal(),
        y@.normal(),
        -1000 <= x.exp <= 1000,
        -1000 <= y.exp <= 1000,
    ensures
        q@ == quotient(x@, y@),
        q@.normal(),
{
    proof {
        lemma_quotient_normal(x@, y@);
    }
    if x.mant >= y.mant {
        let dividend: u128 = x.mant as u128 * SIGNIFICAND as u128;
        Double {
            mant: round_quotient(dividend, y.mant as u128) as u64,
            exp: x.exp - y.exp - 52,
        }
    } else {
        let double: u64 = 2 * SIGNIFICAND;
        assert(x.mant * double <= u64::MAX * u64::MAX) by (nonlinear_arith)
            requires
                x.mant <= u64::MAX,
                double <= u64::MAX,
        ;
        let dividend: u128 = x.mant as u128 * double as u128;
        Double {
            mant: round_quotient(dividend, y.mant as u128) as u64,
            exp: x.exp - y.exp - 53,
        }
    }
}

/// The least integer not below `x`, or the largest number where that is too
/// large, as the cast of a double to an integer gives it.
pub fn round_up(x: Double) -> (n: u64)
    requires
        x@.normal(),
        -1000 <= x.exp <= 1000,
    ensures
        n == if ceiling(x@) <= u64::MAX {
            ceiling(x@)
        } else {
            u64::MAX as nat
        },
        n >= 1,
{
    proof {
        lemma2_to64();
        lemma2_to64_rest();
    }
    if x.exp >= 12 {
        proof {
            let unit = pow2(x.exp as nat);
            if x.exp > 12 {
                lemma_pow2_strictly_increases(12, x.exp as nat);
            }
            assert(x.mant * unit > u64::MAX) by (nonlinear_arith)
                requires
                    x.mant >= 4_503_599_627_370_496,
                    unit >= 4096,
            ;
        }
        u64::MAX
    } else if x.exp >= 0 {
        let unit = power_of_two(x.exp as u32);
        proof {
            if x.exp < 11 {
                lemma_pow2_strictly_increases(x.exp as nat, 11);
            }
            lemma_pow2_pos(x.exp as nat);
            assert(1 <= x.mant * unit <= u64::MAX) by (nonlinear_arith)
                requires
                    1 <= x.mant < 9_007_199_254_740_992,
                    1 <= unit <= 2048,
            ;
        }
        (x.mant as u128 * unit) as u64
    } else if x.exp <= -53 {
        proof {
            let unit = pow2((-x.exp) as nat) as int;
            if x.exp < -53 {
                lemma_pow2_strictly_increases(53, (-x.exp) as nat);
            }
            vstd::arithmetic::div_mod::lemma_fundamental_div_mod_converse(
                x.mant + unit - 1,
                unit,
                1,
                x.mant - 1,
            );
        }
        1
    } else {
        let unit = power_of_two((-x.exp) as u32);
        proof {
            lemma_pow2_strictly_increases((-x.exp) as nat, 53);
            lemma_pow2_pos((-x.exp) as nat);
            assert(1 <= (x.mant + unit - 1) / (unit as int) <= x.mant + unit - 1)
                by (nonlinear_arith)
                requires
                    1 <= x.mant,
                    1 <= unit,
            ;
        }
        ((x.mant as u128 + unit - 1) / unit) as u64
    }
}

} // verus!
