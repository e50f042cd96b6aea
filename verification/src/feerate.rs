//! Feerates, held as the bit pattern of a non-negative IEEE 754 double.
//!
//! A feerate is a quotient of two integers rounded to the nearest double, ties
//! to even. The rounding is carried out here on integers, so that what a
//! feerate is can be stated and compared exactly.
use vstd::arithmetic::power2::{
    lemma2_to64, lemma2_to64_rest, lemma_pow2_adds, lemma_pow2_pos, lemma_pow2_strictly_increases,
    lemma_pow2_unfold, pow2,
};
use vstd::prelude::*;

verus! {

/// Weight of the lowest exponent bit in the pattern of a double.
pub const EXPONENT_UNIT: u64 = 0x10_0000_0000_0000;

/// Pattern of positive infinity: the finite non-negative doubles lie below it.
pub const INFINITY_BITS: u64 = 0x7ff0_0000_0000_0000;

/// `n / d` rounded to the nearest integer, a tie going to the even one.
pub open spec fn nearest_even(n: nat, d: nat) -> nat
    recommends
        d > 0,
{
    let floor = n / d;
    let rest = n % d;
    if 2 * rest < d || (2 * rest == d && floor % 2 == 0) {
        floor
    } else {
        floor + 1
    }
}

/// How often `d` can be doubled and still not exceed `n`.
pub open spec fn halvings(n: nat, d: nat) -> nat
    decreases n - d,
{
    if d == 0 || n < 2 * d {
        0
    } else {
        1 + halvings(n, 2 * d)
    }
}

/// How often `n` has to be doubled to reach `d`.
pub open spec fn doublings(n: nat, d: nat) -> nat
    decreases
        if n < d {
            d - n
        } else {
            0
        },
{
    if n == 0 || n >= d {
        0
    } else {
        1 + doublings(2 * n, d)
    }
}

/// The exponent of the greatest power of two that is at most `n / d`.
pub open spec fn magnitude(n: nat, d: nat) -> int {
    if n >= d {
        halvings(n, d) as int
    } else {
        -(doublings(n, d) as int)
    }
}

/// `n / d` in units of two to the power `e`, rounded to the nearest integer.
pub open spec fn nearest_multiple(n: nat, d: nat, e: int) -> nat {
    if e >= 0 {
        nearest_even(n, d * pow2(e as nat))
    } else {
        nearest_even(n * pow2((-e) as nat), d)
    }
}

/// The pattern of the double nearest to `n / d`. Its significand has 53 bits,
/// so it is a multiple of two to the power `magnitude - 52`.
pub open spec fn nearest_double(n: nat, d: nat) -> int {
    if n == 0 {
        0
    } else {
        let e = magnitude(n, d) - 52;
        (e + 1075) * EXPONENT_UNIT + (nearest_multiple(n, d, e) - EXPONENT_UNIT)
    }
}

/// The integer that `x` becomes when it is converted to a double.
pub open spec fn as_double(x: nat) -> nat {
    if x < 2 * EXPONENT_UNIT {
        x
    } else {
        let unit = pow2((magnitude(x, 1) - 52) as nat);
        nearest_even(x, unit) * unit
    }
}

/// A non-negative number as an IEEE 754 double, by its bit pattern. Finite
/// patterns are ordered as the numbers that they stand for.
#[derive(Clone, Copy, Debug, PartialEq, Eq, Structural)]
pub struct FeeRate {
    pub bits: u64,
}

impl FeeRate {
    /// The pattern is that of a non-negative finite number.
    pub open spec fn wf(self) -> bool {
        self.bits < INFINITY_BITS
    }

    /// The feerate of `fee` satoshis for `vsize` virtual bytes.
    pub open spec fn of(fee: nat, vsize: nat) -> int {
        nearest_double(as_double(fee), as_double(vsize))
    }

    /// The feerate of `fee` satoshis for `weight` quarters of a virtual byte.
    pub open spec fn of_weight(fee: nat, weight: nat) -> int {
        nearest_double(4 * as_double(fee), as_double(weight))
    }

    /// Divides `fee` by `vsize` as doubles.
    pub fn new(fee: u64, vsize: u64) -> (r: FeeRate)
        requires
            vsize > 0,
        ensures
            r.wf(),
            r.bits == FeeRate::of(fee as nat, vsize as nat),
    {
        let numerator: u128 = to_double(fee);
        let denominator: u128 = to_double(vsize);
        FeeRate { bits: round_quotient(numerator, denominator) }
    }

    /// Divides `fee` by a quarter of `weight` as doubles.
    pub fn from_weight(fee: u64, weight: u64) -> (r: FeeRate)
        requires
            weight > 0,
        ensures
            r.wf(),
            r.bits == FeeRate::of_weight(fee as nat, weight as nat),
    {
        let numerator: u128 = to_double(fee);
        let denominator: u128 = to_double(weight);
        FeeRate { bits: round_quotient(4 * numerator, denominator) }
    }
}

/// The virtual size of a transaction: a quarter of its weight, taken as a double
/// and rounded up.
pub fn vsize_of_weight(weight: u64) -> (vsize: u64)
    ensures
        vsize == (as_double(weight as nat) + 3) / 4,
        weight > 0 ==> vsize > 0,
{
    let quarters: u128 = to_double(weight);
    ((quarters + 3) / 4) as u64
}

/// Characterises `halvings` by the powers of two around `n / d`.
proof fn lemma_halvings(n: nat, d: nat, k: nat)
    requires
        d > 0,
        d * pow2(k) <= n < d * pow2(k + 1),
    ensures
        halvings(n, d) == k,
    decreases k,
{
    lemma_pow2_unfold(k + 1);
    lemma_pow2_pos(k);
    if k == 0 {
        lemma2_to64();
    } else {
        lemma_pow2_unfold(k);
        let half = pow2((k - 1) as nat);
        lemma_pow2_pos((k - 1) as nat);
        assert(d * pow2(k) == (2 * d) * half && d * pow2(k + 1) == (2 * d) * pow2(k)
            && 2 * d <= (2 * d) * half) by (nonlinear_arith)
            requires
                pow2(k) == 2 * half,
                pow2(k + 1) == 2 * pow2(k),
                half >= 1,
                d > 0,
        ;
        lemma_halvings(n, 2 * d, (k - 1) as nat);
    }
}

/// Characterises `doublings` by the powers of two around `d / n`.
proof fn lemma_doublings(n: nat, d: nat, k: nat)
    requires
        d > 0,
        d <= n * pow2(k) < 2 * d,
    ensures
        doublings(n, d) == k,
    decreases k,
{
    if k == 0 {
        lemma2_to64();
        assert(n * pow2(0) == n) by (nonlinear_arith)
            requires
                pow2(0) == 1,
        ;
    } else {
        lemma_pow2_unfold(k);
        let half = pow2((k - 1) as nat);
        lemma_pow2_pos((k - 1) as nat);
        assert(n * pow2(k) == (2 * n) * half && 2 * n <= (2 * n) * half) by (nonlinear_arith)
            requires
                pow2(k) == 2 * half,
                half >= 1,
        ;
        assert(n > 0) by (nonlinear_arith)
            requires
                0 < d <= n * pow2(k),
        ;
        lemma_doublings(2 * n, d, (k - 1) as nat);
    }
}

/// Rounds an integer quotient, a tie going to the even neighbour.
fn divide_nearest_even(n: u128, d: u128) -> (r: u128)
    requires
        0 < d <= 0x8000_0000_0000_0000_0000_0000_0000_0000,
        d > 1 || n < u128::MAX,
    ensures
        r == nearest_even(n as nat, d as nat),
        n / d <= r <= n / d + 1,
{
    let floor: u128 = n / d;
    let rest: u128 = n % d;
    let tail: u128 = d - rest;
    proof {
        let (a, b) = (n as int, d as int);
        assert(a % b >= 0 && a % b < b && (b > 1 ==> a / b < a || a == 0) && a / b <= a)
            by (nonlinear_arith)
            requires
                a >= 0,
                b > 0,
        ;
    }
    if rest < tail || (rest == tail && floor % 2 == 0) {
        floor
    } else {
        floor + 1
    }
}

/// Converts an integer to the double nearest to it, which is an integer again.
fn to_double(x: u64) -> (r: u128)
    ensures
        r == as_double(x as nat),
        r <= 0x1_0000_0000_0000_0000,
        x > 0 ==> r > 0,
{
    if x < 2 * EXPONENT_UNIT {
        return x as u128;
    }
    let mut unit: u128 = 1;
    let ghost mut k: nat = 0;
    proof {
        lemma2_to64();
    }
    while 0x20_0000_0000_0000 * unit <= x as u128
        invariant
            unit == pow2(k),
            1 <= unit,
            0x10_0000_0000_0000 * unit <= x,
        decreases x - unit,
    {
        proof {
            lemma_pow2_unfold(k + 1);
            k = k + 1;
        }
        unit = 2 * unit;
    }
    proof {
        lemma2_to64();
        lemma2_to64_rest();
        lemma_pow2_adds(k, 52);
        lemma_pow2_adds(k, 53);
        lemma_halvings(x as nat, 1, k + 52);
        if k > 11 {
            lemma_pow2_strictly_increases(11, k);
            lemma_pow2_unfold(k);
            if k > 12 {
                lemma_pow2_strictly_increases(12, k);
            }
        } else if k < 11 {
            lemma_pow2_strictly_increases(k, 11);
        }
    }
    let significand: u128 = divide_nearest_even(x as u128, unit);
    proof {
        let (a, b) = (x as int, unit as int);
        lemma_quotient_range(a, b);
        assert(significand * unit >= 1 && significand * unit <= 0x20_0000_0000_0000 * unit)
            by (nonlinear_arith)
            requires
                b > 0,
                b == unit,
                0x10_0000_0000_0000 <= significand <= 0x20_0000_0000_0000,
        ;
        assert(unit <= 0x800);
    }
    significand * unit
}

/// A quotient whose operands are 52 to 53 binary places apart has 53 bits.
proof fn lemma_quotient_range(a: int, b: int)
    requires
        0 < b,
        0x10_0000_0000_0000 * b <= a < 0x20_0000_0000_0000 * b,
    ensures
        0x10_0000_0000_0000 <= a / b < 0x20_0000_0000_0000,
{
    assert(0x10_0000_0000_0000 <= a / b < 0x20_0000_0000_0000) by (nonlinear_arith)
        requires
            0 < b,
            0x10_0000_0000_0000 * b <= a < 0x20_0000_0000_0000 * b,
    ;
}

/// Rounds `n / d` to the nearest double and returns its pattern.
fn round_quotient(n: u128, d: u128) -> (bits: u64)
    requires
        0 < d <= 0x1_0000_0000_0000_0000,
        n <= 0x4_0000_0000_0000_0000,
    ensures
        bits == nearest_double(n as nat, d as nat),
        bits < INFINITY_BITS,
{
    if n == 0 {
        return 0;
    }
    let mut num: u128 = n;
    let mut den: u128 = d;
    let mut exponent: i64 = 0;
    let ghost mut up: nat = 0;
    let ghost mut down: nat = 0;
    proof {
        lemma2_to64();
        lemma2_to64_rest();
        assert(d * pow2(0) == d && n * pow2(0) == n) by (nonlinear_arith)
            requires
                pow2(0) == 1,
        ;
    }
    while 0x20_0000_0000_0000 * den <= num
        invariant
            num == n,
            n <= 0x4_0000_0000_0000_0000,
            0 < d,
            den == d * pow2(up),
            0 < den <= 0x1_0000_0000_0000_0000,
            exponent == up,
            up <= 14,
            den >= pow2(up),
            up > 0 ==> 0x10_0000_0000_0000 * den <= num,
        decreases num - den,
    {
        proof {
            lemma_pow2_unfold(up + 1);
            assert(d * pow2(up + 1) == 2 * (d * pow2(up))) by (nonlinear_arith)
                requires
                    pow2(up + 1) == 2 * pow2(up),
            ;
            lemma2_to64();
            up = up + 1;
        }
        den = 2 * den;
        exponent = exponent + 1;
    }
    while num < 0x10_0000_0000_0000 * den
        invariant
            up > 0 ==> 0x10_0000_0000_0000 * den <= num,
            up > 0 ==> down == 0,
            up <= 14,
            0 < n,
            num == n * pow2(down),
            0 < den <= 0x1_0000_0000_0000_0000,
            exponent == up - down,
            0 < num < 0x20_0000_0000_0000 * den,
            pow2(down) <= num,
            down <= 118,
        decreases 0x20_0000_0000_0000 * den - num,
    {
        proof {
            lemma_pow2_unfold(down + 1);
            assert(n * pow2(down + 1) == 2 * (n * pow2(down))) by (nonlinear_arith)
                requires
                    pow2(down + 1) == 2 * pow2(down),
            ;
            if down >= 117 {
                lemma2_to64();
                lemma2_to64_rest();
                lemma_pow2_adds(53, 64);
                if down > 117 {
                    lemma_pow2_strictly_increases(117, down);
                }
            }
            down = down + 1;
        }
        num = 2 * num;
        exponent = exponent - 1;
    }
    let significand: u128 = divide_nearest_even(num, den);
    proof {
        lemma_quotient_range(num as int, den as int);
        lemma_scaled_magnitude(n as nat, d as nat, up, down);
    }
    ((exponent + 1075) as u64) * EXPONENT_UNIT + (significand as u64 - EXPONENT_UNIT)
}

/// The powers of two by which a quotient was scaled to 53 bits give its magnitude.
proof fn lemma_scaled_magnitude(n: nat, d: nat, up: nat, down: nat)
    requires
        0 < d,
        0 < n,
        up == 0 || down == 0,
        0x10_0000_0000_0000 * (d * pow2(up)) <= n * pow2(down) < 0x20_0000_0000_0000 * (d * pow2(
            up,
        )),
    ensures
        magnitude(n, d) == 52 + up - down,
{
    lemma2_to64();
    lemma2_to64_rest();
    lemma_pow2_pos(up);
    lemma_pow2_pos(down);
    if down == 0 {
        lemma_pow2_adds(up, 52);
        lemma_pow2_adds(up, 53);
        assert(d * pow2(up + 52) == 0x10_0000_0000_0000 * (d * pow2(up)) && d * pow2(up + 53)
            == 0x20_0000_0000_0000 * (d * pow2(up)) && n * pow2(0) == n && d <= d * pow2(up))
            by (nonlinear_arith)
            requires
                pow2(0) == 1,
                pow2(up) >= 1,
                pow2(up + 52) == pow2(up) * 0x10_0000_0000_0000,
                pow2(up + 53) == pow2(up) * 0x20_0000_0000_0000,
        ;
        lemma_halvings(n, d, up + 52);
    } else if down <= 52 {
        let k = (52 - down) as nat;
        lemma_pow2_adds(k, down);
        lemma_pow2_adds(k + 1, down);
        lemma_pow2_pos(k);
        assert(d * pow2(k) <= n < d * pow2(k + 1) && d <= n) by (nonlinear_arith)
            requires
                pow2(0) == 1,
                pow2(down) >= 1,
                pow2(k) >= 1,
                0x10_0000_0000_0000 * (d * pow2(0)) <= n * pow2(down) < 0x20_0000_0000_0000 * (d
                    * pow2(0)),
                pow2(k) * pow2(down) == 0x10_0000_0000_0000,
                pow2(k + 1) * pow2(down) == 0x20_0000_0000_0000,
        ;
        lemma_halvings(n, d, k);
    } else {
        let k = (down - 52) as nat;
        lemma_pow2_adds(k, 52);
        assert(d <= n * pow2(k) < 2 * d) by (nonlinear_arith)
            requires
                pow2(0) == 1,
                0x10_0000_0000_0000 * (d * pow2(0)) <= n * pow2(down) < 0x20_0000_0000_0000 * (d
                    * pow2(0)),
                pow2(down) == pow2(k) * 0x10_0000_0000_0000,
        ;
        lemma_doublings(n, d, k);
        lemma_pow2_pos(k);
        lemma_pow2_unfold(k);
        lemma_pow2_pos((k - 1) as nat);
        assert(2 * n <= n * pow2(k)) by (nonlinear_arith)
            requires
                pow2(k) >= 2,
        ;
    }
}

} // verus!
