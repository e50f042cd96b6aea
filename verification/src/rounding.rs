//! What feerates are as numbers: patterns are ordered as the numbers that they
//! stand for, a feerate is the nearest one to its quotient, and it grows with
//! the fee and falls with the size.
use crate::feerate::{
    as_double, doublings, halvings, magnitude, nearest_double, nearest_even, nearest_multiple,
    FeeRate, EXPONENT_UNIT,
};
use vstd::arithmetic::div_mod::{lemma_fundamental_div_mod, lemma_fundamental_div_mod_converse};
use vstd::arithmetic::power2::{
    lemma2_to64, lemma2_to64_rest, lemma_pow2_adds, lemma_pow2_pos, lemma_pow2_strictly_increases,
    lemma_pow2_unfold, pow2,
};
use vstd::prelude::*;

verus! {

/// The number that a pattern stands for, in units of two to the power -1074: the
/// low 52 bits are the fraction, those above them the exponent.
pub open spec fn scaled(bits: int) -> int {
    let exponent = bits / (EXPONENT_UNIT as int);
    let fraction = bits % (EXPONENT_UNIT as int);
    if exponent == 0 {
        fraction
    } else {
        (EXPONENT_UNIT + fraction) * pow2((exponent - 1) as nat)
    }
}

/// What a pattern with a given exponent and fraction stands for.
proof fn lemma_scaled(exponent: int, fraction: int)
    requires
        exponent > 0,
        0 <= fraction < 0x10_0000_0000_0000,
    ensures
        scaled(exponent * 0x10_0000_0000_0000 + fraction) == (0x10_0000_0000_0000 + fraction)
            * pow2((exponent - 1) as nat),
{
    let bits = exponent * 0x10_0000_0000_0000 + fraction;
    lemma_fundamental_div_mod_converse(bits, 0x10_0000_0000_0000, exponent, fraction);
}

/// The next pattern stands for a greater number.
proof fn lemma_next_pattern(bits: int)
    requires
        0 <= bits,
    ensures
        scaled(bits) < scaled(bits + 1),
{
    let unit: int = 0x10_0000_0000_0000;
    let exponent = bits / unit;
    let fraction = bits % unit;
    lemma_fundamental_div_mod(bits, unit);
    if fraction + 1 < unit {
        lemma_fundamental_div_mod_converse(bits + 1, unit, exponent, fraction + 1);
        if exponent > 0 {
            let p = pow2((exponent - 1) as nat);
            lemma_pow2_pos((exponent - 1) as nat);
            assert((unit + fraction) * p < (unit + fraction + 1) * p) by (nonlinear_arith)
                requires
                    p > 0,
            ;
        }
    } else {
        lemma_fundamental_div_mod_converse(bits + 1, unit, exponent + 1, 0);
        lemma2_to64();
        if exponent > 0 {
            let p = pow2((exponent - 1) as nat);
            lemma_pow2_pos((exponent - 1) as nat);
            lemma_pow2_unfold(exponent as nat);
            assert((unit + fraction) * p < unit * (2 * p)) by (nonlinear_arith)
                requires
                    p > 0,
                    fraction < unit,
            ;
        }
    }
}

/// Patterns are ordered as the numbers that they stand for.
pub proof fn lemma_pattern_order(a: int, b: int)
    requires
        0 <= a < b,
    ensures
        scaled(a) < scaled(b),
    decreases b - a,
{
    lemma_next_pattern(b - 1);
    if a < b - 1 {
        lemma_pattern_order(a, b - 1);
    }
}

/// A quotient is at least two to the power `a - b`.
spec fn reaches_power(n: nat, d: nat, a: nat, b: nat) -> bool {
    d * pow2(a) <= n * pow2(b)
}

/// Only the difference of the two exponents counts.
proof fn lemma_shift(n: nat, d: nat, a: nat, b: nat, c: nat)
    ensures
        reaches_power(n, d, a + c, b + c) == reaches_power(n, d, a, b),
{
    lemma_pow2_adds(a, c);
    lemma_pow2_adds(b, c);
    lemma_pow2_pos(c);
    let (x, y, p) = (d * pow2(a), n * pow2(b), pow2(c) as int);
    assert(d * (pow2(a) * p) == x * p && n * (pow2(b) * p) == y * p) by (nonlinear_arith)
        requires
            x == d * pow2(a),
            y == n * pow2(b),
    ;
    assert((x * p <= y * p) == (x <= y)) by (nonlinear_arith)
        requires
            p > 0,
    ;
}

/// Two ways to write the same power agree.
proof fn lemma_same_power(n: nat, d: nat, a: nat, b: nat, a2: nat, b2: nat)
    requires
        a - b == a2 - b2,
    ensures
        reaches_power(n, d, a, b) == reaches_power(n, d, a2, b2),
{
    if a <= a2 {
        lemma_shift(n, d, a, b, (a2 - a) as nat);
    } else {
        lemma_shift(n, d, a2, b2, (a - a2) as nat);
    }
}

/// A quotient that reaches a power reaches the lower ones.
proof fn lemma_lower_power(n: nat, d: nat, a: nat, b: nat, c: nat)
    requires
        reaches_power(n, d, a + c, b),
    ensures
        reaches_power(n, d, a, b),
{
    lemma_pow2_adds(a, c);
    lemma_pow2_pos(c);
    assert(d * pow2(a) <= d * (pow2(a) * pow2(c))) by (nonlinear_arith)
        requires
            pow2(c) >= 1,
    ;
}

/// A quotient that reaches a power is not less than another that does not.
proof fn lemma_greater_quotient(n1: nat, d1: nat, n2: nat, d2: nat, a: nat, b: nat)
    requires
        d1 > 0,
        n1 * d2 <= n2 * d1,
        reaches_power(n1, d1, a, b),
    ensures
        reaches_power(n2, d2, a, b),
{
    let (p, q) = (pow2(a) as int, pow2(b) as int);
    lemma_pow2_pos(b);
    assert(d2 * p <= n2 * q) by (nonlinear_arith)
        requires
            d1 > 0,
            q > 0,
            n1 * d2 <= n2 * d1,
            d1 * p <= n1 * q,
    {
        assert((d1 * p) * d2 <= (n1 * q) * d2);
        assert((n1 * q) * d2 == (n1 * d2) * q);
        assert((n1 * d2) * q <= (n2 * d1) * q);
        assert(d1 * (d2 * p) <= d1 * (n2 * q));
    }
}

/// How often a quotient can be halved and still reach one.
proof fn lemma_halvings_reach(n: nat, d: nat)
    requires
        0 < d <= n,
    ensures
        reaches_power(n, d, halvings(n, d), 0),
        !reaches_power(n, d, halvings(n, d) + 1, 0),
    decreases n - d,
{
    lemma2_to64();
    let h = halvings(n, d);
    assert(n * pow2(0) == n) by (nonlinear_arith)
        requires
            pow2(0) == 1,
    ;
    if n < 2 * d {
        assert(d * pow2(0) == d && d * pow2(1) == 2 * d) by (nonlinear_arith)
            requires
                pow2(0) == 1,
                pow2(1) == 2,
        ;
    } else {
        let k = halvings(n, 2 * d);
        lemma_halvings_reach(n, 2 * d);
        lemma_pow2_unfold(k + 1);
        lemma_pow2_unfold(k + 2);
        assert(d * pow2(k + 1) == (2 * d) * pow2(k) && d * pow2(k + 2) == (2 * d) * pow2(k + 1))
            by (nonlinear_arith)
            requires
                pow2(k + 1) == 2 * pow2(k),
                pow2(k + 2) == 2 * pow2(k + 1),
        ;
    }
}

/// How often a quotient has to be doubled to reach one.
proof fn lemma_doublings_reach(n: nat, d: nat)
    requires
        0 < n < d,
    ensures
        doublings(n, d) > 0,
        reaches_power(n, d, 0, doublings(n, d)),
        !reaches_power(n, d, 1, doublings(n, d)),
    decreases d - n,
{
    lemma2_to64();
    let k = doublings(2 * n, d);
    assert(d * pow2(0) == d && d * pow2(1) == 2 * d) by (nonlinear_arith)
        requires
            pow2(0) == 1,
            pow2(1) == 2,
    ;
    lemma_pow2_unfold(k + 1);
    assert(n * pow2(k + 1) == (2 * n) * pow2(k)) by (nonlinear_arith)
        requires
            pow2(k + 1) == 2 * pow2(k),
    ;
    if 2 * n < d {
        lemma_doublings_reach(2 * n, d);
    } else {
        assert((2 * n) * pow2(0) == 2 * n) by (nonlinear_arith)
            requires
                pow2(0) == 1,
        ;
    }
}

/// The part of an exponent above zero.
spec fn above(e: int) -> nat {
    if e >= 0 {
        e as nat
    } else {
        0
    }
}

/// The magnitude is the greatest power that a quotient reaches.
proof fn lemma_magnitude(n: nat, d: nat, a: nat, b: nat)
    requires
        n > 0,
        d > 0,
    ensures
        a - b == magnitude(n, d) ==> reaches_power(n, d, a, b),
        a - b == magnitude(n, d) + 1 ==> !reaches_power(n, d, a, b),
{
    if n >= d {
        let h = halvings(n, d);
        lemma_halvings_reach(n, d);
        if a - b == h {
            lemma_same_power(n, d, a, b, h, 0);
        }
        if a - b == h + 1 {
            lemma_same_power(n, d, a, b, h + 1, 0);
        }
    } else {
        let k = doublings(n, d);
        lemma_doublings_reach(n, d);
        if a - b == -k {
            lemma_same_power(n, d, a, b, 0, k);
        }
        if a - b == 1 - k {
            lemma_same_power(n, d, a, b, 1, k);
        }
    }
}

/// A greater quotient has no lower magnitude.
proof fn lemma_magnitude_grows(n1: nat, d1: nat, n2: nat, d2: nat)
    requires
        n1 > 0,
        n2 > 0,
        d1 > 0,
        d2 > 0,
        n1 * d2 <= n2 * d1,
    ensures
        magnitude(n1, d1) <= magnitude(n2, d2),
{
    let (m1, m2) = (magnitude(n1, d1), magnitude(n2, d2));
    if m1 > m2 {
        let (a, b) = (above(m1), above(-m1));
        lemma_magnitude(n1, d1, a, b);
        lemma_greater_quotient(n1, d1, n2, d2, a, b);
        let c = (m1 - m2 - 1) as nat;
        lemma_shift(n2, d2, a, b, c);
        lemma_lower_power(n2, d2, a, b + c, c);
        lemma_magnitude(n2, d2, a, b + c);
    }
}

/// Rounding keeps the order of quotients.
proof fn lemma_nearest_even_grows(n1: nat, d1: nat, n2: nat, d2: nat)
    requires
        d1 > 0,
        d2 > 0,
        n1 * d2 <= n2 * d1,
    ensures
        nearest_even(n1, d1) <= nearest_even(n2, d2),
{
    let (f1, r1) = ((n1 / d1) as int, (n1 % d1) as int);
    let (f2, r2) = ((n2 / d2) as int, (n2 % d2) as int);
    let (a1, b1, a2, b2) = (n1 as int, d1 as int, n2 as int, d2 as int);
    lemma_fundamental_div_mod(a1, b1);
    lemma_fundamental_div_mod(a2, b2);
    assert(f1 <= f2) by (nonlinear_arith)
        requires
            a1 == b1 * f1 + r1,
            a2 == b2 * f2 + r2,
            0 <= r1,
            0 <= r2 < b2,
            b1 > 0,
            a1 * b2 <= a2 * b1,
    {
        if f1 > f2 {
            assert(b1 * f1 >= b1 * (f2 + 1));
            assert(a1 * b2 >= (b1 * (f2 + 1)) * b2);
            assert(a2 * b1 < (b2 * f2 + b2) * b1);
            assert((b2 * f2 + b2) * b1 == (b1 * (f2 + 1)) * b2);
        }
    }
    if f1 == f2 {
        assert(r1 * b2 <= r2 * b1) by (nonlinear_arith)
            requires
                a1 == b1 * f1 + r1,
                a2 == b2 * f1 + r2,
                a1 * b2 <= a2 * b1,
        ;
        if 2 * r1 >= b1 {
            assert(2 * r2 >= b2 && (2 * r1 > b1 ==> 2 * r2 > b2)) by (nonlinear_arith)
                requires
                    b1 > 0,
                    b2 > 0,
                    2 * r1 >= b1,
                    r1 * b2 <= r2 * b1,
            ;
        }
    }
}

/// A quotient in units of two to the power `e`, as a quotient of integers.
spec fn in_units(n: nat, d: nat, e: int) -> (nat, nat) {
    (n * pow2(above(-e)), d * pow2(above(e)))
}

/// A quotient in units 52 below its magnitude has 53 bits, before and after
/// rounding.
proof fn lemma_significand(n: nat, d: nat)
    requires
        n > 0,
        d > 0,
    ensures
        ({
            let e = magnitude(n, d) - 52;
            let (a, b) = in_units(n, d, e);
            &&& b > 0
            &&& nearest_multiple(n, d, e) == nearest_even(a, b)
            &&& 0x10_0000_0000_0000 * b <= a < 0x20_0000_0000_0000 * b
            &&& 0x10_0000_0000_0000 <= nearest_even(a, b) <= 0x20_0000_0000_0000
        }),
{
    let e = magnitude(n, d) - 52;
    let (a, b) = in_units(n, d, e);
    let (up, down) = (above(e), above(-e));
    lemma2_to64();
    lemma2_to64_rest();
    lemma_pow2_pos(up);
    lemma_pow2_pos(down);
    assert(b > 0 && n * pow2(0) == n && d * pow2(0) == d) by (nonlinear_arith)
        requires
            d > 0,
            pow2(up) > 0,
            b == d * pow2(up),
            pow2(0) == 1,
    ;
    lemma_magnitude(n, d, up + 52, down);
    lemma_magnitude(n, d, up + 53, down);
    lemma_pow2_adds(up, 52);
    lemma_pow2_adds(up, 53);
    assert(d * pow2(up + 52) == 0x10_0000_0000_0000 * b && d * pow2(up + 53)
        == 0x20_0000_0000_0000 * b) by (nonlinear_arith)
        requires
            b == d * pow2(up),
            pow2(up + 52) == pow2(up) * 0x10_0000_0000_0000,
            pow2(up + 53) == pow2(up) * 0x20_0000_0000_0000,
    ;
    let (x, y) = (a as int, b as int);
    assert(0x10_0000_0000_0000 <= x / y < 0x20_0000_0000_0000) by (nonlinear_arith)
        requires
            0 < y,
            0x10_0000_0000_0000 * y <= x < 0x20_0000_0000_0000 * y,
    ;
}

/// Rounding to a double keeps the order of quotients.
proof fn lemma_nearest_double_grows(n1: nat, d1: nat, n2: nat, d2: nat)
    requires
        d1 > 0,
        d2 > 0,
        n1 * d2 <= n2 * d1,
        n1 > 0 ==> magnitude(n1, d1) >= -1022,
        n2 > 0 ==> magnitude(n2, d2) >= -1022,
    ensures
        nearest_double(n1, d1) <= nearest_double(n2, d2),
{
    if n2 == 0 {
        assert(n1 == 0) by (nonlinear_arith)
            requires
                n1 * d2 <= n2 * d1,
                n2 == 0,
                d2 > 0,
        ;
    } else if n1 == 0 {
        lemma_significand(n2, d2);
    } else {
        let (m1, m2) = (magnitude(n1, d1), magnitude(n2, d2));
        lemma_magnitude_grows(n1, d1, n2, d2);
        lemma_significand(n1, d1);
        lemma_significand(n2, d2);
        if m1 == m2 {
            let e = m1 - 52;
            let (a1, b1) = in_units(n1, d1, e);
            let (a2, b2) = in_units(n2, d2, e);
            let (p, q) = (pow2(above(-e)), pow2(above(e)));
            assert((n1 * p) * (d2 * q) <= (n2 * p) * (d1 * q)) by (nonlinear_arith)
                requires
                    n1 * d2 <= n2 * d1,
            {
                assert((n1 * p) * (d2 * q) == (n1 * d2) * (p * q));
                assert((n2 * p) * (d1 * q) == (n2 * d1) * (p * q));
                assert(p * q >= 0);
            }
            lemma_nearest_even_grows(a1, b1, a2, b2);
        }
    }
}

/// A quotient that reaches a power has at least that magnitude.
proof fn lemma_magnitude_at_least(n: nat, d: nat, a: nat, b: nat)
    requires
        n > 0,
        d > 0,
        reaches_power(n, d, a, b),
    ensures
        magnitude(n, d) >= a - b,
{
    let m = magnitude(n, d);
    if m < a - b {
        let c = (a - b - m - 1) as nat;
        lemma_shift(n, d, a, b, c);
        lemma_lower_power(n, d, a, b + c, c);
        lemma_magnitude(n, d, a, b + c);
    }
}

/// An integer of more than 53 bits becomes a double between the powers of two
/// around it.
proof fn lemma_large_as_double(x: nat)
    requires
        x >= 0x20_0000_0000_0000,
    ensures
        magnitude(x, 1) >= 53,
        pow2(magnitude(x, 1) as nat) <= as_double(x) <= pow2((magnitude(x, 1) + 1) as nat),
        pow2(magnitude(x, 1) as nat) <= x < pow2((magnitude(x, 1) + 1) as nat),
{
    let m = magnitude(x, 1);
    lemma2_to64();
    lemma2_to64_rest();
    assert(reaches_power(x, 1, 53, 0)) by (nonlinear_arith)
        requires
            reaches_power(x, 1, 53, 0) == (1 * pow2(53) <= x * pow2(0)),
            pow2(53) == 0x20_0000_0000_0000,
            pow2(0) == 1,
            x >= 0x20_0000_0000_0000,
    ;
    lemma_magnitude_at_least(x, 1, 53, 0);
    lemma_magnitude(x, 1, m as nat, 0);
    lemma_magnitude(x, 1, (m + 1) as nat, 0);
    let e = (m - 52) as nat;
    let unit = pow2(e);
    lemma_significand(x, 1);
    lemma_pow2_adds(e, 52);
    lemma_pow2_adds(e, 53);
    lemma_pow2_pos(e);
    let q = nearest_even(x, unit);
    assert(x * pow2(0) == x && 1 * unit == unit) by (nonlinear_arith)
        requires
            pow2(0) == 1,
    ;
    assert(unit * 0x10_0000_0000_0000 <= q * unit <= unit * 0x20_0000_0000_0000)
        by (nonlinear_arith)
        requires
            unit > 0,
            0x10_0000_0000_0000 <= q <= 0x20_0000_0000_0000,
    ;
}

/// Integers keep their order when they are converted to doubles.
proof fn lemma_as_double_grows(x: nat, y: nat)
    requires
        x <= y,
    ensures
        as_double(x) <= as_double(y),
{
    lemma2_to64();
    lemma2_to64_rest();
    if y >= 0x20_0000_0000_0000 {
        let m2 = magnitude(y, 1);
        lemma_large_as_double(y);
        if x < 0x20_0000_0000_0000 {
            if m2 > 53 {
                lemma_pow2_strictly_increases(53, m2 as nat);
            }
        } else {
            let m1 = magnitude(x, 1);
            lemma_large_as_double(x);
            lemma_magnitude_grows(x, 1, y, 1);
            if m1 == m2 {
                let unit = pow2((m1 - 52) as nat);
                lemma_pow2_pos((m1 - 52) as nat);
                assert(x * unit <= y * unit) by (nonlinear_arith)
                    requires
                        x <= y,
                ;
                lemma_nearest_even_grows(x, unit, y, unit);
                let (a, b) = (nearest_even(x, unit), nearest_even(y, unit));
                assert(a * unit <= b * unit) by (nonlinear_arith)
                    requires
                        a <= b,
                ;
            } else if m1 + 1 < m2 {
                lemma_pow2_strictly_increases((m1 + 1) as nat, m2 as nat);
            }
        }
    }
}

/// A 64-bit integer that is not zero becomes a double of at least one and at most
/// two to the power 64.
proof fn lemma_as_double_bounds(x: u64)
    requires
        x > 0,
    ensures
        1 <= as_double(x as nat) <= pow2(64),
{
    lemma2_to64();
    lemma2_to64_rest();
    lemma_as_double_grows(1, x as nat);
    if x >= 0x20_0000_0000_0000 {
        let m = magnitude(x as nat, 1);
        lemma_large_as_double(x as nat);
        if m >= 64 {
            if m > 64 {
                lemma_pow2_strictly_increases(64, m as nat);
            }
        } else if m + 1 < 64 {
            lemma_pow2_strictly_increases((m + 1) as nat, 64);
        }
    }
}

/// A quotient of such doubles is far above the least double.
proof fn lemma_feerate_magnitude(fee: u64, vsize: u64)
    requires
        fee > 0,
        vsize > 0,
    ensures
        magnitude(as_double(fee as nat), as_double(vsize as nat)) >= -64,
{
    let (n, d) = (as_double(fee as nat), as_double(vsize as nat));
    lemma_as_double_bounds(fee);
    lemma_as_double_bounds(vsize);
    lemma2_to64();
    lemma2_to64_rest();
    assert(d * pow2(0) <= n * pow2(64)) by (nonlinear_arith)
        requires
            pow2(0) == 1,
            d <= pow2(64),
            n >= 1,
    ;
    lemma_magnitude_at_least(n, d, 0, 64);
}

/// A feerate does not fall when the fee grows or the size shrinks.
pub proof fn lemma_feerate_grows(fee1: u64, vsize1: u64, fee2: u64, vsize2: u64)
    requires
        fee1 <= fee2,
        0 < vsize2 <= vsize1,
    ensures
        FeeRate::of(fee1 as nat, vsize1 as nat) <= FeeRate::of(fee2 as nat, vsize2 as nat),
{
    let (n1, d1) = (as_double(fee1 as nat), as_double(vsize1 as nat));
    let (n2, d2) = (as_double(fee2 as nat), as_double(vsize2 as nat));
    lemma_as_double_grows(fee1 as nat, fee2 as nat);
    lemma_as_double_grows(vsize2 as nat, vsize1 as nat);
    lemma_as_double_bounds(vsize1);
    lemma_as_double_bounds(vsize2);
    assert(n1 * d2 <= n2 * d1) by (nonlinear_arith)
        requires
            n1 <= n2,
            d2 <= d1,
    ;
    if fee1 > 0 {
        lemma_feerate_magnitude(fee1, vsize1);
    }
    if fee2 > 0 {
        lemma_feerate_magnitude(fee2, vsize2);
    }
    lemma_nearest_double_grows(n1, d1, n2, d2);
}

/// How far the number that a pattern stands for is from `n / d`, in units of two
/// to the power -1074, times `d`.
pub open spec fn distance(n: nat, d: nat, bits: int) -> int {
    let difference = scaled(bits) * d - n * pow2(1074);
    if difference < 0 {
        -difference
    } else {
        difference
    }
}

/// Rounding to an integer gives the nearest one.
proof fn lemma_nearest_even(n: nat, d: nat, k: int)
    requires
        d > 0,
    ensures
        ({
            let q = nearest_even(n, d);
            let (x, y) = (q * d - n, k * d - n);
            (if x < 0 {
                -x
            } else {
                x
            }) <= (if y < 0 {
                -y
            } else {
                y
            })
        }),
{
    let (a, b) = (n as int, d as int);
    let (f, r) = (a / b, a % b);
    lemma_fundamental_div_mod(a, b);
    assert(f * b == b * f && (f + 1) * b == b * f + b) by (nonlinear_arith);
    assert(k <= f ==> k * b <= f * b) by (nonlinear_arith)
        requires
            b > 0,
    ;
    assert(k >= f + 1 ==> k * b >= (f + 1) * b) by (nonlinear_arith)
        requires
            b > 0,
    ;
}

/// Distances scale.
proof fn lemma_scaled_distance(x: int, y: int, c: int)
    requires
        c > 0,
        (if x < 0 {
            -x
        } else {
            x
        }) <= (if y < 0 {
            -y
        } else {
            y
        }),
    ensures
        (if x * c < 0 {
            -(x * c)
        } else {
            x * c
        }) <= (if y * c < 0 {
            -(y * c)
        } else {
            y * c
        }),
{
    let a = if x < 0 {
        -x
    } else {
        x
    };
    let b = if y < 0 {
        -y
    } else {
        y
    };
    assert(a * c <= b * c && (x < 0 ==> x * c < 0) && (x >= 0 ==> x * c >= 0) && (y < 0 ==> y * c
        < 0) && (y >= 0 ==> y * c >= 0) && (-x) * c == -(x * c) && (-y) * c == -(y * c))
        by (nonlinear_arith)
        requires
            c > 0,
            a <= b,
    ;
}

/// How far `k` units are from a quotient, with the factor that both sides carry.
proof fn lemma_units_scaled(k: int, unit: int, d: int, a: int, b: int, c: int)
    requires
        unit * d == b * c,
    ensures
        (k * unit) * d - a * c == (k * b - a) * c,
{
    assert((k * unit) * d - a * c == (k * b - a) * c) by (nonlinear_arith)
        requires
            unit * d == b * c,
    {
        assert((k * unit) * d == k * (unit * d));
        assert(k * (b * c) == (k * b) * c);
    }
}

/// No pattern stands for a number nearer to `n / d` than the one that it is
/// rounded to.
#[verifier::spinoff_prover]
#[verifier::rlimit(30)]
proof fn lemma_nearest_double(n: nat, d: nat, other: int)
    requires
        n > 0,
        d > 0,
        magnitude(n, d) >= -1022,
        other >= 0,
    ensures
        distance(n, d, nearest_double(n, d)) <= distance(n, d, other),
{
    let e = magnitude(n, d) - 52;
    let (a, b) = in_units(n, d, e);
    let q = nearest_even(a, b);
    let base: int = 0x10_0000_0000_0000;
    let top = (e + 1074) as nat;
    let unit = pow2(top);
    let c = pow2((1074 - above(-e)) as nat);
    lemma_significand(n, d);
    lemma_pow2_pos(top);
    lemma_pow2_pos((1074 - above(-e)) as nat);
    // The number nearest_double stands for is q units.
    let r = nearest_double(n, d);
    assert(scaled(r) == q * unit) by {
        if q < 2 * base {
            lemma_scaled(e + 1075, q - base);
        } else {
            lemma_scaled(e + 1076, 0);
            lemma_pow2_unfold((e + 1075) as nat);
            assert(base * (2 * unit) == (2 * base) * unit) by (nonlinear_arith);
            assert((e + 1075) * base + base == (e + 1076) * base) by (nonlinear_arith);
        }
    }
    // In terms of the scaled quotient, both sides carry the factor c.
    assert(n * pow2(1074) == a * c) by {
        lemma_pow2_adds(above(-e), (1074 - above(-e)) as nat);
        let (x, y) = (pow2(above(-e)), c);
        assert(n * (x * y) == (n * x) * y) by (nonlinear_arith);
    }
    assert(unit * d == b * c) by {
        lemma_pow2_adds(above(e), (1074 - above(-e)) as nat);
        let (x, y) = (pow2(above(e)), c);
        assert((x * y) * d == (d * x) * y) by (nonlinear_arith);
    }
    lemma_units_scaled(q as int, unit as int, d as int, a as int, b as int, c as int);
    assert((q * unit) * d - n * pow2(1074) == (q * b - a) * c);
    if other >= (e + 1075) * base {
        // A pattern with that exponent or a higher one stands for a whole number of units.
        let (x, f) = (other / base, other % base);
        lemma_fundamental_div_mod(other, base);
        assert(x >= e + 1075) by (nonlinear_arith)
            requires
                other == base * x + f,
                f < base,
                other >= (e + 1075) * base,
                base > 0,
        ;
        let g = (x - 1075 - e) as nat;
        lemma_pow2_adds(g, top);
        let k = (base + f) * pow2(g);
        assert(scaled(other) == k * unit) by {
            assert((base + f) * (pow2(g) * unit) == ((base + f) * pow2(g)) * unit)
                by (nonlinear_arith);
        }
        lemma_nearest_even(a, b, k);
        lemma_scaled_distance(q * b - a, k * b - a, c as int);
        lemma_units_scaled(k, unit as int, d as int, a as int, b as int, c as int);
        assert((k * unit) * d - n * pow2(1074) == (k * b - a) * c);
    } else {
        // A lower pattern stands for less than the least such number, which is
        // at most the quotient.
        lemma_scaled(e + 1075, 0);
        lemma_pattern_order(other, (e + 1075) * base);
        lemma_nearest_even(a, b, base);
        lemma_scaled_distance(q * b - a, base * b - a, c as int);
        lemma_units_scaled(base, unit as int, d as int, a as int, b as int, c as int);
        assert((base * unit) * d - n * pow2(1074) == (base * b - a) * c);
        let s = scaled(other);
        assert(s * d <= (base * unit) * d) by (nonlinear_arith)
            requires
                s <= base * unit,
                d > 0,
        ;
        assert((base * b - a) * c <= 0) by (nonlinear_arith)
            requires
                base * b <= a,
                c > 0,
        ;
    }
}

/// A feerate is the double nearest to the quotient of the fee and the size, each
/// converted to a double: no pattern stands for a nearer number.
pub proof fn lemma_feerate_nearest(fee: u64, vsize: u64, other: int)
    requires
        vsize > 0,
        other >= 0,
    ensures
        distance(
            as_double(fee as nat),
            as_double(vsize as nat),
            FeeRate::of(fee as nat, vsize as nat),
        ) <= distance(as_double(fee as nat), as_double(vsize as nat), other),
{
    let (n, d) = (as_double(fee as nat), as_double(vsize as nat));
    if fee == 0 {
        assert(scaled(0) * d == 0 && 0 * pow2(1074) == 0) by (nonlinear_arith)
            requires
                scaled(0) == 0,
        ;
    } else {
        lemma_as_double_bounds(fee);
        lemma_as_double_bounds(vsize);
        lemma_feerate_magnitude(fee, vsize);
        lemma_nearest_double(n, d, other);
    }
}

/// A feerate by weight is the double nearest to the quotient of the fee and a
/// quarter of the weight, each converted to a double.
pub proof fn lemma_weight_feerate_nearest(fee: u64, weight: u64, other: int)
    requires
        weight > 0,
        other >= 0,
    ensures
        distance(
            4 * as_double(fee as nat),
            as_double(weight as nat),
            FeeRate::of_weight(fee as nat, weight as nat),
        ) <= distance(4 * as_double(fee as nat), as_double(weight as nat), other),
{
    let (n, d) = (4 * as_double(fee as nat), as_double(weight as nat));
    if fee == 0 {
        assert(scaled(0) * d == 0 && 0 * pow2(1074) == 0) by (nonlinear_arith)
            requires
                scaled(0) == 0,
        ;
    } else {
        lemma_as_double_bounds(fee);
        lemma_as_double_bounds(weight);
        lemma2_to64();
        lemma2_to64_rest();
        assert(d * pow2(0) <= n * pow2(64)) by (nonlinear_arith)
            requires
                pow2(0) == 1,
                d <= pow2(64),
                n >= 1,
        ;
        lemma_magnitude_at_least(n, d, 0, 64);
        lemma_nearest_double(n, d, other);
    }
}

/// An integer of up to 53 bits is kept when it is converted to a double. A greater
/// one becomes another by no more than one part in two to the power 53.
pub proof fn lemma_as_double_near(x: u64)
    ensures
        x < 0x20_0000_0000_0000 ==> as_double(x as nat) == x,
        x - as_double(x as nat) <= x / 0x20_0000_0000_0000,
        as_double(x as nat) - x <= x / 0x20_0000_0000_0000,
{
    if x >= 0x20_0000_0000_0000 {
        let n = x as nat;
        let m = magnitude(n, 1);
        let e = (m - 52) as nat;
        let unit = pow2(e);
        lemma_large_as_double(n);
        lemma2_to64();
        lemma2_to64_rest();
        lemma_pow2_pos(e);
        lemma_pow2_adds(52, e);
        let (floor, rest) = (n / unit, n % unit);
        lemma_fundamental_div_mod(n as int, unit as int);
        lemma_nearest_even(n, unit, floor as int);
        lemma_nearest_even(n, unit, floor as int + 1);
        let q = nearest_even(n, unit);
        assert(unit * floor == floor * unit && (floor + 1) * unit == floor * unit + unit)
            by (nonlinear_arith);
        let gap = if q * unit >= n {
            q * unit - n
        } else {
            n - q * unit
        };
        assert(2 * gap <= unit);
        assert(0x20_0000_0000_0000 * gap <= n);
        assert(gap <= n / 0x20_0000_0000_0000) by (nonlinear_arith)
            requires
                0x20_0000_0000_0000 * gap <= n,
        ;
    }
}

/// Of two integers at the same distance from a quotient, rounding gives the even one.
proof fn lemma_tie_of_integers(a: nat, b: nat, k: int)
    requires
        b > 0,
        k != nearest_even(a, b),
        k * b - a == -(nearest_even(a, b) * b - a) || k * b - a == nearest_even(a, b) * b - a,
    ensures
        nearest_even(a, b) % 2 == 0,
{
    let q = nearest_even(a, b) as int;
    let (n, d) = (a as int, b as int);
    let (floor, rest) = (n / d, n % d);
    lemma_fundamental_div_mod(n, d);
    assert(d * floor == floor * d) by (nonlinear_arith);
    assert((floor + 1) * d == floor * d + d) by (nonlinear_arith);
    assert(k * d - n != q * d - n) by (nonlinear_arith)
        requires
            k != q,
            d > 0,
    ;
    assert((q + k) * d == q * d + k * d) by (nonlinear_arith);
    assert((q + k) * d == 2 * n);
    let j = q + k - 2 * floor;
    assert(j * d == 2 * rest) by (nonlinear_arith)
        requires
            (q + k) * d == 2 * n,
            n == floor * d + rest,
            j == q + k - 2 * floor,
    ;
    assert(j == 0 || j == 1) by (nonlinear_arith)
        requires
            j * d == 2 * rest,
            0 <= rest < d,
    ;
    if j == 0 {
        assert(rest == 0) by (nonlinear_arith)
            requires
                j * d == 2 * rest,
                j == 0,
        ;
        assert(q == floor);
    }
}

/// Where two patterns stand for numbers at the same distance from `n / d`, the even one
/// is rounded to.
#[verifier::spinoff_prover]
#[verifier::rlimit(30)]
proof fn lemma_tie(n: nat, d: nat, other: int)
    requires
        n > 0,
        d > 0,
        magnitude(n, d) >= -1022,
        other >= 0,
        other != nearest_double(n, d),
        distance(n, d, nearest_double(n, d)) == distance(n, d, other),
    ensures
        nearest_double(n, d) % 2 == 0,
{
    let e = magnitude(n, d) - 52;
    let (a, b) = in_units(n, d, e);
    let q = nearest_even(a, b);
    let base: int = 0x10_0000_0000_0000;
    let top = (e + 1074) as nat;
    let unit = pow2(top);
    let c = pow2((1074 - above(-e)) as nat);
    lemma_significand(n, d);
    lemma_pow2_pos(top);
    lemma_pow2_pos((1074 - above(-e)) as nat);
    let r = nearest_double(n, d);
    assert(scaled(r) == q * unit) by {
        if q < 2 * base {
            lemma_scaled(e + 1075, q - base);
        } else {
            lemma_scaled(e + 1076, 0);
            lemma_pow2_unfold((e + 1075) as nat);
            assert(base * (2 * unit) == (2 * base) * unit) by (nonlinear_arith);
            assert((e + 1075) * base + base == (e + 1076) * base) by (nonlinear_arith);
        }
    }
    assert(n * pow2(1074) == a * c) by {
        lemma_pow2_adds(above(-e), (1074 - above(-e)) as nat);
        let (x, y) = (pow2(above(-e)), c);
        assert(n * (x * y) == (n * x) * y) by (nonlinear_arith);
    }
    assert(unit * d == b * c) by {
        lemma_pow2_adds(above(e), (1074 - above(-e)) as nat);
        let (x, y) = (pow2(above(e)), c);
        assert((x * y) * d == (d * x) * y) by (nonlinear_arith);
    }
    lemma_units_scaled(q as int, unit as int, d as int, a as int, b as int, c as int);
    if other >= (e + 1075) * base {
        let (x, f) = (other / base, other % base);
        lemma_fundamental_div_mod(other, base);
        assert(x >= e + 1075) by (nonlinear_arith)
            requires
                other == base * x + f,
                f < base,
                other >= (e + 1075) * base,
                base > 0,
        ;
        let g = (x - 1075 - e) as nat;
        lemma_pow2_adds(g, top);
        let k = (base + f) * pow2(g);
        assert(scaled(other) == k * unit) by {
            assert((base + f) * (pow2(g) * unit) == ((base + f) * pow2(g)) * unit)
                by (nonlinear_arith);
        }
        lemma_units_scaled(k, unit as int, d as int, a as int, b as int, c as int);
        // Both distances carry the factor c, so that they agree without it.
        let (u, v) = (q * b - a, k * b - a);
        assert(u * c == v * c || u * c == -(v * c));
        assert(v == u || v == -u) by (nonlinear_arith)
            requires
                u * c == v * c || u * c == -(v * c),
                c > 0,
        ;
        if other < r {
            lemma_pattern_order(other, r);
        } else {
            lemma_pattern_order(r, other);
        }
        assert(k != q);
        lemma_tie_of_integers(a, b, k);
        assert(r == (e + 1075) * base + q - base);
        assert(((e + 1075) * base) % 2 == 0) by {
            assert((e + 1075) * base == 2 * ((e + 1075) * 0x8_0000_0000_0000)) by (nonlinear_arith)
                requires
                    base == 0x10_0000_0000_0000,
            ;
        }
    } else {
        lemma_scaled(e + 1075, 0);
        lemma_pattern_order(other, (e + 1075) * base);
        lemma_nearest_even(a, b, base);
        lemma_units_scaled(base, unit as int, d as int, a as int, b as int, c as int);
        lemma_scaled_distance(q * b - a, base * b - a, c as int);
        let s = scaled(other);
        assert(s * d < (base * unit) * d) by (nonlinear_arith)
            requires
                s < base * unit,
                d > 0,
        ;
        assert((base * b - a) * c <= 0) by (nonlinear_arith)
            requires
                base * b <= a,
                c > 0,
        ;
    }
}

/// Where two patterns stand for numbers at the same distance from the quotient of a fee
/// and a size, or a fee and a quarter of a weight, the feerate is the even one.
pub proof fn lemma_feerate_ties_even(fee: u64, size: u64, other: int)
    requires
        size > 0,
        other >= 0,
    ensures
        other != FeeRate::of(fee as nat, size as nat) && distance(
            as_double(fee as nat),
            as_double(size as nat),
            other,
        ) == distance(
            as_double(fee as nat),
            as_double(size as nat),
            FeeRate::of(fee as nat, size as nat),
        ) ==> FeeRate::of(fee as nat, size as nat) % 2 == 0,
        other != FeeRate::of_weight(fee as nat, size as nat) && distance(
            4 * as_double(fee as nat),
            as_double(size as nat),
            other,
        ) == distance(
            4 * as_double(fee as nat),
            as_double(size as nat),
            FeeRate::of_weight(fee as nat, size as nat),
        ) ==> FeeRate::of_weight(fee as nat, size as nat) % 2 == 0,
{
    if fee > 0 {
        let (n, m, d) = (as_double(fee as nat), 4 * as_double(fee as nat), as_double(size as nat));
        lemma_as_double_bounds(fee);
        lemma_as_double_bounds(size);
        lemma_feerate_magnitude(fee, size);
        lemma2_to64();
        lemma2_to64_rest();
        assert(d * pow2(0) <= m * pow2(64)) by (nonlinear_arith)
            requires
                pow2(0) == 1,
                d <= pow2(64),
                m >= 1,
        ;
        lemma_magnitude_at_least(m, d, 0, 64);
        if other != FeeRate::of(fee as nat, size as nat) && distance(n, d, other) == distance(
            n,
            d,
            FeeRate::of(fee as nat, size as nat),
        ) {
            lemma_tie(n, d, other);
        }
        if other != FeeRate::of_weight(fee as nat, size as nat) && distance(m, d, other)
            == distance(m, d, FeeRate::of_weight(fee as nat, size as nat)) {
            lemma_tie(m, d, other);
        }
    }
}

/// With 54 bits, an even integer is kept, and an odd one becomes the neighbour that is
/// a multiple of four.
pub proof fn lemma_as_double_ties_even(x: u64)
    requires
        0x20_0000_0000_0000 <= x < 0x40_0000_0000_0000,
    ensures
        x % 2 == 0 ==> as_double(x as nat) == x,
        x % 2 == 1 ==> as_double(x as nat) % 4 == 0 && (as_double(x as nat) == x + 1 || as_double(
            x as nat,
        ) == x - 1),
{
    let n = x as nat;
    let m = magnitude(n, 1);
    lemma_large_as_double(n);
    lemma2_to64();
    lemma2_to64_rest();
    if m > 53 {
        if m > 54 {
            lemma_pow2_strictly_increases(54, m as nat);
        }
    }
    let unit = pow2((m - 52) as nat);
    assert(unit == 2);
    let q = nearest_even(n, 2);
    assert(as_double(n) == q * unit);
    assert(q * unit == 2 * q) by (nonlinear_arith)
        requires
            unit == 2,
    ;
}

} // verus!
