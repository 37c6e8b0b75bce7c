//! The exact values of binary64 numbers, and arithmetic that does not round.

use vstd::arithmetic::power2::{lemma_pow2_pos, lemma_pow2_unfold, pow2};
use vstd::prelude::*;

use crate::arithmetic::{answers, Answers, Op};
use crate::double::{Double, SIGN_BIT};
use crate::rounding::{
    doublings, integer_spec, lemma_doublings, small_integers_are_exact, LEAST_SIGNIFICAND,
};

verus! {

/// The number one, counted in the smallest binary64 number above zero.
pub open spec fn unit() -> int {
    pow2(1074) as int
}

/// A finite binary64 number, counted in the smallest one above zero: an integer for each of them.
pub open spec fn value(d: Double) -> int {
    let size = (d.significand() * pow2((d.exponent() + 1074) as nat)) as int;
    if d.bits < SIGN_BIT {
        size
    } else {
        -size
    }
}

/// One is above zero.
pub proof fn unit_is_positive()
    ensures
        unit() > 0,
{
    lemma_pow2_pos(1074);
}

proof fn lemma_pow2_grows(a: nat, b: nat)
    requires
        a <= b,
    ensures
        pow2(a) <= pow2(b),
{
    if a < b {
        vstd::arithmetic::power2::lemma_pow2_strictly_increases(a, b);
    }
}

/// The size of a number by its magnitude.
spec fn size_of(magnitude: int) -> int {
    let field = magnitude / 0x10_0000_0000_0000;
    let low = magnitude % 0x10_0000_0000_0000;
    if field == 0 {
        low
    } else {
        (0x10_0000_0000_0000 + low) * pow2((field - 1) as nat)
    }
}

proof fn lemma_value_is_size(d: Double)
    ensures
        value(d) == if d.bits < SIGN_BIT {
            size_of(d.magnitude())
        } else {
            -size_of(d.magnitude())
        },
        size_of(d.magnitude()) >= 0,
        size_of(d.magnitude()) == 0 <==> d.magnitude() == 0,
{
    let m = d.magnitude();
    let field = m / 0x10_0000_0000_0000;
    let low = m % 0x10_0000_0000_0000;
    vstd::arithmetic::power2::lemma2_to64();
    if field == 0 {
        assert(d.significand() * pow2(0) == low) by (nonlinear_arith)
            requires
                d.significand() == low,
                pow2(0) == 1,
        ;
    } else {
        let p = pow2((field - 1) as nat);
        lemma_pow2_pos((field - 1) as nat);
        assert((0x10_0000_0000_0000 + low) * p > 0) by (nonlinear_arith)
            requires
                low >= 0,
                p > 0,
        ;
    }
}

proof fn lemma_size_grows(a: int, b: int)
    requires
        0 <= a < b,
    ensures
        size_of(a) < size_of(b),
{
    let fa = a / 0x10_0000_0000_0000;
    let fb = b / 0x10_0000_0000_0000;
    let la = a % 0x10_0000_0000_0000;
    let lb = b % 0x10_0000_0000_0000;
    if fa == fb {
        if fa > 0 {
            let p = pow2((fa - 1) as nat);
            lemma_pow2_pos((fa - 1) as nat);
            assert((0x10_0000_0000_0000 + la) * p < (0x10_0000_0000_0000 + lb) * p)
                by (nonlinear_arith)
                requires
                    la < lb,
                    p > 0,
            ;
        }
    } else {
        let q = pow2((fb - 1) as nat);
        lemma_pow2_pos((fb - 1) as nat);
        assert((0x10_0000_0000_0000 + lb) * q >= 0x10_0000_0000_0000 * q) by (nonlinear_arith)
            requires
                lb >= 0,
                q > 0,
        ;
        if fa == 0 {
            assert(0x10_0000_0000_0000 * q >= 0x10_0000_0000_0000) by (nonlinear_arith)
                requires
                    q >= 1,
            ;
        } else {
            let p = pow2((fa - 1) as nat);
            lemma_pow2_pos((fa - 1) as nat);
            lemma_pow2_unfold(fa as nat);
            lemma_pow2_grows(fa as nat, (fb - 1) as nat);
            assert((0x10_0000_0000_0000 + la) * p < 0x10_0000_0000_0000 * q) by (nonlinear_arith)
                requires
                    la < 0x10_0000_0000_0000,
                    p > 0,
                    2 * p <= q,
            ;
        }
    }
}

/// Among finite numbers the order of the ranks is that of the values.
pub proof fn values_are_in_order(a: Double, b: Double)
    requires
        a.finite(),
        b.finite(),
    ensures
        a.le(b) <==> value(a) <= value(b),
        a.gt(b) <==> value(a) > value(b),
{
    lemma_value_is_size(a);
    lemma_value_is_size(b);
    let x = a.magnitude();
    let y = b.magnitude();
    if x < y {
        lemma_size_grows(x, y);
    } else if y < x {
        lemma_size_grows(y, x);
    }
}

/// The value of zero.
pub proof fn zero_is_nothing()
    ensures
        value(Double { bits: 0 }) == 0,
        (Double { bits: 0 }).finite(),
{
    lemma_value_is_size(Double { bits: 0 });
}

/// The lesser of two finite numbers has the lesser of their values.
pub proof fn lesser_has_the_lesser_value(a: Double, b: Double)
    requires
        a.finite(),
        b.finite(),
    ensures
        a.min_spec(b).finite(),
        value(a.min_spec(b)) == if value(a) <= value(b) {
            value(a)
        } else {
            value(b)
        },
{
    values_are_in_order(a, b);
}

/// Whether a sum, a difference or a product of finite numbers is finite and not rounded.
pub open spec fn is_unrounded(op: Op, a: Double, b: Double, r: Double) -> bool {
    a.finite() && b.finite() ==> r.finite() && match op {
        Op::Plus => value(r) == value(a) + value(b),
        Op::Minus => value(r) == value(a) - value(b),
        Op::Times => value(r) * unit() == value(a) * value(b),
        Op::Over => true,
    }
}

/// The answers that are quotients, or are not rounded.
pub open spec fn unrounded(f: Answers) -> Answers {
    |op: Op, a: Double, b: Double, r: Double|
        answers(f, op, a, b, r) && (op == Op::Over || is_unrounded(op, a, b, r))
}

/// Whether quotients are rounded in order, as IEEE 754 rounds them: a quotient that is no greater
/// than another, or than a number, stays so, and one that is no smaller too.
pub open spec fn divides_in_order(f: Answers) -> bool {
    &&& forall|a: Double, b: Double, r: Double, c: Double, d: Double, s: Double|
        (#[trigger] answers(f, Op::Over, a, b, r)) && (#[trigger] answers(f, Op::Over, c, d, s))
            && a.finite() && b.finite() && c.finite() && d.finite() && value(b) > 0 && value(d) > 0
            && value(a) * value(d) <= value(c) * value(b) ==> r.le(s)
    &&& forall|a: Double, b: Double, r: Double, p: Double| #![trigger answers(f, Op::Over, a, b, r), p.finite()]
        answers(f, Op::Over, a, b, r) && a.finite() && b.finite() && p.finite() && value(b) > 0 ==> (
        value(a) * unit() <= value(p) * value(b) ==> r.le(p)) && (value(a) * unit() >= value(p)
            * value(b) ==> p.le(r))
}

/// Of two numbers that are not negative, the lesser has the lesser size; an infinite one has that
/// of the power of two past the largest number.
pub proof fn sizes_are_in_order(a: Double, b: Double)
    requires
        a.le(b),
        a.bits < SIGN_BIT,
        b.bits < SIGN_BIT,
    ensures
        a.significand() * pow2((a.exponent() + 1074) as nat) <= b.significand() * pow2(
            (b.exponent() + 1074) as nat,
        ),
{
    lemma_value_is_size(a);
    lemma_value_is_size(b);
    if a.magnitude() < b.magnitude() {
        lemma_size_grows(a.magnitude(), b.magnitude());
    }
}

/// Whether an answer to an operation on finite numbers is finite and exact; a quotient by nothing
/// may be anything.
pub open spec fn is_exact(op: Op, a: Double, b: Double, r: Double) -> bool {
    a.finite() && b.finite() ==> match op {
        Op::Plus => r.finite() && value(r) == value(a) + value(b),
        Op::Minus => r.finite() && value(r) == value(a) - value(b),
        Op::Times => r.finite() && value(r) * unit() == value(a) * value(b),
        Op::Over => value(b) != 0 ==> r.finite() && value(r) * value(b) == value(a) * unit(),
    }
}

/// The answers that are exact.
pub open spec fn exact(f: Answers) -> Answers {
    |op: Op, a: Double, b: Double, r: Double| answers(f, op, a, b, r) && is_exact(op, a, b, r)
}

/// An integer below `2^53` that is turned into a binary64 number keeps its value.
pub proof fn integers_keep_their_values(n: nat)
    requires
        n < 0x20_0000_0000_0000,
    ensures
        integer_spec(n).finite(),
        value(integer_spec(n)) == n * unit(),
{
    small_integers_are_exact(n);
    let d = integer_spec(n);
    if n == 0 {
        zero_is_nothing();
        assert(n * unit() == 0) by (nonlinear_arith)
            requires
                n == 0,
        ;
    } else {
        let k = doublings(n, LEAST_SIGNIFICAND as nat);
        lemma_doublings(n, LEAST_SIGNIFICAND as nat);
        lemma_pow2_pos(k);
        let v = n * pow2(k);
        vstd::arithmetic::power2::lemma2_to64_rest();
        if k >= 53 {
            lemma_pow2_grows(53, k);
            assert(v >= 0x20_0000_0000_0000) by (nonlinear_arith)
                requires
                    v == n * pow2(k),
                    n >= 1,
                    pow2(k) >= 0x20_0000_0000_0000,
            ;
        }
        assert(d.bits == (1074 - k) * 0x10_0000_0000_0000 + v);
        assert(d.magnitude() / 0x10_0000_0000_0000 == 1075 - k);
        assert(d.magnitude() % 0x10_0000_0000_0000 == v - 0x10_0000_0000_0000);
        assert(d.significand() == v);
        assert(d.exponent() == -k);
        vstd::arithmetic::power2::lemma_pow2_adds(k, (1074 - k) as nat);
        let p = pow2((1074 - k) as nat);
        assert(v * p == n * (pow2(k) * p)) by (nonlinear_arith)
            requires
                v == n * pow2(k),
        ;
    }
}

proof fn lemma_constant(d: Double, k: nat, n: nat)
    requires
        d.bits < SIGN_BIT,
        d.finite(),
        k <= 1074,
        d.exponent() == -k,
        d.significand() == n * pow2(k),
    ensures
        value(d) == n * unit(),
{
    vstd::arithmetic::power2::lemma_pow2_adds(k, (1074 - k) as nat);
    let p = pow2((1074 - k) as nat);
    assert((n * pow2(k)) * p == n * (pow2(k) * p)) by (nonlinear_arith);
}

/// The values of the constants that are multiplied and divided by.
pub proof fn constants_have_their_values()
    ensures
        value(Double { bits: 0x3ff0_0000_0000_0000 }) == unit(),
        value(Double { bits: 0x4000_0000_0000_0000 }) == 2 * unit(),
        value(Double { bits: 0x4014_0000_0000_0000 }) == 5 * unit(),
        value(Double { bits: 0x4024_0000_0000_0000 }) == 10 * unit(),
        value(Double { bits: 0x4059_0000_0000_0000 }) == 100 * unit(),
        value(Double { bits: 0x408f_4000_0000_0000 }) == 1000 * unit(),
        value(Double { bits: 0x40c3_8800_0000_0000 }) == 10_000 * unit(),
        2 * value(Double { bits: 0x4012_0000_0000_0000 }) == 9 * unit(),
{
    vstd::arithmetic::power2::lemma2_to64();
    vstd::arithmetic::power2::lemma2_to64_rest();
    lemma_constant(Double { bits: 0x3ff0_0000_0000_0000 }, 52, 1);
    lemma_constant(Double { bits: 0x4000_0000_0000_0000 }, 51, 2);
    lemma_constant(Double { bits: 0x4014_0000_0000_0000 }, 50, 5);
    lemma_constant(Double { bits: 0x4024_0000_0000_0000 }, 49, 10);
    lemma_constant(Double { bits: 0x4059_0000_0000_0000 }, 46, 100);
    lemma_constant(Double { bits: 0x408f_4000_0000_0000 }, 43, 1000);
    lemma_constant(Double { bits: 0x40c3_8800_0000_0000 }, 39, 10_000);
    let fee = Double { bits: 0x4012_0000_0000_0000 };
    vstd::arithmetic::power2::lemma_pow2_adds(51, 1023);
    vstd::arithmetic::power2::lemma_pow2_adds(50, 1024);
    lemma_pow2_unfold(1024);
    let p = pow2(1023);
    assert(fee.significand() == 0x12_0000_0000_0000);
    assert(fee.exponent() == -50);
    assert(2 * (0x12_0000_0000_0000 * (2 * p)) == 9 * (0x8_0000_0000_0000 * p)) by (nonlinear_arith);
}

/// A factor above zero cancels.
pub proof fn factor_cancels(a: int, b: int, k: int)
    requires
        a * k == b * k,
        k > 0,
    ensures
        a == b,
{
    assert(a == b) by (nonlinear_arith)
        requires
            a * k == b * k,
            k > 0,
    ;
}

} // verus!
