//! Correctly rounded conversions between integers and binary64 numbers.
//!
//! Two quantities of the recordings are integers that are shown or stored in millionths: prices,
//! which a book keys by millionths of a dollar, and intervals, which are counted in nanoseconds
//! and shown in milliseconds. This module says which binary64 number each of them is.

use vstd::arithmetic::power2::{lemma_pow2_pos, lemma_pow2_unfold, pow2};
use vstd::prelude::*;

use crate::double::{Double, BILLION_BITS, SIGN_BIT};

verus! {

/// The scale of keys and of nanoseconds: a million.
pub const MILLION: u64 = 1_000_000;

/// The smallest significand of a normal binary64 number.
pub const LEAST_SIGNIFICAND: u64 = 0x10_0000_0000_0000;

/// The numerator from which a quotient by a million has a full significand before its point.
pub const FULL_NUMERATOR: u128 = 0x10_0000_0000_0000_u128 * 1_000_000_u128;

/// The quotient `a / b` rounded to the nearest integer, and to the even one of two that are as
/// near.
pub open spec fn round_half_even(a: nat, b: nat) -> nat {
    let q = a / b;
    let rest = a % b;
    if 2 * rest < b || (2 * rest == b && q % 2 == 0) {
        q
    } else {
        q + 1
    }
}

/// The distance between neighbours among the integers near `n` that binary64 holds.
pub open spec fn granule(n: nat) -> nat
    decreases n,
{
    if n < 2 * LEAST_SIGNIFICAND {
        1
    } else {
        2 * granule(n / 2)
    }
}

/// The binary64 number nearest to the integer `n`, which is again an integer.
pub open spec fn nearest_integer(n: nat) -> nat {
    round_half_even(n, granule(n)) * granule(n)
}

/// How many times `n` has to be doubled to reach `floor`.
pub open spec fn doublings(n: nat, floor: nat) -> nat
    decreases 2 * floor - n,
{
    if n == 0 || n >= floor {
        0
    } else {
        1 + doublings(2 * n, floor)
    }
}

/// The number of binary places of the binary64 number nearest to `n` millionths.
pub open spec fn micro_places(n: nat) -> nat {
    doublings(n, FULL_NUMERATOR as nat)
}

/// The significand of the binary64 number nearest to `n` millionths, which is this integer over
/// two to the power `micro_places(n)`.
pub open spec fn micro_significand(n: nat) -> nat {
    round_half_even(n * pow2(micro_places(n)), MILLION as nat)
}

proof fn lemma_round_bounds(a: nat, b: nat, lo: nat, hi: nat)
    requires
        0 < b,
        lo * b <= a,
        a < hi * b,
    ensures
        lo <= round_half_even(a, b) <= hi,
{
    let q = a / b;
    assert(lo <= q < hi) by (nonlinear_arith)
        requires
            0 < b,
            lo * b <= a,
            a < hi * b,
            q == a / b,
    ;
}

pub(crate) proof fn lemma_doublings(n: nat, floor: nat)
    requires
        0 < n < 2 * floor,
    ensures
        floor <= n * pow2(doublings(n, floor)) < 2 * floor,
    decreases 2 * floor - n,
{
    let k = doublings(n, floor);
    if n >= floor {
        lemma_pow2_unfold_zero();
        assert(n * pow2(0) == n) by (nonlinear_arith)
            requires
                pow2(0) == 1,
        ;
    } else {
        lemma_doublings(2 * n, floor);
        let j = doublings(2 * n, floor);
        lemma_pow2_unfold(k);
        assert(n * pow2(k) == (2 * n) * pow2(j)) by (nonlinear_arith)
            requires
                pow2(k) == 2 * pow2(j),
        ;
    }
}

proof fn lemma_pow2_unfold_zero()
    ensures
        pow2(0) == 1,
{
    vstd::arithmetic::power2::lemma2_to64();
}

proof fn lemma_granule(n: nat)
    ensures
        1 <= granule(n),
        n >= 1 ==> granule(n) <= n,
    decreases n,
{
    if n >= 2 * LEAST_SIGNIFICAND {
        lemma_granule(n / 2);
    }
}

proof fn lemma_nearest_bounds(n: nat)
    ensures
        nearest_integer(n) <= 2 * n,
        n > 0 ==> nearest_integer(n) > 0,
{
    lemma_granule(n);
    let g = granule(n);
    let q = n / g;
    let r = round_half_even(n, g);
    assert(q * g <= n) by (nonlinear_arith)
        requires
            g >= 1,
            q == n / g,
    ;
    assert(r * g <= n + g) by (nonlinear_arith)
        requires
            q * g <= n,
            g >= 1,
            r <= q + 1,
    ;
    if n > 0 {
        assert(q >= 1) by (nonlinear_arith)
            requires
                q == n / g,
                1 <= g <= n,
        ;
        assert(r * g > 0) by (nonlinear_arith)
            requires
                r >= 1,
                g >= 1,
        ;
    } else {
        assert(g == 1);
        assert(r == 0);
    }
}

/// The quotient `a / b` rounded to the nearest integer, ties to even.
fn divide_half_even(a: u128, b: u128) -> (r: u128)
    requires
        0 < b <= u128::MAX / 2,
        a < u128::MAX,
    ensures
        r == round_half_even(a as nat, b as nat),
{
    let q: u128 = a / b;
    let rest: u128 = a % b;
    if 2 * rest < b || (2 * rest == b && q % 2 == 0) {
        q
    } else {
        assert(q <= a) by (nonlinear_arith)
            requires
                q == a / b,
                0 < b,
        ;
        q + 1
    }
}

/// The binary64 number nearest to an integer.
pub fn round_to_double(n: u128) -> (r: u128)
    requires
        n < 0x8000_0000_0000_0000_0000_0000_0000_0000,
    ensures
        r == nearest_integer(n as nat),
        r <= 2 * n,
        n > 0 ==> r > 0,
{
    let mut half: u128 = n;
    let mut unit: u128 = 1;
    while half >= 2 * LEAST_SIGNIFICAND as u128
        invariant
            half <= n < 0x8000_0000_0000_0000_0000_0000_0000_0000,
            unit >= 1,
            unit <= n || unit == 1,
            unit * half <= n < unit * (half + 1),
            granule(n as nat) == unit * granule(half as nat),
        decreases half,
    {
        proof {
            let h = half as int;
            let u = unit as int;
            assert((2 * u) * (h / 2) <= u * h && u * (h + 1) <= (2 * u) * (h / 2 + 1))
                by (nonlinear_arith)
                requires
                    u >= 1,
                    h >= 0,
            ;
            assert(granule(half as nat) == 2 * granule((half / 2) as nat));
            assert(unit * granule(half as nat) == (2 * u) * granule((half / 2) as nat))
                by (nonlinear_arith)
                requires
                    granule(half as nat) == 2 * granule((half / 2) as nat),
                    u == unit,
            ;
            assert(2 * u <= n) by (nonlinear_arith)
                requires
                    h >= 2,
                    u >= 1,
                    u * h <= n,
            ;
        }
        half = half / 2;
        unit = 2 * unit;
    }
    proof {
        assert(unit * granule(half as nat) == unit) by (nonlinear_arith)
            requires
                granule(half as nat) == 1,
        ;
        lemma_nearest_bounds(n as nat);
    }
    let units: u128 = divide_half_even(n, unit);
    units * unit
}

/// A binary64 number as a significand over a power of two.
pub struct Quotient {
    pub significand: u64,
    pub places: u32,
    pub denominator: u128,
}

proof fn lemma_micro_bounds(n: nat)
    requires
        0 < n < 2 * FULL_NUMERATOR,
    ensures
        FULL_NUMERATOR <= n * pow2(micro_places(n)) < 2 * FULL_NUMERATOR,
        micro_places(n) <= 72,
        LEAST_SIGNIFICAND <= micro_significand(n) <= 2 * LEAST_SIGNIFICAND,
{
    let k = micro_places(n);
    lemma_doublings(n, FULL_NUMERATOR as nat);
    lemma_pow2_pos(k);
    assert(pow2(k) <= n * pow2(k)) by (nonlinear_arith)
        requires
            n >= 1,
            pow2(k) >= 1,
    ;
    vstd::arithmetic::power2::lemma2_to64();
    vstd::arithmetic::power2::lemma2_to64_rest();
    if k > 72 {
        vstd::arithmetic::power2::lemma_pow2_adds(64, 8);
        assert(pow2(72) == 0x1_0000_0000_0000_0000 * 0x100);
        vstd::arithmetic::power2::lemma_pow2_adds(64, 9);
        assert(pow2(73) == 0x1_0000_0000_0000_0000 * 0x200);
        if k > 73 {
            vstd::arithmetic::power2::lemma_pow2_strictly_increases(73, k);
        }
    }
    lemma_round_bounds(
        n * pow2(k),
        MILLION as nat,
        LEAST_SIGNIFICAND as nat,
        2 * LEAST_SIGNIFICAND as nat,
    );
}

/// The binary64 number nearest to `n` millionths.
fn micro_quotient(n: u128) -> (r: Quotient)
    requires
        0 < n < 2 * FULL_NUMERATOR,
    ensures
        r.significand == micro_significand(n as nat),
        r.places == micro_places(n as nat),
        r.denominator == pow2(r.places as nat),
        r.places <= 72,
        LEAST_SIGNIFICAND <= r.significand <= 2 * LEAST_SIGNIFICAND,
{
    let mut numerator: u128 = n;
    let mut denominator: u128 = 1;
    let mut places: u32 = 0;
    proof {
        lemma_micro_bounds(n as nat);
        lemma_pow2_unfold_zero();
    }
    while numerator < FULL_NUMERATOR
        invariant
            0 < n < 2 * FULL_NUMERATOR,
            0 < numerator < 2 * FULL_NUMERATOR,
            denominator == pow2(places as nat),
            numerator == n * denominator,
            denominator <= numerator,
            micro_places(n as nat) == places + doublings(numerator as nat, FULL_NUMERATOR as nat),
            micro_places(n as nat) <= 72,
        decreases 2 * FULL_NUMERATOR - numerator,
    {
        proof {
            lemma_pow2_unfold((places + 1) as nat);
            assert(2 * numerator == n * (2 * denominator)) by (nonlinear_arith)
                requires
                    numerator == n * denominator,
            ;
        }
        numerator = 2 * numerator;
        denominator = 2 * denominator;
        places = places + 1;
    }
    let significand: u128 = divide_half_even(numerator, MILLION as u128);
    Quotient { significand: significand as u64, places, denominator }
}

/// The bit pattern of the binary64 number nearest to `n` millionths.
pub open spec fn micro_bits(n: nat) -> int {
    if n == 0 {
        0
    } else {
        (1074 - micro_places(n)) * LEAST_SIGNIFICAND + micro_significand(n)
    }
}

/// The price that a key stands for: the binary64 number nearest to `key` (read as a binary64
/// number itself) over a million.
pub open spec fn price_spec(key: int) -> Double {
    if key >= 0 {
        Double { bits: micro_bits(nearest_integer(key as nat)) as u64 }
    } else {
        Double { bits: (SIGN_BIT + micro_bits(nearest_integer((-key) as nat))) as u64 }
    }
}

/// The price that a key stands for.
pub fn price_of_key(key: i64) -> (r: Double)
    ensures
        r == price_spec(key as int),
        r.finite(),
        key >= 0 ==> r.rank() == micro_bits(nearest_integer(key as nat)),
        key < 0 ==> r.rank() == -micro_bits(nearest_integer((-key) as nat)),
{
    let size: u64 = if key >= 0 {
        key as u64
    } else {
        (-(key + 1)) as u64 + 1
    };
    let n: u128 = round_to_double(size as u128);
    if n == 0 {
        return Double { bits: 0 };
    }
    let q: Quotient = micro_quotient(n);
    let bits: u64 = (1074 - q.places as u64) * LEAST_SIGNIFICAND + q.significand;
    if key >= 0 {
        Double { bits }
    } else {
        Double { bits: SIGN_BIT + bits }
    }
}

proof fn lemma_round_monotone(a1: nat, a2: nat, b: nat)
    requires
        0 < b,
        a1 <= a2,
    ensures
        round_half_even(a1, b) <= round_half_even(a2, b),
{
    let q1 = a1 / b;
    let q2 = a2 / b;
    assert(q1 <= q2 && (q1 == q2 ==> a1 % b <= a2 % b)) by (nonlinear_arith)
        requires
            0 < b,
            a1 <= a2,
            q1 == a1 / b,
            q2 == a2 / b,
    {
        assert(a1 == b * q1 + a1 % b);
        assert(a2 == b * q2 + a2 % b);
    }
}

proof fn lemma_granule_pair(n1: nat, n2: nat)
    requires
        n1 <= n2,
    ensures
        granule(n1) == granule(n2) || 2 * granule(n1) <= granule(n2),
        n2 < 2 * LEAST_SIGNIFICAND * granule(n2),
        granule(n2) > 1 ==> LEAST_SIGNIFICAND * granule(n2) <= n2,
    decreases n2,
{
    lemma_granule(n1);
    lemma_granule(n2);
    if n2 >= 2 * LEAST_SIGNIFICAND {
        lemma_granule(n2 / 2);
        if n1 >= 2 * LEAST_SIGNIFICAND {
            lemma_granule_pair(n1 / 2, n2 / 2);
        } else {
            lemma_granule_pair(n2 / 2, n2 / 2);
        }
    }
}

/// Reading integers as binary64 numbers keeps their order.
pub proof fn nearest_integer_keeps_order(n1: nat, n2: nat)
    requires
        n1 <= n2,
    ensures
        nearest_integer(n1) <= nearest_integer(n2),
{
    let g1 = granule(n1);
    let g2 = granule(n2);
    lemma_granule(n1);
    lemma_granule(n2);
    lemma_granule_pair(n1, n1);
    lemma_granule_pair(n1, n2);
    let r1 = round_half_even(n1, g1);
    let r2 = round_half_even(n2, g2);
    if g1 == g2 {
        lemma_round_monotone(n1, n2, g1);
        assert(r1 * g1 <= r2 * g1) by (nonlinear_arith)
            requires
                r1 <= r2,
        ;
    } else {
        lemma_round_bounds(n1, g1, 0, (2 * LEAST_SIGNIFICAND) as nat);
        lemma_round_bounds(n2, g2, LEAST_SIGNIFICAND as nat, (2 * LEAST_SIGNIFICAND) as nat);
        assert(r1 * g1 <= r2 * g2) by (nonlinear_arith)
            requires
                r1 <= 2 * LEAST_SIGNIFICAND,
                LEAST_SIGNIFICAND <= r2,
                2 * g1 <= g2,
        ;
    }
}

proof fn lemma_doublings_antitone(n1: nat, n2: nat, floor: nat)
    requires
        0 < n1 <= n2,
    ensures
        doublings(n1, floor) >= doublings(n2, floor),
    decreases 2 * floor - n1,
{
    if n1 < floor && n2 < floor {
        lemma_doublings_antitone(2 * n1, 2 * n2, floor);
    }
}

proof fn lemma_micro_bits_monotone(n1: nat, n2: nat)
    requires
        n1 <= n2 < 2 * FULL_NUMERATOR,
    ensures
        0 <= micro_bits(n1) <= micro_bits(n2),
{
    if n1 > 0 {
        lemma_micro_bounds(n1);
        lemma_micro_bounds(n2);
        lemma_doublings_antitone(n1, n2, FULL_NUMERATOR as nat);
        let k1 = micro_places(n1);
        let k2 = micro_places(n2);
        if k1 == k2 {
            assert(n1 * pow2(k1) <= n2 * pow2(k1)) by (nonlinear_arith)
                requires
                    n1 <= n2,
            ;
            lemma_round_monotone(n1 * pow2(k1), n2 * pow2(k1), MILLION as nat);
        }
    } else if n2 > 0 {
        lemma_micro_bounds(n2);
    }
}

/// A smaller key stands for a price that is no greater.
pub proof fn price_keeps_order(key1: i64, key2: i64)
    requires
        key1 <= key2,
    ensures
        price_spec(key1 as int).rank() <= price_spec(key2 as int).rank(),
        price_spec(key1 as int).finite(),
        price_spec(key2 as int).finite(),
{
    let n1 = if key1 >= 0 {
        key1 as nat
    } else {
        (-key1) as nat
    };
    let n2 = if key2 >= 0 {
        key2 as nat
    } else {
        (-key2) as nat
    };
    lemma_nearest_bounds(n1);
    lemma_nearest_bounds(n2);
    let m1 = nearest_integer(n1);
    let m2 = nearest_integer(n2);
    if m1 > 0 {
        lemma_micro_bounds(m1);
    }
    if m2 > 0 {
        lemma_micro_bounds(m2);
    }
    if n1 <= n2 {
        nearest_integer_keeps_order(n1, n2);
        lemma_micro_bits_monotone(m1, m2);
    } else {
        nearest_integer_keeps_order(n2, n1);
        lemma_micro_bits_monotone(m2, m1);
    }
}

/// `a` over two to the power `t`, rounded to the nearest integer, and away from zero where two
/// are as near.
pub open spec fn round_half_up(a: nat, t: nat) -> nat {
    (2 * a + pow2(t)) / pow2(t + 1)
}

/// The size of the product of a number and an integer that binary64 holds: the binary64 number
/// nearest to the product, rounded to the nearest integer.
pub open spec fn scaled_round(d: Double, factor: nat) -> nat {
    let product = nearest_integer(d.significand() * factor);
    if d.exponent() >= 0 {
        product * pow2(d.exponent() as nat)
    } else {
        round_half_up(product, (-d.exponent()) as nat)
    }
}

/// The size of a price in millionths, rounded to the nearest integer.
pub open spec fn key_size(price: Double) -> nat {
    scaled_round(price, MILLION as nat)
}

/// The key under which a book stores a price: its nearest number of millionths, cut off at the
/// ends of the range of keys. A NaN has key zero.
pub open spec fn key_spec(price: Double) -> int {
    let size = key_size(price) as int;
    if price.nan() {
        0
    } else if price.bits < SIGN_BIT {
        if size > i64::MAX {
            i64::MAX as int
        } else {
            size
        }
    } else {
        if -size < i64::MIN {
            i64::MIN as int
        } else {
            -size
        }
    }
}

proof fn lemma_nearest_at_least_half(n: nat)
    ensures
        n <= 2 * nearest_integer(n),
{
    lemma_granule(n);
    lemma_granule_pair(n, n);
    let g = granule(n);
    let q = n / g;
    let r = round_half_even(n, g);
    assert(n < (q + 1) * g && q * g <= n) by (nonlinear_arith)
        requires
            g >= 1,
            q == n / g,
    ;
    if n > 0 {
        assert(q >= 1) by (nonlinear_arith)
            requires
                1 <= g <= n,
                q == n / g,
        ;
        assert(n <= 2 * (r * g)) by (nonlinear_arith)
            requires
                n < (q + 1) * g,
                q <= r,
                q >= 1,
                g >= 1,
        {
            assert((q + 1) * g == q * g + g);
            assert(q * g <= r * g);
            assert(g <= q * g);
        }
    }
}

proof fn lemma_small_rounds_to_zero(a: nat, t: nat)
    requires
        2 * a < pow2(t),
    ensures
        round_half_up(a, t) == 0,
{
    lemma_pow2_unfold(t + 1);
    assert((2 * a + pow2(t)) / pow2(t + 1) == 0) by (nonlinear_arith)
        requires
            2 * a + pow2(t) < pow2(t + 1),
    ;
}

/// Two to the power `t`.
fn power_of_two(t: u32) -> (r: u128)
    requires
        t <= 120,
    ensures
        r == pow2(t as nat),
        1 <= r <= 0x100_0000_0000_0000_0000_0000_0000_0000,
{
    let mut r: u128 = 1;
    let mut i: u32 = 0;
    proof {
        lemma_pow2_unfold_zero();
        vstd::arithmetic::power2::lemma2_to64();
        vstd::arithmetic::power2::lemma_pow2_adds(64, 56);
        vstd::arithmetic::power2::lemma_pow2_adds(32, 24);
    }
    while i < t
        invariant
            i <= t <= 120,
            r == pow2(i as nat),
            r >= 1,
            pow2(120) == 0x100_0000_0000_0000_0000_0000_0000_0000,
        decreases t - i,
    {
        proof {
            lemma_pow2_unfold((i + 1) as nat);
            if i + 1 < 120 {
                vstd::arithmetic::power2::lemma_pow2_strictly_increases((i + 1) as nat, 120);
            }
        }
        r = 2 * r;
        i = i + 1;
    }
    proof {
        if i < 120 {
            vstd::arithmetic::power2::lemma_pow2_strictly_increases(i as nat, 120);
        }
    }
    r
}

/// The size of the product of a number and an integer, or `None` where it is past any that is asked
/// for.
pub fn scaled_size(d: Double, factor: u128) -> (r: Option<u128>)
    requires
        0 < factor <= 0x1_0000_0000_0000_0000,
    ensures
        match r {
            Some(size) => size == scaled_round(d, factor as nat),
            None => scaled_round(d, factor as nat) >= 0x8_0000_0000_0000 * factor,
        },
{
    let magnitude: u64 = if d.bits < SIGN_BIT {
        d.bits
    } else {
        d.bits - SIGN_BIT
    };
    let field: u64 = magnitude / LEAST_SIGNIFICAND;
    let low: u64 = magnitude % LEAST_SIGNIFICAND;
    if field >= 1075 {
        proof {
            let a = d.significand() * factor as nat;
            let e = d.exponent() as nat;
            lemma_nearest_at_least_half(a);
            lemma_pow2_pos(e);
            assert(a >= 0x10_0000_0000_0000 * factor) by (nonlinear_arith)
                requires
                    a == d.significand() * factor,
                    d.significand() >= 0x10_0000_0000_0000,
                    factor >= 0,
            ;
            assert(nearest_integer(a) * pow2(e) >= nearest_integer(a)) by (nonlinear_arith)
                requires
                    pow2(e) >= 1,
            ;
        }
        return None;
    }
    let significand: u64 = if field == 0 {
        low
    } else {
        LEAST_SIGNIFICAND + low
    };
    assert(significand * factor <= 0x20_0000_0000_0000 * 0x1_0000_0000_0000_0000)
        by (nonlinear_arith)
        requires
            significand <= 0x20_0000_0000_0000,
            factor <= 0x1_0000_0000_0000_0000,
    ;
    let product: u128 = round_to_double(significand as u128 * factor);
    let shift: u32 = if field == 0 {
        1074
    } else {
        (1075 - field) as u32
    };
    if shift > 120 {
        proof {
            vstd::arithmetic::power2::lemma2_to64();
            vstd::arithmetic::power2::lemma_pow2_adds(64, 56);
            vstd::arithmetic::power2::lemma_pow2_adds(32, 24);
            vstd::arithmetic::power2::lemma_pow2_strictly_increases(120, shift as nat);
            lemma_small_rounds_to_zero(product as nat, shift as nat);
        }
        return Some(0);
    }
    let power: u128 = power_of_two(shift);
    proof {
        lemma_pow2_unfold((shift + 1) as nat);
    }
    Some((2 * product + power) / (2 * power))
}

/// The key under which a book stores a price.
pub fn key_of_price(price: Double) -> (r: i64)
    ensures
        r == key_spec(price),
{
    if price.is_nan() {
        return 0;
    }
    match scaled_size(price, MILLION as u128) {
        Some(size) => {
            if price.bits < SIGN_BIT {
                if size > 0x7fff_ffff_ffff_ffff {
                    i64::MAX
                } else {
                    size as i64
                }
            } else {
                if size > 0x7fff_ffff_ffff_ffff {
                    i64::MIN
                } else {
                    -(size as i64)
                }
            }
        },
        None => {
            if price.bits < SIGN_BIT {
                i64::MAX
            } else {
                i64::MIN
            }
        },
    }
}

proof fn lemma_round_error(a: nat, b: nat)
    requires
        0 < b,
    ensures
        -b <= 2 * (round_half_even(a, b) * b - a) <= b,
{
    let q = a / b;
    let rest = a % b;
    let r = round_half_even(a, b);
    assert(-b <= 2 * (r * b - a) <= b) by (nonlinear_arith)
        requires
            0 < b,
            q == a / b,
            rest == a % b,
            (r == q && 2 * rest <= b) || (r == q + 1 && 2 * rest >= b),
    {
        assert(a == b * q + rest);
        assert((q + 1) * b == q * b + b);
    }
}

proof fn lemma_granule_at_most(n: nat, k: nat)
    requires
        n < 2 * LEAST_SIGNIFICAND * pow2(k),
    ensures
        granule(n) <= pow2(k),
    decreases k,
{
    lemma_pow2_pos(k);
    if n >= 2 * LEAST_SIGNIFICAND {
        if k == 0 {
            lemma_pow2_unfold_zero();
        } else {
            lemma_pow2_unfold(k);
            let low = pow2((k - 1) as nat);
            assert(2 * LEAST_SIGNIFICAND * pow2(k) == 2 * (2 * LEAST_SIGNIFICAND * low))
                by (nonlinear_arith)
                requires
                    pow2(k) == 2 * low,
            ;
            lemma_granule_at_most(n / 2, (k - 1) as nat);
        }
    }
}

/// A product that is close to `n` times a power of two rounds to `n`.
pub proof fn rounds_to_the_nearest(product: nat, n: nat, t: nat)
    requires
        -pow2(t) <= 2 * (product - n * pow2(t)) < pow2(t),
    ensures
        round_half_up(product, t) == n,
{
    lemma_pow2_pos(t);
    lemma_pow2_unfold(t + 1);
    let p = pow2(t);
    assert((2 * product + p) / (2 * p) == n) by (nonlinear_arith)
        requires
            p >= 1,
            -p <= 2 * (product - n * p) < p,
    {
        assert(n * (2 * p) <= 2 * product + p < (n + 1) * (2 * p));
    }
}

proof fn lemma_key_size_of_micro(n: nat, price: Double)
    requires
        0 < n < 0x1_0000_0000 * MILLION,
        price.magnitude() == micro_bits(n),
    ensures
        key_size(price) == n,
{
    lemma_micro_bounds(n);
    let k = micro_places(n);
    let m = micro_significand(n);
    let million = MILLION as nat;
    vstd::arithmetic::power2::lemma2_to64();
    if k < 21 {
        if k < 20 {
            vstd::arithmetic::power2::lemma_pow2_strictly_increases(k, 20);
        }
        assert(n * pow2(k) < FULL_NUMERATOR) by (nonlinear_arith)
            requires
                n < 0x1_0000_0000 * 1_000_000,
                pow2(k) <= 0x10_0000,
        ;
    }
    let j = (k - 1) as nat;
    lemma_pow2_unfold(k);
    lemma_pow2_unfold(j);
    if j > 20 {
        vstd::arithmetic::power2::lemma_pow2_strictly_increases(20, j);
    }
    lemma_round_error(n * pow2(k), million);
    if m < 2 * LEAST_SIGNIFICAND {
        assert(price.significand() == m);
        assert(price.exponent() == -k);
        let a = m * million;
        lemma_granule_at_most(a, 20);
        lemma_granule(a);
        lemma_round_error(a, granule(a));
        rounds_to_the_nearest(nearest_integer(a), n, k);
    } else {
        assert(price.significand() == LEAST_SIGNIFICAND);
        assert(price.exponent() == -j);
        let a = LEAST_SIGNIFICAND as nat * million;
        lemma_granule_at_most(a, 19);
        lemma_granule(a);
        lemma_round_error(a, granule(a));
        assert(n * pow2(k) == 2 * (n * pow2(j))) by (nonlinear_arith)
            requires
                pow2(k) == 2 * pow2(j),
        ;
        rounds_to_the_nearest(nearest_integer(a), n, j);
    }
}

proof fn lemma_nearest_exact(n: nat)
    requires
        n < 2 * LEAST_SIGNIFICAND,
    ensures
        nearest_integer(n) == n,
{
    let g = granule(n);
    assert(g == 1);
    assert(n / 1 == n && n % 1 == 0);
    assert(round_half_even(n, 1) == n);
    assert(n * g == n) by (nonlinear_arith)
        requires
            g == 1,
    ;
}

/// A price that a book gives out leads back to the key under which the book holds it, as long as
/// the price is below `2^32`.
pub proof fn key_survives_its_price(key: i64)
    requires
        -0x1_0000_0000 * MILLION < key < 0x1_0000_0000 * MILLION,
    ensures
        key_spec(price_spec(key as int)) == key,
{
    let n = if key >= 0 {
        key as nat
    } else {
        (-key) as nat
    };
    let price = price_spec(key as int);
    lemma_nearest_exact(n);
    if n == 0 {
        assert(price.bits == 0);
        assert(price.significand() * MILLION == 0);
        lemma_pow2_pos(1074);
        lemma_small_rounds_to_zero(0, 1074);
    } else {
        lemma_micro_bounds(n);
        lemma_key_size_of_micro(n, price);
    }
}

/// A number of nanoseconds in tenths of a millisecond: the binary64 number nearest to the
/// quotient by a million, rounded to one decimal, and to the even one of two that are as near.
pub open spec fn tenths_spec(ns: nat) -> nat {
    let n = nearest_integer(ns);
    if n == 0 {
        0
    } else {
        round_half_even(10 * micro_significand(n), pow2(micro_places(n)))
    }
}

/// A number of nanoseconds in tenths of a millisecond.
pub fn tenths_of_ms(ns: u64) -> (r: u128)
    ensures
        r == tenths_spec(ns as nat),
{
    let n: u128 = round_to_double(ns as u128);
    if n == 0 {
        return 0;
    }
    let q: Quotient = micro_quotient(n);
    proof {
        vstd::arithmetic::power2::lemma2_to64();
        vstd::arithmetic::power2::lemma_pow2_adds(64, 8);
        lemma_pow2_pos(q.places as nat);
        if q.places < 72 {
            vstd::arithmetic::power2::lemma_pow2_strictly_increases(q.places as nat, 72);
        }
    }
    divide_half_even(10 * q.significand as u128, q.denominator)
}

/// Below `2^53` nanoseconds, the tenths of a millisecond are the nearest ones: they are off by
/// half a tenth at most.
pub proof fn tenths_are_nearest(ns: nat)
    requires
        ns < 2 * LEAST_SIGNIFICAND,
    ensures
        -50_000 <= tenths_spec(ns) * 100_000 - ns <= 50_000,
{
    lemma_nearest_exact(ns);
    if ns > 0 {
        lemma_micro_bounds(ns);
        let k = micro_places(ns);
        let m = micro_significand(ns);
        let p = pow2(k);
        let t = tenths_spec(ns);
        vstd::arithmetic::power2::lemma2_to64();
        if k < 19 {
            if k < 18 {
                vstd::arithmetic::power2::lemma_pow2_strictly_increases(k, 18);
            }
            assert(ns * p < FULL_NUMERATOR) by (nonlinear_arith)
                requires
                    ns < 0x20_0000_0000_0000,
                    p <= 0x4_0000,
            ;
        }
        if k > 19 {
            vstd::arithmetic::power2::lemma_pow2_strictly_increases(19, k);
        }
        lemma_round_error(ns * p, MILLION as nat);
        lemma_round_error(10 * m, p);
        assert(-50_000 <= t * 100_000 - ns <= 50_000) by (nonlinear_arith)
            requires
                p >= 0x8_0000,
                -p <= 2 * (t * p - 10 * m) <= p,
                -1_000_000 <= 2 * (m * 1_000_000 - ns * p) <= 1_000_000,
        {
            let d = t * 100_000 - ns;
            assert(2 * (d * p) == 100_000 * (2 * (t * p - 10 * m)) + 2 * (m * 1_000_000 - ns * p));
            assert(2 * (d * p) <= 100_000 * p + 1_000_000);
            assert(2 * (d * p) >= -100_000 * p - 1_000_000);
            if d >= 50_001 {
                assert(d * p >= 50_001 * p);
            }
            if d <= -50_001 {
                assert(d * p <= -50_001 * p);
            }
        }
    }
}

/// The bit pattern of an integer that binary64 holds.
pub open spec fn integer_bits(v: nat) -> int
    decreases v,
{
    if v == 0 {
        0
    } else if v >= 2 * LEAST_SIGNIFICAND {
        LEAST_SIGNIFICAND + integer_bits(v / 2)
    } else {
        (1074 - doublings(v, LEAST_SIGNIFICAND as nat)) * LEAST_SIGNIFICAND + v * pow2(
            doublings(v, LEAST_SIGNIFICAND as nat),
        )
    }
}

/// The binary64 number nearest to an integer.
pub open spec fn integer_spec(n: nat) -> Double {
    Double { bits: integer_bits(nearest_integer(n)) as u64 }
}

/// The bit pattern of an integer that binary64 holds, below twice the least significand.
fn small_integer_bits(n: u64) -> (r: u64)
    requires
        n < 2 * LEAST_SIGNIFICAND,
    ensures
        r == integer_bits(n as nat),
        r < 1076 * LEAST_SIGNIFICAND,
{
    if n == 0 {
        return 0;
    }
    let mut v: u64 = n;
    let mut places: u64 = 0;
    proof {
        lemma_doublings(n as nat, LEAST_SIGNIFICAND as nat);
        lemma_pow2_unfold_zero();
        vstd::arithmetic::power2::lemma2_to64();
        vstd::arithmetic::power2::lemma2_to64_rest();
        let k = doublings(n as nat, LEAST_SIGNIFICAND as nat);
        lemma_pow2_pos(k);
        assert(pow2(k) <= n * pow2(k)) by (nonlinear_arith)
            requires
                n >= 1,
                pow2(k) >= 1,
        ;
        if k > 53 {
            vstd::arithmetic::power2::lemma_pow2_strictly_increases(53, k);
        }
    }
    while v < LEAST_SIGNIFICAND
        invariant
            0 < v < 2 * LEAST_SIGNIFICAND,
            v == n * pow2(places as nat),
            doublings(n as nat, LEAST_SIGNIFICAND as nat) == places + doublings(
                v as nat,
                LEAST_SIGNIFICAND as nat,
            ),
            doublings(n as nat, LEAST_SIGNIFICAND as nat) <= 53,
        decreases 2 * LEAST_SIGNIFICAND - v,
    {
        proof {
            lemma_pow2_unfold((places + 1) as nat);
            assert(2 * v == n * (2 * pow2(places as nat))) by (nonlinear_arith)
                requires
                    v == n * pow2(places as nat),
            ;
        }
        v = 2 * v;
        places = places + 1;
    }
    (1074 - places) * LEAST_SIGNIFICAND + v
}

/// The binary64 number nearest to an integer.
pub fn double_of(n: u64) -> (r: Double)
    ensures
        r == integer_spec(n as nat),
{
    let nearest: u128 = round_to_double(n as u128);
    let mut v: u128 = nearest;
    let mut halvings: u64 = 0;
    proof {
        lemma_pow2_unfold_zero();
        assert(v * pow2(0) == v) by (nonlinear_arith)
            requires
                pow2(0) == 1,
        ;
    }
    while v >= 2 * LEAST_SIGNIFICAND as u128
        invariant
            halvings <= 13,
            v * pow2(halvings as nat) <= 0x2_0000_0000_0000_0000,
            integer_bits(nearest as nat) == halvings * LEAST_SIGNIFICAND + integer_bits(v as nat),
        decreases v,
    {
        proof {
            let p = pow2(halvings as nat);
            vstd::arithmetic::power2::lemma2_to64();
            assert(p <= 4096) by (nonlinear_arith)
                requires
                    v >= 2 * 0x10_0000_0000_0000,
                    v * p <= 0x2_0000_0000_0000_0000,
            ;
            if halvings > 12 {
                vstd::arithmetic::power2::lemma_pow2_strictly_increases(12, halvings as nat);
            }
            lemma_pow2_unfold((halvings + 1) as nat);
            assert((v / 2) * (2 * p) <= v * p) by (nonlinear_arith)
                requires
                    v >= 0,
                    p >= 0,
            ;
        }
        v = v / 2;
        halvings = halvings + 1;
    }
    let low: u64 = small_integer_bits(v as u64);
    Double { bits: halvings * LEAST_SIGNIFICAND + low }
}

/// Of keys whose prices are below `2^32`, a smaller one stands for a smaller price.
pub proof fn price_keeps_strict_order(key1: i64, key2: i64)
    requires
        -0x1_0000_0000 * MILLION < key1 < key2 < 0x1_0000_0000 * MILLION,
    ensures
        price_spec(key2 as int).gt(price_spec(key1 as int)),
{
    price_keeps_order(key1, key2);
    key_survives_its_price(key1);
    key_survives_its_price(key2);
    let a = price_spec(key1 as int);
    let b = price_spec(key2 as int);
    if key1 < 0 {
        lemma_nearest_exact((-key1) as nat);
        lemma_micro_bounds((-key1) as nat);
    }
    if key2 < 0 {
        lemma_nearest_exact((-key2) as nat);
        lemma_micro_bounds((-key2) as nat);
    }
    if a.rank() == b.rank() {
        assert(a.bits == b.bits);
    }
}

/// The key of a price between zero and a billion stands for a price below `2^32`.
pub proof fn key_is_in_range(price: Double)
    requires
        price.gt(Double { bits: 0 }),
        (Double { bits: BILLION_BITS }).gt(price),
    ensures
        0 <= key_spec(price) < 0x1_0000_0000 * MILLION,
{
    let a = price.significand() * MILLION as nat;
    let product = nearest_integer(a);
    lemma_nearest_bounds(a);
    let t = (-price.exponent()) as nat;
    assert(price.exponent() <= -23);
    let p = pow2(t);
    lemma_pow2_unfold(t + 1);
    lemma_pow2_pos(t);
    vstd::arithmetic::power2::lemma2_to64();
    if t > 23 {
        vstd::arithmetic::power2::lemma_pow2_strictly_increases(23, t);
    }
    assert((2 * product + p) / (2 * p) < 0x1_0000_0000 * 1_000_000) by (nonlinear_arith)
        requires
            p >= 0x80_0000,
            product <= 2 * 0x20_0000_0000_0000 * 1_000_000,
    {
        assert(2 * product + p < 0x1_0000_0000 * 1_000_000 * (2 * p));
    }
    assert((2 * product + p) / (2 * p) >= 0) by (nonlinear_arith)
        requires
            p >= 1,
            product >= 0,
    ;
}

/// Doubling an integer doubles the binary64 number nearest to it.
pub proof fn nearest_of_the_double(n: nat)
    ensures
        nearest_integer(2 * n) == 2 * nearest_integer(n),
{
    let g = granule(n);
    lemma_granule(n);
    if 2 * n < 2 * LEAST_SIGNIFICAND {
        lemma_nearest_exact(n);
        lemma_nearest_exact(2 * n);
    } else {
        assert(granule(2 * n) == 2 * g);
        let q = n / g;
        let rest = n % g;
        assert((2 * n) / (2 * g) == q && (2 * n) % (2 * g) == 2 * rest) by (nonlinear_arith)
            requires
                g >= 1,
                q == n / g,
                rest == n % g,
        {
            assert(n == g * q + rest);
            assert(2 * n == (2 * g) * q + 2 * rest);
        }
        assert(round_half_even(2 * n, 2 * g) == round_half_even(n, g));
        let r = round_half_even(n, g);
        assert(r * (2 * g) == 2 * (r * g)) by (nonlinear_arith);
    }
}

/// Scaling an integer by a power of two scales the binary64 number nearest to it.
pub proof fn nearest_of_the_scaled(n: nat, k: nat)
    ensures
        nearest_integer(n * pow2(k)) == nearest_integer(n) * pow2(k),
    decreases k,
{
    if k == 0 {
        lemma_pow2_unfold_zero();
        assert(n * 1 == n && nearest_integer(n) * 1 == nearest_integer(n));
    } else {
        let j = (k - 1) as nat;
        nearest_of_the_scaled(n, j);
        lemma_pow2_unfold(k);
        assert(n * pow2(k) == 2 * (n * pow2(j))) by (nonlinear_arith)
            requires
                pow2(k) == 2 * pow2(j),
        ;
        nearest_of_the_double(n * pow2(j));
        let m = nearest_integer(n);
        assert(m * pow2(k) == 2 * (m * pow2(j))) by (nonlinear_arith)
            requires
                pow2(k) == 2 * pow2(j),
        ;
    }
}

/// Rounding does not depend on the scale.
proof fn lemma_round_half_up_scales(a: nat, t: nat, k: nat)
    ensures
        round_half_up(a * pow2(k), t + k) == round_half_up(a, t),
{
    let p = pow2(k);
    lemma_pow2_pos(k);
    lemma_pow2_pos(t);
    lemma_pow2_pos(t + 1);
    vstd::arithmetic::power2::lemma_pow2_adds(t, k);
    vstd::arithmetic::power2::lemma_pow2_adds(t + 1, k);
    let x = 2 * a + pow2(t);
    let y = pow2(t + 1);
    assert(2 * (a * p) + pow2(t) * p == x * p) by (nonlinear_arith)
        requires
            x == 2 * a + pow2(t),
    ;
    assert((x * p) / (y * p) == x / y) by (nonlinear_arith)
        requires
            p >= 1,
            y >= 1,
    {
        let q = x / y;
        assert(y * q <= x < y * (q + 1));
        assert((y * p) * q <= x * p < (y * p) * (q + 1));
    }
}

/// An integer in units of a power of two rounds to itself.
proof fn lemma_round_half_up_exact(x: nat, t: nat)
    ensures
        round_half_up(x * pow2(t), t) == x,
{
    lemma_pow2_pos(t);
    rounds_to_the_nearest(x * pow2(t), x, t);
}

/// The rounded product of a number and an integer, by the number in the smallest unit of all.
proof fn lemma_scaled_by_value(d: Double, factor: nat)
    ensures
        scaled_round(d, factor) == round_half_up(
            nearest_integer((d.significand() * pow2((d.exponent() + 1074) as nat)) * factor),
            1074,
        ),
{
    let s = d.significand();
    let e = (d.exponent() + 1074) as nat;
    let p = nearest_integer(s * factor);
    assert((s * pow2(e)) * factor == (s * factor) * pow2(e)) by (nonlinear_arith);
    nearest_of_the_scaled(s * factor, e);
    if d.exponent() >= 0 {
        let x = d.exponent() as nat;
        vstd::arithmetic::power2::lemma_pow2_adds(x, 1074);
        assert(p * pow2(e) == (p * pow2(x)) * pow2(1074)) by (nonlinear_arith)
            requires
                pow2(e) == pow2(x) * pow2(1074),
        ;
        lemma_round_half_up_exact(p * pow2(x), 1074);
    } else {
        lemma_round_half_up_scales(p, (-d.exponent()) as nat, e);
    }
}

/// A larger number has no smaller rounded product.
pub proof fn scaled_round_keeps_order(a: Double, b: Double, factor: nat)
    requires
        a.significand() * pow2((a.exponent() + 1074) as nat) <= b.significand() * pow2(
            (b.exponent() + 1074) as nat,
        ),
    ensures
        scaled_round(a, factor) <= scaled_round(b, factor),
{
    let x = a.significand() * pow2((a.exponent() + 1074) as nat);
    let y = b.significand() * pow2((b.exponent() + 1074) as nat);
    lemma_scaled_by_value(a, factor);
    lemma_scaled_by_value(b, factor);
    assert(x * factor <= y * factor) by (nonlinear_arith)
        requires
            x <= y,
    ;
    nearest_integer_keeps_order(x * factor, y * factor);
    let m = nearest_integer(x * factor);
    let n = nearest_integer(y * factor);
    lemma_pow2_pos(1075);
    assert((2 * m + pow2(1074)) / pow2(1075) <= (2 * n + pow2(1074)) / pow2(1075))
        by (nonlinear_arith)
        requires
            m <= n,
            pow2(1075) >= 1,
    ;
}

/// One times an integer below `2^53` is that integer.
pub proof fn one_scales_to_itself(one: Double, factor: nat)
    requires
        one.bits == 0x3ff0_0000_0000_0000,
        factor < 2 * LEAST_SIGNIFICAND,
    ensures
        scaled_round(one, factor) == factor,
{
    vstd::arithmetic::power2::lemma2_to64();
    vstd::arithmetic::power2::lemma2_to64_rest();
    lemma_nearest_exact(factor);
    nearest_of_the_scaled(factor, 52);
    assert(one.significand() * factor == factor * pow2(52)) by (nonlinear_arith)
        requires
            one.significand() == 0x10_0000_0000_0000,
            pow2(52) == 0x10_0000_0000_0000,
    ;
    lemma_round_half_up_exact(factor, 52);
}

/// An integer below `2^53` is its own nearest binary64 number.
pub proof fn small_integers_are_exact(n: nat)
    requires
        n < 2 * LEAST_SIGNIFICAND,
    ensures
        nearest_integer(n) == n,
{
    lemma_nearest_exact(n);
}

/// The binary64 number nearest to an integer is at least half of it, and at most twice.
pub proof fn nearest_is_near(n: nat)
    ensures
        n <= 2 * nearest_integer(n),
        nearest_integer(n) <= 2 * n,
{
    lemma_nearest_at_least_half(n);
    lemma_nearest_bounds(n);
}

/// Nothing times an integer is nothing.
pub proof fn nothing_scales_to_nothing(zero: Double, factor: nat)
    requires
        zero.bits == 0,
    ensures
        scaled_round(zero, factor) == 0,
{
    assert(zero.significand() * factor == 0) by (nonlinear_arith)
        requires
            zero.significand() == 0,
    ;
    lemma_nearest_exact(0);
    lemma_pow2_pos(1074);
    lemma_small_rounds_to_zero(0, 1074);
}

/// The distance between neighbours divides every power of two past it, and no integer has more
/// than 53 bits of it.
pub proof fn granule_divides(n: nat, k: nat) -> (times: nat)
    requires
        n < 2 * LEAST_SIGNIFICAND * pow2(k),
    ensures
        times * granule(n) == pow2(k),
        n < 2 * LEAST_SIGNIFICAND * granule(n),
        1 <= granule(n) <= pow2(k),
    decreases k,
{
    lemma_pow2_pos(k);
    lemma_granule(n);
    if n < 2 * LEAST_SIGNIFICAND {
        assert(pow2(k) * granule(n) == pow2(k)) by (nonlinear_arith)
            requires
                granule(n) == 1,
        ;
        pow2(k)
    } else {
        if k == 0 {
            lemma_pow2_unfold_zero();
        }
        lemma_pow2_unfold(k);
        let low = pow2((k - 1) as nat);
        assert(2 * LEAST_SIGNIFICAND * pow2(k) == 2 * (2 * LEAST_SIGNIFICAND * low))
            by (nonlinear_arith)
            requires
                pow2(k) == 2 * low,
        ;
        let times = granule_divides(n / 2, (k - 1) as nat);
        let g = granule(n / 2);
        assert(times * (2 * g) == 2 * low) by (nonlinear_arith)
            requires
                times * g == low,
        ;
        assert(n < 2 * LEAST_SIGNIFICAND * (2 * g)) by (nonlinear_arith)
            requires
                n / 2 < 2 * LEAST_SIGNIFICAND * g,
        ;
        times
    }
}

/// An integer that binary64 holds and that is nearest to another is what it rounds to.
pub proof fn nearest_is_found(n: nat, m: nat)
    requires
        -granule(n) < 2 * (m * granule(n) - n) < granule(n),
    ensures
        nearest_integer(n) == m * granule(n),
{
    let g = granule(n);
    let q = n / g;
    let rest = n % g;
    assert(n == g * q + rest && 0 <= rest < g) by (nonlinear_arith)
        requires
            g > 0,
            q == n / g,
            rest == n % g,
    ;
    assert((m == q && 2 * rest < g) || (m == q + 1 && 2 * rest > g)) by (nonlinear_arith)
        requires
            n == g * q + rest,
            0 <= rest < g,
            -g < 2 * (m * g - n) < g,
    {
        if m < q {
            assert(m * g <= (q - 1) * g);
        } else if m > q + 1 {
            assert(m * g >= (q + 2) * g);
        }
        assert((q + 1) * g == g * q + g);
        assert((q - 1) * g == g * q - g);
        assert((q + 2) * g == g * q + 2 * g);
    }
}

/// The binary64 number nearest to an integer is off by half of the distance between neighbours at
/// most.
pub proof fn nearest_within(n: nat)
    ensures
        -granule(n) <= 2 * (nearest_integer(n) - n) <= granule(n),
{
    lemma_granule(n);
    lemma_round_error(n, granule(n));
}

} // verus!
