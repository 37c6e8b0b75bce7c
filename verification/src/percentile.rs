//! Percentiles of sorted rows.

use vstd::arithmetic::power2::pow2;
use vstd::prelude::*;
use vstd::slice::*;

use crate::double::{Double, SIGN_BIT};
use crate::exact::sizes_are_in_order;
use crate::rounding::{
    granule, granule_divides, nearest_integer, nearest_is_found, nearest_within,
    nearest_integer_keeps_order, nearest_is_near, nearest_of_the_double, nearest_of_the_scaled,
    nothing_scales_to_nothing, one_scales_to_itself, round_to_double, rounds_to_the_nearest,
    scaled_round, scaled_round_keeps_order, scaled_size, small_integers_are_exact,
    LEAST_SIGNIFICAND,
};
use crate::sorting::{rises_i64, rises_u64};

verus! {

/// The bit pattern of the NaN that stands for the percentile of nothing.
pub const NAN_BITS: u64 = 0x7ff8_0000_0000_0000;

/// The bit pattern of `1.0`, the share of the whole.
pub const WHOLE_BITS: u64 = 0x3ff0_0000_0000_0000;

/// The bit pattern of `0.50`.
pub const P50_BITS: u64 = 0x3fe0_0000_0000_0000;

/// The bit pattern of `0.95`.
pub const P95_BITS: u64 = 0x3fee_6666_6666_6666;

/// The bit pattern of `0.99`.
pub const P99_BITS: u64 = 0x3fef_ae14_7ae1_47ae;

/// The last position of a row of `len` items as a binary64 number: the length as one, less one.
pub open spec fn last_position(len: nat) -> nat
    recommends
        len > 0,
{
    nearest_integer((nearest_integer(len) - 1) as nat)
}

/// The position of a percentile in a sorted row of `len` items: the share of the last position, as
/// a binary64 number, rounded to the nearest position, and up where two are as near. A share that
/// is not above zero, or no number, is that of the first item, and one past the end that of the
/// last.
pub open spec fn position(share: Double, len: nat) -> nat
    recommends
        len > 0,
{
    let index = if share.nan() || share.bits >= SIGN_BIT {
        0
    } else {
        scaled_round(share, last_position(len))
    };
    if index < len {
        index
    } else {
        (len - 1) as nat
    }
}

proof fn lemma_last_position(len: nat)
    requires
        len > 0,
    ensures
        len <= 4 * last_position(len) + 2,
        len == 1 ==> last_position(len) == 0,
        len <= 2 * LEAST_SIGNIFICAND ==> last_position(len) == len - 1,
{
    nearest_is_near(len);
    let n = nearest_integer(len);
    nearest_is_near((n - 1) as nat);
    if len < 2 * LEAST_SIGNIFICAND {
        small_integers_are_exact(len);
        small_integers_are_exact((len - 1) as nat);
    } else if len == 2 * LEAST_SIGNIFICAND {
        nearest_of_the_double(LEAST_SIGNIFICAND as nat);
        small_integers_are_exact(LEAST_SIGNIFICAND as nat);
        small_integers_are_exact((len - 1) as nat);
    }
}

/// The position of a percentile in a sorted row of `len` items.
pub fn position_in(share: Double, len: usize) -> (r: usize)
    requires
        len > 0,
    ensures
        r == position(share, len as nat),
        r < len,
{
    if share.is_nan() || share.bits >= SIGN_BIT {
        return 0;
    }
    proof {
        lemma_last_position(len as nat);
    }
    let whole: u128 = round_to_double(len as u128);
    let last: u128 = round_to_double(whole - 1);
    proof {
        let most: nat = 0x1_0000_0000_0000_0000;
        vstd::arithmetic::power2::lemma2_to64();
        small_integers_are_exact(1);
        nearest_of_the_scaled(1, 64);
        nearest_integer_keeps_order(len as nat, most);
        nearest_integer_keeps_order((whole - 1) as nat, most);
    }
    if last == 0 {
        return 0;
    }
    match scaled_size(share, last) {
        Some(index) => {
            if index < len as u128 {
                index as usize
            } else {
                len - 1
            }
        },
        None => {
            assert(0x8_0000_0000_0000 * last >= 4 * last + 2);
            len - 1
        },
    }
}

/// A percentile of a sorted row of counts, or 0 where the row is empty.
pub fn percentile_u64(sorted: &[u64], share: Double) -> (r: u64)
    ensures
        r == if sorted@.len() == 0 {
            0
        } else {
            sorted@[position(share, sorted@.len()) as int]
        },
{
    if sorted.len() == 0 {
        return 0;
    }
    sorted[position_in(share, sorted.len())]
}

/// A percentile of a sorted row of signed numbers, or 0 where the row is empty.
pub fn percentile_i64(sorted: &[i64], share: Double) -> (r: i64)
    ensures
        r == if sorted@.len() == 0 {
            0
        } else {
            sorted@[position(share, sorted@.len()) as int]
        },
{
    if sorted.len() == 0 {
        return 0;
    }
    sorted[position_in(share, sorted.len())]
}

/// A percentile of a sorted row of binary64 numbers, or a NaN where the row is empty.
pub fn percentile(sorted: &[Double], share: Double) -> (r: Double)
    ensures
        r == if sorted@.len() == 0 {
            Double { bits: NAN_BITS }
        } else {
            sorted@[position(share, sorted@.len()) as int]
        },
{
    if sorted.len() == 0 {
        return Double { bits: NAN_BITS };
    }
    sorted[position_in(share, sorted.len())]
}

/// A larger share stands no earlier in a row, and every share stands in it: one that is not above
/// zero at the first item, and, in a row that binary64 can count, the whole and more at the last.
pub proof fn positions_climb(lower: Double, higher: Double, len: nat)
    requires
        lower.le(higher),
        len > 0,
    ensures
        position(lower, len) <= position(higher, len) < len,
        lower.le(Double { bits: 0 }) ==> position(lower, len) == 0,
        len <= 2 * LEAST_SIGNIFICAND && (Double { bits: WHOLE_BITS }).le(higher) ==> position(
            higher,
            len,
        ) == len - 1,
{
    let last = last_position(len);
    let one = Double { bits: WHOLE_BITS };
    if lower.bits < SIGN_BIT && higher.bits < SIGN_BIT {
        sizes_are_in_order(lower, higher);
        scaled_round_keeps_order(lower, higher, last);
    }
    if lower.le(Double { bits: 0 }) && lower.bits < SIGN_BIT {
        assert(lower.bits == 0);
        nothing_scales_to_nothing(lower, last);
    }
    if len <= 2 * LEAST_SIGNIFICAND && one.le(higher) {
        lemma_last_position(len);
        sizes_are_in_order(one, higher);
        scaled_round_keeps_order(one, higher, last);
        one_scales_to_itself(one, last);
    }
}

/// Of a sorted row of counts the percentile of a larger share is no smaller. Each is an item of the
/// row, that of nothing its first, and that of the whole its last where binary64 can count the row.
pub proof fn percentiles_climb(sorted: Seq<u64>, lower: Double, higher: Double)
    requires
        sorted.len() > 0,
        rises_u64(sorted),
        lower.le(higher),
    ensures
        sorted[position(lower, sorted.len()) as int] <= sorted[position(
            higher,
            sorted.len(),
        ) as int],
        sorted.contains(sorted[position(lower, sorted.len()) as int]),
        sorted.contains(sorted[position(higher, sorted.len()) as int]),
        sorted[position(Double { bits: 0 }, sorted.len()) as int] == sorted.first(),
        sorted.len() <= 2 * LEAST_SIGNIFICAND ==> sorted[position(
            Double { bits: WHOLE_BITS },
            sorted.len(),
        ) as int] == sorted.last(),
{
    positions_climb(lower, higher, sorted.len());
    positions_climb(Double { bits: 0 }, Double { bits: WHOLE_BITS }, sorted.len());
}

/// Of a sorted row of signed numbers the percentile of a larger share is no smaller. Each is an item
/// of the row, that of nothing its first, and that of the whole its last where binary64 can count
/// the row.
pub proof fn signed_percentiles_climb(sorted: Seq<i64>, lower: Double, higher: Double)
    requires
        sorted.len() > 0,
        rises_i64(sorted),
        lower.le(higher),
    ensures
        sorted[position(lower, sorted.len()) as int] <= sorted[position(
            higher,
            sorted.len(),
        ) as int],
        sorted.contains(sorted[position(lower, sorted.len()) as int]),
        sorted.contains(sorted[position(higher, sorted.len()) as int]),
        sorted[position(Double { bits: 0 }, sorted.len()) as int] == sorted.first(),
        sorted.len() <= 2 * LEAST_SIGNIFICAND ==> sorted[position(
            Double { bits: WHOLE_BITS },
            sorted.len(),
        ) as int] == sorted.last(),
{
    positions_climb(lower, higher, sorted.len());
    positions_climb(Double { bits: 0 }, Double { bits: WHOLE_BITS }, sorted.len());
}

/// Of a row of binary64 numbers in order the percentile of a larger share is no smaller. Each is an
/// item of the row, that of nothing its first, and that of the whole its last where binary64 can
/// count the row.
pub proof fn binary_percentiles_climb(sorted: Seq<Double>, lower: Double, higher: Double)
    requires
        sorted.len() > 0,
        forall|i: int, j: int|
            0 <= i <= j < sorted.len() ==> (#[trigger] sorted[i]).rank() <= (
            #[trigger] sorted[j]).rank(),
        lower.le(higher),
    ensures
        sorted[position(lower, sorted.len()) as int].rank() <= sorted[position(
            higher,
            sorted.len(),
        ) as int].rank(),
        sorted.contains(sorted[position(lower, sorted.len()) as int]),
        sorted.contains(sorted[position(higher, sorted.len()) as int]),
        sorted[position(Double { bits: 0 }, sorted.len()) as int] == sorted.first(),
        sorted.len() <= 2 * LEAST_SIGNIFICAND ==> sorted[position(
            Double { bits: WHOLE_BITS },
            sorted.len(),
        ) as int] == sorted.last(),
{
    positions_climb(lower, higher, sorted.len());
    positions_climb(Double { bits: 0 }, Double { bits: WHOLE_BITS }, sorted.len());
}

/// The position of a share is the nearest one: that from which the product of the significand and
/// the last position, in units of two to the power of minus the exponent, is off by half at most.
pub proof fn position_is_nearest(share: Double, len: nat, index: nat)
    requires
        share.finite(),
        share.bits < SIGN_BIT,
        share.exponent() < 0,
        index < len <= 2 * LEAST_SIGNIFICAND,
        (2 * index - 1) * pow2((-share.exponent()) as nat) <= 2 * nearest_integer(
            share.significand() * (len - 1) as nat,
        ) < (2 * index + 1) * pow2((-share.exponent()) as nat),
    ensures
        position(share, len) == index,
{
    lemma_last_position(len);
    let p = pow2((-share.exponent()) as nat);
    let product = nearest_integer(share.significand() * (len - 1) as nat);
    assert(-p <= 2 * (product - index * p) < p) by (nonlinear_arith)
        requires
            (2 * index - 1) * p <= 2 * product < (2 * index + 1) * p,
    ;
    rounds_to_the_nearest(product, index, (-share.exponent()) as nat);
}

/// Half of a row that binary64 can count stands in its middle.
pub proof fn half_stands_in_the_middle(len: nat)
    requires
        0 < len <= 2 * LEAST_SIGNIFICAND,
    ensures
        position(Double { bits: P50_BITS }, len) == len / 2,
{
    let half = Double { bits: P50_BITS };
    let last = (len - 1) as nat;
    let index = len / 2;
    small_integers_are_exact(last);
    nearest_of_the_scaled(last, 52);
    vstd::arithmetic::power2::lemma2_to64();
    vstd::arithmetic::power2::lemma2_to64_rest();
    assert(half.significand() * last == last * pow2(52)) by (nonlinear_arith)
        requires
            half.significand() == 0x10_0000_0000_0000,
            pow2(52) == 0x10_0000_0000_0000,
    ;
    assert((2 * index - 1) * pow2(53) <= 2 * (last * pow2(52)) < (2 * index + 1) * pow2(53))
        by (nonlinear_arith)
        requires
            pow2(53) == 0x20_0000_0000_0000,
            pow2(52) == 0x10_0000_0000_0000,
            2 * index - 1 <= last < 2 * index + 1,
    ;
    position_is_nearest(half, len, index);
}

/// A share that falls short of some hundredths by no more than binary64 has to, stands at the
/// nearest hundredths of a row, and up where two positions are as near.
proof fn lemma_hundredths(share: Double, percent: nat, missed: nat, len: nat)
    requires
        share.finite(),
        share.bits < SIGN_BIT,
        share.exponent() == -53,
        100 * share.significand() == percent * 0x20_0000_0000_0000 - missed,
        2 * missed < percent <= 100,
        0 < len <= 0x2000_0000_0000,
    ensures
        position(share, len) == (percent * (len - 1) + 50) / 100,
{
    let s = share.significand();
    let last = (len - 1) as nat;
    let n = s * last;
    let index = ((percent * last + 50) / 100) as nat;
    let product = nearest_integer(n);
    vstd::arithmetic::power2::lemma2_to64();
    vstd::arithmetic::power2::lemma2_to64_rest();
    assert(100 * n == percent * last * 0x20_0000_0000_0000 - missed * last) by (nonlinear_arith)
        requires
            n == s * last,
            100 * s == percent * 0x20_0000_0000_0000 - missed,
    ;
    assert(n < 0x20_0000_0000_0000 * pow2(45) && index < len) by (nonlinear_arith)
        requires
            n == s * last,
            100 * s <= percent * 0x20_0000_0000_0000,
            percent <= 100,
            last < 0x2000_0000_0000,
            pow2(45) == 0x2000_0000_0000,
            index == (percent * last + 50) / 100,
            len == last + 1,
    {
        assert(s <= 0x20_0000_0000_0000);
        assert(s * last <= 0x20_0000_0000_0000 * last);
        assert(percent * last <= 100 * last);
    }
    let times = granule_divides(n, 45);
    let g = granule(n);
    let a = percent * last;
    nearest_within(n);
    // not below
    let m = (2 * index - 1) * 0x10_0000_0000_0000;
    assert(100 * m <= 100 * n + missed * last) by {
        assert((2 * index - 1) * 50 <= a);
    }
    if m <= n {
        if index > 0 {
            small_integers_are_exact((2 * index - 1) as nat);
            nearest_of_the_scaled((2 * index - 1) as nat, 52);
            assert((2 * index - 1) as nat * pow2(52) == m) by (nonlinear_arith)
                requires
                    m == (2 * index - 1) * 0x10_0000_0000_0000,
                    pow2(52) == 0x10_0000_0000_0000,
                    index > 0,
            ;
            nearest_integer_keeps_order(m as nat, n);
        }
    } else {
        assert(last > 0) by (nonlinear_arith)
            requires
                100 * m <= 100 * n + missed * last,
                m > n,
        ;
        assert(2 * (missed * last) < 100 * g) by (nonlinear_arith)
            requires
                100 * n == percent * last * 0x20_0000_0000_0000 - missed * last,
                n < 0x20_0000_0000_0000 * g,
                2 * missed < percent,
                last > 0,
                last < 0x2000_0000_0000,
                percent <= 100,
        {
            assert(percent * last >= 2 * missed * last + last);
            assert(missed * last <= 50 * last);
            assert(percent * last * 0x20_0000_0000_0000 >= (2 * missed * last + last)
                * 0x20_0000_0000_0000);
        }
        assert(0x80 * (times * g) == 0x10_0000_0000_0000);
        let k = ((2 * index - 1) * (0x80 * times)) as nat;
        assert(k * g == m) by (nonlinear_arith)
            requires
                k == (2 * index - 1) * (0x80 * times),
                0x80 * (times * g) == 0x10_0000_0000_0000,
                m == (2 * index - 1) * 0x10_0000_0000_0000,
        ;
        nearest_is_found(n, k);
    }
    // not past
    assert((2 * index + 1) * 50 >= a + 1);
    assert(2 * product < (2 * index + 1) * 0x20_0000_0000_0000) by (nonlinear_arith)
        requires
            2 * product <= 2 * n + g,
            g <= 0x2000_0000_0000,
            100 * n <= a * 0x20_0000_0000_0000,
            (2 * index + 1) * 50 >= a + 1,
    ;
    assert((2 * index - 1) * 0x20_0000_0000_0000 <= 2 * product);
    position_is_nearest(share, len, index);
}

/// In a row of up to `2^45` items, `0.50`, `0.95` and `0.99` stand at the nearest hundredths of the
/// last position: where two are as near, at the later one.
pub proof fn shares_stand_at_their_hundredths(len: nat)
    requires
        0 < len <= 0x2000_0000_0000,
    ensures
        position(Double { bits: 0x3fe0_0000_0000_0000 }, len) == (50 * (len - 1) + 50) / 100,
        position(Double { bits: 0x3fee_6666_6666_6666 }, len) == (95 * (len - 1) + 50) / 100,
        position(Double { bits: 0x3fef_ae14_7ae1_47ae }, len) == (99 * (len - 1) + 50) / 100,
{
    lemma_hundredths(Double { bits: 0x3fe0_0000_0000_0000 }, 50, 0, len);
    lemma_hundredths(Double { bits: 0x3fee_6666_6666_6666 }, 95, 40, len);
    lemma_hundredths(Double { bits: 0x3fef_ae14_7ae1_47ae }, 99, 8, len);
}

} // verus!
