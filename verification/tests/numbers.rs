use bbot_recon::arithmetic::{HUNDRED_BITS, TEN_THOUSAND_BITS, THOUSAND_BITS, TWO_BITS};
use bbot_recon::double::{
    Double, BILLION_BITS, DUST_BITS, FIVE_BITS, INFINITY_BITS, SIGN_BIT, TEN_BITS,
};
use bbot_recon::feed_analyzer::fmt_ms_from_ns;
use bbot_recon::percentile::{
    percentile, percentile_i64, percentile_u64, position_in, NAN_BITS, P50_BITS, P95_BITS, P99_BITS,
    WHOLE_BITS,
};
use bbot_recon::rounding::{
    double_of, key_of_price, price_of_key, round_to_double, tenths_of_ms,
};
use bbot_recon::sorting::{order_of, sorted_doubles, sorted_i64, sorted_u64};

fn d(x: f64) -> Double {
    Double { bits: x.to_bits() }
}

fn f(x: Double) -> f64 {
    f64::from_bits(x.bits)
}

fn next(seed: &mut u64) -> u64 {
    *seed = seed.wrapping_mul(6364136223846793005).wrapping_add(1442695040888963407);
    *seed ^ (*seed >> 29)
}

#[test]
fn constants_are_the_numbers_that_they_name() {
    assert_eq!(INFINITY_BITS, f64::INFINITY.to_bits());
    assert_eq!(SIGN_BIT, (-0.0_f64).to_bits());
    assert_eq!(SIGN_BIT + INFINITY_BITS, f64::NEG_INFINITY.to_bits());
    assert_eq!(DUST_BITS, 1e-12_f64.to_bits());
    assert_eq!(FIVE_BITS, 5.0_f64.to_bits());
    assert_eq!(BILLION_BITS, 1e9_f64.to_bits());
    assert_eq!(TEN_BITS, 10.0_f64.to_bits());
    assert!(f64::from_bits(NAN_BITS).is_nan());
    assert_eq!(WHOLE_BITS, 1.0_f64.to_bits());
    assert_eq!(P50_BITS, 0.50_f64.to_bits());
    assert_eq!(P95_BITS, 0.95_f64.to_bits());
    assert_eq!(P99_BITS, 0.99_f64.to_bits());
    assert_eq!(TWO_BITS, 2.0_f64.to_bits());
    assert_eq!(HUNDRED_BITS, 100.0_f64.to_bits());
    assert_eq!(THOUSAND_BITS, 1000.0_f64.to_bits());
    assert_eq!(TEN_THOUSAND_BITS, 10_000.0_f64.to_bits());
}

#[test]
fn comparisons_are_those_of_floats() {
    let values = [
        0.0, -0.0, 1.0, -1.0, 1e-12, 2e-12, 1e300, -1e300, f64::INFINITY, f64::NEG_INFINITY,
        f64::NAN, f64::MIN_POSITIVE, 5e-324, -5e-324,
    ];
    for a in values {
        assert_eq!(d(a).is_nan(), a.is_nan());
        assert_eq!(d(a).is_finite(), a.is_finite());
        for b in values {
            assert_eq!(d(a).exceeds(d(b)), a > b, "{a} > {b}");
            assert_eq!(d(a).at_most(d(b)), a <= b, "{a} <= {b}");
            let m = f(d(a).lesser(d(b)));
            let expected = a.min(b);
            assert!(m == expected || (m.is_nan() && expected.is_nan()), "min {a} {b}");
            if !a.is_nan() && !b.is_nan() {
                assert_eq!(d(a).order_key() < d(b).order_key(), a < b);
            }
        }
    }
}

#[test]
fn prices_are_those_of_a_division() {
    let mut seed: u64 = 1;
    let mut keys: Vec<i64> = vec![
        0, 1, -1, 5, 999_999, 1_000_000, 65_000_100_000, -65_000_100_000, i64::MAX, i64::MIN,
        i64::MAX - 1, 9_007_199_254_740_993, 9_007_199_254_740_991, 4_294_967_296_000_000,
    ];
    for _ in 0..20_000 {
        let shift = next(&mut seed) % 63;
        keys.push((next(&mut seed) >> shift) as i64);
    }
    for key in keys {
        let expected = key as f64 / 1_000_000.0;
        assert_eq!(f(price_of_key(key)), expected, "{key}");
    }
    assert_eq!(price_of_key(0).bits, 0);
    assert_eq!(price_of_key(65_000_100_000).bits, 65000.1_f64.to_bits());
}

#[test]
fn keys_are_those_of_a_rounded_product() {
    let mut seed: u64 = 7;
    let mut prices: Vec<f64> = vec![
        0.0, -0.0, 0.0000005, 0.0000015, -0.0000005, 0.4999999e-6, 65000.1, 1e13, 1e12, -1e13,
        9.3e12, 1e300, -1e300, f64::MAX, f64::MIN, f64::INFINITY, f64::NEG_INFINITY, f64::NAN,
        f64::MIN_POSITIVE, 5e-324, 9223372036854.775, 9223372036854.777, 4503599627.3704955,
        4503599627.370496, 0.1, 0.2, 0.3, 1234.5678915,
    ];
    for _ in 0..20_000 {
        let mantissa = (next(&mut seed) >> 12) as f64;
        let scale = 10f64.powi((next(&mut seed) % 24) as i32 - 14);
        prices.push(mantissa * scale * 1e-3);
        prices.push(f64::from_bits(next(&mut seed)));
        prices.push((next(&mut seed) % 1_000_000_000) as f64 / 2_000_000.0);
    }
    for price in prices {
        let expected = (price * 1_000_000.0).round() as i64;
        assert_eq!(key_of_price(d(price)), expected, "{price:e}");
    }
}

#[test]
fn keys_survive_their_prices() {
    for key in [0i64, 1, -1, 123_456_789, 65_000_100_000, -4_000_000_000_000_001] {
        assert_eq!(key_of_price(price_of_key(key)), key);
    }
}

#[test]
fn prices_keep_the_order_of_their_keys() {
    let keys = [-10_000_001i64, -10_000_000, -1, 0, 1, 10_000_000, 10_000_001];
    for w in keys.windows(2) {
        assert!(f(price_of_key(w[0])) < f(price_of_key(w[1])));
    }
}

#[test]
fn integers_round_as_floats_do() {
    for n in [0u64, 1, 2, 3, 1000, 1 << 52, (1 << 53) - 1, 1 << 53, 1 << 63, 9_007_199_254_740_993, 9_007_199_254_740_995, u64::MAX, u64::MAX - 1024] {
        assert_eq!(round_to_double(n as u128), n as f64 as u128);
        assert_eq!(double_of(n), d(n as f64));
    }
    let mut seed: u64 = 9;
    for _ in 0..20_000 {
        let shift = next(&mut seed) % 64;
        let n = next(&mut seed) >> shift;
        assert_eq!(double_of(n), d(n as f64), "{n}");
    }
}

#[test]
fn milliseconds_are_shown_as_a_float_is() {
    let mut seed: u64 = 3;
    let mut spans: Vec<u64> = vec![
        0, 1, 49_999, 50_000, 50_001, 150_000, 250_000, 350_000, 1_000_000, 1_050_000, 1_150_000,
        12_345_678, 99_950_000, 999_950_000, u64::MAX, u64::MAX / 3, 1 << 53, (1 << 53) + 1,
    ];
    for _ in 0..20_000 {
        let shift = next(&mut seed) % 63;
        spans.push(next(&mut seed) >> shift);
        spans.push((next(&mut seed) % 1_000_000) * 50_000);
    }
    for ns in spans {
        assert_eq!(fmt_ms_from_ns(ns), format!("{:.1}", ns as f64 / 1_000_000.0), "{ns}");
    }
    assert_eq!(fmt_ms_from_ns(12_345_678), "12.3");
    assert_eq!(tenths_of_ms(12_345_678), 123);
}

fn plain_position(share: f64, len: usize) -> usize {
    (((len as f64 - 1.0) * share).round() as usize).min(len - 1)
}

#[test]
fn percentile_positions_are_those_of_floats() {
    let mut shares = vec![
        -0.0,
        -1.0,
        -0.4,
        2.0,
        1.0 / 3.0,
        1e-300,
        1e300,
        f64::MIN_POSITIVE / 4.0,
        f64::NAN,
        -f64::NAN,
        f64::INFINITY,
        f64::NEG_INFINITY,
        f64::EPSILON,
        1.0 - f64::EPSILON / 2.0,
        1.0 + f64::EPSILON,
    ];
    shares.extend((0..=100).map(|percent| percent as f64 / 100.0));
    let mut seed: u64 = 3;
    shares.extend((0..40).map(|_| f64::from_bits(next(&mut seed))));
    shares.extend((0..40).map(|_| next(&mut seed) as f64 / u64::MAX as f64));
    let large = [10_000, 65_536, 1_000_001, 123_456_789, (1 << 53) + 2, usize::MAX];
    for len in (1usize..300).chain(large) {
        for share in &shares {
            assert_eq!(position_in(d(*share), len), plain_position(*share, len), "{share} of {len}");
        }
    }
    assert_eq!(position_in(d(0.29), 51), 14);
}

#[test]
fn percentiles_of_rows() {
    let row: Vec<u64> = (1..=100).collect();
    assert_eq!(percentile_u64(&row, d(0.50)), 51);
    assert_eq!(percentile_u64(&row, d(0.95)), 95);
    assert_eq!(percentile_u64(&row, d(0.99)), 99);
    assert_eq!(percentile_u64(&[], d(0.50)), 0);
    assert_eq!(percentile_u64(&[7], d(0.99)), 7);
    let row: Vec<i64> = vec![-5, -1, 0, 3];
    assert_eq!(percentile_i64(&row, d(0.50)), 0);
    assert_eq!(percentile_i64(&row, d(0.95)), 3);
    assert_eq!(percentile_i64(&[], d(0.95)), 0);
    let row = vec![d(-1.5), d(0.25), d(2.0)];
    assert_eq!(percentile(&row, d(0.50)), d(0.25));
    assert_eq!(percentile(&row, d(0.99)), d(2.0));
    assert!(f(percentile(&[], d(0.50))).is_nan());
    assert_eq!(percentile(&row, d(-0.07)), d(-1.5));
    assert_eq!(percentile(&row, d(f64::NAN)), d(-1.5));
    let row: Vec<u64> = vec![10, 20, 30, 40];
    assert_eq!(percentile_u64(&row, d(0.50)), 30);
    assert_eq!(percentile_u64(&row, d(0.95)), 40);
    assert_eq!(percentile_u64(&row, d(0.10)), 10);
    assert_eq!(percentile_u64(&row, d(0.1667)), 20);
    let row: Vec<i64> = vec![-9, -4, 2, 8];
    assert_eq!(percentile_i64(&row, d(0.50)), 2);
    assert_eq!(percentile_i64(&row, d(2.0)), 8);
    assert_eq!(percentile_i64(&row, d(-1.0)), -9);
}

#[test]
fn percentiles_climb_from_the_first_item_to_the_last() {
    let row: Vec<u64> = (0..37).map(|i| i * i).collect();
    assert_eq!(percentile_u64(&row, d(0.0)), 0);
    assert_eq!(percentile_u64(&row, d(1.0)), 36 * 36);
    for step in -30..1030 {
        let share = |n: i32| d(n as f64 / 1000.0);
        let (low, high) = (percentile_u64(&row, share(step)), percentile_u64(&row, share(step + 1)));
        assert!(low <= high && row.contains(&low));
    }
}

#[test]
fn half_of_a_row_stands_in_its_middle() {
    for len in 1usize..1000 {
        assert_eq!(position_in(d(0.5), len), len / 2);
    }
}

#[test]
fn rows_are_sorted() {
    assert_eq!(sorted_u64(&vec![3, 1, 2, 1, u64::MAX, 0]), vec![0, 1, 1, 2, 3, u64::MAX]);
    assert_eq!(sorted_i64(&vec![3, -1, i64::MIN, 2, i64::MAX]), vec![i64::MIN, -1, 2, 3, i64::MAX]);
    let sorted = sorted_doubles(&vec![d(2.5), d(-1.0), d(0.0), d(f64::INFINITY), d(-0.0), d(1e-9)]);
    let sorted: Vec<f64> = sorted.into_iter().map(f).collect();
    assert_eq!(sorted, vec![-1.0, 0.0, -0.0, 1e-9, 2.5, f64::INFINITY]);
    assert!(sorted[1].is_sign_positive() && sorted[2].is_sign_negative());
}

#[test]
fn ties_stay_in_place() {
    assert_eq!(order_of(&vec![5, 1, 5, 0, 1]), vec![3, 1, 4, 0, 2]);
    assert_eq!(order_of(&vec![]), Vec::<usize>::new());
}
