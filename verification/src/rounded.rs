//! What a trade costs where every operation rounds, as binary64 does.

use vstd::arithmetic::power::{lemma_pow0, lemma_pow1, lemma_pow_adds, lemma_pow_positive, pow};
use vstd::prelude::*;

use crate::arithmetic::{answers, Answers, Op};
use crate::depth::{
    cost_of, is_sound, larger_amount_costs_no_less, lemma_cost_bounds, lemma_offered,
    lemma_prices_by_value, lemma_tail_is_sound, offered,
};
use crate::double::{Double, DUST_BITS};
use crate::exact::{
    lesser_has_the_lesser_value, unit, unit_is_positive, value, values_are_in_order,
    zero_is_nothing,
};
use crate::tick::{falling, rising, Level};
use crate::trades::{is_short, is_swept, is_taken, is_vwap, Side};

verus! {

/// Two to the power of 53: one part in that many is the most that one rounding adds or takes.
pub const PARTS: u64 = 0x20_0000_0000_0000;

/// Whether a number is at most another, up to so many roundings.
pub open spec fn no_more(roundings: nat, x: int, y: int) -> bool {
    x * pow(PARTS as int, roundings) <= y * pow(PARTS + 1, roundings)
}

/// Whether two numbers are the same, up to so many roundings.
pub open spec fn is_about(roundings: nat, x: int, y: int) -> bool {
    no_more(roundings, x, y) && no_more(roundings, y, x)
}

proof fn lemma_powers(n: nat)
    ensures
        pow(PARTS as int, n) > 0,
        pow(PARTS + 1, n) > 0,
        pow(PARTS as int, n) <= pow(PARTS + 1, n),
    decreases n,
{
    lemma_pow_positive(PARTS as int, n);
    lemma_pow_positive(PARTS + 1, n);
    if n == 0 {
        lemma_pow0(PARTS as int);
        lemma_pow0(PARTS + 1);
    } else {
        let m = (n - 1) as nat;
        lemma_powers(m);
        lemma_pow1(PARTS as int);
        lemma_pow1(PARTS + 1);
        lemma_pow_adds(PARTS as int, m, 1);
        lemma_pow_adds(PARTS + 1, m, 1);
        let a = pow(PARTS as int, m);
        let b = pow(PARTS + 1, m);
        assert(a * PARTS <= b * (PARTS + 1)) by (nonlinear_arith)
            requires
                0 < a <= b,
        ;
    }
}

/// What is at most a number is so up to any roundings.
proof fn lemma_no_more(n: nat, x: int, y: int)
    requires
        x <= y,
        0 <= y,
    ensures
        no_more(n, x, y),
{
    lemma_powers(n);
    let a = pow(PARTS as int, n);
    let b = pow(PARTS + 1, n);
    assert(x * a <= y * b) by (nonlinear_arith)
        requires
            x <= y,
            0 <= y,
            0 < a <= b,
    {
        assert(x * a <= y * a);
        assert(y * a <= y * b);
    }
}

/// Roundings in a row add up.
proof fn lemma_chain(m: nat, n: nat, x: int, y: int, z: int)
    requires
        no_more(m, x, y),
        no_more(n, y, z),
    ensures
        no_more(m + n, x, z),
{
    lemma_powers(m);
    lemma_powers(n);
    lemma_pow_adds(PARTS as int, m, n);
    lemma_pow_adds(PARTS + 1, m, n);
    let a = pow(PARTS as int, m);
    let b = pow(PARTS + 1, m);
    let c = pow(PARTS as int, n);
    let d = pow(PARTS + 1, n);
    assert(x * (a * c) <= z * (b * d)) by (nonlinear_arith)
        requires
            x * a <= y * b,
            y * c <= z * d,
            b > 0,
            c > 0,
    {
        assert(x * (a * c) == (x * a) * c);
        assert((x * a) * c <= (y * b) * c);
        assert((y * b) * c == (y * c) * b);
        assert((y * c) * b <= (z * d) * b);
        assert((z * d) * b == z * (b * d));
    }
}

/// Sums of numbers that are at most others are at most their sums.
proof fn lemma_sum(n: nat, x: int, y: int, v: int, w: int)
    requires
        no_more(n, x, y),
        no_more(n, v, w),
    ensures
        no_more(n, x + v, y + w),
{
    let a = pow(PARTS as int, n);
    let b = pow(PARTS + 1, n);
    assert((x + v) * a == x * a + v * a) by (nonlinear_arith);
    assert((y + w) * b == y * b + w * b) by (nonlinear_arith);
}

/// Multiples of a number that is at most another are at most its multiples.
proof fn lemma_multiple(n: nat, x: int, y: int, k: int)
    requires
        no_more(n, x, y),
        0 <= k,
    ensures
        no_more(n, x * k, y * k),
{
    let a = pow(PARTS as int, n);
    let b = pow(PARTS + 1, n);
    assert((x * k) * a <= (y * k) * b) by (nonlinear_arith)
        requires
            x * a <= y * b,
            0 <= k,
    {
        assert((x * k) * a == (x * a) * k);
        assert((y * k) * b == (y * b) * k);
    }
}

/// A common factor cancels.
proof fn lemma_cancel(n: nat, x: int, y: int, k: int)
    requires
        no_more(n, x * k, y * k),
        0 < k,
    ensures
        no_more(n, x, y),
{
    let a = pow(PARTS as int, n);
    let b = pow(PARTS + 1, n);
    assert(x * a <= y * b) by (nonlinear_arith)
        requires
            (x * k) * a <= (y * k) * b,
            0 < k,
    {
        assert((x * k) * a == (x * a) * k);
        assert((y * k) * b == (y * b) * k);
    }
}

/// What is at most nothing is nothing.
proof fn lemma_nothing(n: nat, x: int)
    requires
        no_more(n, x, 0),
    ensures
        x <= 0,
{
    lemma_powers(n);
    let a = pow(PARTS as int, n);
    assert(x <= 0) by (nonlinear_arith)
        requires
            x * a <= 0,
            a > 0,
    ;
}

/// Whether an answer, on numbers that are not negative, is finite and off by one rounding at most:
/// of what binary64 answers, all but what overflows or is too small for its full precision.
pub open spec fn is_near(op: Op, a: Double, b: Double, r: Double) -> bool {
    a.finite() && b.finite() && value(a) >= 0 && value(b) >= 0 ==> match op {
        Op::Plus => r.finite() && is_about(1, value(a) + value(b), value(r)),
        Op::Minus => value(b) <= value(a) ==> r.finite() && is_about(
            1,
            value(a) - value(b),
            value(r),
        ),
        Op::Times => r.finite() && is_about(1, value(a) * value(b), value(r) * unit()),
        Op::Over => value(b) > 0 ==> r.finite() && is_about(
            1,
            value(a) * unit(),
            value(r) * value(b),
        ),
    }
}

/// The answers that are off by one rounding at most.
pub open spec fn rounded(f: Answers) -> Answers {
    |op: Op, a: Double, b: Double, r: Double| answers(f, op, a, b, r) && is_near(op, a, b, r)
}

/// Whether differences are rounded in order, as IEEE 754 rounds them: of two numbers that are
/// lessened by the same, the smaller one stays no greater.
pub open spec fn subtracts_in_order(f: Answers) -> bool {
    forall|a: Double, b: Double, r: Double, c: Double, s: Double|
        (#[trigger] answers(f, Op::Minus, a, b, r)) && (#[trigger] answers(f, Op::Minus, c, b, s))
            && a.finite() && b.finite() && c.finite() && value(a) <= value(c) ==> r.le(s)
}

/// What a sweep took in all, what it left, and its total.
pub ghost struct Fill {
    pub amount: int,
    pub left: Double,
    pub total: Double,
}

/// Whether a sweep took an amount and left the rest, up to a rounding for each level, and added its
/// cost to the total, up to two for each; and whether `r` is the price that comes of it.
pub open spec fn is_filled(
    f: Answers,
    side: Side,
    levels: Seq<Level>,
    size: Double,
    remaining: Double,
    total: Double,
    r: Option<Double>,
    fill: Fill,
) -> bool {
    let n = levels.len();
    &&& fill.total.finite() && value(fill.total) >= 0
    &&& fill.left.finite() && value(fill.left) >= 0
    &&& 0 <= fill.amount <= offered(levels)
    &&& value(fill.left) > 0 ==> fill.amount == offered(levels)
    &&& is_about(n, value(remaining), fill.amount + value(fill.left))
    &&& is_about(
        2 * n,
        value(total) * unit() + cost_of(levels, fill.amount),
        value(fill.total) * unit(),
    )
    &&& r is None <==> is_short(side, size, fill.left)
    &&& r matches Some(price) ==> answers(f, Op::Over, fill.total, size, price)
}

/// A level that is taken adds to what the levels behind it fill.
proof fn lemma_level(
    f: Answers,
    side: Side,
    levels: Seq<Level>,
    size: Double,
    remaining: Double,
    total: Double,
    cost: Double,
    sum: Double,
    rest: Double,
    r: Option<Double>,
    behind: Fill,
) -> (fill: Fill)
    requires
        is_sound(levels),
        levels.len() > 0,
        remaining.finite(),
        value(remaining) > 0,
        total.finite(),
        value(total) >= 0,
        is_taken(rounded(f), levels[0], remaining, total, cost, sum, rest),
        is_filled(rounded(f), side, levels.drop_first(), size, rest, sum, r, behind),
    ensures
        is_filled(rounded(f), side, levels, size, remaining, total, r, fill),
        fill.left == behind.left,
        fill.total == behind.total,
        fill.amount == behind.amount + if value(remaining) <= value(levels[0].size) {
            value(remaining)
        } else {
            value(levels[0].size)
        },
{
    let g = rounded(f);
    let tail = levels.drop_first();
    let n = tail.len();
    let level = levels[0];
    let amount = remaining.min_spec(level.size);
    assert(level.price.finite() && value(level.price) > 0);
    assert(level.size.finite() && value(level.size) >= 0);
    lesser_has_the_lesser_value(remaining, level.size);
    assert(answers(g, Op::Times, amount, level.price, cost));
    assert(answers(g, Op::Minus, remaining, amount, rest));
    lemma_sum_stays(f, amount, level.price, total, cost, sum);
    let a = value(amount);
    let p = value(level.price);
    let whole = behind.amount + value(behind.left);
    let fill = Fill { amount: a + behind.amount, left: behind.left, total: behind.total };
    // what is taken
    lemma_chain(1, n, value(remaining) - a, value(rest), whole);
    lemma_chain(n, 1, whole, value(rest), value(remaining) - a);
    lemma_no_more(1 + n, a, a);
    lemma_sum(1 + n, value(remaining) - a, whole, a, a);
    lemma_sum(1 + n, whole, value(remaining) - a, a, a);
    if value(remaining) <= value(level.size) {
        lemma_no_more(1 + n, 0, 0);
        lemma_nothing(1 + n, whole);
        assert(behind.amount == 0 && value(behind.left) == 0);
    }
    // what it costs
    let u = unit();
    let before = value(total) * u;
    let rest_cost = cost_of(tail, behind.amount);
    assert(cost_of(levels, fill.amount) == a * p + rest_cost) by {
        if fill.amount <= 0 {
            assert(a * p == 0) by (nonlinear_arith)
                requires
                    a == 0,
            ;
        } else if behind.amount > 0 {
            assert(a == value(level.size));
        } else {
            assert(fill.amount == a);
        }
    }
    lemma_tail_is_sound(levels);
    lemma_cost_is_no_less_than_nothing(tail, behind.amount);
    lemma_no_more(2, rest_cost, rest_cost);
    lemma_sum(2, before + a * p, value(sum) * u, rest_cost, rest_cost);
    lemma_sum(2, value(sum) * u, before + a * p, rest_cost, rest_cost);
    let exact = before + a * p + rest_cost;
    let middle = value(sum) * u + rest_cost;
    lemma_chain(2, 2 * n, exact, middle, value(behind.total) * u);
    lemma_chain(2 * n, 2, value(behind.total) * u, middle, exact);
    fill
}

proof fn lemma_cost_is_no_less_than_nothing(levels: Seq<Level>, amount: int)
    requires
        is_sound(levels),
        0 <= amount <= offered(levels),
    ensures
        cost_of(levels, amount) >= 0,
{
    lemma_cost_bounds(levels, amount, 0);
}

/// A product that is added to a total makes two roundings.
proof fn lemma_sum_stays(
    f: Answers,
    amount: Double,
    price: Double,
    total: Double,
    cost: Double,
    sum: Double,
)
    requires
        amount.finite(),
        value(amount) >= 0,
        price.finite(),
        value(price) >= 0,
        total.finite(),
        value(total) >= 0,
        answers(rounded(f), Op::Times, amount, price, cost),
        answers(rounded(f), Op::Plus, total, cost, sum),
    ensures
        sum.finite(),
        value(sum) >= 0,
        is_about(
            2,
            value(total) * unit() + value(amount) * value(price),
            value(sum) * unit(),
        ),
{
    let u = unit();
    let exact = value(amount) * value(price);
    let c = value(cost);
    let t = value(total);
    unit_is_positive();
    assert(is_near(Op::Times, amount, price, cost));
    assert(exact >= 0) by (nonlinear_arith)
        requires
            exact == value(amount) * value(price),
            value(amount) >= 0,
            value(price) >= 0,
    ;
    lemma_not_negative(1, exact, c * u);
    assert(c >= 0) by (nonlinear_arith)
        requires
            c * u >= 0,
            u > 0,
    ;
    assert(is_near(Op::Plus, total, cost, sum));
    lemma_not_negative(1, t + c, value(sum));
    assert(t * u >= 0) by (nonlinear_arith)
        requires
            t >= 0,
            u > 0,
    ;
    lemma_multiple(1, t + c, value(sum), u);
    lemma_multiple(1, value(sum), t + c, u);
    assert((t + c) * u == t * u + c * u) by (nonlinear_arith);
    lemma_no_more(1, t * u, t * u);
    lemma_sum(1, t * u, t * u, exact, c * u);
    lemma_sum(1, t * u, t * u, c * u, exact);
    lemma_chain(1, 1, t * u + exact, t * u + c * u, value(sum) * u);
    lemma_chain(1, 1, value(sum) * u, t * u + c * u, t * u + exact);
}

/// What is at least a number that is not negative is not negative either.
proof fn lemma_not_negative(n: nat, x: int, y: int)
    requires
        no_more(n, x, y),
        0 <= x,
    ensures
        0 <= y,
{
    lemma_powers(n);
    let a = pow(PARTS as int, n);
    let b = pow(PARTS + 1, n);
    assert(0 <= y) by (nonlinear_arith)
        requires
            x * a <= y * b,
            0 <= x,
            a > 0,
            b > 0,
    ;
}

/// Where a sweep ends, nothing more is taken.
proof fn lemma_end(
    f: Answers,
    side: Side,
    levels: Seq<Level>,
    size: Double,
    remaining: Double,
    total: Double,
    r: Option<Double>,
) -> (fill: Fill)
    requires
        is_sound(levels),
        levels.len() == 0 || remaining.le(Double { bits: 0 }),
        is_swept(rounded(f), side, levels, size, remaining, total, r),
        remaining.finite(),
        value(remaining) >= 0,
        total.finite(),
        value(total) >= 0,
    ensures
        is_filled(rounded(f), side, levels, size, remaining, total, r, fill),
        fill.amount == 0,
{
    zero_is_nothing();
    values_are_in_order(remaining, Double { bits: 0 });
    lemma_offered(levels);
    unit_is_positive();
    let n = levels.len();
    let t = value(total) * unit();
    assert(t >= 0) by (nonlinear_arith)
        requires
            t == value(total) * unit(),
            value(total) >= 0,
            unit() > 0,
    ;
    lemma_no_more(n, value(remaining), value(remaining));
    lemma_no_more(2 * n, t, t);
    Fill { amount: 0, left: remaining, total }
}

/// The first level of a sweep that goes on.
proof fn lemma_first(
    f: Answers,
    side: Side,
    levels: Seq<Level>,
    size: Double,
    remaining: Double,
    total: Double,
    r: Option<Double>,
) -> (first: (Double, Double, Double))
    requires
        is_sound(levels),
        levels.len() > 0,
        !remaining.le(Double { bits: 0 }),
        is_swept(rounded(f), side, levels, size, remaining, total, r),
        remaining.finite(),
        value(remaining) >= 0,
        total.finite(),
        value(total) >= 0,
    ensures
        value(remaining) > 0,
        is_taken(rounded(f), levels[0], remaining, total, first.0, first.1, first.2),
        is_swept(rounded(f), side, levels.drop_first(), size, first.2, first.1, r),
        is_sound(levels.drop_first()),
        first.1.finite(),
        value(first.1) >= 0,
        first.2.finite(),
        value(first.2) >= 0,
        value(remaining) <= value(levels[0].size) ==> value(first.2) == 0,
{
    let g = rounded(f);
    let (cost, sum, rest) = choose|cost: Double, sum: Double, rest: Double| #[trigger]
        is_taken(g, levels[0], remaining, total, cost, sum, rest) && is_swept(
            g,
            side,
            levels.drop_first(),
            size,
            rest,
            sum,
            r,
        );
    let level = levels[0];
    let amount = remaining.min_spec(level.size);
    zero_is_nothing();
    values_are_in_order(remaining, Double { bits: 0 });
    assert(level.price.finite() && value(level.price) > 0);
    assert(level.size.finite() && value(level.size) >= 0);
    lesser_has_the_lesser_value(remaining, level.size);
    lemma_sum_stays(f, amount, level.price, total, cost, sum);
    assert(answers(g, Op::Minus, remaining, amount, rest));
    assert(is_near(Op::Minus, remaining, amount, rest));
    lemma_not_negative(1, value(remaining) - value(amount), value(rest));
    if value(remaining) <= value(level.size) {
        lemma_nothing(1, value(rest));
    }
    lemma_tail_is_sound(levels);
    (cost, sum, rest)
}

proof fn lemma_sweep(
    f: Answers,
    side: Side,
    levels: Seq<Level>,
    size: Double,
    remaining: Double,
    total: Double,
    r: Option<Double>,
) -> (fill: Fill)
    requires
        is_sound(levels),
        is_swept(rounded(f), side, levels, size, remaining, total, r),
        remaining.finite(),
        value(remaining) >= 0,
        total.finite(),
        value(total) >= 0,
    ensures
        is_filled(rounded(f), side, levels, size, remaining, total, r, fill),
    decreases levels.len(),
{
    if levels.len() == 0 || remaining.le(Double { bits: 0 }) {
        lemma_end(f, side, levels, size, remaining, total, r)
    } else {
        let (cost, sum, rest) = lemma_first(f, side, levels, size, remaining, total, r);
        let behind = lemma_sweep(f, side, levels.drop_first(), size, rest, sum, r);
        lemma_level(f, side, levels, size, remaining, total, cost, sum, rest, r, behind)
    }
}

/// Of two sweeps of one side, the one with less to fill takes no more.
proof fn lemma_two_sweeps(
    f: Answers,
    side: Side,
    levels: Seq<Level>,
    small: (Double, Double, Double),
    large: (Double, Double, Double),
    r: Option<Double>,
    s: Option<Double>,
) -> (fills: (Fill, Fill))
    requires
        is_sound(levels),
        subtracts_in_order(f),
        is_swept(rounded(f), side, levels, small.0, small.1, small.2, r),
        is_swept(rounded(f), side, levels, large.0, large.1, large.2, s),
        small.1.finite(),
        large.1.finite(),
        0 <= value(small.1) <= value(large.1),
        small.2.finite(),
        value(small.2) >= 0,
        large.2.finite(),
        value(large.2) >= 0,
    ensures
        is_filled(rounded(f), side, levels, small.0, small.1, small.2, r, fills.0),
        is_filled(rounded(f), side, levels, large.0, large.1, large.2, s, fills.1),
        fills.0.amount <= fills.1.amount,
    decreases levels.len(),
{
    let zero = Double { bits: 0 };
    zero_is_nothing();
    values_are_in_order(small.1, zero);
    values_are_in_order(large.1, zero);
    if levels.len() == 0 || small.1.le(zero) {
        let a = lemma_end(f, side, levels, small.0, small.1, small.2, r);
        let b = lemma_sweep(f, side, levels, large.0, large.1, large.2, s);
        (a, b)
    } else {
        let (c1, t1, x1) = lemma_first(f, side, levels, small.0, small.1, small.2, r);
        let (c2, t2, x2) = lemma_first(f, side, levels, large.0, large.1, large.2, s);
        let level = levels[0];
        assert(level.size.finite() && value(level.size) >= 0);
        if value(small.1) > value(level.size) {
            lesser_has_the_lesser_value(small.1, level.size);
            lesser_has_the_lesser_value(large.1, level.size);
            values_are_in_order(small.1, level.size);
            values_are_in_order(large.1, level.size);
            let m1 = small.1.min_spec(level.size);
            let m2 = large.1.min_spec(level.size);
            assert(m1 == level.size && m2 == level.size);
            assert(answers(rounded(f), Op::Minus, small.1, level.size, x1));
            assert(answers(rounded(f), Op::Minus, large.1, level.size, x2));
            assert(answers(f, Op::Minus, small.1, level.size, x1));
            assert(answers(f, Op::Minus, large.1, level.size, x2));
            values_are_in_order(x1, x2);
        }
        let tail = levels.drop_first();
        let (a, b) = lemma_two_sweeps(
            f,
            side,
            tail,
            (small.0, x1, t1),
            (large.0, x2, t2),
            r,
            s,
        );
        (
            lemma_level(f, side, levels, small.0, small.1, small.2, c1, t1, x1, r, a),
            lemma_level(f, side, levels, large.0, large.1, large.2, c2, t2, x2, s, b),
        )
    }
}

/// The amount that is taken of an amount that a side offers is that amount, up to a rounding for
/// each level; and so is the cost that the price stands for.
proof fn lemma_fill(
    f: Answers,
    side: Side,
    levels: Seq<Level>,
    size: Double,
    r: Option<Double>,
    fill: Fill,
)
    requires
        is_sound(levels),
        size.finite(),
        value(size) > 0,
        is_filled(rounded(f), side, levels, size, size, Double { bits: 0 }, r, fill),
    ensures
        no_more(levels.len(), fill.amount, value(size)),
        value(size) <= offered(levels) ==> no_more(levels.len(), value(size), fill.amount),
        r matches Some(price) ==> price.finite() && is_about(
            2 * levels.len() + 1,
            cost_of(levels, fill.amount),
            value(price) * value(size),
        ),
{
    let n = levels.len();
    let x = value(size);
    let left = value(fill.left);
    let amount = fill.amount;
    zero_is_nothing();
    lemma_no_more(0, amount, amount + left);
    lemma_chain(0, n, amount, amount + left, x);
    if x <= offered(levels) && left > 0 {
        lemma_no_more(n, x, amount);
    }
    if r is Some {
        let price = r->0;
        let u = unit();
        let zero_total = value(Double { bits: 0 }) * u;
        assert(zero_total == 0) by (nonlinear_arith)
            requires
                zero_total == value(Double { bits: 0 }) * u,
                value(Double { bits: 0 }) == 0,
        ;
        assert(answers(rounded(f), Op::Over, fill.total, size, price));
        assert(is_near(Op::Over, fill.total, size, price));
        let c = cost_of(levels, amount);
        lemma_chain(2 * n, 1, c, value(fill.total) * u, value(price) * x);
        lemma_chain(1, 2 * n, value(price) * x, value(fill.total) * u, c);
    }
}

/// Whether a side offers an amount and what a rounding for each level can add to it.
pub open spec fn is_ample(levels: Seq<Level>, amount: int) -> bool {
    amount * pow(PARTS + 1, levels.len()) <= offered(levels) * pow(PARTS as int, levels.len())
}

/// Whether an amount is more than a side offers, and dust, even without what a rounding for each
/// level can take from it.
pub open spec fn is_shallow(levels: Seq<Level>, amount: int) -> bool {
    (offered(levels) + value(Double { bits: DUST_BITS })) * pow(PARTS + 1, levels.len()) < amount
        * pow(PARTS as int, levels.len())
}

/// Where a size comes short of what a side offers by the roundings, nothing of it is left; where
/// it is more than that and dust, more than dust is.
proof fn lemma_left(
    f: Answers,
    side: Side,
    levels: Seq<Level>,
    size: Double,
    r: Option<Double>,
    fill: Fill,
)
    requires
        is_sound(levels),
        size.finite(),
        value(size) > 0,
        is_filled(rounded(f), side, levels, size, size, Double { bits: 0 }, r, fill),
    ensures
        is_ample(levels, value(size)) ==> value(fill.left) == 0 && r is Some,
        is_shallow(levels, value(size)) ==> r is None,
{
    let n = levels.len();
    let x = value(size);
    let left = value(fill.left);
    let amount = fill.amount;
    let a = pow(PARTS as int, n);
    let b = pow(PARTS + 1, n);
    let dust = Double { bits: DUST_BITS };
    let all = offered(levels);
    lemma_powers(n);
    zero_is_nothing();
    values_are_in_order(fill.left, dust);
    values_are_in_order(size, fill.left);
    values_are_in_order(Double { bits: 0 }, dust);
    if is_ample(levels, x) && left > 0 {
        assert(false) by (nonlinear_arith)
            requires
                (all + left) * a <= x * b,
                x * b <= all * a,
                left > 0,
                a > 0,
        ;
    }
    if is_shallow(levels, x) && left <= value(dust) {
        assert(false) by (nonlinear_arith)
            requires
                x * a <= (amount + left) * b,
                (all + value(dust)) * b < x * a,
                amount <= all,
                left <= value(dust),
                b > 0,
        ;
    }
}

/// Where every operation rounds: a side that is ample for a size gives it a price, and one that is
/// too shallow gives none. A price times the size is the exact cost of an amount that is taken, up
/// to two roundings for each level and one more; of a size that the side offers, that amount is the
/// size, up to a rounding for each level.
pub proof fn rounded_trade_costs_what_it_takes(
    f: Answers,
    side: Side,
    levels: Seq<Level>,
    size: Double,
    r: Option<Double>,
) -> (amount: int)
    requires
        is_sound(levels),
        size.finite(),
        value(size) > 0,
        is_vwap(rounded(f), side, levels, size, r),
    ensures
        is_ample(levels, value(size)) ==> r is Some,
        is_shallow(levels, value(size)) ==> r is None,
        0 <= amount <= offered(levels),
        no_more(levels.len(), amount, value(size)),
        value(size) <= offered(levels) ==> is_about(levels.len(), value(size), amount),
        r matches Some(price) ==> price.finite() && is_about(
            2 * levels.len() + 1,
            cost_of(levels, amount),
            value(price) * value(size),
        ),
{
    zero_is_nothing();
    values_are_in_order(size, Double { bits: 0 });
    let fill = lemma_sweep(f, side, levels, size, size, Double { bits: 0 }, r);
    lemma_fill(f, side, levels, size, r, fill);
    lemma_left(f, side, levels, size, r, fill);
    fill.amount
}

/// Where every operation rounds, and differences in order: of a side in order of rising prices that
/// offers an order, a smaller order costs no more per unit, up to six roundings for each level and
/// two more. A side that is ample for the order gives both a price.
pub proof fn rounded_smaller_order_costs_no_more(
    f: Answers,
    asks: Seq<Level>,
    small: Double,
    large: Double,
    r: Option<Double>,
    s: Option<Double>,
)
    requires
        subtracts_in_order(f),
        is_sound(asks),
        rising(asks),
        small.finite(),
        large.finite(),
        0 < value(small) <= value(large) <= offered(asks),
        is_vwap(rounded(f), Side::Asks, asks, small, r),
        is_vwap(rounded(f), Side::Asks, asks, large, s),
    ensures
        is_ample(asks, value(large)) ==> r is Some && s is Some,
        r is Some && s is Some ==> no_more(6 * asks.len() + 2, value(r->0), value(s->0)),
{
    let zero = Double { bits: 0 };
    let n = asks.len();
    zero_is_nothing();
    values_are_in_order(small, zero);
    values_are_in_order(large, zero);
    let (a, b) = lemma_two_sweeps(
        f,
        Side::Asks,
        asks,
        (small, small, zero),
        (large, large, zero),
        r,
        s,
    );
    lemma_fill(f, Side::Asks, asks, small, r, a);
    lemma_fill(f, Side::Asks, asks, large, s, b);
    lemma_left(f, Side::Asks, asks, small, r, a);
    lemma_left(f, Side::Asks, asks, large, s, b);
    let x = value(small);
    let y = value(large);
    if is_ample(asks, y) {
        let c = pow(PARTS + 1, n);
        lemma_powers(n);
        assert(x * c <= y * c) by (nonlinear_arith)
            requires
                x <= y,
                c > 0,
        ;
    }
    if r is Some && s is Some {
        let p = value(r->0);
        let q = value(s->0);
        lemma_compared(n, asks, x, y, a.amount, b.amount, p, q);
    }
}

/// Two prices by the costs that they stand for.
proof fn lemma_compared(
    n: nat,
    asks: Seq<Level>,
    x: int,
    y: int,
    small: int,
    large: int,
    p: int,
    q: int,
)
    requires
        is_sound(asks),
        rising(asks),
        0 < x,
        0 < y,
        0 <= small <= large <= offered(asks),
        no_more(n, small, x),
        no_more(n, y, large),
        no_more(2 * n + 1, p * x, cost_of(asks, small)),
        no_more(2 * n + 1, cost_of(asks, large), q * y),
    ensures
        no_more(6 * n + 2, p, q),
{
    let c = cost_of(asks, small);
    let d = cost_of(asks, large);
    larger_amount_costs_no_less(asks, small, large);
    lemma_cost_is_no_less_than_nothing(asks, large);
    lemma_not_negative(2 * n + 1, d, q * y);
    assert(q >= 0) by (nonlinear_arith)
        requires
            q * y >= 0,
            y > 0,
    ;
    lemma_positive(n, y, large);
    let m = 2 * n + 1;
    lemma_multiple(m, p * x, c, large);
    lemma_multiple(m, d, q * y, small);
    assert(d * small >= 0) by (nonlinear_arith)
        requires
            d >= 0,
            small >= 0,
    ;
    lemma_no_more(0, c * large, d * small);
    lemma_chain(m, 0, (p * x) * large, c * large, d * small);
    lemma_chain(m, m, (p * x) * large, d * small, (q * y) * small);
    // the sizes for the amounts
    lemma_multiple(n, small, x, y);
    lemma_multiple(n, y, large, x);
    assert(y * x == x * y) by (nonlinear_arith);
    lemma_chain(n, n, small * y, x * y, large * x);
    lemma_multiple(n + n, small * y, large * x, q);
    assert((small * y) * q == (q * y) * small) by (nonlinear_arith);
    lemma_chain(m + m, n + n, (p * x) * large, (q * y) * small, (large * x) * q);
    assert((p * x) * large == p * (large * x)) by (nonlinear_arith);
    assert((large * x) * q == q * (large * x)) by (nonlinear_arith);
    assert(large * x > 0) by (nonlinear_arith)
        requires
            large > 0,
            x > 0,
    ;
    assert(m + m + (n + n) == 6 * n + 2);
    lemma_cancel(6 * n + 2, p, q, large * x);
}

/// What is at least a number above zero is above zero too.
proof fn lemma_positive(n: nat, x: int, y: int)
    requires
        no_more(n, x, y),
        0 < x,
    ensures
        0 < y,
{
    lemma_not_negative(n, x, y);
    if y == 0 {
        lemma_nothing(n, x);
    }
}

/// Where every operation rounds: selling and buying the same size on one book that is not crossed
/// earns nothing, up to the roundings. The sale brings no more per unit than the best bid, and the
/// purchase of a size that the asks offer costs no less than the best ask, up to three roundings
/// for each level of the side and one more. Sides that are ample for the size give both a price.
pub proof fn rounded_round_trip_earns_nothing(
    f: Answers,
    bids: Seq<Level>,
    asks: Seq<Level>,
    size: Double,
    sold: Option<Double>,
    bought: Option<Double>,
)
    requires
        is_sound(bids),
        is_sound(asks),
        falling(bids),
        rising(asks),
        bids.len() > 0,
        size.finite(),
        0 < value(size) <= offered(asks),
        bids[0].price.le(asks[0].price),
        is_vwap(rounded(f), Side::Bids, bids, size, sold),
        is_vwap(rounded(f), Side::Asks, asks, size, bought),
    ensures
        is_ample(bids, value(size)) ==> sold is Some,
        is_ample(asks, value(size)) ==> bought is Some,
        sold matches Some(s) ==> no_more(3 * bids.len() + 1, value(s), value(bids[0].price)),
        bought matches Some(b) ==> no_more(3 * asks.len() + 1, value(asks[0].price), value(b)),
        sold is Some && bought is Some ==> no_more(
            3 * bids.len() + 3 * asks.len() + 2,
            value(sold->0),
            value(bought->0),
        ),
{
    let a = rounded_trade_costs_what_it_takes(f, Side::Bids, bids, size, sold);
    let b = rounded_trade_costs_what_it_takes(f, Side::Asks, asks, size, bought);
    lemma_prices_by_value(bids);
    lemma_prices_by_value(asks);
    assert(asks.len() > 0);
    let x = value(size);
    let bid = value(bids[0].price);
    let ask = value(asks[0].price);
    assert(bid > 0 && ask > 0);
    values_are_in_order(bids[0].price, asks[0].price);
    assert forall|i: int| 0 <= i < bids.len() implies value((#[trigger] bids[i]).price) <= bid by {
        assert(value(bids[0].price) >= value(bids[i].price));
    }
    assert forall|i: int| 0 <= i < asks.len() implies value((#[trigger] asks[i]).price) >= ask by {
        assert(value(asks[0].price) <= value(asks[i].price));
    }
    lemma_cost_bounds(bids, a, bid);
    lemma_cost_bounds(asks, b, ask);
    let n = bids.len();
    let m = asks.len();
    if sold is Some {
        let s = value(sold->0);
        let c = cost_of(bids, a);
        assert(a * bid >= 0) by (nonlinear_arith)
            requires
                a >= 0,
                bid >= 0,
        ;
        lemma_no_more(0, c, a * bid);
        lemma_chain(2 * n + 1, 0, s * x, c, a * bid);
        lemma_multiple(n, a, x, bid);
        lemma_chain(2 * n + 1, n, s * x, a * bid, x * bid);
        assert(x * bid == bid * x) by (nonlinear_arith);
        lemma_cancel(3 * n + 1, s, bid, x);
    }
    if bought is Some {
        let t = value(bought->0);
        let c = cost_of(asks, b);
        lemma_cost_is_no_less_than_nothing(asks, b);
        lemma_no_more(0, b * ask, c);
        lemma_chain(0, 2 * m + 1, b * ask, c, t * x);
        lemma_multiple(m, x, b, ask);
        lemma_chain(m, 2 * m + 1, x * ask, b * ask, t * x);
        assert(x * ask == ask * x) by (nonlinear_arith);
        lemma_cancel(3 * m + 1, ask, t, x);
    }
    if sold is Some && bought is Some {
        lemma_no_more(0, bid, ask);
        lemma_chain(3 * n + 1, 0, value(sold->0), bid, ask);
        lemma_chain(3 * n + 1, 3 * m + 1, value(sold->0), ask, value(bought->0));
    }
}

/// Numbers that are the same up to some roundings, one after the other, are so up to all of them.
pub proof fn roundings_add_up(m: nat, n: nat, x: int, y: int, z: int)
    requires
        is_about(m, x, y),
        n == 0 && y == z || is_about(n, y, z),
    ensures
        is_about(m + n, x, z),
{
    if is_about(n, y, z) {
        lemma_chain(m, n, x, y, z);
        lemma_chain(n, m, z, y, x);
    }
}

/// Numbers whose multiples are the same up to some roundings are so too.
pub proof fn same_multiples(n: nat, x: int, y: int, k: int)
    requires
        is_about(n, x * k, y * k),
        0 < k,
    ensures
        is_about(n, x, y),
{
    lemma_cancel(n, x, y, k);
    lemma_cancel(n, y, x, k);
}

/// What is the same as a number that is not negative, up to some roundings, is not negative.
pub proof fn stays_above_zero(n: nat, x: int, y: int)
    requires
        is_about(n, x, y),
        0 <= x,
    ensures
        0 <= y,
{
    lemma_not_negative(n, x, y);
}

} // verus!
