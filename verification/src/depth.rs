//! What a trade costs where nothing is rounded but its price.

use vstd::prelude::*;

use crate::arithmetic::{answers, Answers, Op};
use crate::double::{Double, DUST_BITS};
use crate::exact::{
    divides_in_order, is_unrounded, lesser_has_the_lesser_value, unit, unit_is_positive, unrounded,
    value, values_are_in_order, zero_is_nothing,
};
use crate::tick::{falling, rising, Level};
use crate::trades::{is_swept, is_taken, is_vwap, Side};

verus! {

/// Whether the prices of a side are finite and above zero, and its sizes finite and not below.
pub open spec fn is_sound(levels: Seq<Level>) -> bool {
    forall|i: int|
        0 <= i < levels.len() ==> {
            &&& (#[trigger] levels[i]).price.finite()
            &&& value(levels[i].price) > 0
            &&& levels[i].size.finite()
            &&& value(levels[i].size) >= 0
        }
}

/// How much a side offers.
pub open spec fn offered(levels: Seq<Level>) -> int
    decreases levels.len(),
{
    if levels.len() == 0 {
        0
    } else {
        value(levels[0].size) + offered(levels.drop_first())
    }
}

/// What a side cannot fill of an amount.
pub open spec fn unfilled(levels: Seq<Level>, amount: int) -> int {
    if amount > offered(levels) {
        amount - offered(levels)
    } else {
        0
    }
}

/// What an amount costs on a side: each level gives what it offers, at its price, until the amount
/// is filled.
pub open spec fn cost_of(levels: Seq<Level>, amount: int) -> int
    decreases levels.len(),
{
    if levels.len() == 0 || amount <= 0 {
        0
    } else {
        let taken = if amount <= value(levels[0].size) {
            amount
        } else {
            value(levels[0].size)
        };
        taken * value(levels[0].price) + cost_of(levels.drop_first(), amount - taken)
    }
}

pub(crate) proof fn lemma_tail_is_sound(levels: Seq<Level>)
    requires
        is_sound(levels),
        levels.len() > 0,
    ensures
        is_sound(levels.drop_first()),
{
    assert forall|i: int| 0 <= i < levels.drop_first().len() implies {
        &&& (#[trigger] levels.drop_first()[i]).price.finite()
        &&& value(levels.drop_first()[i].price) > 0
        &&& levels.drop_first()[i].size.finite()
        &&& value(levels.drop_first()[i].size) >= 0
    } by {
        assert(levels.drop_first()[i] == levels[i + 1]);
    }
}

pub(crate) proof fn lemma_offered(levels: Seq<Level>)
    requires
        is_sound(levels),
    ensures
        offered(levels) >= 0,
    decreases levels.len(),
{
    if levels.len() > 0 {
        lemma_tail_is_sound(levels);
        lemma_offered(levels.drop_first());
        assert(value(levels[0].size) >= 0);
    }
}

/// A sweep that does not round gives no price exactly where more than dust cannot be filled, or on
/// the asks nothing is; else the price is the quotient of the cost and the size.
proof fn lemma_sweep(
    f: Answers,
    side: Side,
    levels: Seq<Level>,
    size: Double,
    remaining: Double,
    total: Double,
    r: Option<Double>,
) -> (cost: Double)
    requires
        is_sound(levels),
        is_swept(unrounded(f), side, levels, size, remaining, total, r),
        size.finite(),
        remaining.finite(),
        value(remaining) >= 0,
        total.finite(),
    ensures
        r is None <==> unfilled(levels, value(remaining)) > value(Double { bits: DUST_BITS })
            || (side == Side::Asks && unfilled(levels, value(remaining)) >= value(size)),
        cost.finite(),
        value(cost) * unit() == value(total) * unit() + cost_of(levels, value(remaining)),
        r matches Some(price) ==> answers(f, Op::Over, cost, size, price),
    decreases levels.len(),
{
    let zero = Double { bits: 0 };
    let dust = Double { bits: DUST_BITS };
    let g = unrounded(f);
    zero_is_nothing();
    values_are_in_order(remaining, zero);
    values_are_in_order(remaining, dust);
    values_are_in_order(size, remaining);
    lemma_offered(levels);
    if levels.len() == 0 || remaining.le(zero) {
        if r is Some {
            assert(answers(g, Op::Over, total, size, r->0));
        }
        total
    } else {
        let level = levels[0];
        assert(level.price.finite() && level.size.finite() && value(level.size) >= 0);
        let (cost, sum, rest) = choose|cost: Double, sum: Double, rest: Double| #[trigger]
            is_taken(g, levels[0], remaining, total, cost, sum, rest) && is_swept(
                g,
                side,
                levels.drop_first(),
                size,
                rest,
                sum,
                r,
            );
        let amount = remaining.min_spec(level.size);
        lesser_has_the_lesser_value(remaining, level.size);
        assert(answers(g, Op::Times, amount, level.price, cost));
        assert(is_unrounded(Op::Times, amount, level.price, cost));
        assert(answers(g, Op::Plus, total, cost, sum));
        assert(is_unrounded(Op::Plus, total, cost, sum));
        assert(answers(g, Op::Minus, remaining, amount, rest));
        assert(is_unrounded(Op::Minus, remaining, amount, rest));
        lemma_tail_is_sound(levels);
        lemma_offered(levels.drop_first());
        let last = lemma_sweep(f, side, levels.drop_first(), size, rest, sum, r);
        assert(value(sum) * unit() == value(total) * unit() + value(cost) * unit())
            by (nonlinear_arith)
            requires
                value(sum) == value(total) + value(cost),
        ;
        last
    }
}

/// Where nothing is rounded but the price, a size above zero has a price exactly where the side
/// fills all of it but dust, and the asks at least a part of it. The price is the quotient of the
/// cost and the size.
pub proof fn unrounded_trade_costs_what_it_takes(
    f: Answers,
    side: Side,
    levels: Seq<Level>,
    size: Double,
    r: Option<Double>,
) -> (cost: Double)
    requires
        is_sound(levels),
        size.finite(),
        value(size) > 0,
        is_vwap(unrounded(f), side, levels, size, r),
    ensures
        r is None <==> unfilled(levels, value(size)) > value(Double { bits: DUST_BITS })
            || (side == Side::Asks && offered(levels) == 0),
        cost.finite(),
        value(cost) * unit() == cost_of(levels, value(size)),
        r matches Some(price) ==> answers(f, Op::Over, cost, size, price),
{
    let zero = Double { bits: 0 };
    zero_is_nothing();
    values_are_in_order(size, zero);
    lemma_offered(levels);
    let cost = lemma_sweep(f, side, levels, size, size, zero, r);
    assert(value(zero) * unit() == 0) by (nonlinear_arith)
        requires
            value(zero) == 0,
    ;
    cost
}

/// Where each price is at least another, an amount that a side fills costs at least as much as at
/// that price; and the other way round.
pub(crate) proof fn lemma_cost_bounds(levels: Seq<Level>, amount: int, price: int)
    requires
        is_sound(levels),
        0 <= amount <= offered(levels),
    ensures
        (forall|i: int| 0 <= i < levels.len() ==> value((#[trigger] levels[i]).price) >= price)
            ==> cost_of(levels, amount) >= amount * price,
        (forall|i: int| 0 <= i < levels.len() ==> value((#[trigger] levels[i]).price) <= price)
            ==> cost_of(levels, amount) <= amount * price,
    decreases levels.len(),
{
    if levels.len() == 0 || amount <= 0 {
        assert(amount * price == 0) by (nonlinear_arith)
            requires
                amount == 0,
        ;
    } else {
        let tail = levels.drop_first();
        let p = value(levels[0].price);
        let taken = if amount <= value(levels[0].size) {
            amount
        } else {
            value(levels[0].size)
        };
        assert(value(levels[0].size) >= 0);
        lemma_tail_is_sound(levels);
        lemma_offered(tail);
        lemma_cost_bounds(tail, amount - taken, price);
        assert(amount * price == taken * price + (amount - taken) * price) by (nonlinear_arith);
        if forall|i: int| 0 <= i < levels.len() ==> value((#[trigger] levels[i]).price) >= price {
            assert forall|i: int| 0 <= i < tail.len() implies value((#[trigger] tail[i]).price)
                >= price by {
                assert(tail[i] == levels[i + 1]);
            }
            assert(p >= price);
            assert(taken * p >= taken * price) by (nonlinear_arith)
                requires
                    p >= price,
                    taken >= 0,
            ;
        }
        if forall|i: int| 0 <= i < levels.len() ==> value((#[trigger] levels[i]).price) <= price {
            assert forall|i: int| 0 <= i < tail.len() implies value((#[trigger] tail[i]).price)
                <= price by {
                assert(tail[i] == levels[i + 1]);
            }
            assert(p <= price);
            assert(taken * p <= taken * price) by (nonlinear_arith)
                requires
                    p <= price,
                    taken >= 0,
            ;
        }
    }
}

/// Of rising prices: what is already bought cost at most `before` each, and no later price is
/// below that. Then the smaller amount ends at a price that bounds its cost from above and what the
/// larger one adds from below.
proof fn lemma_margin(
    levels: Seq<Level>,
    bought: int,
    spent: int,
    before: int,
    small: int,
    large: int,
) -> (margin: int)
    requires
        is_sound(levels),
        0 <= small <= large <= offered(levels),
        0 <= bought,
        spent <= bought * before,
        forall|i: int| 0 <= i < levels.len() ==> before <= value((#[trigger] levels[i]).price),
        forall|i: int, j: int|
            0 <= i <= j < levels.len() ==> value((#[trigger] levels[i]).price) <= value(
                (#[trigger] levels[j]).price,
            ),
    ensures
        spent + cost_of(levels, small) <= (bought + small) * margin,
        cost_of(levels, large) - cost_of(levels, small) >= (large - small) * margin,
    decreases levels.len(),
{
    if levels.len() == 0 || small <= 0 {
        lemma_cost_bounds(levels, large, before);
        before
    } else {
        let tail = levels.drop_first();
        let p = value(levels[0].price);
        let s = value(levels[0].size);
        assert(s >= 0 && before <= p);
        lemma_tail_is_sound(levels);
        lemma_offered(tail);
        assert forall|i: int| 0 <= i < tail.len() implies p <= value((#[trigger] tail[i]).price) by {
            assert(tail[i] == levels[i + 1]);
            assert(value(levels[0].price) <= value(levels[i + 1].price));
        }
        assert(bought * before <= bought * p) by (nonlinear_arith)
            requires
                before <= p,
                bought >= 0,
        ;
        if small <= s {
            assert forall|i: int| 0 <= i < levels.len() implies value((#[trigger] levels[i]).price)
                >= p by {
                assert(value(levels[0].price) <= value(levels[i].price));
            }
            lemma_cost_bounds(levels, large, p);
            assert(cost_of(levels, small) == small * p) by {
                assert(cost_of(tail, small - small) == 0);
            }
            assert((bought + small) * p == bought * p + small * p) by (nonlinear_arith);
            assert((large - small) * p == large * p - small * p) by (nonlinear_arith);
            p
        } else {
            assert forall|i: int, j: int| 0 <= i <= j < tail.len() implies value(
                (#[trigger] tail[i]).price,
            ) <= value((#[trigger] tail[j]).price) by {
                assert(tail[i] == levels[i + 1]);
                assert(tail[j] == levels[j + 1]);
            }
            assert((bought + s) * p == bought * p + s * p) by (nonlinear_arith);
            let margin = lemma_margin(tail, bought + s, spent + s * p, p, small - s, large - s);
            assert((bought + s) + (small - s) == bought + small);
            margin
        }
    }
}

pub(crate) proof fn lemma_prices_by_value(levels: Seq<Level>)
    requires
        is_sound(levels),
    ensures
        rising(levels) ==> forall|i: int, j: int|
            0 <= i <= j < levels.len() ==> value((#[trigger] levels[i]).price) <= value(
                (#[trigger] levels[j]).price,
            ),
        falling(levels) ==> forall|i: int, j: int|
            0 <= i <= j < levels.len() ==> value((#[trigger] levels[i]).price) >= value(
                (#[trigger] levels[j]).price,
            ),
{
    assert forall|i: int, j: int| 0 <= i <= j < levels.len() implies (rising(levels) ==> value(
        (#[trigger] levels[i]).price,
    ) <= value((#[trigger] levels[j]).price)) && (falling(levels) ==> value(levels[i].price)
        >= value(levels[j].price)) by {
        values_are_in_order(levels[i].price, levels[j].price);
        values_are_in_order(levels[j].price, levels[i].price);
    }
}

/// On a side in order of rising prices, a larger amount that it fills costs no less per unit.
pub proof fn larger_amount_costs_no_less(asks: Seq<Level>, small: int, large: int)
    requires
        is_sound(asks),
        rising(asks),
        0 <= small <= large <= offered(asks),
    ensures
        cost_of(asks, small) * large <= cost_of(asks, large) * small,
{
    lemma_prices_by_value(asks);
    assert forall|i: int| 0 <= i < asks.len() implies 0 <= value((#[trigger] asks[i]).price) by {}
    let m = lemma_margin(asks, 0, 0, 0, small, large);
    let p = cost_of(asks, small);
    let q = cost_of(asks, large);
    assert(p * large <= q * small) by (nonlinear_arith)
        requires
            p <= (0 + small) * m,
            q - p >= (large - small) * m,
            0 <= small <= large,
    {
        assert(p * (large - small) <= (small * m) * (large - small));
        assert(small * (q - p) >= small * ((large - small) * m));
        assert((small * m) * (large - small) == small * ((large - small) * m));
        assert(p * large == p * small + p * (large - small));
        assert(q * small == p * small + small * (q - p));
    }
}

/// Where nothing is rounded but the prices, and those in order: of a side in order of rising
/// prices that fills an order, a smaller order is filled too, and costs no more per unit.
pub proof fn smaller_order_costs_no_more(
    f: Answers,
    asks: Seq<Level>,
    small: Double,
    large: Double,
    r: Option<Double>,
    s: Option<Double>,
)
    requires
        divides_in_order(f),
        is_sound(asks),
        rising(asks),
        small.finite(),
        large.finite(),
        0 < value(small) <= value(large) <= offered(asks),
        is_vwap(unrounded(f), Side::Asks, asks, small, r),
        is_vwap(unrounded(f), Side::Asks, asks, large, s),
    ensures
        r matches Some(cheaper) && s matches Some(dearer) && cheaper.le(dearer),
{
    let a = unrounded_trade_costs_what_it_takes(f, Side::Asks, asks, small, r);
    let b = unrounded_trade_costs_what_it_takes(f, Side::Asks, asks, large, s);
    dust_is_above_zero();
    let x = value(small);
    let y = value(large);
    let p = cost_of(asks, x);
    let q = cost_of(asks, y);
    larger_amount_costs_no_less(asks, x, y);
    unit_is_positive();
    let u = unit();
    let va = value(a);
    let vb = value(b);
    assert(va * y <= vb * x) by (nonlinear_arith)
        requires
            va * u == p,
            vb * u == q,
            p * y <= q * x,
            u > 0,
    {
        assert((va * y) * u == (va * u) * y);
        assert((vb * x) * u == (vb * u) * x);
    }
    assert(answers(f, Op::Over, a, small, r->0));
    assert(answers(f, Op::Over, b, large, s->0));
}

/// Dust is above zero.
pub proof fn dust_is_above_zero()
    ensures
        value(Double { bits: DUST_BITS }) > 0,
{
    let zero = Double { bits: 0 };
    zero_is_nothing();
    values_are_in_order(Double { bits: DUST_BITS }, zero);
}

/// Where nothing is rounded but the prices, and those in order: selling and buying the same size
/// on one book that is not crossed earns nothing. The sale brings no more per unit than the best
/// bid, and the purchase costs no less than the best ask.
pub proof fn round_trip_on_one_book_earns_nothing(
    f: Answers,
    bids: Seq<Level>,
    asks: Seq<Level>,
    size: Double,
    sold: Option<Double>,
    bought: Option<Double>,
)
    requires
        divides_in_order(f),
        is_sound(bids),
        is_sound(asks),
        falling(bids),
        rising(asks),
        size.finite(),
        0 < value(size) <= offered(bids),
        value(size) <= offered(asks),
        bids[0].price.le(asks[0].price),
        is_vwap(unrounded(f), Side::Bids, bids, size, sold),
        is_vwap(unrounded(f), Side::Asks, asks, size, bought),
    ensures
        sold matches Some(s) && bought matches Some(b) && s.le(bids[0].price)
            && bids[0].price.le(asks[0].price) && asks[0].price.le(b) && s.le(b),
{
    let a = unrounded_trade_costs_what_it_takes(f, Side::Bids, bids, size, sold);
    let b = unrounded_trade_costs_what_it_takes(f, Side::Asks, asks, size, bought);
    dust_is_above_zero();
    lemma_prices_by_value(bids);
    lemma_prices_by_value(asks);
    assert(bids.len() > 0 && asks.len() > 0);
    let n = value(size);
    let bid = bids[0].price;
    let ask = asks[0].price;
    assert forall|i: int| 0 <= i < bids.len() implies value((#[trigger] bids[i]).price) <= value(
        bid,
    ) by {
        assert(value(bids[0].price) >= value(bids[i].price));
    }
    assert forall|i: int| 0 <= i < asks.len() implies value((#[trigger] asks[i]).price) >= value(
        ask,
    ) by {
        assert(value(asks[0].price) <= value(asks[i].price));
    }
    lemma_cost_bounds(bids, n, value(bid));
    lemma_cost_bounds(asks, n, value(ask));
    assert(n * value(bid) == value(bid) * n) by (nonlinear_arith);
    assert(n * value(ask) == value(ask) * n) by (nonlinear_arith);
    assert(answers(f, Op::Over, a, size, sold->0));
    assert(answers(f, Op::Over, b, size, bought->0));
    assert(bid.finite() && ask.finite());
}

} // verus!
