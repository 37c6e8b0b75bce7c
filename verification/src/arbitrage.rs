//! What an evaluation is: what is traded on which books, and what it earns.

use vstd::prelude::*;

use crate::arithmetic::{answers, Answers, Op};
use crate::depth::{cost_of, is_sound, offered, unrounded_trade_costs_what_it_takes};
use crate::double::Double;
use crate::exact::{
    constants_have_their_values, divides_in_order, exact, factor_cancels, is_exact, is_unrounded,
    unit, unit_is_positive, unrounded, value, values_are_in_order, zero_is_nothing,
};
use crate::rounded::{is_about, is_near, rounded, roundings_add_up, same_multiples};
use crate::spread_replay::Direction;
use crate::tick::{falling, rising, Level, Tick};
use crate::trades::{
    are_evaluations, are_legs, are_prices, is_gross, is_leg, is_mid, is_net, is_vwap, row_of,
    tradable, Eval, Side, Terms,
};

verus! {

/// Whether the prices of a side are numbers.
pub open spec fn priced(levels: Seq<Level>) -> bool {
    forall|i: int| 0 <= i < levels.len() ==> !(#[trigger] levels[i]).price.nan()
}

/// Of a book in order, the middle is taken of the highest bid and the lowest ask. There is one
/// where some bid and every ask is above zero, and there is an ask.
pub proof fn middle_is_of_the_best_prices(f: Answers, book: Tick, r: Option<Double>) -> (best: (
    Double,
    Double,
))
    requires
        is_mid(f, book, r),
        falling(book.bids@),
        rising(book.asks@),
        priced(book.bids@),
        priced(book.asks@),
    ensures
        r is Some <==> (exists|i: int|
            0 <= i < book.bids@.len() && (#[trigger] book.bids@[i]).price.gt(Double { bits: 0 }))
            && book.asks@.len() > 0 && forall|j: int|
            0 <= j < book.asks@.len() ==> (#[trigger] book.asks@[j]).price.gt(Double { bits: 0 }),
        r matches Some(mid) ==> {
            &&& exists|i: int| 0 <= i < book.bids@.len() && (#[trigger] book.bids@[i]).price == best.0
            &&& exists|j: int| 0 <= j < book.asks@.len() && (#[trigger] book.asks@[j]).price == best.1
            &&& forall|i: int|
                0 <= i < book.bids@.len() ==> (#[trigger] book.bids@[i]).price.le(best.0)
            &&& forall|j: int|
                0 <= j < book.asks@.len() ==> best.1.le((#[trigger] book.asks@[j]).price)
            &&& exists|sum: Double| #[trigger]
                answers(f, Op::Plus, best.0, best.1, sum) && answers(
                    f,
                    Op::Over,
                    sum,
                    Double { bits: 0x4000_0000_0000_0000 },
                    mid,
                )
        },
{
    let zero = Double { bits: 0 };
    let bids = book.bids@;
    let asks = book.asks@;
    if bids.len() > 0 && asks.len() > 0 {
        let bid = bids[0].price;
        let ask = asks[0].price;
        assert forall|i: int| 0 <= i < bids.len() implies (#[trigger] bids[i]).price.le(bid) by {
            assert(bids[0].price.rank() >= bids[i].price.rank());
        }
        assert forall|j: int| 0 <= j < asks.len() implies ask.le((#[trigger] asks[j]).price) by {
            assert(asks[0].price.rank() <= asks[j].price.rank());
        }
        if exists|i: int| 0 <= i < bids.len() && (#[trigger] bids[i]).price.gt(zero) {
            let i = choose|i: int| 0 <= i < bids.len() && (#[trigger] bids[i]).price.gt(zero);
            assert(bids[i].price.le(bid));
        }
        if bid.gt(zero) {
            assert(bids[0].price.gt(zero));
        }
        if ask.gt(zero) {
            assert forall|j: int| 0 <= j < asks.len() implies (#[trigger] asks[j]).price.gt(
                zero,
            ) by {
                assert(ask.le(asks[j].price));
            }
        } else {
            assert(!asks[0].price.gt(zero));
        }
        (bid, ask)
    } else {
        (zero, zero)
    }
}

/// Where the arithmetic is exact, the middle of a book in order lies halfway between its highest
/// bid and its lowest ask, and so, if the book is not crossed, between every bid and every ask.
pub proof fn middle_lies_between_bids_and_asks(f: Answers, book: Tick, mid: Double)
    requires
        is_mid(exact(f), book, Some(mid)),
        falling(book.bids@),
        rising(book.asks@),
        forall|i: int| 0 <= i < book.bids@.len() ==> (#[trigger] book.bids@[i]).price.finite(),
        forall|j: int| 0 <= j < book.asks@.len() ==> (#[trigger] book.asks@[j]).price.finite(),
        forall|i: int, j: int|
            0 <= i < book.bids@.len() && 0 <= j < book.asks@.len() ==> (
            #[trigger] book.bids@[i]).price.le((#[trigger] book.asks@[j]).price),
    ensures
        mid.finite(),
        forall|i: int| 0 <= i < book.bids@.len() ==> (#[trigger] book.bids@[i]).price.le(mid),
        forall|j: int| 0 <= j < book.asks@.len() ==> mid.le((#[trigger] book.asks@[j]).price),
        exists|i: int, j: int|
            0 <= i < book.bids@.len() && 0 <= j < book.asks@.len() && 2 * value(mid) == value(
                (#[trigger] book.bids@[i]).price,
            ) + value((#[trigger] book.asks@[j]).price),
{
    let bids = book.bids@;
    let asks = book.asks@;
    let two = Double { bits: 0x4000_0000_0000_0000 };
    let best = middle_is_of_the_best_prices(exact(f), book, Some(mid));
    let i = choose|i: int| 0 <= i < bids.len() && (#[trigger] bids[i]).price == best.0;
    let j = choose|j: int| 0 <= j < asks.len() && (#[trigger] asks[j]).price == best.1;
    let sum = choose|sum: Double| #[trigger]
        answers(exact(f), Op::Plus, best.0, best.1, sum) && answers(
            exact(f),
            Op::Over,
            sum,
            two,
            mid,
        );
    constants_have_their_values();
    unit_is_positive();
    assert(is_exact(Op::Plus, best.0, best.1, sum));
    assert(is_exact(Op::Over, sum, two, mid));
    let u = unit();
    let m = value(mid);
    assert((2 * m) * u == value(sum) * u) by (nonlinear_arith)
        requires
            m * (2 * u) == value(sum) * u,
    ;
    factor_cancels(2 * m, value(sum), u);
    assert(2 * m == value(bids[i].price) + value(asks[j].price));
    values_are_in_order(best.0, best.1);
    assert(bids[i].price.le(asks[j].price));
    assert forall|k: int| 0 <= k < bids.len() implies (#[trigger] bids[k]).price.le(mid) by {
        values_are_in_order(bids[k].price, best.0);
        values_are_in_order(bids[k].price, mid);
    }
    assert forall|k: int| 0 <= k < asks.len() implies mid.le((#[trigger] asks[k]).price) by {
        values_are_in_order(best.1, asks[k].price);
        values_are_in_order(mid, asks[k].price);
    }
}

/// Where the sum does not round, and quotients in order, the middle of a book in order that is not
/// crossed lies between every bid and every ask.
pub proof fn rounded_middle_lies_between_bids_and_asks(f: Answers, book: Tick, mid: Double)
    requires
        is_mid(unrounded(f), book, Some(mid)),
        divides_in_order(f),
        falling(book.bids@),
        rising(book.asks@),
        forall|i: int| 0 <= i < book.bids@.len() ==> (#[trigger] book.bids@[i]).price.finite(),
        forall|j: int| 0 <= j < book.asks@.len() ==> (#[trigger] book.asks@[j]).price.finite(),
        forall|i: int, j: int|
            0 <= i < book.bids@.len() && 0 <= j < book.asks@.len() ==> (
            #[trigger] book.bids@[i]).price.le((#[trigger] book.asks@[j]).price),
    ensures
        forall|i: int| 0 <= i < book.bids@.len() ==> (#[trigger] book.bids@[i]).price.le(mid),
        forall|j: int| 0 <= j < book.asks@.len() ==> mid.le((#[trigger] book.asks@[j]).price),
{
    let bids = book.bids@;
    let asks = book.asks@;
    let two = Double { bits: 0x4000_0000_0000_0000 };
    let best = middle_is_of_the_best_prices(unrounded(f), book, Some(mid));
    let i = choose|i: int| 0 <= i < bids.len() && (#[trigger] bids[i]).price == best.0;
    let j = choose|j: int| 0 <= j < asks.len() && (#[trigger] asks[j]).price == best.1;
    let sum = choose|sum: Double| #[trigger]
        answers(unrounded(f), Op::Plus, best.0, best.1, sum) && answers(
            unrounded(f),
            Op::Over,
            sum,
            two,
            mid,
        );
    constants_have_their_values();
    unit_is_positive();
    assert(is_unrounded(Op::Plus, best.0, best.1, sum));
    assert(answers(f, Op::Over, sum, two, mid));
    let u = unit();
    let s = value(sum);
    assert(bids[i].price.le(asks[j].price));
    values_are_in_order(best.0, best.1);
    assert forall|k: int| 0 <= k < bids.len() implies (#[trigger] bids[k]).price.le(mid) by {
        let p = bids[k].price;
        values_are_in_order(p, best.0);
        assert(s * u >= value(p) * (2 * u)) by (nonlinear_arith)
            requires
                s >= 2 * value(p),
                u > 0,
        ;
        assert(p.finite());
    }
    assert forall|k: int| 0 <= k < asks.len() implies mid.le((#[trigger] asks[k]).price) by {
        let p = asks[k].price;
        values_are_in_order(best.1, p);
        assert(s * u <= value(p) * (2 * u)) by (nonlinear_arith)
            requires
                s <= 2 * value(p),
                u > 0,
        ;
        assert(p.finite());
    }
}

/// Where the sum and the half round, as binary64 does, the middle of a book in order is half of its
/// highest bid and its lowest ask up to two roundings.
pub proof fn rounded_middle_is_half_of_the_best_prices(f: Answers, book: Tick, mid: Double)
    requires
        is_mid(rounded(f), book, Some(mid)),
        falling(book.bids@),
        rising(book.asks@),
        forall|i: int| 0 <= i < book.bids@.len() ==> (#[trigger] book.bids@[i]).price.finite(),
        forall|j: int| 0 <= j < book.asks@.len() ==> (#[trigger] book.asks@[j]).price.finite(),
    ensures
        mid.finite(),
        exists|i: int, j: int|
            0 <= i < book.bids@.len() && 0 <= j < book.asks@.len() && is_about(
                2,
                value((#[trigger] book.bids@[i]).price) + value((#[trigger] book.asks@[j]).price),
                2 * value(mid),
            ) && (forall|k: int|
                0 <= k < book.bids@.len() ==> (#[trigger] book.bids@[k]).price.le(
                    book.bids@[i].price,
                )) && (forall|k: int|
                0 <= k < book.asks@.len() ==> book.asks@[j].price.le(
                    (#[trigger] book.asks@[k]).price,
                )),
{
    let bids = book.bids@;
    let asks = book.asks@;
    let zero = Double { bits: 0 };
    let two = Double { bits: 0x4000_0000_0000_0000 };
    let best = middle_is_of_the_best_prices(rounded(f), book, Some(mid));
    let i = choose|i: int| 0 <= i < bids.len() && (#[trigger] bids[i]).price == best.0;
    let j = choose|j: int| 0 <= j < asks.len() && (#[trigger] asks[j]).price == best.1;
    let sum = choose|sum: Double| #[trigger]
        answers(rounded(f), Op::Plus, best.0, best.1, sum) && answers(
            rounded(f),
            Op::Over,
            sum,
            two,
            mid,
        );
    constants_have_their_values();
    unit_is_positive();
    zero_is_nothing();
    let k = choose|k: int| 0 <= k < bids.len() && (#[trigger] bids[k]).price.gt(zero);
    values_are_in_order(bids[k].price, zero);
    values_are_in_order(bids[k].price, best.0);
    assert(asks[j].price.gt(zero));
    values_are_in_order(best.1, zero);
    assert(is_near(Op::Plus, best.0, best.1, sum));
    let u = unit();
    let total = value(best.0) + value(best.1);
    let s = value(sum);
    assert(s >= 0) by {
        crate::rounded::stays_above_zero(1, total, s);
    }
    assert(is_near(Op::Over, sum, two, mid));
    let m = value(mid);
    assert(m * (2 * u) == (2 * m) * u) by (nonlinear_arith);
    same_multiples(1, s, 2 * m, u);
    roundings_add_up(1, 1, total, s, 2 * m);
    assert(is_about(2, value(bids[i].price) + value(asks[j].price), 2 * m));
}

/// Levels behind the first do not move the middle: two books with the same best prices have the
/// same one.
pub proof fn levels_behind_the_first_do_not_move_the_middle(
    f: Answers,
    a: Tick,
    b: Tick,
    r: Option<Double>,
)
    requires
        a.bids@.len() > 0,
        b.bids@.len() > 0,
        a.asks@.len() > 0,
        b.asks@.len() > 0,
        a.bids@[0].price == b.bids@[0].price,
        a.asks@[0].price == b.asks@[0].price,
    ensures
        is_mid(f, a, r) == is_mid(f, b, r),
{
}

/// A book without bids or without asks has no middle.
pub proof fn one_sided_book_has_no_middle(f: Answers, book: Tick, r: Option<Double>)
    requires
        is_mid(f, book, r),
        book.bids@.len() == 0 || book.asks@.len() == 0,
    ensures
        r is None,
{
}

/// A size that is not above zero has no price.
pub proof fn no_size_has_no_price(
    f: Answers,
    side: Side,
    levels: Seq<Level>,
    size: Double,
    r: Option<Double>,
)
    requires
        is_vwap(f, side, levels, size, r),
        size.le(Double { bits: 0 }),
    ensures
        r is None,
{
}

/// Where the arithmetic is exact, the average price of a size that a side fills, times the size,
/// is what the size costs on that side: each level at its own price, the first ones first.
pub proof fn average_price_makes_up_the_cost(
    f: Answers,
    side: Side,
    levels: Seq<Level>,
    size: Double,
    r: Option<Double>,
)
    requires
        is_vwap(exact(f), side, levels, size, r),
        is_sound(levels),
        size.finite(),
        0 < value(size) <= offered(levels),
    ensures
        r matches Some(price) && price.finite() && value(price) * value(size) == cost_of(
            levels,
            value(size),
        ),
{
    assert(unrounded(exact(f)) =~= exact(f));
    let cost = unrounded_trade_costs_what_it_takes(exact(f), side, levels, size, r);
    crate::depth::dust_is_above_zero();
    let price = r->0;
    assert(answers(exact(f), Op::Over, cost, size, price));
    assert(is_exact(Op::Over, cost, size, price));
}

/// Where the arithmetic is exact, what a trade earns and the fees of both venues together are the
/// difference of its prices, in ten-thousandths of the buying price.
pub proof fn earning_is_the_difference_less_the_fees(
    f: Answers,
    buy: Double,
    sell: Double,
    terms: Terms,
    net: Double,
)
    requires
        is_net(exact(f), buy, sell, terms, net),
        buy.finite(),
        value(buy) > 0,
        sell.finite(),
        terms.lighter_fee_bps.finite(),
        terms.hl_fee_bps.finite(),
    ensures
        net.finite(),
        (value(net) + value(terms.lighter_fee_bps) + value(terms.hl_fee_bps)) * value(buy) == 10_000
            * (value(sell) - value(buy)) * unit(),
{
    let g = exact(f);
    let scale = Double { bits: 0x40c3_8800_0000_0000 };
    let (gross, rest) = choose|gross: Double, rest: Double| #[trigger]
        is_gross(g, buy, sell, gross) && #[trigger] answers(
            g,
            Op::Minus,
            gross,
            terms.lighter_fee_bps,
            rest,
        ) && answers(g, Op::Minus, rest, terms.hl_fee_bps, net);
    let (difference, share) = choose|difference: Double, share: Double| #[trigger]
        answers(g, Op::Minus, sell, buy, difference) && #[trigger] answers(
            g,
            Op::Over,
            difference,
            buy,
            share,
        ) && answers(g, Op::Times, share, scale, gross);
    constants_have_their_values();
    unit_is_positive();
    assert(is_exact(Op::Minus, sell, buy, difference));
    assert(is_exact(Op::Over, difference, buy, share));
    assert(is_exact(Op::Times, share, scale, gross));
    assert(is_exact(Op::Minus, gross, terms.lighter_fee_bps, rest));
    assert(is_exact(Op::Minus, rest, terms.hl_fee_bps, net));
    let u = unit();
    let h = value(share);
    let b = value(buy);
    let d = value(sell) - b;
    assert(value(gross) * u == (10_000 * h) * u) by (nonlinear_arith)
        requires
            value(gross) * u == h * (10_000 * u),
    ;
    factor_cancels(value(gross), 10_000 * h, u);
    assert((10_000 * h) * b == 10_000 * d * u) by (nonlinear_arith)
        requires
            h * b == d * u,
    ;
}

/// Where the arithmetic is exact, a trade earns no less at a higher selling price, at a lower
/// buying price, or with lower fees.
pub proof fn better_prices_earn_no_less(
    f: Answers,
    buy: Double,
    sell: Double,
    terms: Terms,
    net: Double,
    better_buy: Double,
    better_sell: Double,
    better_terms: Terms,
    better_net: Double,
)
    requires
        is_net(exact(f), buy, sell, terms, net),
        is_net(exact(f), better_buy, better_sell, better_terms, better_net),
        buy.finite() && sell.finite() && better_buy.finite() && better_sell.finite(),
        0 < value(better_buy) <= value(buy),
        0 <= value(sell) <= value(better_sell),
        terms.lighter_fee_bps.finite() && terms.hl_fee_bps.finite(),
        better_terms.lighter_fee_bps.finite() && better_terms.hl_fee_bps.finite(),
        value(better_terms.lighter_fee_bps) + value(better_terms.hl_fee_bps) <= value(
            terms.lighter_fee_bps,
        ) + value(terms.hl_fee_bps),
    ensures
        net.le(better_net),
{
    earning_is_the_difference_less_the_fees(f, buy, sell, terms, net);
    earning_is_the_difference_less_the_fees(f, better_buy, better_sell, better_terms, better_net);
    unit_is_positive();
    let u = unit();
    let b = value(buy);
    let s = value(sell);
    let x = value(net) + value(terms.lighter_fee_bps) + value(terms.hl_fee_bps);
    let c = value(better_buy);
    let t = value(better_sell);
    let y = value(better_net) + value(better_terms.lighter_fee_bps) + value(
        better_terms.hl_fee_bps,
    );
    let k = 10_000 * u;
    assert(x <= y) by (nonlinear_arith)
        requires
            x * b == 10_000 * (s - b) * u,
            y * c == 10_000 * (t - c) * u,
            k == 10_000 * u,
            u > 0,
            0 < c <= b,
            0 <= s <= t,
    {
        assert((x + k) * b == s * k);
        assert((y + k) * c == t * k);
        assert(y + k >= 0) by {
            if y + k < 0 {
                assert((y + k) * c < 0);
                assert(t * k >= 0);
            }
        }
        if x > y {
            assert((x + k) * b > (y + k) * b);
            assert((y + k) * b >= (y + k) * c);
            assert(s * k <= t * k);
        }
    }
    values_are_in_order(net, better_net);
}

/// The prices of the four trades that an evaluation asks for.
pub ghost struct Quotes {
    pub size: Double,
    /// Of buying on Lighter, and of selling there.
    pub bought_on_lighter: Option<Double>,
    pub sold_on_lighter: Option<Double>,
    /// Of buying on Hyperliquid, and of selling there.
    pub bought_on_hyperliquid: Option<Double>,
    pub sold_on_hyperliquid: Option<Double>,
}

/// Whether quotes are the average prices of one size on the books of the two venues: purchases
/// from the asks, and sales to the bids.
pub open spec fn are_quotes(f: Answers, lighter: Tick, hyperliquid: Tick, q: Quotes) -> bool {
    &&& is_vwap(f, Side::Asks, lighter.asks@, q.size, q.bought_on_lighter)
    &&& is_vwap(f, Side::Bids, lighter.bids@, q.size, q.sold_on_lighter)
    &&& is_vwap(f, Side::Asks, hyperliquid.asks@, q.size, q.bought_on_hyperliquid)
    &&& is_vwap(f, Side::Bids, hyperliquid.bids@, q.size, q.sold_on_hyperliquid)
}

/// A tick is evaluated at the size that its notional buys at the middle of its own book. With a
/// size that is finite and above zero there is one evaluation for each direction whose two trades
/// have a price, first the one that buys on Lighter and sells on Hyperliquid, then the one that
/// buys on Hyperliquid and sells on Lighter. Without a middle or such a size there is none.
pub proof fn evaluations_trade_on_both_venues(
    f: Answers,
    tick: Tick,
    other: Tick,
    lighter: Tick,
    hyperliquid: Tick,
    age_other_ms: u64,
    terms: Terms,
    evals: Seq<Eval>,
) -> (found: (Option<Double>, Quotes))
    requires
        are_evaluations(f, tick, other, age_other_ms, terms, evals),
        lighter.exchange@ == "lighter"@,
        hyperliquid.exchange@ == "hyperliquid"@,
        (tick == lighter && other == hyperliquid) || (tick == hyperliquid && other == lighter),
    ensures
        is_mid(f, tick, found.0),
        found.0 is None ==> evals.len() == 0,
        found.0 matches Some(mid) ==> {
            let q = found.1;
            let l = q.bought_on_lighter is Some && q.sold_on_hyperliquid is Some;
            let h = q.bought_on_hyperliquid is Some && q.sold_on_lighter is Some;
            &&& answers(f, Op::Over, terms.notional_usd, mid, q.size)
            &&& !(q.size.finite() && q.size.gt(Double { bits: 0 })) ==> evals.len() == 0
            &&& q.size.finite() && q.size.gt(Double { bits: 0 }) ==> {
                &&& are_quotes(f, lighter, hyperliquid, q)
                &&& evals.len() == if l && h {
                    2int
                } else if l || h {
                    1int
                } else {
                    0int
                }
                &&& forall|i: int|
                    0 <= i < evals.len() ==> (#[trigger] evals[i]).recv_ms == tick.recv_ms
                        && evals[i].age_other_ms == age_other_ms
                &&& l ==> {
                    &&& evals[0].direction == Direction::LongL
                    &&& evals[0].vwap_buy == q.bought_on_lighter->0
                    &&& evals[0].vwap_sell == q.sold_on_hyperliquid->0
                    &&& is_net(f, evals[0].vwap_buy, evals[0].vwap_sell, terms, evals[0].net_bps)
                }
                &&& h ==> {
                    let e = evals[evals.len() - 1];
                    &&& e.direction == Direction::LongH
                    &&& e.vwap_buy == q.bought_on_hyperliquid->0
                    &&& e.vwap_sell == q.sold_on_lighter->0
                    &&& is_net(f, e.vwap_buy, e.vwap_sell, terms, e.net_bps)
                }
            }
        },
{
    reveal_strlit("lighter");
    reveal_strlit("hyperliquid");
    assert("lighter"@.len() != "hyperliquid"@.len());
    let mid = choose|mid: Option<Double>| #[trigger]
        is_mid(f, tick, mid) && match mid {
            Some(m) => exists|size: Double| #[trigger]
                answers(f, Op::Over, terms.notional_usd, m, size) && if tradable(size) {
                    are_legs(f, tick, other, age_other_ms, size, terms, evals)
                } else {
                    evals.len() == 0
                },
            None => evals.len() == 0,
        };
    let nothing = Quotes {
        size: Double { bits: 0 },
        bought_on_lighter: None,
        sold_on_lighter: None,
        bought_on_hyperliquid: None,
        sold_on_hyperliquid: None,
    };
    if mid is None {
        (mid, nothing)
    } else {
        let m = mid->0;
        let size = choose|size: Double| #[trigger]
            answers(f, Op::Over, terms.notional_usd, m, size) && if tradable(size) {
                are_legs(f, tick, other, age_other_ms, size, terms, evals)
            } else {
                evals.len() == 0
            };
        if tradable(size) {
            let (l, h) = choose|l: Option<Eval>, h: Option<Eval>| #[trigger]
                is_leg(f, Direction::LongL, tick, other, age_other_ms, size, terms, l)
                    && #[trigger] is_leg(
                    f,
                    Direction::LongH,
                    tick,
                    other,
                    age_other_ms,
                    size,
                    terms,
                    h,
                ) && evals == row_of(l) + row_of(h);
            let (bl, sh) = lemma_leg(
                f,
                Direction::LongL,
                tick,
                other,
                age_other_ms,
                size,
                terms,
                l,
            );
            let (bh, sl) = lemma_leg(
                f,
                Direction::LongH,
                tick,
                other,
                age_other_ms,
                size,
                terms,
                h,
            );
            (
                mid,
                Quotes {
                    size,
                    bought_on_lighter: bl,
                    sold_on_lighter: sl,
                    bought_on_hyperliquid: bh,
                    sold_on_hyperliquid: sh,
                },
            )
        } else {
            (mid, Quotes { size, ..nothing })
        }
    }
}

proof fn lemma_leg(
    f: Answers,
    direction: Direction,
    tick: Tick,
    other: Tick,
    age_other_ms: u64,
    size: Double,
    terms: Terms,
    r: Option<Eval>,
) -> (prices: (Option<Double>, Option<Double>))
    requires
        is_leg(f, direction, tick, other, age_other_ms, size, terms, r),
    ensures
        are_prices(f, direction, tick, other, size, prices.0, prices.1),
        r is Some <==> prices.0 is Some && prices.1 is Some,
        r matches Some(e) ==> {
            &&& e.recv_ms == tick.recv_ms
            &&& e.age_other_ms == age_other_ms
            &&& e.direction == direction
            &&& e.vwap_buy == prices.0->0
            &&& e.vwap_sell == prices.1->0
            &&& is_net(f, e.vwap_buy, e.vwap_sell, terms, e.net_bps)
        },
{
    choose|buy: Option<Double>, sell: Option<Double>| #[trigger]
        are_prices(f, direction, tick, other, size, buy, sell) && match (buy, sell, r) {
            (Some(b), Some(s), Some(e)) => {
                &&& is_net(f, b, s, terms, e.net_bps)
                &&& e == Eval {
                    recv_ms: tick.recv_ms,
                    age_other_ms,
                    direction,
                    net_bps: e.net_bps,
                    vwap_buy: b,
                    vwap_sell: s,
                }
            },
            (Some(_), Some(_), None) => false,
            (_, _, e) => e is None,
        }
}

/// Where the arithmetic is exact, the size that is traded is worth the notional at the middle.
pub proof fn size_is_worth_the_notional(
    f: Answers,
    notional: Double,
    mid: Double,
    size: Double,
)
    requires
        answers(exact(f), Op::Over, notional, mid, size),
        notional.finite(),
        mid.finite(),
        value(mid) > 0,
    ensures
        size.finite(),
        value(size) * value(mid) == value(notional) * unit(),
{
    assert(is_exact(Op::Over, notional, mid, size));
}

} // verus!
