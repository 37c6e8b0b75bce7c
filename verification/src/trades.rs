//! The trades of a replay: what a size costs on one side of a book, and what buying on one venue
//! and selling on the other earns.

use vstd::prelude::*;

use crate::arithmetic::{
    answers, answers_of, is_settled, is_total, Answers, Op, TEN_THOUSAND_BITS, TWO_BITS,
};
use crate::double::{Double, DUST_BITS};
use crate::spread_replay::Direction;
use crate::text::same_text;
use crate::tick::{Level, Tick, Venue};

verus! {

// ---------------------------------------------------------------------------
// Average prices
// ---------------------------------------------------------------------------

/// The two sides of a book: purchases take from the asks, and sales from the bids.
#[derive(Clone, Copy, Debug, PartialEq, Eq, Structural)]
pub enum Side {
    Bids,
    Asks,
}

/// Whether too much of a size remains for a price: more than dust, or on the asks the whole size.
pub open spec fn is_short(side: Side, size: Double, remaining: Double) -> bool {
    remaining.gt(Double { bits: DUST_BITS }) || (side == Side::Asks && size.le(remaining))
}

/// Whether a level is taken: the lesser of what remains and what the level offers costs `cost`,
/// which makes `total` into `sum`, and leaves `rest`.
pub open spec fn is_taken(
    f: Answers,
    level: Level,
    remaining: Double,
    total: Double,
    cost: Double,
    sum: Double,
    rest: Double,
) -> bool {
    let amount = remaining.min_spec(level.size);
    &&& answers(f, Op::Times, amount, level.price, cost)
    &&& answers(f, Op::Plus, total, cost, sum)
    &&& answers(f, Op::Minus, remaining, amount, rest)
}

/// Whether `r` comes of sweeping some levels in order: until nothing remains or no level is left,
/// one level after the other is taken. If too much then remains, there is no price; else the price
/// is the total over the size.
pub open spec fn is_swept(
    f: Answers,
    side: Side,
    levels: Seq<Level>,
    size: Double,
    remaining: Double,
    total: Double,
    r: Option<Double>,
) -> bool
    decreases levels.len(),
{
    if levels.len() == 0 || remaining.le(Double { bits: 0 }) {
        if is_short(side, size, remaining) {
            r is None
        } else {
            r matches Some(price) && answers(f, Op::Over, total, size, price)
        }
    } else {
        exists|cost: Double, sum: Double, rest: Double| #[trigger]
            is_taken(f, levels[0], remaining, total, cost, sum, rest) && is_swept(
                f,
                side,
                levels.drop_first(),
                size,
                rest,
                sum,
                r,
            )
    }
}

/// Whether `r` is the average price of a size on a side of a book: none where the size is not
/// above zero, or the side is too shallow.
pub open spec fn is_vwap(
    f: Answers,
    side: Side,
    levels: Seq<Level>,
    size: Double,
    r: Option<Double>,
) -> bool {
    if size.le(Double { bits: 0 }) {
        r is None
    } else {
        is_swept(f, side, levels, size, size, Double { bits: 0 }, r)
    }
}

fn vwap<F: Fn(Op, Double, Double) -> Double>(
    f: &F,
    side: Side,
    levels: &Vec<Level>,
    size: Double,
) -> (r: Option<Double>)
    requires
        is_total(*f),
    ensures
        is_vwap(answers_of(*f), side, levels@, size, r),
{
    if size.at_most(Double::zero()) {
        return None;
    }
    let ghost all = levels@;
    let ghost zero = Double { bits: 0 };
    let mut remaining: Double = size;
    let mut total: Double = Double::zero();
    let mut i: usize = 0;
    proof {
        assert(all.skip(0) =~= all);
        assert(total == zero);
    }
    while i < levels.len() && !remaining.at_most(Double::zero())
        invariant
            is_total(*f),
            i <= levels.len(),
            all == levels@,
            zero == (Double { bits: 0 }),
            forall|r: Option<Double>|
                is_swept(answers_of(*f), side, all.skip(i as int), size, remaining, total, r) ==> #[trigger] is_swept(
                    answers_of(*f),
                    side,
                    all,
                    size,
                    size,
                    zero,
                    r,
                ),
        decreases levels.len() - i,
    {
        let level: Level = levels[i];
        let amount: Double = remaining.lesser(level.size);
        let cost: Double = f(Op::Times, amount, level.price);
        let sum: Double = f(Op::Plus, total, cost);
        let rest: Double = f(Op::Minus, remaining, amount);
        proof {
            let here = all.skip(i as int);
            assert(here[0] == level);
            assert(here.drop_first() =~= all.skip(i + 1));
            assert(is_taken(answers_of(*f), here[0], remaining, total, cost, sum, rest));
            assert forall|r: Option<Double>|
                is_swept(answers_of(*f), side, all.skip(i + 1), size, rest, sum, r) implies #[trigger] is_swept(
                answers_of(*f),
                side,
                all,
                size,
                size,
                zero,
                r,
            ) by {
                assert(is_swept(answers_of(*f), side, here, size, remaining, total, r));
            }
        }
        total = sum;
        remaining = rest;
        i = i + 1;
    }
    let is_dust: bool = !remaining.exceeds(Double { bits: DUST_BITS });
    let r: Option<Double> = if !is_dust || (side == Side::Asks && size.at_most(remaining)) {
        None
    } else {
        Some(f(Op::Over, total, size))
    };
    proof {
        assert(is_swept(answers_of(*f), side, all.skip(i as int), size, remaining, total, r));
        assert(is_swept(answers_of(*f), side, all, size, size, zero, r));
    }
    r
}

/// The average price of buying a size from the asks of a book.
pub fn vwap_buy<F: Fn(Op, Double, Double) -> Double>(f: &F, asks: &Vec<Level>, size: Double) -> (r:
    Option<Double>)
    requires
        is_total(*f),
    ensures
        is_vwap(answers_of(*f), Side::Asks, asks@, size, r),
{
    vwap(f, Side::Asks, asks, size)
}

/// The average price of selling a size to the bids of a book.
pub fn vwap_sell<F: Fn(Op, Double, Double) -> Double>(f: &F, bids: &Vec<Level>, size: Double) -> (r:
    Option<Double>)
    requires
        is_total(*f),
    ensures
        is_vwap(answers_of(*f), Side::Bids, bids@, size, r),
{
    vwap(f, Side::Bids, bids, size)
}

/// With settled arithmetic a sweep has one outcome.
proof fn lemma_sweep_is_settled(
    f: Answers,
    side: Side,
    levels: Seq<Level>,
    size: Double,
    remaining: Double,
    total: Double,
    r: Option<Double>,
    s: Option<Double>,
)
    requires
        is_settled(f),
        is_swept(f, side, levels, size, remaining, total, r),
        is_swept(f, side, levels, size, remaining, total, s),
    ensures
        r == s,
    decreases levels.len(),
{
    if levels.len() == 0 || remaining.le(Double { bits: 0 }) {
    } else {
        let (c1, t1, x1) = choose|cost: Double, sum: Double, rest: Double| #[trigger]
            is_taken(f, levels[0], remaining, total, cost, sum, rest) && is_swept(
                f,
                side,
                levels.drop_first(),
                size,
                rest,
                sum,
                r,
            );
        let (c2, t2, x2) = choose|cost: Double, sum: Double, rest: Double| #[trigger]
            is_taken(f, levels[0], remaining, total, cost, sum, rest) && is_swept(
                f,
                side,
                levels.drop_first(),
                size,
                rest,
                sum,
                s,
            );
        assert(c1 == c2);
        assert(t1 == t2);
        assert(x1 == x2);
        lemma_sweep_is_settled(f, side, levels.drop_first(), size, x1, t1, r, s);
    }
}

/// With settled arithmetic a size has one average price on a side.
pub proof fn price_is_settled(
    f: Answers,
    side: Side,
    levels: Seq<Level>,
    size: Double,
    r: Option<Double>,
    s: Option<Double>,
)
    requires
        is_settled(f),
        is_vwap(f, side, levels, size, r),
        is_vwap(f, side, levels, size, s),
    ensures
        r == s,
{
    if !size.le(Double { bits: 0 }) {
        lemma_sweep_is_settled(f, side, levels, size, size, Double { bits: 0 }, r, s);
    }
}

/// Empty asks have no price for any size, and empty bids none for a size above dust.
pub proof fn empty_side_has_no_price(f: Answers, side: Side, size: Double, r: Option<Double>)
    requires
        !size.nan(),
        side == Side::Asks || size.gt(Double { bits: DUST_BITS }),
        is_vwap(f, side, Seq::empty(), size, r),
    ensures
        r is None,
{
}

/// Levels behind those that fill a trade do not matter: a trade after which nothing remains at the
/// first level is priced by that level alone.
pub proof fn first_level_decides(
    f: Answers,
    side: Side,
    levels: Seq<Level>,
    size: Double,
    price: Double,
)
    requires
        levels.len() > 0,
        !size.le(Double { bits: 0 }),
        forall|rest: Double|
            #[trigger] answers(f, Op::Minus, size, size.min_spec(levels[0].size), rest) ==> rest.le(
                Double { bits: 0 },
            ),
    ensures
        is_vwap(f, side, levels, size, Some(price)) == is_vwap(f, side, levels.take(1), size, Some(price)),
{
    let zero = Double { bits: 0 };
    assert(levels.take(1)[0] == levels[0]);
    if is_vwap(f, side, levels, size, Some(price)) {
        let (c, t, x) = choose|cost: Double, sum: Double, rest: Double| #[trigger]
            is_taken(f, levels[0], size, zero, cost, sum, rest) && is_swept(
                f,
                side,
                levels.drop_first(),
                size,
                rest,
                sum,
                Some(price),
            );
        assert(is_taken(f, levels.take(1)[0], size, zero, c, t, x));
        assert(is_swept(f, side, levels.take(1).drop_first(), size, x, t, Some(price)));
    }
    if is_vwap(f, side, levels.take(1), size, Some(price)) {
        let (c, t, x) = choose|cost: Double, sum: Double, rest: Double| #[trigger]
            is_taken(f, levels.take(1)[0], size, zero, cost, sum, rest) && is_swept(
                f,
                side,
                levels.take(1).drop_first(),
                size,
                rest,
                sum,
                Some(price),
            );
        assert(is_taken(f, levels[0], size, zero, c, t, x));
        assert(is_swept(f, side, levels.drop_first(), size, x, t, Some(price)));
    }
}

// ---------------------------------------------------------------------------
// Sizes
// ---------------------------------------------------------------------------

/// The best prices of a book, bid and ask: none where a side is empty, or a price is not above
/// zero.
pub open spec fn best_prices(book: Tick) -> Option<(Double, Double)> {
    let zero = Double { bits: 0 };
    if book.bids@.len() > 0 && book.asks@.len() > 0 && book.bids@[0].price.gt(zero)
        && book.asks@[0].price.gt(zero) {
        Some((book.bids@[0].price, book.asks@[0].price))
    } else {
        None
    }
}

/// Whether `r` is the middle of two prices.
pub open spec fn is_middle(
    f: Answers,
    bid: Double,
    ask: Double,
    r: Double,
) -> bool {
    exists|sum: Double| #[trigger]
        answers(f, Op::Plus, bid, ask, sum) && answers(
            f,
            Op::Over,
            sum,
            Double { bits: TWO_BITS },
            r,
        )
}

/// Whether `r` is the middle of the best prices of a book.
pub open spec fn is_mid(
    f: Answers,
    book: Tick,
    r: Option<Double>,
) -> bool {
    match (best_prices(book), r) {
        (Some(best), Some(mid)) => is_middle(f, best.0, best.1, mid),
        (None, None) => true,
        _ => false,
    }
}

/// The middle of the best prices of a book, from which a notional is turned into a size.
pub fn mid_from<F: Fn(Op, Double, Double) -> Double>(f: &F, book: &Tick) -> (r: Option<Double>)
    requires
        is_total(*f),
    ensures
        is_mid(answers_of(*f), *book, r),
{
    if book.bids.len() == 0 || book.asks.len() == 0 {
        return None;
    }
    let bid: Double = book.bids[0].price;
    let ask: Double = book.asks[0].price;
    if bid.exceeds(Double::zero()) && ask.exceeds(Double::zero()) {
        let sum: Double = f(Op::Plus, bid, ask);
        assert(answers(answers_of(*f), Op::Plus, bid, ask, sum));
        Some(f(Op::Over, sum, Double { bits: TWO_BITS }))
    } else {
        None
    }
}

/// Whether a size can be traded: whether it is finite and above zero.
pub open spec fn tradable(size: Double) -> bool {
    size.finite() && size.gt(Double { bits: 0 })
}

/// Whether a size can be traded.
pub fn is_tradable(size: Double) -> (r: bool)
    ensures
        r == tradable(size),
{
    !size.at_most(Double::zero()) && size.is_finite()
}

// ---------------------------------------------------------------------------
// Evaluations
// ---------------------------------------------------------------------------

/// What is traded, and what the trades cost: a notional in dollars, and fees in basis points.
#[derive(Clone, Copy, Debug, PartialEq, Eq, Structural)]
pub struct Terms {
    pub notional_usd: Double,
    pub lighter_fee_bps: Double,
    pub hl_fee_bps: Double,
}

/// What a trade in a direction would have earned.
#[derive(Clone, Copy, Debug, PartialEq, Eq, Structural)]
pub struct Eval {
    /// When the tick was received, in milliseconds since the epoch.
    pub recv_ms: u64,
    /// How old the other venue's book was, in milliseconds.
    pub age_other_ms: u64,
    pub direction: Direction,
    /// The earning after fees, in basis points.
    pub net_bps: Double,
    /// The average price on the side that is bought.
    pub vwap_buy: Double,
    /// The average price on the side that is sold.
    pub vwap_sell: Double,
}

/// Whether `r` is the earning of buying and selling at two prices, before fees: the difference
/// over the buying price, in basis points.
pub open spec fn is_gross(
    f: Answers,
    buy: Double,
    sell: Double,
    r: Double,
) -> bool {
    exists|difference: Double, share: Double| #[trigger]
        answers(f, Op::Minus, sell, buy, difference) && #[trigger] answers(
            f,
            Op::Over,
            difference,
            buy,
            share,
        ) && answers(f, Op::Times, share, Double { bits: TEN_THOUSAND_BITS }, r)
}

/// Whether `r` is the earning of buying and selling at two prices, after the fees of both venues.
pub open spec fn is_net(
    f: Answers,
    buy: Double,
    sell: Double,
    terms: Terms,
    r: Double,
) -> bool {
    exists|gross: Double, rest: Double| #[trigger]
        is_gross(f, buy, sell, gross) && #[trigger] answers(
            f,
            Op::Minus,
            gross,
            terms.lighter_fee_bps,
            rest,
        ) && answers(f, Op::Minus, rest, terms.hl_fee_bps, r)
}

fn net_bps<F: Fn(Op, Double, Double) -> Double>(
    f: &F,
    buy: Double,
    sell: Double,
    terms: Terms,
) -> (r: Double)
    requires
        is_total(*f),
    ensures
        is_net(answers_of(*f), buy, sell, terms, r),
{
    let difference: Double = f(Op::Minus, sell, buy);
    let share: Double = f(Op::Over, difference, buy);
    let gross: Double = f(Op::Times, share, Double { bits: TEN_THOUSAND_BITS });
    let rest: Double = f(Op::Minus, gross, terms.lighter_fee_bps);
    proof {
        assert(answers(answers_of(*f), Op::Minus, sell, buy, difference));
        assert(answers(answers_of(*f), Op::Over, difference, buy, share));
        assert(is_gross(answers_of(*f), buy, sell, gross));
        assert(answers(answers_of(*f), Op::Minus, gross, terms.lighter_fee_bps, rest));
    }
    f(Op::Minus, rest, terms.hl_fee_bps)
}

/// The one of two books that is on a venue.
pub open spec fn book_at(venue: Venue, tick: Tick, other: Tick) -> Tick {
    if Venue::of(tick.exchange@) == Some(venue) {
        tick
    } else {
        other
    }
}

/// The one of two books that is on a venue, where they are of different venues.
pub fn book_on<'a>(venue: Venue, tick: &'a Tick, other: &'a Tick) -> (r: &'a Tick)
    ensures
        *r == book_at(venue, *tick, *other),
{
    if same_text(tick.exchange.as_str(), venue.name()) {
        proof {
            crate::tick::venue_names_lead_back(venue);
        }
        tick
    } else {
        other
    }
}

/// Whether `buy` and `sell` are the average prices of a trade in a direction: it buys from the asks
/// of one venue and sells to the bids of the other.
pub open spec fn are_prices(
    f: Answers,
    direction: Direction,
    tick: Tick,
    other: Tick,
    size: Double,
    buy: Option<Double>,
    sell: Option<Double>,
) -> bool {
    let venue = direction.buys_on();
    &&& is_vwap(f, Side::Asks, book_at(venue, tick, other).asks@, size, buy)
    &&& is_vwap(f, Side::Bids, book_at(venue.opposite(), tick, other).bids@, size, sell)
}

/// Whether `r` evaluates a trade in a direction. There is an evaluation exactly where both sides
/// have a price.
pub open spec fn is_leg(
    f: Answers,
    direction: Direction,
    tick: Tick,
    other: Tick,
    age_other_ms: u64,
    size: Double,
    terms: Terms,
    r: Option<Eval>,
) -> bool {
    exists|buy: Option<Double>, sell: Option<Double>| #[trigger]
        are_prices(f, direction, tick, other, size, buy, sell) && match (buy, sell, r) {
            (Some(b), Some(s), Some(e)) => {
                &&& is_net(f, b, s, terms, e.net_bps)
                &&& e == Eval {
                    recv_ms: tick.recv_ms,
                    age_other_ms,
                    direction,
                    net_bps: e.net_bps,
                    vwap_buy: b,
                    vwap_sell: s,
                }
            },
            (Some(_), Some(_), None) => false,
            (_, _, e) => e is None,
        }
}

/// Evaluates a trade in a direction.
pub fn evaluate_leg<F: Fn(Op, Double, Double) -> Double>(
    f: &F,
    direction: Direction,
    tick: &Tick,
    other: &Tick,
    age_other_ms: u64,
    size: Double,
    terms: Terms,
) -> (r: Option<Eval>)
    requires
        is_total(*f),
    ensures
        is_leg(answers_of(*f), direction, *tick, *other, age_other_ms, size, terms, r),
{
    let venue: Venue = direction.buy_venue();
    let buy: Option<Double> = vwap_buy(f, &book_on(venue, tick, other).asks, size);
    let sell: Option<Double> = vwap_sell(f, &book_on(venue.other(), tick, other).bids, size);
    assert(are_prices(answers_of(*f), direction, *tick, *other, size, buy, sell));
    if let (Some(b), Some(s)) = (buy, sell) {
        let net: Double = net_bps(f, b, s, terms);
        Some(
            Eval {
                recv_ms: tick.recv_ms,
                age_other_ms,
                direction,
                net_bps: net,
                vwap_buy: b,
                vwap_sell: s,
            },
        )
    } else {
        None
    }
}

/// One item or none, as a row.
pub open spec fn row_of(e: Option<Eval>) -> Seq<Eval> {
    match e {
        Some(x) => seq![x],
        None => Seq::empty(),
    }
}

/// Whether `evals` evaluates the trades of a size in both directions, first the one that buys on
/// Lighter.
pub open spec fn are_legs(
    f: Answers,
    tick: Tick,
    other: Tick,
    age_other_ms: u64,
    size: Double,
    terms: Terms,
    evals: Seq<Eval>,
) -> bool {
    exists|l: Option<Eval>, h: Option<Eval>| #[trigger]
        is_leg(f, Direction::LongL, tick, other, age_other_ms, size, terms, l) && #[trigger] is_leg(
            f,
            Direction::LongH,
            tick,
            other,
            age_other_ms,
            size,
            terms,
            h,
        ) && evals == row_of(l) + row_of(h)
}

/// Whether `evals` evaluates a tick against the other venue's book. The notional is turned into a
/// size at the middle of the tick's own book; without a middle, or with a size that cannot be
/// traded, there is nothing to evaluate.
pub open spec fn are_evaluations(
    f: Answers,
    tick: Tick,
    other: Tick,
    age_other_ms: u64,
    terms: Terms,
    evals: Seq<Eval>,
) -> bool {
    exists|mid: Option<Double>| #[trigger]
        is_mid(f, tick, mid) && match mid {
            Some(m) => exists|size: Double| #[trigger]
                answers(f, Op::Over, terms.notional_usd, m, size) && if tradable(size) {
                    are_legs(f, tick, other, age_other_ms, size, terms, evals)
                } else {
                    evals.len() == 0
                },
            None => evals.len() == 0,
        }
}

/// Evaluates a tick against the other venue's book, in both directions.
pub fn evaluate<F: Fn(Op, Double, Double) -> Double>(
    f: &F,
    tick: &Tick,
    other: &Tick,
    age_other_ms: u64,
    terms: Terms,
) -> (r: Vec<Eval>)
    requires
        is_total(*f),
    ensures
        are_evaluations(answers_of(*f), *tick, *other, age_other_ms, terms, r@),
        r.len() <= 2,
{
    let mut r: Vec<Eval> = Vec::new();
    let mid: Option<Double> = mid_from(f, tick);
    assert(is_mid(answers_of(*f), *tick, mid));
    if let Some(m) = mid {
        let size: Double = f(Op::Over, terms.notional_usd, m);
        assert(answers(answers_of(*f), Op::Over, terms.notional_usd, m, size));
        if is_tradable(size) {
            let l: Option<Eval> = evaluate_leg(
                f,
                Direction::LongL,
                tick,
                other,
                age_other_ms,
                size,
                terms,
            );
            let h: Option<Eval> = evaluate_leg(
                f,
                Direction::LongH,
                tick,
                other,
                age_other_ms,
                size,
                terms,
            );
            if let Some(e) = l {
                r.push(e);
            }
            if let Some(e) = h {
                r.push(e);
            }
            assert(r@ =~= row_of(l) + row_of(h));
        }
    }
    r
}

/// The two trades of an evaluation are on different venues, where the two books are.
pub proof fn legs_are_on_both_venues(direction: Direction, tick: Tick, other: Tick)
    requires
        Venue::of(tick.exchange@) is Some,
        Venue::of(other.exchange@) == Some(Venue::of(tick.exchange@)->0.opposite()),
    ensures
        Venue::of(book_at(direction.buys_on(), tick, other).exchange@) == Some(direction.buys_on()),
        Venue::of(book_at(direction.buys_on().opposite(), tick, other).exchange@) == Some(
            direction.buys_on().opposite(),
        ),
{
}

proof fn lemma_net_is_settled(
    f: Answers,
    buy: Double,
    sell: Double,
    terms: Terms,
    r: Double,
    s: Double,
)
    requires
        is_settled(f),
        is_net(f, buy, sell, terms, r),
        is_net(f, buy, sell, terms, s),
    ensures
        r == s,
{
    let (g1, x1) = choose|gross: Double, rest: Double| #[trigger]
        is_gross(f, buy, sell, gross) && #[trigger] answers(
            f,
            Op::Minus,
            gross,
            terms.lighter_fee_bps,
            rest,
        ) && answers(f, Op::Minus, rest, terms.hl_fee_bps, r);
    let (g2, x2) = choose|gross: Double, rest: Double| #[trigger]
        is_gross(f, buy, sell, gross) && #[trigger] answers(
            f,
            Op::Minus,
            gross,
            terms.lighter_fee_bps,
            rest,
        ) && answers(f, Op::Minus, rest, terms.hl_fee_bps, s);
    assert(g1 == g2);
    assert(x1 == x2);
}

proof fn lemma_leg_is_settled(
    f: Answers,
    direction: Direction,
    tick: Tick,
    other: Tick,
    age_other_ms: u64,
    size: Double,
    terms: Terms,
    r: Option<Eval>,
    s: Option<Eval>,
)
    requires
        is_settled(f),
        is_leg(f, direction, tick, other, age_other_ms, size, terms, r),
        is_leg(f, direction, tick, other, age_other_ms, size, terms, s),
    ensures
        r == s,
{
    let venue = direction.buys_on();
    let (b1, s1) = choose|buy: Option<Double>, sell: Option<Double>| #[trigger]
        are_prices(f, direction, tick, other, size, buy, sell) && match (buy, sell, r) {
            (Some(b), Some(s), Some(e)) => {
                &&& is_net(f, b, s, terms, e.net_bps)
                &&& e == Eval {
                    recv_ms: tick.recv_ms,
                    age_other_ms,
                    direction,
                    net_bps: e.net_bps,
                    vwap_buy: b,
                    vwap_sell: s,
                }
            },
            (Some(_), Some(_), None) => false,
            (_, _, e) => e is None,
        };
    let (b2, s2) = choose|buy: Option<Double>, sell: Option<Double>| #[trigger]
        are_prices(f, direction, tick, other, size, buy, sell) && match (buy, sell, s) {
            (Some(b), Some(s), Some(e)) => {
                &&& is_net(f, b, s, terms, e.net_bps)
                &&& e == Eval {
                    recv_ms: tick.recv_ms,
                    age_other_ms,
                    direction,
                    net_bps: e.net_bps,
                    vwap_buy: b,
                    vwap_sell: s,
                }
            },
            (Some(_), Some(_), None) => false,
            (_, _, e) => e is None,
        };
    price_is_settled(f, Side::Asks, book_at(venue, tick, other).asks@, size, b1, b2);
    price_is_settled(f, Side::Bids, book_at(venue.opposite(), tick, other).bids@, size, s1, s2);
    if let (Some(b), Some(p), Some(e1), Some(e2)) = (b1, s1, r, s) {
        lemma_net_is_settled(f, b, p, terms, e1.net_bps, e2.net_bps);
    }
}

proof fn lemma_legs_are_settled(
    f: Answers,
    tick: Tick,
    other: Tick,
    age_other_ms: u64,
    size: Double,
    terms: Terms,
    r: Seq<Eval>,
    s: Seq<Eval>,
)
    requires
        is_settled(f),
        are_legs(f, tick, other, age_other_ms, size, terms, r),
        are_legs(f, tick, other, age_other_ms, size, terms, s),
    ensures
        r == s,
{
    let (l1, h1) = choose|l: Option<Eval>, h: Option<Eval>| #[trigger]
        is_leg(f, Direction::LongL, tick, other, age_other_ms, size, terms, l) && #[trigger] is_leg(
            f,
            Direction::LongH,
            tick,
            other,
            age_other_ms,
            size,
            terms,
            h,
        ) && r == row_of(l) + row_of(h);
    let (l2, h2) = choose|l: Option<Eval>, h: Option<Eval>| #[trigger]
        is_leg(f, Direction::LongL, tick, other, age_other_ms, size, terms, l) && #[trigger] is_leg(
            f,
            Direction::LongH,
            tick,
            other,
            age_other_ms,
            size,
            terms,
            h,
        ) && s == row_of(l) + row_of(h);
    lemma_leg_is_settled(f, Direction::LongL, tick, other, age_other_ms, size, terms, l1, l2);
    lemma_leg_is_settled(f, Direction::LongH, tick, other, age_other_ms, size, terms, h1, h2);
}

/// With settled arithmetic a tick has one evaluation against a book.
pub proof fn evaluations_are_settled(
    f: Answers,
    tick: Tick,
    other: Tick,
    age_other_ms: u64,
    terms: Terms,
    r: Seq<Eval>,
    s: Seq<Eval>,
)
    requires
        is_settled(f),
        are_evaluations(f, tick, other, age_other_ms, terms, r),
        are_evaluations(f, tick, other, age_other_ms, terms, s),
    ensures
        r == s,
{
    let m1 = choose|mid: Option<Double>| #[trigger]
        is_mid(f, tick, mid) && match mid {
            Some(m) => exists|size: Double| #[trigger]
                answers(f, Op::Over, terms.notional_usd, m, size) && if tradable(size) {
                    are_legs(f, tick, other, age_other_ms, size, terms, r)
                } else {
                    r.len() == 0
                },
            None => r.len() == 0,
        };
    let m2 = choose|mid: Option<Double>| #[trigger]
        is_mid(f, tick, mid) && match mid {
            Some(m) => exists|size: Double| #[trigger]
                answers(f, Op::Over, terms.notional_usd, m, size) && if tradable(size) {
                    are_legs(f, tick, other, age_other_ms, size, terms, s)
                } else {
                    s.len() == 0
                },
            None => s.len() == 0,
        };
    if let (Some(best), Some(x), Some(y)) = (best_prices(tick), m1, m2) {
        let sum1 = choose|sum: Double| #[trigger]
            answers(f, Op::Plus, best.0, best.1, sum) && answers(
                f,
                Op::Over,
                sum,
                Double { bits: TWO_BITS },
                x,
            );
        let sum2 = choose|sum: Double| #[trigger]
            answers(f, Op::Plus, best.0, best.1, sum) && answers(
                f,
                Op::Over,
                sum,
                Double { bits: TWO_BITS },
                y,
            );
        assert(sum1 == sum2);
        assert(x == y);
        let z1 = choose|size: Double| #[trigger]
            answers(f, Op::Over, terms.notional_usd, x, size) && if tradable(size) {
                are_legs(f, tick, other, age_other_ms, size, terms, r)
            } else {
                r.len() == 0
            };
        let z2 = choose|size: Double| #[trigger]
            answers(f, Op::Over, terms.notional_usd, x, size) && if tradable(size) {
                are_legs(f, tick, other, age_other_ms, size, terms, s)
            } else {
                s.len() == 0
            };
        assert(z1 == z2);
        if tradable(z1) {
            lemma_legs_are_settled(f, tick, other, age_other_ms, z1, terms, r, s);
        }
    }
    assert(r =~= s);
}

} // verus!
