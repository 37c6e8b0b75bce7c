//! What the measures of a feed are: its jitter, its latency, its cadence and its depth.

use vstd::prelude::*;

use crate::arithmetic::{answers, is_mean, is_rate, is_seconds, Answers, Op};
use crate::double::Double;
use crate::exact::{
    constants_have_their_values, divides_in_order, exact, factor_cancels,
    integers_keep_their_values, is_exact, unit, unit_is_positive, value, values_are_in_order,
    zero_is_nothing,
};
use crate::feed_analyzer::{ms_text, summarises, PerStream};
use crate::feeds::{
    are_comparisons, are_totals, covers, earliest, every_tick_is_counted_once, has_key,
    in_key_order, is_comparison, is_rate_of, is_report, key_of, key_order_is_total, latest,
    line_taken, rated, symbols_of, time_between, Feeds, Key, RateComparison, Stream, StreamReport,
    SymbolRates, Totals,
};
use crate::percentile::shares_stand_at_their_hundredths;
use crate::rounding::{integer_spec, tenths_are_nearest, tenths_spec};
use crate::sorting::{ascending_i64, ascending_u64};
use crate::text::{before, decimal};
use crate::tick::{Tick, Venue};

verus! {

/// Of the latencies of a feed, put in order, the report gives the least, the items at the nearest
/// hundredths of the last position for 50 and 95, and how many there are; nothing where there are
/// none.
pub proof fn latencies_stand_at_their_hundredths(f: Answers, s: Stream, r: StreamReport) -> (row:
    Seq<i64>)
    requires
        is_report(f, s, r),
        s.stats.latencies_ms@.len() <= 0x2000_0000_0000,
    ensures
        row.len() == s.stats.latencies_ms@.len(),
        row.to_multiset() == s.stats.latencies_ms@.to_multiset(),
        forall|i: int, j: int| 0 <= i <= j < row.len() ==> #[trigger] row[i] <= #[trigger] row[j],
        r.latencies is None <==> row.len() == 0,
        r.latencies matches Some(l) ==> {
            &&& l.count == row.len()
            &&& l.min == row[0]
            &&& l.p50 == row[(50 * (row.len() - 1) + 50) / 100]
            &&& l.p95 == row[(95 * (row.len() - 1) + 50) / 100]
        },
{
    let given = s.stats.latencies_ms@;
    assert(given.len() == s.stats.latencies_ms.len());
    let leq = |a: i64, b: i64| a <= b;
    given.lemma_sort_by_ensures(leq);
    let row = ascending_i64(given);
    assert(row.len() == given.len()) by {
        broadcast use vstd::seq_lib::group_to_multiset_ensures;

        assert(row.to_multiset().len() == given.to_multiset().len());
    }
    assert forall|i: int, j: int| 0 <= i <= j < row.len() implies #[trigger] row[i]
        <= #[trigger] row[j] by {
        if i < j {
            assert(leq(row[i], row[j]));
        }
    }
    if row.len() > 0 {
        shares_stand_at_their_hundredths(row.len());
    }
    row
}

/// Of the times between the ticks of a feed, put in order, the report gives the items at the
/// nearest hundredths of the last position for 50, 95 and 99, and the greatest; nothing where there
/// are none.
pub proof fn intervals_stand_at_their_hundredths(f: Answers, s: Stream, r: StreamReport) -> (row:
    Seq<u64>)
    requires
        is_report(f, s, r),
        s.stats.intervals_ns@.len() <= 0x2000_0000_0000,
    ensures
        row.len() == s.stats.intervals_ns@.len(),
        row.to_multiset() == s.stats.intervals_ns@.to_multiset(),
        forall|i: int, j: int| 0 <= i <= j < row.len() ==> #[trigger] row[i] <= #[trigger] row[j],
        r.intervals is None <==> row.len() == 0,
        r.intervals matches Some(t) ==> {
            &&& t.p50 == row[(50 * (row.len() - 1) + 50) / 100]
            &&& t.p95 == row[(95 * (row.len() - 1) + 50) / 100]
            &&& t.p99 == row[(99 * (row.len() - 1) + 50) / 100]
            &&& t.max == row[row.len() - 1]
        },
{
    let given = s.stats.intervals_ns@;
    let leq = |a: u64, b: u64| a <= b;
    given.lemma_sort_by_ensures(leq);
    let row = ascending_u64(given);
    assert(row.len() == given.len()) by {
        broadcast use vstd::seq_lib::group_to_multiset_ensures;

        assert(row.to_multiset().len() == given.to_multiset().len());
    }
    assert forall|i: int, j: int| 0 <= i <= j < row.len() implies #[trigger] row[i]
        <= #[trigger] row[j] by {
        if i < j {
            assert(leq(row[i], row[j]));
        }
    }
    if row.len() > 0 {
        shares_stand_at_their_hundredths(row.len());
    }
    row
}

/// The report gives the gaps of a feed of Lighter, and none of any other venue, which does not
/// number its messages.
pub proof fn only_lighter_shows_gaps(f: Answers, s: Stream, r: StreamReport)
    requires
        is_report(f, s, r),
    ensures
        s.exchange@ == "lighter"@ ==> r.seq_gaps == Some(s.stats.seq_gaps),
        s.exchange@ != "lighter"@ ==> r.seq_gaps is None,
{
}

/// Where the arithmetic is exact, a time in seconds is that in milliseconds over a thousand.
pub proof fn seconds_are_thousands_of_milliseconds(f: Answers, millis: u64, r: Double)
    requires
        is_seconds(exact(f), millis, r),
        millis < 0x20_0000_0000_0000,
    ensures
        r.finite(),
        value(r) * 1000 == millis * unit(),
{
    let n = integer_spec(millis as nat);
    let thousand = Double { bits: 0x408f_4000_0000_0000 };
    constants_have_their_values();
    integers_keep_their_values(millis as nat);
    unit_is_positive();
    assert(answers(exact(f), Op::Over, n, thousand, r));
    assert(is_exact(Op::Over, n, thousand, r));
    let u = unit();
    let v = value(r);
    assert((v * 1000) * u == (millis * u) * u) by (nonlinear_arith)
        requires
            v * (1000 * u) == (millis * u) * u,
    ;
    factor_cancels(v * 1000, millis * u, u);
}

/// Where the arithmetic is exact, a rate is what happens in a second: a thousand times the count
/// over the milliseconds; nothing where no time goes by.
pub proof fn rate_is_the_count_in_a_second(f: Answers, count: u64, millis: u64, r: Double)
    requires
        is_rate(exact(f), count, millis, r),
        count < 0x20_0000_0000_0000,
        millis < 0x20_0000_0000_0000,
    ensures
        millis == 0 ==> r == (Double { bits: 0 }),
        millis > 0 ==> r.finite() && value(r) * millis == 1000 * count * unit(),
{
    let zero = Double { bits: 0 };
    let n = integer_spec(count as nat);
    integers_keep_their_values(count as nat);
    unit_is_positive();
    zero_is_nothing();
    let duration = choose|duration: Double| #[trigger]
        is_seconds(exact(f), millis, duration) && if duration.gt(zero) {
            answers(exact(f), Op::Over, n, duration, r)
        } else {
            r == zero
        };
    seconds_are_thousands_of_milliseconds(f, millis, duration);
    values_are_in_order(duration, zero);
    let u = unit();
    let v = value(r);
    let w = value(duration);
    if millis > 0 {
        assert(w > 0) by (nonlinear_arith)
            requires
                w * 1000 == millis * u,
                millis > 0,
                u > 0,
        ;
        assert(is_exact(Op::Over, n, duration, r));
        assert((v * millis) * u == (1000 * count * u) * u) by (nonlinear_arith)
            requires
                w * 1000 == millis * u,
                v * w == (count * u) * u,
        {
            assert((v * millis) * u == v * (millis * u));
            assert(v * (w * 1000) == (v * w) * 1000);
        }
        factor_cancels(v * millis, 1000 * count * u, u);
    } else {
        assert(w <= 0) by (nonlinear_arith)
            requires
                w * 1000 == millis * u,
                millis == 0,
        ;
    }
}

/// Where the arithmetic is exact, a mean times the count is the sum; without a count it is nothing.
pub proof fn mean_makes_up_the_sum(f: Answers, sum: u64, count: u64, r: Double)
    requires
        is_mean(exact(f), sum, count, r),
        sum < 0x20_0000_0000_0000,
        count < 0x20_0000_0000_0000,
    ensures
        count == 0 ==> r == (Double { bits: 0 }),
        count > 0 ==> r.finite() && value(r) * count == sum * unit(),
{
    if count > 0 {
        let a = integer_spec(sum as nat);
        let b = integer_spec(count as nat);
        integers_keep_their_values(sum as nat);
        integers_keep_their_values(count as nat);
        unit_is_positive();
        assert(is_exact(Op::Over, a, b, r));
        let u = unit();
        let v = value(r);
        assert(count * u > 0) by (nonlinear_arith)
            requires
                count > 0,
                u > 0,
        ;
        assert((v * count) * u == (sum * u) * u) by (nonlinear_arith)
            requires
                v * (count * u) == (sum * u) * u,
        ;
        factor_cancels(v * count, sum * u, u);
    }
}

/// Where the arithmetic is exact, the report of a feed gives the time from its first reception to
/// its last, in milliseconds and in seconds, its ticks in a second, and the levels of a tick on
/// either side.
pub proof fn report_measures_the_feed(f: Answers, s: Stream, r: StreamReport)
    requires
        is_report(exact(f), s, r),
        s.stats.count < 0x20_0000_0000_0000,
        s.stats.first_recv_ms <= s.stats.last_recv_ms < 0x20_0000_0000_0000,
        s.stats.bids_depth_sum < 0x20_0000_0000_0000,
        s.stats.asks_depth_sum < 0x20_0000_0000_0000,
    ensures
        r.duration_ms == s.stats.last_recv_ms - s.stats.first_recv_ms,
        r.duration_s.finite() && value(r.duration_s) * 1000 == r.duration_ms * unit(),
        r.duration_ms > 0 ==> r.rate.finite() && value(r.rate) * r.duration_ms == 1000
            * s.stats.count * unit(),
        r.duration_ms == 0 ==> r.rate == (Double { bits: 0 }),
        s.stats.count > 0 ==> r.mean_bids.finite() && value(r.mean_bids) * s.stats.count
            == s.stats.bids_depth_sum * unit(),
        s.stats.count > 0 ==> r.mean_asks.finite() && value(r.mean_asks) * s.stats.count
            == s.stats.asks_depth_sum * unit(),
{
    seconds_are_thousands_of_milliseconds(f, r.duration_ms, r.duration_s);
    rate_is_the_count_in_a_second(f, s.stats.count, r.duration_ms, r.rate);
    mean_makes_up_the_sum(f, s.stats.bids_depth_sum, s.stats.count, r.mean_bids);
    mean_makes_up_the_sum(f, s.stats.asks_depth_sum, s.stats.count, r.mean_asks);
}

/// A feed whose clock ran backwards lasted no time.
pub proof fn backward_clock_measures_no_time(f: Answers, s: Stream, r: StreamReport)
    requires
        is_report(f, s, r),
        s.stats.last_recv_ms < s.stats.first_recv_ms,
    ensures
        r.duration_ms == 0,
{
}

/// The recording begins with the earliest of the first receptions of its feeds and ends with the
/// latest of the last ones, and its ticks are those of all feeds.
pub proof fn totals_span_the_feeds(streams: Seq<Stream>, r: Totals)
    requires
        are_totals(streams, r),
        streams.len() > 0,
    ensures
        forall|i: int|
            0 <= i < streams.len() ==> r.first_recv_ms <= (#[trigger] streams[i]).stats.first_recv_ms
                && streams[i].stats.last_recv_ms <= r.last_recv_ms,
        exists|i: int|
            0 <= i < streams.len() && (#[trigger] streams[i]).stats.first_recv_ms == r.first_recv_ms,
        exists|i: int|
            0 <= i < streams.len() && (#[trigger] streams[i]).stats.last_recv_ms == r.last_recv_ms,
{
    lemma_span(streams);
}

proof fn lemma_span(streams: Seq<Stream>)
    requires
        streams.len() > 0,
    ensures
        forall|i: int|
            0 <= i < streams.len() ==> earliest(streams) <= (#[trigger] streams[i]).stats.first_recv_ms
                && streams[i].stats.last_recv_ms <= latest(streams),
        exists|i: int|
            0 <= i < streams.len() && (#[trigger] streams[i]).stats.first_recv_ms == earliest(
                streams,
            ),
        exists|i: int|
            0 <= i < streams.len() && (#[trigger] streams[i]).stats.last_recv_ms == latest(streams),
    decreases streams.len(),
{
    let n = streams.len() - 1;
    let short = streams.drop_last();
    assert(streams[n] == streams.last());
    if n == 0 {
        assert(latest(short) == 0);
        assert(streams[0].stats.last_recv_ms == latest(streams));
    } else {
        lemma_span(short);
        assert forall|i: int| 0 <= i < streams.len() implies earliest(streams) <= (
        #[trigger] streams[i]).stats.first_recv_ms && streams[i].stats.last_recv_ms <= latest(
            streams,
        ) by {
            if i < n {
                assert(short[i] == streams[i]);
            }
        }
        let a = choose|i: int|
            0 <= i < short.len() && (#[trigger] short[i]).stats.first_recv_ms == earliest(short);
        let b = choose|i: int|
            0 <= i < short.len() && (#[trigger] short[i]).stats.last_recv_ms == latest(short);
        assert(streams[a] == short[a]);
        assert(streams[b] == short[b]);
        assert(streams[a].stats.first_recv_ms == earliest(streams)
            || streams[n].stats.first_recv_ms == earliest(streams));
        assert(streams[b].stats.last_recv_ms == latest(streams) || streams[n].stats.last_recv_ms
            == latest(streams));
    }
}

/// The totals of feeds that hold the counters of some ticks count each of them once.
pub proof fn totals_count_every_tick(streams: Seq<Stream>, ticks: Seq<Tick>, r: Totals)
    requires
        are_totals(streams, r),
        in_key_order(streams),
        covers(streams, ticks),
    ensures
        r.ticks == ticks.len(),
{
    every_tick_is_counted_once(streams, ticks);
}

/// Two rates are compared where both are above zero. The greater one leads, Lighter where they are
/// equal, and it leads by the quotient of the greater and the smaller: where quotients are rounded
/// in order, by at least one.
pub proof fn greater_rate_leads(
    f: Answers,
    lighter: Double,
    hyperliquid: Double,
    r: RateComparison,
)
    requires
        is_comparison(f, lighter, hyperliquid, r),
    ensures
        r is OneSideMissing <==> !(lighter.gt(Double { bits: 0 }) && hyperliquid.gt(
            Double { bits: 0 },
        )),
        r matches RateComparison::Leads { venue, ratio } ==> {
            &&& venue == Venue::Lighter <==> hyperliquid.le(lighter)
            &&& venue == Venue::Hyperliquid <==> hyperliquid.gt(lighter)
            &&& venue == Venue::Lighter ==> answers(f, Op::Over, lighter, hyperliquid, ratio)
            &&& venue == Venue::Hyperliquid ==> answers(f, Op::Over, hyperliquid, lighter, ratio)
            &&& divides_in_order(f) && lighter.finite() && hyperliquid.finite() ==> (Double {
                bits: 0x3ff0_0000_0000_0000,
            }).le(ratio)
        },
{
    let zero = Double { bits: 0 };
    let one = Double { bits: 0x3ff0_0000_0000_0000 };
    if let RateComparison::Leads { venue, ratio } = r {
        if divides_in_order(f) && lighter.finite() && hyperliquid.finite() {
            zero_is_nothing();
            values_are_in_order(lighter, zero);
            values_are_in_order(hyperliquid, zero);
            values_are_in_order(hyperliquid, lighter);
            constants_have_their_values();
            assert(one.finite());
            let u = unit();
            let (a, b) = if venue == Venue::Lighter {
                (lighter, hyperliquid)
            } else {
                (hyperliquid, lighter)
            };
            unit_is_positive();
            assert(value(a) * u >= u * value(b)) by (nonlinear_arith)
                requires
                    value(a) >= value(b),
                    u > 0,
            ;
            assert(answers(f, Op::Over, a, b, ratio));
        }
    }
}

/// The rates of a symbol are those of its feeds on the two venues; nothing on a venue without one.
pub proof fn rates_are_those_of_the_feeds(
    f: Answers,
    streams: Seq<Stream>,
    r: Seq<SymbolRates>,
    i: int,
    j: int,
)
    requires
        are_comparisons(f, streams, r),
        in_key_order(streams),
        0 <= i < r.len(),
        0 <= j < streams.len(),
        streams[j].symbol@ == r[i].symbol@,
        streams[j].stats.first_recv_ms <= streams[j].stats.last_recv_ms,
    ensures
        streams[j].exchange@ == "lighter"@ ==> is_rate(
            f,
            streams[j].stats.count,
            (streams[j].stats.last_recv_ms - streams[j].stats.first_recv_ms) as u64,
            r[i].lighter,
        ),
        streams[j].exchange@ == "hyperliquid"@ ==> is_rate(
            f,
            streams[j].stats.count,
            (streams[j].stats.last_recv_ms - streams[j].stats.first_recv_ms) as u64,
            r[i].hyperliquid,
        ),
{
    let lighter: Key = ("lighter"@, r[i].symbol@);
    let hyperliquid: Key = ("hyperliquid"@, r[i].symbol@);
    let here = r[i];
    if streams[j].exchange@ == "lighter"@ {
        lemma_one_feed(f, streams, j, lighter, r[i].lighter);
    }
    if streams[j].exchange@ == "hyperliquid"@ {
        lemma_one_feed(f, streams, j, hyperliquid, r[i].hyperliquid);
    }
}

proof fn lemma_one_feed(f: Answers, streams: Seq<Stream>, j: int, key: Key, r: Double)
    requires
        in_key_order(streams),
        0 <= j < streams.len(),
        streams[j].key() == key,
        is_rate_of(f, streams, key, r),
    ensures
        is_rate(
            f,
            streams[j].stats.count,
            time_between(streams[j].stats.first_recv_ms, streams[j].stats.last_recv_ms),
            r,
        ),
{
    assert(has_key(streams, key));
    let k = choose|k: int|
        0 <= k < streams.len() && (#[trigger] streams[k]).key() == key && is_rate(
            f,
            streams[k].stats.count,
            time_between(streams[k].stats.first_recv_ms, streams[k].stats.last_recv_ms),
            r,
        );
    if k < j {
        key_order_is_total(streams[k].key(), streams[j].key());
    } else if j < k {
        key_order_is_total(streams[j].key(), streams[k].key());
    }
}

/// A symbol without a feed on a venue has no rate there, and nothing to compare.
pub proof fn missing_feed_has_no_rate(
    f: Answers,
    streams: Seq<Stream>,
    r: Seq<SymbolRates>,
    i: int,
)
    requires
        are_comparisons(f, streams, r),
        0 <= i < r.len(),
    ensures
        (forall|j: int|
            0 <= j < streams.len() ==> !((#[trigger] streams[j]).exchange@ == "lighter"@
                && streams[j].symbol@ == r[i].symbol@)) ==> r[i].lighter == (Double { bits: 0 })
            && r[i].comparison is OneSideMissing,
        (forall|j: int|
            0 <= j < streams.len() ==> !((#[trigger] streams[j]).exchange@ == "hyperliquid"@
                && streams[j].symbol@ == r[i].symbol@)) ==> r[i].hyperliquid == (Double { bits: 0 })
            && r[i].comparison is OneSideMissing,
{
    let here = r[i];
}

/// Over a line that is not empty the lines grow by one, the errors where it holds no tick, and the
/// ticks where it holds one of the symbol that was asked for; over an empty line nothing does.
pub proof fn line_counts_once(
    old_feeds: Feeds,
    new_feeds: Feeds,
    line: Seq<char>,
    parsed: Option<Tick>,
    symbol: Option<String>,
    ticks: Seq<Tick>,
)
    requires
        line_taken(old_feeds, new_feeds, line, parsed, symbol),
        covers(old_feeds.streams@, ticks),
    ensures
        line.len() == 0 ==> new_feeds == old_feeds,
        line.len() > 0 ==> new_feeds.total_lines == old_feeds.total_lines + 1,
        line.len() > 0 && parsed is None ==> new_feeds.parse_errors == old_feeds.parse_errors + 1,
        parsed is Some ==> new_feeds.parse_errors == old_feeds.parse_errors,
        covers(
            new_feeds.streams@,
            if line.len() > 0 && parsed is Some && (symbol is None || parsed->0.symbol@
                == symbol->0@) {
                ticks.push(parsed->0)
            } else {
                ticks
            },
        ),
{
}

/// Of feeds that hold the counters of some ticks, the feed of a venue and a symbol holds the
/// counters of exactly the ticks of that venue and symbol, and there is one where there is such a
/// tick.
pub proof fn each_feed_holds_its_own_ticks(streams: Seq<Stream>, ticks: Seq<Tick>, i: int, t: int)
    requires
        covers(streams, ticks),
    ensures
        0 <= i < streams.len() ==> summarises(
            streams[i].stats,
            ticks.filter(
                |x: Tick| x.exchange@ == streams[i].exchange@ && x.symbol@ == streams[i].symbol@,
            ),
        ),
        0 <= t < ticks.len() ==> exists|k: int|
            0 <= k < streams.len() && (#[trigger] streams[k]).exchange@ == ticks[t].exchange@
                && streams[k].symbol@ == ticks[t].symbol@,
{
    if 0 <= i < streams.len() {
        let key = streams[i].key();
        let mine = |x: Tick| key_of(x) == key;
        let same = |x: Tick|
            x.exchange@ == streams[i].exchange@ && x.symbol@ == streams[i].symbol@;
        lemma_same_filter(ticks, mine, same);
    }
    if 0 <= t < ticks.len() {
        assert(has_key(streams, key_of(ticks[t])));
        let k = choose|k: int|
            0 <= k < streams.len() && (#[trigger] streams[k]).key() == key_of(ticks[t]);
        assert(streams[k].exchange@ == ticks[t].exchange@);
    }
}

proof fn lemma_same_filter(ticks: Seq<Tick>, f: spec_fn(Tick) -> bool, g: spec_fn(Tick) -> bool)
    requires
        forall|t: Tick| #[trigger] f(t) == g(t),
    ensures
        ticks.filter(f) == ticks.filter(g),
    decreases ticks.len(),
{
    reveal(Seq::filter);
    if ticks.len() > 0 {
        lemma_same_filter(ticks.drop_last(), f, g);
        assert(f(ticks.last()) == g(ticks.last()));
    }
}

/// Feeds are listed by venue, and those of one venue by symbol, each once.
pub proof fn feeds_are_listed_by_venue_and_symbol(streams: Seq<Stream>, i: int, j: int)
    requires
        in_key_order(streams),
        0 <= i < j < streams.len(),
    ensures
        before(streams[i].exchange@, streams[j].exchange@) || (streams[i].exchange@
            == streams[j].exchange@ && before(streams[i].symbol@, streams[j].symbol@)),
{
    let a = streams[i];
    let b = streams[j];
}

/// There is room for one more tick where the number of ticks and the sums of the levels stay within
/// 64 bits, and the latency of a tick that carries a timestamp fits in a signed number.
pub proof fn room_is_what_the_counters_hold(s: PerStream, t: Tick)
    requires
        t.recv_ms <= i64::MAX,
        t.server_ms <= i64::MAX,
    ensures
        s.has_room(t) <==> s.count + 1 <= u64::MAX && s.bids_depth_sum + t.bids@.len() <= u64::MAX
            && s.asks_depth_sum + t.asks@.len() <= u64::MAX,
{
}

/// The symbols of a recording are compared each once, in their order, and no others.
pub proof fn each_symbol_is_compared_once(
    f: Answers,
    streams: Seq<Stream>,
    r: Seq<SymbolRates>,
    i: int,
    j: int,
)
    requires
        are_comparisons(f, streams, r),
    ensures
        0 <= i < streams.len() ==> exists|k: int|
            0 <= k < r.len() && (#[trigger] r[k]).symbol@ == streams[i].symbol@,
        0 <= j < r.len() ==> exists|k: int|
            0 <= k < streams.len() && (#[trigger] streams[k]).symbol@ == r[j].symbol@,
        forall|k: int, m: int|
            0 <= k < m < r.len() ==> before((#[trigger] r[k]).symbol@, (#[trigger] r[m]).symbol@),
{
    let list = rated(r);
    if 0 <= i < streams.len() {
        let x = streams[i].symbol@;
        assert(symbols_of(streams).contains(x));
        assert(list.contains(x));
        let k = choose|k: int| 0 <= k < list.len() && list[k] == x;
        assert(r[k].symbol@ == x);
    }
    if 0 <= j < r.len() {
        let x = r[j].symbol@;
        assert(list[j] == x);
        assert(list.contains(x));
        assert(symbols_of(streams).contains(x));
    }
    assert forall|k: int, m: int| 0 <= k < m < r.len() implies before(
        (#[trigger] r[k]).symbol@,
        (#[trigger] r[m]).symbol@,
    ) by {
        assert(before(list[k], list[m]));
    }
}

/// A time in nanoseconds is shown in milliseconds, with a point and one decimal behind it, and
/// below `2^53` nanoseconds it is off by half a tenth at most.
pub proof fn shown_milliseconds_are_nearest(ns: nat) -> (shown: (nat, nat))
    requires
        ns < 0x20_0000_0000_0000,
    ensures
        shown.1 < 10,
        ms_text(ns) == decimal(shown.0) + "."@ + decimal(shown.1),
        -50_000 <= (10 * shown.0 + shown.1) * 100_000 - ns <= 50_000,
{
    tenths_are_nearest(ns);
    let t = tenths_spec(ns);
    (t / 10, t % 10)
}

} // verus!
