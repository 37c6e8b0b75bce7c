//! All the feeds of a recording, by venue and symbol.

use vstd::prelude::*;
use vstd::string::*;

use crate::arithmetic::{
    answers, answers_of, is_mean, is_rate, is_seconds, is_total, mean, rate, seconds, Answers, Op,
};
use crate::double::Double;
use crate::feed_analyzer::{
    ingest_extends_the_summary, ingested, latency_fits, summarises, PerStream,
};
use crate::percentile::{
    percentile_i64, percentile_u64, position, P50_BITS, P95_BITS, P99_BITS,
};
use crate::sorting::{ascending_i64, ascending_u64, sorted_i64, sorted_u64};
use crate::text::{
    before, before_is_total, before_is_transitive, in_text_order, insert_text, same_text,
    text_before, texts,
};
use crate::tick::{Tick, Venue};

verus! {

/// One feed: a symbol on a venue, with its counters.
pub struct Stream {
    pub exchange: String,
    pub symbol: String,
    pub stats: PerStream,
}

/// The feeds of a recording, with the lines that were read and those that could not be.
pub struct Feeds {
    pub streams: Vec<Stream>,
    pub total_lines: u64,
    pub parse_errors: u64,
}

/// A venue and a symbol.
pub type Key = (Seq<char>, Seq<char>);

/// The order of feeds: by venue, and by symbol on the same venue.
pub open spec fn key_before(a: Key, b: Key) -> bool {
    before(a.0, b.0) || (a.0 == b.0 && before(a.1, b.1))
}

impl Stream {
    pub open spec fn key(self) -> Key {
        (self.exchange@, self.symbol@)
    }
}

/// The venue and the symbol of a tick.
pub open spec fn key_of(t: Tick) -> Key {
    (t.exchange@, t.symbol@)
}

/// The ticks of one feed.
pub open spec fn ticks_of(ticks: Seq<Tick>, key: Key) -> Seq<Tick> {
    ticks.filter(|t: Tick| key_of(t) == key)
}

/// Whether feeds stand in order, and none of them twice.
pub open spec fn in_key_order(streams: Seq<Stream>) -> bool {
    forall|i: int, j: int|
        0 <= i < j < streams.len() ==> key_before(
            (#[trigger] streams[i]).key(),
            (#[trigger] streams[j]).key(),
        )
}

/// Whether a list of feeds has one for a key.
pub open spec fn has_key(streams: Seq<Stream>, key: Key) -> bool {
    exists|i: int| 0 <= i < streams.len() && (#[trigger] streams[i]).key() == key
}

/// Whether some feeds hold the counters of exactly these ticks: one feed for each key that
/// occurs, and in it the ticks with that key, in order.
pub open spec fn covers(streams: Seq<Stream>, ticks: Seq<Tick>) -> bool {
    &&& forall|i: int|
        0 <= i < streams.len() ==> summarises(
            (#[trigger] streams[i]).stats,
            ticks_of(ticks, streams[i].key()),
        ) && ticks_of(ticks, streams[i].key()).len() > 0
    &&& forall|i: int| 0 <= i < ticks.len() ==> has_key(streams, key_of(#[trigger] ticks[i]))
}

/// The number of ticks in some feeds.
pub open spec fn tick_count(streams: Seq<Stream>) -> nat
    decreases streams.len(),
{
    if streams.len() == 0 {
        0
    } else {
        tick_count(streams.drop_last()) + streams.last().stats.count as nat
    }
}

/// The order of keys is strict and total.
pub proof fn key_order_is_total(a: Key, b: Key)
    ensures
        key_before(a, b) ==> a != b && !key_before(b, a),
        a != b ==> key_before(a, b) || key_before(b, a),
{
    before_is_total(a.0, b.0);
    before_is_total(b.0, a.0);
    before_is_total(a.1, b.1);
}

/// The order of keys is transitive.
pub proof fn key_order_is_transitive(a: Key, b: Key, c: Key)
    requires
        key_before(a, b),
        key_before(b, c),
    ensures
        key_before(a, c),
{
    if before(a.0, b.0) && before(b.0, c.0) {
        before_is_transitive(a.0, b.0, c.0);
    }
    if before(a.1, b.1) && before(b.1, c.1) {
        before_is_transitive(a.1, b.1, c.1);
    }
}

proof fn lemma_count_insert(streams: Seq<Stream>, i: int, s: Stream)
    requires
        0 <= i <= streams.len(),
    ensures
        tick_count(streams.insert(i, s)) == tick_count(streams) + s.stats.count,
    decreases streams.len(),
{
    let more = streams.insert(i, s);
    if i == streams.len() {
        assert(more.drop_last() =~= streams);
    } else {
        lemma_count_insert(streams.drop_last(), i, s);
        assert(more.drop_last() =~= streams.drop_last().insert(i, s));
        assert(more.last() == streams.last());
    }
}

proof fn lemma_count_update(streams: Seq<Stream>, i: int, s: Stream)
    requires
        0 <= i < streams.len(),
    ensures
        tick_count(streams.update(i, s)) == tick_count(streams) - streams[i].stats.count
            + s.stats.count,
    decreases streams.len(),
{
    let more = streams.update(i, s);
    if i == streams.len() - 1 {
        assert(more.drop_last() =~= streams.drop_last());
    } else {
        lemma_count_update(streams.drop_last(), i, s);
        assert(more.drop_last() =~= streams.drop_last().update(i, s));
    }
}

/// Whether one more tick keeps every counter in its range.
pub open spec fn room_for(streams: Seq<Stream>, t: Tick) -> bool {
    &&& latency_fits(t)
    &&& forall|i: int|
        0 <= i < streams.len() && (#[trigger] streams[i]).key() == key_of(t)
            ==> streams[i].stats.has_room(t)
}

/// Whether feeds stand in order with counters that keep to their bounds.
pub open spec fn streams_wf(streams: Seq<Stream>) -> bool {
    &&& in_key_order(streams)
    &&& forall|i: int| 0 <= i < streams.len() ==> (#[trigger] streams[i]).stats.wf()
}

/// The place of a key in feeds that stand in order: where it is, or where it belongs.
fn place_of(streams: &Vec<Stream>, exchange: &str, symbol: &str) -> (r: usize)
    requires
        in_key_order(streams@),
    ensures
        r <= streams.len(),
        forall|i: int|
            0 <= i < r ==> key_before((#[trigger] streams@[i]).key(), (exchange@, symbol@)),
        forall|i: int|
            r <= i < streams.len() ==> !key_before(
                (#[trigger] streams@[i]).key(),
                (exchange@, symbol@),
            ),
        forall|i: int|
            r < i < streams.len() ==> key_before(
                (exchange@, symbol@),
                (#[trigger] streams@[i]).key(),
            ),
        r < streams.len() && streams@[r as int].key() != (exchange@, symbol@) ==> key_before(
            (exchange@, symbol@),
            streams@[r as int].key(),
        ),
{
    let mut i: usize = 0;
    while i < streams.len() && (text_before(streams[i].exchange.as_str(), exchange) || (same_text(
        streams[i].exchange.as_str(),
        exchange,
    ) && text_before(streams[i].symbol.as_str(), symbol)))
        invariant
            i <= streams.len(),
            forall|j: int|
                0 <= j < i ==> key_before((#[trigger] streams@[j]).key(), (exchange@, symbol@)),
        decreases streams.len() - i,
    {
        i = i + 1;
    }
    proof {
        let key: Key = (exchange@, symbol@);
        if i < streams.len() {
            let here = streams@[i as int].key();
            key_order_is_total(here, key);
            assert forall|j: int| i < j < streams.len() implies !key_before(
                (#[trigger] streams@[j]).key(),
                key,
            ) && key_before(key, streams@[j].key()) by {
                let there = streams@[j].key();
                assert(key_before(here, there));
                if here != key {
                    key_order_is_transitive(key, here, there);
                }
                key_order_is_total(key, there);
            }
        }
    }
    i
}

proof fn lemma_ticks_of_push(ticks: Seq<Tick>, t: Tick, key: Key)
    ensures
        ticks_of(ticks.push(t), key) == if key_of(t) == key {
            ticks_of(ticks, key).push(t)
        } else {
            ticks_of(ticks, key)
        },
{
    reveal(Seq::filter);
    assert(ticks.push(t).drop_last() =~= ticks);
}

proof fn lemma_no_ticks_of(ticks: Seq<Tick>, key: Key)
    requires
        forall|i: int| 0 <= i < ticks.len() ==> key_of(#[trigger] ticks[i]) != key,
    ensures
        ticks_of(ticks, key) == Seq::<Tick>::empty(),
    decreases ticks.len(),
{
    reveal(Seq::filter);
    if ticks.len() > 0 {
        let short = ticks.drop_last();
        assert forall|i: int| 0 <= i < short.len() implies key_of(#[trigger] short[i]) != key by {
            assert(ticks[i] == short[i]);
        }
        lemma_no_ticks_of(short, key);
        assert(ticks[ticks.len() - 1] == ticks.last());
    }
}

proof fn lemma_cover_existing(
    old_streams: Seq<Stream>,
    ticks: Seq<Tick>,
    t: Tick,
    i: int,
    s: Stream,
)
    requires
        in_key_order(old_streams),
        covers(old_streams, ticks),
        0 <= i < old_streams.len(),
        old_streams[i].key() == key_of(t),
        s.key() == key_of(t),
        ingested(old_streams[i].stats, t, s.stats),
    ensures
        covers(old_streams.update(i, s), ticks.push(t)),
{
    let streams = old_streams.update(i, s);
    let more = ticks.push(t);
    assert forall|j: int| 0 <= j < streams.len() implies summarises(
        (#[trigger] streams[j]).stats,
        ticks_of(more, streams[j].key()),
    ) && ticks_of(more, streams[j].key()).len() > 0 by {
        lemma_ticks_of_push(ticks, t, streams[j].key());
        assert(summarises(old_streams[j].stats, ticks_of(ticks, old_streams[j].key())));
        if j == i {
            ingest_extends_the_summary(
                old_streams[i].stats,
                ticks_of(ticks, old_streams[i].key()),
                t,
                s.stats,
            );
        } else {
            key_order_is_total(old_streams[i].key(), old_streams[j].key());
            key_order_is_total(old_streams[j].key(), old_streams[i].key());
        }
    }
    assert forall|j: int| 0 <= j < more.len() implies has_key(streams, key_of(#[trigger] more[j])) by {
        if j < ticks.len() {
            assert(has_key(old_streams, key_of(ticks[j])));
            let k = choose|k: int|
                0 <= k < old_streams.len() && (#[trigger] old_streams[k]).key() == key_of(ticks[j]);
            assert(streams[k].key() == key_of(ticks[j]));
        } else {
            assert(streams[i].key() == key_of(t));
        }
    }
}

proof fn lemma_cover_new(
    old_streams: Seq<Stream>,
    ticks: Seq<Tick>,
    t: Tick,
    i: int,
    s: Stream,
    fresh: PerStream,
)
    requires
        covers(old_streams, ticks),
        0 <= i <= old_streams.len(),
        !has_key(old_streams, key_of(t)),
        s.key() == key_of(t),
        summarises(fresh, Seq::empty()),
        ingested(fresh, t, s.stats),
    ensures
        covers(old_streams.insert(i, s), ticks.push(t)),
{
    let streams = old_streams.insert(i, s);
    let more = ticks.push(t);
    assert forall|j: int| 0 <= j < ticks.len() implies key_of(#[trigger] ticks[j]) != key_of(t) by {
        assert(has_key(old_streams, key_of(ticks[j])));
    }
    lemma_no_ticks_of(ticks, key_of(t));
    assert forall|j: int| 0 <= j < streams.len() implies summarises(
        (#[trigger] streams[j]).stats,
        ticks_of(more, streams[j].key()),
    ) && ticks_of(more, streams[j].key()).len() > 0 by {
        lemma_ticks_of_push(ticks, t, streams[j].key());
        if j == i {
            ingest_extends_the_summary(fresh, Seq::empty(), t, s.stats);
        } else {
            let k = if j < i {
                j
            } else {
                j - 1
            };
            assert(streams[j] == old_streams[k]);
            assert(old_streams[k].key() != key_of(t));
        }
    }
    assert forall|j: int| 0 <= j < more.len() implies has_key(streams, key_of(#[trigger] more[j])) by {
        if j < ticks.len() {
            assert(has_key(old_streams, key_of(ticks[j])));
            let k = choose|k: int|
                0 <= k < old_streams.len() && (#[trigger] old_streams[k]).key() == key_of(ticks[j]);
            let m = if k < i {
                k
            } else {
                k + 1
            };
            assert(streams[m] == old_streams[k]);
        } else {
            assert(streams[i].key() == key_of(t));
        }
    }
}

/// Counts a tick in its feed, which it opens if it is the first of its venue and symbol.
fn record(streams: &mut Vec<Stream>, t: &Tick)
    requires
        streams_wf(old(streams)@),
        room_for(old(streams)@, *t),
    ensures
        streams_wf(final(streams)@),
        tick_count(final(streams)@) == tick_count(old(streams)@) + 1,
        forall|ticks: Seq<Tick>|
            covers(old(streams)@, ticks) ==> #[trigger] covers(final(streams)@, ticks.push(*t)),
{
    let i: usize = place_of(streams, t.exchange.as_str(), t.symbol.as_str());
    let ghost start = streams@;
    if i < streams.len() && same_text(streams[i].exchange.as_str(), t.exchange.as_str())
        && same_text(streams[i].symbol.as_str(), t.symbol.as_str()) {
        streams[i].stats.ingest(t);
        proof {
            let s = streams@[i as int];
            assert(streams@ =~= start.update(i as int, s));
            lemma_count_update(start, i as int, s);
            assert forall|ticks: Seq<Tick>| covers(start, ticks) implies #[trigger] covers(
                streams@,
                ticks.push(*t),
            ) by {
                lemma_cover_existing(start, ticks, *t, i as int, s);
            }
        }
    } else {
        let mut stats: PerStream = PerStream::default();
        let ghost fresh = stats;
        stats.ingest(t);
        let s: Stream = Stream { exchange: t.exchange.clone(), symbol: t.symbol.clone(), stats };
        streams.insert(i, s);
        proof {
            assert(streams@ =~= start.insert(i as int, s));
            lemma_count_insert(start, i as int, s);
            assert(!has_key(start, key_of(*t))) by {
                if has_key(start, key_of(*t)) {
                    let k = choose|k: int|
                        0 <= k < start.len() && (#[trigger] start[k]).key() == key_of(*t);
                    key_order_is_total(start[k].key(), key_of(*t));
                }
            }
            assert(in_key_order(streams@)) by {
                assert forall|a: int, b: int| 0 <= a < b < streams@.len() implies key_before(
                    (#[trigger] streams@[a]).key(),
                    (#[trigger] streams@[b]).key(),
                ) by {
                    let x = if a < i {
                        a
                    } else {
                        a - 1
                    };
                    let y = if b < i {
                        b
                    } else {
                        b - 1
                    };
                    if a != i {
                        assert(streams@[a] == start[x]);
                    }
                    if b != i {
                        assert(streams@[b] == start[y]);
                    }
                }
            }
            assert forall|a: int| 0 <= a < streams@.len() implies (
            #[trigger] streams@[a]).stats.wf() by {
                let x = if a < i {
                    a
                } else {
                    a - 1
                };
                if a != i {
                    assert(streams@[a] == start[x]);
                }
            }
            assert forall|ticks: Seq<Tick>| covers(start, ticks) implies #[trigger] covers(
                streams@,
                ticks.push(*t),
            ) by {
                lemma_cover_new(start, ticks, *t, i as int, s, fresh);
            }
        }
    }
}

/// Whether a tick is one that was asked for.
pub open spec fn wanted(t: Tick, symbol: Option<String>) -> bool {
    match symbol {
        Some(s) => t.symbol@ == s@,
        None => true,
    }
}

/// Whether a tick is one that was asked for.
pub fn is_wanted(t: &Tick, symbol: &Option<String>) -> (r: bool)
    ensures
        r == wanted(*t, *symbol),
{
    match symbol {
        Some(s) => same_text(t.symbol.as_str(), s.as_str()),
        None => true,
    }
}

/// What the report says of all feeds together.
pub struct Totals {
    pub ticks: u64,
    pub first_recv_ms: u64,
    pub last_recv_ms: u64,
}

/// The earliest first reception of some feeds, or 0 where there is none.
pub open spec fn earliest(streams: Seq<Stream>) -> u64
    decreases streams.len(),
{
    if streams.len() == 0 {
        0
    } else if streams.len() == 1 {
        streams[0].stats.first_recv_ms
    } else {
        let head = earliest(streams.drop_last());
        if streams.last().stats.first_recv_ms < head {
            streams.last().stats.first_recv_ms
        } else {
            head
        }
    }
}

/// The latest last reception of some feeds, or 0 where there is none.
pub open spec fn latest(streams: Seq<Stream>) -> u64
    decreases streams.len(),
{
    if streams.len() == 0 {
        0
    } else {
        let head = latest(streams.drop_last());
        if streams.last().stats.last_recv_ms > head {
            streams.last().stats.last_recv_ms
        } else {
            head
        }
    }
}

proof fn lemma_count_take(streams: Seq<Stream>, k: int)
    requires
        0 <= k <= streams.len(),
    ensures
        tick_count(streams.take(k)) <= tick_count(streams),
    decreases streams.len(),
{
    if k == streams.len() {
        assert(streams.take(k) =~= streams);
    } else {
        lemma_count_take(streams.drop_last(), k);
        assert(streams.drop_last().take(k) =~= streams.take(k));
    }
}

/// Whether feeds go from `before` to `after` over a line of the recording. An empty line does not
/// count. A line that holds no tick is an error. A tick is counted in its feed if it was asked for.
pub open spec fn line_taken(
    before: Feeds,
    after: Feeds,
    line: Seq<char>,
    parsed: Option<Tick>,
    symbol: Option<String>,
) -> bool {
    &&& line.len() == 0 ==> after == before
    &&& line.len() > 0 ==> {
        &&& after.total_lines == before.total_lines + 1
        &&& after.parse_errors == before.parse_errors + if parsed is None {
            1int
        } else {
            0int
        }
        &&& match parsed {
            Some(t) if wanted(t, symbol) => forall|ticks: Seq<Tick>|
                covers(before.streams@, ticks) ==> #[trigger] covers(
                    after.streams@,
                    ticks.push(t),
                ),
            _ => after.streams == before.streams,
        }
    }
}

/// Whether `r` says how many ticks some feeds hold, and when they begin and end.
pub open spec fn are_totals(streams: Seq<Stream>, r: Totals) -> bool {
    &&& r.ticks == tick_count(streams)
    &&& r.first_recv_ms == earliest(streams)
    &&& r.last_recv_ms == latest(streams)
}

impl Feeds {
    /// The feeds stand in order, hold the counters of some ticks, and no more ticks and errors
    /// are counted than lines.
    pub open spec fn wf(self) -> bool {
        &&& streams_wf(self.streams@)
        &&& tick_count(self.streams@) + self.parse_errors <= self.total_lines
        &&& exists|ticks: Seq<Tick>| #[trigger] covers(self.streams@, ticks)
    }

    /// No feeds yet.
    pub fn new() -> (r: Feeds)
        ensures
            r.wf(),
            r.streams@.len() == 0,
            r.total_lines == 0,
            r.parse_errors == 0,
            covers(r.streams@, Seq::empty()),
    {
        let r: Feeds = Feeds { streams: Vec::new(), total_lines: 0, parse_errors: 0 };
        assert(covers(r.streams@, Seq::empty()));
        r
    }

    /// Whether one more line keeps every counter in its range.
    pub open spec fn has_room(self, parsed: Option<Tick>, symbol: Option<String>) -> bool {
        &&& self.total_lines < u64::MAX
        &&& parsed matches Some(t) ==> wanted(t, symbol) ==> room_for(self.streams@, t)
    }

    /// Whether one more line keeps every counter in its range.
    pub fn can_take(&self, parsed: &Option<Tick>, symbol: &Option<String>) -> (r: bool)
        requires
            self.wf(),
        ensures
            r == self.has_room(*parsed, *symbol),
    {
        if self.total_lines == u64::MAX {
            return false;
        }
        match parsed {
            Some(t) => {
                if !is_wanted(t, symbol) {
                    return true;
                }
                let i: usize = place_of(&self.streams, t.exchange.as_str(), t.symbol.as_str());
                let fresh: PerStream = PerStream::default();
                let fits: bool = fresh.can_ingest(t);
                proof {
                    assert forall|k: int|
                        0 <= k < self.streams@.len() && (#[trigger] self.streams@[k]).key()
                            == key_of(*t) implies k == i by {
                        key_order_is_total(self.streams@[k].key(), key_of(*t));
                    }
                }
                if i < self.streams.len() && same_text(
                    self.streams[i].exchange.as_str(),
                    t.exchange.as_str(),
                ) && same_text(self.streams[i].symbol.as_str(), t.symbol.as_str()) {
                    fits && self.streams[i].stats.can_ingest(t)
                } else {
                    fits
                }
            },
            None => true,
        }
    }

    /// Takes a line of the recording. An empty line does not count. A line that holds no tick is
    /// an error. A tick is counted in its feed if it was asked for.
    pub fn take_line(&mut self, line: &str, parsed: &Option<Tick>, symbol: &Option<String>)
        requires
            old(self).wf(),
            old(self).has_room(*parsed, *symbol),
        ensures
            final(self).wf(),
            line_taken(*old(self), *final(self), line@, *parsed, *symbol),
    {
        if line.is_empty() {
            return;
        }
        self.total_lines = self.total_lines + 1;
        let ghost seen = choose|ticks: Seq<Tick>| #[trigger] covers(self.streams@, ticks);
        match parsed {
            Some(t) => {
                if is_wanted(t, symbol) {
                    record(&mut self.streams, t);
                    assert(covers(self.streams@, seen.push(*t)));
                }
            },
            None => {
                self.parse_errors = self.parse_errors + 1;
            },
        }
    }

    /// The number of ticks, and when the recording begins and ends.
    pub fn totals(&self) -> (r: Totals)
        requires
            self.wf(),
        ensures
            are_totals(self.streams@, r),
    {
        let mut ticks: u64 = 0;
        let mut first: u64 = 0;
        let mut last: u64 = 0;
        let mut i: usize = 0;
        proof {
            assert(self.streams@.take(0) =~= Seq::empty());
        }
        while i < self.streams.len()
            invariant
                self.wf(),
                i <= self.streams.len(),
                ticks == tick_count(self.streams@.take(i as int)),
                first == earliest(self.streams@.take(i as int)),
                last == latest(self.streams@.take(i as int)),
            decreases self.streams.len() - i,
        {
            proof {
                assert(self.streams@.take(i + 1).drop_last() =~= self.streams@.take(i as int));
                lemma_count_take(self.streams@, i + 1);
            }
            let s: &Stream = &self.streams[i];
            ticks = ticks + s.stats.count;
            if i == 0 || s.stats.first_recv_ms < first {
                first = s.stats.first_recv_ms;
            }
            if s.stats.last_recv_ms > last {
                last = s.stats.last_recv_ms;
            }
            i = i + 1;
        }
        proof {
            assert(self.streams@.take(i as int) =~= self.streams@);
        }
        Totals { ticks, first_recv_ms: first, last_recv_ms: last }
    }
}

/// The jitter of a feed: percentiles of the times between its ticks, in nanoseconds.
pub struct IntervalReport {
    pub p50: u64,
    pub p95: u64,
    pub p99: u64,
    pub max: u64,
}

/// The transport latency of a feed, in milliseconds, with the skew of the clocks in it.
pub struct LatencyReport {
    pub min: i64,
    pub p50: i64,
    pub p95: i64,
    pub count: usize,
}

/// What the report says of one feed.
pub struct StreamReport {
    /// From its first tick to its last, in milliseconds.
    pub duration_ms: u64,
    /// The same in seconds.
    pub duration_s: Double,
    /// Ticks per second.
    pub rate: Double,
    /// The mean number of levels of a tick, on either side.
    pub mean_bids: Double,
    pub mean_asks: Double,
    pub intervals: Option<IntervalReport>,
    pub latencies: Option<LatencyReport>,
    /// The number of sequence gaps, on the venue that numbers its messages.
    pub seq_gaps: Option<u64>,
}

/// What the report says of some intervals.
pub open spec fn interval_report(row: Seq<u64>) -> Option<IntervalReport> {
    let sorted = ascending_u64(row);
    if row.len() == 0 {
        None
    } else {
        Some(
            IntervalReport {
                p50: sorted[position(Double { bits: P50_BITS }, row.len()) as int],
                p95: sorted[position(Double { bits: P95_BITS }, row.len()) as int],
                p99: sorted[position(Double { bits: P99_BITS }, row.len()) as int],
                max: sorted[row.len() - 1],
            },
        )
    }
}

/// What the report says of some latencies.
pub open spec fn latency_report(row: Seq<i64>) -> Option<LatencyReport> {
    let sorted = ascending_i64(row);
    if row.len() == 0 {
        None
    } else {
        Some(
            LatencyReport {
                min: sorted[0],
                p50: sorted[position(Double { bits: P50_BITS }, row.len()) as int],
                p95: sorted[position(Double { bits: P95_BITS }, row.len()) as int],
                count: row.len() as usize,
            },
        )
    }
}

/// The time from one moment to a later one, or 0 where it is earlier.
pub open spec fn time_between(from: u64, to: u64) -> u64 {
    if to >= from {
        (to - from) as u64
    } else {
        0
    }
}

/// The time from one moment to a later one, or 0 where it is earlier.
pub fn elapsed(from: u64, to: u64) -> (r: u64)
    ensures
        r == time_between(from, to),
{
    if to >= from {
        to - from
    } else {
        0
    }
}

/// Whether `r` is what the report says of a feed.
pub open spec fn is_report(f: Answers, s: Stream, r: StreamReport) -> bool {
    &&& r.duration_ms == time_between(s.stats.first_recv_ms, s.stats.last_recv_ms)
    &&& is_seconds(f, r.duration_ms, r.duration_s)
    &&& is_rate(f, s.stats.count, r.duration_ms, r.rate)
    &&& is_mean(f, s.stats.bids_depth_sum, s.stats.count, r.mean_bids)
    &&& is_mean(f, s.stats.asks_depth_sum, s.stats.count, r.mean_asks)
    &&& r.intervals == interval_report(s.stats.intervals_ns@)
    &&& r.latencies == latency_report(s.stats.latencies_ms@)
    &&& r.seq_gaps == if s.exchange@ == "lighter"@ {
        Some(s.stats.seq_gaps)
    } else {
        None
    }
}

impl Stream {
    /// What the report says of the feed.
    pub fn report<F: Fn(Op, Double, Double) -> Double>(&self, f: &F) -> (r: StreamReport)
        requires
            is_total(*f),
        ensures
            is_report(answers_of(*f), *self, r),
    {
        let row: Vec<u64> = sorted_u64(&self.stats.intervals_ns);
        let intervals: Option<IntervalReport> = if row.len() == 0 {
            None
        } else {
            Some(
                IntervalReport {
                    p50: percentile_u64(row.as_slice(), Double { bits: P50_BITS }),
                    p95: percentile_u64(row.as_slice(), Double { bits: P95_BITS }),
                    p99: percentile_u64(row.as_slice(), Double { bits: P99_BITS }),
                    max: row[row.len() - 1],
                },
            )
        };
        let row: Vec<i64> = sorted_i64(&self.stats.latencies_ms);
        let latencies: Option<LatencyReport> = if row.len() == 0 {
            None
        } else {
            Some(
                LatencyReport {
                    min: row[0],
                    p50: percentile_i64(row.as_slice(), Double { bits: P50_BITS }),
                    p95: percentile_i64(row.as_slice(), Double { bits: P95_BITS }),
                    count: row.len(),
                },
            )
        };
        let seq_gaps: Option<u64> = if same_text(self.exchange.as_str(), "lighter") {
            Some(self.stats.seq_gaps)
        } else {
            None
        };
        let duration_ms: u64 = elapsed(self.stats.first_recv_ms, self.stats.last_recv_ms);
        StreamReport {
            duration_ms,
            duration_s: seconds(f, duration_ms),
            rate: rate(f, self.stats.count, duration_ms),
            mean_bids: mean(f, self.stats.bids_depth_sum, self.stats.count),
            mean_asks: mean(f, self.stats.asks_depth_sum, self.stats.count),
            intervals,
            latencies,
            seq_gaps,
        }
    }
}

/// A symbol with its feed on each venue, by position.
pub struct SymbolFeeds {
    pub symbol: String,
    pub lighter: Option<usize>,
    pub hyperliquid: Option<usize>,
}

/// The symbols of a list.
pub open spec fn listed(list: Seq<SymbolFeeds>) -> Seq<Seq<char>> {
    list.map_values(|s: SymbolFeeds| s.symbol@)
}

/// Whether a position is that of the feed with a key, or there is none and no such feed.
pub open spec fn is_place(streams: Seq<Stream>, key: Key, place: Option<usize>) -> bool {
    match place {
        Some(i) => i < streams.len() && streams[i as int].key() == key,
        None => !has_key(streams, key),
    }
}

/// The symbols that some feeds are of.
pub open spec fn symbols_of(streams: Seq<Stream>) -> Set<Seq<char>> {
    Set::new(
        |x: Seq<char>|
            exists|i: int| 0 <= i < streams.len() && (#[trigger] streams[i]).symbol@ == x,
    )
}

/// Which venue has the higher tick rate, and how many times the other one's it is, where both
/// have one.
#[derive(Clone, Copy, Debug, PartialEq, Eq, Structural)]
pub enum RateComparison {
    Leads { venue: Venue, ratio: Double },
    OneSideMissing,
}

/// Whether `r` compares two tick rates. Lighter leads where they are equal.
pub open spec fn is_comparison(
    f: Answers,
    lighter: Double,
    hyperliquid: Double,
    r: RateComparison,
) -> bool {
    if lighter.gt(Double { bits: 0 }) && hyperliquid.gt(Double { bits: 0 }) {
        match r {
            RateComparison::Leads { venue: Venue::Hyperliquid, ratio } => hyperliquid.gt(lighter)
                && answers(f, Op::Over, hyperliquid, lighter, ratio),
            RateComparison::Leads { venue: Venue::Lighter, ratio } => !hyperliquid.gt(lighter)
                && answers(f, Op::Over, lighter, hyperliquid, ratio),
            RateComparison::OneSideMissing => false,
        }
    } else {
        r == RateComparison::OneSideMissing
    }
}

/// Compares the tick rates of a symbol on the two venues.
pub fn compare_rates<F: Fn(Op, Double, Double) -> Double>(
    f: &F,
    lighter: Double,
    hyperliquid: Double,
) -> (r: RateComparison)
    requires
        is_total(*f),
    ensures
        is_comparison(answers_of(*f), lighter, hyperliquid, r),
{
    if lighter.exceeds(Double::zero()) && hyperliquid.exceeds(Double::zero()) {
        if hyperliquid.exceeds(lighter) {
            let ratio: Double = f(Op::Over, hyperliquid, lighter);
            RateComparison::Leads { venue: Venue::Hyperliquid, ratio }
        } else {
            let ratio: Double = f(Op::Over, lighter, hyperliquid);
            RateComparison::Leads { venue: Venue::Lighter, ratio }
        }
    } else {
        RateComparison::OneSideMissing
    }
}

/// The tick rates of a symbol on the two venues.
pub struct SymbolRates {
    pub symbol: String,
    pub lighter: Double,
    pub hyperliquid: Double,
    pub comparison: RateComparison,
}

/// The symbols of a list of tick rates.
pub open spec fn rated(list: Seq<SymbolRates>) -> Seq<Seq<char>> {
    list.map_values(|s: SymbolRates| s.symbol@)
}

/// Whether a number is the tick rate of the feed with a key; zero where there is no such feed.
pub open spec fn is_rate_of(
    f: Answers,
    streams: Seq<Stream>,
    key: Key,
    r: Double,
) -> bool {
    if has_key(streams, key) {
        exists|i: int|
            0 <= i < streams.len() && (#[trigger] streams[i]).key() == key && is_rate(
                f,
                streams[i].stats.count,
                time_between(streams[i].stats.first_recv_ms, streams[i].stats.last_recv_ms),
                r,
            )
    } else {
        r == Double { bits: 0 }
    }
}

/// Whether `r` compares the tick rates of each symbol on the two venues, in the order of the
/// symbols.
pub open spec fn are_comparisons(f: Answers, streams: Seq<Stream>, r: Seq<SymbolRates>) -> bool {
    &&& in_text_order(rated(r))
    &&& forall|x: Seq<char>| #[trigger] rated(r).contains(x) <==> symbols_of(streams).contains(x)
    &&& forall|i: int|
        0 <= i < r.len() ==> is_rate_of(
            f,
            streams,
            ("lighter"@, (#[trigger] r[i]).symbol@),
            r[i].lighter,
        ) && is_rate_of(f, streams, ("hyperliquid"@, r[i].symbol@), r[i].hyperliquid)
            && is_comparison(f, r[i].lighter, r[i].hyperliquid, r[i].comparison)
}

impl Feeds {
    /// The position of the feed of a symbol on a venue.
    fn find(&self, venue: Venue, symbol: &str) -> (r: Option<usize>)
        requires
            self.wf(),
        ensures
            is_place(self.streams@, (venue.text(), symbol@), r),
    {
        let i: usize = place_of(&self.streams, venue.name(), symbol);
        let ghost key: Key = (venue.text(), symbol@);
        proof {
            assert forall|k: int|
                0 <= k < self.streams@.len() && (#[trigger] self.streams@[k]).key()
                    == key implies k == i by {
                key_order_is_total(self.streams@[k].key(), key);
            }
        }
        if i < self.streams.len() && same_text(self.streams[i].exchange.as_str(), venue.name())
            && same_text(self.streams[i].symbol.as_str(), symbol) {
            Some(i)
        } else {
            None
        }
    }

    /// The symbols of the recording in order, each with its feed on either venue.
    pub fn by_symbol(&self) -> (r: Vec<SymbolFeeds>)
        requires
            self.wf(),
        ensures
            in_text_order(listed(r@)),
            forall|x: Seq<char>|
                #[trigger] listed(r@).contains(x)
                    <==> symbols_of(self.streams@).contains(x),
            forall|i: int|
                0 <= i < r.len() ==> is_place(
                    self.streams@,
                    ("lighter"@, (#[trigger] r@[i]).symbol@),
                    r@[i].lighter,
                ) && is_place(
                    self.streams@,
                    ("hyperliquid"@, r@[i].symbol@),
                    r@[i].hyperliquid,
                ),
    {
        let mut names: Vec<String> = Vec::new();
        let mut i: usize = 0;
        while i < self.streams.len()
            invariant
                i <= self.streams.len(),
                in_text_order(texts(names@)),
                forall|x: Seq<char>|
                    #[trigger] texts(names@).contains(x) <==> symbols_of(
                        self.streams@.take(i as int),
                    ).contains(x),
            decreases self.streams.len() - i,
        {
            let ghost before_this = texts(names@);
            insert_text(&mut names, self.streams[i].symbol.as_str());
            proof {
                let short = self.streams@.take(i as int);
                let more = self.streams@.take(i + 1);
                let s = self.streams@[i as int].symbol@;
                assert forall|x: Seq<char>| #[trigger] texts(names@).contains(x) <==> symbols_of(
                    more,
                ).contains(x) by {
                    assert(before_this.contains(x) <==> symbols_of(short).contains(x));
                    if symbols_of(short).contains(x) {
                        let k = choose|k: int|
                            0 <= k < short.len() && (#[trigger] short[k]).symbol@ == x;
                        assert(more[k].symbol@ == x);
                    }
                    if symbols_of(more).contains(x) {
                        let k = choose|k: int|
                            0 <= k < more.len() && (#[trigger] more[k]).symbol@ == x;
                        if k < i {
                            assert(short[k].symbol@ == x);
                        }
                    }
                    assert(more[i as int].symbol@ == s);
                }
            }
            i = i + 1;
        }
        proof {
            assert(self.streams@.take(i as int) =~= self.streams@);
        }
        let mut r: Vec<SymbolFeeds> = Vec::new();
        let mut n: usize = 0;
        while n < names.len()
            invariant
                self.wf(),
                n <= names.len(),
                r.len() == n,
                forall|k: int| 0 <= k < n ==> (#[trigger] r@[k]).symbol@ == names@[k]@,
                forall|k: int|
                    0 <= k < n ==> is_place(
                        self.streams@,
                        ("lighter"@, (#[trigger] r@[k]).symbol@),
                        r@[k].lighter,
                    ) && is_place(
                        self.streams@,
                        ("hyperliquid"@, r@[k].symbol@),
                        r@[k].hyperliquid,
                    ),
            decreases names.len() - n,
        {
            let lighter: Option<usize> = self.find(Venue::Lighter, names[n].as_str());
            let hyperliquid: Option<usize> = self.find(Venue::Hyperliquid, names[n].as_str());
            r.push(SymbolFeeds { symbol: names[n].clone(), lighter, hyperliquid });
            n = n + 1;
        }
        proof {
            assert(listed(r@) =~= texts(names@));
        }
        r
    }
}

impl Feeds {
    /// The tick rate of the feed at a position.
    fn rate_at<F: Fn(Op, Double, Double) -> Double>(
        &self,
        f: &F,
        place: Option<usize>,
        key: Ghost<Key>,
    ) -> (r: Double)
        requires
            is_total(*f),
            is_place(self.streams@, key@, place),
        ensures
            is_rate_of(answers_of(*f), self.streams@, key@, r),
    {
        match place {
            Some(i) => {
                let s: &PerStream = &self.streams[i].stats;
                proof {
                    assert(self.streams@[i as int].key() == key@);
                }
                rate(f, s.count, elapsed(s.first_recv_ms, s.last_recv_ms))
            },
            None => Double::zero(),
        }
    }

    /// Compares the tick rates of each symbol on the two venues, in the order of the symbols.
    pub fn compare<F: Fn(Op, Double, Double) -> Double>(&self, f: &F) -> (r: Vec<SymbolRates>)
        requires
            self.wf(),
            is_total(*f),
        ensures
            are_comparisons(answers_of(*f), self.streams@, r@),
    {
        let list: Vec<SymbolFeeds> = self.by_symbol();
        let mut r: Vec<SymbolRates> = Vec::new();
        let mut i: usize = 0;
        while i < list.len()
            invariant
                self.wf(),
                is_total(*f),
                i <= list.len(),
                r.len() == i,
                forall|k: int|
                    0 <= k < list.len() ==> is_place(
                        self.streams@,
                        ("lighter"@, (#[trigger] list@[k]).symbol@),
                        list@[k].lighter,
                    ) && is_place(
                        self.streams@,
                        ("hyperliquid"@, list@[k].symbol@),
                        list@[k].hyperliquid,
                    ),
                forall|k: int| 0 <= k < i ==> (#[trigger] r@[k]).symbol@ == list@[k].symbol@,
                forall|k: int|
                    0 <= k < i ==> is_rate_of(
                        answers_of(*f),
                        self.streams@,
                        ("lighter"@, (#[trigger] r@[k]).symbol@),
                        r@[k].lighter,
                    ) && is_rate_of(
                        answers_of(*f),
                        self.streams@,
                        ("hyperliquid"@, r@[k].symbol@),
                        r@[k].hyperliquid,
                    ) && is_comparison(answers_of(*f), r@[k].lighter, r@[k].hyperliquid, r@[k].comparison),
            decreases list.len() - i,
        {
            let symbol: String = list[i].symbol.clone();
            let lighter: Double = self.rate_at(f, list[i].lighter, Ghost(("lighter"@, symbol@)));
            let hyperliquid: Double = self.rate_at(
                f,
                list[i].hyperliquid,
                Ghost(("hyperliquid"@, symbol@)),
            );
            let comparison: RateComparison = compare_rates(f, lighter, hyperliquid);
            r.push(SymbolRates { symbol, lighter, hyperliquid, comparison });
            i = i + 1;
        }
        proof {
            assert(rated(r@) =~= listed(list@));
        }
        r
    }
}

/// The keys of some feeds.
pub open spec fn keys_of(streams: Seq<Stream>) -> Seq<Key> {
    streams.map_values(|s: Stream| s.key())
}

/// How many ticks have one of some keys, each counted for every key that it has.
spec fn count_by_key(keys: Seq<Key>, ticks: Seq<Tick>) -> nat
    decreases keys.len(),
{
    if keys.len() == 0 {
        0
    } else {
        count_by_key(keys.drop_last(), ticks) + ticks_of(ticks, keys.last()).len()
    }
}

proof fn lemma_count_by_key_push(keys: Seq<Key>, ticks: Seq<Tick>, t: Tick)
    requires
        keys.no_duplicates(),
    ensures
        count_by_key(keys, ticks.push(t)) == count_by_key(keys, ticks) + if keys.contains(
            key_of(t),
        ) {
            1nat
        } else {
            0nat
        },
    decreases keys.len(),
{
    if keys.len() > 0 {
        let head = keys.drop_last();
        lemma_count_by_key_push(head, ticks, t);
        lemma_ticks_of_push(ticks, t, keys.last());
        if keys.contains(key_of(t)) {
            let k = choose|k: int| 0 <= k < keys.len() && keys[k] == key_of(t);
            if k < head.len() {
                assert(head[k] == key_of(t));
            }
        }
        if head.contains(key_of(t)) {
            let k = choose|k: int| 0 <= k < head.len() && head[k] == key_of(t);
            assert(keys[k] == key_of(t));
        }
        if keys.last() == key_of(t) {
            assert(keys[keys.len() - 1] == key_of(t));
        }
    }
}

proof fn lemma_count_by_key(keys: Seq<Key>, ticks: Seq<Tick>)
    requires
        keys.no_duplicates(),
        forall|i: int| 0 <= i < ticks.len() ==> keys.contains(key_of(#[trigger] ticks[i])),
    ensures
        count_by_key(keys, ticks) == ticks.len(),
    decreases ticks.len(),
{
    if ticks.len() > 0 {
        let head = ticks.drop_last();
        assert forall|i: int| 0 <= i < head.len() implies keys.contains(
            key_of(#[trigger] head[i]),
        ) by {
            assert(head[i] == ticks[i]);
        }
        lemma_count_by_key(keys, head);
        lemma_count_by_key_push(keys, head, ticks.last());
        assert(head.push(ticks.last()) =~= ticks);
        assert(keys.contains(key_of(ticks[ticks.len() - 1])));
    } else {
        lemma_no_counts(keys, ticks);
    }
}

proof fn lemma_no_counts(keys: Seq<Key>, ticks: Seq<Tick>)
    requires
        ticks.len() == 0,
    ensures
        count_by_key(keys, ticks) == 0,
    decreases keys.len(),
{
    reveal(Seq::filter);
    if keys.len() > 0 {
        lemma_no_counts(keys.drop_last(), ticks);
    }
}

proof fn lemma_counts(streams: Seq<Stream>, ticks: Seq<Tick>)
    requires
        forall|i: int|
            0 <= i < streams.len() ==> summarises(
                (#[trigger] streams[i]).stats,
                ticks_of(ticks, streams[i].key()),
            ),
    ensures
        tick_count(streams) == count_by_key(keys_of(streams), ticks),
    decreases streams.len(),
{
    if streams.len() > 0 {
        assert(streams[streams.len() - 1] == streams.last());
        assert(keys_of(streams).drop_last() =~= keys_of(streams.drop_last()));
        assert forall|i: int| 0 <= i < streams.drop_last().len() implies summarises(
            (#[trigger] streams.drop_last()[i]).stats,
            ticks_of(ticks, streams.drop_last()[i].key()),
        ) by {
            assert(streams.drop_last()[i] == streams[i]);
        }
        lemma_counts(streams.drop_last(), ticks);
    }
}

/// Feeds that hold the counters of some ticks count every tick, and none of them twice.
pub proof fn every_tick_is_counted_once(streams: Seq<Stream>, ticks: Seq<Tick>)
    requires
        in_key_order(streams),
        covers(streams, ticks),
    ensures
        tick_count(streams) == ticks.len(),
{
    let keys = keys_of(streams);
    assert forall|i: int, j: int| 0 <= i < j < keys.len() implies keys[i] != keys[j] by {
        let a = streams[i];
        let b = streams[j];
        key_order_is_total(a.key(), b.key());
    }
    assert forall|i: int| 0 <= i < ticks.len() implies keys.contains(
        key_of(#[trigger] ticks[i]),
    ) by {
        let k = choose|k: int|
            0 <= k < streams.len() && (#[trigger] streams[k]).key() == key_of(ticks[i]);
        assert(keys[k] == key_of(ticks[i]));
    }
    lemma_counts(streams, ticks);
    lemma_count_by_key(keys, ticks);
}

} // verus!
