//! Statistics of recorded feeds: cadence, jitter, transport latency, sequence gaps and depth.

use vstd::prelude::*;
use vstd::string::*;

use crate::rounding::{tenths_of_ms, tenths_spec};
use crate::text::{decimal, same_text, starts_with, texts, to_decimal, to_uppercase, uppercase};
use crate::tick::Tick;

verus! {

/// A number of nanoseconds in milliseconds with one decimal: `12.3`.
pub open spec fn ms_text(ns: nat) -> Seq<char> {
    let tenths = tenths_spec(ns);
    decimal(tenths / 10) + "."@ + decimal(tenths % 10)
}

/// Shows a number of nanoseconds in milliseconds, with one decimal.
pub fn fmt_ms_from_ns(ns: u64) -> (r: String)
    ensures
        r@ == ms_text(ns as nat),
{
    let tenths: u128 = tenths_of_ms(ns);
    let mut r: String = to_decimal(tenths / 10);
    r.append(".");
    r.append(to_decimal(tenths % 10).as_str());
    r
}

/// The counters of one feed: one symbol on one venue.
pub struct PerStream {
    pub count: u64,
    pub snapshots: u64,
    pub first_recv_ms: u64,
    pub last_recv_ms: u64,
    pub last_recv_ns: Option<u64>,
    pub intervals_ns: Vec<u64>,
    pub latencies_ms: Vec<i64>,
    pub last_seq: Option<u64>,
    pub seq_gaps: u64,
    pub bids_depth_sum: u64,
    pub asks_depth_sum: u64,
}

/// A 64-bit pattern read as a signed number.
pub open spec fn signed(x: u64) -> int {
    if x <= i64::MAX {
        x as int
    } else {
        x - 0x1_0000_0000_0000_0000
    }
}

/// A 64-bit pattern read as a signed number.
fn to_signed(x: u64) -> (r: i64)
    ensures
        r == signed(x),
{
    if x <= 0x7fff_ffff_ffff_ffff {
        x as i64
    } else {
        let below: i64 = (0xffff_ffff_ffff_ffff - x) as i64;
        -below - 1
    }
}

/// The transport latency of a tick, with the skew of the two clocks in it.
pub open spec fn latency(t: Tick) -> int {
    signed(t.recv_ms) - signed(t.server_ms)
}

/// Whether the latency of a tick can be counted, if it has one.
pub open spec fn latency_fits(t: Tick) -> bool {
    t.server_ms > 0 ==> i64::MIN <= latency(t) <= i64::MAX
}

/// The last sequence number and the number of gaps after one more tick. A snapshot starts a new
/// sequence. A delta with both of its numbers is a gap if it does not follow the last one.
pub open spec fn sequence_step(state: (Option<u64>, nat), t: Tick) -> (Option<u64>, nat) {
    if t.is_snapshot {
        (
            if t.seq > 0 {
                Some(t.seq)
            } else {
                None
            },
            state.1,
        )
    } else if t.seq > 0 && t.prev_seq > 0 {
        (
            Some(t.seq),
            if state.0 is Some && state.0 != Some(t.prev_seq) {
                state.1 + 1
            } else {
                state.1
            },
        )
    } else {
        state
    }
}

/// Whether `after` holds the counters of `before` after one more tick.
pub open spec fn ingested(before: PerStream, t: Tick, after: PerStream) -> bool {
    &&& after.count == before.count + 1
    &&& after.snapshots == before.snapshots + if t.is_snapshot {
        1int
    } else {
        0int
    }
    &&& after.first_recv_ms == if before.first_recv_ms == 0 {
        t.recv_ms
    } else {
        before.first_recv_ms
    }
    &&& after.last_recv_ms == t.recv_ms
    &&& after.last_recv_ns == Some(t.recv_ns)
    &&& after.intervals_ns@ == match before.last_recv_ns {
        Some(prev) if t.recv_ns >= prev => before.intervals_ns@.push((t.recv_ns - prev) as u64),
        _ => before.intervals_ns@,
    }
    &&& after.latencies_ms@ == if t.server_ms > 0 {
        before.latencies_ms@.push(latency(t) as i64)
    } else {
        before.latencies_ms@
    }
    &&& (after.last_seq, after.seq_gaps as nat) == sequence_step(
        (before.last_seq, before.seq_gaps as nat),
        t,
    )
    &&& after.bids_depth_sum == before.bids_depth_sum + t.bids.len()
    &&& after.asks_depth_sum == before.asks_depth_sum + t.asks.len()
}

impl Default for PerStream {
    /// A feed of which nothing has been seen.
    fn default() -> (r: PerStream)
        ensures
            r.wf(),
            summarises(r, Seq::empty()),
    {
        proof {
            reveal(Seq::filter);
            assert(latencies_of(Seq::empty()) =~= Seq::empty());
        }
        PerStream {
            count: 0,
            snapshots: 0,
            first_recv_ms: 0,
            last_recv_ms: 0,
            last_recv_ns: None,
            intervals_ns: Vec::new(),
            latencies_ms: Vec::new(),
            last_seq: None,
            seq_gaps: 0,
            bids_depth_sum: 0,
            asks_depth_sum: 0,
        }
    }
}

impl PerStream {
    /// The counters never run ahead of the number of ticks.
    pub open spec fn wf(self) -> bool {
        &&& self.snapshots <= self.count
        &&& self.seq_gaps <= self.count
    }

    /// Whether one more tick keeps every counter in its range.
    pub open spec fn has_room(self, t: Tick) -> bool {
        &&& self.count < u64::MAX
        &&& self.bids_depth_sum + t.bids.len() <= u64::MAX
        &&& self.asks_depth_sum + t.asks.len() <= u64::MAX
        &&& latency_fits(t)
    }

    /// Whether one more tick keeps every counter in its range.
    pub fn can_ingest(&self, t: &Tick) -> (r: bool)
        ensures
            r == self.has_room(*t),
    {
        let latency_in_range: bool = if t.server_ms > 0 {
            let difference: i128 = to_signed(t.recv_ms) as i128 - to_signed(t.server_ms) as i128;
            i64::MIN as i128 <= difference && difference <= i64::MAX as i128
        } else {
            true
        };
        self.count < u64::MAX && self.bids_depth_sum as u128 + t.bids.len() as u128
            <= u64::MAX as u128 && self.asks_depth_sum as u128 + t.asks.len() as u128
            <= u64::MAX as u128 && latency_in_range
    }

    /// Counts one more tick of the feed.
    pub fn ingest(&mut self, t: &Tick)
        requires
            old(self).wf(),
            old(self).has_room(*t),
        ensures
            final(self).wf(),
            ingested(*old(self), *t, *final(self)),
    {
        self.count = self.count + 1;
        if self.first_recv_ms == 0 {
            self.first_recv_ms = t.recv_ms;
        }
        self.last_recv_ms = t.recv_ms;
        if let Some(prev) = self.last_recv_ns {
            if t.recv_ns >= prev {
                self.intervals_ns.push(t.recv_ns - prev);
            }
        }
        self.last_recv_ns = Some(t.recv_ns);
        if t.server_ms > 0 {
            self.latencies_ms.push(to_signed(t.recv_ms) - to_signed(t.server_ms));
        }
        if t.is_snapshot {
            self.snapshots = self.snapshots + 1;
            self.last_seq = if t.seq > 0 {
                Some(t.seq)
            } else {
                None
            };
        } else if t.seq > 0 && t.prev_seq > 0 {
            if let Some(prev) = self.last_seq {
                if t.prev_seq != prev {
                    self.seq_gaps = self.seq_gaps + 1;
                }
            }
            self.last_seq = Some(t.seq);
        }
        self.bids_depth_sum = self.bids_depth_sum + t.bids.len() as u64;
        self.asks_depth_sum = self.asks_depth_sum + t.asks.len() as u64;
    }
}

/// The number of snapshots among some ticks.
pub open spec fn snapshots_of(ticks: Seq<Tick>) -> nat {
    ticks.filter(|t: Tick| t.is_snapshot).len()
}

/// The first reception time of some ticks that is not 0.
pub open spec fn first_reception(ticks: Seq<Tick>) -> u64
    decreases ticks.len(),
{
    if ticks.len() == 0 {
        0
    } else if ticks[0].recv_ms != 0 {
        ticks[0].recv_ms
    } else {
        first_reception(ticks.drop_first())
    }
}

/// The times between neighbouring ticks, without those that run backwards.
pub open spec fn intervals_of(ticks: Seq<Tick>) -> Seq<u64>
    decreases ticks.len(),
{
    if ticks.len() < 2 {
        Seq::empty()
    } else {
        let before = intervals_of(ticks.drop_last());
        let prev = ticks[ticks.len() - 2].recv_ns;
        if ticks.last().recv_ns >= prev {
            before.push((ticks.last().recv_ns - prev) as u64)
        } else {
            before
        }
    }
}

/// The latencies of the ticks that carry a timestamp of the venue.
pub open spec fn latencies_of(ticks: Seq<Tick>) -> Seq<i64> {
    ticks.filter(|t: Tick| t.server_ms > 0).map_values(|t: Tick| latency(t) as i64)
}

/// The last sequence number and the number of gaps after some ticks.
pub open spec fn sequence_of(ticks: Seq<Tick>) -> (Option<u64>, nat)
    decreases ticks.len(),
{
    if ticks.len() == 0 {
        (None, 0)
    } else {
        sequence_step(sequence_of(ticks.drop_last()), ticks.last())
    }
}

/// The number of bid levels in some ticks.
pub open spec fn bid_levels(ticks: Seq<Tick>) -> nat
    decreases ticks.len(),
{
    if ticks.len() == 0 {
        0
    } else {
        bid_levels(ticks.drop_last()) + ticks.last().bids.len() as nat
    }
}

/// The number of ask levels in some ticks.
pub open spec fn ask_levels(ticks: Seq<Tick>) -> nat
    decreases ticks.len(),
{
    if ticks.len() == 0 {
        0
    } else {
        ask_levels(ticks.drop_last()) + ticks.last().asks.len() as nat
    }
}

/// Whether the counters of a feed are those of exactly these ticks, in this order.
pub open spec fn summarises(s: PerStream, ticks: Seq<Tick>) -> bool {
    &&& s.count == ticks.len()
    &&& s.snapshots == snapshots_of(ticks)
    &&& s.first_recv_ms == first_reception(ticks)
    &&& s.last_recv_ms == if ticks.len() == 0 {
        0
    } else {
        ticks.last().recv_ms
    }
    &&& s.last_recv_ns == if ticks.len() == 0 {
        None
    } else {
        Some(ticks.last().recv_ns)
    }
    &&& s.intervals_ns@ == intervals_of(ticks)
    &&& s.latencies_ms@ == latencies_of(ticks)
    &&& (s.last_seq, s.seq_gaps as nat) == sequence_of(ticks)
    &&& s.bids_depth_sum == bid_levels(ticks)
    &&& s.asks_depth_sum == ask_levels(ticks)
}

proof fn lemma_first_reception_push(ticks: Seq<Tick>, t: Tick)
    ensures
        first_reception(ticks.push(t)) == if first_reception(ticks) == 0 {
            t.recv_ms
        } else {
            first_reception(ticks)
        },
    decreases ticks.len(),
{
    let more = ticks.push(t);
    if ticks.len() == 0 {
        assert(more.drop_first() =~= Seq::empty());
        assert(first_reception(more.drop_first()) == 0);
    } else if ticks[0].recv_ms == 0 {
        lemma_first_reception_push(ticks.drop_first(), t);
        assert(more.drop_first() =~= ticks.drop_first().push(t));
    }
}

/// Counters that are those of some ticks become, with one more tick, those of all of them.
pub proof fn ingest_extends_the_summary(
    before: PerStream,
    ticks: Seq<Tick>,
    t: Tick,
    after: PerStream,
)
    requires
        summarises(before, ticks),
        ingested(before, t, after),
    ensures
        summarises(after, ticks.push(t)),
{
    let more = ticks.push(t);
    assert(more.drop_last() =~= ticks);
    lemma_first_reception_push(ticks, t);
    reveal(Seq::filter);
    let dated = |x: Tick| x.server_ms > 0;
    assert(latencies_of(more) =~= after.latencies_ms@);
    if ticks.len() > 0 {
        assert(more[more.len() - 2] == ticks.last());
    }
    assert(after.intervals_ns@ =~= intervals_of(more));
}

/// Counters that start from nothing and take in some ticks in order become those of the ticks.
pub proof fn counters_follow_the_ticks(states: Seq<PerStream>, ticks: Seq<Tick>)
    requires
        states.len() == ticks.len() + 1,
        summarises(states[0], Seq::empty()),
        forall|i: int|
            0 <= i < ticks.len() ==> ingested(states[i], #[trigger] ticks[i], states[i + 1]),
    ensures
        summarises(states.last(), ticks),
    decreases ticks.len(),
{
    if ticks.len() == 0 {
        assert(ticks =~= Seq::empty());
        assert(states.last() == states[0]);
    } else {
        let n = ticks.len() - 1;
        let short = ticks.drop_last();
        let before = states.drop_last();
        assert forall|i: int| 0 <= i < short.len() implies ingested(
            before[i],
            #[trigger] short[i],
            before[i + 1],
        ) by {
            assert(ingested(states[i], ticks[i], states[i + 1]));
        }
        counters_follow_the_ticks(before, short);
        assert(ingested(states[n], ticks[n], states[n + 1]));
        ingest_extends_the_summary(states[n], short, ticks[n], states[n + 1]);
        assert(short.push(ticks[n]) =~= ticks);
    }
}

/// Whether each tick is a snapshot, or carries both of its sequence numbers and names the number
/// of the tick before.
pub open spec fn unbroken(ticks: Seq<Tick>) -> bool {
    forall|i: int|
        0 < i < ticks.len() ==> (#[trigger] ticks[i]).is_snapshot || (ticks[i].seq > 0
            && ticks[i].prev_seq > 0 && ticks[i].prev_seq == ticks[i - 1].seq)
}

/// A feed of which no message is lost shows no gap.
pub proof fn unbroken_feed_has_no_gap(ticks: Seq<Tick>)
    requires
        unbroken(ticks),
    ensures
        sequence_of(ticks).1 == 0,
        sequence_of(ticks).0 is Some ==> ticks.len() > 0 && sequence_of(ticks).0 == Some(
            ticks.last().seq,
        ),
    decreases ticks.len(),
{
    if ticks.len() > 0 {
        let short = ticks.drop_last();
        assert(unbroken(short)) by {
            assert forall|i: int| 0 < i < short.len() implies (#[trigger] short[i]).is_snapshot || (
            short[i].seq > 0 && short[i].prev_seq > 0 && short[i].prev_seq == short[i - 1].seq) by {
                assert(ticks[i] == short[i]);
            }
        }
        unbroken_feed_has_no_gap(short);
        if short.len() > 0 {
            assert(ticks[ticks.len() - 1] == ticks.last());
        }
    }
}

/// A delta that carries both of its sequence numbers and does not name the last number seen is
/// one more gap.
pub proof fn lost_message_is_a_gap(ticks: Seq<Tick>, t: Tick)
    requires
        !t.is_snapshot,
        t.seq > 0,
        t.prev_seq > 0,
        sequence_of(ticks).0 is Some,
        sequence_of(ticks).0 != Some(t.prev_seq),
    ensures
        sequence_of(ticks.push(t)).1 == sequence_of(ticks).1 + 1,
{
    assert(ticks.push(t).drop_last() =~= ticks);
}

/// Whether a feed starts with a numbered snapshot and goes on with deltas that carry both of their
/// sequence numbers.
pub open spec fn numbered(ticks: Seq<Tick>) -> bool {
    &&& ticks.len() > 0
    &&& ticks[0].is_snapshot
    &&& ticks[0].seq > 0
    &&& forall|i: int|
        0 < i < ticks.len() ==> !(#[trigger] ticks[i]).is_snapshot && ticks[i].seq > 0
            && ticks[i].prev_seq > 0
}

/// How many ticks do not name the number of the tick before.
pub open spec fn holes(ticks: Seq<Tick>) -> nat
    decreases ticks.len(),
{
    if ticks.len() < 2 {
        0
    } else {
        holes(ticks.drop_last()) + if ticks.last().prev_seq != ticks[ticks.len() - 2].seq {
            1nat
        } else {
            0nat
        }
    }
}

/// Of a numbered feed each hole counts once, and the tick after a hole is compared to the tick
/// that revealed it: there are as many gaps as ticks that do not name the number of the tick
/// before, and the last number is that of the last tick.
pub proof fn gaps_are_the_holes(ticks: Seq<Tick>)
    requires
        numbered(ticks),
    ensures
        sequence_of(ticks) == (Some(ticks.last().seq), holes(ticks)),
    decreases ticks.len(),
{
    let short = ticks.drop_last();
    if ticks.len() == 1 {
        assert(sequence_of(short) == (None::<u64>, 0nat));
        assert(ticks.last() == ticks[0]);
    } else {
        assert forall|i: int| 0 < i < short.len() implies !(#[trigger] short[i]).is_snapshot
            && short[i].seq > 0 && short[i].prev_seq > 0 by {
            assert(short[i] == ticks[i]);
        }
        assert(short[0] == ticks[0]);
        gaps_are_the_holes(short);
        assert(short.last() == ticks[ticks.len() - 2]);
        assert(ticks.last() == ticks[ticks.len() - 1]);
    }
}

/// Counters that went over a numbered feed hold its holes and its last number.
pub proof fn counters_hold_the_holes(s: PerStream, ticks: Seq<Tick>)
    requires
        summarises(s, ticks),
        numbered(ticks),
    ensures
        s.seq_gaps == holes(ticks),
        s.last_seq == Some(ticks.last().seq),
{
    gaps_are_the_holes(ticks);
}

/// The sum of some numbers.
pub open spec fn total(row: Seq<u64>) -> nat
    decreases row.len(),
{
    if row.len() == 0 {
        0
    } else {
        total(row.drop_last()) + row.last() as nat
    }
}

/// Whether the clock of a recording never runs backwards.
pub open spec fn in_time(ticks: Seq<Tick>) -> bool {
    forall|i: int, j: int|
        0 <= i <= j < ticks.len() ==> (#[trigger] ticks[i]).recv_ns <= (#[trigger] ticks[j]).recv_ns
}

/// Where the clock never runs backwards, there is one interval between each pair of neighbours, it
/// is the time between them, and together the intervals span the recording.
pub proof fn intervals_span_the_recording(ticks: Seq<Tick>)
    requires
        ticks.len() > 0,
        in_time(ticks),
    ensures
        intervals_of(ticks).len() == ticks.len() - 1,
        forall|i: int|
            0 <= i < ticks.len() - 1 ==> #[trigger] intervals_of(ticks)[i] == ticks[i + 1].recv_ns
                - ticks[i].recv_ns,
        total(intervals_of(ticks)) == ticks.last().recv_ns - ticks[0].recv_ns,
    decreases ticks.len(),
{
    if ticks.len() > 1 {
        let short = ticks.drop_last();
        assert(in_time(short)) by {
            assert forall|i: int, j: int| 0 <= i <= j < short.len() implies (
            #[trigger] short[i]).recv_ns <= (#[trigger] short[j]).recv_ns by {
                assert(ticks[i] == short[i] && ticks[j] == short[j]);
            }
        }
        intervals_span_the_recording(short);
        assert(ticks[ticks.len() - 2].recv_ns <= ticks[ticks.len() - 1].recv_ns);
        let all = intervals_of(ticks);
        assert(all.drop_last() =~= intervals_of(short));
        assert forall|i: int| 0 <= i < ticks.len() - 1 implies #[trigger] all[i] == ticks[i
            + 1].recv_ns - ticks[i].recv_ns by {
            if i < ticks.len() - 2 {
                assert(all[i] == intervals_of(short)[i]);
                assert(short[i] == ticks[i] && short[i + 1] == ticks[i + 1]);
            }
        }
    }
}

/// Counters that went over a recording whose clock never runs backwards hold the time between each
/// pair of neighbours, and when the last tick was received.
pub proof fn counters_hold_the_intervals(s: PerStream, ticks: Seq<Tick>)
    requires
        summarises(s, ticks),
        ticks.len() > 0,
        in_time(ticks),
    ensures
        s.intervals_ns@.len() == ticks.len() - 1,
        forall|i: int|
            0 <= i < ticks.len() - 1 ==> #[trigger] s.intervals_ns@[i] == ticks[i + 1].recv_ns
                - ticks[i].recv_ns,
        total(s.intervals_ns@) == ticks.last().recv_ns - ticks[0].recv_ns,
        s.last_recv_ns == Some(ticks.last().recv_ns),
{
    intervals_span_the_recording(ticks);
}

// ---------------------------------------------------------------------------
// Arguments
// ---------------------------------------------------------------------------

/// Which recording to analyse, and which symbol of it; all of them where none is named.
pub struct Args {
    pub file: Option<String>,
    pub symbol_filter: Option<String>,
}

/// What the arguments say.
pub struct ArgsView {
    pub file: Option<Seq<char>>,
    pub symbol_filter: Option<Seq<char>>,
}

impl View for Args {
    type V = ArgsView;

    open spec fn view(&self) -> ArgsView {
        ArgsView {
            file: match self.file {
                Some(s) => Some(s@),
                None => None,
            },
            symbol_filter: match self.symbol_filter {
                Some(s) => Some(s@),
                None => None,
            },
        }
    }
}

/// What some arguments add to what was said before them. A flag that takes a value takes the
/// argument behind it, an argument that is no flag names the recording, and any other flag, or a
/// flag without its value, says nothing.
pub open spec fn said(rest: Seq<Seq<char>>, before: ArgsView) -> ArgsView
    decreases rest.len(),
{
    if rest.len() == 0 {
        before
    } else if rest.len() > 1 && rest[0] == "--symbol"@ {
        said(rest.skip(2), ArgsView { symbol_filter: Some(uppercase(rest[1])), ..before })
    } else if rest.len() > 1 && rest[0] == "--file"@ {
        said(rest.skip(2), ArgsView { file: Some(rest[1]), ..before })
    } else if !"--"@.is_prefix_of(rest[0]) {
        said(rest.skip(1), ArgsView { file: Some(rest[0]), ..before })
    } else {
        said(rest.skip(1), before)
    }
}

/// Whether `r` is what the arguments of the analyser say; the first names the program.
pub open spec fn are_args(argv: Seq<Seq<char>>, r: ArgsView) -> bool {
    r == if argv.len() == 0 {
        ArgsView { file: None, symbol_filter: None }
    } else {
        said(argv.skip(1), ArgsView { file: None, symbol_filter: None })
    }
}

/// Reads the arguments of the analyser; the first names the program.
pub fn parse_args(argv: &Vec<String>) -> (r: Args)
    ensures
        are_args(texts(argv@), r@),
{
    let ghost all = texts(argv@);
    let ghost nothing = ArgsView { file: None, symbol_filter: None };
    let mut file: Option<String> = None;
    let mut symbol_filter: Option<String> = None;
    let mut i: usize = 1;
    while i < argv.len()
        invariant
            1 <= i,
            argv.len() > 0 ==> i <= argv.len(),
            all == texts(argv@),
            argv.len() > 0 ==> said(all.skip(1), nothing) == said(
                all.skip(i as int),
                (Args { file, symbol_filter })@,
            ),
            argv.len() == 0 ==> file is None && symbol_filter is None,
        decreases argv.len() - i,
    {
        let ghost rest = all.skip(i as int);
        proof {
            assert(rest[0] == argv@[i as int]@);
            assert(rest.skip(1) =~= all.skip(i + 1));
            if rest.len() > 1 {
                assert(rest[1] == argv@[i + 1]@);
                assert(rest.skip(2) =~= all.skip(i + 2));
            }
            lemma_flags();
        }
        let arg: &str = argv[i].as_str();
        if same_text(arg, "--symbol") && argv.len() - i > 1 {
            symbol_filter = Some(to_uppercase(argv[i + 1].as_str()));
            i = i + 2;
        } else if same_text(arg, "--file") && argv.len() - i > 1 {
            file = Some(argv[i + 1].clone());
            i = i + 2;
        } else {
            if !starts_with(arg, "--") {
                file = Some(argv[i].clone());
            }
            i = i + 1;
        }
    }
    Args { file, symbol_filter }
}

proof fn lemma_flags()
    ensures
        "--symbol"@ != "--file"@,
{
    reveal_strlit("--symbol");
    reveal_strlit("--file");
    assert("--symbol"@.len() == 8);
    assert("--file"@.len() == 6);
}

/// An unknown flag in front of the other arguments changes nothing.
pub proof fn unknown_flags_say_nothing(flag: Seq<char>, rest: Seq<Seq<char>>, before: ArgsView)
    requires
        "--"@.is_prefix_of(flag),
        flag != "--symbol"@,
        flag != "--file"@,
    ensures
        said(seq![flag] + rest, before) == said(rest, before),
{
    let all = seq![flag] + rest;
    assert(all[0] == flag);
    assert(all.skip(1) =~= rest);
}

/// The last argument names the recording where neither it nor the one before it is a flag.
pub proof fn last_file_wins(rest: Seq<Seq<char>>, file: Seq<char>, before: ArgsView)
    requires
        !"--"@.is_prefix_of(file),
        rest.len() == 0 || !"--"@.is_prefix_of(rest.last()),
    ensures
        said(rest.push(file), before).file == Some(file),
    decreases rest.len(),
{
    reveal_with_fuel(said, 2);
    let all = rest.push(file);
    if rest.len() > 0 {
        assert(all[0] == rest[0]);
        if rest.len() == 1 {
            reveal_strlit("--");
            reveal_strlit("--symbol");
            reveal_strlit("--file");
            assert("--"@.is_prefix_of("--symbol"@)) by {
                assert("--symbol"@.take(2) =~= "--"@);
            }
            assert("--"@.is_prefix_of("--file"@)) by {
                assert("--file"@.take(2) =~= "--"@);
            }
            assert(rest[0] == rest.last());
            assert(all.skip(1) =~= seq![file]);
            last_file_wins(
                Seq::empty(),
                file,
                (ArgsView { file: Some(rest[0]), ..before }),
            );
            assert(Seq::<Seq<char>>::empty().push(file) =~= seq![file]);
        } else {
            assert(all.skip(1) =~= rest.skip(1).push(file));
            assert(all.skip(2) =~= rest.skip(2).push(file));
            let next = if all[0] == "--symbol"@ {
                (ArgsView { symbol_filter: Some(uppercase(all[1])), ..before })
            } else if all[0] == "--file"@ {
                (ArgsView { file: Some(all[1]), ..before })
            } else if !"--"@.is_prefix_of(all[0]) {
                (ArgsView { file: Some(all[0]), ..before })
            } else {
                before
            };
            if all[0] == "--symbol"@ || all[0] == "--file"@ {
                if rest.len() > 2 {
                    assert(rest.skip(2).last() == rest.last());
                }
                last_file_wins(rest.skip(2), file, next);
            } else {
                assert(rest.skip(1).last() == rest.last());
                last_file_wins(rest.skip(1), file, next);
            }
        }
    } else {
        assert(all.skip(1) =~= Seq::<Seq<char>>::empty());
        assert(all[0] == file);
    }
}

} // verus!
