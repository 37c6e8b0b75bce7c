//! What the counters of a feed say of its history: of its parts, and of the messages it lost.

use vstd::prelude::*;

use crate::feed_analyzer::{
    ask_levels, bid_levels, first_reception, gaps_are_the_holes, holes, ingested, intervals_of,
    latencies_of, numbered, sequence_of, summarises, PerStream,
};
use crate::tick::Tick;

verus! {

/// Over one more tick the gaps stay or grow by one, and over a snapshot they stay. They grow where
/// a delta that carries both of its numbers names another number than the last one seen.
pub proof fn gaps_never_fall(before: PerStream, t: Tick, after: PerStream)
    requires
        ingested(before, t, after),
    ensures
        before.seq_gaps <= after.seq_gaps <= before.seq_gaps + 1,
        t.is_snapshot ==> after.seq_gaps == before.seq_gaps,
        after.seq_gaps == before.seq_gaps + 1 <==> !t.is_snapshot && t.seq > 0 && t.prev_seq > 0
            && before.last_seq is Some && before.last_seq->0 != t.prev_seq,
        t.is_snapshot && t.seq == 0 ==> after.last_seq is None,
        t.seq > 0 && (t.is_snapshot || t.prev_seq > 0) ==> after.last_seq == Some(t.seq),
        !t.is_snapshot && (t.seq == 0 || t.prev_seq == 0) ==> after.last_seq == before.last_seq,
{
}

/// A snapshot parts a feed: the gaps of what comes before it and of what it begins add up, and the
/// last number is that of the second part.
pub proof fn snapshot_parts_the_sequence(a: Seq<Tick>, b: Seq<Tick>)
    requires
        b.len() > 0,
        b[0].is_snapshot,
    ensures
        sequence_of(a + b).1 == sequence_of(a).1 + sequence_of(b).1,
        sequence_of(a + b).0 == sequence_of(b).0,
    decreases b.len(),
{
    let all = a + b;
    assert(all.drop_last() =~= a + b.drop_last());
    assert(all.last() == b.last());
    if b.len() == 1 {
        assert(a + b.drop_last() =~= a);
        assert(b.last() == b[0]);
        assert(sequence_of(b.drop_last()) == (None::<u64>, 0nat));
    } else {
        assert(b.drop_last()[0] == b[0]);
        snapshot_parts_the_sequence(a, b.drop_last());
    }
}

/// The ticks of some runs, one run behind the other.
pub open spec fn in_a_row(runs: Seq<Seq<Tick>>) -> Seq<Tick>
    decreases runs.len(),
{
    if runs.len() == 0 {
        Seq::empty()
    } else {
        in_a_row(runs.drop_last()) + runs.last()
    }
}

/// The holes of some runs in all.
pub open spec fn holes_in_all(runs: Seq<Seq<Tick>>) -> nat
    decreases runs.len(),
{
    if runs.len() == 0 {
        0
    } else {
        holes_in_all(runs.drop_last()) + holes(runs.last())
    }
}

/// Of a feed that is made of numbered runs, each begun by a snapshot, the gaps are the holes of all
/// the runs.
pub proof fn gaps_are_the_holes_of_all_runs(s: PerStream, runs: Seq<Seq<Tick>>)
    requires
        summarises(s, in_a_row(runs)),
        forall|i: int| 0 <= i < runs.len() ==> numbered(#[trigger] runs[i]),
    ensures
        s.seq_gaps == holes_in_all(runs),
        runs.len() > 0 ==> s.last_seq == Some(runs.last().last().seq),
{
    lemma_runs(runs);
}

proof fn lemma_runs(runs: Seq<Seq<Tick>>)
    requires
        forall|i: int| 0 <= i < runs.len() ==> numbered(#[trigger] runs[i]),
    ensures
        sequence_of(in_a_row(runs)).1 == holes_in_all(runs),
        runs.len() > 0 ==> sequence_of(in_a_row(runs)).0 == Some(runs.last().last().seq),
    decreases runs.len(),
{
    if runs.len() > 0 {
        let short = runs.drop_last();
        assert forall|i: int| 0 <= i < short.len() implies numbered(#[trigger] short[i]) by {
            assert(short[i] == runs[i]);
        }
        lemma_runs(short);
        assert(numbered(runs[runs.len() - 1]));
        snapshot_parts_the_sequence(in_a_row(short), runs.last());
        gaps_are_the_holes(runs.last());
    }
}

/// What the counters say of a feed of one tick.
pub proof fn one_tick_is_counted(s: PerStream, t: Tick)
    requires
        summarises(s, seq![t]),
    ensures
        s.count == 1,
        s.snapshots == if t.is_snapshot {
            1int
        } else {
            0int
        },
        s.first_recv_ms == t.recv_ms,
        s.last_recv_ms == t.recv_ms,
        s.last_recv_ns == Some(t.recv_ns),
        s.intervals_ns@.len() == 0,
        t.server_ms == 0 ==> s.latencies_ms@.len() == 0,
        0 < t.server_ms <= i64::MAX && t.recv_ms <= i64::MAX ==> s.latencies_ms@.len() == 1
            && s.latencies_ms@[0] == t.recv_ms - t.server_ms,
        s.seq_gaps == 0,
        s.bids_depth_sum == t.bids@.len(),
        s.asks_depth_sum == t.asks@.len(),
{
    reveal(Seq::filter);
    let one = seq![t];
    assert(one.drop_last() =~= Seq::empty());
    assert(one.drop_first() =~= Seq::empty());
    assert(one.last() == t);
    let snap = |x: Tick| x.is_snapshot;
    let dated = |x: Tick| x.server_ms > 0;
    assert(Seq::<Tick>::empty().filter(snap).len() == 0);
    assert(Seq::<Tick>::empty().filter(dated).len() == 0);
    assert(one.filter(dated) =~= if t.server_ms > 0 {
        seq![t]
    } else {
        Seq::empty()
    });
    reveal_with_fuel(sequence_of, 2);
    reveal_with_fuel(bid_levels, 2);
    reveal_with_fuel(ask_levels, 2);
    reveal_with_fuel(first_reception, 2);
}

proof fn lemma_levels(a: Seq<Tick>, b: Seq<Tick>)
    ensures
        bid_levels(a + b) == bid_levels(a) + bid_levels(b),
        ask_levels(a + b) == ask_levels(a) + ask_levels(b),
    decreases b.len(),
{
    if b.len() == 0 {
        assert(a + b =~= a);
    } else {
        assert((a + b).drop_last() =~= a + b.drop_last());
        lemma_levels(a, b.drop_last());
    }
}

proof fn lemma_first(a: Seq<Tick>, b: Seq<Tick>)
    ensures
        first_reception(a + b) == if first_reception(a) != 0 {
            first_reception(a)
        } else {
            first_reception(b)
        },
    decreases a.len(),
{
    if a.len() == 0 {
        assert(a + b =~= b);
    } else {
        assert((a + b).drop_first() =~= a.drop_first() + b);
        assert((a + b)[0] == a[0]);
        lemma_first(a.drop_first(), b);
    }
}

/// The time between two neighbours, where it does not run backwards.
pub open spec fn step_between(from: Tick, to: Tick) -> Seq<u64> {
    if to.recv_ns >= from.recv_ns {
        seq![(to.recv_ns - from.recv_ns) as u64]
    } else {
        Seq::empty()
    }
}

proof fn lemma_intervals(a: Seq<Tick>, b: Seq<Tick>)
    ensures
        intervals_of(a + b) == if a.len() == 0 {
            intervals_of(b)
        } else if b.len() == 0 {
            intervals_of(a)
        } else {
            intervals_of(a) + step_between(a.last(), b[0]) + intervals_of(b)
        },
    decreases b.len(),
{
    let all = a + b;
    if a.len() == 0 {
        assert(all =~= b);
    } else if b.len() == 0 {
        assert(all =~= a);
    } else {
        let short = b.drop_last();
        assert(all.drop_last() =~= a + short);
        assert(all.last() == b.last());
        lemma_intervals(a, short);
        if b.len() == 1 {
            assert(a + short =~= a);
            assert(all[all.len() - 2] == a.last());
            assert(b[0] == b.last());
            assert(intervals_of(all) =~= intervals_of(a) + step_between(a.last(), b[0])
                + intervals_of(b));
        } else {
            assert(all[all.len() - 2] == b[b.len() - 2]);
            assert(short[0] == b[0]);
            assert(intervals_of(all) =~= intervals_of(a) + step_between(a.last(), b[0])
                + intervals_of(b));
        }
    }
}

/// The counters of a feed are made up of those of its parts: counts and levels add up, latencies
/// and intervals follow each other, with the time between the parts in between, the first reception
/// is that of the first part and the last one that of the second.
pub proof fn parts_of_a_feed_add_up(
    s: PerStream,
    a: Seq<Tick>,
    s_a: PerStream,
    b: Seq<Tick>,
    s_b: PerStream,
)
    requires
        summarises(s, a + b),
        summarises(s_a, a),
        summarises(s_b, b),
    ensures
        s.count == s_a.count + s_b.count,
        s.snapshots == s_a.snapshots + s_b.snapshots,
        s.first_recv_ms == if s_a.first_recv_ms != 0 {
            s_a.first_recv_ms
        } else {
            s_b.first_recv_ms
        },
        s.last_recv_ms == if b.len() > 0 {
            s_b.last_recv_ms
        } else {
            s_a.last_recv_ms
        },
        s.last_recv_ns == if b.len() > 0 {
            s_b.last_recv_ns
        } else {
            s_a.last_recv_ns
        },
        s.latencies_ms@ == s_a.latencies_ms@ + s_b.latencies_ms@,
        a.len() > 0 && b.len() > 0 ==> s.intervals_ns@ == s_a.intervals_ns@ + step_between(
            a.last(),
            b[0],
        ) + s_b.intervals_ns@,
        s.bids_depth_sum == s_a.bids_depth_sum + s_b.bids_depth_sum,
        s.asks_depth_sum == s_a.asks_depth_sum + s_b.asks_depth_sum,
        b.len() > 0 && b[0].is_snapshot ==> s.seq_gaps == s_a.seq_gaps + s_b.seq_gaps && s.last_seq
            == s_b.last_seq,
{
    Seq::filter_distributes_over_add(a, b, |t: Tick| t.is_snapshot);
    Seq::filter_distributes_over_add(a, b, |t: Tick| t.server_ms > 0);
    let dated = |t: Tick| t.server_ms > 0;
    assert(latencies_of(a + b) =~= latencies_of(a) + latencies_of(b));
    lemma_levels(a, b);
    lemma_first(a, b);
    lemma_intervals(a, b);
    if b.len() > 0 {
        assert((a + b).last() == b.last());
        if b[0].is_snapshot {
            snapshot_parts_the_sequence(a, b);
        }
    } else {
        assert(a + b =~= a);
    }
}

} // verus!
