//! What a replay is made of: which ticks it takes, in which order, and against which books.

use vstd::prelude::*;

use crate::arithmetic::Answers;
use crate::evaluations::{gathered, is_replay, ticks_of_symbol, SymbolLog};
use crate::spread_replay::{
    describes, is_of, line_taken, pairs, pairs_are_the_latest_books, places, receptions,
    unpaired_ticks_come_first, Pairing, Recording,
};
use crate::text::{before, before_is_total, texts};
use crate::tick::{Tick, Venue};
use crate::trades::{are_evaluations, Eval, Terms};

verus! {

/// A line adds its tick to the recording, behind the others, where it is not empty, the tick's venue
/// is one of the two, and its symbol was asked for or none was; else it changes nothing.
pub proof fn line_adds_its_tick(
    old_recording: Recording,
    new_recording: Recording,
    line: Seq<char>,
    parsed: Option<Tick>,
    filter: Option<Vec<String>>,
)
    requires
        line_taken(old_recording, new_recording, line, parsed, filter),
    ensures
        parsed matches Some(t) ==> {
            let venue = t.exchange@ == "lighter"@ || t.exchange@ == "hyperliquid"@;
            let asked_for = filter is None || exists|i: int|
                0 <= i < filter->0@.len() && (#[trigger] filter->0@[i])@ == t.symbol@;
            &&& line.len() > 0 && venue && asked_for ==> new_recording.ticks@ == old_recording.ticks@.push(t)
            &&& !(line.len() > 0 && venue && asked_for) ==> new_recording == old_recording
        },
        parsed is None ==> new_recording == old_recording,
{
    if let (Some(t), Some(list)) = (parsed, filter) {
        if texts(list@).contains(t.symbol@) {
            let i = choose|i: int| 0 <= i < texts(list@).len() && texts(list@)[i] == t.symbol@;
            assert(filter->0@[i]@ == t.symbol@);
        }
        if exists|i: int| 0 <= i < filter->0@.len() && (#[trigger] filter->0@[i])@ == t.symbol@ {
            let i = choose|i: int|
                0 <= i < filter->0@.len() && (#[trigger] filter->0@[i])@ == t.symbol@;
            assert(texts(list@)[i] == t.symbol@);
        }
    }
}

/// A replay takes each tick of the recording once, in the order in which they were received, and
/// ticks of one moment as they stand.
pub proof fn replay_takes_ticks_in_the_order_of_reception(
    f: Answers,
    recording: Recording,
    terms: Terms,
    order: Seq<usize>,
    pairings: Seq<Pairing>,
    parts: Seq<Seq<Eval>>,
    logs: Seq<SymbolLog>,
)
    requires
        is_replay(f, recording, terms, order, pairings, parts, logs),
    ensures
        recording.row(order).len() == recording.ticks@.len(),
        order.len() == recording.ticks@.len(),
        order.no_duplicates(),
        forall|i: int|
            0 <= i < order.len() ==> (#[trigger] order[i]) < recording.ticks@.len()
                && recording.row(order)[i] == recording.ticks@[order[i] as int],
        forall|i: int, j: int|
            0 <= i < j < order.len() ==> {
                let a = recording.ticks@[(#[trigger] order[i]) as int].recv_ns;
                let b = recording.ticks@[(#[trigger] order[j]) as int].recv_ns;
                a < b || (a == b && order[i] < order[j])
            },
{
    let keys = receptions(recording.ticks@);
    assert forall|i: int, j: int| 0 <= i < j < order.len() implies {
        let a = recording.ticks@[(#[trigger] order[i]) as int].recv_ns;
        let b = recording.ticks@[(#[trigger] order[j]) as int].recv_ns;
        a < b || (a == b && order[i] < order[j])
    } by {
        assert(keys[order[i] as int] == recording.ticks@[order[i] as int].recv_ns as i128);
        assert(keys[order[j] as int] == recording.ticks@[order[j] as int].recv_ns as i128);
        assert(order[i] != order[j]);
    }
}

/// Whether two ticks are of the two venues, and of one symbol.
pub open spec fn stand_against_each_other(a: Tick, b: Tick) -> bool {
    &&& a.symbol@ == b.symbol@
    &&& (a.exchange@ == "lighter"@ && b.exchange@ == "hyperliquid"@) || (a.exchange@
        == "hyperliquid"@ && b.exchange@ == "lighter"@)
}

proof fn lemma_against(a: Tick, b: Tick)
    requires
        Venue::of(a.exchange@) is Some,
    ensures
        is_of(b, Venue::of(a.exchange@)->0.opposite(), a.symbol@) <==> stand_against_each_other(
            a,
            b,
        ),
{
    reveal_strlit("lighter");
    reveal_strlit("hyperliquid");
    assert("lighter"@.len() != "hyperliquid"@.len());
}

/// Each evaluation of a replay is of a tick against the latest book of the same symbol on the other
/// venue: the one that was received last before it. The age of that book is the time from its
/// reception to that of the tick, in milliseconds, and zero where the clock ran backwards.
pub proof fn replay_evaluates_against_the_latest_book(
    f: Answers,
    recording: Recording,
    terms: Terms,
    order: Seq<usize>,
    pairings: Seq<Pairing>,
    parts: Seq<Seq<Eval>>,
    logs: Seq<SymbolLog>,
    i: int,
)
    requires
        recording.wf(),
        is_replay(f, recording, terms, order, pairings, parts, logs),
        0 <= i < pairings.len(),
    ensures
        ({
            let row = recording.row(order);
            let k = pairings[i].tick as int;
            let p = pairings[i].other as int;
            &&& 0 <= p < k < row.len()
            &&& stand_against_each_other(row[k], row[p])
            &&& forall|q: int| p < q < k ==> !stand_against_each_other(row[k], #[trigger] row[q])
            &&& pairings[i].age_other_ms == if row[k].recv_ms >= row[p].recv_ms {
                row[k].recv_ms - row[p].recv_ms
            } else {
                0
            }
            &&& parts.len() == pairings.len()
            &&& are_evaluations(
                f,
                row[k],
                row[p],
                pairings[i].age_other_ms,
                terms,
                parts[i],
            )
        }),
{
    let row = recording.row(order);
    let k = pairings[i].tick as int;
    let p = pairings[i].other as int;
    assert(places(pairings)[i] == (k, p));
    assert(describes(pairings[i], row, texts(recording.symbols@)));
    pairs_are_the_latest_books(recording.ticks@, order, i);
    assert(pairs(row)[i] == (k, p));
    assert(row[k] == recording.ticks@[order[k] as int]);
    lemma_against(row[k], row[p]);
    assert forall|q: int| p < q < k implies !stand_against_each_other(
        row[k],
        #[trigger] row[q],
    ) by {
        lemma_against(row[k], row[q]);
    }
    let here = parts[i];
}

/// Every tick that has a book against it before it is evaluated, once, and in order; the others are
/// not.
pub proof fn replay_evaluates_every_tick_with_a_book(
    f: Answers,
    recording: Recording,
    terms: Terms,
    order: Seq<usize>,
    pairings: Seq<Pairing>,
    parts: Seq<Seq<Eval>>,
    logs: Seq<SymbolLog>,
    k: int,
)
    requires
        recording.wf(),
        is_replay(f, recording, terms, order, pairings, parts, logs),
        0 <= k < recording.ticks@.len(),
    ensures
        (exists|i: int| 0 <= i < pairings.len() && (#[trigger] pairings[i]).tick == k) <==> exists|
            q: int,
        |
            0 <= q < k && stand_against_each_other(
                recording.row(order)[k],
                #[trigger] recording.row(order)[q],
            ),
        forall|i: int, j: int|
            0 <= i < j < pairings.len() ==> (#[trigger] pairings[i]).tick < (
            #[trigger] pairings[j]).tick,
{
    let row = recording.row(order);
    assert(row[k] == recording.ticks@[order[k] as int]);
    if exists|i: int| 0 <= i < pairings.len() && (#[trigger] pairings[i]).tick == k {
        let i = choose|i: int| 0 <= i < pairings.len() && (#[trigger] pairings[i]).tick == k;
        replay_evaluates_against_the_latest_book(
            f,
            recording,
            terms,
            order,
            pairings,
            parts,
            logs,
            i,
        );
        assert(stand_against_each_other(row[k], row[pairings[i].other as int]));
    } else {
        assert forall|i: int| 0 <= i < pairs(row).len() implies (#[trigger] pairs(row)[i]).0 != k by {
            assert(places(pairings)[i] == (pairings[i].tick as int, pairings[i].other as int));
        }
        unpaired_ticks_come_first(recording.ticks@, order, k);
        assert forall|q: int| 0 <= q < k implies !stand_against_each_other(
            row[k],
            #[trigger] row[q],
        ) by {
            lemma_against(row[k], row[q]);
        }
    }
    assert forall|i: int, j: int| 0 <= i < j < pairings.len() implies (
    #[trigger] pairings[i]).tick < (#[trigger] pairings[j]).tick by {
        assert(places(pairings)[i] == (pairings[i].tick as int, pairings[i].other as int));
        assert(places(pairings)[j] == (pairings[j].tick as int, pairings[j].other as int));
        lemma_pairs_climb(row, i, j);
    }
}

proof fn lemma_pairs_below(row: Seq<Tick>, i: int)
    requires
        0 <= i < pairs(row).len(),
    ensures
        pairs(row)[i].0 < row.len(),
    decreases row.len(),
{
    if i < pairs(row.drop_last()).len() {
        lemma_pairs_below(row.drop_last(), i);
    }
}

proof fn lemma_pairs_climb(row: Seq<Tick>, i: int, j: int)
    requires
        0 <= i < j < pairs(row).len(),
    ensures
        pairs(row)[i].0 < pairs(row)[j].0,
    decreases row.len(),
{
    let head = pairs(row.drop_last());
    if j < head.len() {
        lemma_pairs_climb(row.drop_last(), i, j);
    } else {
        lemma_pairs_below(row.drop_last(), i);
    }
}

/// The evaluations of the ticks of a symbol, one tick behind the other.
pub open spec fn evaluations_of(
    row: Seq<Tick>,
    pairings: Seq<Pairing>,
    parts: Seq<Seq<Eval>>,
    symbol: Seq<char>,
) -> Seq<Eval>
    decreases pairings.len(),
{
    if pairings.len() == 0 {
        Seq::empty()
    } else {
        let head = evaluations_of(row, pairings.drop_last(), parts.drop_last(), symbol);
        if row[pairings.last().tick as int].symbol@ == symbol {
            head + parts.last()
        } else {
            head
        }
    }
}

/// A replay has one log for each symbol of the recording, in the order of the symbols. It counts the
/// ticks of the symbol, and holds their evaluations, one tick behind the other.
pub proof fn each_symbol_has_its_log(
    f: Answers,
    recording: Recording,
    terms: Terms,
    order: Seq<usize>,
    pairings: Seq<Pairing>,
    parts: Seq<Seq<Eval>>,
    logs: Seq<SymbolLog>,
    t: int,
    s: int,
)
    requires
        recording.wf(),
        is_replay(f, recording, terms, order, pairings, parts, logs),
    ensures
        0 <= t < recording.ticks@.len() ==> exists|k: int|
            0 <= k < logs.len() && (#[trigger] logs[k]).symbol@ == recording.ticks@[t].symbol@,
        forall|k: int, m: int|
            0 <= k < m < logs.len() ==> before(
                (#[trigger] logs[k]).symbol@,
                (#[trigger] logs[m]).symbol@,
            ),
        0 <= s < logs.len() ==> logs[s].ticks == recording.ticks@.filter(
            |x: Tick| x.symbol@ == logs[s].symbol@,
        ).len() && logs[s].evals@ == evaluations_of(
            recording.row(order),
            pairings,
            parts,
            logs[s].symbol@,
        ),
{
    let symbols = texts(recording.symbols@);
    if 0 <= t < recording.ticks@.len() {
        let symbol = recording.ticks@[t].symbol@;
        assert(crate::spread_replay::symbol_seen(recording.ticks@, symbol));
        assert(symbols.contains(symbol));
        let k = choose|k: int| 0 <= k < symbols.len() && symbols[k] == symbol;
        assert(logs[k].symbol@ == symbol);
    }
    assert forall|k: int, m: int| 0 <= k < m < logs.len() implies before(
        (#[trigger] logs[k]).symbol@,
        (#[trigger] logs[m]).symbol@,
    ) by {
        assert(before(symbols[k], symbols[m]));
    }
    if 0 <= s < logs.len() {
        let log = logs[s];
        assert(log.symbol@ == symbols[s]);
        assert(ticks_of_symbol(recording.ticks@, symbols[s]) == recording.ticks@.filter(
            |x: Tick| x.symbol@ == logs[s].symbol@,
        )) by {
            lemma_same_filter(
                recording.ticks@,
                |x: Tick| x.symbol@ == symbols[s],
                |x: Tick| x.symbol@ == logs[s].symbol@,
            );
        }
        assert forall|i: int| 0 <= i < pairings.len() implies (pairings[i].symbol == s
            <==> recording.row(order)[(#[trigger] pairings[i]).tick as int].symbol@ == symbols[s])
            by {
            assert(describes(pairings[i], recording.row(order), symbols));
            let m = pairings[i].symbol as int;
            if m < s {
                before_is_total(symbols[m], symbols[s]);
            } else if s < m {
                before_is_total(symbols[s], symbols[m]);
            }
        }
        lemma_gathered(recording.row(order), pairings, parts, s, symbols[s]);
    }
}

proof fn lemma_same_filter(ticks: Seq<Tick>, f: spec_fn(Tick) -> bool, g: spec_fn(Tick) -> bool)
    requires
        forall|t: Tick| #[trigger] f(t) == g(t),
    ensures
        ticks.filter(f) == ticks.filter(g),
    decreases ticks.len(),
{
    reveal(Seq::filter);
    if ticks.len() > 0 {
        lemma_same_filter(ticks.drop_last(), f, g);
        assert(f(ticks.last()) == g(ticks.last()));
    }
}

proof fn lemma_gathered(
    row: Seq<Tick>,
    pairings: Seq<Pairing>,
    parts: Seq<Seq<Eval>>,
    s: int,
    symbol: Seq<char>,
)
    requires
        parts.len() == pairings.len(),
        forall|i: int|
            0 <= i < pairings.len() ==> (pairings[i].symbol == s <==> row[(
            #[trigger] pairings[i]).tick as int].symbol@ == symbol),
    ensures
        gathered(pairings, parts, s) == evaluations_of(row, pairings, parts, symbol),
    decreases pairings.len(),
{
    if pairings.len() > 0 {
        let short = pairings.drop_last();
        assert forall|i: int| 0 <= i < short.len() implies (short[i].symbol == s <==> row[(
        #[trigger] short[i]).tick as int].symbol@ == symbol) by {
            assert(short[i] == pairings[i]);
        }
        lemma_gathered(row, short, parts.drop_last(), s, symbol);
        assert(pairings[pairings.len() - 1] == pairings.last());
    }
}

} // verus!
