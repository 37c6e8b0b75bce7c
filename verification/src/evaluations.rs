//! The evaluations of a replay, and what the report says of them.

use vstd::prelude::*;
use vstd::string::*;

use crate::arithmetic::{
    answers_of, is_percentage, is_settled, is_total, percentage, Answers, Op,
};
use crate::double::{Double, FIVE_BITS, INFINITY_BITS, SIGN_BIT, TEN_BITS};
use crate::percentile::{percentile, position, positions_climb, P50_BITS, P95_BITS, P99_BITS};
use crate::sorting::{
    is_sorted_row, sorted_doubles, sorted_row_rises, stable_order, stable_order_is_unique,
};
use crate::spread_replay::{
    describes, pairs, places, receptions, time_order, Direction, Pairing, Recording,
};
use crate::text::{same_text, texts};
use crate::tick::{Tick, Venue};
use crate::trades::{are_evaluations, evaluate, evaluations_are_settled, Eval, Terms};

verus! {

/// What the replay holds of a symbol: how many ticks there were, and the evaluations in order.
pub struct SymbolLog {
    pub symbol: String,
    pub ticks: u64,
    pub evals: Vec<Eval>,
}

/// The ticks of a symbol.
pub open spec fn ticks_of_symbol(ticks: Seq<Tick>, symbol: Seq<char>) -> Seq<Tick> {
    ticks.filter(|t: Tick| t.symbol@ == symbol)
}

fn count_ticks(ticks: &Vec<Tick>, symbol: &str) -> (r: u64)
    ensures
        r == ticks_of_symbol(ticks@, symbol@).len(),
{
    let ghost wanted = |t: Tick| t.symbol@ == symbol@;
    let mut n: u64 = 0;
    let mut i: usize = 0;
    proof {
        reveal(Seq::filter);
        assert(ticks@.take(0).filter(wanted).len() == 0);
    }
    while i < ticks.len()
        invariant
            i <= ticks.len(),
            wanted == |t: Tick| t.symbol@ == symbol@,
            n == ticks@.take(i as int).filter(wanted).len(),
            n <= i,
        decreases ticks.len() - i,
    {
        proof {
            reveal(Seq::filter);
            assert(ticks@.take(i + 1).drop_last() =~= ticks@.take(i as int));
        }
        if same_text(ticks[i].symbol.as_str(), symbol) {
            n = n + 1;
        }
        i = i + 1;
    }
    proof {
        assert(ticks@.take(i as int) =~= ticks@);
    }
    n
}

impl Recording {
    /// A log without evaluations for each symbol, in the order of the symbols.
    pub fn logs(&self) -> (r: Vec<SymbolLog>)
        ensures
            r.len() == self.symbols.len(),
            forall|s: int|
                0 <= s < r.len() ==> (#[trigger] r@[s]).symbol@ == texts(self.symbols@)[s]
                    && r@[s].ticks == ticks_of_symbol(
                    self.ticks@,
                    texts(self.symbols@)[s],
                ).len() && r@[s].evals@.len() == 0,
    {
        let mut r: Vec<SymbolLog> = Vec::new();
        let mut s: usize = 0;
        while s < self.symbols.len()
            invariant
                s <= self.symbols.len(),
                r.len() == s,
                forall|k: int|
                    0 <= k < s ==> (#[trigger] r@[k]).symbol@ == texts(self.symbols@)[k]
                        && r@[k].ticks == ticks_of_symbol(
                        self.ticks@,
                        texts(self.symbols@)[k],
                    ).len() && r@[k].evals@.len() == 0,
            decreases self.symbols.len() - s,
        {
            let symbol: String = self.symbols[s].clone();
            let ticks: u64 = count_ticks(&self.ticks, symbol.as_str());
            r.push(SymbolLog { symbol, ticks, evals: Vec::new() });
            s = s + 1;
        }
        r
    }
}

/// Whether each of some rows evaluates the pairing at its place.
pub open spec fn evaluate_pairings(
    f: Answers,
    row: Seq<Tick>,
    pairings: Seq<Pairing>,
    terms: Terms,
    parts: Seq<Seq<Eval>>,
) -> bool {
    &&& parts.len() == pairings.len()
    &&& forall|i: int|
        0 <= i < parts.len() ==> are_evaluations(
            f,
            row[pairings[i].tick as int],
            row[pairings[i].other as int],
            pairings[i].age_other_ms,
            terms,
            #[trigger] parts[i],
        )
}

/// The evaluations of the pairings of a symbol, one after the other.
pub open spec fn gathered(
    pairings: Seq<Pairing>,
    parts: Seq<Seq<Eval>>,
    symbol: int,
) -> Seq<Eval>
    decreases pairings.len(),
{
    if pairings.len() == 0 {
        Seq::empty()
    } else {
        let head = gathered(pairings.drop_last(), parts.drop_last(), symbol);
        if pairings.last().symbol == symbol {
            head + parts.last()
        } else {
            head
        }
    }
}

/// Whether `logs` is the replay of a recording: its ticks are taken in the order in which they
/// were received, each is paired with the latest book of the other venue and evaluated against
/// it, and every symbol holds its evaluations in that order.
pub open spec fn is_replay(
    f: Answers,
    recording: Recording,
    terms: Terms,
    order: Seq<usize>,
    pairings: Seq<Pairing>,
    parts: Seq<Seq<Eval>>,
    logs: Seq<SymbolLog>,
) -> bool {
    let row = recording.row(order);
    let symbols = texts(recording.symbols@);
    &&& stable_order(order, receptions(recording.ticks@))
    &&& places(pairings) == pairs(row)
    &&& forall|i: int| 0 <= i < pairings.len() ==> describes(#[trigger] pairings[i], row, symbols)
    &&& evaluate_pairings(f, row, pairings, terms, parts)
    &&& logs.len() == symbols.len()
    &&& forall|s: int|
        0 <= s < logs.len() ==> {
            &&& (#[trigger] logs[s]).symbol@ == symbols[s]
            &&& logs[s].ticks == ticks_of_symbol(recording.ticks@, symbols[s]).len()
            &&& logs[s].evals@ == gathered(pairings, parts, s)
        }
}

fn add_all(evals: &mut Vec<Eval>, more: &Vec<Eval>)
    ensures
        final(evals)@ == old(evals)@ + more@,
{
    let ghost start = evals@;
    let mut i: usize = 0;
    proof {
        assert(evals@ =~= start + more@.take(0));
    }
    while i < more.len()
        invariant
            i <= more.len(),
            evals@ == start + more@.take(i as int),
        decreases more.len() - i,
    {
        evals.push(more[i]);
        proof {
            assert(evals@ =~= start + more@.take(i + 1));
        }
        i = i + 1;
    }
    proof {
        assert(more@.take(i as int) =~= more@);
    }
}

proof fn lemma_pairs_in_row(row: Seq<Tick>, i: int)
    requires
        0 <= i < pairs(row).len(),
    ensures
        0 <= pairs(row)[i].0 < row.len(),
        0 <= pairs(row)[i].1 < row.len(),
    decreases row.len(),
{
    let head = row.drop_last();
    if i < pairs(head).len() {
        lemma_pairs_in_row(head, i);
    } else {
        crate::spread_replay::latest_is_the_last_one(
            row,
            Venue::of(row.last().exchange@)->0.opposite(),
            row.last().symbol@,
        );
    }
}

impl Recording {
    /// Replays the recording.
    pub fn replay<F: Fn(Op, Double, Double) -> Double>(&self, f: &F, terms: Terms) -> (r: Vec<
        SymbolLog,
    >)
        requires
            self.wf(),
            is_total(*f),
        ensures
            exists|order: Seq<usize>, pairings: Seq<Pairing>, parts: Seq<Seq<Eval>>| #[trigger]
                is_replay(answers_of(*f), *self, terms, order, pairings, parts, r@),
    {
        let order: Vec<usize> = time_order(&self.ticks);
        let pairings: Vec<Pairing> = self.pairings(&order);
        let mut r: Vec<SymbolLog> = self.logs();
        let ghost row = self.row(order@);
        let ghost symbols = texts(self.symbols@);
        let ghost mut parts: Seq<Seq<Eval>> = Seq::empty();
        let mut i: usize = 0;
        proof {
            assert(forall|s: int| 0 <= s < r.len() ==> (#[trigger] r@[s]).evals@ =~= gathered(
                pairings@.take(0),
                parts,
                s,
            ));
        }
        while i < pairings.len()
            invariant
                i <= pairings.len(),
                is_total(*f),
                row == self.row(order@),
                symbols == texts(self.symbols@),
                stable_order(order@, receptions(self.ticks@)),
                places(pairings@) == pairs(row),
                forall|k: int|
                    0 <= k < pairings.len() ==> describes(#[trigger] pairings@[k], row, symbols),
                evaluate_pairings(answers_of(*f), row, pairings@.take(i as int), terms, parts),
                r.len() == symbols.len(),
                forall|s: int|
                    0 <= s < r.len() ==> {
                        &&& (#[trigger] r@[s]).symbol@ == symbols[s]
                        &&& r@[s].ticks == ticks_of_symbol(self.ticks@, symbols[s]).len()
                        &&& r@[s].evals@ == gathered(pairings@.take(i as int), parts, s)
                    },
            decreases pairings.len() - i,
        {
            let p: Pairing = pairings[i];
            proof {
                assert(describes(pairings@[i as int], row, symbols));
                assert(places(pairings@)[i as int] == (p.tick as int, p.other as int));
                lemma_pairs_in_row(row, i as int);
                assert(row[p.tick as int] == self.ticks@[order@[p.tick as int] as int]);
                assert(row[p.other as int] == self.ticks@[order@[p.other as int] as int]);
            }
            let evals: Vec<Eval> = evaluate(
                f,
                &self.ticks[order[p.tick]],
                &self.ticks[order[p.other]],
                p.age_other_ms,
                terms,
            );
            let ghost before = r@;
            add_all(&mut r[p.symbol].evals, &evals);
            proof {
                let short = pairings@.take(i as int);
                let more = pairings@.take(i + 1);
                let longer = parts.push(evals@);
                assert(more.drop_last() =~= short);
                assert(longer.drop_last() =~= parts);
                assert forall|k: int| 0 <= k < longer.len() implies are_evaluations(
                    answers_of(*f),
                    row[more[k].tick as int],
                    row[more[k].other as int],
                    more[k].age_other_ms,
                    terms,
                    #[trigger] longer[k],
                ) by {
                    if k < i {
                        assert(longer[k] == parts[k]);
                        assert(more[k] == short[k]);
                    }
                }
                assert forall|s: int| 0 <= s < r.len() implies {
                    &&& (#[trigger] r@[s]).symbol@ == symbols[s]
                    &&& r@[s].ticks == ticks_of_symbol(self.ticks@, symbols[s]).len()
                    &&& r@[s].evals@ == gathered(more, longer, s)
                } by {
                    assert(before[s].symbol@ == symbols[s]);
                    if s != p.symbol {
                        assert(r@[s] == before[s]);
                    }
                }
                parts = longer;
            }
            i = i + 1;
        }
        proof {
            assert(pairings@.take(i as int) =~= pairings@);
            assert(is_replay(answers_of(*f), *self, terms, order@, pairings@, parts, r@));
        }
        r
    }
}

// ---------------------------------------------------------------------------
// The report of a direction
// ---------------------------------------------------------------------------

/// The evaluations of a direction.
pub open spec fn of_direction(evals: Seq<Eval>, direction: Direction) -> Seq<Eval> {
    evals.filter(|e: Eval| e.direction == direction)
}

fn select(evals: &Vec<Eval>, direction: Direction) -> (r: Vec<Eval>)
    ensures
        r@ == of_direction(evals@, direction),
{
    let ghost mine = |e: Eval| e.direction == direction;
    let mut r: Vec<Eval> = Vec::new();
    let mut i: usize = 0;
    proof {
        reveal(Seq::filter);
        assert(r@ =~= evals@.take(0).filter(mine));
    }
    while i < evals.len()
        invariant
            i <= evals.len(),
            mine == |e: Eval| e.direction == direction,
            r@ == evals@.take(i as int).filter(mine),
        decreases evals.len() - i,
    {
        proof {
            reveal(Seq::filter);
            assert(evals@.take(i + 1).drop_last() =~= evals@.take(i as int));
        }
        if evals[i].direction == direction {
            r.push(evals[i]);
        }
        i = i + 1;
    }
    proof {
        assert(evals@.take(i as int) =~= evals@);
    }
    r
}

/// The earnings of some evaluations.
pub open spec fn nets(evals: Seq<Eval>) -> Seq<Double> {
    evals.map_values(|e: Eval| e.net_bps)
}

fn net_row(evals: &Vec<Eval>) -> (r: Vec<Double>)
    ensures
        r@ == nets(evals@),
{
    let mut r: Vec<Double> = Vec::new();
    let mut i: usize = 0;
    while i < evals.len()
        invariant
            i <= evals.len(),
            r.len() == i,
            forall|j: int| 0 <= j < i ==> #[trigger] r@[j] == evals@[j].net_bps,
        decreases evals.len() - i,
    {
        r.push(evals[i].net_bps);
        i = i + 1;
    }
    proof {
        assert(r@ =~= nets(evals@));
    }
    r
}

/// Whether an evaluation passes a gate on the age of the other book and earns more than a limit.
pub open spec fn passes(e: Eval, max_age_ms: u64, limit: Option<Double>) -> bool {
    e.age_other_ms <= max_age_ms && match limit {
        Some(l) => e.net_bps.gt(l),
        None => true,
    }
}

/// How many evaluations pass a gate on the age of the other book and earn more than a limit.
pub open spec fn passing(evals: Seq<Eval>, max_age_ms: u64, limit: Option<Double>) -> nat {
    evals.filter(|e: Eval| passes(e, max_age_ms, limit)).len()
}

fn count_passing(evals: &Vec<Eval>, max_age_ms: u64, limit: Option<Double>) -> (r: usize)
    ensures
        r == passing(evals@, max_age_ms, limit),
{
    let ghost test = |e: Eval| passes(e, max_age_ms, limit);
    let mut n: usize = 0;
    let mut i: usize = 0;
    proof {
        reveal(Seq::filter);
        assert(evals@.take(0).filter(test).len() == 0);
    }
    while i < evals.len()
        invariant
            i <= evals.len(),
            test == |e: Eval| passes(e, max_age_ms, limit),
            n == evals@.take(i as int).filter(test).len(),
            n <= i,
        decreases evals.len() - i,
    {
        proof {
            reveal(Seq::filter);
            assert(evals@.take(i + 1).drop_last() =~= evals@.take(i as int));
        }
        let earns: bool = match limit {
            Some(l) => evals[i].net_bps.exceeds(l),
            None => true,
        };
        if evals[i].age_other_ms <= max_age_ms && earns {
            n = n + 1;
        }
        i = i + 1;
    }
    proof {
        assert(evals@.take(i as int) =~= evals@);
    }
    n
}

/// The greatest number of a row that is not a NaN, or minus infinity where there is none.
pub open spec fn greatest(row: Seq<Double>) -> Double
    decreases row.len(),
{
    if row.len() == 0 {
        Double { bits: (SIGN_BIT + INFINITY_BITS) as u64 }
    } else if row.last().gt(greatest(row.drop_last())) {
        row.last()
    } else {
        greatest(row.drop_last())
    }
}

fn find_greatest(row: &Vec<Double>) -> (r: Double)
    ensures
        r == greatest(row@),
{
    let mut r: Double = Double { bits: SIGN_BIT + INFINITY_BITS };
    let mut i: usize = 0;
    proof {
        assert(row@.take(0).len() == 0);
    }
    while i < row.len()
        invariant
            i <= row.len(),
            r == greatest(row@.take(i as int)),
        decreases row.len() - i,
    {
        proof {
            assert(row@.take(i + 1).drop_last() =~= row@.take(i as int));
        }
        if row[i].exceeds(r) {
            r = row[i];
        }
        i = i + 1;
    }
    proof {
        assert(row@.take(i as int) =~= row@);
    }
    r
}

/// The best of some evaluations: the one that earns most, and of those that earn as much the
/// last.
pub open spec fn best(evals: Seq<Eval>) -> Option<Eval>
    decreases evals.len(),
{
    if evals.len() == 0 {
        None
    } else {
        match best(evals.drop_last()) {
            Some(b) if b.net_bps.gt(evals.last().net_bps) => Some(b),
            _ => Some(evals.last()),
        }
    }
}

fn find_best(evals: &Vec<Eval>) -> (r: Option<Eval>)
    ensures
        r == best(evals@),
{
    let mut r: Option<Eval> = None;
    let mut i: usize = 0;
    proof {
        assert(evals@.take(0).len() == 0);
    }
    while i < evals.len()
        invariant
            i <= evals.len(),
            r == best(evals@.take(i as int)),
        decreases evals.len() - i,
    {
        proof {
            assert(evals@.take(i + 1).drop_last() =~= evals@.take(i as int));
        }
        let stays: bool = match r {
            Some(b) => b.net_bps.exceeds(evals[i].net_bps),
            None => false,
        };
        if !stays {
            r = Some(evals[i]);
        }
        i = i + 1;
    }
    proof {
        assert(evals@.take(i as int) =~= evals@);
    }
    r
}

/// What is left of a direction behind a gate.
#[derive(Clone, Copy, Debug, PartialEq, Eq, Structural)]
pub struct GateRow {
    pub max_age_ms: u64,
    pub kept: usize,
    pub above_0: usize,
    pub above_5: usize,
}

/// The staleness limits that the report tries, in milliseconds; the first lets every book pass.
pub open spec fn gates() -> Seq<u64> {
    seq![u64::MAX, 1000, 500, 300, 200, 100, 50]
}

/// The staleness limits that the report tries.
pub fn gate_thresholds() -> (r: Vec<u64>)
    ensures
        r@ == gates(),
{
    let r: Vec<u64> = vec![u64::MAX, 1000, 500, 300, 200, 100, 50];
    assert(r@ =~= gates());
    r
}

/// The three percentiles of a row in order.
#[derive(Clone, Copy, Debug, PartialEq, Eq, Structural)]
pub struct Percentiles {
    pub p50: Double,
    pub p95: Double,
    pub p99: Double,
}

/// The report of a direction.
pub struct DirectionReport {
    pub total: usize,
    pub above_0: usize,
    /// The share of the evaluations above zero, in percent.
    pub above_0_percent: Double,
    pub above_5: usize,
    pub above_10: usize,
    /// None where there is no evaluation.
    pub percentiles: Option<Percentiles>,
    pub max: Double,
    pub best: Option<Eval>,
    pub gates: Vec<GateRow>,
}

/// The percentiles of a sorted row.
pub open spec fn percentiles_in(sorted: Seq<Double>) -> Option<Percentiles> {
    if sorted.len() == 0 {
        None
    } else {
        Some(
            Percentiles {
                p50: sorted[position(Double { bits: P50_BITS }, sorted.len()) as int],
                p95: sorted[position(Double { bits: P95_BITS }, sorted.len()) as int],
                p99: sorted[position(Double { bits: P99_BITS }, sorted.len()) as int],
            },
        )
    }
}

/// Whether percentiles are those of a row.
pub open spec fn are_percentiles_of(p: Option<Percentiles>, row: Seq<Double>) -> bool {
    exists|sorted: Seq<Double>| #[trigger]
        is_sorted_row(sorted, row) && sorted.len() == row.len() && p == percentiles_in(sorted)
}

/// What is left of some evaluations behind a gate.
pub open spec fn gate_row(evals: Seq<Eval>, max_age_ms: u64) -> GateRow {
    GateRow {
        max_age_ms,
        kept: passing(evals, max_age_ms, None) as usize,
        above_0: passing(evals, max_age_ms, Some(Double { bits: 0 })) as usize,
        above_5: passing(evals, max_age_ms, Some(Double { bits: FIVE_BITS })) as usize,
    }
}

/// Whether `r` reports the evaluations of a direction.
pub open spec fn is_direction_report(
    f: Answers,
    evals: Seq<Eval>,
    direction: Direction,
    r: DirectionReport,
) -> bool {
    let mine = of_direction(evals, direction);
    &&& r.total == mine.len()
    &&& r.above_0 == passing(mine, u64::MAX, Some(Double { bits: 0 }))
    &&& is_percentage(f, r.above_0 as nat, mine.len(), r.above_0_percent)
    &&& r.above_5 == passing(mine, u64::MAX, Some(Double { bits: FIVE_BITS }))
    &&& r.above_10 == passing(mine, u64::MAX, Some(Double { bits: TEN_BITS }))
    &&& are_percentiles_of(r.percentiles, nets(mine))
    &&& r.max == greatest(nets(mine))
    &&& r.best == best(mine)
    &&& r.gates@ == gates().map_values(|max_age_ms: u64| gate_row(mine, max_age_ms))
}

/// Reports the evaluations of a direction.
pub fn report_direction<F: Fn(Op, Double, Double) -> Double>(
    f: &F,
    evals: &Vec<Eval>,
    direction: Direction,
) -> (r: DirectionReport)
    requires
        is_total(*f),
    ensures
        is_direction_report(answers_of(*f), evals@, direction, r),
{
    let mine: Vec<Eval> = select(evals, direction);
    let row: Vec<Double> = net_row(&mine);
    let sorted: Vec<Double> = sorted_doubles(&row);
    let percentiles: Option<Percentiles> = if sorted.len() == 0 {
        None
    } else {
        Some(
            Percentiles {
                p50: percentile(sorted.as_slice(), Double { bits: P50_BITS }),
                p95: percentile(sorted.as_slice(), Double { bits: P95_BITS }),
                p99: percentile(sorted.as_slice(), Double { bits: P99_BITS }),
            },
        )
    };
    assert(percentiles == percentiles_in(sorted@));
    let thresholds: Vec<u64> = gate_thresholds();
    let mut rows: Vec<GateRow> = Vec::new();
    let mut i: usize = 0;
    while i < thresholds.len()
        invariant
            i <= thresholds.len(),
            thresholds@ == gates(),
            rows.len() == i,
            forall|k: int|
                0 <= k < i ==> #[trigger] rows@[k] == gate_row(mine@, thresholds@[k]),
        decreases thresholds.len() - i,
    {
        let max_age_ms: u64 = thresholds[i];
        rows.push(
            GateRow {
                max_age_ms,
                kept: count_passing(&mine, max_age_ms, None),
                above_0: count_passing(&mine, max_age_ms, Some(Double::zero())),
                above_5: count_passing(&mine, max_age_ms, Some(Double { bits: FIVE_BITS })),
            },
        );
        i = i + 1;
    }
    proof {
        assert(rows@ =~= gates().map_values(|max_age_ms: u64| gate_row(mine@, max_age_ms)));
    }
    let above_0: usize = count_passing(&mine, u64::MAX, Some(Double::zero()));
    DirectionReport {
        total: mine.len(),
        above_0,
        above_0_percent: percentage(f, above_0 as u64, mine.len() as u64),
        above_5: count_passing(&mine, u64::MAX, Some(Double { bits: FIVE_BITS })),
        above_10: count_passing(&mine, u64::MAX, Some(Double { bits: TEN_BITS })),
        percentiles,
        max: find_greatest(&row),
        best: find_best(&mine),
        gates: rows,
    }
}

// ---------------------------------------------------------------------------
// Laws
// ---------------------------------------------------------------------------

proof fn lemma_filter_grows(evals: Seq<Eval>, f: spec_fn(Eval) -> bool, g: spec_fn(Eval) -> bool)
    requires
        forall|e: Eval| #[trigger] f(e) ==> g(e),
    ensures
        evals.filter(f).len() <= evals.filter(g).len(),
    decreases evals.len(),
{
    reveal(Seq::filter);
    if evals.len() > 0 {
        lemma_filter_grows(evals.drop_last(), f, g);
        assert(f(evals.last()) ==> g(evals.last()));
    }
}

/// A tighter gate lets no more evaluations pass, whatever they must earn.
pub proof fn tighter_gate_keeps_no_more(
    evals: Seq<Eval>,
    tighter_ms: u64,
    wider_ms: u64,
    limit: Option<Double>,
)
    requires
        tighter_ms <= wider_ms,
    ensures
        passing(evals, tighter_ms, limit) <= passing(evals, wider_ms, limit),
{
    lemma_filter_grows(
        evals,
        |e: Eval| passes(e, tighter_ms, limit),
        |e: Eval| passes(e, wider_ms, limit),
    );
}

/// Behind any gate no more evaluations earn more than a higher limit than earn more than a lower
/// one, and none earns that is not kept.
pub proof fn higher_limit_keeps_no_more(
    evals: Seq<Eval>,
    max_age_ms: u64,
    lower: Double,
    higher: Double,
)
    requires
        lower.le(higher),
    ensures
        passing(evals, max_age_ms, Some(higher)) <= passing(evals, max_age_ms, Some(lower))
            <= passing(evals, max_age_ms, None) <= evals.len(),
{
    lemma_filter_grows(
        evals,
        |e: Eval| passes(e, max_age_ms, Some(higher)),
        |e: Eval| passes(e, max_age_ms, Some(lower)),
    );
    lemma_filter_grows(
        evals,
        |e: Eval| passes(e, max_age_ms, Some(lower)),
        |e: Eval| passes(e, max_age_ms, None),
    );
    lemma_filter_is_part(evals, |e: Eval| passes(e, max_age_ms, None));
}

proof fn lemma_filter_is_part(evals: Seq<Eval>, f: spec_fn(Eval) -> bool)
    ensures
        evals.filter(f).len() <= evals.len(),
    decreases evals.len(),
{
    reveal(Seq::filter);
    if evals.len() > 0 {
        lemma_filter_is_part(evals.drop_last(), f);
    }
}

/// Without a gate every evaluation is kept.
pub proof fn no_gate_keeps_everything(evals: Seq<Eval>)
    ensures
        passing(evals, u64::MAX, None) == evals.len(),
    decreases evals.len(),
{
    reveal(Seq::filter);
    if evals.len() > 0 {
        no_gate_keeps_everything(evals.drop_last());
    }
}

/// Every evaluation is of one of the two directions.
pub proof fn directions_share_the_evaluations(evals: Seq<Eval>)
    ensures
        of_direction(evals, Direction::LongL).len() + of_direction(evals, Direction::LongH).len()
            == evals.len(),
    decreases evals.len(),
{
    reveal(Seq::filter);
    if evals.len() > 0 {
        directions_share_the_evaluations(evals.drop_last());
    }
}

/// The greatest number of a row is at least each of the row's numbers that is not a NaN, and it
/// is one of them, or minus infinity.
pub proof fn greatest_is_an_upper_bound(row: Seq<Double>)
    ensures
        !greatest(row).nan(),
        forall|i: int|
            0 <= i < row.len() && !(#[trigger] row[i]).nan() ==> row[i].le(greatest(row)),
        row.contains(greatest(row)) || greatest(row) == (Double {
            bits: (SIGN_BIT + INFINITY_BITS) as u64,
        }),
    decreases row.len(),
{
    if row.len() > 0 {
        let head = row.drop_last();
        greatest_is_an_upper_bound(head);
        assert forall|i: int| 0 <= i < row.len() && !(#[trigger] row[i]).nan() implies row[i].le(
            greatest(row),
        ) by {
            if i < head.len() {
                assert(head[i] == row[i]);
            }
        }
        if row.last().gt(greatest(head)) {
            assert(row[row.len() - 1] == greatest(row));
        } else if head.contains(greatest(head)) {
            let k = choose|k: int| 0 <= k < head.len() && head[k] == greatest(head);
            assert(row[k] == greatest(row));
        }
    }
}

/// Where no earning is a NaN, the best evaluation is one of them, it earns as much as any, and
/// every one after it earns less. It earns the greatest of the earnings.
pub proof fn best_earns_most(evals: Seq<Eval>)
    requires
        evals.len() > 0,
        forall|i: int| 0 <= i < evals.len() ==> !(#[trigger] evals[i]).net_bps.nan(),
    ensures
        best(evals) is Some,
        exists|b: int|
            0 <= b < evals.len() && best(evals) == Some(#[trigger] evals[b]) && forall|i: int|
                b < i < evals.len() ==> evals[b].net_bps.gt((#[trigger] evals[i]).net_bps),
        forall|i: int|
            0 <= i < evals.len() ==> (#[trigger] evals[i]).net_bps.le(best(evals)->0.net_bps),
        best(evals)->0.net_bps.rank() == greatest(nets(evals)).rank(),
    decreases evals.len(),
{
    let head = evals.drop_last();
    let last = evals.len() - 1;
    assert(nets(evals).drop_last() =~= nets(head));
    assert(nets(evals).last() == evals.last().net_bps);
    assert(evals[last] == evals.last());
    greatest_is_an_upper_bound(nets(head));
    if head.len() == 0 {
        assert(best(head) is None);
        assert(greatest(nets(head)).bits == 0xfff0_0000_0000_0000);
    } else {
        best_earns_most(head);
        let h = choose|b: int|
            0 <= b < head.len() && best(head) == Some(#[trigger] head[b]) && forall|i: int|
                b < i < head.len() ==> head[b].net_bps.gt((#[trigger] head[i]).net_bps);
        assert(head[h] == evals[h]);
        if evals[h].net_bps.gt(evals.last().net_bps) {
            assert(best(evals) == Some(evals[h]));
            assert forall|i: int| h < i < evals.len() implies evals[h].net_bps.gt(
                (#[trigger] evals[i]).net_bps,
            ) by {
                if i < last {
                    assert(head[i] == evals[i]);
                }
            }
        } else {
            assert(best(evals) == Some(evals[last]));
        }
        assert forall|i: int| 0 <= i < evals.len() implies (#[trigger] evals[i]).net_bps.le(
            best(evals)->0.net_bps,
        ) by {
            if i < last {
                assert(head[i] == evals[i]);
            }
        }
        assert(best(head)->0.net_bps.rank() == greatest(nets(head)).rank());
    }
}

/// Where no number of a row is a NaN, its percentiles climb, and none is above the greatest.
pub proof fn earning_percentiles_climb(p: Percentiles, row: Seq<Double>)
    requires
        are_percentiles_of(Some(p), row),
        row.len() <= usize::MAX,
        forall|i: int| 0 <= i < row.len() ==> !(#[trigger] row[i]).nan(),
    ensures
        p.p50.rank() <= p.p95.rank() <= p.p99.rank() <= greatest(row).rank(),
{
    let sorted = choose|sorted: Seq<Double>| #[trigger]
        is_sorted_row(sorted, row) && sorted.len() == row.len() && Some(p) == percentiles_in(
            sorted,
        );
    sorted_row_rises(sorted, row);
    positions_climb(Double { bits: P50_BITS }, Double { bits: P95_BITS }, sorted.len());
    positions_climb(Double { bits: P95_BITS }, Double { bits: P99_BITS }, sorted.len());
    greatest_is_an_upper_bound(row);
    broadcast use vstd::seq_lib::group_to_multiset_ensures;

    let k = position(Double { bits: P99_BITS }, sorted.len()) as int;
    assert(sorted.contains(sorted[k]));
    assert(row.to_multiset().count(sorted[k]) > 0);
    assert(row.contains(sorted[k]));
    let i = choose|i: int| 0 <= i < row.len() && row[i] == sorted[k];
    assert(row[i].le(greatest(row)));
}

/// With settled arithmetic a recording has one replay: every symbol has the same ticks and the
/// same evaluations in any two.
pub proof fn replay_is_settled(
    f: Answers,
    recording: Recording,
    terms: Terms,
    order_1: Seq<usize>,
    pairings_1: Seq<Pairing>,
    parts_1: Seq<Seq<Eval>>,
    logs_1: Seq<SymbolLog>,
    order_2: Seq<usize>,
    pairings_2: Seq<Pairing>,
    parts_2: Seq<Seq<Eval>>,
    logs_2: Seq<SymbolLog>,
)
    requires
        recording.wf(),
        recording.ticks@.len() <= usize::MAX,
        is_settled(f),
        is_replay(f, recording, terms, order_1, pairings_1, parts_1, logs_1),
        is_replay(f, recording, terms, order_2, pairings_2, parts_2, logs_2),
    ensures
        logs_1.len() == logs_2.len(),
        forall|s: int|
            0 <= s < logs_1.len() ==> (#[trigger] logs_1[s]).symbol@ == logs_2[s].symbol@
                && logs_1[s].ticks == logs_2[s].ticks && logs_1[s].evals@ == logs_2[s].evals@,
{
    stable_order_is_unique(order_1, order_2, receptions(recording.ticks@));
    let row = recording.row(order_1);
    let symbols = texts(recording.symbols@);
    assert(places(pairings_1).len() == places(pairings_2).len());
    assert forall|i: int| 0 <= i < pairings_1.len() implies pairings_1[i] == pairings_2[i] by {
        let p = pairings_1[i];
        let q = pairings_2[i];
        assert(places(pairings_1)[i] == (p.tick as int, p.other as int));
        assert(places(pairings_2)[i] == (q.tick as int, q.other as int));
        assert(describes(p, row, symbols));
        assert(describes(q, row, symbols));
        if p.symbol < q.symbol {
            crate::text::before_is_total(symbols[p.symbol as int], symbols[q.symbol as int]);
        } else if q.symbol < p.symbol {
            crate::text::before_is_total(symbols[q.symbol as int], symbols[p.symbol as int]);
        }
    }
    assert(pairings_1 =~= pairings_2);
    assert forall|i: int| 0 <= i < parts_1.len() implies parts_1[i] == parts_2[i] by {
        let p = pairings_1[i];
        evaluations_are_settled(
            f,
            row[p.tick as int],
            row[p.other as int],
            p.age_other_ms,
            terms,
            parts_1[i],
            parts_2[i],
        );
    }
    assert(parts_1 =~= parts_2);
    assert forall|s: int| 0 <= s < logs_1.len() implies (#[trigger] logs_1[s]).symbol@
        == logs_2[s].symbol@ && logs_1[s].ticks == logs_2[s].ticks && logs_1[s].evals@
        == logs_2[s].evals@ by {
        let other = logs_2[s];
    }
}

} // verus!
