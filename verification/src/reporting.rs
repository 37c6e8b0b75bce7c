//! What the report of a direction says of its evaluations.

use vstd::prelude::*;

use crate::arithmetic::{answers, Answers, Op};
use crate::double::Double;
use crate::evaluations::{
    best, best_earns_most, gates, greatest_is_an_upper_bound, is_direction_report, nets,
    of_direction, passes, percentiles_in, DirectionReport, GateRow,
};
use crate::exact::{
    constants_have_their_values, exact, factor_cancels, integers_keep_their_values, is_exact, unit,
    unit_is_positive, value,
};
use crate::percentile::shares_stand_at_their_hundredths;
use crate::rounding::integer_spec;
use crate::sorting::{is_sorted_row, sorted_row_rises};
use crate::spread_replay::Direction;
use crate::trades::Eval;

verus! {

/// How many evaluations are of a direction, no older than a limit, and earn more than another.
pub open spec fn count_of(
    evals: Seq<Eval>,
    direction: Direction,
    max_age_ms: u64,
    more_than: Option<Double>,
) -> nat
    decreases evals.len(),
{
    if evals.len() == 0 {
        0
    } else {
        let e = evals.last();
        count_of(evals.drop_last(), direction, max_age_ms, more_than) + if e.direction == direction
            && e.age_other_ms <= max_age_ms && (more_than is None || e.net_bps.gt(more_than->0)) {
            1nat
        } else {
            0nat
        }
    }
}

proof fn lemma_count(
    evals: Seq<Eval>,
    direction: Direction,
    max_age_ms: u64,
    more_than: Option<Double>,
)
    ensures
        of_direction(evals, direction).filter(
            |e: Eval| passes(e, max_age_ms, more_than),
        ).len() == count_of(evals, direction, max_age_ms, more_than),
        count_of(evals, direction, max_age_ms, more_than) <= evals.len(),
    decreases evals.len(),
{
    reveal(Seq::filter);
    let mine = of_direction(evals, direction);
    if evals.len() > 0 {
        let head = of_direction(evals.drop_last(), direction);
        lemma_count(evals.drop_last(), direction, max_age_ms, more_than);
        if evals.last().direction == direction {
            assert(mine == head.push(evals.last()));
            assert(mine.drop_last() =~= head);
        }
    }
}

proof fn lemma_total(evals: Seq<Eval>, direction: Direction)
    ensures
        of_direction(evals, direction).len() == count_of(evals, direction, u64::MAX, None),
    decreases evals.len(),
{
    reveal(Seq::filter);
    if evals.len() > 0 {
        lemma_total(evals.drop_last(), direction);
    }
}

/// The report counts the evaluations of its direction: all of them, and those that earn more than
/// 0, 5 and 10 basis points.
pub proof fn report_counts_its_direction(
    f: Answers,
    evals: Seq<Eval>,
    direction: Direction,
    r: DirectionReport,
)
    requires
        is_direction_report(f, evals, direction, r),
        evals.len() <= usize::MAX,
    ensures
        r.total == count_of(evals, direction, u64::MAX, None),
        r.above_0 == count_of(evals, direction, u64::MAX, Some(Double { bits: 0 })),
        r.above_5 == count_of(
            evals,
            direction,
            u64::MAX,
            Some(Double { bits: 0x4014_0000_0000_0000 }),
        ),
        r.above_10 == count_of(
            evals,
            direction,
            u64::MAX,
            Some(Double { bits: 0x4024_0000_0000_0000 }),
        ),
{
    lemma_total(evals, direction);
    lemma_count(evals, direction, u64::MAX, Some(Double { bits: 0 }));
    lemma_count(evals, direction, u64::MAX, Some(Double { bits: 0x4014_0000_0000_0000 }));
    lemma_count(evals, direction, u64::MAX, Some(Double { bits: 0x4024_0000_0000_0000 }));
}

/// The table of staleness limits has a row without a limit and one for each of 1000, 500, 300, 200,
/// 100 and 50 milliseconds. Each row counts the evaluations of the direction that are no older than
/// its limit, and those of them that earn more than 0 and more than 5 basis points.
pub proof fn gate_rows_count_what_they_keep(
    f: Answers,
    evals: Seq<Eval>,
    direction: Direction,
    r: DirectionReport,
    i: int,
)
    requires
        is_direction_report(f, evals, direction, r),
        evals.len() <= usize::MAX,
        0 <= i < r.gates@.len(),
    ensures
        r.gates@.len() == 7,
        r.gates@[i].max_age_ms == seq![u64::MAX, 1000, 500, 300, 200, 100, 50][i],
        r.gates@[i].kept == count_of(evals, direction, r.gates@[i].max_age_ms, None),
        r.gates@[i].above_0 == count_of(
            evals,
            direction,
            r.gates@[i].max_age_ms,
            Some(Double { bits: 0 }),
        ),
        r.gates@[i].above_5 == count_of(
            evals,
            direction,
            r.gates@[i].max_age_ms,
            Some(Double { bits: 0x4014_0000_0000_0000 }),
        ),
{
    let limit = gates()[i];
    lemma_count(evals, direction, limit, None);
    lemma_count(evals, direction, limit, Some(Double { bits: 0 }));
    lemma_count(evals, direction, limit, Some(Double { bits: 0x4014_0000_0000_0000 }));
}

proof fn lemma_narrower(
    evals: Seq<Eval>,
    direction: Direction,
    tighter_ms: u64,
    wider_ms: u64,
    higher: Option<Double>,
    lower: Option<Double>,
)
    requires
        tighter_ms <= wider_ms,
        lower is None || (higher is Some && lower->0.le(higher->0)),
    ensures
        count_of(evals, direction, tighter_ms, higher) <= count_of(
            evals,
            direction,
            wider_ms,
            lower,
        ),
    decreases evals.len(),
{
    if evals.len() > 0 {
        lemma_narrower(evals.drop_last(), direction, tighter_ms, wider_ms, higher, lower);
    }
}

/// The row without a limit says what the report says of all evaluations, a later row keeps no more
/// than an earlier one, and in each row no more earn than are kept, and no more earn more than 5
/// than earn more than 0.
pub proof fn gate_rows_agree_with_the_report(
    f: Answers,
    evals: Seq<Eval>,
    direction: Direction,
    r: DirectionReport,
    i: int,
    j: int,
)
    requires
        is_direction_report(f, evals, direction, r),
        evals.len() <= usize::MAX,
        0 <= i <= j < r.gates@.len(),
    ensures
        r.gates@[0].kept == r.total,
        r.gates@[0].above_0 == r.above_0,
        r.gates@[0].above_5 == r.above_5,
        r.gates@[j].kept <= r.gates@[i].kept <= r.total,
        r.gates@[j].above_0 <= r.gates@[i].above_0 <= r.above_0,
        r.gates@[j].above_5 <= r.gates@[i].above_5 <= r.above_5,
        r.gates@[i].above_5 <= r.gates@[i].above_0 <= r.gates@[i].kept,
        r.above_10 <= r.above_5 <= r.above_0 <= r.total,
{
    let zero = Some(Double { bits: 0 });
    let five = Some(Double { bits: 0x4014_0000_0000_0000 });
    let ten = Some(Double { bits: 0x4024_0000_0000_0000 });
    report_counts_its_direction(f, evals, direction, r);
    gate_rows_count_what_they_keep(f, evals, direction, r, 0);
    gate_rows_count_what_they_keep(f, evals, direction, r, i);
    gate_rows_count_what_they_keep(f, evals, direction, r, j);
    let a = r.gates@[i].max_age_ms;
    let b = r.gates@[j].max_age_ms;
    assert(b <= a);
    lemma_narrower(evals, direction, b, a, None, None);
    lemma_narrower(evals, direction, b, a, zero, zero);
    lemma_narrower(evals, direction, b, a, five, five);
    lemma_narrower(evals, direction, a, u64::MAX, None, None);
    lemma_narrower(evals, direction, a, u64::MAX, zero, zero);
    lemma_narrower(evals, direction, a, u64::MAX, five, five);
    lemma_narrower(evals, direction, a, a, five, zero);
    lemma_narrower(evals, direction, a, a, zero, None);
    lemma_narrower(evals, direction, u64::MAX, u64::MAX, ten, five);
    lemma_narrower(evals, direction, u64::MAX, u64::MAX, five, zero);
    lemma_narrower(evals, direction, u64::MAX, u64::MAX, zero, None);
}

/// One more evaluation adds one to each count of its direction that it passes, and changes nothing
/// of the other direction.
pub proof fn one_more_evaluation_counts_where_it_passes(
    f: Answers,
    evals: Seq<Eval>,
    e: Eval,
    direction: Direction,
    r: DirectionReport,
    s: DirectionReport,
    i: int,
)
    requires
        is_direction_report(f, evals, direction, r),
        is_direction_report(f, evals.push(e), direction, s),
        evals.len() < usize::MAX,
        0 <= i < r.gates@.len(),
    ensures
        e.direction != direction ==> s.total == r.total && s.above_0 == r.above_0 && s.above_5
            == r.above_5 && s.above_10 == r.above_10 && s.gates@[i] == r.gates@[i],
        e.direction == direction ==> {
            let earns_0 = e.net_bps.gt(Double { bits: 0 });
            let earns_5 = e.net_bps.gt(Double { bits: 0x4014_0000_0000_0000 });
            let earns_10 = e.net_bps.gt(Double { bits: 0x4024_0000_0000_0000 });
            let fresh = e.age_other_ms <= r.gates@[i].max_age_ms;
            &&& s.total == r.total + 1
            &&& s.above_0 - r.above_0 == if earns_0 { 1int } else { 0int }
            &&& s.above_5 - r.above_5 == if earns_5 { 1int } else { 0int }
            &&& s.above_10 - r.above_10 == if earns_10 { 1int } else { 0int }
            &&& s.gates@[i].max_age_ms == r.gates@[i].max_age_ms
            &&& s.gates@[i].kept - r.gates@[i].kept == if fresh { 1int } else { 0int }
            &&& s.gates@[i].above_0 - r.gates@[i].above_0 == if fresh && earns_0 {
                1int
            } else {
                0int
            }
            &&& s.gates@[i].above_5 - r.gates@[i].above_5 == if fresh && earns_5 {
                1int
            } else {
                0int
            }
        },
{
    let more = evals.push(e);
    assert(more.drop_last() =~= evals);
    assert(r.gates@.len() == gates().len());
    assert(s.gates@.len() == gates().len());
    report_counts_its_direction(f, evals, direction, r);
    report_counts_its_direction(f, more, direction, s);
    gate_rows_count_what_they_keep(f, evals, direction, r, i);
    gate_rows_count_what_they_keep(f, more, direction, s, i);
    if e.direction != direction {
        let x: GateRow = r.gates@[i];
        let y: GateRow = s.gates@[i];
        assert(x.max_age_ms == y.max_age_ms);
        assert(x.kept == y.kept && x.above_0 == y.above_0 && x.above_5 == y.above_5);
    }
}

/// Where the arithmetic is exact, the share of the evaluations that earn more than 0 is what its
/// name says: that many times a hundred over all of them.
pub proof fn share_above_zero_is_in_percent(
    f: Answers,
    evals: Seq<Eval>,
    direction: Direction,
    r: DirectionReport,
)
    requires
        is_direction_report(exact(f), evals, direction, r),
        evals.len() < 0x20_0000_0000_0000,
    ensures
        r.total == 0 ==> r.above_0_percent == (Double { bits: 0 }),
        r.total > 0 ==> r.above_0_percent.finite() && value(r.above_0_percent) * r.total == 100
            * r.above_0 * unit(),
{
    lemma_total(evals, direction);
    lemma_count(evals, direction, u64::MAX, None);
    lemma_count(evals, direction, u64::MAX, Some(Double { bits: 0 }));
    lemma_narrower(evals, direction, u64::MAX, u64::MAX, Some(Double { bits: 0 }), None);
    if r.total > 0 {
        let hundred = Double { bits: 0x4059_0000_0000_0000 };
        let part = integer_spec(r.above_0 as nat);
        let whole = integer_spec(r.total as nat);
        constants_have_their_values();
        integers_keep_their_values(r.above_0 as nat);
        integers_keep_their_values(r.total as nat);
        unit_is_positive();
        let scaled = choose|scaled: Double| #[trigger]
            answers(exact(f), Op::Times, hundred, part, scaled) && answers(
                exact(f),
                Op::Over,
                scaled,
                whole,
                r.above_0_percent,
            );
        assert(is_exact(Op::Times, hundred, part, scaled));
        assert(is_exact(Op::Over, scaled, whole, r.above_0_percent));
        let u = unit();
        let n = r.above_0 as int;
        let t = r.total as int;
        let s = value(scaled);
        let p = value(r.above_0_percent);
        assert(t * u > 0) by (nonlinear_arith)
            requires
                t > 0,
                u > 0,
        ;
        assert(s * u == (100 * n * u) * u) by (nonlinear_arith)
            requires
                s * u == (100 * u) * (n * u),
        ;
        factor_cancels(s, 100 * n * u, u);
        assert((p * t) * u == (100 * n * u) * u) by (nonlinear_arith)
            requires
                p * (t * u) == s * u,
                s == 100 * n * u,
        ;
        factor_cancels(p * t, 100 * n * u, u);
    }
}

/// The best evaluation is one of the direction, none of the direction earns more, and none behind
/// it as much. It earns the maximum of the report. Without an evaluation there is no best.
pub proof fn best_evaluation_is_of_the_direction(
    f: Answers,
    evals: Seq<Eval>,
    direction: Direction,
    r: DirectionReport,
)
    requires
        is_direction_report(f, evals, direction, r),
        forall|i: int| 0 <= i < evals.len() ==> !(#[trigger] evals[i]).net_bps.nan(),
    ensures
        r.best is None <==> forall|i: int|
            0 <= i < evals.len() ==> (#[trigger] evals[i]).direction != direction,
        r.best matches Some(b) ==> {
            &&& r.max.rank() == b.net_bps.rank()
            &&& exists|k: int|
                0 <= k < evals.len() && #[trigger] evals[k] == b && b.direction == direction
                    && forall|i: int|
                    0 <= i < evals.len() && (#[trigger] evals[i]).direction == direction
                        ==> evals[i].net_bps.le(b.net_bps) && (i > k ==> b.net_bps.gt(
                        evals[i].net_bps,
                    ))
        },
{
    let mine = of_direction(evals, direction);
    let at = lemma_places(evals, direction);
    if mine.len() == 0 {
        assert forall|i: int| 0 <= i < evals.len() implies (#[trigger] evals[i]).direction
            != direction by {
            if evals[i].direction == direction {
                let k = choose|k: int| 0 <= k < at.len() && at[k] == i;
                assert(false);
            }
        }
    } else {
        assert forall|i: int| 0 <= i < mine.len() implies !(#[trigger] mine[i]).net_bps.nan() by {
            assert(mine[i] == evals[at[i]]);
        }
        best_earns_most(mine);
        let b = choose|b: int|
            0 <= b < mine.len() && best(mine) == Some(#[trigger] mine[b]) && forall|i: int|
                b < i < mine.len() ==> mine[b].net_bps.gt((#[trigger] mine[i]).net_bps);
        let k = at[b];
        assert(evals[k] == mine[b]);
        assert forall|i: int|
            0 <= i < evals.len() && (#[trigger] evals[i]).direction == direction implies evals[i].net_bps.le(
            mine[b].net_bps,
        ) && (i > k ==> mine[b].net_bps.gt(evals[i].net_bps)) by {
            let j = choose|j: int| 0 <= j < at.len() && at[j] == i;
            assert(mine[j] == evals[i]);
            if i > k && j <= b {
                if j < b {
                    assert(at[j] < at[b]);
                }
            }
        }
    }
}

/// Where the evaluations of a direction stand.
proof fn lemma_places(evals: Seq<Eval>, direction: Direction) -> (at: Seq<int>)
    ensures
        at.len() == of_direction(evals, direction).len(),
        forall|k: int|
            0 <= k < at.len() ==> 0 <= #[trigger] at[k] < evals.len() && of_direction(
                evals,
                direction,
            )[k] == evals[at[k]] && evals[at[k]].direction == direction,
        forall|k: int, m: int| 0 <= k < m < at.len() ==> #[trigger] at[k] < #[trigger] at[m],
        forall|i: int|
            0 <= i < evals.len() && (#[trigger] evals[i]).direction == direction ==> exists|k: int|
                0 <= k < at.len() && at[k] == i,
    decreases evals.len(),
{
    reveal(Seq::filter);
    if evals.len() == 0 {
        Seq::empty()
    } else {
        let short = evals.drop_last();
        let head = lemma_places(short, direction);
        let n = evals.len() - 1;
        let at = if evals.last().direction == direction {
            head.push(n)
        } else {
            head
        };
        assert forall|i: int|
            0 <= i < evals.len() && (#[trigger] evals[i]).direction == direction implies exists|k: int|
            0 <= k < at.len() && at[k] == i by {
            if i < n {
                assert(short[i].direction == direction);
                let k = choose|k: int| 0 <= k < head.len() && head[k] == i;
                assert(at[k] == i);
            } else {
                assert(at[head.len() as int] == i);
            }
        }
        at
    }
}

/// Of the earnings of a direction, put in order, the percentiles are the items at the nearest
/// hundredths of the last position; where two are as near, the later one.
pub proof fn earning_percentiles_stand_at_their_hundredths(
    f: Answers,
    evals: Seq<Eval>,
    direction: Direction,
    r: DirectionReport,
) -> (row: Seq<Double>)
    requires
        is_direction_report(f, evals, direction, r),
        evals.len() <= 0x2000_0000_0000,
        evals.len() <= usize::MAX,
    ensures
        r.percentiles is None <==> r.total == 0,
        row.len() == r.total,
        row.to_multiset() == evals.filter(|e: Eval| e.direction == direction).map_values(
            |e: Eval| e.net_bps,
        ).to_multiset(),
        forall|i: int, j: int|
            0 <= i <= j < row.len() ==> (#[trigger] row[i]).rank() <= (#[trigger] row[j]).rank(),
        r.percentiles matches Some(p) ==> {
            &&& p.p50 == row[(50 * (r.total - 1) + 50) / 100]
            &&& p.p95 == row[(95 * (r.total - 1) + 50) / 100]
            &&& p.p99 == row[(99 * (r.total - 1) + 50) / 100]
        },
{
    let mine = of_direction(evals, direction);
    lemma_total(evals, direction);
    lemma_count(evals, direction, u64::MAX, None);
    let sorted = choose|sorted: Seq<Double>| #[trigger]
        is_sorted_row(sorted, nets(mine)) && sorted.len() == nets(mine).len() && r.percentiles
            == percentiles_in(sorted);
    sorted_row_rises(sorted, nets(mine));
    assert(nets(mine) =~= evals.filter(|e: Eval| e.direction == direction).map_values(
        |e: Eval| e.net_bps,
    ));
    if sorted.len() > 0 {
        shares_stand_at_their_hundredths(sorted.len());
    }
    sorted
}

/// The maximum of a report is at least every earning of its direction that is a number, and it is
/// one of them; without any it is minus infinity.
pub proof fn maximum_is_of_the_direction(
    f: Answers,
    evals: Seq<Eval>,
    direction: Direction,
    r: DirectionReport,
)
    requires
        is_direction_report(f, evals, direction, r),
    ensures
        forall|i: int|
            0 <= i < evals.len() && (#[trigger] evals[i]).direction == direction
                && !evals[i].net_bps.nan() ==> evals[i].net_bps.le(r.max),
        r.max == (Double { bits: 0xfff0_0000_0000_0000 }) || exists|i: int|
            0 <= i < evals.len() && (#[trigger] evals[i]).direction == direction
                && evals[i].net_bps == r.max,
        r.total == 0 ==> r.max == (Double { bits: 0xfff0_0000_0000_0000 }),
{
    let mine = of_direction(evals, direction);
    let row = nets(mine);
    let at = lemma_places(evals, direction);
    greatest_is_an_upper_bound(row);
    assert forall|i: int|
        0 <= i < evals.len() && (#[trigger] evals[i]).direction == direction
            && !evals[i].net_bps.nan() implies evals[i].net_bps.le(r.max) by {
        let k = choose|k: int| 0 <= k < at.len() && at[k] == i;
        assert(row[k] == evals[i].net_bps);
    }
    if row.contains(r.max) {
        let k = choose|k: int| 0 <= k < row.len() && row[k] == r.max;
        assert(mine[k] == evals[at[k]]);
        assert(evals[at[k]].net_bps == r.max);
    }
}

} // verus!
