//! The replay of a recording: its arguments, its ticks, and which books stand against each other.

use vstd::prelude::*;
use vstd::string::*;

use crate::args::{parse_symbols, symbol_list};
use crate::arithmetic::{may_read, readings_of, reads_any, Readings};
use crate::double::Double;
use crate::feeds::{elapsed, time_between};
use crate::sorting::{in_order, order_of, stable_order};
use crate::text::{in_text_order, insert_text, same_text, starts_with, texts};
use crate::tick::{Tick, Venue};
use crate::trades::Terms;

verus! {

// ---------------------------------------------------------------------------
// Directions
// ---------------------------------------------------------------------------

/// The two ways to trade the difference between the venues.
#[derive(Clone, Copy, Debug, PartialEq, Eq, Structural)]
pub enum Direction {
    /// Buy on Lighter and sell on Hyperliquid.
    LongL,
    /// Buy on Hyperliquid and sell on Lighter.
    LongH,
}

impl Direction {
    /// The venue on which the direction buys.
    pub open spec fn buys_on(self) -> Venue {
        match self {
            Direction::LongL => Venue::Lighter,
            Direction::LongH => Venue::Hyperliquid,
        }
    }

    /// The name of the direction in the report.
    pub fn label(self) -> (r: &'static str)
        ensures
            r@ == match self {
                Direction::LongL => "long lighter / short hyperliquid"@,
                Direction::LongH => "long hyperliquid / short lighter"@,
            },
    {
        match self {
            Direction::LongL => "long lighter / short hyperliquid",
            Direction::LongH => "long hyperliquid / short lighter",
        }
    }

    /// The venue on which the direction buys.
    pub fn buy_venue(self) -> (r: Venue)
        ensures
            r == self.buys_on(),
    {
        match self {
            Direction::LongL => Venue::Lighter,
            Direction::LongH => Venue::Hyperliquid,
        }
    }
}

// ---------------------------------------------------------------------------
// The recording
// ---------------------------------------------------------------------------

/// Whether the replay uses a tick: whether its symbol is asked for, and its venue is one of the
/// two.
pub open spec fn kept(t: Tick, filter: Option<Vec<String>>) -> bool {
    &&& match filter {
        Some(list) => texts(list@).contains(t.symbol@),
        None => true,
    }
    &&& Venue::of(t.exchange@) is Some
}

/// Whether a list holds a text.
fn holds_text(list: &Vec<String>, s: &str) -> (r: bool)
    ensures
        r == texts(list@).contains(s@),
{
    let mut i: usize = 0;
    while i < list.len()
        invariant
            i <= list.len(),
            forall|j: int| 0 <= j < i ==> #[trigger] texts(list@)[j] != s@,
        decreases list.len() - i,
    {
        if same_text(list[i].as_str(), s) {
            assert(texts(list@)[i as int] == s@);
            return true;
        }
        i = i + 1;
    }
    false
}

/// Whether the replay uses a tick.
pub fn is_kept(t: &Tick, filter: &Option<Vec<String>>) -> (r: bool)
    ensures
        r == kept(*t, *filter),
{
    let asked_for: bool = match filter {
        Some(list) => holds_text(list, t.symbol.as_str()),
        None => true,
    };
    asked_for && Venue::from_name(t.exchange.as_str()).is_some()
}

/// Whether a symbol occurs in some ticks.
pub open spec fn symbol_seen(ticks: Seq<Tick>, symbol: Seq<char>) -> bool {
    exists|i: int| 0 <= i < ticks.len() && (#[trigger] ticks[i]).symbol@ == symbol
}

/// The ticks of a recording, and their symbols.
pub struct Recording {
    pub ticks: Vec<Tick>,
    pub symbols: Vec<String>,
}

/// Whether a recording goes from `before` to `after` over a line that holds `parsed`.
pub open spec fn line_taken(
    before: Recording,
    after: Recording,
    line: Seq<char>,
    parsed: Option<Tick>,
    filter: Option<Vec<String>>,
) -> bool {
    match parsed {
        Some(t) if line.len() > 0 && kept(t, filter) => after.ticks@ == before.ticks@.push(t),
        _ => after == before,
    }
}

impl Recording {
    /// The ticks are of the two venues, and the symbols are theirs, each once and in order.
    pub open spec fn wf(self) -> bool {
        &&& in_text_order(texts(self.symbols@))
        &&& forall|s: Seq<char>| #[trigger]
            texts(self.symbols@).contains(s) <==> symbol_seen(self.ticks@, s)
        &&& forall|i: int|
            0 <= i < self.ticks@.len() ==> Venue::of((#[trigger] self.ticks@[i]).exchange@) is Some
    }

    /// An empty recording.
    pub fn new() -> (r: Recording)
        ensures
            r.wf(),
            r.ticks@.len() == 0,
            r.symbols@.len() == 0,
    {
        Recording { ticks: Vec::new(), symbols: Vec::new() }
    }

    /// Takes a line of the recording; `parsed` is the tick that it holds, if it holds one.
    pub fn take_line(&mut self, line: &str, parsed: Option<Tick>, filter: &Option<Vec<String>>)
        requires
            old(self).wf(),
        ensures
            final(self).wf(),
            line_taken(*old(self), *final(self), line@, parsed, *filter),
    {
        if line.unicode_len() == 0 {
            return;
        }
        if let Some(t) = parsed {
            if is_kept(&t, filter) {
                let ghost ticks = self.ticks@;
                insert_text(&mut self.symbols, t.symbol.as_str());
                self.ticks.push(t);
                proof {
                    let more = self.ticks@;
                    assert forall|s: Seq<char>| #[trigger]
                        texts(self.symbols@).contains(s) <==> symbol_seen(more, s) by {
                        if symbol_seen(ticks, s) {
                            let i = choose|i: int|
                                0 <= i < ticks.len() && (#[trigger] ticks[i]).symbol@ == s;
                            assert(more[i].symbol@ == s);
                        }
                        if s == t.symbol@ {
                            assert(more[ticks.len() as int].symbol@ == s);
                        }
                        if symbol_seen(more, s) {
                            let i = choose|i: int|
                                0 <= i < more.len() && (#[trigger] more[i]).symbol@ == s;
                            if i < ticks.len() {
                                assert(ticks[i].symbol@ == s);
                            }
                        }
                    }
                }
            }
        }
    }
}

/// When some ticks were received.
pub open spec fn receptions(ticks: Seq<Tick>) -> Seq<i128> {
    ticks.map_values(|t: Tick| t.recv_ns as i128)
}

/// The order in which ticks were received; ticks of one moment as they stand.
pub fn time_order(ticks: &Vec<Tick>) -> (r: Vec<usize>)
    ensures
        stable_order(r@, receptions(ticks@)),
{
    let mut keys: Vec<i128> = Vec::new();
    let mut i: usize = 0;
    while i < ticks.len()
        invariant
            i <= ticks.len(),
            keys.len() == i,
            forall|j: int| 0 <= j < i ==> #[trigger] keys@[j] == ticks@[j].recv_ns,
        decreases ticks.len() - i,
    {
        keys.push(ticks[i].recv_ns as i128);
        i = i + 1;
    }
    proof {
        assert(keys@ =~= receptions(ticks@));
    }
    order_of(&keys)
}

// ---------------------------------------------------------------------------
// Pairings
// ---------------------------------------------------------------------------

/// Whether a tick is of a venue and a symbol.
pub open spec fn is_of(t: Tick, venue: Venue, symbol: Seq<char>) -> bool {
    Venue::of(t.exchange@) == Some(venue) && t.symbol@ == symbol
}

/// Where the latest tick of a venue and a symbol stands in a row.
pub open spec fn latest(row: Seq<Tick>, venue: Venue, symbol: Seq<char>) -> Option<int>
    decreases row.len(),
{
    if row.len() == 0 {
        None
    } else if is_of(row.last(), venue, symbol) {
        Some(row.len() - 1)
    } else {
        latest(row.drop_last(), venue, symbol)
    }
}

/// Where the book that stands against the last tick of a row is: the latest of the same symbol on
/// the other venue.
pub open spec fn counterpart(row: Seq<Tick>) -> Option<int> {
    latest(row, Venue::of(row.last().exchange@)->0.opposite(), row.last().symbol@)
}

/// The ticks of a row that have a book against them, each with the place of that book.
pub open spec fn pairs(row: Seq<Tick>) -> Seq<(int, int)>
    decreases row.len(),
{
    if row.len() == 0 {
        Seq::empty()
    } else {
        let head = pairs(row.drop_last());
        match counterpart(row) {
            Some(p) => head.push((row.len() - 1, p)),
            None => head,
        }
    }
}

/// A tick with a book of the other venue against it. The tick and the book are given by their
/// places in the order of reception, the symbol by its place among the symbols.
#[derive(Clone, Copy, Debug, PartialEq, Eq, Structural)]
pub struct Pairing {
    pub symbol: usize,
    pub tick: usize,
    pub other: usize,
    /// How old the book is when the tick comes, in milliseconds.
    pub age_other_ms: u64,
}

/// The places of some pairings.
pub open spec fn places(list: Seq<Pairing>) -> Seq<(int, int)> {
    list.map_values(|p: Pairing| (p.tick as int, p.other as int))
}

/// Whether the symbol and the age of a pairing are those of its ticks.
pub open spec fn describes(p: Pairing, row: Seq<Tick>, symbols: Seq<Seq<char>>) -> bool {
    &&& p.symbol < symbols.len()
    &&& symbols[p.symbol as int] == row[p.tick as int].symbol@
    &&& p.age_other_ms == time_between(row[p.other as int].recv_ms, row[p.tick as int].recv_ms)
}

/// Where a text stands in a list that holds it.
fn place_in(list: &Vec<String>, s: &str) -> (r: usize)
    requires
        texts(list@).contains(s@),
    ensures
        r < list.len(),
        texts(list@)[r as int] == s@,
{
    let mut i: usize = 0;
    while !same_text(list[i].as_str(), s)
        invariant
            i < list.len(),
            texts(list@).contains(s@),
            forall|j: int| 0 <= j < i ==> #[trigger] texts(list@)[j] != s@,
        decreases list.len() - i,
    {
        proof {
            let k = choose|k: int| 0 <= k < texts(list@).len() && texts(list@)[k] == s@;
            assert(texts(list@)[k] == s@);
            assert(texts(list@)[i as int] != s@);
        }
        i = i + 1;
    }
    i
}

/// Whether each entry of a list is the latest tick of a venue, symbol by symbol.
pub open spec fn lists_latest(
    lasts: Seq<Option<usize>>,
    row: Seq<Tick>,
    venue: Venue,
    symbols: Seq<Seq<char>>,
) -> bool {
    &&& lasts.len() == symbols.len()
    &&& forall|s: int|
        0 <= s < symbols.len() ==> match #[trigger] lasts[s] {
            Some(p) => latest(row, venue, symbols[s]) == Some(p as int),
            None => latest(row, venue, symbols[s]) is None,
        }
}

proof fn lemma_one_more(
    lasts: Seq<Option<usize>>,
    row: Seq<Tick>,
    t: Tick,
    venue: Venue,
    symbols: Seq<Seq<char>>,
    s: int,
    after: Seq<Option<usize>>,
)
    requires
        lists_latest(lasts, row, venue, symbols),
        in_text_order(symbols),
        0 <= s < symbols.len(),
        symbols[s] == t.symbol@,
        row.len() <= usize::MAX,
        after == if Venue::of(t.exchange@) == Some(venue) {
            lasts.update(s, Some(row.len() as usize))
        } else {
            lasts
        },
    ensures
        lists_latest(after, row.push(t), venue, symbols),
{
    let more = row.push(t);
    assert(more.drop_last() =~= row);
    assert forall|k: int| 0 <= k < symbols.len() implies match #[trigger] after[k] {
        Some(p) => latest(more, venue, symbols[k]) == Some(p as int),
        None => latest(more, venue, symbols[k]) is None,
    } by {
        assert(k < lasts.len());
        let old_entry = lasts[k];
        if k != s {
            if k < s {
                crate::text::before_is_total(symbols[k], symbols[s]);
            } else {
                crate::text::before_is_total(symbols[s], symbols[k]);
            }
        }
    }
}

/// The latest tick of a venue and a symbol is of them, and no later one is.
pub proof fn latest_is_the_last_one(row: Seq<Tick>, venue: Venue, symbol: Seq<char>)
    ensures
        match latest(row, venue, symbol) {
            Some(p) => 0 <= p < row.len() && is_of(row[p], venue, symbol) && forall|q: int|
                p < q < row.len() ==> !is_of(#[trigger] row[q], venue, symbol),
            None => forall|q: int| 0 <= q < row.len() ==> !is_of(#[trigger] row[q], venue, symbol),
        },
    decreases row.len(),
{
    if row.len() > 0 && !is_of(row.last(), venue, symbol) {
        latest_is_the_last_one(row.drop_last(), venue, symbol);
        let p = latest(row, venue, symbol);
        assert forall|q: int| 0 <= q < row.len() && (p matches Some(x) ==> x < q) implies !is_of(
            #[trigger] row[q],
            venue,
            symbol,
        ) by {
            if q < row.len() - 1 {
                assert(row.drop_last()[q] == row[q]);
            }
        }
        if p is Some {
            assert(row.drop_last()[p->0] == row[p->0]);
        }
    }
}

impl Recording {
    /// The ticks in the order in which they were received.
    pub open spec fn row(self, order: Seq<usize>) -> Seq<Tick> {
        in_order(self.ticks@, order)
    }

    /// Walks through the ticks in the order in which they were received, and pairs each with the
    /// latest book of the same symbol on the other venue, where there is one by then.
    pub fn pairings(&self, order: &Vec<usize>) -> (r: Vec<Pairing>)
        requires
            self.wf(),
            stable_order(order@, receptions(self.ticks@)),
        ensures
            places(r@) == pairs(self.row(order@)),
            forall|i: int|
                0 <= i < r@.len() ==> describes(
                    #[trigger] r@[i],
                    self.row(order@),
                    texts(self.symbols@),
                ),
    {
        let ghost row = self.row(order@);
        let ghost symbols = texts(self.symbols@);
        let mut on_lighter: Vec<Option<usize>> = Vec::new();
        let mut on_hyperliquid: Vec<Option<usize>> = Vec::new();
        let mut n: usize = 0;
        while n < self.symbols.len()
            invariant
                n <= self.symbols.len(),
                on_lighter.len() == n,
                on_hyperliquid.len() == n,
                forall|s: int| 0 <= s < n ==> #[trigger] on_lighter@[s] is None,
                forall|s: int| 0 <= s < n ==> #[trigger] on_hyperliquid@[s] is None,
            decreases self.symbols.len() - n,
        {
            on_lighter.push(None);
            on_hyperliquid.push(None);
            n = n + 1;
        }
        let mut r: Vec<Pairing> = Vec::new();
        let mut k: usize = 0;
        proof {
            assert(places(r@) =~= pairs(row.take(0)));
        }
        while k < order.len()
            invariant
                k <= order.len(),
                self.wf(),
                stable_order(order@, receptions(self.ticks@)),
                row == self.row(order@),
                symbols == texts(self.symbols@),
                lists_latest(on_lighter@, row.take(k as int), Venue::Lighter, symbols),
                lists_latest(on_hyperliquid@, row.take(k as int), Venue::Hyperliquid, symbols),
                places(r@) == pairs(row.take(k as int)),
                forall|i: int|
                    0 <= i < r@.len() ==> describes(#[trigger] r@[i], row, symbols),
            decreases order.len() - k,
        {
            let ghost seen = row.take(k as int);
            let ghost more = row.take(k + 1);
            let ghost so_far = r@;
            let t: &Tick = &self.ticks[order[k]];
            proof {
                assert(row[k as int] == *t);
                assert(more =~= seen.push(*t));
                assert(more.drop_last() =~= seen);
                assert(symbol_seen(self.ticks@, t.symbol@)) by {
                    assert(self.ticks@[order@[k as int] as int].symbol@ == t.symbol@);
                }
                assert(symbols.contains(t.symbol@));
            }
            let s: usize = place_in(&self.symbols, t.symbol.as_str());
            let venue: Option<Venue> = Venue::from_name(t.exchange.as_str());
            let ghost lighter_before = on_lighter@;
            let ghost hyperliquid_before = on_hyperliquid@;
            let other: Option<usize> = if let Some(Venue::Lighter) = venue {
                on_lighter.set(s, Some(k));
                on_hyperliquid[s]
            } else {
                on_hyperliquid.set(s, Some(k));
                on_lighter[s]
            };
            proof {
                lemma_one_more(
                    lighter_before,
                    seen,
                    *t,
                    Venue::Lighter,
                    symbols,
                    s as int,
                    on_lighter@,
                );
                lemma_one_more(
                    hyperliquid_before,
                    seen,
                    *t,
                    Venue::Hyperliquid,
                    symbols,
                    s as int,
                    on_hyperliquid@,
                );
                latest_is_the_last_one(more, venue->0.opposite(), t.symbol@);
            }
            if let Some(p) = other {
                proof {
                    assert(counterpart(more) == Some(p as int));
                    assert(row[p as int] == more[p as int]);
                    assert(row[p as int] == self.ticks@[order@[p as int] as int]);
                }
                let book: &Tick = &self.ticks[order[p]];
                r.push(
                    Pairing {
                        symbol: s,
                        tick: k,
                        other: p,
                        age_other_ms: elapsed(book.recv_ms, t.recv_ms),
                    },
                );
                assert(places(r@) =~= places(so_far).push((k as int, p as int)));
            }
            k = k + 1;
        }
        proof {
            assert(row.take(k as int) =~= row);
        }
        r
    }
}

/// What a pairing is: the book is of the other venue and of the same symbol, it was received no
/// later than the tick, and no later one of its venue and symbol was received by then.
pub proof fn pairs_are_the_latest_books(ticks: Seq<Tick>, order: Seq<usize>, i: int)
    requires
        stable_order(order, receptions(ticks)),
        forall|j: int|
            0 <= j < ticks.len() ==> Venue::of((#[trigger] ticks[j]).exchange@) is Some,
        0 <= i < pairs(in_order(ticks, order)).len(),
    ensures
        ({
            let row = in_order(ticks, order);
            let (k, p) = pairs(row)[i];
            let venue = Venue::of(row[k].exchange@)->0.opposite();
            &&& 0 <= p < k < row.len()
            &&& is_of(row[p], venue, row[k].symbol@)
            &&& row[p].recv_ns <= row[k].recv_ns
            &&& forall|q: int| p < q <= k ==> !is_of(#[trigger] row[q], venue, row[k].symbol@)
        }),
{
    let row = in_order(ticks, order);
    lemma_pairs(row, i);
    let (k, p) = pairs(row)[i];
    assert(row[k] == ticks[order[k] as int]);
    let venue = Venue::of(row[k].exchange@)->0.opposite();
    let seen = row.take(k + 1);
    assert(seen.last() == row[k]);
    latest_is_the_last_one(seen, venue, row[k].symbol@);
    assert(seen[p] == row[p]);
    assert(p != k);
    assert forall|q: int| p < q <= k implies !is_of(#[trigger] row[q], venue, row[k].symbol@) by {
        assert(seen[q] == row[q]);
    }
    assert(receptions(ticks)[order[p] as int] == ticks[order[p] as int].recv_ns as i128);
    assert(receptions(ticks)[order[k] as int] == ticks[order[k] as int].recv_ns as i128);
}

/// A tick without a pairing has no book of the other venue before it.
pub proof fn unpaired_ticks_come_first(ticks: Seq<Tick>, order: Seq<usize>, k: int)
    requires
        stable_order(order, receptions(ticks)),
        0 <= k < ticks.len(),
        forall|i: int|
            0 <= i < pairs(in_order(ticks, order)).len() ==> (#[trigger] pairs(
                in_order(ticks, order),
            )[i]).0 != k,
    ensures
        ({
            let row = in_order(ticks, order);
            let venue = Venue::of(row[k].exchange@)->0.opposite();
            forall|q: int| 0 <= q <= k ==> !is_of(#[trigger] row[q], venue, row[k].symbol@)
        }),
{
    let row = in_order(ticks, order);
    let venue = Venue::of(row[k].exchange@)->0.opposite();
    let seen = row.take(k + 1);
    assert(seen.last() == row[k]);
    latest_is_the_last_one(seen, venue, row[k].symbol@);
    if counterpart(seen) is Some {
        lemma_pairs_extend(row, k + 1);
        let i = pairs(seen).len() - 1;
        assert(pairs(row)[i] == pairs(seen)[i]);
        assert(pairs(row)[i].0 == k);
    }
    assert forall|q: int| 0 <= q <= k implies !is_of(#[trigger] row[q], venue, row[k].symbol@) by {
        assert(seen[q] == row[q]);
    }
}

proof fn lemma_pairs(row: Seq<Tick>, i: int)
    requires
        0 <= i < pairs(row).len(),
    ensures
        0 <= pairs(row)[i].0 < row.len(),
        counterpart(row.take(pairs(row)[i].0 + 1)) == Some(pairs(row)[i].1),
    decreases row.len(),
{
    let head = row.drop_last();
    if i < pairs(head).len() {
        lemma_pairs(head, i);
        let k = pairs(head)[i].0;
        assert(head.take(k + 1) =~= row.take(k + 1));
    } else {
        assert(row.take(row.len() as int) =~= row);
    }
}

proof fn lemma_pairs_extend(row: Seq<Tick>, n: int)
    requires
        0 <= n <= row.len(),
    ensures
        pairs(row.take(n)).is_prefix_of(pairs(row)),
    decreases row.len(),
{
    if n == row.len() {
        assert(row.take(n) =~= row);
    } else {
        lemma_pairs_extend(row.drop_last(), n);
        assert(row.drop_last().take(n) =~= row.take(n));
    }
}

// ---------------------------------------------------------------------------
// Arguments
// ---------------------------------------------------------------------------

/// The notional that is traded unless told otherwise: a thousand dollars.
pub const DEFAULT_NOTIONAL_BITS: u64 = 0x408f_4000_0000_0000;

/// The fee on Hyperliquid unless told otherwise: four and a half basis points.
pub const DEFAULT_HL_FEE_BITS: u64 = 0x4012_0000_0000_0000;

/// Which recording to replay, which symbols of it, and what a trade is worth and costs.
pub struct Args {
    pub file: Option<String>,
    pub symbol_filter: Option<Vec<String>>,
    pub notional_usd: Double,
    pub lighter_fee_bps: Double,
    pub hl_fee_bps: Double,
}

/// What the arguments say.
pub struct ArgsView {
    pub file: Option<Seq<char>>,
    pub symbol_filter: Option<Seq<Seq<char>>>,
    pub notional_usd: Double,
    pub lighter_fee_bps: Double,
    pub hl_fee_bps: Double,
}

impl View for Args {
    type V = ArgsView;

    open spec fn view(&self) -> ArgsView {
        ArgsView {
            file: match self.file {
                Some(s) => Some(s@),
                None => None,
            },
            symbol_filter: match self.symbol_filter {
                Some(list) => Some(texts(list@)),
                None => None,
            },
            notional_usd: self.notional_usd,
            lighter_fee_bps: self.lighter_fee_bps,
            hl_fee_bps: self.hl_fee_bps,
        }
    }
}

impl Args {
    /// What is traded, and what the trades cost.
    pub fn terms(&self) -> (r: Terms)
        ensures
            r == (Terms {
                notional_usd: self.notional_usd,
                lighter_fee_bps: self.lighter_fee_bps,
                hl_fee_bps: self.hl_fee_bps,
            }),
    {
        Terms {
            notional_usd: self.notional_usd,
            lighter_fee_bps: self.lighter_fee_bps,
            hl_fee_bps: self.hl_fee_bps,
        }
    }
}

/// What no arguments say.
pub open spec fn defaults() -> ArgsView {
    ArgsView {
        file: None,
        symbol_filter: None,
        notional_usd: Double { bits: DEFAULT_NOTIONAL_BITS },
        lighter_fee_bps: Double { bits: 0 },
        hl_fee_bps: Double { bits: DEFAULT_HL_FEE_BITS },
    }
}

/// What an argument is.
#[derive(Clone, Copy, Debug, PartialEq, Eq, Structural)]
pub enum ArgKind {
    Symbols,
    Notional,
    LighterFee,
    HyperliquidFee,
    File,
    Unknown,
    /// No flag.
    Plain,
}

/// What an argument is.
pub open spec fn kind_of(arg: Seq<char>) -> ArgKind {
    if arg == "--symbols"@ || arg == "--symbol"@ {
        ArgKind::Symbols
    } else if arg == "--notional"@ {
        ArgKind::Notional
    } else if arg == "--lighter-fee-bps"@ {
        ArgKind::LighterFee
    } else if arg == "--hl-fee-bps"@ || arg == "--hyperliquid-fee-bps"@ {
        ArgKind::HyperliquidFee
    } else if arg == "--file"@ {
        ArgKind::File
    } else if "--"@.is_prefix_of(arg) {
        ArgKind::Unknown
    } else {
        ArgKind::Plain
    }
}

fn arg_kind(arg: &str) -> (r: ArgKind)
    ensures
        r == kind_of(arg@),
{
    if same_text(arg, "--symbols") || same_text(arg, "--symbol") {
        ArgKind::Symbols
    } else if same_text(arg, "--notional") {
        ArgKind::Notional
    } else if same_text(arg, "--lighter-fee-bps") {
        ArgKind::LighterFee
    } else if same_text(arg, "--hl-fee-bps") || same_text(arg, "--hyperliquid-fee-bps") {
        ArgKind::HyperliquidFee
    } else if same_text(arg, "--file") {
        ArgKind::File
    } else if starts_with(arg, "--") {
        ArgKind::Unknown
    } else {
        ArgKind::Plain
    }
}

/// What the arguments from a place on add to what was said before them; `numbers` holds each
/// argument as a number, where it is one. A flag takes the argument behind it, an argument that is
/// no flag names the recording, and any other flag, or a flag without a fitting value behind it,
/// says nothing.
pub open spec fn said(
    argv: Seq<Seq<char>>,
    numbers: Seq<Option<Double>>,
    i: int,
    before: ArgsView,
) -> ArgsView
    decreases argv.len() - i,
{
    if i >= argv.len() {
        before
    } else {
        let value = if i + 1 < argv.len() {
            Some(argv[i + 1])
        } else {
            None
        };
        let number = if i + 1 < argv.len() {
            numbers[i + 1]
        } else {
            None
        };
        match (kind_of(argv[i]), value, number) {
            (ArgKind::Symbols, Some(v), _) => said(
                argv,
                numbers,
                i + 2,
                ArgsView { symbol_filter: Some(symbol_list(v)), ..before },
            ),
            (ArgKind::Notional, _, Some(n)) => said(
                argv,
                numbers,
                i + 2,
                ArgsView { notional_usd: n, ..before },
            ),
            (ArgKind::LighterFee, _, Some(n)) => said(
                argv,
                numbers,
                i + 2,
                ArgsView { lighter_fee_bps: n, ..before },
            ),
            (ArgKind::HyperliquidFee, _, Some(n)) => said(
                argv,
                numbers,
                i + 2,
                ArgsView { hl_fee_bps: n, ..before },
            ),
            (ArgKind::File, Some(v), _) => said(
                argv,
                numbers,
                i + 2,
                ArgsView { file: Some(v), ..before },
            ),
            (ArgKind::Plain, _, _) => said(
                argv,
                numbers,
                i + 1,
                ArgsView { file: Some(argv[i]), ..before },
            ),
            _ => said(argv, numbers, i + 1, before),
        }
    }
}

/// Whether `r` is what the arguments of the replay say, with what a function may read in them.
pub open spec fn are_args(
    parse: Readings,
    argv: Seq<Seq<char>>,
    r: ArgsView,
) -> bool {
    exists|numbers: Seq<Option<Double>>|
        numbers.len() == argv.len() && (forall|i: int|
            0 <= i < argv.len() ==> may_read(parse, argv[i], #[trigger] numbers[i])) && r
            == #[trigger] said(argv, numbers, 1, defaults())
}

/// Reads the arguments of the replay; the first names the program.
pub fn parse_args<P: Fn(&String) -> Option<Double>>(parse: &P, argv: &Vec<String>) -> (r: Args)
    requires
        reads_any(*parse),
    ensures
        are_args(readings_of(*parse), texts(argv@), r@),
{
    let mut numbers: Vec<Option<Double>> = Vec::new();
    let mut i: usize = 0;
    while i < argv.len()
        invariant
            reads_any(*parse),
            i <= argv.len(),
            numbers.len() == i,
            forall|k: int|
                0 <= k < i ==> may_read(readings_of(*parse), texts(argv@)[k], #[trigger] numbers@[k]),
        decreases argv.len() - i,
    {
        let arg: &String = &argv[i];
        let number: Option<Double> = parse(arg);
        assert(may_read(readings_of(*parse), texts(argv@)[i as int], number));
        numbers.push(number);
        i = i + 1;
    }
    args_with(argv, &numbers)
}

/// Reads the arguments of the replay, where `numbers` holds each of them as a number, if it is
/// one.
pub fn args_with(argv: &Vec<String>, numbers: &Vec<Option<Double>>) -> (r: Args)
    requires
        argv.len() == numbers.len(),
    ensures
        r@ == said(texts(argv@), numbers@, 1, defaults()),
{
    let ghost all = texts(argv@);
    let mut r: Args = Args {
        file: None,
        symbol_filter: None,
        notional_usd: Double { bits: DEFAULT_NOTIONAL_BITS },
        lighter_fee_bps: Double::zero(),
        hl_fee_bps: Double { bits: DEFAULT_HL_FEE_BITS },
    };
    let mut i: usize = 1;
    while i < argv.len()
        invariant
            1 <= i,
            all == texts(argv@),
            argv.len() == numbers.len(),
            said(all, numbers@, 1, defaults()) == said(all, numbers@, i as int, r@),
        decreases argv.len() - i,
    {
        let has_value: bool = argv.len() - i > 1;
        let number: Option<Double> = if has_value {
            numbers[i + 1]
        } else {
            None
        };
        let kind: ArgKind = arg_kind(argv[i].as_str());
        let mut step: usize = 1;
        match kind {
            ArgKind::Symbols => {
                if has_value {
                    r.symbol_filter = Some(parse_symbols(argv[i + 1].as_str()));
                    step = 2;
                }
            },
            ArgKind::Notional => {
                if let Some(n) = number {
                    r.notional_usd = n;
                    step = 2;
                }
            },
            ArgKind::LighterFee => {
                if let Some(n) = number {
                    r.lighter_fee_bps = n;
                    step = 2;
                }
            },
            ArgKind::HyperliquidFee => {
                if let Some(n) = number {
                    r.hl_fee_bps = n;
                    step = 2;
                }
            },
            ArgKind::File => {
                if has_value {
                    r.file = Some(argv[i + 1].clone());
                    step = 2;
                }
            },
            ArgKind::Unknown => {},
            ArgKind::Plain => {
                r.file = Some(argv[i].clone());
            },
        }
        i = i + step;
    }
    r
}

} // verus!
