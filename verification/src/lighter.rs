//! Lighter: which markets to subscribe to, and what each message of the feed does to the books.

use std::collections::{BTreeMap, HashMap};

use vstd::prelude::*;
use vstd::string::*;

use crate::arithmetic::{may_read, readings_of, reads_any, Readings};
use crate::double::Double;
use crate::json::{
    document, document_bytes, items_view, parse_bytes, parse_text, Json, JsonView,
};
use crate::lighter_book::{
    applied, apply_lighter_delta, best_asks, best_bids, best_levels_are_in_order,
    best_levels_are_strictly_in_order, concerns, delta_decides_its_keys, delta_keeps_a_side_sound,
    delta_leaves_no_empty_level, is_in_range, is_sound, lighter_top_levels, size_at,
    without_empty_levels, LevelChange, LighterBook,
};
use crate::text::{
    after_last_mark, decimal, decimal_is_digits, decimal_reads_back, free_of, is_digit, number_of,
    parse_number, pieces, pieces_make_up_the_text, same_text, texts, to_decimal, truncate,
    truncated,
};
use crate::tick::{falling, nowhere_empty, rising, strictly_falling, strictly_rising, Tick};

verus! {

broadcast use {
    vstd::std_specs::hash::group_hash_axioms,
    vstd::std_specs::btree::group_btree_axioms,
    vstd::laws_cmp::group_laws_cmp,
};

/// A market to record: a symbol and the number that Lighter gives it.
pub struct Market {
    pub symbol: String,
    pub id: u8,
}

/// The markets that were found for some symbols, and the symbols without one.
pub struct Resolution {
    pub markets: Vec<Market>,
    pub missing: Vec<String>,
}

/// Why no market could be looked up.
#[derive(Clone, Copy, Debug, PartialEq, Eq, Structural)]
pub enum MarketsError {
    /// The answer is not JSON.
    NotJson,
    /// The answer has no list of markets.
    NoMarkets,
}

/// The number of the first market of a list that has a symbol, if it has a number that a channel
/// can carry: one of at most 255.
pub open spec fn market_number(markets: Seq<JsonView>, symbol: Seq<char>) -> Option<u64>
    decreases markets.len(),
{
    if markets.len() == 0 {
        None
    } else if markets[0].text_at("symbol"@) == Some(symbol) {
        match markets[0].integer_at("market_id"@) {
            Some(id) if id <= 255 => Some(id),
            _ => None,
        }
    } else {
        market_number(markets.drop_first(), symbol)
    }
}

/// The symbols that have a market, in order, each with its number.
pub open spec fn found(markets: Seq<JsonView>, symbols: Seq<Seq<char>>) -> Seq<(Seq<char>, u8)>
    decreases symbols.len(),
{
    if symbols.len() == 0 {
        Seq::empty()
    } else {
        let head = found(markets, symbols.drop_last());
        match market_number(markets, symbols.last()) {
            Some(id) => head.push((symbols.last(), id as u8)),
            None => head,
        }
    }
}

/// The symbols that have no market, in order.
pub open spec fn missing(markets: Seq<JsonView>, symbols: Seq<Seq<char>>) -> Seq<Seq<char>> {
    symbols.filter(|s: Seq<char>| market_number(markets, s) is None)
}

/// The symbols and numbers of some markets.
pub open spec fn market_pairs(markets: Seq<Market>) -> Seq<(Seq<char>, u8)> {
    markets.map_values(|m: Market| (m.symbol@, m.id))
}

/// The number of the first market that has a symbol.
fn find_market(markets: &Vec<Json>, symbol: &str) -> (r: Option<u64>)
    ensures
        r == market_number(items_view(markets@), symbol@),
{
    let ghost all = items_view(markets@);
    let mut i: usize = 0;
    proof {
        assert(all.skip(0) =~= all);
    }
    while i < markets.len()
        invariant
            i <= markets.len(),
            all == items_view(markets@),
            market_number(all, symbol@) == market_number(all.skip(i as int), symbol@),
        decreases markets.len() - i,
    {
        proof {
            assert(all.skip(i as int)[0] == all[i as int]);
            assert(all.skip(i as int).drop_first() =~= all.skip(i + 1));
        }
        if let Some(name) = markets[i].get_text("symbol") {
            if same_text(name.as_str(), symbol) {
                return match markets[i].get_integer("market_id") {
                    Some(id) if id <= 255 => Some(id),
                    _ => None,
                };
            }
        }
        i = i + 1;
    }
    None
}

/// Looks up the markets of some symbols in Lighter's list of markets.
pub fn markets_of(doc: &Json, symbols: &Vec<String>) -> (r: Option<Resolution>)
    ensures
        match r {
            Some(res) => doc@.array_at("order_book_details"@) matches Some(markets)
                && market_pairs(res.markets@) == found(markets, texts(symbols@))
                && texts(res.missing@) == missing(
                markets,
                texts(symbols@),
            ),
            None => doc@.array_at("order_book_details"@) is None,
        },
{
    let markets: &Vec<Json> = match doc.get_array("order_book_details") {
        Some(a) => a,
        None => {
            return None;
        },
    };
    let ghost all = items_view(markets@);
    let ghost names = texts(symbols@);
    let ghost lost = |s: Seq<char>| market_number(all, s) is None;
    let mut hits: Vec<Market> = Vec::new();
    let mut misses: Vec<String> = Vec::new();
    let mut i: usize = 0;
    proof {
        assert(market_pairs(hits@) =~= found(all, names.take(0)));
        assert(texts(misses@) =~= names.take(0).filter(lost));
    }
    while i < symbols.len()
        invariant
            i <= symbols.len(),
            all == items_view(markets@),
            names == texts(symbols@),
            lost == |s: Seq<char>| market_number(all, s) is None,
            market_pairs(hits@) == found(all, names.take(i as int)),
            texts(misses@) == names.take(i as int).filter(lost),
        decreases symbols.len() - i,
    {
        proof {
            assert(names.take(i + 1).drop_last() =~= names.take(i as int));
            assert(names.take(i + 1).last() == symbols@[i as int]@);
            reveal(Seq::filter);
        }
        let symbol: String = symbols[i].clone();
        let ghost hits_before = hits@;
        let ghost misses_before = misses@;
        match find_market(markets, symbol.as_str()) {
            Some(number) => {
                let id: u8 = number as u8;
                hits.push(Market { symbol, id });
                assert(market_pairs(hits@) =~= market_pairs(hits_before).push(
                    (symbols@[i as int]@, number as u8),
                ));
            },
            None => {
                misses.push(symbol);
                assert(texts(misses@) =~= texts(misses_before).push(
                    symbols@[i as int]@,
                ));
            },
        }
        i = i + 1;
    }
    proof {
        assert(names.take(i as int) =~= names);
    }
    Some(Resolution { markets: hits, missing: misses })
}

/// Looks up the markets of some symbols in the answer of Lighter's list of markets.
pub fn resolve_lighter_markets(body: &[u8], symbols: &Vec<String>) -> (r: Result<
    Resolution,
    MarketsError,
>)
    ensures
        match r {
            Ok(res) => document_bytes(body@) matches Some(doc) && doc.array_at(
                "order_book_details"@,
            ) matches Some(markets) && market_pairs(res.markets@) == found(
                markets,
                texts(symbols@),
            ) && texts(res.missing@) == missing(
                markets,
                texts(symbols@),
            ),
            Err(MarketsError::NotJson) => document_bytes(body@) is None,
            Err(MarketsError::NoMarkets) => document_bytes(body@) matches Some(doc)
                && doc.array_at("order_book_details"@) is None,
        },
{
    match parse_bytes(body) {
        Some(doc) => match markets_of(&doc, symbols) {
            Some(res) => Ok(res),
            None => Err(MarketsError::NoMarkets),
        },
        None => Err(MarketsError::NotJson),
    }
}

/// A price or a size as a message gives it: a text that is still to be read as a number, a
/// number, or nothing of either kind.
pub enum Field {
    Text(String),
    Number(Double),
    Absent,
}

/// What a field says.
pub enum FieldView {
    Text(Seq<char>),
    Number(Double),
    Absent,
}

impl View for Field {
    type V = FieldView;

    open spec fn view(&self) -> FieldView {
        match self {
            Field::Text(s) => FieldView::Text(s@),
            Field::Number(d) => FieldView::Number(*d),
            Field::Absent => FieldView::Absent,
        }
    }
}

/// One level of a message.
pub struct LevelFields {
    pub price: Field,
    pub size: Field,
}

/// The member of a level that holds a price or a size.
pub open spec fn field_at(level: JsonView, key: Seq<char>) -> FieldView {
    match level.member(key) {
        Some(JsonView::Text(s)) => FieldView::Text(s),
        Some(JsonView::Number(n)) => match n.double {
            Some(d) => FieldView::Number(d),
            None => FieldView::Absent,
        },
        _ => FieldView::Absent,
    }
}

/// The levels of one side of a message; none where the side is not a list.
pub open spec fn side_fields(order_book: JsonView, side: Seq<char>) -> Seq<(FieldView, FieldView)> {
    match order_book.array_at(side) {
        Some(levels) => levels.map_values(
            |l: JsonView| (field_at(l, "price"@), field_at(l, "size"@)),
        ),
        None => Seq::empty(),
    }
}

/// What the levels of a message say.
pub open spec fn fields_view(levels: Seq<LevelFields>) -> Seq<(FieldView, FieldView)> {
    levels.map_values(|l: LevelFields| (l.price@, l.size@))
}

fn read_field(level: &Json, key: &str) -> (r: Field)
    ensures
        r@ == field_at(level@, key@),
{
    match level.get(key) {
        Some(Json::Text(s)) => Field::Text(s.clone()),
        Some(Json::Number(n)) => match n.double {
            Some(d) => Field::Number(d),
            None => Field::Absent,
        },
        _ => Field::Absent,
    }
}

fn read_side(order_book: &Json, side: &str) -> (r: Vec<LevelFields>)
    ensures
        fields_view(r@) == side_fields(order_book@, side@),
{
    let mut r: Vec<LevelFields> = Vec::new();
    match order_book.get_array(side) {
        Some(levels) => {
            let ghost all = items_view(levels@);
            let mut i: usize = 0;
            while i < levels.len()
                invariant
                    i <= levels.len(),
                    r.len() == i,
                    all == items_view(levels@),
                    forall|j: int|
                        0 <= j < i ==> (#[trigger] r@[j]).price@ == field_at(all[j], "price"@)
                            && r@[j].size@ == field_at(all[j], "size"@),
                decreases levels.len() - i,
            {
                let price: Field = read_field(&levels[i], "price");
                let size: Field = read_field(&levels[i], "size");
                r.push(LevelFields { price, size });
                i = i + 1;
            }
        },
        None => {},
    }
    assert(fields_view(r@) =~= side_fields(order_book@, side@));
    r
}

/// The number of a field: the one that was read in its text, or its own.
pub open spec fn resolved(field: FieldView, read: Option<Double>) -> Option<Double> {
    match field {
        FieldView::Text(_) => read,
        FieldView::Number(d) => Some(d),
        FieldView::Absent => None,
    }
}

/// The numbers that were read in the texts of a level; a field that is no text has none.
#[derive(Clone, Copy, Debug, PartialEq, Eq, Structural)]
pub struct LevelTexts {
    pub price: Option<Double>,
    pub size: Option<Double>,
}

/// The changes that the levels of a message are.
pub open spec fn changes_of(
    levels: Seq<(FieldView, FieldView)>,
    read: Seq<LevelTexts>,
) -> Seq<LevelChange> {
    Seq::new(
        levels.len(),
        |i: int|
            LevelChange {
                price: resolved(levels[i].0, read[i].price),
                size: resolved(levels[i].1, read[i].size),
            },
    )
}

fn resolve(field: &Field, read: Option<Double>) -> (r: Option<Double>)
    ensures
        r == resolved(field@, read),
{
    match field {
        Field::Text(_) => read,
        Field::Number(d) => Some(*d),
        Field::Absent => None,
    }
}

fn resolve_changes(levels: &Vec<LevelFields>, read: &Vec<LevelTexts>) -> (r: Vec<LevelChange>)
    requires
        levels.len() == read.len(),
    ensures
        r@ == changes_of(fields_view(levels@), read@),
{
    let mut r: Vec<LevelChange> = Vec::new();
    let mut i: usize = 0;
    while i < levels.len()
        invariant
            i <= levels.len(),
            levels.len() == read.len(),
            r.len() == i,
            forall|j: int|
                0 <= j < i ==> #[trigger] r@[j] == changes_of(fields_view(levels@), read@)[j],
        decreases levels.len() - i,
    {
        let price: Option<Double> = resolve(&levels[i].price, read[i].price);
        let size: Option<Double> = resolve(&levels[i].size, read[i].size);
        r.push(LevelChange { price, size });
        i = i + 1;
    }
    assert(r@ =~= changes_of(fields_view(levels@), read@));
    r
}

/// What a message of the feed is.
#[derive(Clone, Copy, Debug, PartialEq, Eq, Structural)]
pub enum MessageKind {
    Ping,
    Connected,
    Snapshot,
    Delta,
    Unknown,
}

/// What a message of the feed is, by its type.
pub open spec fn kind_of(doc: JsonView) -> MessageKind {
    match doc.text_at("type"@) {
        Some(t) => if t == "ping"@ {
            MessageKind::Ping
        } else if t == "connected"@ {
            MessageKind::Connected
        } else if t == "subscribed/order_book"@ {
            MessageKind::Snapshot
        } else if t == "update/order_book"@ {
            MessageKind::Delta
        } else {
            MessageKind::Unknown
        },
        None => MessageKind::Unknown,
    }
}

/// What a message of the feed is.
pub fn message_kind(doc: &Json) -> (r: MessageKind)
    ensures
        r == kind_of(doc@),
{
    match doc.get_text("type") {
        Some(t) => {
            if same_text(t.as_str(), "ping") {
                MessageKind::Ping
            } else if same_text(t.as_str(), "connected") {
                MessageKind::Connected
            } else if same_text(t.as_str(), "subscribed/order_book") {
                MessageKind::Snapshot
            } else if same_text(t.as_str(), "update/order_book") {
                MessageKind::Delta
            } else {
                MessageKind::Unknown
            }
        },
        None => MessageKind::Unknown,
    }
}

/// The market that a channel is of: the number behind its last colon.
pub open spec fn channel_market(channel: Seq<char>) -> Option<nat> {
    number_of(pieces(channel, ':').last(), 255)
}

/// The market that a message is of.
pub open spec fn market_of(doc: JsonView) -> Option<nat> {
    match doc.text_at("channel"@) {
        Some(channel) => channel_market(channel),
        None => None,
    }
}

/// The market that a message is of.
pub fn message_market(doc: &Json) -> (r: Option<u8>)
    ensures
        match r {
            Some(id) => market_of(doc@) == Some(id as nat),
            None => market_of(doc@) is None,
        },
{
    match doc.get_text("channel") {
        Some(channel) => {
            let number: String = after_last_mark(channel.as_str(), ':');
            match parse_number(number.as_str(), 255) {
                Some(id) => Some(id as u8),
                None => None,
            }
        },
        None => None,
    }
}

/// The text that subscribes to the book of a market.
pub open spec fn subscription(id: nat) -> Seq<char> {
    "{\"channel\":\"order_book/"@ + decimal(id) + "\",\"type\":\"subscribe\"}"@
}

/// The text that subscribes to the book of a market.
pub fn subscribe_text(id: u8) -> (r: String)
    ensures
        r@ == subscription(id as nat),
{
    let mut r: String = "{\"channel\":\"order_book/".to_owned();
    r.append(to_decimal(id as u128).as_str());
    r.append("\",\"type\":\"subscribe\"}");
    r
}

/// The texts that subscribe to the books of some markets, one for each.
pub fn subscribe_texts(markets: &Vec<Market>) -> (r: Vec<String>)
    ensures
        texts(r@) == market_pairs(markets@).map_values(
            |m: (Seq<char>, u8)| subscription(m.1 as nat),
        ),
{
    let mut r: Vec<String> = Vec::new();
    let mut i: usize = 0;
    while i < markets.len()
        invariant
            i <= markets.len(),
            r.len() == i,
            forall|k: int| 0 <= k < i ==> (#[trigger] r@[k])@ == subscription(markets@[k].id as nat),
        decreases markets.len() - i,
    {
        r.push(subscribe_text(markets[i].id));
        i = i + 1;
    }
    proof {
        assert(texts(r@) =~= market_pairs(markets@).map_values(
            |m: (Seq<char>, u8)| subscription(m.1 as nat),
        ));
    }
    r
}

/// The text that answers a ping.
pub fn pong_text() -> (r: String)
    ensures
        r@ == "{\"type\":\"pong\"}"@,
{
    "{\"type\":\"pong\"}".to_owned()
}

/// The changes to the book of a market that a message brings.
pub struct BookUpdate {
    pub market_id: u8,
    pub is_snapshot: bool,
    pub server_ms: u64,
    pub seq: u64,
    pub prev_seq: u64,
    pub bids: Vec<LevelFields>,
    pub asks: Vec<LevelFields>,
}

/// An integer, or 0 where there is none.
pub open spec fn or_zero(n: Option<u64>) -> u64 {
    match n {
        Some(x) => x,
        None => 0,
    }
}

/// Whether an update says what a message and its order book say.
pub open spec fn update_says(u: BookUpdate, doc: JsonView, order_book: JsonView) -> bool {
    &&& market_of(doc) == Some(u.market_id as nat)
    &&& u.is_snapshot == (kind_of(doc) == MessageKind::Snapshot)
    &&& u.server_ms == or_zero(doc.integer_at("timestamp"@))
    &&& u.seq == or_zero(order_book.integer_at("nonce"@))
    &&& u.prev_seq == or_zero(order_book.integer_at("begin_nonce"@))
    &&& fields_view(u.bids@) == side_fields(order_book, "bids"@)
    &&& fields_view(u.asks@) == side_fields(order_book, "asks"@)
}

/// What to do about a message.
pub enum LighterAction {
    /// Nothing.
    Ignore,
    /// Answer a ping.
    Pong,
    /// Log a message that is not understood.
    Report(String),
    /// Read the texts of an update, and apply it.
    Update(BookUpdate),
}

/// How many messages that are not understood a reader logs.
pub const REPORT_LIMIT: u32 = 3;

/// How many characters of such a message it logs.
pub const REPORT_LENGTH: usize = 200;

/// The reader of the feed.
pub struct LighterReader {
    /// The local books by market, for the connection that is open.
    pub books: HashMap<u8, LighterBook>,
    /// How many levels of each side a tick holds.
    pub depth: usize,
    /// How many messages that are not understood were logged.
    pub unparsed_logged: u32,
}

/// Whether a market was asked for under a number.
pub open spec fn asked_for(markets: Seq<(Seq<char>, u8)>, id: u8) -> bool {
    exists|i: int| 0 <= i < markets.len() && (#[trigger] markets[i]).1 == id
}

/// The symbol of the last of some markets that has a number.
pub open spec fn last_symbol(markets: Seq<(Seq<char>, u8)>, id: u8) -> Seq<char>
    decreases markets.len(),
{
    if markets.len() == 0 {
        Seq::empty()
    } else if markets.last().1 == id {
        markets.last().0
    } else {
        last_symbol(markets.drop_last(), id)
    }
}

/// Whether books are those of some markets, all of them empty.
pub open spec fn fresh_books(
    books: Map<u8, LighterBook>,
    markets: Seq<(Seq<char>, u8)>,
) -> bool {
    &&& forall|id: u8| #[trigger] books.contains_key(id) <==> asked_for(markets, id)
    &&& forall|id: u8| #[trigger]
        books.contains_key(id) ==> books[id].symbol@ == last_symbol(markets, id)
            && books[id].bids@ == Map::<i64, Double>::empty() && books[id].asks@ == Map::<
            i64,
            Double,
        >::empty()
}

/// Whether a reader goes from `before` to `after` as a new connection for some markets starts.
pub open spec fn connected(
    before: LighterReader,
    after: LighterReader,
    markets: Seq<(Seq<char>, u8)>,
) -> bool {
    &&& fresh_books(after.books@, markets)
    &&& after.depth == before.depth
    &&& after.unparsed_logged == before.unparsed_logged
}

/// Whether nothing but one book may differ between two readers, and that book keeps its symbol.
pub open spec fn only_book_changed(before: LighterReader, after: LighterReader, id: u8) -> bool {
    &&& after.depth == before.depth
    &&& after.unparsed_logged == before.unparsed_logged
    &&& after.books@.contains_key(id)
    &&& after.books@ == before.books@.insert(id, after.books@[id])
    &&& after.books@[id].symbol@ == before.books@[id].symbol@
}

/// What a reader does about a message: whether it goes from `before` to `after` and asks for `r`.
/// A snapshot empties the book that it is of.
pub open spec fn acted(
    before: LighterReader,
    after: LighterReader,
    r: LighterAction,
    doc: JsonView,
    text: Seq<char>,
) -> bool {
    match kind_of(doc) {
        MessageKind::Ping => r is Pong && after == before,
        MessageKind::Connected => r is Ignore && after == before,
        MessageKind::Unknown => {
            &&& after.books == before.books
            &&& after.depth == before.depth
            &&& if before.unparsed_logged < REPORT_LIMIT {
                &&& r matches LighterAction::Report(line)
                &&& line@ == truncated(text, REPORT_LENGTH as nat)
                &&& after.unparsed_logged == before.unparsed_logged + 1
            } else {
                &&& r is Ignore
                &&& after.unparsed_logged == before.unparsed_logged
            }
        },
        _ => match market_of(doc) {
            Some(id) if before.books@.contains_key(id as u8) => {
                &&& if kind_of(doc) == MessageKind::Snapshot {
                    &&& only_book_changed(before, after, id as u8)
                    &&& after.books@[id as u8].bids@ == Map::<i64, Double>::empty()
                    &&& after.books@[id as u8].asks@ == Map::<i64, Double>::empty()
                } else {
                    after == before
                }
                &&& match doc.member("order_book"@) {
                    Some(order_book) => {
                        &&& r matches LighterAction::Update(u)
                        &&& update_says(u, doc, order_book)
                    },
                    None => r is Ignore,
                }
            },
            _ => r is Ignore && after == before,
        },
    }
}

/// What a reader does with an update and the numbers that were read in its texts: whether it goes
/// from `before` to `after` and gives out `r`.
pub open spec fn updated(
    before: LighterReader,
    after: LighterReader,
    update: BookUpdate,
    bids: Seq<LevelTexts>,
    asks: Seq<LevelTexts>,
    recv_ns: u64,
    recv_ms: u64,
    r: Option<Tick>,
) -> bool {
    if before.books@.contains_key(update.market_id) {
        let old_book = before.books@[update.market_id];
        let book = after.books@[update.market_id];
        &&& only_book_changed(before, after, update.market_id)
        &&& book.bids@ == applied(old_book.bids@, changes_of(fields_view(update.bids@), bids))
        &&& book.asks@ == applied(old_book.asks@, changes_of(fields_view(update.asks@), asks))
        &&& is_tick_of(r, book, update, before.depth as nat, recv_ns, recv_ms)
    } else {
        r is None && after == before
    }
}

/// What comes of a message.
pub enum LighterOutcome {
    /// Nothing.
    Nothing,
    /// A ping to answer.
    Pong,
    /// A message to log that is not understood.
    Report(String),
    /// A tick to record.
    Tick(Tick),
}

/// Whether numbers are what a function may read in the texts of some levels.
pub open spec fn are_read(
    parse: Readings,
    levels: Seq<(FieldView, FieldView)>,
    read: Seq<LevelTexts>,
) -> bool {
    &&& read.len() == levels.len()
    &&& forall|i: int|
        0 <= i < read.len() ==> is_read(parse, levels[i].0, (#[trigger] read[i]).price) && is_read(
            parse,
            levels[i].1,
            read[i].size,
        )
}

/// Whether `r` is what a function may read in a field, which has a number to read where it is a
/// text.
pub open spec fn is_read(
    parse: Readings,
    field: FieldView,
    r: Option<Double>,
) -> bool {
    match field {
        FieldView::Text(s) => may_read(parse, s, r),
        _ => r is None,
    }
}

fn read_number<P: Fn(&String) -> Option<Double>>(parse: &P, field: &Field) -> (r: Option<Double>)
    requires
        reads_any(*parse),
    ensures
        is_read(readings_of(*parse), field@, r),
{
    match field {
        Field::Text(s) => parse(s),
        _ => None,
    }
}

fn read_numbers<P: Fn(&String) -> Option<Double>>(parse: &P, levels: &Vec<LevelFields>) -> (r: Vec<
    LevelTexts,
>)
    requires
        reads_any(*parse),
    ensures
        are_read(readings_of(*parse), fields_view(levels@), r@),
{
    let mut r: Vec<LevelTexts> = Vec::new();
    let mut i: usize = 0;
    while i < levels.len()
        invariant
            reads_any(*parse),
            i <= levels.len(),
            r.len() == i,
            forall|k: int|
                0 <= k < i ==> is_read(
                    readings_of(*parse),
                    fields_view(levels@)[k].0,
                    (#[trigger] r@[k]).price,
                ) && is_read(readings_of(*parse), fields_view(levels@)[k].1, r@[k].size),
        decreases levels.len() - i,
    {
        let price: Option<Double> = read_number(parse, &levels[i].price);
        let size: Option<Double> = read_number(parse, &levels[i].size);
        r.push(LevelTexts { price, size });
        i = i + 1;
    }
    r
}

/// Whether `r` comes of an action, with the numbers that a function may read in the texts of an
/// update: whether the reader goes from `before` to `after` over it.
pub open spec fn carried_out(
    parse: Readings,
    before: LighterReader,
    after: LighterReader,
    action: LighterAction,
    recv_ns: u64,
    recv_ms: u64,
    r: LighterOutcome,
) -> bool {
    match action {
        LighterAction::Ignore => r is Nothing && after == before,
        LighterAction::Pong => r is Pong && after == before,
        LighterAction::Report(line) => r == LighterOutcome::Report(line) && after == before,
        LighterAction::Update(u) => exists|
            bids: Seq<LevelTexts>,
            asks: Seq<LevelTexts>,
            tick: Option<Tick>,
        |
            #![trigger updated(before, after, u, bids, asks, recv_ns, recv_ms, tick)]
            are_read(parse, fields_view(u.bids@), bids) && are_read(
                parse,
                fields_view(u.asks@),
                asks,
            ) && updated(before, after, u, bids, asks, recv_ns, recv_ms, tick) && r == match tick {
                Some(t) => LighterOutcome::Tick(t),
                None => LighterOutcome::Nothing,
            },
    }
}

/// Whether `r` comes of a text of the feed, and the reader goes from `before` to `after`.
pub open spec fn taken(
    parse: Readings,
    before: LighterReader,
    after: LighterReader,
    text: Seq<char>,
    recv_ns: u64,
    recv_ms: u64,
    r: LighterOutcome,
) -> bool {
    match document(text) {
        Some(doc) => exists|between: LighterReader, action: LighterAction| #[trigger]
            acted(before, between, action, doc, text) && carried_out(
                parse,
                between,
                after,
                action,
                recv_ns,
                recv_ms,
                r,
            ),
        None => r is Nothing && after == before,
    }
}

impl LighterReader {
    /// A reader that no connection has been opened for.
    pub fn new(depth: usize) -> (r: LighterReader)
        ensures
            r.books@ == Map::<u8, LighterBook>::empty(),
            r.depth == depth,
            r.unparsed_logged == 0,
    {
        LighterReader { books: HashMap::new(), depth, unparsed_logged: 0 }
    }

    /// Starts a new connection: every market gets an empty book.
    pub fn connect(&mut self, markets: &Vec<Market>)
        ensures
            connected(*old(self), *final(self), market_pairs(markets@)),
    {
        let ghost pairs = market_pairs(markets@);
        let mut books: HashMap<u8, LighterBook> = HashMap::new();
        let mut i: usize = 0;
        while i < markets.len()
            invariant
                i <= markets.len(),
                pairs == market_pairs(markets@),
                fresh_books(books@, pairs.take(i as int)),
            decreases markets.len() - i,
        {
            let book: LighterBook = LighterBook {
                symbol: markets[i].symbol.clone(),
                bids: BTreeMap::new(),
                asks: BTreeMap::new(),
            };
            let ghost start = books@;
            books.insert(markets[i].id, book);
            proof {
                let short = pairs.take(i as int);
                let more = pairs.take(i + 1);
                assert(more.drop_last() =~= short);
                assert(more.last() == pairs[i as int]);
                assert forall|id: u8| #[trigger]
                    books@.contains_key(id) <==> asked_for(more, id) by {
                    assert(start.contains_key(id) <==> asked_for(short, id));
                    if asked_for(short, id) {
                        let k = choose|k: int| 0 <= k < short.len() && (#[trigger] short[k]).1 == id;
                        assert(more[k].1 == id);
                    }
                    if asked_for(more, id) {
                        let k = choose|k: int| 0 <= k < more.len() && (#[trigger] more[k]).1 == id;
                        if k < i {
                            assert(short[k].1 == id);
                        }
                    }
                    assert(more[i as int].1 == markets@[i as int].id);
                }
                assert forall|id: u8| #[trigger]
                    books@.contains_key(id) implies books@[id].symbol@ == last_symbol(more, id)
                    && books@[id].bids@ == Map::<i64, Double>::empty() && books@[id].asks@ == Map::<
                    i64,
                    Double,
                >::empty() by {
                    if id != markets@[i as int].id {
                        assert(start.contains_key(id));
                    }
                }
            }
            i = i + 1;
        }
        proof {
            assert(pairs.take(i as int) =~= pairs);
        }
        self.books = books;
    }

    /// Decides what to do about a message. A snapshot empties the book that it is of.
    pub fn on_document(&mut self, doc: &Json, text: &str) -> (r: LighterAction)
        ensures
            acted(*old(self), *final(self), r, doc@, text@),
    {
        let kind: MessageKind = message_kind(doc);
        match kind {
            MessageKind::Ping => {
                return LighterAction::Pong;
            },
            MessageKind::Connected => {
                return LighterAction::Ignore;
            },
            MessageKind::Unknown => {
                if self.unparsed_logged < REPORT_LIMIT {
                    self.unparsed_logged = self.unparsed_logged + 1;
                    return LighterAction::Report(truncate(text, REPORT_LENGTH));
                }
                return LighterAction::Ignore;
            },
            _ => {},
        }
        let id: u8 = match message_market(doc) {
            Some(id) => id,
            None => {
                return LighterAction::Ignore;
            },
        };
        if !self.books.contains_key(&id) {
            return LighterAction::Ignore;
        }
        let is_snapshot: bool = kind == MessageKind::Snapshot;
        if is_snapshot {
            if let Some(book) = self.books.remove(&id) {
                let mut book: LighterBook = book;
                book.bids.clear();
                book.asks.clear();
                self.books.insert(id, book);
                assert(self.books@ =~= old(self).books@.insert(id, book));
            }
        }
        match doc.get("order_book") {
            Some(order_book) => {
                let update: BookUpdate = BookUpdate {
                    market_id: id,
                    is_snapshot,
                    server_ms: match doc.get_integer("timestamp") {
                        Some(n) => n,
                        None => 0,
                    },
                    seq: match order_book.get_integer("nonce") {
                        Some(n) => n,
                        None => 0,
                    },
                    prev_seq: match order_book.get_integer("begin_nonce") {
                        Some(n) => n,
                        None => 0,
                    },
                    bids: read_side(order_book, "bids"),
                    asks: read_side(order_book, "asks"),
                };
                LighterAction::Update(update)
            },
            None => LighterAction::Ignore,
        }
    }

    /// Takes a text of the feed. A text that is not JSON is ignored.
    pub fn on_text(&mut self, text: &str) -> (r: LighterAction)
        ensures
            match document(text@) {
                Some(doc) => acted(*old(self), *final(self), r, doc, text@),
                None => r is Ignore && *final(self) == *old(self),
            },
    {
        match parse_text(text) {
            Some(doc) => self.on_document(&doc, text),
            None => LighterAction::Ignore,
        }
    }

    /// Carries out what is to be done about a message.
    pub fn carry_out<P: Fn(&String) -> Option<Double>>(
        &mut self,
        parse: &P,
        action: LighterAction,
        recv_ns: u64,
        recv_ms: u64,
    ) -> (r: LighterOutcome)
        requires
            reads_any(*parse),
        ensures
            carried_out(readings_of(*parse), *old(self), *final(self), action, recv_ns, recv_ms, r),
    {
        match action {
            LighterAction::Ignore => LighterOutcome::Nothing,
            LighterAction::Pong => LighterOutcome::Pong,
            LighterAction::Report(line) => LighterOutcome::Report(line),
            LighterAction::Update(u) => {
                let bids: Vec<LevelTexts> = read_numbers(parse, &u.bids);
                let asks: Vec<LevelTexts> = read_numbers(parse, &u.asks);
                let tick: Option<Tick> = self.apply_update(&u, &bids, &asks, recv_ns, recv_ms);
                assert(updated(*old(self), *self, u, bids@, asks@, recv_ns, recv_ms, tick));
                match tick {
                    Some(t) => LighterOutcome::Tick(t),
                    None => LighterOutcome::Nothing,
                }
            },
        }
    }

    /// Takes a text of the feed that was received at a moment, and says what comes of it.
    pub fn take_text<P: Fn(&String) -> Option<Double>>(
        &mut self,
        parse: &P,
        text: &str,
        recv_ns: u64,
        recv_ms: u64,
    ) -> (r: LighterOutcome)
        requires
            reads_any(*parse),
        ensures
            taken(readings_of(*parse), *old(self), *final(self), text@, recv_ns, recv_ms, r),
    {
        let action: LighterAction = self.on_text(text);
        self.carry_out(parse, action, recv_ns, recv_ms)
    }

    /// Applies an update, with the numbers that were read in its texts, and gives the tick to
    /// record; none where the book is left empty.
    pub fn apply_update(
        &mut self,
        update: &BookUpdate,
        bids: &Vec<LevelTexts>,
        asks: &Vec<LevelTexts>,
        recv_ns: u64,
        recv_ms: u64,
    ) -> (r: Option<Tick>)
        requires
            bids.len() == update.bids.len(),
            asks.len() == update.asks.len(),
        ensures
            updated(*old(self), *final(self), *update, bids@, asks@, recv_ns, recv_ms, r),
    {
        let id: u8 = update.market_id;
        if !self.books.contains_key(&id) {
            return None;
        }
        let mut book: LighterBook = match self.books.remove(&id) {
            Some(book) => book,
            None => {
                return None;
            },
        };
        let bid_changes: Vec<LevelChange> = resolve_changes(&update.bids, bids);
        let ask_changes: Vec<LevelChange> = resolve_changes(&update.asks, asks);
        apply_lighter_delta(&mut book.bids, &bid_changes);
        apply_lighter_delta(&mut book.asks, &ask_changes);
        let (top_bids, top_asks) = lighter_top_levels(&book, self.depth);
        let r: Option<Tick> = if top_bids.len() == 0 && top_asks.len() == 0 {
            None
        } else {
            Some(
                Tick {
                    recv_ns,
                    recv_ms,
                    server_ms: update.server_ms,
                    exchange: "lighter".to_owned(),
                    symbol: book.symbol.clone(),
                    seq: update.seq,
                    prev_seq: update.prev_seq,
                    is_snapshot: update.is_snapshot,
                    bids: top_bids,
                    asks: top_asks,
                },
            )
        };
        self.books.insert(id, book);
        assert(self.books@ =~= old(self).books@.insert(id, book));
        r
    }
}

/// Whether a tick is what a book gives out after an update: its best levels, none where it has
/// no level at all.
pub open spec fn is_tick_of(
    r: Option<Tick>,
    book: LighterBook,
    update: BookUpdate,
    depth: nat,
    recv_ns: u64,
    recv_ms: u64,
) -> bool {
    let bids = best_bids(book.bids@, depth);
    let asks = best_asks(book.asks@, depth);
    match r {
        Some(t) => {
            &&& bids.len() > 0 || asks.len() > 0
            &&& t.recv_ns == recv_ns
            &&& t.recv_ms == recv_ms
            &&& t.server_ms == update.server_ms
            &&& t.exchange@ == "lighter"@
            &&& t.symbol@ == book.symbol@
            &&& t.seq == update.seq
            &&& t.prev_seq == update.prev_seq
            &&& t.is_snapshot == update.is_snapshot
            &&& t.bids@ == bids
            &&& t.asks@ == asks
        },
        None => bids.len() == 0 && asks.len() == 0,
    }
}

proof fn lemma_last_piece(head: Seq<char>, tail: Seq<char>, mark: char)
    requires
        free_of(tail, mark),
    ensures
        pieces(head.push(mark) + tail, mark).last() == tail,
    decreases tail.len(),
{
    let s = head.push(mark) + tail;
    if tail.len() == 0 {
        assert(s =~= head.push(mark));
        assert(tail =~= Seq::empty());
    } else {
        let short = tail.drop_last();
        lemma_last_piece(head, short, mark);
        assert(s.drop_last() =~= head.push(mark) + short);
        assert(s.last() == tail.last());
        pieces_make_up_the_text(s.drop_last(), mark);
        assert(pieces(s, mark).last() =~= tail);
    }
}

/// The channel of a market, as Lighter writes it in its messages, leads back to the number that
/// was subscribed to.
pub proof fn channel_leads_back(id: u8)
    ensures
        channel_market("order_book"@.push(':') + decimal(id as nat)) == Some(id as nat),
{
    let number = decimal(id as nat);
    decimal_is_digits(id as nat);
    assert forall|i: int| 0 <= i < number.len() implies number[i] != ':' by {
        assert(is_digit(number[i]));
    }
    lemma_last_piece("order_book"@, number, ':');
    decimal_reads_back(id as nat, 255);
}

/// Whatever stands before the last colon of a channel, the number behind it is that of the market;
/// a number past 255 is that of none.
pub proof fn channel_names_its_market(head: Seq<char>, n: nat)
    ensures
        n <= 255 ==> channel_market(head.push(':') + decimal(n)) == Some(n),
        n > 255 ==> channel_market(head.push(':') + decimal(n)) is None,
{
    let number = decimal(n);
    decimal_is_digits(n);
    assert forall|i: int| 0 <= i < number.len() implies number[i] != ':' by {
        assert(is_digit(number[i]));
    }
    lemma_last_piece(head, number, ':');
    assert(is_digit(number[0]));
    if n <= 255 {
        decimal_reads_back(n, 255);
    }
}

/// A tick that a reader records holds bids that fall in price and asks that rise, and at most
/// `depth` of each.
pub proof fn recorded_levels_are_in_order(
    t: Tick,
    book: LighterBook,
    update: BookUpdate,
    depth: nat,
)
    requires
        is_tick_of(Some(t), book, update, depth, t.recv_ns, t.recv_ms),
    ensures
        falling(t.bids@),
        rising(t.asks@),
        t.bids@.len() <= depth,
        t.asks@.len() <= depth,
{
    best_levels_are_in_order(book.bids@, depth);
    best_levels_are_in_order(book.asks@, depth);
}

/// After a snapshot the book holds only keys that the snapshot speaks of.
pub proof fn snapshot_book_holds_only_the_snapshot(
    levels: Seq<(FieldView, FieldView)>,
    read: Seq<LevelTexts>,
    key: i64,
)
    ensures
        applied(Map::empty(), changes_of(levels, read)).contains_key(key) ==> exists|i: int|
            0 <= i < levels.len() && concerns(#[trigger] changes_of(levels, read)[i], key),
{
    delta_decides_its_keys(Map::empty(), Map::empty(), changes_of(levels, read), key);
    assert(size_at(Map::empty(), key) is None);
}

/// A reader that has logged no more messages than it may never does.
pub proof fn reports_are_limited(
    before: LighterReader,
    after: LighterReader,
    r: LighterAction,
    doc: JsonView,
    text: Seq<char>,
)
    requires
        acted(before, after, r, doc, text),
        before.unparsed_logged <= REPORT_LIMIT,
    ensures
        after.unparsed_logged <= REPORT_LIMIT,
        r is Report <==> after.unparsed_logged == before.unparsed_logged + 1,
{
}

/// A message about one market leaves the books of the others alone.
pub proof fn other_books_are_left_alone(
    before: LighterReader,
    after: LighterReader,
    r: LighterAction,
    doc: JsonView,
    text: Seq<char>,
    id: u8,
)
    requires
        acted(before, after, r, doc, text),
        market_of(doc) != Some(id as nat),
    ensures
        after.books@.contains_key(id) == before.books@.contains_key(id),
        before.books@.contains_key(id) ==> after.books@[id] == before.books@[id],
{
}

/// Every pair that was found holds the number of its symbol's market, whole.
pub proof fn found_numbers_are_those_of_the_markets(
    markets: Seq<JsonView>,
    symbols: Seq<Seq<char>>,
    i: int,
)
    requires
        0 <= i < found(markets, symbols).len(),
    ensures
        market_number(markets, found(markets, symbols)[i].0) == Some(
            found(markets, symbols)[i].1 as u64,
        ),
    decreases symbols.len(),
{
    if i < found(markets, symbols.drop_last()).len() {
        found_numbers_are_those_of_the_markets(markets, symbols.drop_last(), i);
    } else {
        lemma_number_fits(markets, symbols.last());
    }
}

proof fn lemma_number_fits(markets: Seq<JsonView>, symbol: Seq<char>)
    ensures
        market_number(markets, symbol) matches Some(id) ==> id <= 255,
    decreases markets.len(),
{
    if markets.len() > 0 {
        lemma_number_fits(markets.drop_first(), symbol);
    }
}

/// Whether no book of a reader holds a level of a size at or below zero.
pub open spec fn holds_no_empty_level(reader: LighterReader) -> bool {
    forall|id: u8| #[trigger]
        reader.books@.contains_key(id) ==> without_empty_levels(reader.books@[id].bids@)
            && without_empty_levels(reader.books@[id].asks@)
}

/// No message brings a level of a size at or below zero into a book.
pub proof fn empty_levels_never_appear(
    parse: Readings,
    before: LighterReader,
    after: LighterReader,
    text: Seq<char>,
    recv_ns: u64,
    recv_ms: u64,
    r: LighterOutcome,
)
    requires
        taken(parse, before, after, text, recv_ns, recv_ms, r),
        holds_no_empty_level(before),
    ensures
        holds_no_empty_level(after),
{
    if let Some(doc) = document(text) {
        let (between, action) = choose|between: LighterReader, action: LighterAction| #[trigger]
            acted(before, between, action, doc, text) && carried_out(
                parse,
                between,
                after,
                action,
                recv_ns,
                recv_ms,
                r,
            );
        assert forall|id: u8| #[trigger] between.books@.contains_key(id) implies
            without_empty_levels(between.books@[id].bids@) && without_empty_levels(
            between.books@[id].asks@,
        ) by {
            if before.books@.contains_key(id) {
                assert(without_empty_levels(before.books@[id].bids@));
            }
        }
        if let LighterAction::Update(u) = action {
            let (bids, asks, tick) = choose|
                bids: Seq<LevelTexts>,
                asks: Seq<LevelTexts>,
                tick: Option<Tick>,
            |
                #![trigger updated(between, after, u, bids, asks, recv_ns, recv_ms, tick)]
                are_read(parse, fields_view(u.bids@), bids) && are_read(
                    parse,
                    fields_view(u.asks@),
                    asks,
                ) && updated(between, after, u, bids, asks, recv_ns, recv_ms, tick) && r
                    == match tick {
                    Some(t) => LighterOutcome::Tick(t),
                    None => LighterOutcome::Nothing,
                };
            if between.books@.contains_key(u.market_id) {
                let book = between.books@[u.market_id];
                delta_leaves_no_empty_level(
                    book.bids@,
                    changes_of(fields_view(u.bids@), bids),
                );
                delta_leaves_no_empty_level(
                    book.asks@,
                    changes_of(fields_view(u.asks@), asks),
                );
            }
        }
    }
}

/// Whether every book of a reader is sound on both sides.
pub open spec fn is_sound_reader(reader: LighterReader) -> bool {
    forall|id: u8| #[trigger]
        reader.books@.contains_key(id) ==> is_sound(reader.books@[id].bids@) && is_sound(
            reader.books@[id].asks@,
        )
}

/// Whether every number that may be read in some levels is in range: prices between zero and a
/// billion, and sizes that are numbers.
pub open spec fn may_be_read_in_range(
    parse: Readings,
    levels: Seq<(FieldView, FieldView)>,
) -> bool {
    forall|read: Seq<LevelTexts>, i: int|
        #![trigger changes_of(levels, read)[i]]
        are_read(parse, levels, read) && 0 <= i < levels.len() ==> is_in_range(
            changes_of(levels, read)[i],
        )
}

/// Whether every number that may be read in the levels of a text is in range.
pub open spec fn is_text_in_range(parse: Readings, text: Seq<char>) -> bool {
    match document(text) {
        Some(doc) => match doc.member("order_book"@) {
            Some(order_book) => may_be_read_in_range(parse, side_fields(order_book, "bids"@))
                && may_be_read_in_range(parse, side_fields(order_book, "asks"@)),
            None => true,
        },
        None => true,
    }
}

/// Whether a tick is as recordings promise it: of Lighter, with bids that fall from each to the
/// next and asks that rise, at most `depth` of each, at least one level, and none empty.
pub open spec fn is_sound_tick(t: Tick, depth: nat) -> bool {
    &&& t.exchange@ == "lighter"@
    &&& strictly_falling(t.bids@)
    &&& strictly_rising(t.asks@)
    &&& nowhere_empty(t.bids@)
    &&& nowhere_empty(t.asks@)
    &&& t.bids@.len() <= depth
    &&& t.asks@.len() <= depth
    &&& t.bids@.len() > 0 || t.asks@.len() > 0
}

/// A text in range keeps sound books sound, and the tick that comes of it is sound.
pub proof fn text_keeps_a_reader_sound(
    parse: Readings,
    before: LighterReader,
    after: LighterReader,
    text: Seq<char>,
    recv_ns: u64,
    recv_ms: u64,
    r: LighterOutcome,
)
    requires
        taken(parse, before, after, text, recv_ns, recv_ms, r),
        is_sound_reader(before),
        is_text_in_range(parse, text),
    ensures
        is_sound_reader(after),
        after.depth == before.depth,
        r matches LighterOutcome::Tick(t) ==> is_sound_tick(t, before.depth as nat),
{
    if let Some(doc) = document(text) {
        let (between, action) = choose|between: LighterReader, action: LighterAction| #[trigger]
            acted(before, between, action, doc, text) && carried_out(
                parse,
                between,
                after,
                action,
                recv_ns,
                recv_ms,
                r,
            );
        assert forall|id: u8| #[trigger] between.books@.contains_key(id) implies is_sound(
            between.books@[id].bids@,
        ) && is_sound(between.books@[id].asks@) by {
            if before.books@.contains_key(id) {
                assert(is_sound(before.books@[id].bids@));
            }
        }
        if let LighterAction::Update(u) = action {
            let (bids, asks, tick) = choose|
                bids: Seq<LevelTexts>,
                asks: Seq<LevelTexts>,
                tick: Option<Tick>,
            |
                #![trigger updated(between, after, u, bids, asks, recv_ns, recv_ms, tick)]
                are_read(parse, fields_view(u.bids@), bids) && are_read(
                    parse,
                    fields_view(u.asks@),
                    asks,
                ) && updated(between, after, u, bids, asks, recv_ns, recv_ms, tick) && r
                    == match tick {
                    Some(t) => LighterOutcome::Tick(t),
                    None => LighterOutcome::Nothing,
                };
            if between.books@.contains_key(u.market_id) {
                let old_book = between.books@[u.market_id];
                let book = after.books@[u.market_id];
                let bid_changes = changes_of(fields_view(u.bids@), bids);
                let ask_changes = changes_of(fields_view(u.asks@), asks);
                assert forall|i: int| 0 <= i < bid_changes.len() implies is_in_range(
                    #[trigger] bid_changes[i],
                ) by {
                    assert(bid_changes[i] == changes_of(fields_view(u.bids@), bids)[i]);
                }
                assert forall|i: int| 0 <= i < ask_changes.len() implies is_in_range(
                    #[trigger] ask_changes[i],
                ) by {
                    assert(ask_changes[i] == changes_of(fields_view(u.asks@), asks)[i]);
                }
                delta_keeps_a_side_sound(old_book.bids@, bid_changes);
                delta_keeps_a_side_sound(old_book.asks@, ask_changes);
                let depth = before.depth as nat;
                best_levels_are_in_order(book.bids@, depth);
                best_levels_are_in_order(book.asks@, depth);
                best_levels_are_strictly_in_order(book.bids@, depth);
                best_levels_are_strictly_in_order(book.asks@, depth);
            }
        }
    }
}

/// A text of the feed with the moment at which it was received.
pub struct Frame {
    pub text: Seq<char>,
    pub recv_ns: u64,
    pub recv_ms: u64,
}

/// Whether a reader goes through some states over some frames, with what comes of each.
pub open spec fn is_feed(
    parse: Readings,
    states: Seq<LighterReader>,
    frames: Seq<Frame>,
    outcomes: Seq<LighterOutcome>,
) -> bool {
    &&& states.len() == frames.len() + 1
    &&& outcomes.len() == frames.len()
    &&& forall|i: int|
        0 <= i < frames.len() ==> taken(
            parse,
            states[i],
            states[i + 1],
            (#[trigger] frames[i]).text,
            frames[i].recv_ns,
            frames[i].recv_ms,
            outcomes[i],
        )
}

/// Over a connection whose texts are all in range, every tick that a reader gives out is sound.
pub proof fn every_tick_of_a_feed_is_sound(
    parse: Readings,
    markets: Seq<(Seq<char>, u8)>,
    states: Seq<LighterReader>,
    frames: Seq<Frame>,
    outcomes: Seq<LighterOutcome>,
    i: int,
)
    requires
        is_feed(parse, states, frames, outcomes),
        fresh_books(states[0].books@, markets),
        forall|k: int| 0 <= k < frames.len() ==> is_text_in_range(parse, (#[trigger] frames[k]).text),
        0 <= i < frames.len(),
    ensures
        is_sound_reader(states[i]),
        states[i].depth == states[0].depth,
        outcomes[i] matches LighterOutcome::Tick(t) ==> is_sound_tick(t, states[0].depth as nat),
    decreases i,
{
    if i == 0 {
        assert forall|id: u8| #[trigger] states[0].books@.contains_key(id) implies is_sound(
            states[0].books@[id].bids@,
        ) && is_sound(states[0].books@[id].asks@) by {}
    } else {
        every_tick_of_a_feed_is_sound(parse, markets, states, frames, outcomes, i - 1);
        let f = frames[i - 1];
        assert(is_text_in_range(parse, f.text));
        text_keeps_a_reader_sound(
            parse,
            states[i - 1],
            states[i],
            f.text,
            f.recv_ns,
            f.recv_ms,
            outcomes[i - 1],
        );
    }
    let f = frames[i];
    assert(is_text_in_range(parse, f.text));
    text_keeps_a_reader_sound(
        parse,
        states[i],
        states[i + 1],
        f.text,
        f.recv_ns,
        f.recv_ms,
        outcomes[i],
    );
}

} // verus!
