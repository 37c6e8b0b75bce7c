//! Hyperliquid: what each message of the feed says of the books.

use vstd::prelude::*;
use vstd::string::*;

use crate::arithmetic::{may_read, readings_of, reads_any, Readings};
use crate::double::Double;
use crate::json::{
    document, items_view, literal, parse_text, string_literal, Json, JsonView,
};
use crate::lighter::{or_zero, LevelTexts, REPORT_LENGTH, REPORT_LIMIT};
use crate::sorting::{
    in_order, order_keeps_the_items, order_of, row_in_order_stays, stable_order,
};
use crate::text::{same_text, starts_with, texts, truncate, truncated};
use crate::tick::{falling, rising, Level, Tick};

verus! {

/// How many characters of a book message of an unexpected form the reader logs.
pub const BOOK_REPORT_LENGTH: usize = 300;

/// The message that asks for the book of a coin.
pub open spec fn subscription(coin: Seq<char>) -> Seq<char> {
    r#"{"method":"subscribe","subscription":{"coin":"#@ + literal(coin) + r#","type":"l2Book"}}"#@
}

/// The message that asks for the book of a coin.
pub fn subscribe_text(coin: &str) -> (r: String)
    ensures
        r@ == subscription(coin@),
{
    let mut r: String = r#"{"method":"subscribe","subscription":{"coin":"#.to_owned();
    r.append(string_literal(coin).as_str());
    r.append(r#","type":"l2Book"}}"#);
    r
}

/// The messages that ask for the books of some coins, one for each.
pub fn subscribe_texts(coins: &Vec<String>) -> (r: Vec<String>)
    ensures
        texts(r@) == texts(coins@).map_values(|coin: Seq<char>| subscription(coin)),
{
    let mut r: Vec<String> = Vec::new();
    let mut i: usize = 0;
    while i < coins.len()
        invariant
            i <= coins.len(),
            r.len() == i,
            forall|k: int| 0 <= k < i ==> (#[trigger] r@[k])@ == subscription(coins@[k]@),
        decreases coins.len() - i,
    {
        r.push(subscribe_text(coins[i].as_str()));
        i = i + 1;
    }
    proof {
        assert(texts(r@) =~= texts(coins@).map_values(|coin: Seq<char>| subscription(coin)));
    }
    r
}

/// The message that keeps a connection alive.
pub fn ping_text() -> (r: &'static str)
    ensures
        r@ == r#"{"method":"ping"}"#@,
{
    r#"{"method":"ping"}"#
}

/// The price and the size of a level as a message gives them, where they are texts.
pub struct QuoteTexts {
    pub price: Option<String>,
    pub size: Option<String>,
}

/// What the texts of a level say.
pub open spec fn quote_view(q: QuoteTexts) -> (Option<Seq<char>>, Option<Seq<char>>) {
    (
        match q.price {
            Some(s) => Some(s@),
            None => None,
        },
        match q.size {
            Some(s) => Some(s@),
            None => None,
        },
    )
}

/// What the texts of some levels say.
pub open spec fn quotes_view(quotes: Seq<QuoteTexts>) -> Seq<
    (Option<Seq<char>>, Option<Seq<char>>),
> {
    quotes.map_values(|q: QuoteTexts| quote_view(q))
}

/// The first `depth` levels of a side of a message; none where the side is not a list.
pub open spec fn side_quotes(side: JsonView, depth: nat) -> Seq<
    (Option<Seq<char>>, Option<Seq<char>>),
> {
    match side {
        JsonView::Array(levels) => {
            let shown = if depth < levels.len() {
                levels.take(depth as int)
            } else {
                levels
            };
            shown.map_values(|l: JsonView| (l.text_at("px"@), l.text_at("sz"@)))
        },
        _ => Seq::empty(),
    }
}

fn owned(s: Option<&String>) -> (r: Option<String>)
    ensures
        match (s, r) {
            (Some(a), Some(b)) => a@ == b@,
            (None, None) => true,
            _ => false,
        },
{
    match s {
        Some(x) => Some(x.clone()),
        None => None,
    }
}

fn read_quotes(side: &Json, depth: usize) -> (r: Vec<QuoteTexts>)
    ensures
        quotes_view(r@) == side_quotes(side@, depth as nat),
{
    let mut r: Vec<QuoteTexts> = Vec::new();
    match side {
        Json::Array(levels) => {
            let ghost all = items_view(levels@);
            proof {
                crate::json::lemma_array_view(*side);
            }
            let mut i: usize = 0;
            while i < levels.len() && i < depth
                invariant
                    i <= levels.len(),
                    i <= depth,
                    r.len() == i,
                    all == items_view(levels@),
                    forall|j: int|
                        0 <= j < i ==> quote_view(#[trigger] r@[j]) == (
                            all[j].text_at("px"@),
                            all[j].text_at("sz"@),
                        ),
                decreases levels.len() - i,
            {
                let price: Option<String> = owned(levels[i].get_text("px"));
                let size: Option<String> = owned(levels[i].get_text("sz"));
                r.push(QuoteTexts { price, size });
                i = i + 1;
            }
        },
        _ => {},
    }
    assert(quotes_view(r@) =~= side_quotes(side@, depth as nat));
    r
}

/// The level that two texts make, with the numbers that were read in them: none where a text is
/// missing or is not a number.
pub open spec fn quote_level(
    texts: (Option<Seq<char>>, Option<Seq<char>>),
    read: LevelTexts,
) -> Option<Level> {
    match (texts.0, read.price, texts.1, read.size) {
        (Some(_), Some(price), Some(_), Some(size)) => Some(Level { price, size }),
        _ => None,
    }
}

/// The levels of a side, in order, without those that are none.
pub open spec fn side_levels(
    texts: Seq<(Option<Seq<char>>, Option<Seq<char>>)>,
    read: Seq<LevelTexts>,
) -> Seq<Level>
    decreases texts.len(),
{
    if texts.len() == 0 || read.len() == 0 {
        Seq::empty()
    } else {
        let head = side_levels(texts.drop_last(), read.drop_last());
        match quote_level(texts.last(), read.last()) {
            Some(level) => head.push(level),
            None => head,
        }
    }
}

/// The levels of one side of a message, with the numbers that were read in its texts.
pub fn hyperliquid_side(quotes: &Vec<QuoteTexts>, read: &Vec<LevelTexts>) -> (r: Vec<Level>)
    requires
        quotes.len() == read.len(),
    ensures
        r@ == side_levels(quotes_view(quotes@), read@),
{
    let ghost texts = quotes_view(quotes@);
    let mut r: Vec<Level> = Vec::new();
    let mut i: usize = 0;
    proof {
        assert(r@ =~= side_levels(texts.take(0), read@.take(0)));
    }
    while i < quotes.len()
        invariant
            i <= quotes.len(),
            quotes.len() == read.len(),
            texts == quotes_view(quotes@),
            r@ == side_levels(texts.take(i as int), read@.take(i as int)),
        decreases quotes.len() - i,
    {
        proof {
            assert(texts.take(i + 1).drop_last() =~= texts.take(i as int));
            assert(read@.take(i + 1).drop_last() =~= read@.take(i as int));
        }
        if let (Some(_), Some(price), Some(_), Some(size)) = (
            &quotes[i].price,
            read[i].price,
            &quotes[i].size,
            read[i].size,
        ) {
            r.push(Level { price, size });
        }
        i = i + 1;
    }
    proof {
        assert(texts.take(i as int) =~= texts);
        assert(read@.take(i as int) =~= read@);
    }
    r
}

/// A book that a message brings.
pub struct BookMessage {
    pub coin: String,
    pub server_ms: u64,
    pub bids: Vec<QuoteTexts>,
    pub asks: Vec<QuoteTexts>,
}

/// What to do about a message.
pub enum HyperliquidAction {
    /// Nothing.
    Ignore,
    /// Log a message that is not understood.
    Report(String),
    /// Log a book message of an unexpected form.
    ReportBook(String),
    /// Read the texts of a book, and record it.
    Book(BookMessage),
}

/// The member of a document, or null where it has none.
pub open spec fn member_or_null(doc: JsonView, key: Seq<char>) -> JsonView {
    match doc.member(key) {
        Some(v) => v,
        None => JsonView::Null,
    }
}

/// Whether a book says what the data of a message say.
pub open spec fn book_says(b: BookMessage, data: JsonView, depth: nat) -> bool {
    &&& b.coin@ == match data.text_at("coin"@) {
        Some(s) => s,
        None => Seq::empty(),
    }
    &&& b.server_ms == or_zero(data.integer_at("time"@))
    &&& data.array_at("levels"@) matches Some(levels) && quotes_view(b.bids@) == side_quotes(
        levels[0],
        depth,
    ) && quotes_view(b.asks@) == side_quotes(levels[1], depth)
}

/// The reader of the feed.
#[derive(Clone, Copy, Debug, PartialEq, Eq, Structural)]
pub struct HyperliquidReader {
    /// How many levels of each side a tick holds.
    pub depth: usize,
    /// How many messages that are not understood were logged.
    pub unparsed_logged: u32,
}

/// Whether a reader logs one more message where it still may: whether it goes from `before` to
/// `after`, and `line` is what it logs.
pub open spec fn logged(
    before: HyperliquidReader,
    after: HyperliquidReader,
    line: Option<Seq<char>>,
    text: Seq<char>,
    length: nat,
) -> bool {
    &&& after.depth == before.depth
    &&& if before.unparsed_logged < REPORT_LIMIT {
        &&& line == Some(truncated(text, length))
        &&& after.unparsed_logged == before.unparsed_logged + 1
    } else {
        &&& line is None
        &&& after.unparsed_logged == before.unparsed_logged
    }
}

/// What a reader does about a message: whether it goes from `before` to `after` and asks for `r`.
pub open spec fn acted(
    before: HyperliquidReader,
    after: HyperliquidReader,
    r: HyperliquidAction,
    doc: JsonView,
    text: Seq<char>,
) -> bool {
    let channel = doc.text_at("channel"@);
    let data = member_or_null(doc, "data"@);
    if channel == Some("pong"@) || channel == Some("subscriptionResponse"@) {
        r is Ignore && after == before
    } else if channel != Some("l2Book"@) {
        match r {
            HyperliquidAction::Report(line) => logged(
                before,
                after,
                Some(line@),
                text,
                REPORT_LENGTH as nat,
            ),
            HyperliquidAction::Ignore => logged(before, after, None, text, REPORT_LENGTH as nat),
            _ => false,
        }
    } else if data.array_at("levels"@) is Some && data.array_at("levels"@)->0.len() == 2 {
        &&& r matches HyperliquidAction::Book(b)
        &&& book_says(b, data, before.depth as nat)
        &&& after == before
    } else {
        match r {
            HyperliquidAction::ReportBook(line) => logged(
                before,
                after,
                Some(line@),
                text,
                BOOK_REPORT_LENGTH as nat,
            ),
            HyperliquidAction::Ignore => logged(
                before,
                after,
                None,
                text,
                BOOK_REPORT_LENGTH as nat,
            ),
            _ => false,
        }
    }
}

impl HyperliquidReader {
    /// A reader that has logged nothing.
    pub fn new(depth: usize) -> (r: HyperliquidReader)
        ensures
            r.depth == depth,
            r.unparsed_logged == 0,
    {
        HyperliquidReader { depth, unparsed_logged: 0 }
    }

    fn log(&mut self, text: &str, length: usize) -> (r: Option<String>)
        ensures
            logged(
                *old(self),
                *final(self),
                match r {
                    Some(line) => Some(line@),
                    None => None,
                },
                text@,
                length as nat,
            ),
    {
        if self.unparsed_logged < REPORT_LIMIT {
            self.unparsed_logged = self.unparsed_logged + 1;
            Some(truncate(text, length))
        } else {
            None
        }
    }

    /// Decides what to do about a message.
    pub fn on_document(&mut self, doc: &Json, text: &str) -> (r: HyperliquidAction)
        ensures
            acted(*old(self), *final(self), r, doc@, text@),
    {
        let mut is_book: bool = false;
        if let Some(channel) = doc.get_text("channel") {
            if same_text(channel.as_str(), "pong") || same_text(
                channel.as_str(),
                "subscriptionResponse",
            ) {
                return HyperliquidAction::Ignore;
            }
            is_book = same_text(channel.as_str(), "l2Book");
        }
        if !is_book {
            return match self.log(text, REPORT_LENGTH) {
                Some(line) => HyperliquidAction::Report(line),
                None => HyperliquidAction::Ignore,
            };
        }
        if let Some(data) = doc.get("data") {
            if let Some(levels) = data.get_array("levels") {
                if levels.len() == 2 {
                    let coin: String = match data.get_text("coin") {
                        Some(s) => s.clone(),
                        None => String::new(),
                    };
                    let server_ms: u64 = match data.get_integer("time") {
                        Some(n) => n,
                        None => 0,
                    };
                    let bids: Vec<QuoteTexts> = read_quotes(&levels[0], self.depth);
                    let asks: Vec<QuoteTexts> = read_quotes(&levels[1], self.depth);
                    return HyperliquidAction::Book(BookMessage { coin, server_ms, bids, asks });
                }
            }
        }
        match self.log(text, BOOK_REPORT_LENGTH) {
            Some(line) => HyperliquidAction::ReportBook(line),
            None => HyperliquidAction::Ignore,
        }
    }

    /// Takes a text of the feed. The greeting of the server and a text that is not JSON are
    /// ignored.
    pub fn on_text(&mut self, text: &str) -> (r: HyperliquidAction)
        ensures
            if "Websocket connection"@.is_prefix_of(text@) {
                r is Ignore && *final(self) == *old(self)
            } else {
                match document(text@) {
                    Some(doc) => acted(*old(self), *final(self), r, doc, text@),
                    None => r is Ignore && *final(self) == *old(self),
                }
            },
    {
        if starts_with(text, "Websocket connection") {
            return HyperliquidAction::Ignore;
        }
        match parse_text(text) {
            Some(doc) => self.on_document(&doc, text),
            None => HyperliquidAction::Ignore,
        }
    }
}

/// The keys by which bids are put in order: the highest price first.
pub open spec fn bid_keys(levels: Seq<Level>) -> Seq<i128> {
    levels.map_values(|l: Level| (-l.price.rank()) as i128)
}

/// The keys by which asks are put in order: the lowest price first.
pub open spec fn ask_keys(levels: Seq<Level>) -> Seq<i128> {
    levels.map_values(|l: Level| l.price.rank() as i128)
}

/// Whether every price of some levels is a number.
pub open spec fn are_priced(levels: Seq<Level>) -> bool {
    forall|i: int| 0 <= i < levels.len() ==> !(#[trigger] levels[i]).price.nan()
}

fn is_priced(levels: &Vec<Level>) -> (r: bool)
    ensures
        r == are_priced(levels@),
{
    let mut i: usize = 0;
    while i < levels.len()
        invariant
            i <= levels.len(),
            forall|k: int| 0 <= k < i ==> !(#[trigger] levels@[k]).price.nan(),
        decreases levels.len() - i,
    {
        if levels[i].price.is_nan() {
            return false;
        }
        i = i + 1;
    }
    true
}

/// Whether `r` holds some levels by falling price, and levels of one price as they stand. Levels
/// with a price that is no number have no order, and stay as they came.
pub open spec fn are_bids_of(levels: Seq<Level>, r: Seq<Level>) -> bool {
    if are_priced(levels) {
        &&& falling(r)
        &&& r.to_multiset() == levels.to_multiset()
        &&& exists|order: Seq<usize>|
            stable_order(order, bid_keys(levels)) && r == #[trigger] in_order(levels, order)
    } else {
        r == levels
    }
}

/// Whether `r` holds some levels by rising price, and levels of one price as they stand. Levels
/// with a price that is no number have no order, and stay as they came.
pub open spec fn are_asks_of(levels: Seq<Level>, r: Seq<Level>) -> bool {
    if are_priced(levels) {
        &&& rising(r)
        &&& r.to_multiset() == levels.to_multiset()
        &&& exists|order: Seq<usize>|
            stable_order(order, ask_keys(levels)) && r == #[trigger] in_order(levels, order)
    } else {
        r == levels
    }
}

fn put_in_order(levels: &Vec<Level>, order: &Vec<usize>) -> (r: Vec<Level>)
    requires
        forall|i: int| 0 <= i < order.len() ==> (#[trigger] order@[i]) < levels.len(),
    ensures
        r@ == in_order(levels@, order@),
{
    let mut r: Vec<Level> = Vec::new();
    let mut i: usize = 0;
    while i < order.len()
        invariant
            i <= order.len(),
            forall|k: int| 0 <= k < order.len() ==> (#[trigger] order@[k]) < levels.len(),
            r.len() == i,
            forall|k: int| 0 <= k < i ==> #[trigger] r@[k] == levels@[order@[k] as int],
        decreases order.len() - i,
    {
        r.push(levels[order[i]]);
        i = i + 1;
    }
    proof {
        assert(r@ =~= in_order(levels@, order@));
    }
    r
}

/// Puts levels in the order of bids.
fn sorted_bids(levels: Vec<Level>) -> (r: Vec<Level>)
    ensures
        are_bids_of(levels@, r@),
{
    if !is_priced(&levels) {
        return levels;
    }
    let mut keys: Vec<i128> = Vec::new();
    let mut i: usize = 0;
    while i < levels.len()
        invariant
            i <= levels.len(),
            keys.len() == i,
            forall|k: int| 0 <= k < i ==> #[trigger] keys@[k] == -levels@[k].price.rank(),
        decreases levels.len() - i,
    {
        let rank: i128 = levels[i].price.order_key() as i128;
        keys.push(-rank);
        i = i + 1;
    }
    proof {
        assert(keys@ =~= bid_keys(levels@));
    }
    let order: Vec<usize> = order_of(&keys);
    let r: Vec<Level> = put_in_order(&levels, &order);
    proof {
        order_keeps_the_items(levels@, order@, keys@);
        assert forall|i: int, j: int| 0 <= i <= j < r@.len() implies (
        #[trigger] r@[i]).price.rank() >= (#[trigger] r@[j]).price.rank() by {
            let a = order@[i] as int;
            let b = order@[j] as int;
            assert(keys@[a] == -levels@[a].price.rank());
            assert(keys@[b] == -levels@[b].price.rank());
        }
    }
    r
}

/// Puts levels in the order of asks.
fn sorted_asks(levels: Vec<Level>) -> (r: Vec<Level>)
    ensures
        are_asks_of(levels@, r@),
{
    if !is_priced(&levels) {
        return levels;
    }
    let mut keys: Vec<i128> = Vec::new();
    let mut i: usize = 0;
    while i < levels.len()
        invariant
            i <= levels.len(),
            keys.len() == i,
            forall|k: int| 0 <= k < i ==> #[trigger] keys@[k] == levels@[k].price.rank(),
        decreases levels.len() - i,
    {
        keys.push(levels[i].price.order_key() as i128);
        i = i + 1;
    }
    proof {
        assert(keys@ =~= ask_keys(levels@));
    }
    let order: Vec<usize> = order_of(&keys);
    let r: Vec<Level> = put_in_order(&levels, &order);
    proof {
        order_keeps_the_items(levels@, order@, keys@);
        assert forall|i: int, j: int| 0 <= i <= j < r@.len() implies (
        #[trigger] r@[i]).price.rank() <= (#[trigger] r@[j]).price.rank() by {
            let a = order@[i] as int;
            let b = order@[j] as int;
            assert(keys@[a] == levels@[a].price.rank());
            assert(keys@[b] == levels@[b].price.rank());
        }
    }
    r
}

/// Whether `r` is the tick that a book message is, with the numbers that were read in its texts:
/// none where it has no level. Each message is a full snapshot, and the venue numbers none of them.
pub open spec fn is_tick_of(
    book: BookMessage,
    bids: Seq<LevelTexts>,
    asks: Seq<LevelTexts>,
    recv_ns: u64,
    recv_ms: u64,
    r: Option<Tick>,
) -> bool {
    let b = side_levels(quotes_view(book.bids@), bids);
    let a = side_levels(quotes_view(book.asks@), asks);
    match r {
        Some(t) => {
            &&& b.len() > 0 || a.len() > 0
            &&& t.recv_ns == recv_ns
            &&& t.recv_ms == recv_ms
            &&& t.server_ms == book.server_ms
            &&& t.exchange@ == "hyperliquid"@
            &&& t.symbol@ == book.coin@
            &&& t.seq == 0
            &&& t.prev_seq == 0
            &&& t.is_snapshot
            &&& are_bids_of(b, t.bids@)
            &&& are_asks_of(a, t.asks@)
        },
        None => b.len() == 0 && a.len() == 0,
    }
}

/// The tick that a book message is, with the numbers that were read in its texts; none where it
/// has no level. Each message is a full snapshot, and the venue numbers none of them.
pub fn hyperliquid_tick(
    book: &BookMessage,
    bids: &Vec<LevelTexts>,
    asks: &Vec<LevelTexts>,
    recv_ns: u64,
    recv_ms: u64,
) -> (r: Option<Tick>)
    requires
        bids.len() == book.bids.len(),
        asks.len() == book.asks.len(),
    ensures
        is_tick_of(*book, bids@, asks@, recv_ns, recv_ms, r),
{
    let top_bids: Vec<Level> = hyperliquid_side(&book.bids, bids);
    let top_asks: Vec<Level> = hyperliquid_side(&book.asks, asks);
    if top_bids.len() == 0 && top_asks.len() == 0 {
        return None;
    }
    Some(
        Tick {
            recv_ns,
            recv_ms,
            server_ms: book.server_ms,
            exchange: "hyperliquid".to_owned(),
            symbol: book.coin.clone(),
            seq: 0,
            prev_seq: 0,
            is_snapshot: true,
            bids: sorted_bids(top_bids),
            asks: sorted_asks(top_asks),
        },
    )
}

/// Whether `r` is what a function may read in a text that may be missing.
pub open spec fn is_read(
    parse: Readings,
    text: Option<Seq<char>>,
    r: Option<Double>,
) -> bool {
    match text {
        Some(s) => may_read(parse, s, r),
        None => r is None,
    }
}

/// Whether numbers are what a function may read in the texts of some levels.
pub open spec fn are_read(
    parse: Readings,
    texts: Seq<(Option<Seq<char>>, Option<Seq<char>>)>,
    read: Seq<LevelTexts>,
) -> bool {
    &&& read.len() == texts.len()
    &&& forall|i: int|
        0 <= i < read.len() ==> is_read(parse, texts[i].0, (#[trigger] read[i]).price) && is_read(
            parse,
            texts[i].1,
            read[i].size,
        )
}

fn read_number<P: Fn(&String) -> Option<Double>>(parse: &P, text: &Option<String>) -> (r: Option<
    Double,
>)
    requires
        reads_any(*parse),
    ensures
        is_read(
            readings_of(*parse),
            match *text {
                Some(s) => Some(s@),
                None => None,
            },
            r,
        ),
{
    match text {
        Some(s) => parse(s),
        None => None,
    }
}

fn read_numbers<P: Fn(&String) -> Option<Double>>(parse: &P, quotes: &Vec<QuoteTexts>) -> (r: Vec<
    LevelTexts,
>)
    requires
        reads_any(*parse),
    ensures
        are_read(readings_of(*parse), quotes_view(quotes@), r@),
{
    let mut r: Vec<LevelTexts> = Vec::new();
    let mut i: usize = 0;
    while i < quotes.len()
        invariant
            reads_any(*parse),
            i <= quotes.len(),
            r.len() == i,
            forall|k: int|
                0 <= k < i ==> is_read(
                    readings_of(*parse),
                    quotes_view(quotes@)[k].0,
                    (#[trigger] r@[k]).price,
                ) && is_read(readings_of(*parse), quotes_view(quotes@)[k].1, r@[k].size),
        decreases quotes.len() - i,
    {
        let price: Option<Double> = read_number(parse, &quotes[i].price);
        let size: Option<Double> = read_number(parse, &quotes[i].size);
        r.push(LevelTexts { price, size });
        i = i + 1;
    }
    r
}

/// What comes of a message.
pub enum HyperliquidOutcome {
    /// Nothing.
    Nothing,
    /// A message to log that is not understood.
    Report(String),
    /// A book message of an unexpected form to log.
    ReportBook(String),
    /// A tick to record.
    Tick(Tick),
}

/// Whether `r` comes of an action, with the numbers that a function may read in the texts of a
/// book.
pub open spec fn carried_out(
    parse: Readings,
    action: HyperliquidAction,
    recv_ns: u64,
    recv_ms: u64,
    r: HyperliquidOutcome,
) -> bool {
    match action {
        HyperliquidAction::Ignore => r is Nothing,
        HyperliquidAction::Report(line) => r == HyperliquidOutcome::Report(line),
        HyperliquidAction::ReportBook(line) => r == HyperliquidOutcome::ReportBook(line),
        HyperliquidAction::Book(b) => exists|
            bids: Seq<LevelTexts>,
            asks: Seq<LevelTexts>,
            tick: Option<Tick>,
        |
            #![trigger is_tick_of(b, bids, asks, recv_ns, recv_ms, tick)]
            are_read(parse, quotes_view(b.bids@), bids) && are_read(
                parse,
                quotes_view(b.asks@),
                asks,
            ) && is_tick_of(b, bids, asks, recv_ns, recv_ms, tick) && r == match tick {
                Some(t) => HyperliquidOutcome::Tick(t),
                None => HyperliquidOutcome::Nothing,
            },
    }
}

/// Carries out what is to be done about a message.
pub fn carry_out<P: Fn(&String) -> Option<Double>>(
    parse: &P,
    action: HyperliquidAction,
    recv_ns: u64,
    recv_ms: u64,
) -> (r: HyperliquidOutcome)
    requires
        reads_any(*parse),
    ensures
        carried_out(readings_of(*parse), action, recv_ns, recv_ms, r),
{
    match action {
        HyperliquidAction::Ignore => HyperliquidOutcome::Nothing,
        HyperliquidAction::Report(line) => HyperliquidOutcome::Report(line),
        HyperliquidAction::ReportBook(line) => HyperliquidOutcome::ReportBook(line),
        HyperliquidAction::Book(b) => {
            let bids: Vec<LevelTexts> = read_numbers(parse, &b.bids);
            let asks: Vec<LevelTexts> = read_numbers(parse, &b.asks);
            let tick: Option<Tick> = hyperliquid_tick(&b, &bids, &asks, recv_ns, recv_ms);
            assert(is_tick_of(b, bids@, asks@, recv_ns, recv_ms, tick));
            match tick {
                Some(t) => HyperliquidOutcome::Tick(t),
                None => HyperliquidOutcome::Nothing,
            }
        },
    }
}

/// Whether `r` comes of a text of the feed, and the reader goes from `before` to `after`.
pub open spec fn taken(
    parse: Readings,
    before: HyperliquidReader,
    after: HyperliquidReader,
    text: Seq<char>,
    recv_ns: u64,
    recv_ms: u64,
    r: HyperliquidOutcome,
) -> bool {
    if "Websocket connection"@.is_prefix_of(text) {
        r is Nothing && after == before
    } else {
        match document(text) {
            Some(doc) => exists|action: HyperliquidAction| #[trigger]
                acted(before, after, action, doc, text) && carried_out(
                    parse,
                    action,
                    recv_ns,
                    recv_ms,
                    r,
                ),
            None => r is Nothing && after == before,
        }
    }
}

impl HyperliquidReader {
    /// Takes a text of the feed that was received at a moment, and says what comes of it.
    pub fn take_text<P: Fn(&String) -> Option<Double>>(
        &mut self,
        parse: &P,
        text: &str,
        recv_ns: u64,
        recv_ms: u64,
    ) -> (r: HyperliquidOutcome)
        requires
            reads_any(*parse),
        ensures
            taken(readings_of(*parse), *old(self), *final(self), text@, recv_ns, recv_ms, r),
    {
        let action: HyperliquidAction = self.on_text(text);
        carry_out(parse, action, recv_ns, recv_ms)
    }
}

/// A reader that has logged no more messages than it may never does.
pub proof fn reports_are_limited(
    before: HyperliquidReader,
    after: HyperliquidReader,
    r: HyperliquidAction,
    doc: JsonView,
    text: Seq<char>,
)
    requires
        acted(before, after, r, doc, text),
        before.unparsed_logged <= REPORT_LIMIT,
    ensures
        after.unparsed_logged <= REPORT_LIMIT,
        (r is Report || r is ReportBook) <==> after.unparsed_logged == before.unparsed_logged + 1,
{
}

/// A side of a tick holds no more levels than were asked for.
pub proof fn side_is_no_deeper_than_asked(side: JsonView, depth: nat, read: Seq<LevelTexts>)
    ensures
        side_levels(side_quotes(side, depth), read).len() <= depth,
{
    lemma_side_is_part(side_quotes(side, depth), read);
}

proof fn lemma_side_is_part(
    texts: Seq<(Option<Seq<char>>, Option<Seq<char>>)>,
    read: Seq<LevelTexts>,
)
    ensures
        side_levels(texts, read).len() <= texts.len(),
    decreases texts.len(),
{
    if texts.len() > 0 && read.len() > 0 {
        lemma_side_is_part(texts.drop_last(), read.drop_last());
    }
}

/// A side all of whose texts are numbers is kept whole, level by level.
pub proof fn readable_side_is_kept_whole(
    texts: Seq<(Option<Seq<char>>, Option<Seq<char>>)>,
    read: Seq<LevelTexts>,
)
    requires
        texts.len() == read.len(),
        forall|i: int|
            0 <= i < texts.len() ==> quote_level(#[trigger] texts[i], read[i]) is Some,
    ensures
        side_levels(texts, read).len() == texts.len(),
        forall|i: int|
            0 <= i < texts.len() ==> Some(#[trigger] side_levels(texts, read)[i]) == quote_level(
                texts[i],
                read[i],
            ),
    decreases texts.len(),
{
    if texts.len() > 0 {
        let head = texts.drop_last();
        let head_read = read.drop_last();
        assert forall|i: int| 0 <= i < head.len() implies quote_level(
            #[trigger] head[i],
            head_read[i],
        ) is Some by {
            assert(quote_level(texts[i], read[i]) is Some);
        }
        readable_side_is_kept_whole(head, head_read);
        assert(quote_level(texts[texts.len() - 1], read[texts.len() - 1]) is Some);
        assert forall|i: int| 0 <= i < texts.len() implies Some(
            #[trigger] side_levels(texts, read)[i],
        ) == quote_level(texts[i], read[i]) by {
            if i < head.len() {
                assert(side_levels(head, head_read)[i] == side_levels(texts, read)[i]);
                assert(texts[i] == head[i] && read[i] == head_read[i]);
            }
        }
    }
}

/// Levels that a message gives in order are recorded as they came.
pub proof fn levels_in_order_stay_as_they_came(levels: Seq<Level>, r: Seq<Level>)
    requires
        levels.len() <= usize::MAX,
    ensures
        falling(levels) && are_bids_of(levels, r) ==> r == levels,
        rising(levels) && are_asks_of(levels, r) ==> r == levels,
{
    if falling(levels) && are_priced(levels) && are_bids_of(levels, r) {
        let keys = bid_keys(levels);
        let order = choose|order: Seq<usize>|
            stable_order(order, keys) && r == #[trigger] in_order(levels, order);
        assert forall|i: int, j: int| 0 <= i <= j < keys.len() implies #[trigger] keys[i]
            <= #[trigger] keys[j] by {
            assert(levels[i].price.rank() >= levels[j].price.rank());
        }
        row_in_order_stays(order, keys);
        assert(in_order(levels, order) =~= levels);
    }
    if rising(levels) && are_priced(levels) && are_asks_of(levels, r) {
        let keys = ask_keys(levels);
        let order = choose|order: Seq<usize>|
            stable_order(order, keys) && r == #[trigger] in_order(levels, order);
        assert forall|i: int, j: int| 0 <= i <= j < keys.len() implies #[trigger] keys[i]
            <= #[trigger] keys[j] by {
            assert(levels[i].price.rank() <= levels[j].price.rank());
        }
        row_in_order_stays(order, keys);
        assert(in_order(levels, order) =~= levels);
    }
}

/// A tick that a message is holds bids that never rise in price and asks that never fall, where
/// their prices are numbers, and at most `depth` of each.
pub proof fn recorded_levels_are_in_order(
    t: Tick,
    book: BookMessage,
    data: JsonView,
    depth: nat,
    bids: Seq<LevelTexts>,
    asks: Seq<LevelTexts>,
)
    requires
        book_says(book, data, depth),
        is_tick_of(book, bids, asks, t.recv_ns, t.recv_ms, Some(t)),
    ensures
        are_priced(t.bids@) ==> falling(t.bids@),
        are_priced(t.asks@) ==> rising(t.asks@),
        t.bids@.len() <= depth,
        t.asks@.len() <= depth,
        t.bids@.len() > 0 || t.asks@.len() > 0,
{
    broadcast use vstd::seq_lib::group_to_multiset_ensures;

    lemma_side_is_part(quotes_view(book.bids@), bids);
    lemma_side_is_part(quotes_view(book.asks@), asks);
    assert(t.bids@.to_multiset().len() == t.bids@.len());
    assert(t.asks@.to_multiset().len() == t.asks@.len());
}

} // verus!
