//! What is recorded of the book messages of Hyperliquid, and what becomes of its other messages.

use vstd::prelude::*;

use crate::arithmetic::{may_read, Readings};
use crate::double::Double;
use crate::hyperliquid::{
    acted, are_asks_of, are_bids_of, are_priced, are_read, ask_keys, bid_keys, carried_out,
    is_tick_of, levels_in_order_stay_as_they_came, quotes_view, side_levels, side_quotes, taken,
    HyperliquidAction, HyperliquidOutcome, HyperliquidReader,
};
use crate::json::{document, JsonView};
use crate::lighter::LevelTexts;
use crate::sorting::{in_order, order_keeps_ties, stable_order};
use crate::tick::{falling, rising, Level, Tick};

verus! {

/// Whether a number is what may be read in the text under a name of a level; there is none where
/// there is no text.
pub open spec fn reads_under(
    parse: Readings,
    level: JsonView,
    name: Seq<char>,
    r: Option<Double>,
) -> bool {
    match level.member(name) {
        Some(JsonView::Text(s)) => may_read(parse, s, r),
        _ => r is None,
    }
}

/// Whether `read` is what may be read in the first `depth` levels of a side.
pub open spec fn reads_side(
    parse: Readings,
    side: JsonView,
    depth: nat,
    read: Seq<LevelTexts>,
) -> bool {
    match side {
        JsonView::Array(levels) => {
            &&& read.len() == if depth < levels.len() {
                depth
            } else {
                levels.len()
            }
            &&& forall|i: int|
                0 <= i < read.len() ==> reads_under(
                    parse,
                    levels[i],
                    "px"@,
                    (#[trigger] read[i]).price,
                ) && reads_under(parse, levels[i], "sz"@, read[i].size)
        },
        _ => read.len() == 0,
    }
}

/// The levels of which both numbers were read, in order.
pub open spec fn whole_levels(read: Seq<LevelTexts>) -> Seq<Level> {
    read.filter(|x: LevelTexts| x.price is Some && x.size is Some).map_values(
        |x: LevelTexts| Level { price: x.price->0, size: x.size->0 },
    )
}

/// Whether a side is recorded as `levels`: all levels that were read, the highest price first or
/// the lowest, and those of one price as they came. Levels that came in that order, or of which one
/// has no number for a price, stay as they came.
pub open spec fn records_side(
    read: Seq<LevelTexts>,
    levels: Seq<Level>,
    highest_first: bool,
) -> bool {
    let given = whole_levels(read);
    let ordered = if highest_first {
        falling(given)
    } else {
        rising(given)
    };
    let is_priced = forall|i: int| 0 <= i < given.len() ==> !(#[trigger] given[i]).price.nan();
    &&& levels.to_multiset() == given.to_multiset()
    &&& levels.len() == given.len()
    &&& is_priced ==> if highest_first {
        falling(levels)
    } else {
        rising(levels)
    }
    &&& !is_priced || ordered ==> levels == given
    &&& forall|rank: i64|
        levels.filter(has_rank(rank)) == #[trigger] given.filter(has_rank(rank))
}

/// Whether the price of a level has a rank: whether it is one price.
pub open spec fn has_rank(rank: i64) -> spec_fn(Level) -> bool {
    |l: Level| l.price.rank() == rank
}

proof fn lemma_ties(given: Seq<Level>, levels: Seq<Level>, rank: i64)
    requires
        given.len() <= usize::MAX,
        are_bids_of(given, levels) || are_asks_of(given, levels),
    ensures
        levels.filter(has_rank(rank)) == given.filter(has_rank(rank)),
{
    if are_priced(given) {
        if are_bids_of(given, levels) {
            let keys = bid_keys(given);
            let order = choose|order: Seq<usize>|
                stable_order(order, keys) && levels == #[trigger] in_order(given, order);
            order_keeps_ties(given, order, keys, -(rank as int) as i128, has_rank(rank));
        } else {
            let keys = ask_keys(given);
            let order = choose|order: Seq<usize>|
                stable_order(order, keys) && levels == #[trigger] in_order(given, order);
            order_keeps_ties(given, order, keys, rank as i128, has_rank(rank));
        }
    }
}

proof fn lemma_whole(
    parse: Readings,
    texts: Seq<(Option<Seq<char>>, Option<Seq<char>>)>,
    read: Seq<LevelTexts>,
)
    requires
        are_read(parse, texts, read),
    ensures
        side_levels(texts, read) == whole_levels(read),
    decreases read.len(),
{
    reveal(Seq::filter);
    let both = |x: LevelTexts| x.price is Some && x.size is Some;
    if read.len() > 0 {
        let n = read.len() - 1;
        let head = texts.drop_last();
        let short = read.drop_last();
        assert forall|i: int| 0 <= i < short.len() implies crate::hyperliquid::is_read(
            parse,
            head[i].0,
            (#[trigger] short[i]).price,
        ) && crate::hyperliquid::is_read(parse, head[i].1, short[i].size) by {
            assert(short[i] == read[i]);
            assert(head[i] == texts[i]);
        }
        lemma_whole(parse, head, short);
        assert(read[n] == read.last());
        assert(texts[n] == texts.last());
        assert(whole_levels(read) =~= if both(read.last()) {
            whole_levels(short).push(
                Level { price: read.last().price->0, size: read.last().size->0 },
            )
        } else {
            whole_levels(short)
        });
    } else {
        assert(whole_levels(read) =~= Seq::empty());
    }
}

proof fn lemma_side(parse: Readings, side: JsonView, depth: nat, read: Seq<LevelTexts>)
    requires
        are_read(parse, side_quotes(side, depth), read),
    ensures
        reads_side(parse, side, depth, read),
        side_levels(side_quotes(side, depth), read) == whole_levels(read),
{
    let quotes = side_quotes(side, depth);
    lemma_whole(parse, quotes, read);
    if let JsonView::Array(levels) = side {
        assert forall|i: int| 0 <= i < read.len() implies reads_under(
            parse,
            levels[i],
            "px"@,
            (#[trigger] read[i]).price,
        ) && reads_under(parse, levels[i], "sz"@, read[i].size) by {
            assert(quotes[i] == (levels[i].text_at("px"@), levels[i].text_at("sz"@)));
        }
    }
}

/// The text under a name of a document, or nothing.
pub open spec fn text_or_nothing(doc: JsonView, name: Seq<char>, s: Seq<char>) -> bool {
    match doc.member(name) {
        Some(JsonView::Text(x)) => s == x,
        _ => s.len() == 0,
    }
}

/// A book message with both of its sides is recorded: when it came, when Hyperliquid sent it, its
/// coin, and of either side the first levels that can be read, as many as the depth allows, the
/// bids from its first list and the asks from its second. Each is a snapshot without a number. A
/// message without a level that can be read is not recorded.
pub proof fn book_message_is_recorded(
    parse: Readings,
    before: HyperliquidReader,
    after: HyperliquidReader,
    text: Seq<char>,
    recv_ns: u64,
    recv_ms: u64,
    r: HyperliquidOutcome,
    doc: JsonView,
    data: JsonView,
    levels: Seq<JsonView>,
) -> (read: (Seq<LevelTexts>, Seq<LevelTexts>))
    requires
        taken(parse, before, after, text, recv_ns, recv_ms, r),
        !"Websocket connection"@.is_prefix_of(text),
        document(text) == Some(doc),
        doc.text_at("channel"@) == Some("l2Book"@),
        doc.member("data"@) == Some(data),
        data.array_at("levels"@) == Some(levels),
        levels.len() == 2,
    ensures
        after == before,
        reads_side(parse, levels[0], before.depth as nat, read.0),
        reads_side(parse, levels[1], before.depth as nat, read.1),
        r is Tick || r is Nothing,
        r is Nothing <==> whole_levels(read.0).len() == 0 && whole_levels(read.1).len() == 0,
        r matches HyperliquidOutcome::Tick(t) ==> {
            &&& t.recv_ns == recv_ns
            &&& t.recv_ms == recv_ms
            &&& t.exchange@ == "hyperliquid"@
            &&& text_or_nothing(data, "coin"@, t.symbol@)
            &&& crate::rebuilding::number_or_zero(data, "time"@, t.server_ms)
            &&& t.seq == 0
            &&& t.prev_seq == 0
            &&& t.is_snapshot
            &&& records_side(read.0, t.bids@, true)
            &&& records_side(read.1, t.asks@, false)
        },
{
    broadcast use vstd::seq_lib::group_to_multiset_ensures;

    lemma_channels();
    let action = choose|action: HyperliquidAction| #[trigger]
        acted(before, after, action, doc, text) && carried_out(parse, action, recv_ns, recv_ms, r);
    let b = action->Book_0;
    let (bids, asks, tick) = choose|
        bids: Seq<LevelTexts>,
        asks: Seq<LevelTexts>,
        tick: Option<Tick>,
    |
        #![trigger is_tick_of(b, bids, asks, recv_ns, recv_ms, tick)]
        are_read(parse, quotes_view(b.bids@), bids) && are_read(parse, quotes_view(b.asks@), asks)
            && is_tick_of(b, bids, asks, recv_ns, recv_ms, tick) && r == match tick {
            Some(t) => HyperliquidOutcome::Tick(t),
            None => HyperliquidOutcome::Nothing,
        };
    lemma_side(parse, levels[0], before.depth as nat, bids);
    lemma_side(parse, levels[1], before.depth as nat, asks);
    if let Some(t) = tick {
        let x = whole_levels(bids);
        let y = whole_levels(asks);
        assert(t.bids@.to_multiset().len() == x.to_multiset().len());
        assert(t.asks@.to_multiset().len() == y.to_multiset().len());
        assert(t.bids@.len() == x.len());
        assert(t.asks@.len() == y.len());
        assert(t.bids@.len() == t.bids.len());
        assert(t.asks@.len() == t.asks.len());
        levels_in_order_stay_as_they_came(x, t.bids@);
        levels_in_order_stay_as_they_came(y, t.asks@);
        assert forall|rank: i64|
            t.bids@.filter(has_rank(rank)) == #[trigger] x.filter(has_rank(rank)) by {
            lemma_ties(x, t.bids@, rank);
        }
        assert forall|rank: i64|
            t.asks@.filter(has_rank(rank)) == #[trigger] y.filter(has_rank(rank)) by {
            lemma_ties(y, t.asks@, rank);
        }
    }
    (bids, asks)
}

proof fn lemma_channels()
    ensures
        "l2Book"@ != "pong"@,
        "l2Book"@ != "subscriptionResponse"@,
{
    reveal_strlit("l2Book");
    reveal_strlit("pong");
    reveal_strlit("subscriptionResponse");
    assert("l2Book"@.len() == 6);
    assert("pong"@.len() == 4);
    assert("subscriptionResponse"@.len() == 20);
}

/// Whether a line is a text, cut to a length, with an ellipsis for what is left out.
pub open spec fn is_cut(text: Seq<char>, length: nat, line: Seq<char>) -> bool {
    if text.len() <= length {
        line == text
    } else {
        line == text.take(length as int) + "…"@
    }
}

/// The greeting of the server, a text that is no document, an answer to a ping and an answer to a
/// subscription are ignored.
pub proof fn chatter_is_ignored(
    parse: Readings,
    before: HyperliquidReader,
    after: HyperliquidReader,
    text: Seq<char>,
    recv_ns: u64,
    recv_ms: u64,
    r: HyperliquidOutcome,
)
    requires
        taken(parse, before, after, text, recv_ns, recv_ms, r),
        "Websocket connection"@.is_prefix_of(text) || document(text) is None || document(
            text,
        )->0.text_at("channel"@) == Some("pong"@) || document(text)->0.text_at("channel"@) == Some(
            "subscriptionResponse"@,
        ),
    ensures
        r is Nothing,
        after == before,
{
}

/// Of the messages of other channels, and of book messages without two sides, the first three are
/// reported: the former cut to two hundred characters, the latter to three hundred.
pub proof fn three_strange_messages_are_reported(
    parse: Readings,
    before: HyperliquidReader,
    after: HyperliquidReader,
    text: Seq<char>,
    recv_ns: u64,
    recv_ms: u64,
    r: HyperliquidOutcome,
    doc: JsonView,
)
    requires
        taken(parse, before, after, text, recv_ns, recv_ms, r),
        !"Websocket connection"@.is_prefix_of(text),
        document(text) == Some(doc),
        doc.text_at("channel"@) != Some("pong"@),
        doc.text_at("channel"@) != Some("subscriptionResponse"@),
        doc.text_at("channel"@) == Some("l2Book"@) ==> doc.member("data"@) is None || doc.member(
            "data"@,
        )->0.array_at("levels"@) is None || doc.member("data"@)->0.array_at("levels"@)->0.len()
            != 2,
    ensures
        after.depth == before.depth,
        before.unparsed_logged >= 3 ==> r is Nothing && after == before,
        before.unparsed_logged < 3 ==> after.unparsed_logged == before.unparsed_logged + 1,
        before.unparsed_logged < 3 && doc.text_at("channel"@) != Some("l2Book"@) ==> (r matches
            HyperliquidOutcome::Report(line) && is_cut(text, 200, line@)),
        before.unparsed_logged < 3 && doc.text_at("channel"@) == Some("l2Book"@) ==> (r matches
            HyperliquidOutcome::ReportBook(line) && is_cut(text, 300, line@)),
{
    lemma_channels();
    let action = choose|action: HyperliquidAction| #[trigger]
        acted(before, after, action, doc, text) && carried_out(parse, action, recv_ns, recv_ms, r);
    assert(JsonView::Null.array_at("levels"@) is None);
}

} // verus!
