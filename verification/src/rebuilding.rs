//! What the messages of Lighter do to its books, level by level, and what is recorded of them.

use vstd::prelude::*;

use crate::arithmetic::{may_read, Readings};
use crate::double::Double;
use crate::json::{document, JsonView};
use crate::lighter::{
    acted, are_read, asked_for, carried_out, changes_of, channel_names_its_market, connected,
    field_at, fields_view, found, last_symbol, market_number, market_of, missing, side_fields,
    taken, updated, BookUpdate, Field, LevelFields, LevelTexts, LighterAction, LighterOutcome,
    LighterReader,
};
use crate::lighter_book::{
    applied, best_asks, best_bids, keys_in_order, listing_exists, LevelChange,
};
use crate::rounding::{key_spec, price_spec};
use crate::text::decimal;
use crate::tick::{Level, Tick};

verus! {

broadcast use {
    vstd::std_specs::hash::group_hash_axioms,
    vstd::std_specs::btree::group_btree_axioms,
};

/// Whether a level of a message gives a number under a name: the one that may be read in its text,
/// or the number itself.
pub open spec fn gives(
    parse: Readings,
    level: JsonView,
    name: Seq<char>,
    r: Option<Double>,
) -> bool {
    match level.member(name) {
        Some(JsonView::Text(s)) => may_read(parse, s, r),
        Some(JsonView::Number(n)) => r == n.double,
        _ => r is None,
    }
}

/// Whether `told` is what the list of levels under a name gives, level by level.
pub open spec fn tells(
    parse: Readings,
    order_book: JsonView,
    side: Seq<char>,
    told: Seq<LevelChange>,
) -> bool {
    match order_book.array_at(side) {
        Some(levels) => told.len() == levels.len() && forall|i: int|
            0 <= i < told.len() ==> gives(parse, levels[i], "price"@, (#[trigger] told[i]).price)
                && gives(parse, levels[i], "size"@, told[i].size),
        None => told.len() == 0,
    }
}

/// Whether a level speaks of a key: whether it has a price with that key, and a size.
pub open spec fn speaks_of(told: LevelChange, key: i64) -> bool {
    match (told.price, told.size) {
        (Some(price), Some(_)) => key_spec(price) == key,
        _ => false,
    }
}

/// Whether a level is the last one that speaks of a key.
pub open spec fn has_the_last_word(told: Seq<LevelChange>, i: int, key: i64) -> bool {
    &&& 0 <= i < told.len()
    &&& speaks_of(told[i], key)
    &&& forall|j: int| i < j < told.len() ==> !speaks_of(#[trigger] told[j], key)
}

/// Whether a side went from `before` to `after` as some levels told: at each key that they speak
/// of, the last word counts, and a size at or below zero takes the level away; at every other key
/// nothing changes.
pub open spec fn follows(
    before: Map<i64, Double>,
    told: Seq<LevelChange>,
    after: Map<i64, Double>,
) -> bool {
    &&& forall|key: i64, i: int| #[trigger]
        has_the_last_word(told, i, key) ==> if told[i].size->0.le(Double { bits: 0 }) {
            !after.contains_key(key)
        } else {
            after.contains_key(key) && after[key] == told[i].size->0
        }
    &&& forall|key: i64|
        (forall|i: int| 0 <= i < told.len() ==> !speaks_of(#[trigger] told[i], key)) ==> (
        #[trigger] after.contains_key(key) <==> before.contains_key(key)) && (after.contains_key(
            key,
        ) ==> after[key] == before[key])
}

proof fn lemma_key(price: Double)
    ensures
        i64::MIN <= key_spec(price) <= i64::MAX,
{
}

proof fn lemma_last_word(side: Map<i64, Double>, told: Seq<LevelChange>, i: int, key: i64)
    requires
        has_the_last_word(told, i, key),
    ensures
        told[i].size->0.le(Double { bits: 0 }) ==> !applied(side, told).contains_key(key),
        !told[i].size->0.le(Double { bits: 0 }) ==> applied(side, told).contains_key(key)
            && applied(side, told)[key] == told[i].size->0,
    decreases told.len(),
{
    let short = told.drop_last();
    let last = told.last();
    if last.price is Some {
        lemma_key(last.price->0);
    }
    if i < told.len() - 1 {
        assert(short[i] == told[i]);
        assert forall|j: int| i < j < short.len() implies !speaks_of(#[trigger] short[j], key) by {
            assert(short[j] == told[j]);
        }
        assert(!speaks_of(told[told.len() - 1], key));
        lemma_last_word(side, short, i, key);
    }
}

proof fn lemma_no_word(side: Map<i64, Double>, told: Seq<LevelChange>, key: i64)
    requires
        forall|i: int| 0 <= i < told.len() ==> !speaks_of(#[trigger] told[i], key),
    ensures
        applied(side, told).contains_key(key) == side.contains_key(key),
        side.contains_key(key) ==> applied(side, told)[key] == side[key],
    decreases told.len(),
{
    if told.len() > 0 {
        let short = told.drop_last();
        let last = told.last();
        if last.price is Some {
            lemma_key(last.price->0);
        }
        assert forall|i: int| 0 <= i < short.len() implies !speaks_of(#[trigger] short[i], key) by {
            assert(short[i] == told[i]);
        }
        assert(!speaks_of(told[told.len() - 1], key));
        lemma_no_word(side, short, key);
    }
}

/// A delta sets each level that it speaks of, takes away those of no size, and leaves the others.
pub proof fn delta_follows_its_levels(
    before: Map<i64, Double>,
    told: Seq<LevelChange>,
    after: Map<i64, Double>,
)
    requires
        after == applied(before, told),
    ensures
        follows(before, told, after),
{
    assert forall|key: i64, i: int| #[trigger] has_the_last_word(told, i, key) implies if told[i].size->0.le(
        Double { bits: 0 },
    ) {
        !after.contains_key(key)
    } else {
        after.contains_key(key) && after[key] == told[i].size->0
    } by {
        lemma_last_word(before, told, i, key);
    }
    assert forall|key: i64|
        (forall|i: int| 0 <= i < told.len() ==> !speaks_of(#[trigger] told[i], key)) implies (
    #[trigger] after.contains_key(key) <==> before.contains_key(key)) && (after.contains_key(key)
        ==> after[key] == before[key]) by {
        lemma_no_word(before, told, key);
    }
}

/// Whether a document is a message about the book of a market, a snapshot or a delta: whether its
/// channel ends with a colon and the number of the market.
pub open spec fn is_about(doc: JsonView, id: u8, is_snapshot: bool) -> bool {
    &&& doc.text_at("type"@) == Some(
        if is_snapshot {
            "subscribed/order_book"@
        } else {
            "update/order_book"@
        },
    )
    &&& exists|head: Seq<char>|
        doc.text_at("channel"@) == Some(#[trigger] head.push(':') + decimal(id as nat))
}

proof fn lemma_market(doc: JsonView, id: u8, is_snapshot: bool)
    requires
        is_about(doc, id, is_snapshot),
    ensures
        market_of(doc) == Some(id as nat),
{
    let head = choose|head: Seq<char>|
        doc.text_at("channel"@) == Some(#[trigger] head.push(':') + decimal(id as nat));
    channel_names_its_market(head, id as nat);
}

/// Whether nothing but the book of a market differs between two readers.
pub open spec fn only_touches(before: LighterReader, after: LighterReader, id: u8) -> bool {
    &&& after.depth == before.depth
    &&& after.unparsed_logged == before.unparsed_logged
    &&& forall|other: u8| #[trigger]
        after.books@.contains_key(other) <==> before.books@.contains_key(other)
    &&& forall|other: u8| #[trigger]
        after.books@.contains_key(other) && other != id ==> after.books@[other]
            == before.books@[other]
}

proof fn lemma_types()
    ensures
        "subscribed/order_book"@ != "update/order_book"@,
        "ping"@ != "subscribed/order_book"@,
        "ping"@ != "update/order_book"@,
        "connected"@ != "subscribed/order_book"@,
        "connected"@ != "update/order_book"@,
        "ping"@ != "connected"@,
{
    reveal_strlit("subscribed/order_book");
    reveal_strlit("update/order_book");
    reveal_strlit("ping");
    reveal_strlit("connected");
    assert("subscribed/order_book"@.len() == 21);
    assert("update/order_book"@.len() == 17);
    assert("ping"@.len() == 4);
    assert("connected"@.len() == 9);
}

proof fn lemma_tells(
    parse: Readings,
    order_book: JsonView,
    side: Seq<char>,
    read: Seq<LevelTexts>,
)
    requires
        are_read(parse, side_fields(order_book, side), read),
    ensures
        tells(parse, order_book, side, changes_of(side_fields(order_book, side), read)),
{
    let fields = side_fields(order_book, side);
    let told = changes_of(fields, read);
    if let Some(levels) = order_book.array_at(side) {
        assert forall|i: int| 0 <= i < told.len() implies gives(
            parse,
            levels[i],
            "price"@,
            (#[trigger] told[i]).price,
        ) && gives(parse, levels[i], "size"@, told[i].size) by {
            assert(fields[i] == (field_at(levels[i], "price"@), field_at(levels[i], "size"@)));
            let here = read[i];
        }
    }
}

/// A message about a market changes its book alone, and on each side as its levels tell: the last
/// word on a price counts, a size at or below zero takes the level away, and a price that the
/// message does not speak of keeps what it had; after a snapshot it has nothing.
pub proof fn message_sets_both_sides(
    parse: Readings,
    before: LighterReader,
    after: LighterReader,
    text: Seq<char>,
    recv_ns: u64,
    recv_ms: u64,
    r: LighterOutcome,
    doc: JsonView,
    order_book: JsonView,
    id: u8,
    is_snapshot: bool,
) -> (told: (Seq<LevelChange>, Seq<LevelChange>))
    requires
        taken(parse, before, after, text, recv_ns, recv_ms, r),
        document(text) == Some(doc),
        is_about(doc, id, is_snapshot),
        doc.member("order_book"@) == Some(order_book),
        before.books@.contains_key(id),
    ensures
        tells(parse, order_book, "bids"@, told.0),
        tells(parse, order_book, "asks"@, told.1),
        only_touches(before, after, id),
        after.books@[id].symbol@ == before.books@[id].symbol@,
        follows(
            if is_snapshot {
                Map::empty()
            } else {
                before.books@[id].bids@
            },
            told.0,
            after.books@[id].bids@,
        ),
        follows(
            if is_snapshot {
                Map::empty()
            } else {
                before.books@[id].asks@
            },
            told.1,
            after.books@[id].asks@,
        ),
{
    lemma_types();
    lemma_market(doc, id, is_snapshot);
    let (between, action) = choose|between: LighterReader, action: LighterAction| #[trigger]
        acted(before, between, action, doc, text) && carried_out(
            parse,
            between,
            after,
            action,
            recv_ns,
            recv_ms,
            r,
        );
    let u = action->Update_0;
    assert(u.market_id == id);
    let (bids, asks, tick) = choose|
        bids: Seq<LevelTexts>,
        asks: Seq<LevelTexts>,
        tick: Option<Tick>,
    |
        #![trigger updated(between, after, u, bids, asks, recv_ns, recv_ms, tick)]
        are_read(parse, fields_view(u.bids@), bids) && are_read(parse, fields_view(u.asks@), asks)
            && updated(between, after, u, bids, asks, recv_ns, recv_ms, tick) && r == match tick {
            Some(t) => LighterOutcome::Tick(t),
            None => LighterOutcome::Nothing,
        };
    lemma_tells(parse, order_book, "bids"@, bids);
    lemma_tells(parse, order_book, "asks"@, asks);
    let b = changes_of(fields_view(u.bids@), bids);
    let a = changes_of(fields_view(u.asks@), asks);
    delta_follows_its_levels(between.books@[id].bids@, b, after.books@[id].bids@);
    delta_follows_its_levels(between.books@[id].asks@, a, after.books@[id].asks@);
    (b, a)
}

/// Whether `levels` are the best of a side, as many of them as a depth allows, and `keys` are their
/// keys: the highest first, or the lowest first. No key that is left out beats one of them.
pub open spec fn shows_the_best(
    levels: Seq<Level>,
    side: Map<i64, Double>,
    depth: nat,
    highest_first: bool,
    keys: Seq<i64>,
) -> bool {
    &&& keys.len() == levels.len()
    &&& levels.len() == if depth < side.dom().len() {
        depth
    } else {
        side.dom().len()
    }
    &&& forall|i: int|
        0 <= i < keys.len() ==> side.contains_key(#[trigger] keys[i]) && levels[i].price
            == price_spec(keys[i] as int) && levels[i].size == side[keys[i]]
    &&& forall|i: int, j: int|
        0 <= i < j < keys.len() ==> if highest_first {
            #[trigger] keys[i] > #[trigger] keys[j]
        } else {
            keys[i] < keys[j]
        }
    &&& forall|k: i64, i: int|
        side.contains_key(k) && !(#[trigger] keys.contains(k)) && 0 <= i < keys.len() ==> if highest_first {
            k < #[trigger] keys[i]
        } else {
            keys[i] < k
        }
}

proof fn lemma_best_bids(side: Map<i64, Double>, depth: nat) -> (keys: Seq<i64>)
    requires
        side.dom().finite(),
    ensures
        shows_the_best(best_bids(side, depth), side, depth, true, keys),
{
    listing_exists(side);
    let all = keys_in_order(side);
    let n = all.len();
    let count = if depth < n {
        depth
    } else {
        n
    };
    let keys = Seq::new(count, |i: int| all[n - 1 - i]);
    let levels = best_bids(side, depth);
    assert forall|i: int| 0 <= i < keys.len() implies side.contains_key(#[trigger] keys[i])
        && levels[i].price == price_spec(keys[i] as int) && levels[i].size == side[keys[i]] by {
        assert(all.contains(all[n - 1 - i]));
    }
    assert forall|k: i64, i: int|
        side.contains_key(k) && !(#[trigger] keys.contains(k)) && 0 <= i < keys.len() implies k
        < #[trigger] keys[i] by {
        assert(all.contains(k));
        let at = choose|at: int| 0 <= at < all.len() && all[at] == k;
        if n - 1 - at < count {
            assert(keys[n - 1 - at] == k);
        }
    }
    keys
}

proof fn lemma_best_asks(side: Map<i64, Double>, depth: nat) -> (keys: Seq<i64>)
    requires
        side.dom().finite(),
    ensures
        shows_the_best(best_asks(side, depth), side, depth, false, keys),
{
    listing_exists(side);
    let all = keys_in_order(side);
    let n = all.len();
    let count = if depth < n {
        depth
    } else {
        n
    };
    let keys = Seq::new(count, |i: int| all[i]);
    let levels = best_asks(side, depth);
    assert forall|i: int| 0 <= i < keys.len() implies side.contains_key(#[trigger] keys[i])
        && levels[i].price == price_spec(keys[i] as int) && levels[i].size == side[keys[i]] by {
        assert(all.contains(all[i]));
    }
    assert forall|k: i64, i: int|
        side.contains_key(k) && !(#[trigger] keys.contains(k)) && 0 <= i < keys.len() implies
        #[trigger] keys[i] < k by {
        assert(all.contains(k));
        let at = choose|at: int| 0 <= at < all.len() && all[at] == k;
        if at < count {
            assert(keys[at] == k);
        }
    }
    keys
}

/// The integer under a name of a document, or zero.
pub open spec fn number_or_zero(doc: JsonView, name: Seq<char>, n: u64) -> bool {
    match doc.member(name) {
        Some(JsonView::Number(x)) => match x.integer {
            Some(i) => n == i,
            None => n == 0,
        },
        _ => n == 0,
    }
}

/// A message about a market that leaves a level to show is recorded: when it came, when Lighter
/// sent it, its own number and the one before, what it is, and the best levels of both sides of
/// the book as the message leaves it. A book without levels to show is not recorded.
pub proof fn message_is_recorded(
    parse: Readings,
    before: LighterReader,
    after: LighterReader,
    text: Seq<char>,
    recv_ns: u64,
    recv_ms: u64,
    r: LighterOutcome,
    doc: JsonView,
    order_book: JsonView,
    id: u8,
    is_snapshot: bool,
) -> (keys: (Seq<i64>, Seq<i64>))
    requires
        taken(parse, before, after, text, recv_ns, recv_ms, r),
        document(text) == Some(doc),
        is_about(doc, id, is_snapshot),
        doc.member("order_book"@) == Some(order_book),
        before.books@.contains_key(id),
    ensures
        r is Tick || r is Nothing,
        r is Tick <==> before.depth > 0 && (after.books@[id].bids@.dom().len() > 0
            || after.books@[id].asks@.dom().len() > 0),
        r matches LighterOutcome::Tick(t) ==> {
            &&& t.recv_ns == recv_ns
            &&& t.recv_ms == recv_ms
            &&& t.exchange@ == "lighter"@
            &&& t.symbol@ == before.books@[id].symbol@
            &&& t.is_snapshot == is_snapshot
            &&& number_or_zero(doc, "timestamp"@, t.server_ms)
            &&& number_or_zero(order_book, "nonce"@, t.seq)
            &&& number_or_zero(order_book, "begin_nonce"@, t.prev_seq)
            &&& shows_the_best(
                t.bids@,
                after.books@[id].bids@,
                before.depth as nat,
                true,
                keys.0,
            )
            &&& shows_the_best(
                t.asks@,
                after.books@[id].asks@,
                before.depth as nat,
                false,
                keys.1,
            )
        },
{
    lemma_types();
    lemma_market(doc, id, is_snapshot);
    let (between, action) = choose|between: LighterReader, action: LighterAction| #[trigger]
        acted(before, between, action, doc, text) && carried_out(
            parse,
            between,
            after,
            action,
            recv_ns,
            recv_ms,
            r,
        );
    let u = action->Update_0;
    assert(u.market_id == id);
    let (bids, asks, tick) = choose|
        bids: Seq<LevelTexts>,
        asks: Seq<LevelTexts>,
        tick: Option<Tick>,
    |
        #![trigger updated(between, after, u, bids, asks, recv_ns, recv_ms, tick)]
        are_read(parse, fields_view(u.bids@), bids) && are_read(parse, fields_view(u.asks@), asks)
            && updated(between, after, u, bids, asks, recv_ns, recv_ms, tick) && r == match tick {
            Some(t) => LighterOutcome::Tick(t),
            None => LighterOutcome::Nothing,
        };
    let b = lemma_best_bids(after.books@[id].bids@, before.depth as nat);
    let a = lemma_best_asks(after.books@[id].asks@, before.depth as nat);
    (b, a)
}

/// A snapshot or a delta without an order book records nothing; the snapshot empties the book of
/// its market, and the delta changes nothing.
pub proof fn message_without_a_book_records_nothing(
    parse: Readings,
    before: LighterReader,
    after: LighterReader,
    text: Seq<char>,
    recv_ns: u64,
    recv_ms: u64,
    r: LighterOutcome,
    doc: JsonView,
    id: u8,
    is_snapshot: bool,
)
    requires
        taken(parse, before, after, text, recv_ns, recv_ms, r),
        document(text) == Some(doc),
        is_about(doc, id, is_snapshot),
        doc.member("order_book"@) is None,
        before.books@.contains_key(id),
    ensures
        r is Nothing,
        !is_snapshot ==> after == before,
        only_touches(before, after, id),
        after.books@[id].symbol@ == before.books@[id].symbol@,
        is_snapshot ==> after.books@[id].bids@ == Map::<i64, Double>::empty()
            && after.books@[id].asks@ == Map::<i64, Double>::empty(),
{
    lemma_types();
    lemma_market(doc, id, is_snapshot);
}

/// A message about a market that was not asked for is ignored.
pub proof fn message_of_another_market_is_ignored(
    parse: Readings,
    before: LighterReader,
    after: LighterReader,
    text: Seq<char>,
    recv_ns: u64,
    recv_ms: u64,
    r: LighterOutcome,
    doc: JsonView,
    id: u8,
    is_snapshot: bool,
)
    requires
        taken(parse, before, after, text, recv_ns, recv_ms, r),
        document(text) == Some(doc),
        is_about(doc, id, is_snapshot),
        !before.books@.contains_key(id),
    ensures
        r is Nothing,
        after == before,
{
    lemma_types();
    lemma_market(doc, id, is_snapshot);
}

/// A text that is no document and a greeting are ignored, a ping is answered, and of messages of
/// any other type the first three are reported, cut to two hundred characters with an ellipsis
/// behind them. None of them changes a book.
pub proof fn other_messages_change_no_book(
    parse: Readings,
    before: LighterReader,
    after: LighterReader,
    text: Seq<char>,
    recv_ns: u64,
    recv_ms: u64,
    r: LighterOutcome,
)
    requires
        taken(parse, before, after, text, recv_ns, recv_ms, r),
        document(text) matches Some(doc) ==> doc.text_at("type"@) != Some("subscribed/order_book"@)
            && doc.text_at("type"@) != Some("update/order_book"@),
    ensures
        after.books == before.books,
        after.depth == before.depth,
        !(r is Tick),
        r is Pong <==> (document(text) matches Some(doc) && doc.text_at("type"@) == Some("ping"@)),
        r is Report <==> before.unparsed_logged < 3 && (document(text) matches Some(doc)
            && doc.text_at("type"@) != Some("ping"@) && doc.text_at("type"@) != Some(
            "connected"@,
        )),
        after.unparsed_logged == before.unparsed_logged + if r is Report {
            1int
        } else {
            0int
        },
        r matches LighterOutcome::Report(line) ==> if text.len() <= 200 {
            line@ == text
        } else {
            line@ == text.take(200) + "…"@
        },
{
    lemma_types();
    if let Some(doc) = document(text) {
        let (between, action) = choose|between: LighterReader, action: LighterAction| #[trigger]
            acted(before, between, action, doc, text) && carried_out(
                parse,
                between,
                after,
                action,
                recv_ns,
                recv_ms,
                r,
            );
    }
}

/// A reader that connects has an empty book for each of its markets, under its number, and no
/// other; a number that several markets have is that of the last.
pub proof fn connection_starts_with_empty_books(
    before: LighterReader,
    after: LighterReader,
    markets: Seq<(Seq<char>, u8)>,
    i: int,
)
    requires
        connected(before, after, markets),
    ensures
        after.depth == before.depth,
        after.unparsed_logged == before.unparsed_logged,
        0 <= i < markets.len() ==> after.books@.contains_key(markets[i].1),
        0 <= i < markets.len() && (forall|j: int|
            i < j < markets.len() ==> (#[trigger] markets[j]).1 != markets[i].1)
            ==> after.books@[markets[i].1].symbol@ == markets[i].0,
        forall|id: u8| #[trigger]
            after.books@.contains_key(id) ==> {
                &&& after.books@[id].bids@ == Map::<i64, Double>::empty()
                &&& after.books@[id].asks@ == Map::<i64, Double>::empty()
                &&& exists|j: int| 0 <= j < markets.len() && (#[trigger] markets[j]).1 == id
            },
{
    if 0 <= i < markets.len() {
        assert(asked_for(markets, markets[i].1)) by {
            assert(markets[i].1 == markets[i].1);
        }
        if forall|j: int| i < j < markets.len() ==> (#[trigger] markets[j]).1 != markets[i].1 {
            lemma_last_symbol(markets, i);
        }
    }
    assert forall|id: u8| #[trigger] after.books@.contains_key(id) implies exists|j: int|
        0 <= j < markets.len() && (#[trigger] markets[j]).1 == id by {
        assert(asked_for(markets, id));
    }
}

proof fn lemma_last_symbol(markets: Seq<(Seq<char>, u8)>, i: int)
    requires
        0 <= i < markets.len(),
        forall|j: int| i < j < markets.len() ==> (#[trigger] markets[j]).1 != markets[i].1,
    ensures
        last_symbol(markets, markets[i].1) == markets[i].0,
    decreases markets.len(),
{
    if i < markets.len() - 1 {
        let short = markets.drop_last();
        assert(markets[markets.len() - 1].1 != markets[i].1);
        assert(short[i] == markets[i]);
        assert forall|j: int| i < j < short.len() implies (#[trigger] short[j]).1 != short[i].1 by {
            assert(short[j] == markets[j]);
        }
        lemma_last_symbol(short, i);
    }
}

/// The number of a symbol is the one that the first market with that symbol carries, where it is
/// at most 255.
pub proof fn number_is_that_of_the_first_market(markets: Seq<JsonView>, symbol: Seq<char>, k: int)
    requires
        0 <= k < markets.len(),
        markets[k].text_at("symbol"@) == Some(symbol),
        forall|j: int| 0 <= j < k ==> (#[trigger] markets[j]).text_at("symbol"@) != Some(symbol),
    ensures
        match markets[k].integer_at("market_id"@) {
            Some(id) => market_number(markets, symbol) == if id <= 255 {
                Some(id)
            } else {
                None
            },
            None => market_number(markets, symbol) is None,
        },
    decreases k,
{
    if k > 0 {
        let rest = markets.drop_first();
        assert(markets[0].text_at("symbol"@) != Some(symbol));
        assert(rest[k - 1] == markets[k]);
        assert forall|j: int| 0 <= j < k - 1 implies (#[trigger] rest[j]).text_at("symbol"@)
            != Some(symbol) by {
            assert(rest[j] == markets[j + 1]);
        }
        number_is_that_of_the_first_market(rest, symbol, k - 1);
    }
}

/// A symbol that no market has has no number.
pub proof fn unlisted_symbol_has_no_number(markets: Seq<JsonView>, symbol: Seq<char>)
    requires
        forall|j: int|
            0 <= j < markets.len() ==> (#[trigger] markets[j]).text_at("symbol"@) != Some(symbol),
    ensures
        market_number(markets, symbol) is None,
    decreases markets.len(),
{
    if markets.len() > 0 {
        let rest = markets.drop_first();
        assert(markets[0].text_at("symbol"@) != Some(symbol));
        assert forall|j: int| 0 <= j < rest.len() implies (#[trigger] rest[j]).text_at("symbol"@)
            != Some(symbol) by {
            assert(rest[j] == markets[j + 1]);
        }
        unlisted_symbol_has_no_number(rest, symbol);
    }
}

/// One more symbol is one more market behind the others where it has a number, and one more
/// missing symbol where it has none.
pub proof fn each_symbol_is_found_or_missing(
    markets: Seq<JsonView>,
    symbols: Seq<Seq<char>>,
    symbol: Seq<char>,
)
    ensures
        found(markets, Seq::empty()).len() == 0,
        missing(markets, Seq::empty()).len() == 0,
        match market_number(markets, symbol) {
            Some(id) => found(markets, symbols.push(symbol)) == found(markets, symbols).push(
                (symbol, id as u8),
            ) && missing(markets, symbols.push(symbol)) == missing(markets, symbols),
            None => found(markets, symbols.push(symbol)) == found(markets, symbols) && missing(
                markets,
                symbols.push(symbol),
            ) == missing(markets, symbols).push(symbol),
        },
{
    reveal(Seq::filter);
    assert(symbols.push(symbol).drop_last() =~= symbols);
}

/// An update of a market changes its book alone, on each side as its levels and the numbers that
/// were read in their texts tell; an update of a market without a book changes nothing.
pub proof fn update_sets_both_sides(
    before: LighterReader,
    after: LighterReader,
    update: BookUpdate,
    bids: Seq<LevelTexts>,
    asks: Seq<LevelTexts>,
    recv_ns: u64,
    recv_ms: u64,
    r: Option<Tick>,
)
    requires
        updated(before, after, update, bids, asks, recv_ns, recv_ms, r),
        bids.len() == update.bids@.len(),
        asks.len() == update.asks@.len(),
    ensures
        !before.books@.contains_key(update.market_id) ==> r is None && after == before,
        before.books@.contains_key(update.market_id) ==> {
            let id = update.market_id;
            &&& only_touches(before, after, id)
            &&& follows(
                before.books@[id].bids@,
                Seq::new(bids.len(), |i: int| level_told(update.bids@[i], bids[i])),
                after.books@[id].bids@,
            )
            &&& follows(
                before.books@[id].asks@,
                Seq::new(asks.len(), |i: int| level_told(update.asks@[i], asks[i])),
                after.books@[id].asks@,
            )
        },
{
    if before.books@.contains_key(update.market_id) {
        let id = update.market_id;
        let b = changes_of(fields_view(update.bids@), bids);
        let a = changes_of(fields_view(update.asks@), asks);
        assert(b =~= Seq::new(bids.len(), |i: int| level_told(update.bids@[i], bids[i])));
        assert(a =~= Seq::new(asks.len(), |i: int| level_told(update.asks@[i], asks[i])));
        delta_follows_its_levels(before.books@[id].bids@, b, after.books@[id].bids@);
        delta_follows_its_levels(before.books@[id].asks@, a, after.books@[id].asks@);
    }
}

/// What a level tells: the numbers that were read in its texts, or its own.
pub open spec fn level_told(level: LevelFields, read: LevelTexts) -> LevelChange {
    LevelChange {
        price: match level.price {
            Field::Text(_) => read.price,
            Field::Number(d) => Some(d),
            Field::Absent => None,
        },
        size: match level.size {
            Field::Text(_) => read.size,
            Field::Number(d) => Some(d),
            Field::Absent => None,
        },
    }
}

} // verus!
