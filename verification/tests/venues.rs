use bbot_recon::double::Double;
use bbot_recon::hyperliquid::{
    hyperliquid_side, hyperliquid_tick, ping_text, subscribe_text as hyperliquid_subscribe,
    subscribe_texts as hyperliquid_subscriptions, BookMessage, HyperliquidAction, HyperliquidOutcome, HyperliquidReader, QuoteTexts,
};
use bbot_recon::json::parse_text;
use bbot_recon::lighter::{
    markets_of, message_kind, message_market, pong_text, resolve_lighter_markets, subscribe_text,
    subscribe_texts, BookUpdate, Field, LevelFields, LevelTexts, LighterAction, LighterOutcome, LighterReader,
    Market, MarketsError, MessageKind,
};
use bbot_recon::lighter_book::{apply_lighter_delta, lighter_top_levels, LevelChange, LighterBook};
use bbot_recon::tick::{Level, Tick, Venue};
use std::collections::BTreeMap;

fn d(x: f64) -> Double {
    Double { bits: x.to_bits() }
}

fn f(x: Double) -> f64 {
    f64::from_bits(x.bits)
}

fn number(s: &str) -> Option<Double> {
    s.parse::<f64>().ok().map(d)
}

fn read_field(field: &Field) -> Option<Double> {
    match field {
        Field::Text(s) => number(s),
        _ => None,
    }
}

fn read_fields(levels: &Vec<LevelFields>) -> Vec<LevelTexts> {
    levels
        .iter()
        .map(|l| LevelTexts { price: read_field(&l.price), size: read_field(&l.size) })
        .collect()
}

fn read_quotes(quotes: &Vec<QuoteTexts>) -> Vec<LevelTexts> {
    quotes
        .iter()
        .map(|q| LevelTexts {
            price: q.price.as_ref().and_then(|s| number(s)),
            size: q.size.as_ref().and_then(|s| number(s)),
        })
        .collect()
}

fn pairs(levels: &[Level]) -> Vec<(f64, f64)> {
    levels.iter().map(|l| (f(l.price), f(l.size))).collect()
}

fn symbols(list: &[&str]) -> Vec<String> {
    list.iter().map(|s| s.to_string()).collect()
}

fn reader() -> LighterReader {
    let mut reader = LighterReader::new(20);
    reader.connect(&vec![
        Market { symbol: "BTC".to_string(), id: 1 },
        Market { symbol: "ETH".to_string(), id: 0 },
    ]);
    reader
}

fn update(action: LighterAction) -> BookUpdate {
    match action {
        LighterAction::Update(u) => u,
        _ => panic!("no update"),
    }
}

fn feed(reader: &mut LighterReader, text: &str) -> Option<Tick> {
    let u = update(reader.on_text(text));
    let bids = read_fields(&u.bids);
    let asks = read_fields(&u.asks);
    reader.apply_update(&u, &bids, &asks, 77, 1_700_000_000_123)
}

fn book(action: HyperliquidAction) -> BookMessage {
    match action {
        HyperliquidAction::Book(b) => b,
        _ => panic!("no book"),
    }
}

#[test]
fn venues_have_names() {
    assert_eq!(Venue::Lighter.name(), "lighter");
    assert_eq!(Venue::Hyperliquid.name(), "hyperliquid");
    assert_eq!(Venue::from_name("lighter"), Some(Venue::Lighter));
    assert_eq!(Venue::from_name("hyperliquid"), Some(Venue::Hyperliquid));
    assert_eq!(Venue::from_name("Lighter"), None);
    assert_eq!(Venue::Lighter.other(), Venue::Hyperliquid);
    assert_eq!(Venue::Hyperliquid.other(), Venue::Lighter);
}

#[test]
fn markets_are_looked_up_by_symbol() {
    let body = br#"{"code":200,"order_book_details":[
        {"symbol":"ETH","market_id":0},
        {"symbol":"BTC","market_id":1},
        {"symbol":"BTC","market_id":9},
        {"symbol":"BIG","market_id":257},
        {"symbol":"TOP","market_id":255},
        {"symbol":"TXT","market_id":"3"}
    ]}"#;
    let r = match resolve_lighter_markets(body, &symbols(&["BTC", "ETH", "NOPE", "BIG", "TXT", "TOP"])) {
        Ok(r) => r,
        Err(_) => panic!("no markets"),
    };
    let found: Vec<(String, u8)> = r.markets.iter().map(|m| (m.symbol.clone(), m.id)).collect();
    assert_eq!(
        found,
        vec![("BTC".to_string(), 1), ("ETH".to_string(), 0), ("TOP".to_string(), 255)]
    );
    assert_eq!(r.missing, symbols(&["NOPE", "BIG", "TXT"]));
    assert!(matches!(
        resolve_lighter_markets(b"oops", &symbols(&["BTC"])),
        Err(MarketsError::NotJson)
    ));
    assert!(matches!(
        resolve_lighter_markets(br#"{"code":500}"#, &symbols(&["BTC"])),
        Err(MarketsError::NoMarkets)
    ));
    let doc = parse_text(r#"{"order_book_details":[]}"#).unwrap();
    assert_eq!(markets_of(&doc, &symbols(&["BTC"])).unwrap().missing, symbols(&["BTC"]));
}

#[test]
fn lighter_messages_are_told_apart() {
    for (text, kind) in [
        (r#"{"type":"ping"}"#, MessageKind::Ping),
        (r#"{"type":"connected"}"#, MessageKind::Connected),
        (r#"{"type":"subscribed/order_book"}"#, MessageKind::Snapshot),
        (r#"{"type":"update/order_book"}"#, MessageKind::Delta),
        (r#"{"type":"update/trade"}"#, MessageKind::Unknown),
        (r#"{"type":7}"#, MessageKind::Unknown),
        (r#"{}"#, MessageKind::Unknown),
    ] {
        assert_eq!(message_kind(&parse_text(text).unwrap()), kind, "{text}");
    }
    for (text, id) in [
        (r#"{"channel":"order_book:0"}"#, Some(0)),
        (r#"{"channel":"order_book:255"}"#, Some(255)),
        (r#"{"channel":"order_book:256"}"#, None),
        (r#"{"channel":"12"}"#, Some(12)),
        (r#"{"channel":"order_book:"}"#, None),
        (r#"{"channel":"order_book/1"}"#, None),
        (r#"{"channel":5}"#, None),
        (r#"{}"#, None),
    ] {
        assert_eq!(message_market(&parse_text(text).unwrap()), id, "{text}");
    }
}

#[test]
fn lighter_is_asked_for_books() {
    assert_eq!(subscribe_text(17), r#"{"channel":"order_book/17","type":"subscribe"}"#);
    assert_eq!(pong_text(), r#"{"type":"pong"}"#);
    let doc = serde_json::from_str::<serde_json::Value>(&subscribe_text(255)).unwrap();
    assert_eq!(doc["channel"].as_str(), Some("order_book/255"));
    assert_eq!(doc["type"].as_str(), Some("subscribe"));
}

#[test]
fn each_market_is_subscribed_to() {
    let market = |symbol: &str, id: u8| Market { symbol: symbol.to_string(), id };
    assert_eq!(
        subscribe_texts(&vec![market("BTC", 1), market("ETH", 0), market("BTC", 1)]),
        vec![subscribe_text(1), subscribe_text(0), subscribe_text(1)]
    );
    assert!(subscribe_texts(&vec![]).is_empty());
}

#[test]
fn each_coin_is_subscribed_to() {
    assert_eq!(
        hyperliquid_subscriptions(&symbols(&["SOL", "BTC", "a\"b"])),
        vec![hyperliquid_subscribe("SOL"), hyperliquid_subscribe("BTC"), hyperliquid_subscribe("a\"b")]
    );
    assert!(hyperliquid_subscriptions(&vec![]).is_empty());
}

#[test]
fn a_side_with_a_price_that_is_no_number_stays_as_it_came() {
    let parse = |s: &String| number(s);
    let mut r = HyperliquidReader::new(20);
    let text = r#"{"channel":"l2Book","data":{"coin":"BTC","time":3,"levels":[
        [{"px":"99","sz":"1"},{"px":"NaN","sz":"2"},{"px":"100","sz":"3"}],
        [{"px":"103","sz":"4"},{"px":"101","sz":"NaN"},{"px":"102","sz":"6"}]]}}"#;
    match r.take_text(&parse, text, 0, 0) {
        HyperliquidOutcome::Tick(t) => {
            let sizes: Vec<f64> = t.bids.iter().map(|l| f(l.size)).collect();
            assert_eq!(sizes, vec![1.0, 2.0, 3.0]);
            assert!(f(t.bids[1].price).is_nan());
            let prices: Vec<f64> = t.asks.iter().map(|l| f(l.price)).collect();
            assert_eq!(prices, vec![101.0, 102.0, 103.0]);
        }
        _ => panic!("no tick"),
    }
}

#[test]
fn deltas_set_and_remove_levels() {
    let mut side: BTreeMap<i64, Double> = BTreeMap::new();
    let change = |p: Option<f64>, q: Option<f64>| LevelChange { price: p.map(d), size: q.map(d) };
    apply_lighter_delta(
        &mut side,
        &vec![
            change(Some(100.5), Some(1.0)),
            change(Some(100.0), Some(2.0)),
            change(None, Some(3.0)),
            change(Some(99.0), None),
            change(Some(98.0), Some(0.0)),
            change(Some(97.0), Some(-1.0)),
            change(Some(100.5), Some(4.0)),
            change(Some(96.0), Some(f64::NAN)),
        ],
    );
    assert_eq!(side.len(), 3);
    assert_eq!(side.get(&100_500_000).map(|q| f(*q)), Some(4.0));
    assert_eq!(side.get(&100_000_000).map(|q| f(*q)), Some(2.0));
    assert!(f(side[&96_000_000]).is_nan());
    apply_lighter_delta(&mut side, &vec![change(Some(100.0), Some(0.0)), change(Some(1.0), Some(0.0))]);
    assert_eq!(side.len(), 2);
    assert!(!side.contains_key(&100_000_000));
}

#[test]
fn the_best_levels_come_first() {
    let mut book =
        LighterBook { symbol: "BTC".to_string(), bids: BTreeMap::new(), asks: BTreeMap::new() };
    for i in 1..=5 {
        book.bids.insert(i * 1_000_000, d(i as f64));
        book.asks.insert((10 + i) * 1_000_000, d(i as f64));
    }
    let (bids, asks) = lighter_top_levels(&book, 3);
    assert_eq!(pairs(&bids), vec![(5.0, 5.0), (4.0, 4.0), (3.0, 3.0)]);
    assert_eq!(pairs(&asks), vec![(11.0, 1.0), (12.0, 2.0), (13.0, 3.0)]);
    let (bids, asks) = lighter_top_levels(&book, 0);
    assert!(bids.is_empty() && asks.is_empty());
    let (bids, asks) = lighter_top_levels(&book, 100);
    assert_eq!((bids.len(), asks.len()), (5, 5));
}

#[test]
fn lighter_books_are_rebuilt() {
    let mut r = reader();
    let t = feed(
        &mut r,
        r#"{"type":"subscribed/order_book","channel":"order_book:1","timestamp":1700000000000,
            "order_book":{"nonce":10,"begin_nonce":0,
            "bids":[{"price":"100.0","size":"1.5"},{"price":"99.5","size":"2"}],
            "asks":[{"price":"100.5","size":"0.5"},{"price":101,"size":3.25}]}}"#,
    )
    .unwrap();
    assert_eq!(t.exchange, "lighter");
    assert_eq!(t.symbol, "BTC");
    assert_eq!((t.recv_ns, t.recv_ms, t.server_ms), (77, 1_700_000_000_123, 1_700_000_000_000));
    assert_eq!((t.seq, t.prev_seq, t.is_snapshot), (10, 0, true));
    assert_eq!(pairs(&t.bids), vec![(100.0, 1.5), (99.5, 2.0)]);
    assert_eq!(pairs(&t.asks), vec![(100.5, 0.5), (101.0, 3.25)]);

    let t = feed(
        &mut r,
        r#"{"type":"update/order_book","channel":"order_book:1",
            "order_book":{"nonce":11,"begin_nonce":10,
            "bids":[{"price":"100.0","size":"0"},{"price":"99.75","size":"7"},{"price":"x","size":"1"}],
            "asks":[]}}"#,
    )
    .unwrap();
    assert_eq!((t.seq, t.prev_seq, t.is_snapshot, t.server_ms), (11, 10, false, 0));
    assert_eq!(pairs(&t.bids), vec![(99.75, 7.0), (99.5, 2.0)]);
    assert_eq!(pairs(&t.asks), vec![(100.5, 0.5), (101.0, 3.25)]);

    let t = feed(
        &mut r,
        r#"{"type":"subscribed/order_book","channel":"order_book:1",
            "order_book":{"bids":[{"price":"50","size":"1"}]}}"#,
    )
    .unwrap();
    assert_eq!(pairs(&t.bids), vec![(50.0, 1.0)]);
    assert!(t.asks.is_empty());
    assert_eq!((t.seq, t.prev_seq), (0, 0));
}

#[test]
fn an_empty_lighter_book_gives_no_tick() {
    let mut r = reader();
    let t = feed(&mut r, r#"{"type":"update/order_book","channel":"order_book:0","order_book":{}}"#);
    assert!(t.is_none());
    let t = feed(&mut r, r#"{"type":"update/order_book","channel":"order_book:0","order_book":null}"#);
    assert!(t.is_none());
}

#[test]
fn other_books_stay_as_they_are() {
    let mut r = reader();
    feed(
        &mut r,
        r#"{"type":"subscribed/order_book","channel":"order_book:1",
            "order_book":{"bids":[{"price":"50","size":"1"}]}}"#,
    );
    feed(
        &mut r,
        r#"{"type":"subscribed/order_book","channel":"order_book:0",
            "order_book":{"bids":[{"price":"7","size":"1"}]}}"#,
    );
    let (bids, _) = lighter_top_levels(&r.books[&1], 20);
    assert_eq!(pairs(&bids), vec![(50.0, 1.0)]);
    r.on_text(r#"{"type":"subscribed/order_book","channel":"order_book:1"}"#);
    assert!(r.books[&1].bids.is_empty());
    assert_eq!(r.books[&0].bids.len(), 1);
}

#[test]
fn an_update_of_an_unknown_market_is_dropped() {
    let mut r = reader();
    let u = BookUpdate {
        market_id: 42,
        is_snapshot: false,
        server_ms: 0,
        seq: 0,
        prev_seq: 0,
        bids: vec![LevelFields { price: Field::Number(d(1.0)), size: Field::Number(d(1.0)) }],
        asks: vec![],
    };
    let read = vec![LevelTexts { price: None, size: None }];
    assert!(r.apply_update(&u, &read, &vec![], 0, 0).is_none());
    assert_eq!(r.books.len(), 2);
}

#[test]
fn lighter_messages_without_a_book_are_ignored() {
    let mut r = reader();
    for text in [
        "not json",
        r#"{"type":"connected"}"#,
        r#"{"type":"update/order_book","channel":"order_book:9","order_book":{}}"#,
        r#"{"type":"update/order_book","order_book":{}}"#,
        r#"{"type":"update/order_book","channel":"order_book:1"}"#,
    ] {
        assert!(matches!(r.on_text(text), LighterAction::Ignore), "{text}");
    }
    assert!(matches!(r.on_text(r#"{"type":"ping"}"#), LighterAction::Pong));
    assert_eq!(r.unparsed_logged, 0);
}

#[test]
fn three_strange_lighter_messages_are_reported() {
    let mut r = reader();
    let text = format!(r#"{{"type":"strange","x":"{}"}}"#, "y".repeat(300));
    for _ in 0..3 {
        match r.on_text(&text) {
            LighterAction::Report(line) => {
                assert_eq!(line.chars().count(), 201);
                assert!(line.ends_with('…'));
            }
            _ => panic!("no report"),
        }
    }
    assert!(matches!(r.on_text(&text), LighterAction::Ignore));
    assert_eq!(r.unparsed_logged, 3);
    r.connect(&vec![]);
    assert!(r.books.is_empty());
    assert_eq!(r.unparsed_logged, 3);
}

#[test]
fn the_last_market_of_a_number_names_its_book() {
    let mut r = LighterReader::new(5);
    r.connect(&vec![
        Market { symbol: "A".to_string(), id: 1 },
        Market { symbol: "B".to_string(), id: 1 },
    ]);
    assert_eq!(r.books.len(), 1);
    assert_eq!(r.books[&1].symbol, "B");
}

#[test]
fn hyperliquid_is_asked_for_books() {
    assert_eq!(
        hyperliquid_subscribe("BTC"),
        r#"{"method":"subscribe","subscription":{"coin":"BTC","type":"l2Book"}}"#
    );
    assert_eq!(ping_text(), r#"{"method":"ping"}"#);
    let strange = "a\"b\\c\u{8}\u{9}\u{a}\u{c}\u{d}\u{1}\u{1f}\u{7f}é";
    let text = hyperliquid_subscribe(strange);
    assert!(text.contains(r#""a\"b\\c\b\t\n\f\r\u0001\u001f"#));
    let doc = serde_json::from_str::<serde_json::Value>(&text).unwrap();
    assert_eq!(doc["subscription"]["coin"].as_str(), Some(strange));
    assert_eq!(doc["subscription"]["type"].as_str(), Some("l2Book"));
    assert_eq!(doc.to_string(), text);
}

#[test]
fn hyperliquid_books_become_ticks() {
    let mut r = HyperliquidReader::new(2);
    let b = book(r.on_text(
        r#"{"channel":"l2Book","data":{"coin":"ETH","time":1700000000456,"levels":[
            [{"px":"10.5","sz":"1","n":3},{"px":"bad","sz":"1"},{"px":"9","sz":"1"}],
            [{"px":"11","sz":"2.5","n":1}]]}}"#,
    ));
    assert_eq!(b.coin, "ETH");
    assert_eq!((b.bids.len(), b.asks.len()), (2, 1));
    let t =
        hyperliquid_tick(&b, &read_quotes(&b.bids), &read_quotes(&b.asks), 5, 6).unwrap();
    assert_eq!(t.exchange, "hyperliquid");
    assert_eq!(t.symbol, "ETH");
    assert_eq!((t.recv_ns, t.recv_ms, t.server_ms), (5, 6, 1_700_000_000_456));
    assert_eq!((t.seq, t.prev_seq, t.is_snapshot), (0, 0, true));
    assert_eq!(pairs(&t.bids), vec![(10.5, 1.0)]);
    assert_eq!(pairs(&t.asks), vec![(11.0, 2.5)]);
}

#[test]
fn a_hyperliquid_book_without_levels_gives_no_tick() {
    let mut r = HyperliquidReader::new(20);
    let b = book(r.on_text(r#"{"channel":"l2Book","data":{"levels":[[{"px":1,"sz":2}],{}]}}"#));
    assert_eq!(b.coin, "");
    assert_eq!(b.server_ms, 0);
    assert_eq!((b.bids.len(), b.asks.len()), (1, 0));
    assert!(b.bids[0].price.is_none() && b.bids[0].size.is_none());
    assert!(hyperliquid_tick(&b, &read_quotes(&b.bids), &read_quotes(&b.asks), 0, 0).is_none());
}

#[test]
fn sides_keep_what_can_be_read() {
    let quote = |p: &str, q: &str| QuoteTexts {
        price: Some(p.to_string()),
        size: Some(q.to_string()),
    };
    let quotes = vec![quote("3", "1"), quote("2", "?"), quote("1", "4")];
    let side = hyperliquid_side(&quotes, &read_quotes(&quotes));
    assert_eq!(pairs(&side), vec![(3.0, 1.0), (1.0, 4.0)]);
    let missing = vec![QuoteTexts { price: Some("1".to_string()), size: None }];
    let read = vec![LevelTexts { price: Some(d(1.0)), size: Some(d(1.0)) }];
    assert!(hyperliquid_side(&missing, &read).is_empty());
}

#[test]
fn hyperliquid_chatter_is_ignored() {
    let mut r = HyperliquidReader::new(20);
    for text in [
        "Websocket connection established.",
        "not json",
        r#"{"channel":"pong"}"#,
        r#"{"channel":"subscriptionResponse","data":{}}"#,
    ] {
        assert!(matches!(r.on_text(text), HyperliquidAction::Ignore), "{text}");
    }
    assert_eq!(r.unparsed_logged, 0);
}

#[test]
fn three_strange_hyperliquid_messages_are_reported() {
    let mut r = HyperliquidReader::new(20);
    let long = "z".repeat(400);
    let strange = format!(r#"{{"channel":"trades","x":"{long}"}}"#);
    let malformed = format!(r#"{{"channel":"l2Book","data":{{"levels":[[]],"x":"{long}"}}}}"#);
    match r.on_text(&strange) {
        HyperliquidAction::Report(line) => assert_eq!(line.chars().count(), 201),
        _ => panic!("no report"),
    }
    match r.on_text(&malformed) {
        HyperliquidAction::ReportBook(line) => assert_eq!(line.chars().count(), 301),
        _ => panic!("no report"),
    }
    assert!(matches!(r.on_text(r#"{"channel":"l2Book"}"#), HyperliquidAction::ReportBook(_)));
    assert!(matches!(r.on_text(&strange), HyperliquidAction::Ignore));
    assert!(matches!(r.on_text(&malformed), HyperliquidAction::Ignore));
    assert_eq!(r.unparsed_logged, 3);
}

#[test]
fn lighter_texts_are_taken_in_one_step() {
    let parse = |s: &String| number(s);
    let mut r = reader();
    let snapshot = r#"{"type":"subscribed/order_book","channel":"order_book:0",
        "order_book":{"nonce":4,"bids":[{"price":"50","size":"1"},{"price":"?","size":"1"}]}}"#;
    match r.take_text(&parse, snapshot, 8, 9) {
        LighterOutcome::Tick(t) => {
            assert_eq!((t.recv_ns, t.recv_ms, t.seq), (8, 9, 4));
            assert_eq!(t.symbol, "ETH");
            assert_eq!(pairs(&t.bids), vec![(50.0, 1.0)]);
        }
        _ => panic!("no tick"),
    }
    let empty = r#"{"type":"subscribed/order_book","channel":"order_book:0","order_book":{}}"#;
    assert!(matches!(r.take_text(&parse, empty, 0, 0), LighterOutcome::Nothing));
    assert!(matches!(r.take_text(&parse, "x", 0, 0), LighterOutcome::Nothing));
    assert!(matches!(r.take_text(&parse, r#"{"type":"ping"}"#, 0, 0), LighterOutcome::Pong));
    match r.take_text(&parse, r#"{"type":"odd"}"#, 0, 0) {
        LighterOutcome::Report(line) => assert_eq!(line, r#"{"type":"odd"}"#),
        _ => panic!("no report"),
    }
}

#[test]
fn hyperliquid_texts_are_taken_in_one_step() {
    let parse = |s: &String| number(s);
    let mut r = HyperliquidReader::new(20);
    let book = r#"{"channel":"l2Book","data":{"coin":"BTC","time":3,"levels":[
        [{"px":"10","sz":"1"},{"px":"9","sz":"x"}],[]]}}"#;
    match r.take_text(&parse, book, 8, 9) {
        HyperliquidOutcome::Tick(t) => {
            assert_eq!((t.recv_ns, t.recv_ms, t.server_ms), (8, 9, 3));
            assert_eq!(pairs(&t.bids), vec![(10.0, 1.0)]);
            assert!(t.asks.is_empty());
        }
        _ => panic!("no tick"),
    }
    let empty = r#"{"channel":"l2Book","data":{"levels":[[],[]]}}"#;
    assert!(matches!(r.take_text(&parse, empty, 0, 0), HyperliquidOutcome::Nothing));
    assert!(matches!(r.take_text(&parse, "Websocket connection", 0, 0), HyperliquidOutcome::Nothing));
    let odd = r#"{"channel":"odd"}"#;
    assert!(matches!(r.take_text(&parse, odd, 0, 0), HyperliquidOutcome::Report(_)));
    let malformed = r#"{"channel":"l2Book","data":7}"#;
    assert!(matches!(r.take_text(&parse, malformed, 0, 0), HyperliquidOutcome::ReportBook(_)));
}

#[test]
fn hyperliquid_ticks_are_sorted_by_price() {
    let parse = |s: &String| number(s);
    let mut r = HyperliquidReader::new(20);
    let book = r#"{"channel":"l2Book","data":{"coin":"BTC","time":7,"levels":[
        [{"px":"99","sz":"1"},{"px":"100","sz":"2"},{"px":"99","sz":"3"}],
        [{"px":"105","sz":"1"},{"px":"103","sz":"2"},{"px":"104","sz":"3"}]]}}"#;
    match r.take_text(&parse, book, 0, 0) {
        HyperliquidOutcome::Tick(t) => {
            assert_eq!(pairs(&t.bids), vec![(100.0, 2.0), (99.0, 1.0), (99.0, 3.0)]);
            assert_eq!(pairs(&t.asks), vec![(103.0, 2.0), (104.0, 3.0), (105.0, 1.0)]);
        }
        _ => panic!("no tick"),
    }
}

#[test]
fn lighter_ticks_are_strictly_in_order_and_nowhere_empty() {
    let parse = |s: &String| number(s);
    let mut r = LighterReader::new(3);
    r.connect(&vec![Market { symbol: "BTC".to_string(), id: 1 }]);
    let mut seed: u64 = 17;
    let mut next = move |n: u64| {
        seed = seed.wrapping_mul(6364136223846793005).wrapping_add(1442695040888963407);
        (seed >> 33) % n
    };
    let mut ticks = 0;
    for i in 0..500 {
        let kind = if i % 50 == 0 { "subscribed" } else { "update" };
        let mut sides: Vec<String> = Vec::new();
        for _ in 0..2 {
            let levels: Vec<String> = (0..next(5))
                .map(|_| {
                    let (price, size) = (1 + next(2000), next(4));
                    format!(r#"{{"price":"{}","size":"{size}"}}"#, price as f64 / 1e6)
                })
                .collect();
            sides.push(levels.join(","));
        }
        let text = format!(
            r#"{{"type":"{kind}/order_book","channel":"order_book:1","order_book":{{"bids":[{}],"asks":[{}]}}}}"#,
            sides[0], sides[1]
        );
        if let LighterOutcome::Tick(t) = r.take_text(&parse, &text, 0, 0) {
            ticks += 1;
            assert!(t.bids.len() <= 3 && t.asks.len() <= 3);
            assert!(t.bids.windows(2).all(|w| f(w[0].price) > f(w[1].price)));
            assert!(t.asks.windows(2).all(|w| f(w[0].price) < f(w[1].price)));
            assert!(t.bids.iter().chain(t.asks.iter()).all(|l| f(l.size) > 0.0));
        }
    }
    assert!(ticks > 400);
}
