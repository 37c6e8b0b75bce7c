use bbot_recon::arithmetic::{mean, percentage, rate, seconds, Op};
use bbot_recon::double::Double;
use bbot_recon::feed_analyzer::{parse_args, PerStream};
use bbot_recon::feeds::{compare_rates, elapsed, is_wanted, Feeds, RateComparison};
use bbot_recon::tick::{Level, Tick, Venue};

fn d(x: f64) -> Double {
    Double { bits: x.to_bits() }
}

fn f(x: Double) -> f64 {
    f64::from_bits(x.bits)
}

fn compute(op: Op, a: Double, b: Double) -> Double {
    d(match op {
        Op::Plus => f(a) + f(b),
        Op::Minus => f(a) - f(b),
        Op::Times => f(a) * f(b),
        Op::Over => f(a) / f(b),
    })
}

fn levels(n: usize) -> Vec<Level> {
    (0..n).map(|i| Level { price: d(i as f64 + 1.0), size: d(1.0) }).collect()
}

fn tick(exchange: &str, symbol: &str, recv_ns: u64, recv_ms: u64) -> Tick {
    Tick {
        recv_ns,
        recv_ms,
        server_ms: 0,
        exchange: exchange.to_string(),
        symbol: symbol.to_string(),
        seq: 0,
        prev_seq: 0,
        is_snapshot: false,
        bids: levels(2),
        asks: levels(3),
    }
}

fn numbered(seq: u64, prev_seq: u64, is_snapshot: bool) -> Tick {
    Tick { seq, prev_seq, is_snapshot, ..tick("lighter", "BTC", seq, seq) }
}

fn argv(args: &[&str]) -> Vec<String> {
    args.iter().map(|s| s.to_string()).collect()
}

#[test]
fn counters_follow_the_ticks() {
    let mut s = PerStream::default();
    assert_eq!((s.count, s.last_recv_ns, s.last_seq), (0, None, None));
    let mut a = tick("lighter", "BTC", 100, 1000);
    a.server_ms = 990;
    a.is_snapshot = true;
    a.seq = 7;
    let mut b = tick("lighter", "BTC", 350, 1250);
    b.server_ms = 1260;
    b.seq = 8;
    b.prev_seq = 7;
    let mut c = tick("lighter", "BTC", 300, 1300);
    c.seq = 12;
    c.prev_seq = 10;
    let e = tick("lighter", "BTC", 310, 1400);
    for t in [&a, &b, &c, &e] {
        assert!(s.can_ingest(t));
        s.ingest(t);
    }
    assert_eq!((s.count, s.snapshots), (4, 1));
    assert_eq!((s.first_recv_ms, s.last_recv_ms), (1000, 1400));
    assert_eq!(s.intervals_ns, vec![250, 10]);
    assert_eq!(s.latencies_ms, vec![10, -10]);
    assert_eq!((s.seq_gaps, s.last_seq), (1, Some(12)));
    assert_eq!((s.bids_depth_sum, s.asks_depth_sum), (8, 12));
}

#[test]
fn an_unbroken_feed_has_no_gap() {
    let mut s = PerStream::default();
    for t in [numbered(5, 0, true), numbered(6, 5, false), numbered(9, 6, false)] {
        s.ingest(&t);
    }
    assert_eq!(s.seq_gaps, 0);
    s.ingest(&numbered(20, 19, false));
    assert_eq!(s.seq_gaps, 1);
    s.ingest(&numbered(21, 20, false));
    assert_eq!(s.seq_gaps, 1);
}

#[test]
fn gaps_are_the_places_where_a_delta_does_not_follow() {
    let ticks = [
        numbered(5, 0, true),
        numbered(7, 5, false),
        numbered(12, 9, false),
        numbered(13, 12, false),
        numbered(13, 12, false),
        numbered(2, 13, false),
    ];
    let holes = ticks.windows(2).filter(|w| w[1].prev_seq != w[0].seq).count();
    let mut s = PerStream::default();
    for t in &ticks {
        s.ingest(t);
    }
    assert_eq!((s.last_seq, s.seq_gaps), (Some(2), holes as u64));
    assert_eq!(holes, 2);
}

#[test]
fn intervals_lie_between_neighbours() {
    let times = [3u64, 3, 10, 1000, 1001];
    let mut s = PerStream::default();
    for t in times {
        s.ingest(&tick("lighter", "BTC", t, 1));
    }
    let plain: Vec<u64> = times.windows(2).map(|w| w[1] - w[0]).collect();
    assert_eq!(s.intervals_ns, plain);
    assert_eq!(s.intervals_ns.iter().sum::<u64>(), 1001 - 3);
    assert_eq!(s.last_recv_ns, Some(1001));
}

#[test]
fn a_snapshot_starts_the_sequence_anew() {
    let mut s = PerStream::default();
    for t in [numbered(5, 0, true), numbered(50, 0, true), numbered(51, 50, false)] {
        s.ingest(&t);
    }
    assert_eq!(s.seq_gaps, 0);
    s.ingest(&numbered(0, 0, true));
    assert_eq!(s.last_seq, None);
    s.ingest(&numbered(99, 98, false));
    assert_eq!((s.seq_gaps, s.last_seq), (0, Some(99)));
    s.ingest(&numbered(120, 0, false));
    assert_eq!((s.seq_gaps, s.last_seq), (0, Some(99)));
}

#[test]
fn a_latency_out_of_range_is_refused() {
    let s = PerStream::default();
    let mut t = tick("lighter", "BTC", 0, 1 << 63);
    t.server_ms = 1;
    assert!(!s.can_ingest(&t));
    t.server_ms = 0;
    assert!(s.can_ingest(&t));
}

#[test]
fn lines_are_counted_in_their_feeds() {
    let mut feeds = Feeds::new();
    let lines: Vec<(&str, Option<Tick>)> = vec![
        ("1", Some(tick("lighter", "ETH", 0, 2000))),
        ("", None),
        ("2", Some(tick("hyperliquid", "ETH", 1_000_000, 1000))),
        ("?", None),
        ("3", Some(tick("lighter", "BTC", 2_000_000, 3000))),
        ("4", Some(tick("lighter", "ETH", 4_500_000, 4000))),
        ("5", Some(tick("other", "SOL", 0, 500))),
    ];
    for (line, parsed) in &lines {
        assert!(feeds.can_take(parsed, &None));
        feeds.take_line(line, parsed, &None);
    }
    assert_eq!((feeds.total_lines, feeds.parse_errors), (6, 1));
    let keys: Vec<(String, String, u64)> = feeds
        .streams
        .iter()
        .map(|s| (s.exchange.clone(), s.symbol.clone(), s.stats.count))
        .collect();
    let key = |e: &str, s: &str, n: u64| (e.to_string(), s.to_string(), n);
    assert_eq!(
        keys,
        vec![
            key("hyperliquid", "ETH", 1),
            key("lighter", "BTC", 1),
            key("lighter", "ETH", 2),
            key("other", "SOL", 1),
        ]
    );
    let totals = feeds.totals();
    assert_eq!((totals.ticks, totals.first_recv_ms, totals.last_recv_ms), (5, 500, 4000));
    let by_symbol = feeds.by_symbol();
    let rows: Vec<(String, Option<usize>, Option<usize>)> =
        by_symbol.iter().map(|s| (s.symbol.clone(), s.lighter, s.hyperliquid)).collect();
    assert_eq!(
        rows,
        vec![
            ("BTC".to_string(), Some(1), None),
            ("ETH".to_string(), Some(2), Some(0)),
            ("SOL".to_string(), None, None),
        ]
    );
}

#[test]
fn a_filter_leaves_other_symbols_out() {
    let mut feeds = Feeds::new();
    let filter = Some("BTC".to_string());
    let eth = Some(tick("lighter", "ETH", 0, 1));
    let btc = Some(tick("lighter", "BTC", 0, 1));
    feeds.take_line("x", &eth, &filter);
    feeds.take_line("x", &btc, &filter);
    assert_eq!(feeds.total_lines, 2);
    assert_eq!(feeds.parse_errors, 0);
    assert_eq!(feeds.streams.len(), 1);
    assert!(is_wanted(&btc.unwrap(), &filter));
    assert!(!is_wanted(&eth.unwrap(), &filter));
}

#[test]
fn feeds_are_reported() {
    let mut feeds = Feeds::new();
    let mut ns = 0;
    for i in 0..101u64 {
        ns += (i * 37) % 101;
        let mut t = tick("lighter", "BTC", ns, 1000 + i);
        t.server_ms = 1000 + i - (i % 5);
        t.seq = i + 1;
        t.prev_seq = i;
        feeds.take_line("x", &Some(t), &None);
    }
    feeds.take_line("x", &Some(tick("hyperliquid", "BTC", 0, 5)), &None);
    let report = feeds.streams[1].report(&compute);
    assert_eq!(report.duration_ms, 100);
    assert_eq!((f(report.duration_s), f(report.rate)), (0.1, 101.0 / 0.1));
    assert_eq!((f(report.mean_bids), f(report.mean_asks)), (2.0, 3.0));
    let intervals = report.intervals.unwrap();
    assert_eq!((intervals.p50, intervals.p95, intervals.p99, intervals.max), (51, 95, 99, 100));
    let latencies = report.latencies.unwrap();
    assert_eq!((latencies.min, latencies.p50, latencies.p95, latencies.count), (0, 2, 4, 101));
    assert_eq!(report.seq_gaps, Some(0));
    let report = feeds.streams[0].report(&compute);
    assert!(report.intervals.is_none() && report.latencies.is_none() && report.seq_gaps.is_none());
    assert_eq!(report.duration_ms, 0);
}

#[test]
fn spans_end_at_zero() {
    assert_eq!(elapsed(3, 10), 7);
    assert_eq!(elapsed(10, 3), 0);
}

#[test]
fn the_faster_feed_leads() {
    let compare = |l: f64, h: f64| compare_rates(&compute, d(l), d(h));
    let leads = |venue: Venue, ratio: f64| RateComparison::Leads { venue, ratio: d(ratio) };
    assert_eq!(compare(2.0, 1.0), leads(Venue::Lighter, 2.0));
    assert_eq!(compare(1.0, 1.0), leads(Venue::Lighter, 1.0));
    assert_eq!(compare(1.0, 1.5), leads(Venue::Hyperliquid, 1.5));
    assert_eq!(compare(0.0, 1.5), RateComparison::OneSideMissing);
    assert_eq!(compare(1.0, 0.0), RateComparison::OneSideMissing);
}

#[test]
fn symbols_are_compared() {
    let mut feeds = Feeds::new();
    for (e, s, ms) in [
        ("lighter", "ETH", 1000),
        ("hyperliquid", "ETH", 1000),
        ("lighter", "ETH", 1500),
        ("lighter", "ETH", 3000),
        ("hyperliquid", "ETH", 5000),
        ("lighter", "BTC", 7),
    ] {
        feeds.take_line("x", &Some(tick(e, s, ms, ms)), &None);
    }
    let rates = feeds.compare(&compute);
    assert_eq!(rates.len(), 2);
    assert_eq!(rates[0].symbol, "BTC");
    assert_eq!((f(rates[0].lighter), f(rates[0].hyperliquid)), (0.0, 0.0));
    assert_eq!(rates[0].comparison, RateComparison::OneSideMissing);
    assert_eq!(rates[1].symbol, "ETH");
    assert_eq!((f(rates[1].lighter), f(rates[1].hyperliquid)), (3.0 / 2.0, 2.0 / 4.0));
    assert_eq!(
        rates[1].comparison,
        RateComparison::Leads { venue: Venue::Lighter, ratio: d(3.0) }
    );
}

#[test]
fn counts_are_turned_into_floats() {
    assert_eq!(f(seconds(&compute, 1234)), 1.234);
    assert_eq!(f(rate(&compute, 7, 1500)), 7.0 / 1.5);
    assert_eq!(f(rate(&compute, 7, 0)), 0.0);
    assert_eq!(f(mean(&compute, 10, 4)), 2.5);
    assert_eq!(f(mean(&compute, 0, 0)), 0.0);
    assert_eq!(f(percentage(&compute, 1, 3)), 100.0 * 1.0 / 3.0);
    assert_eq!(f(percentage(&compute, 0, 0)), 0.0);
}

#[test]
fn the_analyser_reads_its_arguments() {
    let a = parse_args(&argv(&["feed_analyzer"]));
    assert_eq!((a.file, a.symbol_filter), (None, None));
    let a = parse_args(&argv(&["feed_analyzer", "--symbol", "btc", "data/ticks_xxx.jsonl"]));
    assert_eq!(a.symbol_filter.as_deref(), Some("BTC"));
    assert_eq!(a.file.as_deref(), Some("data/ticks_xxx.jsonl"));
    let a = parse_args(&argv(&["feed_analyzer", "--file", "--odd", "--what", "x", "--file"]));
    assert_eq!(a.file.as_deref(), Some("x"));
    let a = parse_args(&argv(&["feed_analyzer", "x", "--file", "--odd", "--symbol"]));
    assert_eq!((a.file.as_deref(), a.symbol_filter), (Some("--odd"), None));
    let a = parse_args(&argv(&[]));
    assert_eq!((a.file, a.symbol_filter), (None, None));
}
