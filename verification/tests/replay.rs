use bbot_recon::arithmetic::Op;
use bbot_recon::double::Double;
use bbot_recon::evaluations::{gate_thresholds, report_direction, GateRow};
use bbot_recon::spread_replay::{
    args_with, is_kept, parse_args, time_order, Args, Direction, Pairing, Recording,
    DEFAULT_HL_FEE_BITS, DEFAULT_NOTIONAL_BITS,
};
use bbot_recon::tick::{Level, Tick, Venue};
use bbot_recon::trades::{
    book_on, evaluate, evaluate_leg, is_tradable, mid_from, vwap_buy, vwap_sell, Eval, Terms,
};

fn d(x: f64) -> Double {
    Double { bits: x.to_bits() }
}

fn f(x: Double) -> f64 {
    f64::from_bits(x.bits)
}

fn level(price: f64, size: f64) -> Level {
    Level { price: d(price), size: d(size) }
}

fn tick(exchange: &str, symbol: &str, recv_ns: u64, recv_ms: u64) -> Tick {
    Tick {
        recv_ns,
        recv_ms,
        server_ms: 0,
        exchange: exchange.to_string(),
        symbol: symbol.to_string(),
        seq: 0,
        prev_seq: 0,
        is_snapshot: true,
        bids: vec![level(99.0, 1.0)],
        asks: vec![level(101.0, 1.0)],
    }
}

fn argv(args: &[&str]) -> Vec<String> {
    args.iter().map(|s| s.to_string()).collect()
}

fn read(args: &Vec<String>) -> Args {
    parse_args(&|s: &String| s.parse::<f64>().ok().map(d), args)
}

fn compute(op: Op, a: Double, b: Double) -> Double {
    d(match op {
        Op::Plus => f(a) + f(b),
        Op::Minus => f(a) - f(b),
        Op::Times => f(a) * f(b),
        Op::Over => f(a) / f(b),
    })
}

fn buy(levels: &Vec<Level>, size: f64) -> Option<f64> {
    vwap_buy(&compute, levels, d(size)).map(f)
}

fn sell(levels: &Vec<Level>, size: f64) -> Option<f64> {
    vwap_sell(&compute, levels, d(size)).map(f)
}

/// The average price of a sale, computed without the library.
fn plain_vwap(levels: &[(f64, f64)], size: f64) -> Option<f64> {
    if size <= 0.0 {
        return None;
    }
    let mut remaining = size;
    let mut total = 0.0;
    for (price, offered) in levels {
        if remaining <= 0.0 {
            break;
        }
        let take = remaining.min(*offered);
        total += take * price;
        remaining -= take;
    }
    if remaining > 1e-12 {
        None
    } else {
        Some(total / size)
    }
}

#[test]
fn directions_have_labels() {
    assert_eq!(Direction::LongL.label(), "long lighter / short hyperliquid");
    assert_eq!(Direction::LongH.label(), "long hyperliquid / short lighter");
    assert_eq!(Direction::LongL.buy_venue(), Venue::Lighter);
    assert_eq!(Direction::LongH.buy_venue(), Venue::Hyperliquid);
}

#[test]
fn the_replay_has_defaults() {
    assert_eq!(DEFAULT_NOTIONAL_BITS, 1000.0_f64.to_bits());
    assert_eq!(DEFAULT_HL_FEE_BITS, 4.5_f64.to_bits());
    let args = argv(&["spread_replay"]);
    let a = read(&args);
    assert!(a.file.is_none() && a.symbol_filter.is_none());
    let t = a.terms();
    assert_eq!((f(t.notional_usd), f(t.lighter_fee_bps), f(t.hl_fee_bps)), (1000.0, 0.0, 4.5));
    assert_eq!((f(a.notional_usd), f(a.lighter_fee_bps), f(a.hl_fee_bps)), (1000.0, 0.0, 4.5));
}

#[test]
fn the_replay_reads_its_arguments() {
    let args = argv(&[
        "spread_replay", "--notional", "2500.5", "--hl-fee-bps", "3", "--lighter-fee-bps", "-0.5",
        "--symbols", "btc,eth", "data/ticks_xxx.jsonl",
    ]);
    let a = read(&args);
    assert_eq!((f(a.notional_usd), f(a.lighter_fee_bps), f(a.hl_fee_bps)), (2500.5, -0.5, 3.0));
    assert_eq!(a.symbol_filter, Some(argv(&["BTC", "ETH"])));
    assert_eq!(a.file.as_deref(), Some("data/ticks_xxx.jsonl"));

    let args = argv(&["spread_replay", "--notional", "much", "--hyperliquid-fee-bps", "1", "--symbol", "sol"]);
    let a = read(&args);
    assert_eq!(f(a.notional_usd), 1000.0);
    assert_eq!(a.file.as_deref(), Some("much"));
    assert_eq!(f(a.hl_fee_bps), 1.0);
    assert_eq!(a.symbol_filter, Some(argv(&["SOL"])));

    let args = argv(&["spread_replay", "--file", "x", "--unknown", "--symbols"]);
    let a = read(&args);
    assert_eq!(a.file.as_deref(), Some("x"));
    assert!(a.symbol_filter.is_none());
}

#[test]
fn arguments_take_the_numbers_that_were_read_in_them() {
    let args = argv(&["spread_replay", "--notional", "x", "--hl-fee-bps", "y"]);
    let a = args_with(&args, &vec![None, None, Some(d(7.0)), None, None]);
    assert_eq!((f(a.notional_usd), f(a.hl_fee_bps)), (7.0, 4.5));
    assert_eq!(a.file.as_deref(), Some("y"));
}

#[test]
fn only_the_two_venues_and_the_symbols_asked_for_are_kept() {
    let filter = Some(argv(&["BTC", "ETH"]));
    assert!(is_kept(&tick("lighter", "ETH", 0, 0), &filter));
    assert!(!is_kept(&tick("lighter", "SOL", 0, 0), &filter));
    assert!(is_kept(&tick("hyperliquid", "SOL", 0, 0), &None));
    assert!(!is_kept(&tick("binance", "BTC", 0, 0), &None));
    assert!(!is_kept(&tick("lighter", "BTC", 0, 0), &Some(vec![])));
}

#[test]
fn recordings_hold_what_is_kept() {
    let mut r = Recording::new();
    r.take_line("x", Some(tick("lighter", "SOL", 1, 1)), &None);
    r.take_line("", Some(tick("lighter", "AAA", 1, 1)), &None);
    r.take_line("x", None, &None);
    r.take_line("x", Some(tick("binance", "BBB", 1, 1)), &None);
    r.take_line("x", Some(tick("hyperliquid", "BTC", 2, 2)), &None);
    r.take_line("x", Some(tick("hyperliquid", "SOL", 3, 3)), &None);
    assert_eq!(r.ticks.len(), 3);
    assert_eq!(r.symbols, argv(&["BTC", "SOL"]));
    let logs = r.logs();
    assert_eq!(logs.len(), 2);
    assert_eq!((logs[0].symbol.as_str(), logs[0].ticks), ("BTC", 1));
    assert_eq!((logs[1].symbol.as_str(), logs[1].ticks), ("SOL", 2));
    assert!(logs[0].evals.is_empty());
}

#[test]
fn ticks_meet_the_latest_book_of_the_other_venue() {
    let mut r = Recording::new();
    for t in [
        tick("hyperliquid", "BTC", 50, 1500),
        tick("lighter", "BTC", 10, 1000),
        tick("lighter", "ETH", 20, 1100),
        tick("hyperliquid", "BTC", 30, 1300),
        tick("lighter", "BTC", 40, 1350),
        tick("lighter", "BTC", 40, 1200),
    ] {
        r.take_line("x", Some(t), &None);
    }
    let order = time_order(&r.ticks);
    assert_eq!(order, vec![1, 2, 3, 4, 5, 0]);
    let pairing = |symbol: usize, tick: usize, other: usize, age_other_ms: u64| Pairing {
        symbol,
        tick,
        other,
        age_other_ms,
    };
    assert_eq!(
        r.pairings(&order),
        vec![
            pairing(0, 2, 0, 300),
            pairing(0, 3, 2, 50),
            pairing(0, 4, 2, 0),
            pairing(0, 5, 4, 300),
        ]
    );
}

#[test]
fn books_are_found_by_venue() {
    let l = tick("lighter", "BTC", 1, 10);
    let h = tick("hyperliquid", "BTC", 2, 20);
    assert_eq!(book_on(Venue::Lighter, &l, &h).recv_ms, 10);
    assert_eq!(book_on(Venue::Hyperliquid, &l, &h).recv_ms, 20);
    assert_eq!(book_on(Venue::Lighter, &h, &l).recv_ms, 10);
    assert_eq!(book_on(Venue::Hyperliquid, &h, &l).recv_ms, 20);
}

#[test]
fn best_prices_must_be_there_and_above_zero() {
    let mut t = tick("lighter", "BTC", 0, 0);
    t.asks[0].price = d(102.0);
    assert_eq!(mid_from(&compute, &t), Some(d(100.5)));
    t.bids[0].price = d(0.0);
    assert_eq!(mid_from(&compute, &t), None);
    t.bids[0].price = d(f64::NAN);
    assert_eq!(mid_from(&compute, &t), None);
    t.bids.clear();
    assert_eq!(mid_from(&compute, &t), None);
    let mut t = tick("lighter", "BTC", 0, 0);
    t.asks.clear();
    assert_eq!(mid_from(&compute, &t), None);
}

#[test]
fn sizes_must_be_finite_and_above_zero() {
    assert!(is_tradable(d(1e-9)));
    for size in [0.0, -0.0, -1.0, f64::NAN, f64::INFINITY, f64::NEG_INFINITY] {
        assert!(!is_tradable(d(size)), "{size}");
    }
}

#[test]
fn trades_sweep_the_levels() {
    let side = vec![level(100.0, 1.0), level(101.0, 2.0), level(102.0, 10.0)];
    for price_of in [buy, sell] {
        assert_eq!(price_of(&side, 0.5), Some(100.0));
        assert_eq!(price_of(&side, 1.0), Some(100.0));
        assert_eq!(price_of(&side, 3.0), Some((100.0 + 2.0 * 101.0) / 3.0));
        assert_eq!(price_of(&side, 4.0), Some((100.0 + 2.0 * 101.0 + 102.0) / 4.0));
        assert_eq!(price_of(&side, 13.0), Some((100.0 + 202.0 + 1020.0) / 13.0));
        assert_eq!(price_of(&side, 13.1), None);
        assert_eq!(price_of(&vec![], 1.0), None);
        assert_eq!(price_of(&side, 0.0), None);
        assert_eq!(price_of(&side, -1.0), None);
        let one = vec![level(5.0, 1.0)];
        assert_eq!(price_of(&one, 1.0 + 1e-13), Some(5.0 / (1.0 + 1e-13)));
        assert_eq!(price_of(&one, 1.0 + 1e-11), None);
        assert_eq!(price_of(&one, 1e-13), Some(5.0 * 1e-13 / 1e-13));
    }
}

#[test]
fn dust_is_not_bought_where_nothing_is_offered() {
    for side in [vec![], vec![level(5.0, 0.0)]] {
        assert_eq!(buy(&side, 1e-13), None);
        assert_eq!(sell(&side, 1e-13), Some(0.0));
        assert_eq!(buy(&side, 1e-11), None);
        assert_eq!(sell(&side, 1e-11), None);
    }
}

#[test]
fn levels_behind_a_filled_trade_do_not_matter() {
    let short = vec![level(100.0, 1.0)];
    let long = vec![level(100.0, 1.0), level(7.0, 2.0)];
    assert_eq!(buy(&short, 0.75), buy(&long, 0.75));
    assert_eq!(buy(&short, 1.0), buy(&long, 1.0));
}

#[test]
fn smaller_orders_cost_no_more() {
    let side = vec![level(100.0, 1.0), level(101.0, 2.0), level(104.0, 4.0)];
    let mut last = 0.0;
    for eighths in 1..=56 {
        let price = buy(&side, eighths as f64 / 8.0).unwrap();
        assert!(price >= last);
        last = price;
    }
}

#[test]
fn a_round_trip_on_one_book_earns_nothing() {
    let bids = vec![level(99.0, 1.0), level(98.0, 4.0)];
    let asks = vec![level(100.0, 2.0), level(102.0, 3.0)];
    for quarters in 1..=20 {
        let size = d(quarters as f64 / 4.0);
        let sold = f(vwap_sell(&compute, &bids, size).unwrap());
        let bought = f(vwap_buy(&compute, &asks, size).unwrap());
        assert!(sold <= 99.0 && bought >= 100.0);
    }
}

#[test]
fn prices_are_out_of_order_by_roundings_at_most() {
    let mut seed: u64 = 11;
    let mut random = move || {
        seed = seed.wrapping_mul(6364136223846793005).wrapping_add(1442695040888963407);
        (seed >> 11) as f64 / (1u64 << 53) as f64
    };
    let slack = |roundings: usize| (1.0 + f64::EPSILON).powi(roundings as i32);
    for _ in 0..500 {
        let n = 1 + (random() * 8.0) as usize;
        let mut up = 100.0;
        let mut down = 100.0;
        let mut asks = vec![];
        let mut bids = vec![];
        for _ in 0..n {
            up += random();
            down -= random();
            asks.push(level(up, 0.3 + random()));
            bids.push(level(down, 0.3 + random()));
        }
        let large = 0.29 * n as f64 * random() + 1e-6;
        let small = large * random() + 1e-9;
        let (cheaper, dearer) = (buy(&asks, small.min(large)).unwrap(), buy(&asks, large).unwrap());
        assert!(cheaper <= dearer * slack(6 * n + 2));
        let sold = sell(&bids, large).unwrap();
        assert!(sold <= f(bids[0].price) * slack(3 * n + 1));
        assert!(f(asks[0].price) <= dearer * slack(3 * n + 1));
        assert!(sold <= dearer * slack(6 * n + 2));
    }
}

#[test]
fn trades_cost_what_floats_say() {
    let mut seed: u64 = 5;
    let mut random = move || {
        seed = seed.wrapping_mul(6364136223846793005).wrapping_add(1442695040888963407);
        (seed >> 11) as f64 / (1u64 << 53) as f64
    };
    for _ in 0..2000 {
        let n = (random() * 8.0) as usize;
        let plain: Vec<(f64, f64)> =
            (0..n).map(|_| (60_000.0 + 100.0 * random(), 3.0 * random())).collect();
        let levels: Vec<Level> = plain.iter().map(|(p, q)| level(*p, *q)).collect();
        let size = 8.0 * random();
        assert_eq!(buy(&levels, size), plain_vwap(&plain, size));
        assert_eq!(sell(&levels, size), plain_vwap(&plain, size));
    }
}

fn terms() -> Terms {
    Terms { notional_usd: d(150.0), lighter_fee_bps: d(0.5), hl_fee_bps: d(4.5) }
}

#[test]
fn both_directions_are_evaluated() {
    let mut l = tick("lighter", "BTC", 1, 10);
    let mut h = tick("hyperliquid", "BTC", 2, 25);
    l.bids = vec![level(99.0, 9.0)];
    l.asks = vec![level(101.0, 1.0), level(103.0, 9.0)];
    h.bids = vec![level(104.0, 9.0)];
    h.asks = vec![level(106.0, 9.0)];
    let size = 150.0 / ((104.0 + 106.0) / 2.0);
    let buy_l = plain_vwap(&[(101.0, 1.0), (103.0, 9.0)], size).unwrap();
    let net = |b: f64, s: f64| (s - b) / b * 10_000.0 - 0.5 - 4.5;
    let evals = evaluate(&compute, &h, &l, 15, terms());
    assert_eq!(evals.len(), 2);
    assert_eq!(evals[0].direction, Direction::LongL);
    assert_eq!((evals[0].recv_ms, evals[0].age_other_ms), (25, 15));
    assert_eq!((f(evals[0].vwap_buy), f(evals[0].vwap_sell)), (buy_l, 104.0 * size / size));
    assert_eq!(f(evals[0].net_bps), net(f(evals[0].vwap_buy), f(evals[0].vwap_sell)));
    assert_eq!(evals[1].direction, Direction::LongH);
    assert_eq!(f(evals[1].net_bps), net(f(evals[1].vwap_buy), f(evals[1].vwap_sell)));
    assert!(f(evals[1].vwap_buy) > 105.9 && f(evals[1].vwap_sell) < 99.1);
}

#[test]
fn a_shallow_side_leaves_a_direction_out() {
    let l = tick("lighter", "BTC", 1, 10);
    let mut h = tick("hyperliquid", "BTC", 2, 25);
    h.bids = vec![level(99.0, 0.001)];
    let evals = evaluate(&compute, &l, &h, 0, terms());
    assert!(evals.is_empty());
    let terms = Terms { notional_usd: d(50.0), ..terms() };
    let evals = evaluate(&compute, &l, &h, 0, terms);
    assert_eq!(evals.iter().map(|e| e.direction).collect::<Vec<_>>(), vec![Direction::LongH]);
    let size = d(50.0 / 100.0);
    assert!(evaluate_leg(&compute, Direction::LongL, &l, &h, 0, size, terms).is_none());
    assert!(evaluate_leg(&compute, Direction::LongH, &l, &h, 0, size, terms).is_some());
}

#[test]
fn without_a_middle_or_a_size_nothing_is_evaluated() {
    let l = tick("lighter", "BTC", 1, 10);
    let mut h = tick("hyperliquid", "BTC", 2, 25);
    h.asks.clear();
    assert!(evaluate(&compute, &h, &l, 0, terms()).is_empty());
    let nothing = Terms { notional_usd: d(0.0), ..terms() };
    assert!(evaluate(&compute, &l, &h, 0, nothing).is_empty());
    let endless = Terms { notional_usd: d(f64::INFINITY), ..terms() };
    assert!(evaluate(&compute, &l, &h, 0, endless).is_empty());
}

#[test]
fn recordings_are_replayed_in_the_order_of_reception() {
    let mut r = Recording::new();
    for t in [
        tick("hyperliquid", "ETH", 30, 1300),
        tick("lighter", "ETH", 10, 1000),
        tick("lighter", "BTC", 20, 1200),
        tick("lighter", "ETH", 40, 1350),
    ] {
        r.take_line("x", Some(t), &None);
    }
    let terms = Terms { notional_usd: d(50.0), ..terms() };
    let logs = r.replay(&compute, terms);
    assert_eq!(logs.len(), 2);
    assert_eq!((logs[0].symbol.as_str(), logs[0].ticks, logs[0].evals.len()), ("BTC", 1, 0));
    assert_eq!((logs[1].symbol.as_str(), logs[1].ticks), ("ETH", 3));
    let rows: Vec<(u64, u64, Direction)> =
        logs[1].evals.iter().map(|e| (e.recv_ms, e.age_other_ms, e.direction)).collect();
    assert_eq!(
        rows,
        vec![
            (1300, 300, Direction::LongL),
            (1300, 300, Direction::LongH),
            (1350, 50, Direction::LongL),
            (1350, 50, Direction::LongH),
        ]
    );
    let again = r.replay(&compute, terms);
    assert_eq!(again[1].evals, logs[1].evals);
}

fn eval(direction: Direction, net: f64, age: u64, recv_ms: u64) -> Eval {
    Eval {
        recv_ms,
        age_other_ms: age,
        direction,
        net_bps: d(net),
        vwap_buy: d(1.0),
        vwap_sell: d(2.0),
    }
}

#[test]
fn directions_are_reported() {
    let l = Direction::LongL;
    let evals = vec![
        eval(l, 6.0, 10, 1),
        eval(Direction::LongH, 99.0, 10, 2),
        eval(l, -3.0, 2000, 3),
        eval(l, 12.0, 400, 4),
        eval(l, 12.0, 60, 5),
        eval(l, 0.0, 50, 6),
    ];
    let r = report_direction(&compute, &evals, l);
    assert_eq!((r.total, r.above_0, r.above_5, r.above_10), (5, 3, 3, 2));
    assert_eq!(f(r.above_0_percent), 100.0 * 3.0 / 5.0);
    let p = r.percentiles.unwrap();
    assert_eq!((f(p.p50), f(p.p95), f(p.p99)), (6.0, 12.0, 12.0));
    assert_eq!(f(r.max), 12.0);
    assert_eq!(r.best.unwrap().recv_ms, 5);
    let row = |max_age_ms: u64, kept: usize, above_0: usize, above_5: usize| GateRow {
        max_age_ms,
        kept,
        above_0,
        above_5,
    };
    assert_eq!(
        r.gates,
        vec![
            row(u64::MAX, 5, 3, 3),
            row(1000, 4, 3, 3),
            row(500, 4, 3, 3),
            row(300, 3, 2, 2),
            row(200, 3, 2, 2),
            row(100, 3, 2, 2),
            row(50, 2, 1, 1),
        ]
    );
    assert_eq!(gate_thresholds(), vec![u64::MAX, 1000, 500, 300, 200, 100, 50]);
    let h = report_direction(&compute, &evals, Direction::LongH);
    assert_eq!((h.total, r.total), (1, evals.len() - 1));
}

#[test]
fn an_empty_direction_has_no_best() {
    let r = report_direction(&compute, &vec![], Direction::LongL);
    assert_eq!((r.total, r.above_0), (0, 0));
    assert!(r.percentiles.is_none() && r.best.is_none());
    assert_eq!(f(r.above_0_percent), 0.0);
    assert_eq!(f(r.max), f64::NEG_INFINITY);
    assert!(r.gates.iter().all(|g| g.kept == 0));
}

#[test]
fn the_best_is_the_one_that_max_by_finds() {
    let mut seed: u64 = 11;
    for _ in 0..200 {
        let mut evals = Vec::new();
        for i in 0..30u64 {
            seed = seed.wrapping_mul(6364136223846793005).wrapping_add(1442695040888963407);
            let net = ((seed >> 33) % 7) as f64 - 3.0;
            evals.push(eval(Direction::LongL, net, (seed >> 50) % 90, i));
        }
        let r = report_direction(&compute, &evals, Direction::LongL);
        let best = evals
            .iter()
            .max_by(|a, b| f(a.net_bps).partial_cmp(&f(b.net_bps)).unwrap())
            .unwrap();
        assert_eq!(r.best.unwrap().recv_ms, best.recv_ms);
        let max = evals.iter().map(|e| f(e.net_bps)).fold(f64::NEG_INFINITY, f64::max);
        assert_eq!(f(r.max), max);
        for w in r.gates.windows(2) {
            assert!(w[0].kept >= w[1].kept && w[0].above_0 >= w[1].above_0);
        }
    }
}

#[test]
fn numbers_that_are_none_do_not_win() {
    let l = Direction::LongL;
    let evals = vec![eval(l, 1.0, 0, 1), eval(l, f64::NAN, 0, 2)];
    let r = report_direction(&compute, &evals, l);
    assert_eq!(f(r.max), 1.0);
    assert_eq!(r.best.unwrap().recv_ms, 2);
    assert_eq!(r.above_0, 1);
}
