use bbot_recon::ws_recorder::{
    epoch_ms, epoch_ms_at, low_bits, next_step, parse_args, LinkEvent, LinkStep, Tally,
    WriterEvent, WriterStep,
};
use std::time::{Duration, SystemTime, UNIX_EPOCH};

fn argv(args: &[&str]) -> Vec<String> {
    args.iter().map(|s| s.to_string()).collect()
}

#[test]
fn times_are_counted_in_whole_milliseconds() {
    assert_eq!(epoch_ms_at(&UNIX_EPOCH), 0);
    assert_eq!(epoch_ms_at(&(UNIX_EPOCH + Duration::from_millis(1_700_000_000_123))), 1_700_000_000_123);
    assert_eq!(epoch_ms_at(&(UNIX_EPOCH + Duration::from_nanos(1_999_999))), 1);
    assert_eq!(epoch_ms_at(&(UNIX_EPOCH - Duration::from_millis(5))), 0);
}

#[test]
fn the_clock_shows_the_present() {
    let before = SystemTime::now().duration_since(UNIX_EPOCH).unwrap().as_millis() as u64;
    let now = epoch_ms();
    let after = SystemTime::now().duration_since(UNIX_EPOCH).unwrap().as_millis() as u64;
    assert!(before <= now && now <= after);
}

#[test]
fn large_numbers_lose_their_high_bits() {
    for n in [0u128, 1, u64::MAX as u128, u64::MAX as u128 + 1, u128::MAX, 5 << 64 | 7] {
        assert_eq!(low_bits(n), n as u64);
    }
}

#[test]
fn the_recorder_has_defaults() {
    let a = parse_args(&argv(&["ws_recorder"]));
    assert_eq!(a.symbols, argv(&["BTC", "ETH", "SOL"]));
    assert_eq!((a.duration_secs, a.depth), (86_400, 20));
    assert_eq!(a.out_dir, "data");
}

#[test]
fn the_recorder_reads_its_arguments() {
    let a = parse_args(&argv(&[
        "ws_recorder", "--symbols", "btc, eth", "--duration", "3600", "--depth", "5", "--out", "/tmp/x",
    ]));
    assert_eq!(a.symbols, argv(&["BTC", "ETH"]));
    assert_eq!((a.duration_secs, a.depth), (3600, 5));
    assert_eq!(a.out_dir, "/tmp/x");
    let a = parse_args(&argv(&[
        "ws_recorder", "--depth", "-1", "--duration", "1h", "--symbols", ",", "--out",
    ]));
    assert_eq!(a.symbols, Vec::<String>::new());
    assert_eq!((a.duration_secs, a.depth), (86_400, 20));
    assert_eq!(a.out_dir, "data");
    let a = parse_args(&argv(&["ws_recorder", "--symbols", "--depth", "7"]));
    assert_eq!(a.symbols, argv(&["--DEPTH"]));
    assert_eq!(a.depth, 7);
}

#[test]
fn written_ticks_are_tallied() {
    let mut t = Tally::new();
    let written = |e: &str| WriterEvent::Written(e.to_string());
    assert_eq!(t.on_event(&written("lighter"), 0), WriterStep::Continue);
    assert_eq!(t.on_event(&written("hyperliquid"), 4_999), WriterStep::Continue);
    assert_eq!(t.on_event(&written("hyperliquid"), 5_000), WriterStep::Flush);
    assert_eq!(t.on_event(&written("elsewhere"), 0), WriterStep::Continue);
    assert_eq!(t.on_event(&WriterEvent::NotALine, 0), WriterStep::Continue);
    assert_eq!(t.on_event(&WriterEvent::NotALine, 5_001), WriterStep::Flush);
    assert_eq!(t.on_event(&WriterEvent::Idle(false), 4_999), WriterStep::Continue);
    assert_eq!(t.on_event(&WriterEvent::Idle(false), 5_000), WriterStep::Flush);
    assert_eq!(t.on_event(&WriterEvent::Idle(true), 5_000), WriterStep::Stop);
    assert_eq!(t.on_event(&WriterEvent::Idle(true), 0), WriterStep::Stop);
    assert_eq!(t.on_event(&WriterEvent::WriteFailed, 0), WriterStep::Stop);
    assert_eq!(t.on_event(&WriterEvent::Closed, 0), WriterStep::Stop);
    assert_eq!(t, Tally { total: 4, lighter: 1, hyperliquid: 2 });
}

#[test]
fn readers_connect_read_and_reconnect() {
    let start = LinkEvent::Started { nothing_to_record: false };
    assert_eq!(next_step(start, false), LinkStep::Connect);
    assert_eq!(next_step(LinkEvent::Waited, false), LinkStep::Connect);
    assert_eq!(next_step(LinkEvent::ConnectFailed, false), LinkStep::Wait { secs: 3 });
    assert_eq!(next_step(LinkEvent::Subscribed, false), LinkStep::Read);
    assert_eq!(next_step(LinkEvent::Handled, false), LinkStep::Read);
    assert_eq!(next_step(LinkEvent::Lost, false), LinkStep::Wait { secs: 2 });
}

#[test]
fn readers_stop() {
    for cancelled in [false, true] {
        let idle = LinkEvent::Started { nothing_to_record: true };
        assert_eq!(next_step(idle, cancelled), LinkStep::Stop);
        assert_eq!(next_step(LinkEvent::Unwanted, cancelled), LinkStep::Stop);
    }
    for event in [
        LinkEvent::Started { nothing_to_record: false },
        LinkEvent::Waited,
        LinkEvent::Subscribed,
        LinkEvent::Handled,
        LinkEvent::Lost,
    ] {
        assert_eq!(next_step(event, true), LinkStep::Stop);
    }
    assert_eq!(next_step(LinkEvent::ConnectFailed, true), LinkStep::Wait { secs: 3 });
}
