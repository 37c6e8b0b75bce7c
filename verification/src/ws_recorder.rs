//! The recorder: its arguments, its clock, and when it connects, reads, writes and stops.

use std::time::{Duration, SystemTime, SystemTimeError, UNIX_EPOCH};

use vstd::prelude::*;
use vstd::string::*;

use crate::args::{flag_value, parse_symbols, symbol_list, value_after};
use crate::text::{number_of, parse_number, texts};
use crate::tick::Venue;

verus! {

/// How long a recording lasts unless told otherwise: a day.
pub const DEFAULT_DURATION_SECS: u64 = 86_400;

/// How many levels of each side are kept unless told otherwise.
pub const DEFAULT_DEPTH: usize = 20;

/// How long the writer lets lines lie in memory, in milliseconds.
pub const FLUSH_INTERVAL_MS: u128 = 5_000;

/// After how many seconds without a message a connection is taken for dead.
pub const WS_READ_TIMEOUT_SECS: u64 = 60;

/// How many seconds lie between two pings.
pub const PING_INTERVAL_SECS: u64 = 20;

/// How many seconds a reader waits after a connection has ended.
pub const RECONNECT_DELAY_SECS: u64 = 2;

/// How many seconds a reader waits after it could not connect.
pub const RETRY_DELAY_SECS: u64 = 3;

/// How many milliseconds lie between two subscriptions to Hyperliquid.
pub const SUBSCRIPTION_GAP_MS: u64 = 50;

// ---------------------------------------------------------------------------
// The clock
// ---------------------------------------------------------------------------

#[verifier::external_type_specification]
#[verifier::external_body]
pub struct ExSystemTime(std::time::SystemTime);

#[verifier::external_type_specification]
#[verifier::external_body]
pub struct ExSystemTimeError(std::time::SystemTimeError);

/// How many nanoseconds after the start of 1970 a time is, as `SystemTime::duration_since` tells
/// it; negative before.
pub uninterp spec fn nanos_since_epoch(t: SystemTime) -> int;

/// How many nanoseconds a span of time lasts.
pub uninterp spec fn nanos_in(d: Duration) -> nat;

/// Calls `SystemTime::now`. Nothing is said of the time: it is the machine's.
#[verifier::external_body]
fn now() -> (r: SystemTime) {
    SystemTime::now()
}

/// Calls `SystemTime::duration_since` with the start of 1970: the span from there to a time, or
/// an error where the time is earlier.
#[verifier::external_body]
fn since_epoch(t: &SystemTime) -> (r: Result<Duration, SystemTimeError>)
    ensures
        match r {
            Ok(d) => nanos_in(d) == nanos_since_epoch(*t),
            Err(_) => nanos_since_epoch(*t) < 0,
        },
{
    t.duration_since(UNIX_EPOCH)
}

/// Calls `Duration::as_millis`: the whole milliseconds of a span.
#[verifier::external_body]
fn whole_millis(d: &Duration) -> (r: u128)
    ensures
        r == nanos_in(*d) / 1_000_000,
{
    d.as_millis()
}

/// The low 64 bits of a number.
pub fn low_bits(n: u128) -> (r: u64)
    ensures
        r == n % 0x1_0000_0000_0000_0000,
{
    (n % 0x1_0000_0000_0000_0000) as u64
}

/// A time in milliseconds since the start of 1970, zero before that, within 64 bits.
pub open spec fn epoch_millis(t: SystemTime) -> int {
    if nanos_since_epoch(t) < 0 {
        0
    } else {
        (nanos_since_epoch(t) / 1_000_000) % 0x1_0000_0000_0000_0000
    }
}

/// A time in milliseconds since the start of 1970, zero before that.
pub fn epoch_ms_at(t: &SystemTime) -> (r: u64)
    ensures
        r == epoch_millis(*t),
{
    match since_epoch(t) {
        Ok(d) => low_bits(whole_millis(&d)),
        Err(_) => 0,
    }
}

/// The machine's time in milliseconds since the start of 1970.
pub fn epoch_ms() -> (r: u64)
    ensures
        exists|t: SystemTime| r == #[trigger] epoch_millis(t),
{
    let t: SystemTime = now();
    epoch_ms_at(&t)
}

// ---------------------------------------------------------------------------
// Arguments
// ---------------------------------------------------------------------------

/// What to record, for how long, how deep and where to.
pub struct Args {
    pub symbols: Vec<String>,
    pub duration_secs: u64,
    pub depth: usize,
    pub out_dir: String,
}

/// The number that follows a flag, or what stands in for it.
pub open spec fn number_after(
    argv: Seq<Seq<char>>,
    flag: Seq<char>,
    max: nat,
    default: nat,
) -> nat {
    match value_after(argv, flag) {
        Some(s) => match number_of(s, max) {
            Some(n) => n,
            None => default,
        },
        None => default,
    }
}

fn flag_number(argv: &Vec<String>, flag: &str, max: u64, default: u64) -> (r: u64)
    requires
        default <= max,
    ensures
        r == number_after(texts(argv@), flag@, max as nat, default as nat),
        r <= max,
{
    match flag_value(argv, flag) {
        Some(s) => match parse_number(s.as_str(), max) {
            Some(n) => n,
            None => default,
        },
        None => default,
    }
}

/// Whether `r` is what the arguments of the recorder say.
pub open spec fn are_args(argv: Seq<Seq<char>>, r: Args) -> bool {
    &&& texts(r.symbols@) == match value_after(argv, "--symbols"@) {
        Some(s) => symbol_list(s),
        None => seq!["BTC"@, "ETH"@, "SOL"@],
    }
    &&& r.duration_secs == number_after(
        argv,
        "--duration"@,
        u64::MAX as nat,
        DEFAULT_DURATION_SECS as nat,
    )
    &&& r.depth == number_after(argv, "--depth"@, usize::MAX as nat, DEFAULT_DEPTH as nat)
    &&& r.out_dir@ == match value_after(argv, "--out"@) {
        Some(s) => s,
        None => "data"@,
    }
}

/// Reads the arguments of the recorder.
pub fn parse_args(argv: &Vec<String>) -> (r: Args)
    ensures
        are_args(texts(argv@), r),
{
    let symbols: Vec<String> = match flag_value(argv, "--symbols") {
        Some(s) => parse_symbols(s.as_str()),
        None => {
            let mut list: Vec<String> = Vec::new();
            list.push("BTC".to_owned());
            list.push("ETH".to_owned());
            list.push("SOL".to_owned());
            assert(texts(list@) =~= seq!["BTC"@, "ETH"@, "SOL"@]);
            list
        },
    };
    let duration_secs: u64 = flag_number(argv, "--duration", u64::MAX, DEFAULT_DURATION_SECS);
    let depth: u64 = flag_number(argv, "--depth", usize::MAX as u64, DEFAULT_DEPTH as u64);
    let out_dir: String = match flag_value(argv, "--out") {
        Some(s) => s.clone(),
        None => "data".to_owned(),
    };
    Args { symbols, duration_secs, depth: depth as usize, out_dir }
}

// ---------------------------------------------------------------------------
// The writer
// ---------------------------------------------------------------------------

/// How many ticks were written, in all and of each venue.
#[derive(Clone, Copy, Debug, PartialEq, Eq, Structural)]
pub struct Tally {
    pub total: u64,
    pub lighter: u64,
    pub hyperliquid: u64,
}

/// What has happened to the writer.
pub enum WriterEvent {
    /// A tick of a venue was written.
    Written(String),
    /// A tick could not be written.
    WriteFailed,
    /// A tick could not be turned into a line.
    NotALine,
    /// No reader is left.
    Closed,
    /// For a while no tick came; the flag says whether the recording is over.
    Idle(bool),
}

/// What the writer does next.
#[derive(Clone, Copy, Debug, PartialEq, Eq, Structural)]
pub enum WriterStep {
    /// Wait for the next tick.
    Continue,
    /// Hand its lines to the disk, report the tally, and wait for the next tick.
    Flush,
    /// Hand its lines to the disk and stop.
    Stop,
}

/// What the writer does after an event, when it last handed its lines to the disk so many
/// milliseconds ago.
pub open spec fn writer_step(event: WriterEvent, since_flush_ms: u128) -> WriterStep {
    match event {
        WriterEvent::Written(_) | WriterEvent::NotALine => if since_flush_ms
            >= FLUSH_INTERVAL_MS {
            WriterStep::Flush
        } else {
            WriterStep::Continue
        },
        WriterEvent::WriteFailed | WriterEvent::Closed => WriterStep::Stop,
        WriterEvent::Idle(cancelled) => if cancelled {
            WriterStep::Stop
        } else if since_flush_ms >= FLUSH_INTERVAL_MS {
            WriterStep::Flush
        } else {
            WriterStep::Continue
        },
    }
}

/// The name of the venue of a written tick.
pub open spec fn written_venue(event: WriterEvent) -> Option<Seq<char>> {
    match event {
        WriterEvent::Written(exchange) => Some(exchange@),
        _ => None,
    }
}

/// How many of some events wrote a tick.
pub open spec fn written(events: Seq<WriterEvent>) -> nat {
    events.filter(|e: WriterEvent| written_venue(e) is Some).len()
}

/// How many of some events wrote a tick of a venue.
pub open spec fn written_of(events: Seq<WriterEvent>, venue: Venue) -> nat {
    events.filter(|e: WriterEvent| written_venue(e) == Some(venue.text())).len()
}

/// Whether a tally counts what some events wrote.
pub open spec fn tallies(t: Tally, events: Seq<WriterEvent>) -> bool {
    &&& t.total == written(events)
    &&& t.lighter == written_of(events, Venue::Lighter)
    &&& t.hyperliquid == written_of(events, Venue::Hyperliquid)
}

/// One more, or as many.
pub open spec fn plus(n: u64, one_more: bool) -> int {
    if one_more {
        n + 1
    } else {
        n as int
    }
}

/// Whether a tally goes from `before` to `after` over an event, and the writer then takes a step.
pub open spec fn event_taken(
    before: Tally,
    event: WriterEvent,
    since_flush_ms: u128,
    after: Tally,
    r: WriterStep,
) -> bool {
    &&& r == writer_step(event, since_flush_ms)
    &&& after.total == plus(before.total, written_venue(event) is Some)
    &&& after.lighter == plus(
        before.lighter,
        written_venue(event) == Some(Venue::Lighter.text()),
    )
    &&& after.hyperliquid == plus(
        before.hyperliquid,
        written_venue(event) == Some(Venue::Hyperliquid.text()),
    )
}

impl Tally {
    /// Of no venue more ticks were written than of both.
    pub open spec fn wf(self) -> bool {
        self.lighter + self.hyperliquid <= self.total
    }

    /// A tally of nothing.
    pub fn new() -> (r: Tally)
        ensures
            r.wf(),
            tallies(r, Seq::empty()),
            r == (Tally { total: 0, lighter: 0, hyperliquid: 0 }),
    {
        proof {
            reveal(Seq::filter);
        }
        Tally { total: 0, lighter: 0, hyperliquid: 0 }
    }

    /// Counts a written tick, and decides what the writer does next.
    pub fn on_event(&mut self, event: &WriterEvent, since_flush_ms: u128) -> (r: WriterStep)
        requires
            old(self).wf(),
            event is Written ==> old(self).total < u64::MAX,
        ensures
            final(self).wf(),
            event_taken(*old(self), *event, since_flush_ms, *final(self), r),
    {
        match event {
            WriterEvent::Written(exchange) => {
                proof {
                    crate::tick::venue_names_lead_back(Venue::Lighter);
                    crate::tick::venue_names_lead_back(Venue::Hyperliquid);
                }
                self.total = self.total + 1;
                match Venue::from_name(exchange.as_str()) {
                    Some(Venue::Lighter) => {
                        self.lighter = self.lighter + 1;
                    },
                    Some(Venue::Hyperliquid) => {
                        self.hyperliquid = self.hyperliquid + 1;
                    },
                    None => {},
                }
                if since_flush_ms >= FLUSH_INTERVAL_MS {
                    WriterStep::Flush
                } else {
                    WriterStep::Continue
                }
            },
            WriterEvent::NotALine => {
                if since_flush_ms >= FLUSH_INTERVAL_MS {
                    WriterStep::Flush
                } else {
                    WriterStep::Continue
                }
            },
            WriterEvent::WriteFailed | WriterEvent::Closed => WriterStep::Stop,
            WriterEvent::Idle(cancelled) => {
                if *cancelled {
                    WriterStep::Stop
                } else if since_flush_ms >= FLUSH_INTERVAL_MS {
                    WriterStep::Flush
                } else {
                    WriterStep::Continue
                }
            },
        }
    }
}

/// A tally that counts what some events wrote, and is carried over one more event, counts what
/// they all wrote.
pub proof fn tally_counts_every_line(
    before: Tally,
    events: Seq<WriterEvent>,
    event: WriterEvent,
    after: Tally,
)
    requires
        tallies(before, events),
        after.total == plus(before.total, written_venue(event) is Some),
        after.lighter == plus(
            before.lighter,
            written_venue(event) == Some(Venue::Lighter.text()),
        ),
        after.hyperliquid == plus(
            before.hyperliquid,
            written_venue(event) == Some(Venue::Hyperliquid.text()),
        ),
    ensures
        tallies(after, events.push(event)),
{
    reveal(Seq::filter);
    assert(events.push(event).drop_last() =~= events);
}

// ---------------------------------------------------------------------------
// The readers' connections
// ---------------------------------------------------------------------------

/// What has happened to a reader.
#[derive(Clone, Copy, Debug, PartialEq, Eq, Structural)]
pub enum LinkEvent {
    /// The reader was started, with something to subscribe to or nothing.
    Started { nothing_to_record: bool },
    /// The reader has waited as long as it was told to.
    Waited,
    /// It could not connect.
    ConnectFailed,
    /// It is connected and has subscribed.
    Subscribed,
    /// A message was dealt with.
    Handled,
    /// The connection was closed, broke, ended, or was silent for too long.
    Lost,
    /// Nobody takes its ticks any more.
    Unwanted,
}

/// What a reader does next.
#[derive(Clone, Copy, Debug, PartialEq, Eq, Structural)]
pub enum LinkStep {
    /// Connect and subscribe.
    Connect,
    /// Wait for the next message.
    Read,
    /// Wait for so many seconds.
    Wait { secs: u64 },
    /// Stop.
    Stop,
}

/// What a reader does after an event; `cancelled` says whether the recording is over.
pub open spec fn link_step(event: LinkEvent, cancelled: bool) -> LinkStep {
    match event {
        LinkEvent::Started { nothing_to_record } => if nothing_to_record || cancelled {
            LinkStep::Stop
        } else {
            LinkStep::Connect
        },
        LinkEvent::Waited => if cancelled {
            LinkStep::Stop
        } else {
            LinkStep::Connect
        },
        LinkEvent::ConnectFailed => LinkStep::Wait { secs: RETRY_DELAY_SECS },
        LinkEvent::Subscribed | LinkEvent::Handled => if cancelled {
            LinkStep::Stop
        } else {
            LinkStep::Read
        },
        LinkEvent::Lost => if cancelled {
            LinkStep::Stop
        } else {
            LinkStep::Wait { secs: RECONNECT_DELAY_SECS }
        },
        LinkEvent::Unwanted => LinkStep::Stop,
    }
}

/// Decides what a reader does after an event; `cancelled` says whether the recording is over.
pub fn next_step(event: LinkEvent, cancelled: bool) -> (r: LinkStep)
    ensures
        r == link_step(event, cancelled),
{
    match event {
        LinkEvent::Started { nothing_to_record } => {
            if nothing_to_record || cancelled {
                LinkStep::Stop
            } else {
                LinkStep::Connect
            }
        },
        LinkEvent::Waited => {
            if cancelled {
                LinkStep::Stop
            } else {
                LinkStep::Connect
            }
        },
        LinkEvent::ConnectFailed => LinkStep::Wait { secs: RETRY_DELAY_SECS },
        LinkEvent::Subscribed | LinkEvent::Handled => {
            if cancelled {
                LinkStep::Stop
            } else {
                LinkStep::Read
            }
        },
        LinkEvent::Lost => {
            if cancelled {
                LinkStep::Stop
            } else {
                LinkStep::Wait { secs: RECONNECT_DELAY_SECS }
            }
        },
        LinkEvent::Unwanted => LinkStep::Stop,
    }
}

/// Whether an event can follow a step.
pub open spec fn can_follow(step: LinkStep, event: LinkEvent) -> bool {
    match step {
        LinkStep::Connect => event is ConnectFailed || event is Subscribed,
        LinkStep::Read => event is Handled || event is Lost || event is Unwanted,
        LinkStep::Wait { .. } => event is Waited,
        LinkStep::Stop => false,
    }
}

/// Whether the events of a reader can follow each other, where `cancelled[i]` says whether the
/// recording was over at the event `i`.
pub open spec fn is_run(events: Seq<LinkEvent>, cancelled: Seq<bool>) -> bool {
    &&& events.len() == cancelled.len()
    &&& forall|i: int|
        0 <= i && i + 1 < events.len() ==> can_follow(
            link_step(#[trigger] events[i], cancelled[i]),
            events[i + 1],
        )
}

/// Once the recording is over, a reader stops after at most one more event.
pub proof fn cancelled_reader_stops(events: Seq<LinkEvent>, cancelled: Seq<bool>, i: int)
    requires
        is_run(events, cancelled),
        0 <= i < events.len(),
        forall|j: int| i <= j < events.len() ==> #[trigger] cancelled[j],
    ensures
        events.len() <= i + 2,
        link_step(events[i], true) == LinkStep::Stop || link_step(events[i], true)
            == (LinkStep::Wait { secs: RETRY_DELAY_SECS }),
{
    assert(cancelled[i]);
    if i + 2 < events.len() {
        assert(cancelled[i + 1]);
        assert(can_follow(link_step(events[i], cancelled[i]), events[i + 1]));
        assert(can_follow(link_step(events[i + 1], cancelled[i + 1]), events[i + 2]));
    }
}

/// A reader never connects twice without a pause: between an attempt that failed, or a lost
/// connection, and the next attempt it waits.
pub proof fn reader_waits_before_it_reconnects(
    events: Seq<LinkEvent>,
    cancelled: Seq<bool>,
    i: int,
)
    requires
        is_run(events, cancelled),
        0 <= i,
        i + 1 < events.len(),
        events[i] is ConnectFailed || events[i] is Lost,
    ensures
        link_step(events[i], cancelled[i]) is Wait,
        events[i + 1] is Waited,
{
    assert(can_follow(link_step(events[i], cancelled[i]), events[i + 1]));
}

} // verus!
