//! How the tools are told what to do, and how the recorder runs.

use std::time::SystemTime;

use vstd::prelude::*;

use crate::args::{symbol_list, symbol_of, symbols_of, value_after};
use crate::recordings::{is_found, path_of, Entry};
use crate::text::{
    before, decimal, decimal_reads_back, free_of, joined, number_of, pieces,
    pieces_make_up_the_text, texts, trimmed, trimmed_end, trimmed_front, uppercase, white_space,
};
use crate::ws_recorder::{
    are_args, can_follow, epoch_millis, event_taken, is_run, link_step, nanos_since_epoch, Args,
    LinkEvent, LinkStep, Tally, WriterEvent, WriterStep, PING_INTERVAL_SECS, SUBSCRIPTION_GAP_MS,
    WS_READ_TIMEOUT_SECS,
};

verus! {

// ---------------------------------------------------------------------------
// The writer
// ---------------------------------------------------------------------------

/// A written tick is counted once in all and once for its venue, and nothing else is counted.
pub proof fn written_ticks_are_counted(
    before: Tally,
    event: WriterEvent,
    since_flush_ms: u128,
    after: Tally,
    r: WriterStep,
)
    requires
        event_taken(before, event, since_flush_ms, after, r),
    ensures
        event matches WriterEvent::Written(venue) ==> {
            &&& after.total == before.total + 1
            &&& venue@ == "lighter"@ ==> after.lighter == before.lighter + 1 && after.hyperliquid
                == before.hyperliquid
            &&& venue@ == "hyperliquid"@ ==> after.hyperliquid == before.hyperliquid + 1
                && after.lighter == before.lighter
            &&& venue@ != "lighter"@ && venue@ != "hyperliquid"@ ==> after.lighter == before.lighter
                && after.hyperliquid == before.hyperliquid
        },
        !(event is Written) ==> after == before,
{
    reveal_strlit("lighter");
    reveal_strlit("hyperliquid");
    assert("lighter"@.len() != "hyperliquid"@.len());
}

/// The writer stops where it cannot write, where no reader is left, and where the recording is over
/// and no tick comes. Else it hands its lines to the disk once five seconds have gone by since it
/// last did, and goes on before that.
pub proof fn lines_reach_the_disk_every_five_seconds(
    before: Tally,
    event: WriterEvent,
    since_flush_ms: u128,
    after: Tally,
    r: WriterStep,
)
    requires
        event_taken(before, event, since_flush_ms, after, r),
    ensures
        r is Stop <==> event is WriteFailed || event is Closed || event == WriterEvent::Idle(true),
        !(r is Stop) ==> (r is Flush <==> since_flush_ms >= 5000),
{
}

// ---------------------------------------------------------------------------
// The readers
// ---------------------------------------------------------------------------

/// Once the recording is over, a reader neither connects nor reads, and it stops, but for the pause
/// after an attempt that failed. Before that it stops only where it has nothing to record, or
/// nobody takes its ticks.
pub proof fn reader_stops_when_it_should(event: LinkEvent, cancelled: bool)
    ensures
        cancelled && !(event is ConnectFailed) ==> link_step(event, cancelled) is Stop,
        link_step(event, cancelled) is Stop && !cancelled ==> event is Unwanted || event
            == (LinkEvent::Started { nothing_to_record: true }),
        event is Unwanted ==> link_step(event, cancelled) is Stop,
        event == (LinkEvent::Started { nothing_to_record: true }) ==> link_step(
            event,
            cancelled,
        ) is Stop,
{
}

/// A reader waits three seconds after an attempt to connect that failed, and two after a connection
/// was lost; it connects at its start and after each pause, and reads as long as it is connected.
pub proof fn reader_keeps_its_connection(event: LinkEvent, cancelled: bool)
    ensures
        event is ConnectFailed ==> link_step(event, cancelled) == (LinkStep::Wait { secs: 3 }),
        event is Lost && !cancelled ==> link_step(event, cancelled) == (LinkStep::Wait { secs: 2 }),
        (event is Waited || event == (LinkEvent::Started { nothing_to_record: false }))
            && !cancelled ==> link_step(event, cancelled) is Connect,
        (event is Subscribed || event is Handled) && !cancelled ==> link_step(event, cancelled) is Read,
{
}

/// A reader deals with a message, or loses its connection, only after it has subscribed, and not
/// after it has lost the connection since.
pub proof fn reader_reads_while_it_is_subscribed(
    events: Seq<LinkEvent>,
    cancelled: Seq<bool>,
    i: int,
) -> (at: int)
    requires
        is_run(events, cancelled),
        events.len() > 0,
        events[0] is Started,
        0 <= i < events.len(),
        events[i] is Handled || events[i] is Lost || events[i] is Unwanted,
    ensures
        0 < at < i,
        events[at] is Subscribed,
        forall|k: int| at < k < i ==> (#[trigger] events[k]) is Handled,
    decreases i,
{
    assert(i > 0);
    assert(can_follow(link_step(events[i - 1], cancelled[i - 1]), events[i]));
    if events[i - 1] is Subscribed {
        i - 1
    } else {
        assert(events[i - 1] is Handled);
        reader_reads_while_it_is_subscribed(events, cancelled, i - 1)
    }
}

// ---------------------------------------------------------------------------
// The clock
// ---------------------------------------------------------------------------

/// A time after the start of 1970 lies in the millisecond that its number counts, and an earlier
/// one counts nothing.
pub proof fn milliseconds_are_whole(t: SystemTime)
    requires
        nanos_since_epoch(t) < 0x1_0000_0000_0000_0000 * 1_000_000,
    ensures
        nanos_since_epoch(t) < 0 ==> epoch_millis(t) == 0,
        nanos_since_epoch(t) >= 0 ==> epoch_millis(t) * 1_000_000 <= nanos_since_epoch(t) < (
        epoch_millis(t) + 1) * 1_000_000,
{
}

// ---------------------------------------------------------------------------
// Arguments
// ---------------------------------------------------------------------------

/// A flag takes the argument behind its first occurrence.
pub proof fn flag_takes_the_argument_behind_it(argv: Seq<Seq<char>>, flag: Seq<char>, k: int)
    requires
        0 <= k < argv.len(),
        argv[k] == flag,
        forall|j: int| 0 <= j < k ==> #[trigger] argv[j] != flag,
    ensures
        value_after(argv, flag) == if k + 1 < argv.len() {
            Some(argv[k + 1])
        } else {
            None
        },
    decreases k,
{
    if k > 0 {
        let rest = argv.drop_first();
        assert(argv[0] != flag);
        assert forall|j: int| 0 <= j < k - 1 implies #[trigger] rest[j] != flag by {
            assert(rest[j] == argv[j + 1]);
        }
        flag_takes_the_argument_behind_it(rest, flag, k - 1);
    }
}

/// A flag that does not occur has no value.
pub proof fn absent_flag_has_no_value(argv: Seq<Seq<char>>, flag: Seq<char>)
    requires
        !argv.contains(flag),
    ensures
        value_after(argv, flag) is None,
    decreases argv.len(),
{
    if argv.len() > 0 {
        let rest = argv.drop_first();
        assert(argv.contains(argv[0]));
        assert(!rest.contains(flag)) by {
            if rest.contains(flag) {
                let k = choose|k: int| 0 <= k < rest.len() && rest[k] == flag;
                assert(argv[k + 1] == flag);
            }
        }
        absent_flag_has_no_value(rest, flag);
    }
}

/// Without a flag the recorder records BTC, ETH and SOL for a day, twenty levels deep, to `data`.
pub proof fn recorder_has_defaults(argv: Seq<Seq<char>>, r: Args)
    requires
        are_args(argv, r),
    ensures
        !argv.contains("--symbols"@) ==> texts(r.symbols@) == seq!["BTC"@, "ETH"@, "SOL"@],
        !argv.contains("--duration"@) ==> r.duration_secs == 24 * 60 * 60,
        !argv.contains("--depth"@) ==> r.depth == 20,
        !argv.contains("--out"@) ==> r.out_dir@ == "data"@,
{
    if !argv.contains("--symbols"@) {
        absent_flag_has_no_value(argv, "--symbols"@);
    }
    if !argv.contains("--duration"@) {
        absent_flag_has_no_value(argv, "--duration"@);
    }
    if !argv.contains("--depth"@) {
        absent_flag_has_no_value(argv, "--depth"@);
    }
    if !argv.contains("--out"@) {
        absent_flag_has_no_value(argv, "--out"@);
    }
}

/// What stands behind the first occurrence of a flag of the recorder is what it records, for how
/// long, how deep and where to; a number that cannot be read leaves the default.
pub proof fn recorder_does_what_it_is_told(argv: Seq<Seq<char>>, r: Args, k: int, n: nat)
    requires
        are_args(argv, r),
        0 <= k,
        k + 1 < argv.len(),
        forall|j: int| 0 <= j < k ==> #[trigger] argv[j] != argv[k],
    ensures
        argv[k] == "--symbols"@ ==> texts(r.symbols@) == symbol_list(argv[k + 1]),
        argv[k] == "--out"@ ==> r.out_dir@ == argv[k + 1],
        argv[k] == "--duration"@ && argv[k + 1] == decimal(n) && n <= u64::MAX ==> r.duration_secs
            == n,
        argv[k] == "--depth"@ && argv[k + 1] == decimal(n) && n <= usize::MAX ==> r.depth == n,
        argv[k] == "--duration"@ && number_of(argv[k + 1], u64::MAX as nat) is None
            ==> r.duration_secs == 24 * 60 * 60,
        argv[k] == "--depth"@ && number_of(argv[k + 1], usize::MAX as nat) is None ==> r.depth == 20,
{
    flag_takes_the_argument_behind_it(argv, argv[k], k);
    if n <= u64::MAX {
        decimal_reads_back(n, u64::MAX as nat);
    }
    if n <= usize::MAX {
        decimal_reads_back(n, usize::MAX as nat);
    }
}

/// Whether a text is a symbol as the tools write it: not empty, without a comma, without white
/// space at its ends, and in upper case.
pub open spec fn is_symbol(s: Seq<char>) -> bool {
    &&& s.len() > 0
    &&& free_of(s, ',')
    &&& !white_space(s[0])
    &&& !white_space(s.last())
    &&& uppercase(s) == s
}

proof fn lemma_pieces_of_joined(list: Seq<Seq<char>>, mark: char)
    requires
        list.len() > 0,
        forall|i: int| 0 <= i < list.len() ==> free_of(#[trigger] list[i], mark),
    ensures
        pieces(joined(list, mark), mark) == list,
    decreases list.len(), list.last().len(),
{
    let s = joined(list, mark);
    let n = list.len() - 1;
    let last = list.last();
    assert(free_of(list[n], mark));
    if last.len() == 0 {
        if n == 0 {
            assert(s =~= Seq::empty());
            assert(list =~= seq![Seq::empty()]);
        } else {
            let head = list.drop_last();
            assert forall|i: int| 0 <= i < head.len() implies free_of(#[trigger] head[i], mark) by {
                assert(head[i] == list[i]);
            }
            lemma_pieces_of_joined(head, mark);
            assert(s =~= joined(head, mark).push(mark));
            assert(s.drop_last() =~= joined(head, mark));
            assert(last =~= Seq::empty());
            assert(list =~= head.push(last));
        }
    } else {
        let shorter = list.drop_last().push(last.drop_last());
        assert forall|i: int| 0 <= i < shorter.len() implies free_of(#[trigger] shorter[i], mark) by {
            if i < n {
                assert(shorter[i] == list[i]);
            } else {
                assert forall|j: int| 0 <= j < shorter[i].len() implies shorter[i][j] != mark by {
                    assert(shorter[i][j] == last[j]);
                }
            }
        }
        assert(shorter.last() == last.drop_last());
        lemma_pieces_of_joined(shorter, mark);
        assert(shorter.drop_last() =~= list.drop_last());
        assert(s.drop_last() =~= joined(shorter, mark)) by {
            if n == 0 {
                assert(list[0] == last);
                assert(shorter[0] == last.drop_last());
            }
        }
        assert(s.last() == last.last());
        assert(last[last.len() - 1] != mark);
        assert(shorter.last().push(s.last()) =~= last);
        assert(pieces(s, mark) =~= list);
    }
}

/// Symbols that are listed with commas between them are read back, in order.
pub proof fn listed_symbols_are_read_back(list: Seq<Seq<char>>)
    requires
        list.len() > 0,
        forall|i: int| 0 <= i < list.len() ==> is_symbol(#[trigger] list[i]),
    ensures
        symbol_list(joined(list, ',')) == list,
{
    assert forall|i: int| 0 <= i < list.len() implies free_of(#[trigger] list[i], ',') by {
        assert(is_symbol(list[i]));
    }
    lemma_pieces_of_joined(list, ',');
    lemma_symbols(list);
}

proof fn lemma_symbols(list: Seq<Seq<char>>)
    requires
        forall|i: int| 0 <= i < list.len() ==> is_symbol(#[trigger] list[i]),
    ensures
        symbols_of(list) == list,
    decreases list.len(),
{
    if list.len() == 0 {
        assert(list =~= Seq::empty());
    } else {
        let head = list.drop_last();
        assert forall|i: int| 0 <= i < head.len() implies is_symbol(#[trigger] head[i]) by {
            assert(head[i] == list[i]);
        }
        lemma_symbols(head);
        assert(is_symbol(list[list.len() - 1]));
        let s = list.last();
        assert(trimmed_front(s) == s);
        assert(trimmed_end(s) == s);
        assert(symbol_of(s) == s);
        assert(head.push(s) =~= list);
    }
}

/// A text without the white space at its ends begins and ends with something else, and is what is
/// left of the text when only white space is cut off.
pub proof fn trimming_cuts_white_space_alone(s: Seq<char>) -> (cut: (int, int))
    ensures
        0 <= cut.0 <= cut.1 <= s.len(),
        trimmed(s) == s.subrange(cut.0, cut.1),
        forall|i: int| 0 <= i < cut.0 ==> white_space(#[trigger] s[i]),
        forall|i: int| cut.1 <= i < s.len() ==> white_space(#[trigger] s[i]),
        trimmed(s).len() > 0 ==> !white_space(trimmed(s)[0]) && !white_space(trimmed(s).last()),
{
    let from = lemma_front(s);
    let front = trimmed_front(s);
    let to = lemma_end(front);
    assert(front.subrange(0, to) =~= s.subrange(from, from + to));
    assert forall|i: int| from + to <= i < s.len() implies white_space(#[trigger] s[i]) by {
        assert(front[i - from] == s[i]);
    }
    if trimmed(s).len() > 0 {
        assert(trimmed(s)[0] == front[0]);
    }
    (from, from + to)
}

proof fn lemma_front(s: Seq<char>) -> (from: int)
    ensures
        0 <= from <= s.len(),
        trimmed_front(s) == s.subrange(from, s.len() as int),
        forall|i: int| 0 <= i < from ==> white_space(#[trigger] s[i]),
        trimmed_front(s).len() > 0 ==> !white_space(trimmed_front(s)[0]),
    decreases s.len(),
{
    if s.len() > 0 && white_space(s[0]) {
        let rest = s.drop_first();
        let from = lemma_front(rest);
        assert(rest.subrange(from, rest.len() as int) =~= s.subrange(from + 1, s.len() as int));
        assert forall|i: int| 0 <= i < from + 1 implies white_space(#[trigger] s[i]) by {
            if i > 0 {
                assert(rest[i - 1] == s[i]);
            }
        }
        from + 1
    } else {
        assert(s.subrange(0, s.len() as int) =~= s);
        0
    }
}

proof fn lemma_end(s: Seq<char>) -> (to: int)
    ensures
        0 <= to <= s.len(),
        trimmed_end(s) == s.subrange(0, to),
        forall|i: int| to <= i < s.len() ==> white_space(#[trigger] s[i]),
        trimmed_end(s).len() > 0 ==> !white_space(trimmed_end(s).last()),
    decreases s.len(),
{
    if s.len() > 0 && white_space(s.last()) {
        let rest = s.drop_last();
        let to = lemma_end(rest);
        assert(rest.subrange(0, to) =~= s.subrange(0, to));
        assert forall|i: int| to <= i < s.len() implies white_space(#[trigger] s[i]) by {
            if i < rest.len() {
                assert(rest[i] == s[i]);
            }
        }
        to
    } else {
        assert(s.subrange(0, s.len() as int) =~= s);
        s.len() as int
    }
}

/// Of two texts that begin alike, the first character that differs decides their order; a text
/// that ends there comes first.
pub proof fn first_difference_decides(a: Seq<char>, b: Seq<char>, k: int)
    requires
        0 <= k <= a.len(),
        k < b.len(),
        forall|i: int| 0 <= i < k ==> #[trigger] a[i] == b[i],
        k == a.len() || a[k] < b[k],
    ensures
        before(a, b),
        !before(b, a),
    decreases k,
{
    if k > 0 {
        let x = a.drop_first();
        let y = b.drop_first();
        assert(a[0] == b[0]);
        assert forall|i: int| 0 <= i < k - 1 implies #[trigger] x[i] == y[i] by {
            assert(a[i + 1] == b[i + 1]);
        }
        first_difference_decides(x, y, k - 1);
    }
}

// ---------------------------------------------------------------------------
// Recordings
// ---------------------------------------------------------------------------

/// Of a directory the latest recording is found: a file with the extension `jsonl` and a known age,
/// than which no other is younger; of those as young the first. Without one nothing is found.
pub proof fn latest_recording_is_found(entries: Seq<Entry>, r: Option<usize>, j: int)
    requires
        is_found(entries, r),
        0 <= j < entries.len(),
        entries[j].is_file,
        entries[j].extension is Some,
        entries[j].extension->0@ == "jsonl"@,
        entries[j].modified is Some,
    ensures
        r is Some,
        r->0 < entries.len(),
        entries[r->0 as int].is_file,
        entries[r->0 as int].extension is Some,
        entries[r->0 as int].extension->0@ == "jsonl"@,
        entries[r->0 as int].modified is Some,
        entries[r->0 as int].modified->0 >= entries[j].modified->0,
        entries[r->0 as int].modified->0 == entries[j].modified->0 ==> r->0 <= j,
{
    assert(crate::recordings::candidate(entries[j]));
}

/// What is found is a file with the extension `jsonl` and a known age.
pub proof fn only_recordings_are_found(entries: Seq<Entry>, r: Option<usize>)
    requires
        is_found(entries, r),
    ensures
        r matches Some(i) ==> {
            &&& i < entries.len()
            &&& entries[i as int].is_file
            &&& entries[i as int].extension is Some
            &&& entries[i as int].extension->0@ == "jsonl"@
            &&& entries[i as int].modified is Some
        },
{
}

/// The path of a recording lies in its directory, and begins and ends as recordings do.
pub proof fn path_lies_in_its_directory(out_dir: Seq<char>, stamp: Seq<char>)
    ensures
        out_dir.is_prefix_of(path_of(out_dir, stamp)),
        path_of(out_dir, stamp).skip(out_dir.len() as int) == "/ticks_"@ + stamp + ".jsonl"@,
{
    assert(path_of(out_dir, stamp).take(out_dir.len() as int) =~= out_dir);
    assert(path_of(out_dir, stamp).skip(out_dir.len() as int) =~= "/ticks_"@ + stamp + ".jsonl"@);
}

/// A connection is taken for dead after a minute of silence, in which three pings are sent, and
/// twenty coins are subscribed to in a second.
pub proof fn connections_are_kept_alive()
    ensures
        WS_READ_TIMEOUT_SECS == 60,
        PING_INTERVAL_SECS * 3 == WS_READ_TIMEOUT_SECS,
        SUBSCRIPTION_GAP_MS * 20 == 1000,
{
}

proof fn lemma_pieces_of_two(a: Seq<char>, b: Seq<char>, mark: char)
    ensures
        pieces(a.push(mark) + b, mark) == pieces(a, mark) + pieces(b, mark),
    decreases b.len(),
{
    let all = a.push(mark) + b;
    pieces_make_up_the_text(b, mark);
    if b.len() == 0 {
        assert(all =~= a.push(mark));
        assert(all.drop_last() =~= a);
        assert(pieces(all, mark) =~= pieces(a, mark) + pieces(b, mark));
    } else {
        let short = b.drop_last();
        lemma_pieces_of_two(a, short, mark);
        pieces_make_up_the_text(short, mark);
        assert(all.drop_last() =~= a.push(mark) + short);
        assert(all.last() == b.last());
        let x = pieces(a, mark);
        let y = pieces(short, mark);
        assert((x + y).last() == y.last());
        assert((x + y).drop_last() =~= x + y.drop_last());
        assert(pieces(all, mark) =~= x + pieces(b, mark));
    }
}

proof fn lemma_symbols_of_two(a: Seq<Seq<char>>, b: Seq<Seq<char>>)
    ensures
        symbols_of(a + b) == symbols_of(a) + symbols_of(b),
    decreases b.len(),
{
    if b.len() == 0 {
        assert(a + b =~= a);
        assert(symbols_of(a) + symbols_of(b) =~= symbols_of(a));
    } else {
        let all = a + b;
        lemma_symbols_of_two(a, b.drop_last());
        assert(all.drop_last() =~= a + b.drop_last());
        assert(all.last() == b.last());
        assert(symbols_of(all) =~= symbols_of(a) + symbols_of(b));
    }
}

/// A comma parts a list of symbols: those before it come first, then those behind it.
pub proof fn commas_part_the_symbols(a: Seq<char>, b: Seq<char>)
    ensures
        symbol_list(a.push(',') + b) == symbol_list(a) + symbol_list(b),
{
    lemma_pieces_of_two(a, b, ',');
    lemma_symbols_of_two(pieces(a, ','), pieces(b, ','));
}

/// A text without a comma names one symbol: the text without the white space around it, in upper
/// case; none where nothing is left.
pub proof fn text_without_a_comma_is_one_symbol(s: Seq<char>)
    requires
        free_of(s, ','),
    ensures
        uppercase(trimmed(s)).len() > 0 ==> symbol_list(s) == seq![uppercase(trimmed(s))],
        uppercase(trimmed(s)).len() == 0 ==> symbol_list(s).len() == 0,
{
    let one = seq![s];
    assert(joined(one, ',') == s);
    lemma_pieces_of_joined(one, ',');
    reveal_with_fuel(symbols_of, 2);
    assert(one.drop_last() =~= Seq::empty());
    assert(one.last() == s);
    if uppercase(trimmed(s)).len() > 0 {
        assert(symbol_list(s) =~= seq![uppercase(trimmed(s))]);
    }
}

} // verus!
