//! What the arguments of the analyser and of the replay mean, one behind the other.

use vstd::prelude::*;

use crate::args::symbol_list;
use crate::double::Double;
use crate::exact::{constants_have_their_values, unit, value, zero_is_nothing};
use crate::feed_analyzer;
use crate::spread_replay;
use crate::text::uppercase;

verus! {

proof fn lemma_flags()
    ensures
        "--"@.is_prefix_of("--symbol"@),
        "--"@.is_prefix_of("--file"@),
        "--symbol"@ != "--file"@,
{
    reveal_strlit("--");
    reveal_strlit("--symbol");
    reveal_strlit("--file");
    assert("--symbol"@.take(2) =~= "--"@);
    assert("--file"@.take(2) =~= "--"@);
    assert("--symbol"@.len() == 8);
    assert("--file"@.len() == 6);
}

/// The analyser takes a symbol behind `--symbol`, in upper case, and a recording behind `--file` or
/// without a flag; what comes later counts. Nothing else changes what it was told.
pub proof fn analyser_takes_a_symbol_and_a_recording(
    arg: Seq<char>,
    v: Seq<char>,
    rest: Seq<Seq<char>>,
    told: feed_analyzer::ArgsView,
)
    ensures
        feed_analyzer::said(Seq::empty(), told) == told,
        feed_analyzer::said(seq!["--symbol"@, v] + rest, told) == feed_analyzer::said(
            rest,
            (feed_analyzer::ArgsView { file: told.file, symbol_filter: Some(uppercase(v)) }),
        ),
        feed_analyzer::said(seq!["--file"@, v] + rest, told) == feed_analyzer::said(
            rest,
            (feed_analyzer::ArgsView { file: Some(v), symbol_filter: told.symbol_filter }),
        ),
        !"--"@.is_prefix_of(arg) ==> feed_analyzer::said(seq![arg] + rest, told)
            == feed_analyzer::said(
            rest,
            (feed_analyzer::ArgsView { file: Some(arg), symbol_filter: told.symbol_filter }),
        ),
        "--"@.is_prefix_of(arg) && arg != "--symbol"@ && arg != "--file"@ ==> feed_analyzer::said(
            seq![arg] + rest,
            told,
        ) == feed_analyzer::said(rest, told),
        feed_analyzer::said(seq!["--symbol"@], told) == told,
        feed_analyzer::said(seq!["--file"@], told) == told,
{
    lemma_flags();
    let a = seq!["--symbol"@, v] + rest;
    let b = seq!["--file"@, v] + rest;
    let c = seq![arg] + rest;
    assert(a.skip(2) =~= rest);
    assert(b.skip(2) =~= rest);
    assert(c.skip(1) =~= rest);
    assert(a[0] == "--symbol"@ && a[1] == v);
    assert(b[0] == "--file"@ && b[1] == v);
    assert(c[0] == arg);
    reveal_with_fuel(feed_analyzer::said, 2);
    assert(seq!["--symbol"@].skip(1) =~= Seq::empty());
    assert(seq!["--file"@].skip(1) =~= Seq::empty());
}

/// The analyser leaves its first argument out, which names the program, and starts from nothing.
pub proof fn analyser_starts_from_nothing(argv: Seq<Seq<char>>, r: feed_analyzer::ArgsView)
    requires
        feed_analyzer::are_args(argv, r),
    ensures
        argv.len() <= 1 ==> r.file is None && r.symbol_filter is None,
        argv.len() > 1 ==> r == feed_analyzer::said(
            argv.skip(1),
            (feed_analyzer::ArgsView { file: None, symbol_filter: None }),
        ),
{
    if argv.len() == 1 {
        assert(argv.skip(1) =~= Seq::empty());
    }
}

/// The replay trades a thousand dollars, without a fee on Lighter and with one of four and a half
/// basis points on Hyperliquid, unless it is told otherwise.
pub proof fn replay_has_defaults()
    ensures
        spread_replay::defaults().file is None,
        spread_replay::defaults().symbol_filter is None,
        value(spread_replay::defaults().notional_usd) == 1000 * unit(),
        value(spread_replay::defaults().lighter_fee_bps) == 0,
        2 * value(spread_replay::defaults().hl_fee_bps) == 9 * unit(),
{
    constants_have_their_values();
    zero_is_nothing();
}

proof fn lemma_replay_flags()
    ensures
        "--symbols"@.len() == 9,
        "--symbol"@.len() == 8,
        "--notional"@.len() == 10,
        "--lighter-fee-bps"@.len() == 17,
        "--hl-fee-bps"@.len() == 12,
        "--hyperliquid-fee-bps"@.len() == 21,
        "--file"@.len() == 6,
{
    reveal_strlit("--symbols");
    reveal_strlit("--symbol");
    reveal_strlit("--notional");
    reveal_strlit("--lighter-fee-bps");
    reveal_strlit("--hl-fee-bps");
    reveal_strlit("--hyperliquid-fee-bps");
    reveal_strlit("--file");
}

/// Each flag of the replay sets its own field with the argument behind it, where that is a number
/// if one is needed, and the arguments behind go on from there; what comes later counts.
pub proof fn replay_flags_set_their_fields(
    argv: Seq<Seq<char>>,
    numbers: Seq<Option<Double>>,
    i: int,
    told: spread_replay::ArgsView,
)
    requires
        0 <= i,
        i + 1 < argv.len(),
        numbers.len() == argv.len(),
    ensures
        argv[i] == "--symbols"@ || argv[i] == "--symbol"@ ==> spread_replay::said(
            argv,
            numbers,
            i,
            told,
        ) == spread_replay::said(
            argv,
            numbers,
            i + 2,
            (spread_replay::ArgsView {
                file: told.file,
                symbol_filter: Some(symbol_list(argv[i + 1])),
                notional_usd: told.notional_usd,
                lighter_fee_bps: told.lighter_fee_bps,
                hl_fee_bps: told.hl_fee_bps,
            }),
        ),
        argv[i] == "--file"@ ==> spread_replay::said(argv, numbers, i, told) == spread_replay::said(
            argv,
            numbers,
            i + 2,
            (spread_replay::ArgsView {
                file: Some(argv[i + 1]),
                symbol_filter: told.symbol_filter,
                notional_usd: told.notional_usd,
                lighter_fee_bps: told.lighter_fee_bps,
                hl_fee_bps: told.hl_fee_bps,
            }),
        ),
        argv[i] == "--notional"@ && numbers[i + 1] is Some ==> spread_replay::said(
            argv,
            numbers,
            i,
            told,
        ) == spread_replay::said(
            argv,
            numbers,
            i + 2,
            (spread_replay::ArgsView {
                file: told.file,
                symbol_filter: told.symbol_filter,
                notional_usd: numbers[i + 1]->0,
                lighter_fee_bps: told.lighter_fee_bps,
                hl_fee_bps: told.hl_fee_bps,
            }),
        ),
        argv[i] == "--lighter-fee-bps"@ && numbers[i + 1] is Some ==> spread_replay::said(
            argv,
            numbers,
            i,
            told,
        ) == spread_replay::said(
            argv,
            numbers,
            i + 2,
            (spread_replay::ArgsView {
                file: told.file,
                symbol_filter: told.symbol_filter,
                notional_usd: told.notional_usd,
                lighter_fee_bps: numbers[i + 1]->0,
                hl_fee_bps: told.hl_fee_bps,
            }),
        ),
        (argv[i] == "--hl-fee-bps"@ || argv[i] == "--hyperliquid-fee-bps"@)
            && numbers[i + 1] is Some ==> spread_replay::said(argv, numbers, i, told)
            == spread_replay::said(
            argv,
            numbers,
            i + 2,
            (spread_replay::ArgsView {
                file: told.file,
                symbol_filter: told.symbol_filter,
                notional_usd: told.notional_usd,
                lighter_fee_bps: told.lighter_fee_bps,
                hl_fee_bps: numbers[i + 1]->0,
            }),
        ),
{
    lemma_replay_flags();
}

/// An argument of the replay that is no flag names the recording. A flag that is unknown, or has no
/// fitting value behind it, says nothing, and the argument behind it is read for itself.
pub proof fn other_arguments_of_the_replay(
    argv: Seq<Seq<char>>,
    numbers: Seq<Option<Double>>,
    i: int,
    told: spread_replay::ArgsView,
)
    requires
        0 <= i,
        numbers.len() == argv.len(),
    ensures
        i >= argv.len() ==> spread_replay::said(argv, numbers, i, told) == told,
        i < argv.len() && !"--"@.is_prefix_of(argv[i]) ==> spread_replay::said(
            argv,
            numbers,
            i,
            told,
        ) == spread_replay::said(
            argv,
            numbers,
            i + 1,
            (spread_replay::ArgsView {
                file: Some(argv[i]),
                symbol_filter: told.symbol_filter,
                notional_usd: told.notional_usd,
                lighter_fee_bps: told.lighter_fee_bps,
                hl_fee_bps: told.hl_fee_bps,
            }),
        ),
        i < argv.len() && "--"@.is_prefix_of(argv[i]) && argv[i] != "--symbols"@ && argv[i]
            != "--symbol"@ && argv[i] != "--file"@ && (i + 1 == argv.len() || numbers[i + 1] is None
            || (argv[i] != "--notional"@ && argv[i] != "--lighter-fee-bps"@ && argv[i]
            != "--hl-fee-bps"@ && argv[i] != "--hyperliquid-fee-bps"@)) ==> spread_replay::said(
            argv,
            numbers,
            i,
            told,
        ) == spread_replay::said(argv, numbers, i + 1, told),
        i + 1 == argv.len() && "--"@.is_prefix_of(argv[i]) ==> spread_replay::said(
            argv,
            numbers,
            i,
            told,
        ) == told,
{
    lemma_replay_flags();
    lemma_replay_prefixes();
    if i < argv.len() {
        reveal_with_fuel(spread_replay::said, 2);
    }
}

proof fn lemma_replay_prefixes()
    ensures
        "--"@.is_prefix_of("--symbols"@),
        "--"@.is_prefix_of("--symbol"@),
        "--"@.is_prefix_of("--notional"@),
        "--"@.is_prefix_of("--lighter-fee-bps"@),
        "--"@.is_prefix_of("--hl-fee-bps"@),
        "--"@.is_prefix_of("--hyperliquid-fee-bps"@),
        "--"@.is_prefix_of("--file"@),
{
    reveal_strlit("--");
    reveal_strlit("--symbols");
    reveal_strlit("--symbol");
    reveal_strlit("--notional");
    reveal_strlit("--lighter-fee-bps");
    reveal_strlit("--hl-fee-bps");
    reveal_strlit("--hyperliquid-fee-bps");
    reveal_strlit("--file");
    assert("--symbols"@.take(2) =~= "--"@);
    assert("--symbol"@.take(2) =~= "--"@);
    assert("--notional"@.take(2) =~= "--"@);
    assert("--lighter-fee-bps"@.take(2) =~= "--"@);
    assert("--hl-fee-bps"@.take(2) =~= "--"@);
    assert("--hyperliquid-fee-bps"@.take(2) =~= "--"@);
    assert("--file"@.take(2) =~= "--"@);
}

} // verus!
