use bbot_recon::args::{flag_value, parse_symbols};
use bbot_recon::json::{parse_bytes, parse_text};
use bbot_recon::recordings::{find_latest_jsonl, recording_path, Entry};
use bbot_recon::text::{
    after_last_mark, insert_text, parse_number, same_text, split_at_marks, starts_with,
    text_before, to_decimal, trim, truncate,
};

fn argv(args: &[&str]) -> Vec<String> {
    args.iter().map(|s| s.to_string()).collect()
}

#[test]
fn truncation_counts_characters() {
    assert_eq!(truncate("abcdef", 3), "abc…");
    assert_eq!(truncate("abc", 3), "abc");
    assert_eq!(truncate("", 3), "");
    assert_eq!(truncate("abc", 0), "…");
    assert_eq!(truncate("éàü!", 3), "éàü…");
    assert_eq!(truncate("éàü", 3), "éàü");
}

#[test]
fn texts_are_compared_as_strings_are() {
    let words = ["", "a", "A", "ab", "b", "BTC", "ETH", "é", "\u{ffff}", "\u{10000}"];
    for a in words {
        for b in words {
            assert_eq!(same_text(a, b), a == b);
            assert_eq!(text_before(a, b), a < b, "{a} {b}");
            assert_eq!(starts_with(a, b), a.starts_with(b));
        }
    }
}

#[test]
fn texts_are_split_and_trimmed_as_strings_are() {
    for s in ["", ",", "a,b", ",a,,b,", "abc", " a , b\t,\u{a0}c\u{3000}"] {
        let expected: Vec<String> = s.split(',').map(|x| x.to_string()).collect();
        assert_eq!(split_at_marks(s, ','), expected);
        assert_eq!(trim(s), s.trim());
        assert_eq!(after_last_mark(s, ','), s.rsplit(',').next().unwrap());
    }
    assert_eq!(after_last_mark("order_book:17", ':'), "17");
}

#[test]
fn numbers_are_read_as_integers_are() {
    let words = [
        "", "+", "-", "0", "00", "7", "+7", "-7", "-0", "255", "256", "1_0", " 1", "1.0",
        "18446744073709551615", "18446744073709551616", "99999999999999999999999", "++1", "١",
    ];
    for s in words {
        assert_eq!(parse_number(s, u64::MAX), s.parse::<u64>().ok(), "{s}");
        assert_eq!(parse_number(s, 255), s.parse::<u8>().ok().map(|n| n as u64), "{s}");
    }
}

#[test]
fn numbers_are_written_in_decimal() {
    for n in [0u128, 7, 10, 255, 1_000_000, u64::MAX as u128, u128::MAX] {
        assert_eq!(to_decimal(n), n.to_string());
        if n <= u64::MAX as u128 {
            assert_eq!(parse_number(&to_decimal(n), u64::MAX), Some(n as u64));
        }
    }
}

#[test]
fn lists_of_texts_stay_in_order() {
    let mut list: Vec<String> = Vec::new();
    for s in ["SOL", "BTC", "ETH", "BTC", "SOL", "AVAX"] {
        insert_text(&mut list, s);
    }
    assert_eq!(list, argv(&["AVAX", "BTC", "ETH", "SOL"]));
}

#[test]
fn symbols_are_trimmed_and_put_in_upper_case() {
    assert_eq!(parse_symbols("btc, Eth ,,sol"), argv(&["BTC", "ETH", "SOL"]));
    assert_eq!(parse_symbols(" , "), Vec::<String>::new());
    assert_eq!(parse_symbols("straße"), argv(&["STRASSE"]));
    for c in '\0'..='\u{7f}' {
        let text = format!("x{c}x");
        let upper = if c.is_ascii_lowercase() { (c as u8 - 32) as char } else { c };
        if c != ',' {
            assert_eq!(parse_symbols(&text), vec![format!("X{upper}X")], "{c:?}");
        }
    }
}

#[test]
fn a_flag_takes_the_argument_behind_its_first_occurrence() {
    let args = argv(&["tool", "--out", "a", "--out", "b", "--depth"]);
    assert_eq!(flag_value(&args, "--out").map(|s| s.as_str()), Some("a"));
    assert_eq!(flag_value(&args, "--depth"), None);
    assert_eq!(flag_value(&args, "--symbols"), None);
}

#[test]
fn recordings_have_paths() {
    assert_eq!(recording_path("data", "20260519_223215"), "data/ticks_20260519_223215.jsonl");
}

fn entry(extension: Option<&str>, modified: Option<i128>) -> Entry {
    Entry { is_file: true, extension: extension.map(|s| s.to_string()), modified }
}

#[test]
fn the_latest_recording_is_found() {
    let entries = vec![
        entry(Some("jsonl"), Some(5)),
        entry(Some("txt"), Some(99)),
        entry(Some("jsonl"), Some(8)),
        entry(Some("jsonl"), None),
        entry(Some("jsonl"), Some(8)),
        entry(None, Some(100)),
        entry(Some("jsonl"), Some(-3)),
    ];
    assert_eq!(find_latest_jsonl(&entries), Some(2));
    assert_eq!(find_latest_jsonl(&vec![entry(Some("json"), Some(1))]), None);
    assert_eq!(find_latest_jsonl(&vec![entry(Some("jsonl"), None)]), None);
    assert_eq!(find_latest_jsonl(&vec![]), None);
    let directory = || Entry { is_file: false, ..entry(Some("jsonl"), Some(2)) };
    assert_eq!(find_latest_jsonl(&vec![entry(Some("jsonl"), Some(1)), directory()]), Some(0));
    assert_eq!(find_latest_jsonl(&vec![directory()]), None);
    assert_eq!(find_latest_jsonl(&vec![entry(Some("jsonl"), Some(i128::MIN))]), Some(0));
}

#[test]
fn documents_are_read() {
    let doc = parse_text(
        r#"{"a":"x","n":5,"neg":-5,"f":1.5,"list":[1,"two",null],"o":{"k":"v"},"a2":true}"#,
    )
    .unwrap();
    assert_eq!(doc.get_text("a").map(|s| s.as_str()), Some("x"));
    assert_eq!(doc.get_integer("n"), Some(5));
    assert_eq!(doc.get_integer("neg"), None);
    assert_eq!(doc.get_integer("f"), None);
    assert_eq!(doc.get_integer("a"), None);
    assert!(doc.get_text("n").is_none());
    let list = doc.get_array("list").unwrap();
    assert_eq!(list.len(), 3);
    assert!(doc.get_array("o").is_none());
    assert_eq!(doc.get("o").unwrap().get_text("k").map(|s| s.as_str()), Some("v"));
    assert!(doc.get("missing").is_none());
    assert!(list[1].get("a").is_none());
    assert!(parse_text("not json").is_none());
    assert!(parse_text("").is_none());
    assert!(parse_bytes(br#"{"a":1}"#).is_some());
    assert!(parse_bytes(b"{").is_none());
}

#[test]
fn numbers_of_documents_keep_their_bits() {
    for (text, value) in [("1.5", 1.5), ("-2", -2.0), ("65000.1", 65000.1), ("7", 7.0)] {
        let doc = parse_text(&format!("{{\"x\":{text}}}")).unwrap();
        match doc.get("x") {
            Some(bbot_recon::json::Json::Number(n)) => {
                assert_eq!(n.double.map(|d| d.bits), Some(f64::to_bits(value)));
            }
            _ => panic!("not a number"),
        }
    }
}
