use clam_core::config::{ConfigPath, Network};
use clam_core::double::Double;
use clam_core::ledger::{ledger_lines, Ledger, LedgerEntry, PaymentStatus, Timestamp};

fn at(secs: i64, nanos: u32) -> Timestamp {
    Timestamp { secs, nanos }
}

fn entry(secs: i64, url: &str) -> LedgerEntry {
    LedgerEntry {
        ts: at(secs, 0),
        url: url.to_string(),
        method: "GET".to_string(),
        amount_usdc: Double { bits: 0.5f64.to_bits() },
        pay_to: "payee".to_string(),
        network: Network::Devnet,
        tx_signature: None,
        status: PaymentStatus::Settled,
        error: None,
    }
}

fn ledger() -> Ledger {
    Ledger::new(ConfigPath::Given("ledger.jsonl".to_string()))
}

fn urls(entries: &[LedgerEntry]) -> Vec<&str> {
    entries.iter().map(|e| e.url.as_str()).collect()
}

#[test]
fn the_path_is_the_one_given() {
    assert!(matches!(ledger().path(), ConfigPath::Given(path) if path == "ledger.jsonl"));
}

#[test]
fn an_entry_is_one_line() {
    assert_eq!(ledger().append("{}".to_string()), "{}\n");
}

#[test]
fn lines_are_trimmed_and_blank_ones_left_out() {
    assert_eq!(ledger_lines(""), Vec::<String>::new());
    assert_eq!(ledger_lines("\n \n\t\r\n"), Vec::<String>::new());
    assert_eq!(ledger_lines("{\"a\":1}\r\n\n  {\"b\":2}\n{\"c\":3}"), ["{\"a\":1}", "{\"b\":2}", "{\"c\":3}"]);
}

#[test]
fn what_was_appended_is_read_back() {
    let entries = ["{\"ts\":1}", "{\"ts\":2}", "{\"ts\":3}"];
    let mut file = String::new();
    for json in entries {
        file += &ledger().append(json.to_string());
    }
    assert_eq!(ledger_lines(&file), entries);
}

#[test]
fn entries_come_newest_first() {
    let parsed = vec![Some(entry(2, "b")), Some(entry(3, "c")), Some(entry(1, "a"))];
    assert_eq!(urls(&ledger().list(parsed, None, None)), ["c", "b", "a"]);
}

#[test]
fn a_limit_keeps_the_newest() {
    let parsed = || vec![Some(entry(2, "b")), Some(entry(4, "d")), Some(entry(1, "a")), Some(entry(3, "c"))];
    assert_eq!(urls(&ledger().list(parsed(), Some(2), None)), ["d", "c"]);
    assert_eq!(urls(&ledger().list(parsed(), Some(1), None)), ["d"]);
    assert!(ledger().list(parsed(), Some(0), None).is_empty());
    assert_eq!(ledger().list(parsed(), Some(usize::MAX), None).len(), 4);
}

#[test]
fn a_hundred_entries_are_listed_by_default() {
    let parsed: Vec<Option<LedgerEntry>> = (0..150).map(|i| Some(entry(i, "u"))).collect();
    let listed = ledger().list(parsed, None, None);
    assert_eq!(listed.len(), 100);
    assert_eq!(listed[0].ts, at(149, 0));
    assert_eq!(listed[99].ts, at(50, 0));
}

#[test]
fn the_cutoff_is_inclusive() {
    let parsed = || vec![Some(entry(1, "a")), Some(entry(2, "b")), Some(entry(3, "c"))];
    assert_eq!(urls(&ledger().list(parsed(), None, Some(at(2, 0)))), ["c", "b"]);
    assert_eq!(urls(&ledger().list(parsed(), None, Some(at(2, 1)))), ["c"]);
    assert!(ledger().list(parsed(), None, Some(at(4, 0))).is_empty());
}

#[test]
fn malformed_lines_are_skipped() {
    let parsed = vec![None, Some(entry(1, "a")), None, Some(entry(2, "b"))];
    assert_eq!(urls(&ledger().list(parsed, Some(2), None)), ["b", "a"]);
}

#[test]
fn entries_of_one_moment_keep_the_order_of_the_file() {
    let parsed = || vec![Some(entry(1, "a")), Some(entry(2, "n")), Some(entry(1, "b")), Some(entry(1, "c"))];
    assert_eq!(urls(&ledger().list(parsed(), None, None)), ["n", "a", "b", "c"]);
    assert_eq!(urls(&ledger().list(parsed(), Some(3), None)), ["n", "b", "c"]);
    assert_eq!(urls(&ledger().list(parsed(), Some(2), None)), ["n", "c"]);
}

#[test]
fn a_smaller_limit_lists_a_prefix() {
    let parsed = || (0..20).map(|i| Some(entry(i * 7 % 5, "u"))).collect::<Vec<_>>();
    let all: Vec<Timestamp> = ledger().list(parsed(), Some(20), None).iter().map(|e| e.ts).collect();
    for limit in 0..20 {
        let some: Vec<Timestamp> = ledger().list(parsed(), Some(limit), None).iter().map(|e| e.ts).collect();
        assert_eq!(some, all[..limit]);
    }
}

#[test]
fn skipped_lines_leave_the_list() {
    let parse = |text: &str| -> Vec<Option<LedgerEntry>> {
        ledger_lines(text).iter().map(|line| line.parse::<i64>().ok().map(|secs| entry(secs, line))).collect()
    };
    let plain = ledger().list(parse("1\n2\n3\n"), None, None);
    let messy = ledger().list(parse(" 1 \n\n \t\nnonsense\n2\r\n{\n\u{a0}3"), None, None);
    assert_eq!(urls(&plain), ["3", "2", "1"]);
    assert_eq!(urls(&messy), urls(&plain));
}

#[test]
fn what_was_appended_is_listed() {
    let parse = |text: &str| -> Vec<Option<LedgerEntry>> {
        ledger_lines(text).iter().map(|line| line.parse::<i64>().ok().map(|secs| entry(secs, line))).collect()
    };
    let mut file = "1\n5\n".to_string();
    assert_eq!(urls(&ledger().list(parse(&file), Some(3), None)), ["5", "1"]);
    file += &ledger().append("3".to_string());
    assert_eq!(urls(&ledger().list(parse(&file), Some(3), None)), ["5", "3", "1"]);
}

#[test]
fn time_stamps_are_ordered_to_the_nanosecond() {
    assert!(at(1, 999_999_999).is_before(&at(2, 0)));
    assert!(at(-1, 0).is_before(&at(0, 0)));
    assert!(at(5, 1).is_before(&at(5, 2)));
    assert!(!at(5, 2).is_before(&at(5, 2)));
    assert!(!at(6, 0).is_before(&at(5, 1_500_000_000)));
}
