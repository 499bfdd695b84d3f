use kucoin_arbitrage::book::{Delta, Level, Orderbook, Side};
use kucoin_arbitrage::decimal::parse_ticks;
use kucoin_arbitrage::subscription::format_subscription_list;
use kucoin_arbitrage::sync::{DeltaOutcome, SymbolSync};

fn lv(price: u64, size: u64) -> Level {
    Level { price, size }
}

fn delta(from_seq: u64, to_seq: u64, bids: Vec<Level>, asks: Vec<Level>) -> Delta {
    Delta { symbol: 0, from_seq, to_seq, bids, asks }
}

fn prices(s: &Side) -> Vec<(u64, u64)> {
    s.levels.iter().map(|l| (l.price, l.size)).collect()
}

fn synced_at(seq: u64) -> SymbolSync {
    let mut s = SymbolSync::new();
    let snap = Orderbook::from_snapshot(seq, &vec![lv(100, 5), lv(99, 3)], &vec![lv(101, 4), lv(102, 1)]);
    assert!(s.on_snapshot(snap));
    s
}

#[test]
fn subscription_first_topic_has_ninety_nine() {
    let names: Vec<String> = (0..500).map(|i| format!("S{i}-USDT")).collect();
    let subs = format_subscription_list(&names);
    // 6 topics: 99, 100, 100, 100, 100, 1 -> two sessions of three
    assert_eq!(subs.len(), 2);
    assert_eq!(subs[0][0].len(), 99);
    assert_eq!(subs[0][0][0], "S0-USDT");
    assert_eq!(subs[0][1][0], "S99-USDT");
    assert_eq!(subs[0][2].len(), 100);
    assert_eq!(subs[1][0][0], "S299-USDT");
    assert_eq!(subs[1][1][99], "S498-USDT");
    assert_eq!(subs[1][2], vec!["S499-USDT".to_string()]);
}

#[test]
fn subscription_partial_session_kept() {
    let names: Vec<String> = (0..100).map(|i| format!("S{i}")).collect();
    let subs = format_subscription_list(&names);
    assert_eq!(subs.len(), 1);
    assert_eq!(subs[0].len(), 2);
    assert_eq!(subs[0][0].len(), 99);
    assert_eq!(subs[0][1], vec!["S99".to_string()]);
    let names: Vec<String> = (0..150).map(|i| format!("S{i}")).collect();
    let flat: Vec<String> = format_subscription_list(&names).into_iter().flatten().flatten().collect();
    assert_eq!(flat, names);
    assert!(format_subscription_list(&Vec::new()).is_empty());
}

#[test]
fn side_keeps_order_and_erases_zero() {
    let mut s = Side::new();
    s.set_level(lv(10, 1));
    s.set_level(lv(5, 2));
    s.set_level(lv(7, 3));
    assert_eq!(prices(&s), vec![(5, 2), (7, 3), (10, 1)]);
    s.set_level(lv(7, 9));
    assert_eq!(prices(&s), vec![(5, 2), (7, 9), (10, 1)]);
    s.set_level(lv(5, 0));
    s.set_level(lv(6, 0));
    assert_eq!(prices(&s), vec![(7, 9), (10, 1)]);
    assert_eq!(s.lowest().unwrap().price, 7);
    assert_eq!(s.highest().unwrap().price, 10);
}

#[test]
fn snapshot_ignores_zero_levels() {
    let b = Orderbook::from_snapshot(7, &vec![lv(100, 0), lv(99, 3)], &vec![lv(101, 4)]);
    assert_eq!(b.sequence, 7);
    assert_eq!(prices(&b.bids), vec![(99, 3)]);
    let t = b.top();
    assert_eq!(t.best_bid.unwrap().price, 99);
    assert_eq!(t.best_ask.unwrap().price, 101);
}

#[test]
fn delta_applied_and_top_change_reported() {
    let mut s = synced_at(10);
    let r = s.on_delta(delta(11, 11, vec![lv(98, 2)], vec![]));
    assert_eq!(r, DeltaOutcome::Applied { top_changed: false });
    let r = s.on_delta(delta(12, 12, vec![lv(100, 0)], vec![]));
    assert_eq!(r, DeltaOutcome::Applied { top_changed: true });
    let b = s.book.as_ref().unwrap();
    assert_eq!(b.sequence, 12);
    assert_eq!(prices(&b.bids), vec![(98, 2), (99, 3)]);
}

#[test]
fn stale_delta_dropped() {
    let mut s = synced_at(10);
    assert_eq!(s.on_delta(delta(9, 10, vec![lv(50, 1)], vec![])), DeltaOutcome::Stale);
    assert_eq!(s.book.as_ref().unwrap().sequence, 10);
    assert_eq!(prices(&s.book.as_ref().unwrap().bids), vec![(99, 3), (100, 5)]);
}

#[test]
fn gap_of_one_triggers_resnapshot() {
    let mut s = synced_at(10);
    let r = s.on_delta(delta(12, 12, vec![lv(97, 1)], vec![]));
    assert_eq!(r, DeltaOutcome::Buffered { request_snapshot: true });
    assert!(s.book.is_none());
    assert!(s.awaiting_snapshot);
    // a second delta while waiting does not ask again
    let r = s.on_delta(delta(13, 13, vec![lv(96, 1)], vec![]));
    assert_eq!(r, DeltaOutcome::Buffered { request_snapshot: false });
    assert_eq!(s.pending.len(), 2);
}

#[test]
fn resnapshot_replays_newer_deltas() {
    let mut s = synced_at(10);
    s.on_delta(delta(12, 12, vec![lv(97, 1)], vec![]));
    s.on_delta(delta(13, 14, vec![lv(96, 1)], vec![]));
    s.on_delta(delta(15, 15, vec![], vec![lv(101, 0)]));
    let snap = Orderbook::from_snapshot(13, &vec![lv(100, 5)], &vec![lv(101, 4), lv(103, 2)]);
    assert!(s.on_snapshot(snap));
    let b = s.book.as_ref().unwrap();
    assert_eq!(b.sequence, 15);
    assert_eq!(prices(&b.bids), vec![(96, 1), (100, 5)]);
    assert_eq!(prices(&b.asks), vec![(103, 2)]);
    assert!(s.pending.is_empty());
    assert!(!s.awaiting_snapshot);
    assert_eq!(s.on_delta(delta(16, 16, vec![lv(95, 1)], vec![])), DeltaOutcome::Applied { top_changed: false });
}

#[test]
fn snapshot_older_than_buffer_asks_again() {
    let mut s = SymbolSync::new();
    assert_eq!(s.on_delta(delta(20, 21, vec![lv(1, 1)], vec![])), DeltaOutcome::Buffered { request_snapshot: true });
    let snap = Orderbook::from_snapshot(15, &vec![], &vec![]);
    assert!(!s.on_snapshot(snap));
    assert!(s.book.is_none());
    assert!(s.awaiting_snapshot);
    assert_eq!(s.pending.len(), 1);
}

#[test]
fn covered_buffer_leaves_snapshot_unchanged() {
    let mut s = SymbolSync::new();
    s.on_delta(delta(5, 6, vec![lv(1, 1)], vec![]));
    s.on_delta(delta(7, 9, vec![lv(2, 1)], vec![]));
    let snap = Orderbook::from_snapshot(9, &vec![lv(100, 5)], &vec![lv(101, 4)]);
    assert!(s.on_snapshot(snap));
    let b = s.book.as_ref().unwrap();
    assert_eq!(b.sequence, 9);
    assert_eq!(prices(&b.bids), vec![(100, 5)]);
    assert_eq!(prices(&b.asks), vec![(101, 4)]);
}

#[test]
fn same_stream_gives_identical_books() {
    let stream = || {
        vec![
            delta(11, 11, vec![lv(98, 2)], vec![lv(105, 1)]),
            delta(12, 13, vec![lv(99, 0)], vec![lv(101, 7)]),
            delta(14, 14, vec![lv(90, 1)], vec![]),
            delta(13, 16, vec![lv(91, 1)], vec![lv(104, 2)]),
        ]
    };
    let mut a = synced_at(10);
    let mut b = synced_at(10);
    for d in stream() {
        a.on_delta(d);
    }
    for d in stream() {
        b.on_delta(d);
    }
    let (ba, bb) = (a.book.as_ref().unwrap(), b.book.as_ref().unwrap());
    assert_eq!(ba.sequence, bb.sequence);
    assert_eq!(prices(&ba.bids), prices(&bb.bids));
    assert_eq!(prices(&ba.asks), prices(&bb.asks));
}

#[test]
fn book_never_holds_zero_levels() {
    let mut s = synced_at(10);
    s.on_delta(delta(11, 11, vec![lv(100, 0), lv(99, 0), lv(98, 0)], vec![lv(101, 0)]));
    let b = s.book.as_ref().unwrap();
    assert!(b.bids.levels.iter().all(|l| l.size > 0));
    assert!(b.asks.levels.iter().all(|l| l.size > 0));
    assert_eq!(b.top().best_bid.is_none(), true);
    assert_eq!(b.top().best_ask.unwrap().price, 102);
}

#[test]
fn decimal_text_to_ticks() {
    assert_eq!(parse_ticks(b"30000"), Some(3_000_000_000_000));
    assert_eq!(parse_ticks(b"0.060"), Some(6_000_000));
    assert_eq!(parse_ticks(b"1810."), Some(181_000_000_000));
    assert_eq!(parse_ticks(b"1.123456789"), Some(112_345_678));
    assert_eq!(parse_ticks(b"184467440737.09551615"), Some(u64::MAX));
    assert_eq!(parse_ticks(b"184467440737.09551616"), None);
    assert_eq!(parse_ticks(b"99999999999999999999999"), None);
    assert_eq!(parse_ticks(b""), None);
    assert_eq!(parse_ticks(b".5"), None);
    assert_eq!(parse_ticks(b"1.2.3"), None);
    assert_eq!(parse_ticks(b"-1"), None);
    assert_eq!(parse_ticks(b"12a"), None);
}

#[test]
fn invalidate_drops_book_and_asks_once() {
    let mut s = synced_at(10);
    assert!(s.invalidate());
    assert!(s.book.is_none());
    assert!(s.awaiting_snapshot);
    assert!(!s.invalidate());
    assert_eq!(s.on_delta(delta(11, 11, vec![], vec![])), DeltaOutcome::Buffered { request_snapshot: false });
}
