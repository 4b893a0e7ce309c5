use event_driven_backtester::data::{InMemoryDataHandler, HISTORY_LIMIT};
use event_driven_backtester::sort::bytes_less;

fn feed() -> InMemoryDataHandler<&'static str> {
    // Supplied out of order; "b2" and "e2" share an instant and keep input order.
    let bars = vec!["b2", "e1", "b1", "e2", "b3"];
    let ts = vec![2, 1, 1, 2, 3];
    let syms = vec!["BTC", "ETH", "BTC", "ETH", "BTC"].into_iter().map(String::from).collect();
    InMemoryDataHandler::from_bars(bars, ts, syms)
}

#[test]
fn replays_in_time_order() {
    let mut f = feed();
    assert_eq!(f.len(), 5);
    assert!(!f.is_empty());
    let mut seen = Vec::new();
    while let Some(k) = f.next() {
        seen.push(*f.bar(k));
    }
    assert_eq!(seen, vec!["e1", "b1", "b2", "e2", "b3"]);
    assert_eq!(f.next(), None);
}

#[test]
fn current_bar_and_history_per_symbol() {
    let mut f = feed();
    assert_eq!(f.current_bar("BTC"), None);
    f.next(); // e1
    f.next(); // b1
    f.next(); // b2
    assert_eq!(f.current_bar("BTC"), Some(2));
    assert_eq!(f.current_bar("ETH"), Some(0));
    assert_eq!(f.current_bar("SOL"), None);
    assert_eq!(f.history("BTC", 5), vec![1, 2]);
    assert_eq!(f.history("BTC", 1), vec![2]);
    assert_eq!(f.history("BTC", 0), Vec::<usize>::new());
    assert_eq!(f.history("SOL", 3), Vec::<usize>::new());
    assert_eq!(*f.bar(2), "b2");
}

#[test]
fn reset_rewinds_and_forgets() {
    let mut f = feed();
    f.next();
    f.next();
    f.reset();
    assert_eq!(f.current_bar("ETH"), None);
    assert_eq!(f.next(), Some(0));
    assert_eq!(*f.bar(0), "e1");
}

#[test]
fn replay_after_reset_repeats_the_sequence() {
    let mut f = feed();
    let mut first = Vec::new();
    for _ in 0..7 {
        first.push(f.next());
    }
    assert_eq!(first, vec![Some(0), Some(1), Some(2), Some(3), Some(4), None, None]);
    f.reset();
    let mut again = Vec::new();
    while let Some(k) = f.next() {
        again.push(*f.bar(k));
    }
    assert_eq!(again, vec!["e1", "b1", "b2", "e2", "b3"]);
}

#[test]
fn symbols_are_unique_and_sorted() {
    let bars = vec![0u8, 1, 2, 3, 4];
    let ts = vec![0, 0, 0, 0, 0];
    let syms = vec!["ETH", "BTC", "eth", "BTC", "AAPL"].into_iter().map(String::from).collect();
    let f = InMemoryDataHandler::from_bars(bars, ts, syms);
    assert_eq!(f.symbols(), vec!["AAPL", "BTC", "ETH", "eth"]);
}

#[test]
fn history_keeps_most_recent_bars_only() {
    let n = HISTORY_LIMIT + 10;
    let bars: Vec<usize> = (0..n).collect();
    let ts: Vec<i128> = (0..n as i128).collect();
    let syms = vec![String::from("BTC"); n];
    let mut f = InMemoryDataHandler::from_bars(bars, ts, syms);
    while f.next().is_some() {}
    let h = f.history("BTC", n);
    assert_eq!(h.len(), HISTORY_LIMIT);
    assert_eq!(h[0], 10);
    assert_eq!(*h.last().unwrap(), n - 1);
    assert_eq!(f.current_bar("BTC"), Some(n - 1));
}

#[test]
fn byte_order_of_symbols() {
    assert!(bytes_less(b"AB", b"B"));
    assert!(bytes_less(b"A", b"AB"));
    assert!(!bytes_less(b"AB", b"AB"));
    assert!(!bytes_less(b"b", b"B"));
    assert!(bytes_less(b"", b"A"));
}
