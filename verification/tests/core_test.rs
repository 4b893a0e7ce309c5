use event_driven_backtester::engine::PendingOrders;
use event_driven_backtester::events::SignalDirection;
use event_driven_backtester::portfolio::target_exposure;
use event_driven_backtester::strategy::MovingAverageCrossover;
use event_driven_backtester::time::{
    instant_from_parts, parse_timestamp, parts_from_instant, TimestampError, KEYS_PER_SECOND,
    MAX_TIMESTAMP, MIN_TIMESTAMP, NANOS_PER_SECOND,
};
use event_driven_backtester::types::{OrderSide, Side};

#[test]
fn side_flip_and_signs() {
    assert_eq!(Side::Long.flip(), Side::Short);
    assert_eq!(Side::Short.flip(), Side::Long);
    assert_eq!(Side::Long.flip().flip(), Side::Long);
    assert_eq!(Side::Long.sign(), 1);
    assert_eq!(Side::Short.sign(), -1);
    assert_eq!(OrderSide::Buy.sign(), 1);
    assert_eq!(OrderSide::Sell.sign(), -1);
}

#[test]
fn signal_targets() {
    assert_eq!(target_exposure(SignalDirection::Hold, true), None);
    assert_eq!(target_exposure(SignalDirection::Exit, true), Some(0));
    assert_eq!(target_exposure(SignalDirection::Long, false), Some(1));
    assert_eq!(target_exposure(SignalDirection::Short, true), Some(-1));
    assert_eq!(target_exposure(SignalDirection::Short, false), Some(0));
}

#[test]
fn crossover_name_and_signals() {
    let mut s = MovingAverageCrossover::new("BTCUSDT", 10, 30);
    assert_eq!(s.name(), "MA(10,30)/BTCUSDT");
    assert_eq!(s.symbol(), "BTCUSDT");
    assert_eq!((s.fast(), s.slow()), (10, 30));
    assert_eq!(MovingAverageCrossover::new("ETH", 5, 120).name(), "MA(5,120)/ETH");
    assert_eq!(MovingAverageCrossover::new("X", 0, 7).name(), "MA(0,7)/X");

    assert_eq!(s.on_reading(true), Some(SignalDirection::Long));
    assert_eq!(s.on_reading(true), None);
    assert_eq!(s.on_reading(false), Some(SignalDirection::Short));
    assert_eq!(s.on_reading(false), None);
    s.reset();
    assert_eq!(s.on_reading(false), Some(SignalDirection::Short));
}

#[test]
fn crossover_reads_only_its_symbol_with_full_history() {
    let s = MovingAverageCrossover::new("BTCUSDT", 10, 30);
    assert!(s.wants_reading("BTCUSDT", 30));
    assert!(s.wants_reading("BTCUSDT", 31));
    assert!(!s.wants_reading("BTCUSDT", 29));
    assert!(!s.wants_reading("ETHUSDT", 30));
    assert!(!s.wants_reading("BTC", 100));
}

#[test]
fn pending_orders_release_on_their_symbol_only() {
    let mut q: PendingOrders<u32> = PendingOrders::new();
    assert!(q.is_empty());
    q.push("BTC".to_string(), 1);
    q.push("ETH".to_string(), 2);
    q.push("BTC".to_string(), 3);
    assert_eq!(q.len(), 3);
    assert_eq!(q.take_due("SOL"), Vec::<u32>::new());
    assert_eq!(q.take_due("BTC"), vec![1, 3]);
    assert_eq!(q.len(), 1);
    assert_eq!(q.take_due("BTC"), Vec::<u32>::new());
    q.push("ETH".to_string(), 4);
    assert_eq!(q.take_due("ETH"), vec![2, 4]);
    assert!(q.is_empty());
}

#[test]
fn timestamps_from_millis() {
    assert_eq!(parse_timestamp(None, Some(1_704_067_200_000)), Ok(1_704_067_200 * KEYS_PER_SECOND));
    assert_eq!(parse_timestamp(None, Some(1_704_067_200_250)), Ok(1_704_067_200 * KEYS_PER_SECOND + 250_000_000));
    // One millisecond before the epoch: second -1, 999 ms into it.
    assert_eq!(parse_timestamp(Some("garbage"), Some(-1)), Ok(-KEYS_PER_SECOND + 999_000_000));
    assert_eq!(parse_timestamp(None, Some(i64::MAX)), Err(TimestampError::InvalidMillis(i64::MAX)));
}

#[test]
fn timestamps_from_text() {
    let jan1 = 1_704_067_200 * KEYS_PER_SECOND;
    assert_eq!(parse_timestamp(Some("2024-01-01T00:00:00Z"), None), Ok(jan1));
    assert_eq!(parse_timestamp(Some("2024-01-01T01:00:00+01:00"), None), Ok(jan1));
    assert_eq!(parse_timestamp(Some("2024-01-01T00:00:00.5Z"), None), Ok(jan1 + NANOS_PER_SECOND / 2));
    assert_eq!(parse_timestamp(Some("2024-01-01 00:00:00"), None), Ok(jan1));
    assert_eq!(parse_timestamp(Some("2024-01-01T00:00:00"), None), Ok(jan1));
    assert_eq!(
        parse_timestamp(Some("01/01/2024"), None),
        Err(TimestampError::Unrecognized("01/01/2024".to_string()))
    );
    assert_eq!(parse_timestamp(None, None), Err(TimestampError::Missing));
}

#[test]
fn instant_parts_round_trip() {
    assert_eq!(instant_from_parts(-2, 500_000_000), -3_500_000_000);
    assert_eq!(parts_from_instant(-3_500_000_000), (-2, 500_000_000));
    assert_eq!(parts_from_instant(1_704_067_200 * KEYS_PER_SECOND + 1), (1_704_067_200, 1));
    assert_eq!(parts_from_instant(1_483_228_799 * KEYS_PER_SECOND + 1_500_000_000), (1_483_228_799, 1_500_000_000));
    assert_eq!(parts_from_instant(0), (0, 0));
}

#[test]
fn millisecond_times_cover_the_whole_calendar() {
    let last_second = (MAX_TIMESTAMP / KEYS_PER_SECOND) as i64;
    let first_second = (MIN_TIMESTAMP / KEYS_PER_SECOND) as i64;
    let last_ms = last_second * 1000 + 999;
    let first_ms = first_second * 1000;
    assert_eq!(
        parse_timestamp(None, Some(last_ms)),
        Ok(last_second as i128 * KEYS_PER_SECOND + 999_000_000)
    );
    assert_eq!(parse_timestamp(None, Some(last_ms + 1)), Err(TimestampError::InvalidMillis(last_ms + 1)));
    assert_eq!(parse_timestamp(None, Some(first_ms)), Ok(MIN_TIMESTAMP));
    assert_eq!(parse_timestamp(None, Some(first_ms - 1)), Err(TimestampError::InvalidMillis(first_ms - 1)));
}

#[test]
fn leap_seconds_are_kept_and_ordered() {
    let leap = parse_timestamp(Some("2016-12-31T23:59:60.5Z"), None).unwrap();
    let before = parse_timestamp(Some("2016-12-31T23:59:59.9Z"), None).unwrap();
    let after = parse_timestamp(Some("2017-01-01T00:00:00Z"), None).unwrap();
    assert_eq!(leap, 1_483_228_799 * KEYS_PER_SECOND + NANOS_PER_SECOND + 500_000_000);
    assert!(before < leap && leap < after);
}
