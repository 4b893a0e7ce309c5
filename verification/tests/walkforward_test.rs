use chrono::{TimeZone, Utc};
use event_driven_backtester::sort::{lower_bound, stable_order};
use event_driven_backtester::time::{
    instant_from_parts, KEYS_PER_DAY, KEYS_PER_SECOND, MAX_SPAN_DAYS, MAX_TIMESTAMP, NANOS_PER_SECOND,
};
use event_driven_backtester::walkforward::{PlanError, WalkForward, WindowMode};

fn daily_instants(n: usize) -> Vec<i128> {
    let start = Utc.with_ymd_and_hms(2024, 1, 1, 0, 0, 0).unwrap();
    let base = instant_from_parts(start.timestamp(), start.timestamp_subsec_nanos());
    (0..n).map(|i| base + (i as i128) * KEYS_PER_DAY).collect()
}

#[test]
fn walk_forward_produces_folds() {
    let bars = daily_instants(360);

    let wf = WalkForward::new(60, 30);
    let result = wf.plan(&bars).expect("walk-forward should run");

    assert!(result.folds.len() >= 5, "expected several folds, got {}", result.folds.len());
    for fold in &result.folds {
        assert!(fold.in_sample_end == fold.out_sample_start);
    }
}

#[test]
fn rolling_folds_have_exact_windows() {
    let ts = daily_instants(360);
    let plan = WalkForward::new(60, 30).plan(&ts).unwrap();
    assert_eq!(plan.order, (0..360).collect::<Vec<usize>>());
    // Steps at days 0, 30, ..., 270: the last out-of-sample window ends on day 360,
    // one day after the last bar.
    assert_eq!(plan.folds.len(), 10);
    for (k, f) in plan.folds.iter().enumerate() {
        assert_eq!(f.fold, k);
        assert_eq!(f.in_sample_start, ts[0] + (30 * k as i128) * KEYS_PER_DAY);
        assert_eq!(f.in_sample_end, ts[0] + (30 * k as i128 + 60) * KEYS_PER_DAY);
        assert_eq!(f.out_sample_end, ts[0] + (30 * k as i128 + 90) * KEYS_PER_DAY);
        assert_eq!((f.in_sample_from, f.in_sample_to), (30 * k, 30 * k + 60));
        assert_eq!((f.out_sample_from, f.out_sample_to), (30 * k + 60, 30 * k + 90));
    }
}

#[test]
fn expanding_folds_start_at_first_bar() {
    let ts = daily_instants(100);
    let plan = WalkForward::new(20, 10).with_mode(WindowMode::Expanding).plan(&ts).unwrap();
    // Steps at days 0..=70 in tens; the window ending on day 100 is the last.
    assert_eq!(plan.folds.len(), 8);
    for (k, f) in plan.folds.iter().enumerate() {
        assert_eq!(f.in_sample_start, ts[0]);
        assert_eq!(f.in_sample_from, 0);
        assert_eq!(f.in_sample_to, 10 * k + 20);
        assert_eq!((f.out_sample_from, f.out_sample_to), (10 * k + 20, 10 * k + 30));
    }
}

#[test]
fn unsorted_bars_are_planned_in_time_order() {
    let day = KEYS_PER_DAY;
    let ts = vec![5 * day, 0, 3 * day, 1 * day, 4 * day, 2 * day];
    let plan = WalkForward::new(2, 1).plan(&ts).unwrap();
    assert_eq!(plan.order, vec![1, 3, 5, 2, 4, 0]);
    // Steps at days 0, 1, 2, 3 (out-of-sample ends 3..6, limit is day 6).
    assert_eq!(plan.folds.len(), 4);
    assert_eq!((plan.folds[3].in_sample_from, plan.folds[3].out_sample_to), (3, 6));
}

#[test]
fn gaps_in_data_skip_empty_windows() {
    let day = KEYS_PER_DAY;
    // Bars on days 0..10 and 40..50: windows in the gap hold no bars.
    let mut ts: Vec<i128> = (0..10).map(|d| d * day).collect();
    ts.extend((40..50).map(|d| d * day));
    let plan = WalkForward::new(5, 5).plan(&ts).unwrap();
    // Steps start every 5 days; only those with bars in both windows remain.
    let starts: Vec<i128> = plan.folds.iter().map(|f| f.in_sample_start / day).collect();
    assert_eq!(starts, vec![0, 40]);
    assert_eq!(plan.folds[1].fold, 1);
    assert_eq!((plan.folds[1].in_sample_from, plan.folds[1].out_sample_to), (10, 20));
}

#[test]
fn short_history_gives_no_folds() {
    let ts = daily_instants(10);
    let plan = WalkForward::new(60, 30).plan(&ts).unwrap();
    assert!(plan.folds.is_empty());
}

#[test]
fn plan_errors() {
    assert!(matches!(WalkForward::new(1, 1).plan(&vec![]), Err(PlanError::NoBars)));
    assert!(matches!(
        WalkForward::new(MAX_SPAN_DAYS + 1, 1).plan(&vec![0]),
        Err(PlanError::SpanOutOfRange)
    ));
    let near_end = MAX_TIMESTAMP - 5 * KEYS_PER_DAY;
    assert!(matches!(
        WalkForward::new(1, 10).plan(&vec![near_end]),
        Err(PlanError::CalendarOverflow)
    ));
    // The same span fits when the bars are far from the end of the calendar.
    assert!(WalkForward::new(1, 10).plan(&vec![0]).is_ok());
}

#[test]
fn stable_order_keeps_ties_in_input_order() {
    let keys = vec![3, 1, 3, 2, 1];
    assert_eq!(stable_order(&keys), vec![1, 4, 3, 0, 2]);
    assert_eq!(stable_order(&vec![]), Vec::<usize>::new());
}

#[test]
fn lower_bound_finds_first_not_before() {
    let s = vec![1, 3, 3, 5];
    assert_eq!(lower_bound(&s, 0), 0);
    assert_eq!(lower_bound(&s, 3), 1);
    assert_eq!(lower_bound(&s, 4), 3);
    assert_eq!(lower_bound(&s, 9), 4);
}

#[test]
fn span_limit_matches_the_duration_range() {
    assert!(chrono::TimeDelta::try_days(MAX_SPAN_DAYS).is_some());
    assert!(chrono::TimeDelta::try_days(MAX_SPAN_DAYS + 1).is_none());
    assert_eq!(chrono::TimeDelta::days(3).num_seconds() as i128 * KEYS_PER_SECOND, 3 * KEYS_PER_DAY);
}

fn key_of(t: &chrono::DateTime<Utc>) -> i128 {
    instant_from_parts(t.timestamp(), t.timestamp_subsec_nanos())
}

#[test]
fn leap_second_bar_is_ordered_and_advanced_like_chrono() {
    let leap = chrono::DateTime::parse_from_rfc3339("2016-12-31T23:59:60.5Z").unwrap().with_timezone(&Utc);
    let next_day = Utc.with_ymd_and_hms(2017, 1, 1, 0, 0, 0).unwrap();
    // The next day's bars come first in the input; the leap-second bar is earlier in time.
    let mut ts: Vec<i128> = (0..10).map(|d| key_of(&(next_day + chrono::TimeDelta::days(d)))).collect();
    ts.push(key_of(&leap));
    let plan = WalkForward::new(2, 1).plan(&ts).unwrap();
    assert_eq!(plan.order[0], 10);
    assert_eq!(plan.order[1], 0);
    let f0 = &plan.folds[0];
    assert_eq!(f0.in_sample_start, key_of(&leap));
    // Days are added as chrono adds them to a leap-second instant.
    assert_eq!(f0.in_sample_end, key_of(&(leap + chrono::TimeDelta::days(2))));
    assert_eq!(f0.out_sample_end, key_of(&(leap + chrono::TimeDelta::days(3))));
    assert_eq!(plan.folds[1].in_sample_start, key_of(&(leap + chrono::TimeDelta::days(1))));
    assert_eq!(f0.in_sample_end % KEYS_PER_SECOND, NANOS_PER_SECOND / 2);
}
