use realm_web::rule::{QuotaPeriod, RuleRecord};
use realm_web::traffic::{
    dashboard_stats, is_quota_exceeded, plan_period_reset, ports_to_force_stop, rules_over_quota,
    Direction, PeriodReset, RuleControl, TrafficMeter, TrafficTotals,
};

fn totals(n: u64) -> TrafficTotals {
    TrafficTotals { tcp_rx: n, tcp_tx: 0, udp_rx: 0, udp_tx: 0 }
}

fn rule(port: u16, enabled: bool, quota: Option<i64>, period: QuotaPeriod, start: Option<i64>) -> RuleRecord {
    RuleRecord {
        id: port as i64,
        local_port: port,
        listen_host: "0.0.0.0".to_string(),
        target_host: "example.com".to_string(),
        target_port: 80,
        enabled,
        quota_bytes: quota,
        quota_period: period,
        period_start: start,
        created_at: 0,
        updated_at: 0,
    }
}

#[test]
fn total_bytes_sums_and_saturates() {
    let t = TrafficTotals { tcp_rx: 1, tcp_tx: 2, udp_rx: 3, udp_tx: 4 };
    assert_eq!(t.total_bytes(), 10);
    let big = TrafficTotals { tcp_rx: u64::MAX, tcp_tx: 2, udp_rx: 0, udp_tx: 0 };
    assert_eq!(big.total_bytes(), u64::MAX);
}

#[test]
fn quota_exceeded_only_with_positive_quota() {
    assert!(is_quota_exceeded(&rule(1, true, Some(100), QuotaPeriod::Total, None), &totals(100)));
    assert!(!is_quota_exceeded(&rule(1, true, Some(100), QuotaPeriod::Total, None), &totals(99)));
    assert!(!is_quota_exceeded(&rule(1, true, Some(0), QuotaPeriod::Total, None), &totals(99)));
    assert!(!is_quota_exceeded(&rule(1, true, None, QuotaPeriod::Total, None), &totals(99)));
    // a total beyond i64::MAX reads as negative and never reaches the quota
    assert!(!is_quota_exceeded(&rule(1, true, Some(1), QuotaPeriod::Total, None), &totals(u64::MAX)));
}

#[test]
fn control_trips_once_per_session() {
    let mut c = RuleControl::new(9000);
    assert!(!c.check_after_add(totals(1_000)));
    c.set_quota(500);
    assert!(!c.check_after_add(totals(499)));
    assert!(c.check_after_add(totals(500)));
    assert!(!c.check_after_add(totals(600)));
    c.start_session();
    assert!(c.check_after_add(totals(600)));
}

#[test]
fn meter_counts_and_reports_trip() {
    let mut control = RuleControl::new(7000);
    control.set_quota(100);
    let mut m = TrafficMeter::new(control);
    assert_eq!(m.add_tcp_rx(40), None);
    assert_eq!(m.add_tcp_tx(30), None);
    assert_eq!(m.add_udp_rx(20), None);
    assert_eq!(m.add_udp_tx(10), Some(7000));
    assert_eq!(m.record(Direction::TcpRx, 5), None);
    assert_eq!(m.snapshot(), TrafficTotals { tcp_rx: 45, tcp_tx: 30, udp_rx: 20, udp_tx: 10 });
    m.reset();
    assert_eq!(m.snapshot(), totals(0));
    m.restore(&totals(77));
    assert_eq!(m.snapshot(), totals(77));
    m.control_mut().start_session();
    assert_eq!(m.add_tcp_rx(23), Some(7000));
}

#[test]
fn meter_counters_wrap() {
    let mut m = TrafficMeter::new(RuleControl::new(1));
    m.restore(&totals(u64::MAX));
    m.add_tcp_rx(2);
    assert_eq!(m.snapshot().tcp_rx, 1);
}

#[test]
fn dashboard_counts() {
    let rules = vec![
        rule(1, true, Some(100), QuotaPeriod::Total, None),
        rule(2, false, Some(100), QuotaPeriod::Total, None),
        rule(3, false, Some(100), QuotaPeriod::Total, None),
        rule(4, false, None, QuotaPeriod::Total, None),
    ];
    let t = vec![totals(500), totals(100), totals(99), totals(1)];
    let stats = dashboard_stats(&rules, &t);
    assert_eq!(stats.rule_count, 4);
    assert_eq!(stats.active_count, 1);
    assert_eq!(stats.total_traffic_bytes, 700);
    assert_eq!(stats.quota_blocked_count, 1);
    assert_eq!(rules_over_quota(&rules, &t), vec![1]);
    assert_eq!(ports_to_force_stop(&rules, &vec![true, true, false, true]), vec![2, 4]);
}

#[test]
fn period_reset_when_period_ended() {
    let now = 1_700_000_123; // 2023-11-14 22:15:23 UTC
    let today = 1_699_920_000;
    let yesterday = today - 86_400;
    let blocked = rule(1, false, Some(10), QuotaPeriod::Daily, Some(yesterday));
    assert_eq!(
        plan_period_reset(&blocked, &totals(10), now),
        Some(PeriodReset { period_start: today, reenable: true })
    );
    let manual_off = rule(1, false, Some(10), QuotaPeriod::Daily, Some(yesterday));
    assert_eq!(
        plan_period_reset(&manual_off, &totals(9), now),
        Some(PeriodReset { period_start: today, reenable: false })
    );
    let current = rule(1, false, Some(10), QuotaPeriod::Daily, Some(today));
    assert_eq!(plan_period_reset(&current, &totals(10), now), None);
    let unset = rule(1, true, Some(10), QuotaPeriod::Monthly, None);
    assert_eq!(plan_period_reset(&unset, &totals(10), now), None);
    let total = rule(1, true, Some(10), QuotaPeriod::Total, Some(0));
    assert_eq!(plan_period_reset(&total, &totals(10), now), None);
    let last_month = rule(1, true, Some(10), QuotaPeriod::Monthly, Some(1_696_118_400));
    assert_eq!(
        plan_period_reset(&last_month, &totals(1), now),
        Some(PeriodReset { period_start: 1_698_796_800, reenable: false })
    );
}

#[test]
fn quota_trips_only_at_first_reach() {
    let mut c = RuleControl::new(9);
    c.set_quota(100);
    let trips: Vec<bool> = [10u64, 99, 100, 150, 40, 200]
        .iter()
        .map(|n| c.check_after_add(totals(*n)))
        .collect();
    assert_eq!(trips, vec![false, false, true, false, false, false]);
    let mut off = RuleControl::new(9);
    off.set_quota(0);
    assert!(!off.check_after_add(totals(u64::MAX)));
}
