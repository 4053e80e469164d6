use realm_web::rule::{QuotaPeriod, RuleRecord};
use realm_web::service::{apply_update, new_rules_period_start, partition_deleted, resolve_quota_bytes, RuleUpdate};

const NOW: i64 = 1_700_000_123; // 2023-11-14 22:15:23 UTC
const TODAY: i64 = 1_699_920_000;
const MONTH: i64 = 1_698_796_800;

fn existing() -> RuleRecord {
    RuleRecord {
        id: 7,
        local_port: 10000,
        listen_host: "0.0.0.0".to_string(),
        target_host: "old.example".to_string(),
        target_port: 80,
        enabled: true,
        quota_bytes: Some(1000),
        quota_period: QuotaPeriod::Daily,
        period_start: Some(TODAY - 86_400),
        created_at: 1,
        updated_at: 2,
    }
}

fn no_change() -> RuleUpdate {
    RuleUpdate {
        target_host: None,
        target_port: None,
        enabled: None,
        quota_bytes: Some(1000),
        quota_gb_given: false,
        unset_quota: None,
        quota_period: None,
    }
}

#[test]
fn update_keeps_unnamed_fields() {
    let r = apply_update(&existing(), &no_change(), NOW);
    assert_eq!(r.target_host, "old.example");
    assert_eq!(r.target_port, 80);
    assert!(r.enabled);
    assert_eq!(r.quota_period, QuotaPeriod::Daily);
    assert_eq!(r.period_start, Some(TODAY - 86_400));
    assert_eq!(r.updated_at, NOW);
    assert_eq!(r.created_at, 1);
}

#[test]
fn update_changes_named_fields() {
    let req = RuleUpdate {
        target_host: Some("new.example".to_string()),
        target_port: Some(443),
        enabled: Some(false),
        ..no_change()
    };
    let r = apply_update(&existing(), &req, NOW);
    assert_eq!((r.target_host.as_str(), r.target_port, r.enabled), ("new.example", 443, false));
}

#[test]
fn update_restarts_period_when_quota_changes() {
    let req = RuleUpdate { quota_period: Some("monthly".to_string()), ..no_change() };
    let r = apply_update(&existing(), &req, NOW);
    assert_eq!(r.quota_period, QuotaPeriod::Monthly);
    assert_eq!(r.period_start, Some(MONTH));
    let req = RuleUpdate { quota_gb_given: true, quota_bytes: Some(5), ..no_change() };
    assert_eq!(apply_update(&existing(), &req, NOW).period_start, Some(TODAY));
    let req = RuleUpdate { quota_bytes: None, unset_quota: Some(true), ..no_change() };
    assert_eq!(apply_update(&existing(), &req, NOW).period_start, None);
    let req = RuleUpdate { quota_period: Some("total".to_string()), ..no_change() };
    assert_eq!(apply_update(&existing(), &req, NOW).period_start, None);
    let mut fresh = existing();
    fresh.period_start = None;
    assert_eq!(apply_update(&fresh, &no_change(), NOW).period_start, Some(TODAY));
}

#[test]
fn new_rules_start_their_period() {
    assert_eq!(new_rules_period_start(Some(10), QuotaPeriod::Daily, NOW), Some(TODAY));
    assert_eq!(new_rules_period_start(Some(10), QuotaPeriod::Total, NOW), None);
    assert_eq!(new_rules_period_start(Some(0), QuotaPeriod::Daily, NOW), None);
    assert_eq!(new_rules_period_start(None, QuotaPeriod::Monthly, NOW), None);
}

#[test]
fn delete_batch_partition() {
    let (deleted, failed) = partition_deleted(&vec![1, 2, 3, 4], &vec![true, false, true, false]);
    assert_eq!(deleted, vec![1, 3]);
    assert_eq!(failed, vec![2, 4]);
}

#[test]
fn quota_resolution() {
    assert_eq!(resolve_quota_bytes(Some(true), Some(5), Some(9)), None);
    assert_eq!(resolve_quota_bytes(Some(false), Some(5), Some(9)), Some(5));
    assert_eq!(resolve_quota_bytes(None, None, Some(9)), Some(9));
    assert_eq!(resolve_quota_bytes(None, None, None), None);
}
