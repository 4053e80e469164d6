use realm_web::addr::IpAddress;
use realm_web::rate_limit::{normalize_ip, LoginRateLimiter, BASE_BAN_SECS, MAX_FAILURES};

#[test]
fn ipv6_normalized_to_slash64() {
    let ip = IpAddress::V6(0x2001, 0xdb8, 0x1234, 0x5678, 0, 0, 0, 1);
    assert_eq!(normalize_ip(ip), "v6:2001:db8:1234:5678:/64");
}

#[test]
fn ipv4_normalized_exactly() {
    assert_eq!(normalize_ip(IpAddress::V4(192, 168, 0, 10)), "v4:192.168.0.10");
    assert_eq!(normalize_ip(IpAddress::V4(0, 0, 0, 0)), "v4:0.0.0.0");
}

#[test]
fn ipv6_same_slash64_shares_key() {
    let a = IpAddress::V6(0xfe80, 0, 0, 0xabcd, 1, 2, 3, 4);
    let b = IpAddress::V6(0xfe80, 0, 0, 0xabcd, 9, 9, 9, 9);
    assert_eq!(normalize_ip(a), normalize_ip(b));
    assert_eq!(normalize_ip(a), "v6:fe80:0:0:abcd:/64");
}

const T0: u64 = 1_000;

#[test]
fn fifth_failure_bans_for_twenty_minutes() {
    let mut limiter = LoginRateLimiter::new();
    let ip = IpAddress::V4(10, 0, 0, 1);
    for _ in 0..(MAX_FAILURES - 1) {
        limiter.record_failure(ip, T0);
        assert_eq!(limiter.check(ip, T0), 0);
    }
    limiter.record_failure(ip, T0);
    assert_eq!(limiter.check(ip, T0), 2 * BASE_BAN_SECS);
    // other clients are not affected
    assert_eq!(limiter.check(IpAddress::V4(10, 0, 0, 2), T0), 0);
}

#[test]
fn ban_remaining_counts_down_and_ends() {
    let mut limiter = LoginRateLimiter::new();
    let ip = IpAddress::V4(10, 0, 0, 1);
    for _ in 0..5 {
        limiter.record_failure(ip, T0);
    }
    assert_eq!(limiter.check(ip, T0 + 200_000), 1000);
    assert_eq!(limiter.check(ip, T0 + 1_200_000 - 500), 1);
    assert_eq!(limiter.check(ip, T0 + 1_200_000), 0);
}

#[test]
fn second_ban_is_twice_as_long() {
    let mut limiter = LoginRateLimiter::new();
    let ip = IpAddress::V6(0x2001, 0xdb8, 0, 1, 0, 0, 0, 1);
    for _ in 0..5 {
        limiter.record_failure(ip, T0);
    }
    let later = T0 + 1_300_000;
    assert_eq!(limiter.check(ip, later), 0);
    for _ in 0..5 {
        limiter.record_failure(ip, later);
    }
    assert_eq!(limiter.check(ip, later), 4 * BASE_BAN_SECS);
}

#[test]
fn success_clears_failures_and_ban() {
    let mut limiter = LoginRateLimiter::new();
    let ip = IpAddress::V4(172, 16, 0, 1);
    for _ in 0..5 {
        limiter.record_failure(ip, T0);
    }
    assert!(limiter.check(ip, T0) > 0);
    limiter.record_success(ip);
    assert_eq!(limiter.check(ip, T0), 0);
    for _ in 0..4 {
        limiter.record_failure(ip, T0);
    }
    assert_eq!(limiter.check(ip, T0), 0);
}

#[test]
fn stale_failures_are_forgotten() {
    let day_ms: u64 = 86_400_000;
    let mut fresh = LoginRateLimiter::new();
    let ip = IpAddress::V4(1, 2, 3, 4);
    for _ in 0..4 {
        fresh.record_failure(ip, 0);
    }
    fresh.record_failure(ip, day_ms);
    assert_eq!(fresh.check(ip, day_ms), 0);

    let mut recent = LoginRateLimiter::new();
    for _ in 0..4 {
        recent.record_failure(ip, 0);
    }
    recent.record_failure(ip, day_ms - 1);
    assert!(recent.check(ip, day_ms - 1) > 0);
}

#[test]
fn default_limiter_is_empty() {
    let mut limiter = LoginRateLimiter::default();
    assert_eq!(limiter.check(IpAddress::V4(8, 8, 8, 8), 0), 0);
}

#[test]
fn failures_spread_within_a_day_still_ban() {
    let mut limiter = LoginRateLimiter::new();
    let ip = IpAddress::V4(192, 168, 1, 9);
    let step: u64 = 20_000_000; // 20000 s between failures, 80000 s in all
    for i in 0..5u64 {
        limiter.record_failure(ip, T0 + i * step);
    }
    let t5 = T0 + 4 * step;
    assert_eq!(limiter.check(ip, t5), 2 * BASE_BAN_SECS);
    assert_eq!(limiter.check(ip, t5 + 600_000), BASE_BAN_SECS);
}

#[test]
fn failures_from_one_slash64_ban_it_and_only_it() {
    let mut limiter = LoginRateLimiter::new();
    let other = IpAddress::V6(0x2001, 0xdb8, 0, 2, 0, 0, 0, 1);
    for k in 1..=5u16 {
        let ip = IpAddress::V6(0x2001, 0xdb8, 0, 1, 0, 0, 0, k);
        limiter.record_failure(ip, T0 + u64::from(k) * 1_000);
        let now = T0 + 6_000;
        let left = limiter.check(IpAddress::V6(0x2001, 0xdb8, 0, 1, 9, 9, 9, 9), now);
        if k < 5 {
            assert_eq!(left, 0);
        } else {
            assert!(left >= 1 && left <= 2 * BASE_BAN_SECS);
        }
        assert_eq!(limiter.check(other, now), 0);
    }
}
