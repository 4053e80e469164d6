use realm_web::rule::{ForwardRule, QuotaPeriod, RuleParseError};

fn parsed(line: &str) -> (String, u16) {
    let rule = ForwardRule::parse(line).expect("valid target");
    (rule.target_host, rule.target_port)
}

#[test]
fn forward_rule_parses_host_and_port() {
    assert_eq!(parsed("example.com:8080"), ("example.com".to_string(), 8080));
    assert_eq!(parsed("  10.0.0.1:53 \t"), ("10.0.0.1".to_string(), 53));
    assert_eq!(parsed("[2001:db8::1]:443"), ("[2001:db8::1]".to_string(), 443));
    assert_eq!(parsed("host:+80"), ("host".to_string(), 80));
    assert_eq!(parsed(":1"), ("".to_string(), 1));
}

#[test]
fn forward_rule_errors() {
    assert!(matches!(ForwardRule::parse("example.com"), Err(RuleParseError::MissingSeparator)));
    assert!(matches!(ForwardRule::parse("   "), Err(RuleParseError::MissingSeparator)));
    match ForwardRule::parse("example.com:http") {
        Err(RuleParseError::InvalidPort { port }) => assert_eq!(port, "http"),
        other => panic!("unexpected {:?}", other),
    }
    match ForwardRule::parse("example.com:65536") {
        Err(RuleParseError::InvalidPort { port }) => assert_eq!(port, "65536"),
        other => panic!("unexpected {:?}", other),
    }
    match ForwardRule::parse("example.com: 80") {
        Err(RuleParseError::InvalidPort { port }) => assert_eq!(port, " 80"),
        other => panic!("unexpected {:?}", other),
    }
    assert!(matches!(ForwardRule::parse("example.com:0"), Err(RuleParseError::ZeroPort)));
}

#[test]
fn quota_period_names_round_trip() {
    for p in [QuotaPeriod::NoPeriod, QuotaPeriod::Daily, QuotaPeriod::Monthly, QuotaPeriod::Total] {
        assert_eq!(QuotaPeriod::parse(p.as_str()), p);
    }
    assert_eq!(QuotaPeriod::Daily.as_str(), "daily");
    assert_eq!(QuotaPeriod::NoPeriod.as_str(), "none");
    assert_eq!(QuotaPeriod::parse("weekly"), QuotaPeriod::NoPeriod);
    assert_eq!(QuotaPeriod::parse("Daily"), QuotaPeriod::NoPeriod);
}

#[test]
fn current_period_start_of_day_and_month() {
    let now = 1_700_000_123; // 2023-11-14 22:15:23 UTC
    assert_eq!(QuotaPeriod::Daily.current_period_start(now), Some(1_699_920_000));
    assert_eq!(QuotaPeriod::Monthly.current_period_start(now), Some(1_698_796_800));
    assert_eq!(QuotaPeriod::Total.current_period_start(now), None);
    assert_eq!(QuotaPeriod::NoPeriod.current_period_start(now), None);
    // 2024-02-29 12:00 UTC, a leap day
    assert_eq!(QuotaPeriod::Monthly.current_period_start(1_709_208_000), Some(1_706_745_600));
    assert_eq!(QuotaPeriod::Daily.current_period_start(-1), Some(-86_400));
}

#[test]
fn target_line_round_trip() {
    for (host, port) in [("example.com", 1u16), ("2001:db8::1", 443), ("", 65535), ("a b", 80)] {
        let line = format!("{host}:{port}");
        assert_eq!(parsed(&line), (host.to_string(), port));
    }
}

#[test]
fn period_start_is_its_own_period_start() {
    for now in [1_700_000_123i64, 1_709_208_000, -1, 0, 86_399] {
        for p in [QuotaPeriod::Daily, QuotaPeriod::Monthly] {
            let t = p.current_period_start(now).expect("calendar period");
            assert!(t <= now && now - t < 31 * 86_400);
            assert_eq!(p.current_period_start(t), Some(t));
        }
    }
}

#[test]
fn parse_error_messages() {
    assert_eq!(ForwardRule::parse("example.com").unwrap_err().message(), "无效格式，需要 主机:端口");
    assert_eq!(ForwardRule::parse("a:http").unwrap_err().message(), "无效端口: http");
    assert_eq!(ForwardRule::parse("a:0").unwrap_err().message(), "端口不能为 0");
}

#[test]
fn period_starts_at_the_ends_of_the_calendar() {
    let last: i64 = 8_210_266_876_799;
    let first: i64 = -8_334_601_228_800;
    assert_eq!(QuotaPeriod::Daily.current_period_start(last), Some(last - 86_399));
    assert_eq!(QuotaPeriod::Daily.current_period_start(last + 1), None);
    assert_eq!(QuotaPeriod::Monthly.current_period_start(last + 1), None);
    assert_eq!(QuotaPeriod::Daily.current_period_start(first), Some(first));
    assert_eq!(QuotaPeriod::Monthly.current_period_start(first + 100), Some(first));
    assert_eq!(QuotaPeriod::Daily.current_period_start(first - 1), None);
    assert_eq!(QuotaPeriod::Monthly.current_period_start(first - 1), None);
}
