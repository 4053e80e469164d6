use realm_web::api::{
    parse_port_mode, parse_targets, requested_quota_period, ApiResponse, BatchDeleteResponse,
    PortModeError, TargetsError,
};
use realm_web::rule::{PortAssignMode, QuotaPeriod, RuleParseError};

#[test]
fn targets_one_per_line_blank_lines_skipped() {
    let rules = parse_targets("a.example:1\n\n   \n  b.example:2 \r\nc:3").unwrap();
    let got: Vec<(String, u16)> = rules.into_iter().map(|r| (r.target_host, r.target_port)).collect();
    assert_eq!(
        got,
        vec![("a.example".to_string(), 1), ("b.example".to_string(), 2), ("c".to_string(), 3)]
    );
}

#[test]
fn targets_errors() {
    assert!(matches!(parse_targets(""), Err(TargetsError::NoTargets)));
    assert!(matches!(parse_targets(" \n\t\n"), Err(TargetsError::NoTargets)));
    assert!(matches!(
        parse_targets("a:1\nno-port\nb:0"),
        Err(TargetsError::Line(RuleParseError::MissingSeparator))
    ));
    assert!(matches!(
        parse_targets("a:1\nb:0\nno-port"),
        Err(TargetsError::Line(RuleParseError::ZeroPort))
    ));
}

#[test]
fn port_modes() {
    assert!(matches!(parse_port_mode("auto", None, &None), Ok(PortAssignMode::Auto)));
    assert!(matches!(
        parse_port_mode("specific", Some(2000), &None),
        Ok(PortAssignMode::FromStart { start_port: 2000 })
    ));
    assert!(matches!(parse_port_mode("specific", None, &None), Err(PortModeError::MissingStartPort)));
    match parse_port_mode("manual", None, &Some(vec![1, 2])) {
        Ok(PortAssignMode::Manual { ports }) => assert_eq!(ports, vec![1, 2]),
        other => panic!("unexpected {:?}", other),
    }
    assert!(matches!(parse_port_mode("manual", Some(1), &None), Err(PortModeError::MissingPorts)));
    assert!(matches!(parse_port_mode("Auto", None, &None), Err(PortModeError::UnknownMode)));
}

#[test]
fn quota_period_defaults_to_total() {
    assert_eq!(requested_quota_period(None), QuotaPeriod::Total);
    assert_eq!(requested_quota_period(Some("monthly")), QuotaPeriod::Monthly);
    assert_eq!(requested_quota_period(Some("never")), QuotaPeriod::NoPeriod);
}

#[test]
fn response_shapes() {
    let (status, body) = ApiResponse::ok(5u32, "done".to_string());
    assert_eq!(status, 200);
    assert!(body.success);
    assert_eq!(body.data, Some(5));
    let (status, body) = ApiResponse::<u32>::bad_request("nope".to_string());
    assert_eq!(status, 400);
    assert!(!body.success);
    assert_eq!(body.message.as_deref(), Some("nope"));
    assert_eq!(body.data, None);
    let (status, _) = ApiResponse::<u32>::internal_error("boom".to_string());
    assert_eq!(status, 500);
    let resp = BatchDeleteResponse { deleted: vec![1], failed: vec![] };
    assert!(resp.all_deleted());
    let resp = BatchDeleteResponse { deleted: vec![], failed: vec![2] };
    assert!(!resp.all_deleted());
}

#[test]
fn request_error_messages() {
    assert_eq!(parse_targets("\n  \n").unwrap_err().message(), "请至少输入一条转发目标");
    assert_eq!(parse_targets("a:1\nb").unwrap_err().message(), "无效格式，需要 主机:端口");
    assert_eq!(PortModeError::MissingStartPort.message(), "请指定起始端口");
    assert_eq!(PortModeError::MissingPorts.message(), "请指定端口列表");
    assert_eq!(PortModeError::UnknownMode.message(), "无效的端口分配模式");
}
