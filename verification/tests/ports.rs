use realm_web::ports::{assign_batch_ports, assign_ports, find_next_port, is_port_available, BatchPortError, PortError};
use realm_web::rule::PortAssignMode;

#[test]
fn auto_assignment_skips_used_ports() {
    let mut used = vec![1000, 1001, 1003];
    let ports = assign_ports(3, &PortAssignMode::Auto, 1000, &mut used, &vec![]).unwrap();
    assert_eq!(ports, vec![1002, 1004, 1005]);
    assert_eq!(used, vec![1000, 1001, 1003, 1002, 1004, 1005]);
}

#[test]
fn sequential_assignment_skips_reserved_ports() {
    let mut used = vec![];
    let reserved = vec![22, 80, 443, 888];
    let mode = PortAssignMode::FromStart { start_port: 887 };
    assert_eq!(assign_ports(3, &mode, 1000, &mut used, &reserved), Ok(vec![887, 889, 890]));
}

#[test]
fn sequential_assignment_errors() {
    let mut used = vec![];
    let mode = PortAssignMode::FromStart { start_port: 0 };
    assert_eq!(assign_ports(1, &mode, 1000, &mut used, &vec![]), Err(PortError::InvalidStartPort));
    let mode = PortAssignMode::FromStart { start_port: 65535 };
    assert_eq!(assign_ports(2, &mode, 1000, &mut used, &vec![]), Err(PortError::NoFreePort));
    let mut used = vec![65535];
    assert_eq!(assign_ports(1, &mode, 1000, &mut used, &vec![]), Err(PortError::NoFreePort));
}

#[test]
fn manual_assignment_takes_listed_ports() {
    let mut used = vec![5000];
    let mode = PortAssignMode::Manual { ports: vec![6000, 6001] };
    assert_eq!(assign_ports(2, &mode, 1000, &mut used, &vec![]), Ok(vec![6000, 6001]));
    assert_eq!(used, vec![5000, 6000, 6001]);
}

#[test]
fn manual_assignment_errors() {
    let mut used = vec![5000];
    let reserved = vec![22];
    let mode = PortAssignMode::Manual { ports: vec![6000] };
    assert_eq!(assign_ports(2, &mode, 1000, &mut used, &reserved), Err(PortError::CountMismatch));
    let mode = PortAssignMode::Manual { ports: vec![6000, 0, 5000] };
    assert_eq!(assign_ports(3, &mode, 1000, &mut used, &reserved), Err(PortError::InvalidPort(0)));
    let mode = PortAssignMode::Manual { ports: vec![6000, 5000, 0] };
    assert_eq!(assign_ports(3, &mode, 1000, &mut used, &reserved), Err(PortError::PortUnavailable(5000)));
    let mode = PortAssignMode::Manual { ports: vec![22] };
    assert_eq!(assign_ports(1, &mode, 1000, &mut used, &reserved), Err(PortError::PortUnavailable(22)));
    assert_eq!(used, vec![5000]);
}

#[test]
fn next_free_port() {
    assert_eq!(find_next_port(0, &vec![1, 2], &vec![3]), Ok(4));
    assert_eq!(find_next_port(65535, &vec![], &vec![]), Ok(65535));
    assert!(is_port_available(8080, &vec![80], &vec![443]));
    assert!(!is_port_available(443, &vec![80], &vec![443]));
}

#[test]
fn failed_assignment_leaves_used_ports() {
    let reserved: Vec<u16> = vec![22];
    let mut used: Vec<u16> = vec![1000];
    let r = assign_ports(1, &PortAssignMode::FromStart { start_port: 0 }, 1000, &mut used, &reserved);
    assert_eq!(r, Err(PortError::InvalidStartPort));
    assert_eq!(used, vec![1000]);
    for ports in [vec![2000, 2001], vec![0], vec![1000], vec![22]] {
        let r = assign_ports(1, &PortAssignMode::Manual { ports }, 1000, &mut used, &reserved);
        assert!(r.is_err());
        assert_eq!(used, vec![1000]);
    }
}

#[test]
fn running_out_keeps_the_ports_found() {
    let reserved: Vec<u16> = Vec::new();
    let mut used: Vec<u16> = vec![65535];
    let r = assign_ports(3, &PortAssignMode::FromStart { start_port: 65533 }, 1000, &mut used, &reserved);
    assert_eq!(r, Err(PortError::NoFreePort));
    assert_eq!(used, vec![65535, 65533, 65534]);
}

#[test]
fn batch_without_targets_is_refused() {
    let reserved: Vec<u16> = Vec::new();
    let mut used: Vec<u16> = vec![5];
    assert_eq!(
        assign_batch_ports(0, &PortAssignMode::Auto, 1000, &mut used, &reserved),
        Err(BatchPortError::NoTargets)
    );
    assert_eq!(used, vec![5]);
    assert_eq!(
        assign_batch_ports(1, &PortAssignMode::FromStart { start_port: 0 }, 1000, &mut used, &reserved),
        Err(BatchPortError::Port(PortError::InvalidStartPort))
    );
    assert_eq!(assign_batch_ports(2, &PortAssignMode::Auto, 1000, &mut used, &reserved), Ok(vec![1000, 1001]));
    assert_eq!(used, vec![5, 1000, 1001]);
}

#[test]
fn port_error_messages() {
    assert_eq!(PortError::InvalidStartPort.message(), "起始端口无效");
    assert_eq!(PortError::CountMismatch.message(), "手动端口数量与目标数量不一致");
    assert_eq!(PortError::InvalidPort(0).message(), "端口 0 无效");
    assert_eq!(PortError::PortUnavailable(443).message(), "端口 443 不可用");
    assert_eq!(PortError::NoFreePort.message(), "没有可用端口");
    assert_eq!(BatchPortError::NoTargets.message(), "请至少输入一条转发目标");
    assert_eq!(BatchPortError::Port(PortError::PortUnavailable(65535)).message(), "端口 65535 不可用");
}
