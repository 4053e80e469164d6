use realm_web::socket::{build_keepalive, connect_next, ConnectAction, Keepalive};

#[test]
fn keepalive_off_when_zero() {
    assert_eq!(build_keepalive(0, 3), None);
}

#[test]
fn keepalive_uses_seconds_for_time_and_interval() {
    assert_eq!(
        build_keepalive(15, 3),
        Some(Keepalive { time_secs: 15, interval_secs: 15, retries: 3 })
    );
}

#[test]
fn keepalive_probe_count_truncates_to_u32() {
    let probes: usize = (1usize << 32) + 5;
    assert_eq!(build_keepalive(1, probes).map(|k| k.retries), Some(5));
}

#[test]
fn connecting_tries_addresses_in_order() {
    assert_eq!(connect_next(&vec![], 0), ConnectAction::NoAddress);
    assert_eq!(connect_next(&vec![], 3), ConnectAction::Try(0));
    assert_eq!(connect_next(&vec![false], 3), ConnectAction::Try(1));
    assert_eq!(connect_next(&vec![false, true], 3), ConnectAction::Use(1));
    assert_eq!(connect_next(&vec![false, false, false], 3), ConnectAction::FailWith(2));
    assert_eq!(connect_next(&vec![true], 1), ConnectAction::Use(0));
}
