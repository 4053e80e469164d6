use realm_web::addr::{IpAddress, PeerAddr};
use realm_web::batch::{
    group_by_peer, recoverable, Batch, IoErrorKind, Packet, MAX_PACKETS, PACKET_SIZE,
};

fn addr(octet: u8, port: u16) -> PeerAddr {
    PeerAddr { ip: IpAddress::V4(10, 0, 0, octet), port }
}

fn packet(peer: PeerAddr, len: u16) -> Packet {
    Packet { buf: [0; PACKET_SIZE], peer, len }
}

#[test]
fn group_by_peer_clusters_same_client() {
    let mut pkts = vec![
        Packet { buf: [0; PACKET_SIZE], peer: addr(1, 1000), len: 1 },
        Packet { buf: [0; PACKET_SIZE], peer: addr(2, 1000), len: 1 },
        Packet { buf: [0; PACKET_SIZE], peer: addr(1, 1000), len: 1 },
    ];
    let mut groups = Vec::new();
    let n = pkts.len();
    group_by_peer(&mut pkts, n, &mut groups);
    assert_eq!(groups.len(), 2);
    assert_eq!(groups[0], 0..2);
    assert_eq!(groups[1], 2..3);
    let peers: Vec<PeerAddr> = pkts.iter().map(|p| p.peer).collect();
    assert_eq!(peers, vec![addr(1, 1000), addr(1, 1000), addr(2, 1000)]);
}

#[test]
fn group_by_peer_moves_packets_and_keeps_order_within_peer() {
    let mut pkts = vec![
        packet(addr(1, 1), 10),
        packet(addr(2, 1), 20),
        packet(addr(1, 2), 30),
        packet(addr(2, 1), 40),
        packet(addr(1, 1), 50),
    ];
    let mut groups = vec![7..9];
    let n = pkts.len();
    group_by_peer(&mut pkts, n, &mut groups);
    assert_eq!(groups, vec![7..9, 0..2, 2..3, 3..5]);
    let lens: Vec<u16> = pkts.iter().map(|p| p.len).collect();
    assert_eq!(lens, vec![10, 50, 30, 40, 20]);
    assert_eq!(pkts[0].peer, addr(1, 1));
    assert_eq!(pkts[2].peer, addr(1, 2));
    assert_eq!(pkts[3].peer, addr(2, 1));
}

#[test]
fn group_by_peer_on_nothing_adds_no_group() {
    let mut pkts = vec![packet(addr(1, 1), 1)];
    let mut groups = Vec::new();
    group_by_peer(&mut pkts, 0, &mut groups);
    assert!(groups.is_empty());
}

#[test]
fn recoverable_errors_are_resets_and_aborts() {
    assert!(recoverable(IoErrorKind::ConnectionReset));
    assert!(recoverable(IoErrorKind::ConnectionAborted));
    assert!(!recoverable(IoErrorKind::Other));
}

#[test]
fn batch_counts_and_groups_received_packets() {
    let mut batch = Batch::new();
    assert_eq!(batch.count(), 0);
    assert_eq!(batch.packets().len(), MAX_PACKETS);
    batch.set_packet(0, packet(addr(3, 9), 100));
    batch.set_packet(1, packet(addr(4, 9), 200));
    batch.set_packet(2, packet(addr(3, 9), 300));
    assert!(batch.apply_recv(Ok(3)).is_ok());
    assert_eq!(batch.count(), 3);
    assert_eq!(batch.rx_bytes(), vec![100, 200, 300]);
    batch.group_by_peer();
    assert_eq!(batch.peer_groups().to_vec(), vec![0..2, 2..3]);
    assert_eq!(batch.packets()[1].len, 300);
}

#[test]
fn batch_recv_errors() {
    let mut batch = Batch::new();
    batch.set_packet(0, packet(addr(3, 9), 100));
    assert!(batch.apply_recv(Ok(1)).is_ok());
    assert!(batch.apply_recv(Err(IoErrorKind::ConnectionReset)).is_ok());
    assert_eq!(batch.count(), 0);
    assert!(batch.apply_recv(Ok(1)).is_ok());
    assert_eq!(batch.apply_recv(Err(IoErrorKind::Other)), Err(IoErrorKind::Other));
    assert_eq!(batch.count(), 1);
}

#[test]
fn payload_is_the_received_prefix() {
    let mut pkt = packet(addr(1, 1), 3);
    pkt.buf[0] = 7;
    pkt.buf[1] = 8;
    pkt.buf[2] = 9;
    pkt.buf[3] = 10;
    assert_eq!(pkt.payload(), &[7u8, 8, 9][..]);
    let empty = packet(addr(1, 1), 0);
    assert!(empty.payload().is_empty());
    let full = packet(addr(1, 1), PACKET_SIZE as u16);
    assert_eq!(full.payload().len(), PACKET_SIZE);
}
