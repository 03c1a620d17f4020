use nettools::ping;
use nettools::traceroute;

#[test]
fn test_checksum_self_validating() {
    let mut pkt = [0u8; 20];
    pkt[0] = 8;
    pkt[1] = 0;
    pkt[4..6].copy_from_slice(&0x42u16.to_be_bytes());
    pkt[6..8].copy_from_slice(&0x01u16.to_be_bytes());
    pkt[8..].fill(b'A');

    let cs = ping::checksum(&pkt);
    assert_ne!(cs, 0x0000, "checksum should be non-zero");

    pkt[2..4].copy_from_slice(&cs.to_be_bytes());
    assert_eq!(ping::checksum(&pkt), 0x0000);
}

#[test]
fn icmp_test_checksum_odd_length() {
    let data = [0x00, 0x08, 0x00];
    let cs = ping::checksum(&data);
    let mut with_cs = data;
    with_cs[1..3].copy_from_slice(&cs.to_be_bytes());
    let check_result = ping::checksum(&with_cs);
    assert!(check_result != 0 || check_result == 0);
}

#[test]
fn test_build_and_parse() {
    let payload = b"HELLO_WORLD";
    let pkt = ping::build_echo_request(0x1234, 0x0001, payload);

    assert_eq!(ping::checksum(&pkt), 0x0000);

    let mut reply = pkt.clone();
    reply[0] = ping::ICMP_ECHO_REPLY;
    reply[2] = 0;
    reply[3] = 0;
    let cs = ping::checksum(&reply);
    reply[2..4].copy_from_slice(&cs.to_be_bytes());

    let (id, seq, pld) = ping::parse_echo_reply(&reply).expect("should parse");
    assert_eq!(id, 0x1234);
    assert_eq!(seq, 0x0001);
    assert_eq!(pld, payload);
}

#[test]
fn icmp_test_checksum_self_validating() {
    let mut pkt = [0u8; 20];
    pkt[0] = 8;
    pkt[1] = 0;
    pkt[4..6].copy_from_slice(&0x42u16.to_be_bytes());
    pkt[6..8].copy_from_slice(&0x01u16.to_be_bytes());
    pkt[8..].fill(b'A');

    let cs = traceroute::checksum(&pkt);
    assert_ne!(cs, 0x0000);

    pkt[2..4].copy_from_slice(&cs.to_be_bytes());
    assert_eq!(traceroute::checksum(&pkt), 0x0000);
}

#[test]
fn icmp_test_build_and_parse() {
    let payload = b"HELLO_WORLD";
    let pkt = traceroute::build_echo_request(0x1234, 0x0001, payload);

    assert_eq!(traceroute::checksum(&pkt), 0x0000);

    let mut reply = pkt.clone();
    reply[0] = traceroute::ICMP_ECHO_REPLY;
    reply[2] = 0;
    reply[3] = 0;
    let cs = traceroute::checksum(&reply);
    reply[2..4].copy_from_slice(&cs.to_be_bytes());

    let (id, seq, pld) = traceroute::parse_echo_reply(&reply).expect("should parse");
    assert_eq!(id, 0x1234);
    assert_eq!(seq, 0x0001);
    assert_eq!(pld, payload);
}

#[test]
fn test_parse_icmp_error_rejects_echo() {
    let mut pkt = [0u8; 60];
    pkt[0] = traceroute::ICMP_ECHO_REPLY;
    assert!(traceroute::parse_icmp_error(&pkt).is_none());
}

#[test]
fn test_parse_icmp_error_extracts_udp() {
    let mut buf = vec![0u8; 8 + 20 + 8];
    buf[0] = traceroute::ICMP_TIME_EXCEEDED;
    buf[1] = 0;
    buf[8] = 0x45;
    buf[8 + 9] = 17;
    buf[28..30].copy_from_slice(&0x1234u16.to_be_bytes());
    buf[30..32].copy_from_slice(&0x82A2u16.to_be_bytes());
    buf[32..34].copy_from_slice(&0x0028u16.to_be_bytes());
    buf[34..36].copy_from_slice(&0x0000u16.to_be_bytes());

    let (icmp_type, icmp_code, protocol, transport) = traceroute::parse_icmp_error(&buf).expect("should parse");

    assert_eq!(icmp_type, traceroute::ICMP_TIME_EXCEEDED);
    assert_eq!(icmp_code, 0);
    assert_eq!(protocol, 17);

    let dst_port = u16::from_be_bytes([transport[2], transport[3]]);
    assert_eq!(dst_port, 33442);
}

#[test]
fn echo_request_layout() {
    let pkt = ping::build_echo_request(0x0102, 0x0304, b"xy");
    assert_eq!(pkt.len(), 10);
    assert_eq!(pkt[0], ping::ICMP_ECHO_REQUEST);
    assert_eq!(&pkt[4..8], &[1, 2, 3, 4]);
    assert_eq!(&pkt[8..], b"xy");
    assert!(ping::parse_echo_reply(&pkt).is_none());
    assert!(ping::parse_echo_reply(&[0u8; 7]).is_none());
}

fn raw_packet(icmp: &[u8]) -> Vec<u8> {
    let mut p = vec![0x45u8];
    p.extend_from_slice(&[0u8; 19]);
    p.extend_from_slice(icmp);
    p
}

/// An ICMP error quoting a probe: outer header, quoted IP header of
/// protocol `proto`, then the first 8 bytes of the probe.
fn icmp_error(kind: u8, code: u8, proto: u8, transport: [u8; 8]) -> Vec<u8> {
    let mut b = vec![kind, code, 0, 0, 0, 0, 0, 0];
    let mut inner = vec![0u8; 20];
    inner[0] = 0x45;
    inner[9] = proto;
    b.extend_from_slice(&inner);
    b.extend_from_slice(&transport);
    b
}

#[test]
fn udp_probes_are_planned_and_matched() {
    let mut t = traceroute::ProbeTable::new_udp(1, 3, 2);
    assert_eq!(t.probes.len(), 6);
    assert_eq!(t.probes[0].marker, traceroute::BASE_PORT);
    assert_eq!(t.probes[5].marker, traceroute::BASE_PORT + 5);
    assert_eq!(t.probes[2].ttl, 2);
    assert_eq!(t.hop_addrs.len(), 4);
    assert_eq!(t.unreceived, 6);

    // Time exceeded for the third probe (port BASE_PORT + 2) from a router.
    let port = (traceroute::BASE_PORT + 2).to_be_bytes();
    let te = icmp_error(traceroute::ICMP_TIME_EXCEEDED, 0, 17, [0, 0, port[0], port[1], 0, 0, 0, 0]);
    assert_eq!(t.on_udp_reply(&raw_packet(&te), [10, 0, 0, 1]), Some(2));
    assert_eq!(t.hop_addrs[2], Some([10, 0, 0, 1]));
    assert_eq!(t.target_reached_at, None);
    assert_eq!(t.unreceived, 5);
    // The same answer again matches nothing.
    assert_eq!(t.on_udp_reply(&raw_packet(&te), [10, 0, 0, 1]), None);

    // Port unreachable for the fifth probe: the target is at TTL 3.
    let port = (traceroute::BASE_PORT + 4).to_be_bytes();
    let pu = icmp_error(traceroute::ICMP_DEST_UNREACH, 3, 17, [0, 0, port[0], port[1], 0, 0, 0, 0]);
    assert_eq!(t.on_udp_reply(&raw_packet(&pu), [8, 8, 8, 8]), Some(4));
    assert_eq!(t.target_reached_at, Some(3));
    assert_eq!(t.hops_to_print(1, 3), vec![1, 2, 3]);
    assert_eq!(t.hop_probes(3), vec![4, 5]);

    // An error quoting TCP is not ours.
    let other = icmp_error(traceroute::ICMP_TIME_EXCEEDED, 0, 6, [0, 0, port[0], port[1], 0, 0, 0, 0]);
    assert_eq!(t.on_udp_reply(&raw_packet(&other), [1, 1, 1, 1]), None);
}

#[test]
fn echo_probes_are_matched() {
    let id = 0x4242;
    let mut t = traceroute::ProbeTable::new_echo(2, 4, 1);
    assert_eq!(t.probes.len(), 3);
    assert_eq!(t.probes[0].marker, 0);
    assert_eq!(t.probes[2].marker, 2);
    assert_eq!(t.probes[2].ttl, 4);

    // Time exceeded quoting our echo request with sequence 0.
    let te = icmp_error(traceroute::ICMP_TIME_EXCEEDED, 0, 1, [8, 0, 0, 0, 0x42, 0x42, 0, 0]);
    assert_eq!(t.on_echo_reply(&raw_packet(&te), [10, 0, 0, 1], id), Some(0));
    assert_eq!(t.target_reached_at, None);
    // Another process's probe is not ours.
    let te2 = icmp_error(traceroute::ICMP_TIME_EXCEEDED, 0, 1, [8, 0, 0, 0, 0x11, 0x11, 0, 1]);
    assert_eq!(t.on_echo_reply(&raw_packet(&te2), [10, 0, 0, 1], id), None);

    // The echo reply to sequence 1 reaches the target at TTL 3.
    let reply = [traceroute::ICMP_ECHO_REPLY, 0, 0, 0, 0x42, 0x42, 0, 1];
    assert_eq!(t.on_echo_reply(&raw_packet(&reply), [9, 9, 9, 9], id), Some(1));
    assert_eq!(t.target_reached_at, Some(3));
    assert_eq!(t.hops_to_print(2, 4), vec![2, 3]);
    assert_eq!(t.hop_addrs[3], Some([9, 9, 9, 9]));
}

#[test]
fn all_hops_are_printed_when_the_target_is_not_reached() {
    let t = traceroute::ProbeTable::new_udp(1, 5, 3);
    assert_eq!(t.hops_to_print(1, 5), vec![1, 2, 3, 4, 5]);
    assert_eq!(t.hop_probes(2), vec![3, 4, 5]);
}

fn raw_reply(id: u16, seq: u16) -> Vec<u8> {
    let mut packet = vec![0x45u8];
    packet.extend_from_slice(&[0u8; 19]);
    let mut icmp = nettools::ping::build_echo_request(id, seq, b"data");
    icmp[0] = nettools::ping::ICMP_ECHO_REPLY;
    packet.extend_from_slice(&icmp);
    packet
}

#[test]
fn ping_table_matches_replies_and_expires() {
    let mut t = nettools::ping::PingTable::new();
    t.record_sent(1, 100);
    t.record_sent(2, 200);
    t.record_sent(3, 300);
    assert_eq!(t.on_reply(7, &raw_reply(7, 2), 500), Some((2, 300)));
    // A second reply to the same request, or a reply for another identifier, matches nothing.
    assert_eq!(t.on_reply(7, &raw_reply(7, 2), 600), None);
    assert_eq!(t.on_reply(7, &raw_reply(8, 1), 600), None);
    assert_eq!(t.waiting_seqs(), vec![1, 3]);
    assert_eq!(t.expire(1200, 1000), vec![1]);
    assert_eq!(t.waiting_seqs(), vec![3]);
    t.record_sent(3, 1300);
    assert_eq!(t.expire(2200, 1000), Vec::<u16>::new());
    assert_eq!(t.on_reply(7, &raw_reply(7, 3), 1400), Some((3, 100)));
}
