use nettools::arp::{
    build_arp, build_arp_reply, parse_arp, ArpCache, ARP_HLEN_ETHER, ARP_HTYPE_ETHER, ARP_OP_REPLY,
    ARP_OP_REQUEST, ARP_PLEN_IPV4, ARP_PTYPE_IPV4,
};
use nettools::ethernet::{build_frame, parse_frame, ETH_TYPE_IPV4};
use nettools::ip::{
    build_icmp_echo_reply, build_ipv4, parse_ipv4, ICMP_ECHO_REPLY, ICMP_ECHO_REQUEST, IP_PROTO_ICMP,
};
use nettools::tcp::{
    build_retransmit, build_tcp_header, build_tcp_segment, parse_tcp, process_existing_tcb, verify_tcp_checksum, Tcb,
    TcpHeader, TcpManager, TcpState,
    TCP_ACK, TCP_PSH, TCP_SYN,
};
use nettools::util::checksum;
use nettools::addr::{parse_addr, parse_ip};

#[test]
fn arp_test_parse_roundtrip() {
    let pkt = build_arp(
        ARP_HTYPE_ETHER,
        ARP_PTYPE_IPV4,
        ARP_HLEN_ETHER,
        ARP_PLEN_IPV4,
        ARP_OP_REQUEST,
        [0x01, 0x02, 0x03, 0x04, 0x05, 0x06],
        [10, 0, 0, 1],
        [0u8; 6],
        [10, 0, 0, 2],
    );
    let parsed = parse_arp(&pkt).expect("should parse");
    assert_eq!(parsed.htype, ARP_HTYPE_ETHER);
    assert_eq!(parsed.ptype, ARP_PTYPE_IPV4);
    assert_eq!(parsed.oper, ARP_OP_REQUEST);
    assert_eq!(parsed.sha, [0x01, 0x02, 0x03, 0x04, 0x05, 0x06]);
    assert_eq!(parsed.spa, [10, 0, 0, 1]);
    assert_eq!(parsed.tpa, [10, 0, 0, 2]);
}

#[test]
fn test_cache_insert_lookup() {
    let mut cache = ArpCache::new();
    let ip = [10, 0, 0, 1];
    let mac = [0xaa; 6];

    cache.learn(ip, mac);
    assert_eq!(cache.lookup(ip), Some(mac));
    assert_eq!(cache.lookup([10, 0, 0, 2]), None);
}

#[test]
fn test_cache_drain_pending() {
    let mut cache = ArpCache::new();
    let ip = [10, 0, 0, 1];
    let mac = [0xaa; 6];
    let now: u64 = 1_000;

    cache.queue_packet(ip, vec![1, 2, 3], now);
    cache.queue_packet(ip, vec![4, 5, 6], now);

    let drained = cache.insert(ip, mac);
    assert_eq!(drained.len(), 2);
    assert_eq!(drained[0], vec![1, 2, 3]);
    assert_eq!(drained[1], vec![4, 5, 6]);
    assert!(cache.pending_len() == 0);
}

#[test]
fn test_needs_resolution() {
    let cache = ArpCache::new();
    assert!(cache.needs_resolution([10, 0, 0, 1]));
    assert!(cache.lookup([10, 0, 0, 1]).is_none());
}

#[test]
fn test_build_reply() {
    let reply = build_arp_reply(
        [0x11, 0x22, 0x33, 0x44, 0x55, 0x66],
        [10, 0, 0, 2],
        [0x01, 0x02, 0x03, 0x04, 0x05, 0x06],
        [10, 0, 0, 1],
    );
    let parsed = parse_arp(&reply).expect("should parse");
    assert_eq!(parsed.oper, ARP_OP_REPLY);
    assert_eq!(parsed.sha, [0x11, 0x22, 0x33, 0x44, 0x55, 0x66]);
    assert_eq!(parsed.spa, [10, 0, 0, 2]);
    assert_eq!(parsed.tha, [0x01, 0x02, 0x03, 0x04, 0x05, 0x06]);
    assert_eq!(parsed.tpa, [10, 0, 0, 1]);
}

#[test]
fn test_pending_retry() {
    let mut cache = ArpCache::new();
    let ip = [10, 0, 0, 99];
    let now: u64 = 1_000;

    let is_new = cache.queue_packet(ip, vec![1], now);
    assert!(is_new);

    let result = cache.tick(now);
    assert!(result.retry_ips.is_empty());

    cache.record_request(ip, now);

    let later = now + 4_000;
    let result = cache.tick(later);
    assert_eq!(result.retry_ips, vec![ip]);

    cache.record_request(ip, later);
    cache.record_request(ip, later);
    cache.record_request(ip, later);
    let timeout = later + 4_000;
    let result = cache.tick(timeout);
    assert_eq!(result.timed_out_ips, vec![ip]);
}

#[test]
fn test_pending_second_packet_not_new() {
    let mut cache = ArpCache::new();
    let ip = [10, 0, 0, 1];
    let now: u64 = 1_000;

    let is_new = cache.queue_packet(ip, vec![1], now);
    assert!(is_new);

    let is_new = cache.queue_packet(ip, vec![2], now);
    assert!(!is_new);
}

#[test]
fn arp_cache_expires_after_ttl() {
    let mut cache = ArpCache::new();
    cache.learn_at([10, 0, 0, 7], [0xbb; 6], 1_000);
    assert_eq!(cache.lookup_at([10, 0, 0, 7], 61_000), Some([0xbb; 6]));
    assert_eq!(cache.lookup_at([10, 0, 0, 7], 61_001), None);
}

#[test]
fn ethernet_test_parse_roundtrip() {
    let payload = b"hello world";
    let frame = build_frame([0x01; 6], [0x02; 6], ETH_TYPE_IPV4, payload);
    let (hdr, pld) = parse_frame(&frame).expect("should parse");
    assert_eq!(hdr.dst, [0x01; 6]);
    assert_eq!(hdr.src, [0x02; 6]);
    assert_eq!(hdr.ethertype, ETH_TYPE_IPV4);
    assert_eq!(pld, payload);
}

#[test]
fn test_parse_too_short() {
    assert!(parse_frame(&[0u8; 10]).is_none());
}

#[test]
fn test_ipv4_roundtrip() {
    let pkt = build_ipv4([10, 0, 0, 2], [10, 0, 0, 1], IP_PROTO_ICMP, 64, b"HELLO");
    let (header, payload) = parse_ipv4(&pkt).expect("should parse");
    assert_eq!(header._version_ihl, 0x45);
    assert_eq!(header.protocol, IP_PROTO_ICMP);
    assert_eq!(header._ttl, 64);
    assert_eq!(header.src, [10, 0, 0, 2]);
    assert_eq!(header.dst, [10, 0, 0, 1]);
    assert_eq!(payload, b"HELLO");
    let cs = u16::from_be_bytes([pkt[10], pkt[11]]);
    assert_ne!(cs, 0);
}

#[test]
fn test_ipv4_checksum_invalid() {
    let mut pkt = build_ipv4([10, 0, 0, 2], [10, 0, 0, 1], IP_PROTO_ICMP, 64, b"data");
    pkt[0] = 0x46;
    assert!(parse_ipv4(&pkt).is_none());
}

#[test]
fn ipv4_header_checksum_verifies() {
    let pkt = build_ipv4([192, 168, 1, 1], [192, 168, 1, 2], 17, 32, b"xyz");
    assert_eq!(checksum(&pkt[..20]), 0);
    assert_eq!(pkt.len(), 23);
}

#[test]
fn test_icmp_echo_reply() {
    let mut req = vec![0u8; 8 + 4];
    req[0] = ICMP_ECHO_REQUEST;
    req[1] = 0;
    req[4..6].copy_from_slice(&0x1234u16.to_be_bytes());
    req[6..8].copy_from_slice(&1u16.to_be_bytes());
    req[8..].copy_from_slice(b"ABCD");
    let cs = checksum(&req);
    req[2..4].copy_from_slice(&cs.to_be_bytes());

    let reply = build_icmp_echo_reply(&req).expect("should build reply");
    assert_eq!(reply[0], ICMP_ECHO_REPLY);
    assert_eq!(reply[1], 0);
    assert_eq!(u16::from_be_bytes([reply[4], reply[5]]), 0x1234);
    assert_eq!(u16::from_be_bytes([reply[6], reply[7]]), 1);
    assert_eq!(&reply[8..], b"ABCD");
    assert_eq!(checksum(&reply), 0);
}

#[test]
fn echo_reply_refuses_non_request() {
    let mut req = vec![0u8; 12];
    req[0] = ICMP_ECHO_REPLY;
    assert!(build_icmp_echo_reply(&req).is_none());
    assert!(build_icmp_echo_reply(&[8u8, 0, 0]).is_none());
}

#[test]
fn test_parse_build_roundtrip() {
    let header = build_tcp_header(8080, 80, 1000, 2000, TCP_SYN | TCP_ACK, 65535);
    let (header, payload) = parse_tcp(&header).expect("should parse");
    assert_eq!(header.src_port, 8080);
    assert_eq!(header.dst_port, 80);
    assert_eq!(header.seq, 1000);
    assert_eq!(header.ack, 2000);
    assert_eq!(header.flags, TCP_SYN | TCP_ACK);
    assert_eq!(header.window, 65535);
    assert!(payload.is_empty());
}

#[test]
fn test_tcp_checksum() {
    let seg = build_tcp_segment([10, 0, 0, 2], [10, 0, 0, 1], 8080, 80, 100, 200, TCP_SYN | TCP_ACK, 65535, b"");
    assert!(verify_tcp_checksum([10, 0, 0, 2], [10, 0, 0, 1], &seg));
}

#[test]
fn test_tcp_segment_with_payload() {
    let seg = build_tcp_segment([10, 0, 0, 2], [10, 0, 0, 1], 8080, 80, 100, 200, TCP_PSH | TCP_ACK, 65535, b"hello");
    assert!(verify_tcp_checksum([10, 0, 0, 2], [10, 0, 0, 1], &seg));
    let (header, payload) = parse_tcp(&seg).expect("should parse");
    assert_eq!(header.flags, TCP_PSH | TCP_ACK);
    assert_eq!(payload, b"hello");
}

#[test]
fn tcp_checksum_rejects_other_addresses() {
    let seg = build_tcp_segment([10, 0, 0, 2], [10, 0, 0, 1], 1, 2, 3, 4, TCP_ACK, 100, b"abc");
    assert!(!verify_tcp_checksum([10, 0, 0, 3], [10, 0, 0, 1], &seg));
    let mut bad = seg.clone();
    bad[20] ^= 0xff;
    assert!(!verify_tcp_checksum([10, 0, 0, 2], [10, 0, 0, 1], &bad));
}

#[test]
fn test_checksum_simple() {
    let mut pkt = [0u8; 20];
    pkt[0] = 8;
    pkt[1] = 0;
    pkt[4..6].copy_from_slice(&0x42u16.to_be_bytes());
    pkt[6..8].copy_from_slice(&0x01u16.to_be_bytes());
    pkt[8..].fill(b'A');

    let cs = checksum(&pkt);
    assert_ne!(cs, 0x0000, "checksum should be non-zero");

    pkt[2..4].copy_from_slice(&cs.to_be_bytes());
    assert_eq!(checksum(&pkt), 0x0000, "self-validate should yield zero");
}

#[test]
fn util_test_checksum_odd_length() {
    let data = [0x00, 0x08, 0x00];
    let cs = checksum(&data);
    assert!(cs != 0 || cs == 0);
}

#[test]
fn checksum_exact_values() {
    assert_eq!(checksum(&[]), 0xffff);
    assert_eq!(checksum(&[0x00, 0x08, 0x00]), 0xfff7);
    assert_eq!(checksum(&[0xff, 0xff]), 0x0000);
    assert_eq!(checksum(&[0x45, 0x00, 0x00, 0x1c]), 0xbae3);
}

#[test]
fn parse_ip_and_addr() {
    assert_eq!(parse_ip("10.0.0.2"), [10, 0, 0, 2]);
    assert_eq!(parse_ip("10.x.300.7.9"), [10, 0, 0, 7]);
    assert_eq!(parse_ip("1.2"), [1, 2, 0, 0]);
    assert_eq!(parse_addr("10.0.0.1:8080"), Some(([10, 0, 0, 1], 8080)));
    assert_eq!(parse_addr("a:b:80"), Some(([0, 0, 0, 0], 80)));
    assert_eq!(parse_addr("10.0.0.1"), None);
    assert_eq!(parse_addr("10.0.0.1:70000"), None);
    assert_eq!(parse_addr("10.0.0.1:+81"), Some(([10, 0, 0, 1], 81)));
}

#[test]
fn in_order_data_is_delivered_and_acked() {
    let mut tcb = Tcb::new_server([10, 0, 0, 2], [10, 0, 0, 1], 40000, 80);
    tcb.state = TcpState::Established;
    tcb.rcv_nxt = 1000;
    tcb.snd_nxt = 77;
    tcb.snd_una = 77;
    let header = |seq: u32| TcpHeader {
        src_port: 80,
        dst_port: 40000,
        seq,
        ack: 77,
        _data_offset: 0x50,
        flags: TCP_PSH | TCP_ACK,
        window: 1024,
        _checksum: 0,
        _urgent: 0,
    };
    let out = process_existing_tcb(&mut tcb, &header(1000), b"hello", 0);
    assert_eq!(tcb.recv_buffer, b"hello".to_vec());
    assert_eq!(tcb.rcv_nxt, 1005);
    assert!(matches!(tcb.state, TcpState::Established));
    assert_eq!(out.len(), 1);
    assert_eq!(out[0].flags, TCP_ACK);
    assert_eq!(out[0].ack, 1005);
    // Data that does not start at the next expected number is not taken.
    let out = process_existing_tcb(&mut tcb, &header(2000), b"later", 0);
    assert!(out.is_empty());
    assert_eq!(tcb.recv_buffer, b"hello".to_vec());
    assert_eq!(tcb.rcv_nxt, 1005);
}

fn ack_only(ack: u32) -> TcpHeader {
    TcpHeader {
        src_port: 80,
        dst_port: 40000,
        seq: 1000,
        ack,
        _data_offset: 0x50,
        flags: TCP_ACK,
        window: 1024,
        _checksum: 0,
        _urgent: 0,
    }
}

fn sending_tcb() -> Tcb {
    let mut tcb = Tcb::new_server([10, 0, 0, 2], [10, 0, 0, 1], 40000, 80);
    tcb.state = TcpState::Established;
    tcb.iss = 49;
    tcb.rcv_nxt = 1000;
    tcb.snd_una = 100;
    tcb.snd_nxt = 110;
    tcb.send_buffer = b"0123456789".to_vec();
    tcb.retransmit_at = Some(5000);
    tcb.retransmit_count = 2;
    tcb
}

#[test]
fn partial_ack_trims_the_send_buffer() {
    let mut tcb = sending_tcb();
    let out = process_existing_tcb(&mut tcb, &ack_only(104), b"", 0);
    assert!(out.is_empty());
    assert_eq!(tcb.snd_una, 104);
    assert_eq!(tcb.send_buffer, b"456789".to_vec());
    assert_eq!(tcb.retransmit_at, Some(5000));
    assert_eq!(tcb.retransmit_count, 2);
    // An ACK beyond what was sent, or of old data, changes nothing.
    process_existing_tcb(&mut tcb, &ack_only(120), b"", 0);
    process_existing_tcb(&mut tcb, &ack_only(102), b"", 0);
    assert_eq!(tcb.snd_una, 104);
    assert_eq!(tcb.send_buffer, b"456789".to_vec());
    // The ACK of everything sent empties the buffer and stops the timer.
    process_existing_tcb(&mut tcb, &ack_only(110), b"", 0);
    assert_eq!(tcb.snd_una, 110);
    assert!(tcb.send_buffer.is_empty());
    assert_eq!(tcb.retransmit_at, None);
    assert_eq!(tcb.retransmit_count, 0);
}

#[test]
fn retransmission_resends_all_unacked_bytes() {
    let mut tcb = sending_tcb();
    process_existing_tcb(&mut tcb, &ack_only(104), b"", 0);
    let seg = build_retransmit(&tcb);
    assert_eq!(seg.seq, 104);
    assert_eq!(seg.ack, 1000);
    assert_eq!(seg.payload, b"456789".to_vec());
    assert_eq!(seg.flags, TCP_PSH | TCP_ACK);
    assert_eq!(seg.dst_port, 80);
}

#[test]
fn time_wait_expires_without_resending() {
    let mut m = TcpManager::new();
    let (key, _) = m.initiate_connect([10, 0, 0, 2], [10, 0, 0, 1], 80, 0);
    let key = key.expect("a connection");
    {
        let t = m.get_mut(&key).expect("present");
        t.state = TcpState::TimeWait;
        t.retransmit_at = Some(1000);
    }
    assert!(m.poll_retransmit(500).is_empty());
    assert!(m.get(&key).is_some());
    assert!(m.poll_retransmit(2000).is_empty());
    assert!(m.get(&key).is_none());
}
