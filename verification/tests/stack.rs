use nettools::arp::{build_arp_reply, build_arp_request, parse_arp, ARP_OP_REPLY, ARP_OP_REQUEST};
use nettools::ethernet::{build_frame, parse_frame, BROADCAST_MAC, ETH_TYPE_ARP, ETH_TYPE_IPV4};
use nettools::ip::{build_ipv4, parse_ipv4, ICMP_ECHO_REPLY, IP_PROTO_ICMP, IP_PROTO_TCP};
use nettools::ping::build_echo_request;
use nettools::stack::StackCore;
use nettools::tcp::{build_tcp_segment, parse_tcp, TcpState, TCP_ACK, TCP_RST, TCP_SYN};

const OUR_IP: [u8; 4] = [10, 0, 0, 2];
const OUR_MAC: [u8; 6] = [0x02, 0, 0, 0, 0, 0x02];
const PEER_IP: [u8; 4] = [10, 0, 0, 1];
const PEER_MAC: [u8; 6] = [0x02, 0, 0, 0, 0, 0x01];
const NOW: u64 = 5_000;

fn ip_frame(protocol: u8, payload: &[u8]) -> Vec<u8> {
    let packet = build_ipv4(PEER_IP, OUR_IP, protocol, 64, payload);
    build_frame(OUR_MAC, PEER_MAC, ETH_TYPE_IPV4, &packet)
}

#[test]
fn arp_request_for_our_address_is_answered() {
    let mut core = StackCore::new(OUR_IP, OUR_MAC);
    let req = build_arp_request(PEER_MAC, PEER_IP, OUR_IP);
    let frame = build_frame(BROADCAST_MAC, PEER_MAC, ETH_TYPE_ARP, &req);
    let out = core.dispatch(&frame, NOW);
    assert_eq!(out.len(), 1);
    let (hdr, payload) = parse_frame(&out[0]).unwrap();
    assert_eq!(hdr.dst, PEER_MAC);
    assert_eq!(hdr.src, OUR_MAC);
    assert_eq!(hdr.ethertype, ETH_TYPE_ARP);
    let pkt = parse_arp(payload).unwrap();
    assert_eq!(pkt.oper, ARP_OP_REPLY);
    assert_eq!(pkt.sha, OUR_MAC);
    assert_eq!(pkt.spa, OUR_IP);
    assert_eq!(pkt.tha, PEER_MAC);
    assert_eq!(pkt.tpa, PEER_IP);
    // The requester was learned on the way.
    assert_eq!(core.arp.lookup_at(PEER_IP, NOW), Some(PEER_MAC));
}

#[test]
fn arp_request_for_another_address_is_ignored() {
    let mut core = StackCore::new(OUR_IP, OUR_MAC);
    let req = build_arp_request(PEER_MAC, PEER_IP, [10, 0, 0, 9]);
    let frame = build_frame(BROADCAST_MAC, PEER_MAC, ETH_TYPE_ARP, &req);
    assert!(core.dispatch(&frame, NOW).is_empty());
}

#[test]
fn echo_request_gets_echo_reply() {
    let mut core = StackCore::new(OUR_IP, OUR_MAC);
    let echo = build_echo_request(0x42, 7, b"ping");
    let out = core.dispatch(&ip_frame(IP_PROTO_ICMP, &echo), NOW);
    assert_eq!(out.len(), 1);
    let (hdr, payload) = parse_frame(&out[0]).unwrap();
    assert_eq!(hdr.dst, PEER_MAC);
    assert_eq!(hdr.ethertype, ETH_TYPE_IPV4);
    let (ip, body) = parse_ipv4(payload).unwrap();
    assert_eq!(ip.src, OUR_IP);
    assert_eq!(ip.dst, PEER_IP);
    assert_eq!(ip.protocol, IP_PROTO_ICMP);
    assert_eq!(body[0], ICMP_ECHO_REPLY);
    assert_eq!(&body[4..8], &echo[4..8]);
    assert_eq!(&body[8..], b"ping");
}

#[test]
fn short_frames_and_unknown_types_are_dropped() {
    let mut core = StackCore::new(OUR_IP, OUR_MAC);
    assert!(core.dispatch(&[1, 2, 3], NOW).is_empty());
    let frame = build_frame(OUR_MAC, PEER_MAC, 0x86dd, &[0u8; 40]);
    assert!(core.dispatch(&frame, NOW).is_empty());
}

#[test]
fn segment_without_connection_is_reset() {
    let mut core = StackCore::new(OUR_IP, OUR_MAC);
    let seg = build_tcp_segment(PEER_IP, OUR_IP, 40000, 80, 1000, 0, TCP_SYN, 65535, &[]);
    let out = core.dispatch(&ip_frame(IP_PROTO_TCP, &seg), NOW);
    assert_eq!(out.len(), 1);
    let (_, payload) = parse_frame(&out[0]).unwrap();
    let (ip, body) = parse_ipv4(payload).unwrap();
    assert_eq!(ip.protocol, IP_PROTO_TCP);
    let (h, data) = parse_tcp(body).unwrap();
    assert_eq!(h.flags, TCP_RST | TCP_ACK);
    // With no connection to take a port from, the reset leaves from port 0.
    assert_eq!(h.src_port, 0);
    assert_eq!(h.dst_port, 40000);
    assert_eq!(h.seq, 0);
    assert_eq!(h.ack, 1001);
    assert!(data.is_empty());
}

#[test]
fn segment_with_bad_checksum_is_dropped() {
    let mut core = StackCore::new(OUR_IP, OUR_MAC);
    let mut seg = build_tcp_segment(PEER_IP, OUR_IP, 40000, 80, 1000, 0, TCP_SYN, 65535, &[]);
    seg[16] ^= 0xff;
    assert!(core.dispatch(&ip_frame(IP_PROTO_TCP, &seg), NOW).is_empty());
}

#[test]
fn connect_waits_for_arp_then_sends_syn() {
    let mut core = StackCore::new(OUR_IP, OUR_MAC);
    let (sock, out) = core.connect(PEER_IP, 80, NOW);
    let sock = sock.unwrap();
    assert_eq!(core.state(&sock), Some(TcpState::SynSent));
    assert!(!core.is_established(&sock));
    assert!(!core.is_closed(&sock));
    // No address for the peer yet: a broadcast request goes out.
    assert_eq!(out.len(), 1);
    let (hdr, payload) = parse_frame(&out[0]).unwrap();
    assert_eq!(hdr.dst, BROADCAST_MAC);
    let req = parse_arp(payload).unwrap();
    assert_eq!(req.oper, ARP_OP_REQUEST);
    assert_eq!(req.tpa, PEER_IP);
    // The reply releases the SYN that waited for it.
    let reply = build_arp_reply(PEER_MAC, PEER_IP, OUR_MAC, OUR_IP);
    let out = core.dispatch(&build_frame(OUR_MAC, PEER_MAC, ETH_TYPE_ARP, &reply), NOW + 10);
    assert_eq!(out.len(), 1);
    let (hdr, payload) = parse_frame(&out[0]).unwrap();
    assert_eq!(hdr.dst, PEER_MAC);
    let (_, body) = parse_ipv4(payload).unwrap();
    let (h, _) = parse_tcp(body).unwrap();
    assert_eq!(h.flags, TCP_SYN);
    assert_eq!(h.dst_port, 80);
    assert_eq!(h.src_port, sock.key.1);
}

#[test]
fn handshake_then_send_and_close() {
    let mut core = StackCore::new(OUR_IP, OUR_MAC);
    // Learn the peer first so that frames go out at once.
    let req = build_arp_request(PEER_MAC, PEER_IP, OUR_IP);
    core.dispatch(&build_frame(BROADCAST_MAC, PEER_MAC, ETH_TYPE_ARP, &req), NOW);
    let (sock, out) = core.connect(PEER_IP, 80, NOW);
    let sock = sock.unwrap();
    let (_, payload) = parse_frame(&out[0]).unwrap();
    let (_, body) = parse_ipv4(payload).unwrap();
    let (syn, _) = parse_tcp(body).unwrap();
    // SYN-ACK from the peer.
    let synack = build_tcp_segment(PEER_IP, OUR_IP, 80, sock.key.1, 5000, syn.seq.wrapping_add(1), TCP_SYN | TCP_ACK, 65535, &[]);
    let out = core.dispatch(&ip_frame(IP_PROTO_TCP, &synack), NOW + 1);
    assert!(core.is_established(&sock));
    assert_eq!(out.len(), 1);
    let (_, payload) = parse_frame(&out[0]).unwrap();
    let (_, body) = parse_ipv4(payload).unwrap();
    let (ack, _) = parse_tcp(body).unwrap();
    assert_eq!(ack.flags, TCP_ACK);
    assert_eq!(ack.ack, 5001);
    // Data goes out in one segment.
    assert!(core.can_send(&sock, 5));
    let (n, out) = core.send(&sock, b"hello", NOW + 2);
    assert_eq!(n, 5);
    assert_eq!(out.len(), 1);
    let (_, payload) = parse_frame(&out[0]).unwrap();
    let (_, body) = parse_ipv4(payload).unwrap();
    let (h, data) = parse_tcp(body).unwrap();
    assert_eq!(data, b"hello");
    assert_eq!(h.seq, syn.seq.wrapping_add(1));
    // Data from the peer is received.
    let push = build_tcp_segment(PEER_IP, OUR_IP, 80, sock.key.1, 5001, h.seq.wrapping_add(5), TCP_ACK, 65535, b"world");
    core.dispatch(&ip_frame(IP_PROTO_TCP, &push), NOW + 3);
    assert_eq!(core.recv(&sock), b"world".to_vec());
    assert!(core.recv(&sock).is_empty());
    // Closing sends a FIN.
    let out = core.close(&sock, NOW + 4);
    assert_eq!(out.len(), 1);
    let (_, payload) = parse_frame(&out[0]).unwrap();
    let (_, body) = parse_ipv4(payload).unwrap();
    let (fin, _) = parse_tcp(body).unwrap();
    assert_eq!(fin.flags & 0x01, 0x01);
    assert_eq!(core.state(&sock), Some(TcpState::FinWait1));
}

#[test]
fn unresolved_address_is_asked_again_then_given_up() {
    let mut core = StackCore::new(OUR_IP, OUR_MAC);
    let (_, out) = core.connect(PEER_IP, 80, NOW);
    assert_eq!(out.len(), 1);
    let (frames, gone) = core.arp_tick(NOW + 1000);
    assert!(frames.is_empty() && gone.is_empty());
    let (frames, gone) = core.arp_tick(NOW + 3000);
    assert_eq!(frames.len(), 1);
    assert!(gone.is_empty());
    let (frames, _) = core.arp_tick(NOW + 6000);
    assert_eq!(frames.len(), 1);
    let (frames, gone) = core.arp_tick(NOW + 9000);
    assert!(frames.is_empty());
    assert_eq!(gone, vec![PEER_IP]);
}

#[test]
fn syn_is_retransmitted_when_its_timer_fires() {
    let mut core = StackCore::new(OUR_IP, OUR_MAC);
    let req = build_arp_request(PEER_MAC, PEER_IP, OUR_IP);
    core.dispatch(&build_frame(BROADCAST_MAC, PEER_MAC, ETH_TYPE_ARP, &req), NOW);
    let (sock, _) = core.connect(PEER_IP, 80, NOW);
    let sock = sock.unwrap();
    assert!(core.tcp_retransmit(NOW + 500).is_empty());
    let out = core.tcp_retransmit(NOW + 1000);
    assert_eq!(out.len(), 1);
    let (_, payload) = parse_frame(&out[0]).unwrap();
    let (_, body) = parse_ipv4(payload).unwrap();
    let (h, _) = parse_tcp(body).unwrap();
    assert_eq!(h.flags, TCP_SYN);
    assert_eq!(h.src_port, sock.key.1);
}
