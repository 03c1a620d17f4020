//! The protocol core of the userspace stack: what it does with a frame
//! read from the TAP device, with the clock's ticks and with the calls of
//! its socket API. Each step returns the Ethernet frames to write; the
//! device itself stays with the caller.

use vstd::prelude::*;
use crate::keyed::{keys_unique, to_map, index_of, lemma_index_of, lemma_update, lemma_map_dom, lemma_filter_unique};
use crate::util::{sum_fits, lemma_short_sum_fits};
use crate::util::checksum_spec;
use crate::ip::{
    Ipv4Header, build_ipv4, ipv4_packet, parse_ipv4, ipv4_accepts, ipv4_fields, ihl_of,
    build_icmp_echo_reply, echo_reply_of, echo_reply_base, IP_PROTO_TCP, IP_PROTO_ICMP,
    ICMP_ECHO_REQUEST,
};
use crate::arp::{
    ArpCache, ArpEntry, ArpPacket, PendingEntry, ip_key, ip_key_of, lemma_ip_key_injective, expired,
    pending_ip, pending_key, retry_pred, give_up_pred, keep_pred, arp_bytes, arp_fields, parse_arp, build_arp_request, build_arp_reply,
    ARP_HTYPE_ETHER, ARP_PTYPE_IPV4, ARP_HLEN_ETHER, ARP_PLEN_IPV4, ARP_OP_REQUEST, ARP_OP_REPLY,
    ARP_PKT_LEN,
};
use crate::ethernet::{build_frame, frame_bytes, parse_frame, BROADCAST_MAC, ETH_TYPE_ARP, ETH_TYPE_IPV4, ETH_HDR_LEN};
use crate::util::be16;
use crate::tcp::{
    ConnKey, TcpManager, ephemeral_port, TcbView, OutgoingSegment, SegView, key_of, entry_key, time_ok, segs_view,
    src_port_of, tcp_segment, tcp_checksum_input, build_tcp_segment, DEFAULT_WINDOW, TcpHeader,
    parse_tcp, tcp_accepts, tcp_fields, tcp_hdr_len_of, tcp_verify_input, verify_tcp_checksum,
    tcb_step, rst_reply, retx_out, retx_all, retx_update, retransmit_seg, pairs_view,
    lemma_filter_member, ctl_seg, syn_sent_tcb, close_step, TcpState, TCP_SYN,
};
use crate::socket::{TcpSocket, send_step};

verus! {

/// An unresolved address as the contracts see it.
pub struct PendingView {
    pub ip: [u8; 4],
    pub packets: Seq<Seq<u8>>,
    pub last_request: u64,
    pub retries: u32,
}

pub open spec fn pending_view(e: PendingEntry) -> PendingView {
    PendingView {
        ip: e.ip,
        packets: e.packets@.map_values(|p: Vec<u8>| p@),
        last_request: e.last_request,
        retries: e.retries,
    }
}

/// The unresolved addresses of an ARP cache: by address key, and in the
/// order they were first queued.
pub struct PendingState {
    pub map: Map<u32, PendingView>,
    pub order: Seq<[u8; 4]>,
}

pub open spec fn pending_of(a: ArpCache) -> PendingState {
    PendingState {
        map: a.pending_map().map_values(|e: PendingEntry| pending_view(e)),
        order: a.pending_seq().map_values(pending_ip()),
    }
}

/// The MAC bound to `ip` in `b` and still valid at `now`.
pub open spec fn bound_mac(b: Map<u32, ArpEntry>, ip: [u8; 4], now: u64) -> Option<[u8; 6]> {
    let k = ip_key(ip);
    if b.dom().contains(k) && !expired(b[k].learned, now) {
        Some(b[k].mac)
    } else {
        None
    }
}

/// The broadcast frame asking who has `ip`.
pub open spec fn arp_request_frame(our_ip: [u8; 4], our_mac: [u8; 6], ip: [u8; 4]) -> Seq<u8> {
    frame_bytes(
        BROADCAST_MAC@,
        our_mac@,
        ETH_TYPE_ARP,
        arp_bytes(
            ARP_HTYPE_ETHER,
            ARP_PTYPE_IPV4,
            ARP_HLEN_ETHER,
            ARP_PLEN_IPV4,
            ARP_OP_REQUEST,
            our_mac@,
            our_ip@,
            seq![0u8, 0u8, 0u8, 0u8, 0u8, 0u8],
            ip@,
        ),
    )
}

/// What routing an IP packet to `dst` does: a frame to the bound MAC when
/// there is one; otherwise the packet waits for the address, and a request
/// for it is broadcast when nothing waited for it yet.
pub open spec fn route(
    b: Map<u32, ArpEntry>,
    p: PendingState,
    our_ip: [u8; 4],
    our_mac: [u8; 6],
    dst: [u8; 4],
    pkt: Seq<u8>,
    now: u64,
) -> (PendingState, Seq<Seq<u8>>) {
    let k = ip_key(dst);
    match bound_mac(b, dst, now) {
        Some(mac) => (p, seq![frame_bytes(mac@, our_mac@, ETH_TYPE_IPV4, pkt)]),
        None => if p.map.dom().contains(k) {
            (
                PendingState {
                    map: p.map.insert(k, PendingView { packets: p.map[k].packets.push(pkt), ..p.map[k] }),
                    order: p.order,
                },
                seq![],
            )
        } else {
            (
                PendingState {
                    map: p.map.insert(k, PendingView { ip: dst, packets: seq![pkt], last_request: now, retries: 1 }),
                    order: p.order.push(dst),
                },
                seq![arp_request_frame(our_ip, our_mac, dst)],
            )
        },
    }
}

/// What `record_sent` does to a connection table: the retransmission timer
/// of the connection starts unless it runs already.
pub open spec fn sent_model(m: Seq<(ConnKey, TcbView)>, key: ConnKey, now: u64) -> Seq<(ConnKey, TcbView)> {
    let k = key_of(key);
    let tb = to_map(m, entry_key());
    if tb.dom().contains(k) && tb[k].1.retransmit_at is None {
        m.update(
            index_of(m, entry_key(), k),
            (tb[k].0, TcbView { retransmit_at: Some((now + tb[k].1.rto) as u64), ..tb[k].1 }),
        )
    } else {
        m
    }
}

pub open spec fn sent_opt(m: Seq<(ConnKey, TcbView)>, key: Option<ConnKey>, now: u64) -> Seq<(ConnKey, TcbView)> {
    match key {
        Some(k) => sent_model(m, k, now),
        None => m,
    }
}

/// Routing each `(destination, packet)` of `items` in turn.
pub open spec fn route_all(
    b: Map<u32, ArpEntry>,
    p: PendingState,
    our_ip: [u8; 4],
    our_mac: [u8; 6],
    items: Seq<([u8; 4], Seq<u8>)>,
    now: u64,
) -> (PendingState, Seq<Seq<u8>>)
    decreases items.len(),
{
    if items.len() == 0 {
        (p, seq![])
    } else {
        let (p1, f1) = route_all(b, p, our_ip, our_mac, items.drop_last(), now);
        let (p2, f2) = route(b, p1, our_ip, our_mac, items.last().0, items.last().1, now);
        (p2, f1 + f2)
    }
}

/// The IP packet that carries segment `s` from `our_ip:sport` to `dst`.
pub open spec fn seg_packet(our_ip: [u8; 4], dst: [u8; 4], sport: u16, s: SegView) -> Seq<u8> {
    ipv4_packet(
        our_ip@,
        dst@,
        IP_PROTO_TCP,
        64,
        tcp_segment(our_ip@, dst@, sport, s.dst_port, s.seq, s.ack, s.flags, DEFAULT_WINDOW, s.payload),
    )
}

/// The local port a segment leaves from: the connection's, or for a
/// segment of no connection the port of the first connection to the same
/// remote address and port (0 when there is none).
pub open spec fn seg_port(key: Option<ConnKey>, m: Seq<(ConnKey, TcbView)>, dst: [u8; 4], s: SegView) -> u16 {
    match key {
        Some(k) => k.1,
        None => match src_port_of(m, dst, s.dst_port) {
            Some(p) => p,
            None => 0,
        },
    }
}

pub open spec fn seg_items(
    segs: Seq<SegView>,
    key: Option<ConnKey>,
    m: Seq<(ConnKey, TcbView)>,
    our_ip: [u8; 4],
    dst: [u8; 4],
) -> Seq<([u8; 4], Seq<u8>)> {
    segs.map_values(|s: SegView| (dst, seg_packet(our_ip, dst, seg_port(key, m, dst, s), s)))
}

proof fn lemma_sent_idempotent(m: Seq<(ConnKey, TcbView)>, key: Option<ConnKey>, now: u64)
    requires
        keys_unique(m, entry_key()),
    ensures
        sent_opt(sent_opt(m, key, now), key, now) == sent_opt(m, key, now),
        keys_unique(sent_opt(m, key, now), entry_key()),
{
    if let Some(c) = key {
        let k = key_of(c);
        let tb = to_map(m, entry_key());
        lemma_index_of(m, entry_key(), k);
        if tb.dom().contains(k) && tb[k].1.retransmit_at is None {
            let i = index_of(m, entry_key(), k);
            let e = (tb[k].0, TcbView { retransmit_at: Some((now + tb[k].1.rto) as u64), ..tb[k].1 });
            lemma_update(m, entry_key(), i, e);
        }
    }
}

proof fn lemma_segment_sum_fits(
    src: [u8; 4],
    dst: [u8; 4],
    sport: u16,
    dport: u16,
    sq: u32,
    ack: u32,
    flags: u8,
    window: u16,
    payload: Seq<u8>,
)
    requires
        payload.len() <= MAX_SEND_BUFFER,
    ensures
        sum_fits(tcp_checksum_input(src@, dst@, sport, dport, sq, ack, flags, window, payload)),
{
    let s = tcp_checksum_input(src@, dst@, sport, dport, sq, ack, flags, window, payload);
    assert(s.len() == 32 + payload.len());
    lemma_short_sum_fits(s);
}

/// The bindings after an address is learned from a packet's source
/// (nothing is learned from an all-zero address).
pub open spec fn learned(b: Map<u32, ArpEntry>, ip: [u8; 4], mac: [u8; 6], now: u64) -> Map<u32, ArpEntry> {
    if ip@ == seq![0u8, 0u8, 0u8, 0u8] || mac@ == seq![0u8, 0u8, 0u8, 0u8, 0u8, 0u8] {
        b
    } else {
        b.insert(ip_key(ip), ArpEntry { ip, mac, learned: now })
    }
}

/// What the connection table does with a segment from `remote_ip`: the
/// connection's key (none when there is none), the segments to answer,
/// and the new table.
pub open spec fn process_spec(
    m: Seq<(ConnKey, TcbView)>,
    local_ip: [u8; 4],
    remote_ip: [u8; 4],
    h: TcpHeader,
    p: Seq<u8>,
    now: u64,
) -> (Option<ConnKey>, Seq<SegView>, Seq<(ConnKey, TcbView)>) {
    let key: ConnKey = (local_ip, h.dst_port, remote_ip, h.src_port);
    let k = key_of(key);
    let tb = to_map(m, entry_key());
    if tb.dom().contains(k) {
        let (t2, out) = tcb_step(tb[k].1, h, p, now);
        (Some(key), out, m.update(index_of(m, entry_key(), k), (tb[k].0, t2)))
    } else {
        (None, rst_reply(h, p), m)
    }
}

/// A TCP segment that passed its checks: the table processes it and the
/// answers are sent back to the source.
pub open spec fn tcp_in(
    s0: StackCore,
    s1: StackCore,
    frames: Seq<Seq<u8>>,
    b1: Map<u32, ArpEntry>,
    src: [u8; 4],
    th: TcpHeader,
    data: Seq<u8>,
    now: u64,
) -> bool {
    let (key, segs, m1) = process_spec(s0.tcp.model(), s0.our_ip, src, th, data, now);
    let (p, f) = route_all(b1, pending_of(s0.arp), s0.our_ip, s0.our_mac, seg_items(segs, key, m1, s0.our_ip, src), now);
    &&& pending_of(s1.arp) == p
    &&& frames == f
    &&& s1.tcp.model() == if segs.len() > 0 { sent_opt(m1, key, now) } else { m1 }
}

/// The data a TCP segment carries after its header.
pub open spec fn seg_data(s: Seq<u8>) -> Seq<u8> {
    s.subrange(tcp_hdr_len_of(s), s.len() as int)
}

/// The ARP and TCP state are as they were, and nothing is sent.
pub open spec fn quiet(s0: StackCore, s1: StackCore, frames: Seq<Seq<u8>>) -> bool {
    &&& pending_of(s1.arp) == pending_of(s0.arp)
    &&& s1.tcp.model() == s0.tcp.model()
    &&& frames.len() == 0
}

/// An IPv4 packet with header `h` and payload `body`, from `src_mac`: its
/// source is learned; an echo request is answered; a TCP segment with a
/// valid checksum that parses goes to the connection table; anything else
/// is dropped.
pub open spec fn ipv4_body_in(
    s0: StackCore,
    s1: StackCore,
    frames: Seq<Seq<u8>>,
    h: Ipv4Header,
    src_mac: [u8; 6],
    body: Seq<u8>,
    now: u64,
) -> bool {
    let b1 = learned(s0.arp.bindings(), h.src, src_mac, now);
    &&& s1.our_ip == s0.our_ip
    &&& s1.our_mac == s0.our_mac
    &&& s1.arp.bindings() == b1
    &&& if h.protocol == IP_PROTO_ICMP && body.len() >= 8 && body[0] == ICMP_ECHO_REQUEST {
        let reply = ipv4_packet(s0.our_ip@, h.src@, IP_PROTO_ICMP, 64, echo_reply_of(body));
        let (p, f) = route(b1, pending_of(s0.arp), s0.our_ip, s0.our_mac, h.src, reply, now);
        &&& pending_of(s1.arp) == p
        &&& frames == f
        &&& s1.tcp.model() == s0.tcp.model()
    } else if h.protocol == IP_PROTO_TCP && checksum_spec(tcp_verify_input(h.src@, h.dst@, body)) == 0
        && tcp_accepts(body) {
        forall|th: TcpHeader| #[trigger] tcp_fields(th, body) ==> tcp_in(
            s0,
            s1,
            frames,
            b1,
            h.src,
            th,
            seg_data(body),
            now,
        )
    } else {
        quiet(s0, s1, frames)
    }
}

/// An IPv4 packet `pkt` arriving from `src_mac`: dropped unless its header
/// parses, handled as `ipv4_body_in` says otherwise.
pub open spec fn ipv4_in(s0: StackCore, s1: StackCore, frames: Seq<Seq<u8>>, src_mac: [u8; 6], pkt: Seq<u8>, now: u64) -> bool {
    if ipv4_accepts(pkt) {
        forall|h: Ipv4Header| #[trigger] ipv4_fields(h, pkt) ==> ipv4_body_in(
            s0,
            s1,
            frames,
            h,
            src_mac,
            pkt.subrange(ihl_of(pkt), pkt.len() as int),
            now,
        )
    } else {
        &&& s1.our_ip == s0.our_ip
        &&& s1.our_mac == s0.our_mac
        &&& s1.arp.bindings() == s0.arp.bindings()
        &&& quiet(s0, s1, frames)
    }
}

/// Nothing changes and nothing is sent.
pub open spec fn unchanged(s0: StackCore, s1: StackCore, frames: Seq<Seq<u8>>) -> bool {
    &&& s1.our_ip == s0.our_ip
    &&& s1.our_mac == s0.our_mac
    &&& s1.arp.bindings() == s0.arp.bindings()
    &&& quiet(s0, s1, frames)
}

/// The frames that carry the packets that waited for a MAC, once it is
/// known.
pub open spec fn release_frames(packets: Seq<Seq<u8>>, mac: [u8; 6], our_mac: [u8; 6]) -> Seq<Seq<u8>> {
    packets.map_values(|q: Seq<u8>| frame_bytes(mac@, our_mac@, ETH_TYPE_IPV4, q))
}

/// An ARP packet `a`: its sender is learned; a request for our address is
/// answered; a reply binds the sender for good and releases the packets
/// that waited for it.
pub open spec fn arp_packet_in(s0: StackCore, s1: StackCore, frames: Seq<Seq<u8>>, a: ArpPacket, now: u64) -> bool {
    let b1 = learned(s0.arp.bindings(), a.spa, a.sha, now);
    let p0 = pending_of(s0.arp);
    let k = ip_key(a.spa);
    &&& s1.our_ip == s0.our_ip
    &&& s1.our_mac == s0.our_mac
    &&& s1.tcp.model() == s0.tcp.model()
    &&& if a.oper == ARP_OP_REQUEST && a.tpa@ == s0.our_ip@ {
        &&& s1.arp.bindings() == b1
        &&& pending_of(s1.arp) == p0
        &&& frames == seq![
            frame_bytes(
                a.sha@,
                s0.our_mac@,
                ETH_TYPE_ARP,
                arp_bytes(
                    ARP_HTYPE_ETHER,
                    ARP_PTYPE_IPV4,
                    ARP_HLEN_ETHER,
                    ARP_PLEN_IPV4,
                    ARP_OP_REPLY,
                    s0.our_mac@,
                    s0.our_ip@,
                    a.sha@,
                    a.spa@,
                ),
            ),
        ]
    } else if a.oper == ARP_OP_REPLY {
        &&& s1.arp.bindings() == b1.insert(k, ArpEntry { ip: a.spa, mac: a.sha, learned: now })
        &&& if p0.map.dom().contains(k) {
            &&& pending_of(s1.arp) == (PendingState {
                map: p0.map.remove(k),
                order: p0.order.remove(index_of(s0.arp.pending_seq(), pending_key(), k)),
            })
            &&& frames == release_frames(p0.map[k].packets, a.sha, s0.our_mac)
        } else {
            &&& pending_of(s1.arp) == p0
            &&& frames.len() == 0
        }
    } else {
        &&& s1.arp.bindings() == b1
        &&& pending_of(s1.arp) == p0
        &&& frames.len() == 0
    }
}

/// An ARP packet in the payload `pkt` of a frame.
pub open spec fn arp_in(s0: StackCore, s1: StackCore, frames: Seq<Seq<u8>>, pkt: Seq<u8>, now: u64) -> bool {
    if pkt.len() < ARP_PKT_LEN {
        unchanged(s0, s1, frames)
    } else {
        forall|a: ArpPacket| #[trigger] arp_fields(a, pkt) ==> arp_packet_in(s0, s1, frames, a, now)
    }
}

/// A frame read from the device: an ARP or IPv4 payload is handled, any
/// other frame is dropped.
pub open spec fn frame_in(s0: StackCore, s1: StackCore, frames: Seq<Seq<u8>>, data: Seq<u8>, now: u64) -> bool {
    if data.len() < ETH_HDR_LEN {
        unchanged(s0, s1, frames)
    } else {
        let ethertype = be16(data[12], data[13]);
        let payload = data.subrange(ETH_HDR_LEN as int, data.len() as int);
        if ethertype == ETH_TYPE_ARP {
            arp_in(s0, s1, frames, payload, now)
        } else if ethertype == ETH_TYPE_IPV4 {
            forall|mac: [u8; 6]|
                #![trigger ipv4_in(s0, s1, frames, mac, payload, now)]
                mac@ == data.subrange(6, 12) ==> ipv4_in(s0, s1, frames, mac, payload, now)
        } else {
            unchanged(s0, s1, frames)
        }
    }
}

proof fn lemma_arp_packet_unique(a: ArpPacket, b: ArpPacket, s: Seq<u8>)
    requires
        arp_fields(a, s),
        arp_fields(b, s),
    ensures
        a == b,
{
    assert(a.sha =~= b.sha);
    assert(a.spa =~= b.spa);
    assert(a.tha =~= b.tha);
    assert(a.tpa =~= b.tpa);
}

proof fn lemma_ipv4_header_unique(a: Ipv4Header, b: Ipv4Header, s: Seq<u8>)
    requires
        ipv4_fields(a, s),
        ipv4_fields(b, s),
    ensures
        a == b,
{
    assert(a.src =~= b.src);
    assert(a.dst =~= b.dst);
}

proof fn lemma_tcp_header_unique(a: TcpHeader, b: TcpHeader, s: Seq<u8>)
    requires
        tcp_fields(a, s),
        tcp_fields(b, s),
    ensures
        a == b,
{
}

/// A connection's step never sends data and never grows its send buffer;
/// neither does a reset.
proof fn lemma_step_small(t: TcbView, h: TcpHeader, p: Seq<u8>, now: u64)
    ensures
        tcb_step(t, h, p, now).0.send_buffer.len() <= t.send_buffer.len(),
        forall|i: int| 0 <= i < tcb_step(t, h, p, now).1.len() ==> (#[trigger] tcb_step(t, h, p, now).1[i]).payload.len() == 0,
        forall|i: int| 0 <= i < rst_reply(h, p).len() ==> (#[trigger] rst_reply(h, p)[i]).payload.len() == 0,
{
}

/// A request for an unresolved address is recorded as sent at `now`.
pub open spec fn bump(p: Map<u32, PendingView>, ip: [u8; 4], now: u64) -> Map<u32, PendingView> {
    let k = ip_key(ip);
    p.insert(k, PendingView { last_request: now, retries: (p[k].retries + 1) as u32, ..p[k] })
}

pub open spec fn bump_all(p: Map<u32, PendingView>, ips: Seq<[u8; 4]>, now: u64) -> Map<u32, PendingView>
    decreases ips.len(),
{
    if ips.len() == 0 {
        p
    } else {
        bump(bump_all(p, ips.drop_last(), now), ips.last(), now)
    }
}

/// The unresolved addresses still waited for after a tick at `now`.
pub open spec fn kept_pending(a: ArpCache, now: u64) -> Seq<PendingEntry> {
    a.pending_seq().filter(crate::arp::keep_pred(now))
}

/// The addresses whose request is sent again at `now`.
pub open spec fn retry_ips(a: ArpCache, now: u64) -> Seq<[u8; 4]> {
    a.pending_seq().filter(retry_pred(now)).map_values(pending_ip())
}

/// The connections a timer pass retransmits for, in table order.
pub open spec fn retx_keys(m: Seq<(ConnKey, TcbView)>, now: u64) -> Seq<ConnKey> {
    retx_out(m, now).map_values(|e: (ConnKey, SegView)| e.0)
}

/// The packets a timer pass retransmits, with their destinations.
pub open spec fn retx_items(m: Seq<(ConnKey, TcbView)>, our_ip: [u8; 4], now: u64) -> Seq<([u8; 4], Seq<u8>)> {
    retx_out(m, now).map_values(|e: (ConnKey, SegView)| (e.0.2, seg_packet(our_ip, e.0.2, e.0.1, e.1)))
}

pub open spec fn sent_all(m: Seq<(ConnKey, TcbView)>, keys: Seq<ConnKey>, now: u64) -> Seq<(ConnKey, TcbView)>
    decreases keys.len(),
{
    if keys.len() == 0 {
        m
    } else {
        sent_model(sent_all(m, keys.drop_last(), now), keys.last(), now)
    }
}

proof fn lemma_bump_all_other(p: Map<u32, PendingView>, ips: Seq<[u8; 4]>, now: u64, k: u32)
    requires
        forall|i: int| 0 <= i < ips.len() ==> ip_key(#[trigger] ips[i]) != k,
    ensures
        bump_all(p, ips, now).dom().contains(k) == p.dom().contains(k),
        p.dom().contains(k) ==> bump_all(p, ips, now)[k] == p[k],
    decreases ips.len(),
{
    if ips.len() > 0 {
        let q = ips.drop_last();
        assert forall|i: int| 0 <= i < q.len() implies ip_key(#[trigger] q[i]) != k by {
            assert(q[i] == ips[i]);
        }
        lemma_bump_all_other(p, q, now, k);
        assert(ip_key(ips[ips.len() - 1]) != k);
    }
}

/// Every retransmitted segment comes from a send buffer.
proof fn lemma_retx_small(m: Seq<(ConnKey, TcbView)>, now: u64)
    requires
        buffers_fit(m),
    ensures
        forall|i: int| 0 <= i < retx_out(m, now).len() ==> (#[trigger] retx_out(m, now)[i]).1.payload.len() <= MAX_SEND_BUFFER,
    decreases m.len(),
{
    if m.len() > 0 {
        let q = m.drop_last();
        assert forall|i: int| 0 <= i < q.len() implies (#[trigger] q[i]).1.send_buffer.len() <= MAX_SEND_BUFFER by {
            assert(q[i] == m[i]);
        }
        lemma_retx_small(q, now);
        let e = m.last();
        assert(e == m[m.len() - 1]);
        let head = retx_out(q, now);
        assert forall|i: int| 0 <= i < retx_out(m, now).len() implies (#[trigger] retx_out(m, now)[i]).1.payload.len() <= MAX_SEND_BUFFER by {
            if i < head.len() {
                assert(retx_out(m, now)[i] == head[i]);
            } else {
                let t2 = retx_update(e.1, now).0;
                assert(t2.send_buffer == e.1.send_buffer);
                assert(retx_out(m, now)[i] == (e.0, retransmit_seg(t2)));
            }
        }
    }
}

proof fn lemma_route_one(
    b: Map<u32, ArpEntry>,
    p: PendingState,
    our_ip: [u8; 4],
    our_mac: [u8; 6],
    items: Seq<([u8; 4], Seq<u8>)>,
    now: u64,
)
    requires
        items.len() == 1,
    ensures
        route_all(b, p, our_ip, our_mac, items, now) == route(b, p, our_ip, our_mac, items[0].0, items[0].1, now),
{
    assert(items.drop_last() =~= Seq::<([u8; 4], Seq<u8>)>::empty());
    assert(route_all(b, p, our_ip, our_mac, items.drop_last(), now) == (p, Seq::<Seq<u8>>::empty()));
    assert(items.last() == items[0]);
    let f = route(b, p, our_ip, our_mac, items[0].0, items[0].1, now).1;
    assert(Seq::<Seq<u8>>::empty() + f =~= f);
}

proof fn lemma_close_small(t: TcbView, now: u64)
    ensures
        close_step(t, now).0.send_buffer == t.send_buffer,
        close_step(t, now).0.remote_ip == t.remote_ip,
        forall|i: int| 0 <= i < close_step(t, now).1.len() ==> (#[trigger] close_step(t, now).1[i]).payload.len() == 0,
{
}

/// Data may be queued on `k`'s connection: it is not established, or its
/// send buffer has room for `len` more bytes.
pub open spec fn send_fits(tb: Map<(u32, u16, u32, u16), (ConnKey, TcbView)>, k: (u32, u16, u32, u16), len: nat) -> bool {
    tb.dom().contains(k) && tb[k].1.state == TcpState::Established ==> tb[k].1.send_buffer.len() + len <= MAX_SEND_BUFFER
}

/// The largest frame the stack reads from the device.
pub const MAX_FRAME: usize = 65536;

/// The longest send buffer whose segments the 32-bit checksum sum covers.
pub const MAX_SEND_BUFFER: usize = 131040;

/// Every connection's send buffer fits in one checksummed segment.
pub open spec fn buffers_fit(m: Seq<(ConnKey, TcbView)>) -> bool {
    forall|i: int| 0 <= i < m.len() ==> (#[trigger] m[i]).1.send_buffer.len() <= MAX_SEND_BUFFER
}

/// The stack's protocol state: its ARP cache and TCP connections, and its
/// own addresses.
pub struct StackCore {
    pub arp: ArpCache,
    pub tcp: TcpManager,
    pub our_ip: [u8; 4],
    pub our_mac: [u8; 6],
}

impl StackCore {
    pub open spec fn wf(&self) -> bool {
        &&& self.arp.wf()
        &&& self.tcp.wf()
        &&& buffers_fit(self.tcp.model())
    }

    pub fn new(our_ip: [u8; 4], our_mac: [u8; 6]) -> (r: Self)
        ensures
            r.wf(),
            r.our_ip == our_ip,
            r.our_mac == our_mac,
            r.arp.bindings() == Map::<u32, ArpEntry>::empty(),
            r.arp.pending_seq() == Seq::<PendingEntry>::empty(),
            r.tcp.model() == Seq::<(ConnKey, TcbView)>::empty(),
    {
        StackCore { arp: ArpCache::new(), tcp: TcpManager::new(), our_ip, our_mac }
    }

    /// Sends an IP packet to `dst_ip`, starting the retransmission timer of
    /// `conn_key`'s connection; returns the frames to write.
    pub fn send_frame(&mut self, dst_ip: [u8; 4], ip_packet: Vec<u8>, conn_key: Option<ConnKey>, now: u64) -> (r: Vec<Vec<u8>>)
        requires
            old(self).wf(),
            time_ok(now),
        ensures
            final(self).wf(),
            final(self).our_ip == old(self).our_ip,
            final(self).our_mac == old(self).our_mac,
            final(self).arp.bindings() == old(self).arp.bindings(),
            (pending_of(final(self).arp), r@.map_values(|f: Vec<u8>| f@)) == route(
                old(self).arp.bindings(),
                pending_of(old(self).arp),
                old(self).our_ip,
                old(self).our_mac,
                dst_ip,
                ip_packet@,
                now,
            ),
            final(self).tcp.model() == sent_opt(old(self).tcp.model(), conn_key, now),
    {
        let ghost pkt = ip_packet@;
        let ghost p0 = pending_of(self.arp);
        let ghost k = ip_key(dst_ip);
        if let Some(key) = conn_key {
            let ghost m = self.tcp.model();
            self.tcp.record_sent(&key, now);
            proof {
                lemma_index_of(m, entry_key(), key_of(key));
                let i = index_of(m, entry_key(), key_of(key));
                assert forall|j: int| 0 <= j < self.tcp.model().len() implies (#[trigger] self.tcp.model()[j]).1.send_buffer.len() <= MAX_SEND_BUFFER by {
                    assert(m[j].1.send_buffer.len() <= MAX_SEND_BUFFER);
                }
            }
        }
        let mut out: Vec<Vec<u8>> = Vec::new();
        match self.arp.lookup_at(dst_ip, now) {
            Some(mac) => {
                let f = build_frame(mac, self.our_mac, ETH_TYPE_IPV4, ip_packet.as_slice());
                out.push(f);
                assert(out@.map_values(|f: Vec<u8>| f@) =~= seq![frame_bytes(mac@, self.our_mac@, ETH_TYPE_IPV4, pkt)]);
            },
            None => {
                let ghost a0 = self.arp;
                let is_new = self.arp.queue_packet(dst_ip, ip_packet, now);
                if is_new {
                    let req = build_arp_request(self.our_mac, self.our_ip, dst_ip);
                    let f = build_frame(BROADCAST_MAC, self.our_mac, ETH_TYPE_ARP, req.as_slice());
                    out.push(f);
                    let ghost a1 = self.arp;
                    self.arp.record_request(dst_ip, now);
                    proof {
                        let e = self.arp.pending_map()[k];
                        assert(e.packets@ == a1.pending_map()[k].packets@);
                        assert(e.packets@.map_values(|p: Vec<u8>| p@) =~= seq![pkt]);
                        assert(pending_of(self.arp).map =~= p0.map.insert(k, PendingView { ip: dst_ip, packets: seq![pkt], last_request: now, retries: 1 }));
                        assert(out@.map_values(|f: Vec<u8>| f@) =~= seq![arp_request_frame(self.our_ip, self.our_mac, dst_ip)]);
                    }
                } else {
                    proof {
                        let e = self.arp.pending_map()[k];
                        let o = a0.pending_map()[k];
                        assert(e.packets@.map_values(|p: Vec<u8>| p@) =~= o.packets@.map_values(|p: Vec<u8>| p@).push(pkt));
                        assert(pending_of(self.arp).map =~= p0.map.insert(k, PendingView { packets: p0.map[k].packets.push(pkt), ..p0.map[k] }));
                        assert(out@.map_values(|f: Vec<u8>| f@) =~= Seq::<Seq<u8>>::empty());
                    }
                }
            },
        }
        out
    }

    /// Sends the segments of one connection (or, with no key, answers to
    /// no connection) to `dst_ip`; returns the frames to write.
    pub fn send_segments_with_key(&mut self, segs: Vec<OutgoingSegment>, key: Option<ConnKey>, dst_ip: [u8; 4], now: u64) -> (r: Vec<Vec<u8>>)
        requires
            old(self).wf(),
            time_ok(now),
            forall|i: int| 0 <= i < segs@.len() ==> (#[trigger] segs@[i]).payload@.len() <= MAX_SEND_BUFFER,
        ensures
            final(self).wf(),
            final(self).our_ip == old(self).our_ip,
            final(self).our_mac == old(self).our_mac,
            final(self).arp.bindings() == old(self).arp.bindings(),
            (pending_of(final(self).arp), r@.map_values(|f: Vec<u8>| f@)) == route_all(
                old(self).arp.bindings(),
                pending_of(old(self).arp),
                old(self).our_ip,
                old(self).our_mac,
                seg_items(segs_view(segs@), key, old(self).tcp.model(), old(self).our_ip, dst_ip),
                now,
            ),
            final(self).tcp.model() == if segs@.len() > 0 {
                sent_opt(old(self).tcp.model(), key, now)
            } else {
                old(self).tcp.model()
            },
    {
        let ghost b0 = self.arp.bindings();
        let ghost p0 = pending_of(self.arp);
        let ghost m0 = self.tcp.model();
        let ghost items = seg_items(segs_view(segs@), key, m0, self.our_ip, dst_ip);
        let mut out: Vec<Vec<u8>> = Vec::new();
        let mut i: usize = 0;
        assert(items.take(0) =~= Seq::<([u8; 4], Seq<u8>)>::empty());
        assert(out@.map_values(|f: Vec<u8>| f@) =~= Seq::<Seq<u8>>::empty());
        while i < segs.len()
            invariant
                i <= segs@.len(),
                self.wf(),
                time_ok(now),
                self.our_ip == old(self).our_ip,
                self.our_mac == old(self).our_mac,
                self.arp.bindings() == b0,
                b0 == old(self).arp.bindings(),
                p0 == pending_of(old(self).arp),
                m0 == old(self).tcp.model(),
                keys_unique(m0, entry_key()),
                items == seg_items(segs_view(segs@), key, m0, self.our_ip, dst_ip),
                forall|j: int| 0 <= j < segs@.len() ==> (#[trigger] segs@[j]).payload@.len() <= MAX_SEND_BUFFER,
                (pending_of(self.arp), out@.map_values(|f: Vec<u8>| f@)) == route_all(b0, p0, self.our_ip, self.our_mac, items.take(i as int), now),
                self.tcp.model() == if i > 0 { sent_opt(m0, key, now) } else { m0 },
            decreases segs@.len() - i,
        {
            let seg = &segs[i];
            let src_port = match key {
                Some(k) => k.1,
                None => match self.tcp.find_src_port(dst_ip, seg.dst_port) {
                    Some(p) => p,
                    None => 0,
                },
            };
            proof {
                lemma_segment_sum_fits(self.our_ip, dst_ip, src_port, seg.dst_port, seg.seq, seg.ack, seg.flags, DEFAULT_WINDOW, seg.payload@);
            }
            let seg_bytes = build_tcp_segment(
                self.our_ip,
                dst_ip,
                src_port,
                seg.dst_port,
                seg.seq,
                seg.ack,
                seg.flags,
                DEFAULT_WINDOW,
                seg.payload.as_slice(),
            );
            let ip_packet = build_ipv4(self.our_ip, dst_ip, IP_PROTO_TCP, 64, seg_bytes.as_slice());
            assert(ip_packet@ == items[i as int].1);
            let ghost ob = out@.map_values(|f: Vec<u8>| f@);
            let frames = self.send_frame(dst_ip, ip_packet, key, now);
            let ghost fv = frames@.map_values(|f: Vec<u8>| f@);
            let mut frames = frames;
            out.append(&mut frames);
            proof {
                lemma_sent_idempotent(m0, key, now);
                assert(items.take(i + 1).drop_last() =~= items.take(i as int));
                assert(out@.map_values(|f: Vec<u8>| f@) =~= ob + fv);
            }
            i = i + 1;
        }
        assert(items.take(i as int) =~= items);
        out
    }

    fn handle_tcp(&mut self, src: [u8; 4], th: &TcpHeader, data: &[u8], now: u64) -> (r: Vec<Vec<u8>>)
        requires
            old(self).wf(),
            time_ok(now),
            data@.len() <= MAX_FRAME,
        ensures
            final(self).wf(),
            final(self).our_ip == old(self).our_ip,
            final(self).our_mac == old(self).our_mac,
            final(self).arp.bindings() == old(self).arp.bindings(),
            tcp_in(*old(self), *final(self), r@.map_values(|f: Vec<u8>| f@), old(self).arp.bindings(), src, *th, data@, now),
    {
        let ghost m0 = self.tcp.model();
        let (key, outgoing) = self.tcp.process(self.our_ip, src, th, data, now);
        proof {
            let kk = key_of((self.our_ip, th.dst_port, src, th.src_port));
            lemma_index_of(m0, entry_key(), kk);
            let i = index_of(m0, entry_key(), kk);
            lemma_step_small(to_map(m0, entry_key())[kk].1, *th, data@, now);
            assert(segs_view(outgoing@) == process_spec(m0, self.our_ip, src, *th, data@, now).1);
            assert(self.tcp.model() == process_spec(m0, self.our_ip, src, *th, data@, now).2);
            assert forall|j: int| 0 <= j < self.tcp.model().len() implies (#[trigger] self.tcp.model()[j]).1.send_buffer.len() <= MAX_SEND_BUFFER by {
                assert(m0[j].1.send_buffer.len() <= MAX_SEND_BUFFER);
            }
            assert forall|j: int| 0 <= j < outgoing@.len() implies (#[trigger] outgoing@[j]).payload@.len() <= MAX_SEND_BUFFER by {
                assert(segs_view(outgoing@)[j] == outgoing@[j]@);
            }
        }
        self.send_segments_with_key(outgoing, key, src, now)
    }

    fn handle_ipv4_body(&mut self, h: &Ipv4Header, src_mac: [u8; 6], body: &[u8], now: u64) -> (r: Vec<Vec<u8>>)
        requires
            old(self).wf(),
            time_ok(now),
            body@.len() <= MAX_FRAME,
        ensures
            final(self).wf(),
            ipv4_body_in(*old(self), *final(self), r@.map_values(|f: Vec<u8>| f@), *h, src_mac, body@, now),
    {
        self.arp.learn_at(h.src, src_mac, now);
        if h.protocol == IP_PROTO_ICMP {
            proof {
                if body@.len() >= 8 {
                    assert(echo_reply_base(body@).len() == body@.len());
                    lemma_short_sum_fits(echo_reply_base(body@));
                }
            }
            match build_icmp_echo_reply(body) {
                Some(reply) => {
                    let pkt = build_ipv4(self.our_ip, h.src, IP_PROTO_ICMP, 64, reply.as_slice());
                    self.send_frame(h.src, pkt, None, now)
                },
                None => {
                    let none: Vec<Vec<u8>> = Vec::new();
                    assert(none@.map_values(|f: Vec<u8>| f@) =~= Seq::<Seq<u8>>::empty());
                    none
                },
            }
        } else if h.protocol == IP_PROTO_TCP {
            proof {
                assert(tcp_verify_input(h.src@, h.dst@, body@).len() == 12 + body@.len());
                lemma_short_sum_fits(tcp_verify_input(h.src@, h.dst@, body@));
            }
            let none: Vec<Vec<u8>> = Vec::new();
            assert(none@.map_values(|f: Vec<u8>| f@) =~= Seq::<Seq<u8>>::empty());
            if !verify_tcp_checksum(h.src, h.dst, body) {
                return none;
            }
            match parse_tcp(body) {
                Some((th, data)) => {
                    let r = self.handle_tcp(h.src, &th, data, now);
                    proof {
                        assert forall|t2: TcpHeader| #[trigger] tcp_fields(t2, body@) implies tcp_in(
                            *old(self),
                            *final(self),
                            r@.map_values(|f: Vec<u8>| f@),
                            learned(old(self).arp.bindings(), h.src, src_mac, now),
                            h.src,
                            t2,
                            seg_data(body@),
                            now,
                        ) by {
                            lemma_tcp_header_unique(t2, th, body@);
                        }
                    }
                    r
                },
                None => none,
            }
        } else {
            let none: Vec<Vec<u8>> = Vec::new();
            assert(none@.map_values(|f: Vec<u8>| f@) =~= Seq::<Seq<u8>>::empty());
            none
        }
    }

    fn handle_arp_packet(&mut self, a: &ArpPacket, now: u64) -> (r: Vec<Vec<u8>>)
        requires
            old(self).wf(),
        ensures
            final(self).wf(),
            arp_packet_in(*old(self), *final(self), r@.map_values(|f: Vec<u8>| f@), *a, now),
    {
        let ghost p0 = pending_of(self.arp);
        let ghost s0 = self.arp.pending_seq();
        self.arp.learn_at(a.spa, a.sha, now);
        let mut out: Vec<Vec<u8>> = Vec::new();
        let for_us = ip_key_of(a.tpa) == ip_key_of(self.our_ip);
        proof {
            if for_us {
                lemma_ip_key_injective(a.tpa, self.our_ip);
            }
            if a.tpa@ == self.our_ip@ {
                assert(a.tpa =~= self.our_ip);
            }
        }
        if a.oper == ARP_OP_REQUEST && for_us {
            let reply = build_arp_reply(self.our_mac, self.our_ip, a.sha, a.spa);
            out.push(build_frame(a.sha, self.our_mac, ETH_TYPE_ARP, reply.as_slice()));
            assert(out@.map_values(|f: Vec<u8>| f@) =~= seq![out@[0]@]);
        } else if a.oper == ARP_OP_REPLY {
            let queued = self.arp.insert_at(a.spa, a.sha, now);
            let ghost qv = queued@.map_values(|q: Vec<u8>| q@);
            let ghost st = *self;
            let mut j: usize = 0;
            assert(qv.take(0) =~= Seq::<Seq<u8>>::empty());
            assert(out@.map_values(|f: Vec<u8>| f@) =~= Seq::<Seq<u8>>::empty());
            while j < queued.len()
                invariant
                    *self == st,
                    j <= queued@.len(),
                    qv == queued@.map_values(|q: Vec<u8>| q@),
                    out@.map_values(|f: Vec<u8>| f@) == release_frames(qv.take(j as int), a.sha, self.our_mac),
                decreases queued@.len() - j,
            {
                let ghost before = out@.map_values(|f: Vec<u8>| f@);
                out.push(build_frame(a.sha, self.our_mac, ETH_TYPE_IPV4, queued[j].as_slice()));
                proof {
                    assert(out@.map_values(|f: Vec<u8>| f@) =~= before.push(out@[j as int]@));
                    assert(qv.take(j + 1) =~= qv.take(j as int).push(queued@[j as int]@));
                    assert(out@.map_values(|f: Vec<u8>| f@) =~= release_frames(qv.take(j + 1), a.sha, self.our_mac));
                }
                j = j + 1;
            }
            proof {
                assert(qv.take(j as int) =~= qv);
                let k = ip_key(a.spa);
                assert(pending_of(self.arp).map =~= p0.map.remove(k));
                if !p0.map.dom().contains(k) {
                    assert(out@.map_values(|f: Vec<u8>| f@) =~= Seq::<Seq<u8>>::empty());
                    assert(pending_of(self.arp).order == p0.order);
                    assert(p0.map.remove(k) =~= p0.map);
                    assert(pending_of(self.arp) == p0);
                } else {
                    assert(qv == p0.map[k].packets);
                    assert(pending_of(self.arp).order == p0.order.remove(index_of(s0, pending_key(), k)));
                }
            }
        }
        proof {
            if out@.len() == 0 {
                assert(out@.map_values(|f: Vec<u8>| f@) =~= Seq::<Seq<u8>>::empty());
            }
        }
        out
    }

    /// Handles an ARP packet that arrived in a frame; returns the frames to
    /// write.
    pub fn handle_arp(&mut self, payload: &[u8], now: u64) -> (r: Vec<Vec<u8>>)
        requires
            old(self).wf(),
        ensures
            final(self).wf(),
            arp_in(*old(self), *final(self), r@.map_values(|f: Vec<u8>| f@), payload@, now),
    {
        match parse_arp(payload) {
            Some(a) => {
                let r = self.handle_arp_packet(&a, now);
                proof {
                    assert forall|a2: ArpPacket| #[trigger] arp_fields(a2, payload@) implies arp_packet_in(
                        *old(self),
                        *final(self),
                        r@.map_values(|f: Vec<u8>| f@),
                        a2,
                        now,
                    ) by {
                        lemma_arp_packet_unique(a2, a, payload@);
                    }
                }
                r
            },
            None => {
                let none: Vec<Vec<u8>> = Vec::new();
                assert(none@.map_values(|f: Vec<u8>| f@) =~= Seq::<Seq<u8>>::empty());
                none
            },
        }
    }

    /// Handles a frame read from the device; returns the frames to write.
    pub fn dispatch(&mut self, data: &[u8], now: u64) -> (r: Vec<Vec<u8>>)
        requires
            old(self).wf(),
            time_ok(now),
            data@.len() <= MAX_FRAME,
        ensures
            final(self).wf(),
            frame_in(*old(self), *final(self), r@.map_values(|f: Vec<u8>| f@), data@, now),
    {
        let none: Vec<Vec<u8>> = Vec::new();
        assert(none@.map_values(|f: Vec<u8>| f@) =~= Seq::<Seq<u8>>::empty());
        match parse_frame(data) {
            Some((header, payload)) => {
                if header.ethertype == ETH_TYPE_ARP {
                    self.handle_arp(payload, now)
                } else if header.ethertype == ETH_TYPE_IPV4 {
                    let r = self.handle_ipv4(header.src, payload, now);
                    proof {
                        assert forall|mac: [u8; 6]| mac@ == data@.subrange(6, 12) implies ipv4_in(
                            *old(self),
                            *final(self),
                            r@.map_values(|f: Vec<u8>| f@),
                            mac,
                            payload@,
                            now,
                        ) by {
                            assert(mac =~= header.src);
                        }
                    }
                    r
                } else {
                    none
                }
            },
            None => none,
        }
    }

    /// Opens a connection to `remote_ip:remote_port`; returns its socket
    /// and the frames to write.
    pub fn connect(&mut self, remote_ip: [u8; 4], remote_port: u16, now: u64) -> (r: (Option<TcpSocket>, Vec<Vec<u8>>))
        requires
            old(self).wf(),
            time_ok(now),
        ensures
            final(self).wf(),
            final(self).our_ip == old(self).our_ip,
            final(self).our_mac == old(self).our_mac,
            final(self).arp.bindings() == old(self).arp.bindings(),
            r.0 matches Some(s) && s.key.0 == old(self).our_ip && s.key.2 == remote_ip && s.key.3 == remote_port
                && ephemeral_port(old(self).tcp.model(), s.key.1),
            ({
                let key = r.0->0.key;
                let k = key_of(key);
                let t0 = old(self).tcp.table();
                if t0.dom().contains(k) && (t0[k].1.state == TcpState::Established || t0[k].1.state
                    == TcpState::SynSent) {
                    &&& final(self).tcp.model() == old(self).tcp.model()
                    &&& quiet(*old(self), *final(self), r.1@.map_values(|f: Vec<u8>| f@))
                } else {
                    exists|iss: u32|
                        {
                            &&& final(self).tcp.table() == t0.insert(
                                k,
                                (key, #[trigger] syn_sent_tcb(old(self).our_ip, remote_ip, key.1, remote_port, iss, now)),
                            )
                            &&& (pending_of(final(self).arp), r.1@.map_values(|f: Vec<u8>| f@)) == route(
                                old(self).arp.bindings(),
                                pending_of(old(self).arp),
                                old(self).our_ip,
                                old(self).our_mac,
                                remote_ip,
                                seg_packet(old(self).our_ip, remote_ip, key.1, ctl_seg(TCP_SYN, iss, 0, remote_port)),
                                now,
                            )
                        }
                }
            }),
    {
        let ghost t0 = self.tcp.table();
        let ghost m0 = self.tcp.model();
        let (sock, segs) = crate::socket::connect(&mut self.tcp, self.our_ip, remote_ip, remote_port, now);
        let ghost m1 = self.tcp.model();
        let key = match sock {
            Some(s) => Some(s.key),
            None => None,
        };
        let ghost ck: ConnKey = key->0;
        let ghost kk = key_of(ck);
        proof {
            if t0.dom().contains(kk) && (t0[kk].1.state == TcpState::Established || t0[kk].1.state == TcpState::SynSent) {
                assert(m1 == m0);
                assert(segs@.len() == 0) by {
                    assert(segs_view(segs@).len() == segs@.len());
                }
            } else {
                assert(ck == sock->0.key);
                assert(exists|iss: u32| {
                    &&& segs_view(segs@) == seq![ctl_seg(TCP_SYN, iss, 0, remote_port)]
                    &&& self.tcp.table() == t0.insert(
                        kk,
                        (ck, #[trigger] syn_sent_tcb(self.our_ip, remote_ip, ck.1, remote_port, iss, now)),
                    )
                });
                let iss = choose|iss: u32| {
                    &&& segs_view(segs@) == seq![ctl_seg(TCP_SYN, iss, 0, remote_port)]
                    &&& self.tcp.table() == t0.insert(
                        kk,
                        (ck, #[trigger] syn_sent_tcb(self.our_ip, remote_ip, ck.1, remote_port, iss, now)),
                    )
                };
                assert(segs_view(segs@)[0] == segs@[0]@);
                assert(segs@[0]@ == ctl_seg(TCP_SYN, iss, 0, remote_port));
                assert(segs@.len() == 1) by {
                    assert(segs_view(segs@).len() == segs@.len());
                }
                assert forall|j: int| 0 <= j < segs@.len() implies (#[trigger] segs@[j]).payload@.len() <= MAX_SEND_BUFFER by {
                    assert(j == 0);
                    assert(segs@[0]@.payload == segs@[0].payload@);
                }
                assert(self.tcp.table()[kk].1.retransmit_at is Some);
                assert(sent_opt(m1, key, now) == m1);
                assert forall|j: int| 0 <= j < m1.len() implies (#[trigger] m1[j]).1.send_buffer.len() <= MAX_SEND_BUFFER by {
                    lemma_index_of(m1, entry_key(), key_of(m1[j].0));
                    crate::keyed::lemma_map_dom(m1, entry_key(), j);
                    if key_of(m1[j].0) == kk {
                        assert(m1[j].1 == syn_sent_tcb(self.our_ip, remote_ip, ck.1, remote_port, iss, now));
                    } else {
                        assert(t0.dom().contains(key_of(m1[j].0)));
                        lemma_index_of(m0, entry_key(), key_of(m1[j].0));
                        let i0 = index_of(m0, entry_key(), key_of(m1[j].0));
                        assert(m0[i0].1.send_buffer.len() <= MAX_SEND_BUFFER);
                    }
                }
            }
        }
        let frames = self.send_segments_with_key(segs, key, remote_ip, now);
        proof {
            let items = seg_items(segs_view(segs@), key, m1, self.our_ip, remote_ip);
            if segs@.len() == 1 {
                lemma_route_one(old(self).arp.bindings(), pending_of(old(self).arp), self.our_ip, self.our_mac, items, now);
            } else {
                assert(items =~= Seq::<([u8; 4], Seq<u8>)>::empty());
            }
        }
        (sock, frames)
    }

    /// Whether `len` more bytes may be sent on `sock` (see `send_fits`).
    pub fn can_send(&self, sock: &TcpSocket, len: usize) -> (r: bool)
        requires
            self.wf(),
        ensures
            r == send_fits(self.tcp.table(), key_of(sock.key), len as nat),
    {
        match self.tcp.get(&sock.key) {
            Some(t) => t.state != TcpState::Established || (t.send_buffer.len() <= MAX_SEND_BUFFER
                && len <= MAX_SEND_BUFFER - t.send_buffer.len()),
            None => true,
        }
    }

    /// Queues `data` on `sock`'s connection and sends it in one segment;
    /// returns the length of `data` and the frames to write.
    pub fn send(&mut self, sock: &TcpSocket, data: &[u8], now: u64) -> (r: (usize, Vec<Vec<u8>>))
        requires
            old(self).wf(),
            time_ok(now),
            send_fits(old(self).tcp.table(), key_of(sock.key), data@.len()),
        ensures
            final(self).wf(),
            final(self).our_ip == old(self).our_ip,
            final(self).our_mac == old(self).our_mac,
            final(self).arp.bindings() == old(self).arp.bindings(),
            r.0 == data@.len(),
            ({
                let k = key_of(sock.key);
                let t0 = old(self).tcp.table();
                let m0 = old(self).tcp.model();
                if t0.dom().contains(k) && t0[k].1.state == TcpState::Established {
                    let (t2, seg) = send_step(t0[k].1, data@);
                    let m1 = m0.update(index_of(m0, entry_key(), k), (t0[k].0, t2));
                    &&& final(self).tcp.model() == sent_model(m1, sock.key, now)
                    &&& (pending_of(final(self).arp), r.1@.map_values(|f: Vec<u8>| f@)) == route(
                        old(self).arp.bindings(),
                        pending_of(old(self).arp),
                        old(self).our_ip,
                        old(self).our_mac,
                        t2.remote_ip,
                        seg_packet(old(self).our_ip, t2.remote_ip, sock.key.1, seg),
                        now,
                    )
                } else {
                    &&& final(self).tcp.model() == m0
                    &&& quiet(*old(self), *final(self), r.1@.map_values(|f: Vec<u8>| f@))
                }
            }),
    {
        let len = data.len();
        let ghost m0 = self.tcp.model();
        let ghost t0 = self.tcp.table();
        let ghost k = key_of(sock.key);
        let segs = crate::socket::send(&mut self.tcp, sock, data);
        let ghost m1 = self.tcp.model();
        proof {
            lemma_index_of(m0, entry_key(), k);
            let i = index_of(m0, entry_key(), k);
            assert(segs@.len() == segs_view(segs@).len());
            if t0.dom().contains(k) && t0[k].1.state == TcpState::Established {
                lemma_update(m0, entry_key(), i, (t0[k].0, send_step(t0[k].1, data@).0));
                assert forall|j: int| 0 <= j < m1.len() implies (#[trigger] m1[j]).1.send_buffer.len() <= MAX_SEND_BUFFER by {
                    assert(m0[j].1.send_buffer.len() <= MAX_SEND_BUFFER);
                }
                assert(segs_view(segs@)[0] == segs@[0]@);
                assert(segs@[0]@.payload == segs@[0].payload@);
            }
        }
        let remote_ip = match self.tcp.get(&sock.key) {
            Some(t) => t.remote_ip,
            None => [0u8; 4],
        };
        let frames = self.send_segments_with_key(segs, Some(sock.key), remote_ip, now);
        proof {
            let items = seg_items(segs_view(segs@), Some(sock.key), m1, self.our_ip, remote_ip);
            if segs@.len() == 1 {
                lemma_route_one(old(self).arp.bindings(), pending_of(old(self).arp), self.our_ip, self.our_mac, items, now);
            } else {
                assert(items =~= Seq::<([u8; 4], Seq<u8>)>::empty());
            }
        }
        (len, frames)
    }

    /// Takes the data received on `sock`'s connection.
    pub fn recv(&mut self, sock: &TcpSocket) -> (r: Vec<u8>)
        requires
            old(self).wf(),
        ensures
            final(self).wf(),
            final(self).our_ip == old(self).our_ip,
            final(self).our_mac == old(self).our_mac,
            final(self).arp == old(self).arp,
            ({
                let k = key_of(sock.key);
                let t0 = old(self).tcp.table();
                let m0 = old(self).tcp.model();
                if t0.dom().contains(k) {
                    &&& r@ == t0[k].1.recv_buffer
                    &&& final(self).tcp.model() == m0.update(
                        index_of(m0, entry_key(), k),
                        (t0[k].0, TcbView { recv_buffer: Seq::empty(), ..t0[k].1 }),
                    )
                } else {
                    &&& r@ == Seq::<u8>::empty()
                    &&& final(self).tcp.model() == m0
                }
            }),
    {
        let ghost m0 = self.tcp.model();
        let r = crate::socket::recv(&mut self.tcp, sock);
        proof {
            let m1 = self.tcp.model();
            lemma_index_of(m0, entry_key(), key_of(sock.key));
            assert forall|j: int| 0 <= j < m1.len() implies (#[trigger] m1[j]).1.send_buffer.len() <= MAX_SEND_BUFFER by {
                assert(m0[j].1.send_buffer.len() <= MAX_SEND_BUFFER);
            }
        }
        r
    }

    /// Closes `sock`'s connection; returns the frames to write.
    pub fn close(&mut self, sock: &TcpSocket, now: u64) -> (r: Vec<Vec<u8>>)
        requires
            old(self).wf(),
            time_ok(now),
        ensures
            final(self).wf(),
            final(self).our_ip == old(self).our_ip,
            final(self).our_mac == old(self).our_mac,
            final(self).arp.bindings() == old(self).arp.bindings(),
            ({
                let k = key_of(sock.key);
                let t0 = old(self).tcp.table();
                let m0 = old(self).tcp.model();
                if t0.dom().contains(k) {
                    let (t2, out) = close_step(t0[k].1, now);
                    let m1 = m0.update(index_of(m0, entry_key(), k), (t0[k].0, t2));
                    &&& final(self).tcp.model() == if out.len() > 0 { sent_model(m1, sock.key, now) } else { m1 }
                    &&& (pending_of(final(self).arp), r@.map_values(|f: Vec<u8>| f@)) == route_all(
                        old(self).arp.bindings(),
                        pending_of(old(self).arp),
                        old(self).our_ip,
                        old(self).our_mac,
                        seg_items(out, Some(sock.key), m1, old(self).our_ip, t2.remote_ip),
                        now,
                    )
                } else {
                    &&& final(self).tcp.model() == m0
                    &&& quiet(*old(self), *final(self), r@.map_values(|f: Vec<u8>| f@))
                }
            }),
    {
        let ghost m0 = self.tcp.model();
        let ghost t0 = self.tcp.table();
        let ghost k = key_of(sock.key);
        let segs = crate::socket::close(&mut self.tcp, sock, now);
        let ghost m1 = self.tcp.model();
        proof {
            lemma_index_of(m0, entry_key(), k);
            let i = index_of(m0, entry_key(), k);
            lemma_close_small(t0[k].1, now);
            if t0.dom().contains(k) {
                lemma_update(m0, entry_key(), i, (t0[k].0, close_step(t0[k].1, now).0));
            }
            assert forall|j: int| 0 <= j < m1.len() implies (#[trigger] m1[j]).1.send_buffer.len() <= MAX_SEND_BUFFER by {
                assert(m0[j].1.send_buffer.len() <= MAX_SEND_BUFFER);
            }
            assert forall|j: int| 0 <= j < segs@.len() implies (#[trigger] segs@[j]).payload@.len() <= MAX_SEND_BUFFER by {
                assert(segs_view(segs@)[j] == segs@[j]@);
                assert(segs@[j]@.payload == segs@[j].payload@);
                assert(segs_view(segs@).len() == segs@.len());
                if t0.dom().contains(k) {
                    assert(close_step(t0[k].1, now).1[j].payload.len() == 0);
                }
            }
            assert(segs@.len() == segs_view(segs@).len());
        }
        let remote_ip = match self.tcp.get(&sock.key) {
            Some(t) => t.remote_ip,
            None => [0u8; 4],
        };
        let r = self.send_segments_with_key(segs, Some(sock.key), remote_ip, now);
        proof {
            if !t0.dom().contains(k) {
                assert(seg_items(segs_view(segs@), Some(sock.key), m1, self.our_ip, remote_ip) =~= Seq::<([u8; 4], Seq<u8>)>::empty());
            }
        }
        r
    }

    /// The state of `sock`'s connection, if it still exists.
    pub fn state(&self, sock: &TcpSocket) -> (r: Option<TcpState>)
        requires
            self.wf(),
        ensures
            r == (if self.tcp.table().dom().contains(key_of(sock.key)) {
                Some(self.tcp.table()[key_of(sock.key)].1.state)
            } else {
                None
            }),
    {
        match self.tcp.get(&sock.key) {
            Some(t) => Some(t.state),
            None => None,
        }
    }

    pub fn is_established(&self, sock: &TcpSocket) -> (r: bool)
        requires
            self.wf(),
        ensures
            r == (self.tcp.table().dom().contains(key_of(sock.key)) && self.tcp.table()[key_of(sock.key)].1.state
                == TcpState::Established),
    {
        match self.state(sock) {
            Some(TcpState::Established) => true,
            _ => false,
        }
    }

    /// The connection is closed or gone.
    pub fn is_closed(&self, sock: &TcpSocket) -> (r: bool)
        requires
            self.wf(),
        ensures
            r == (!self.tcp.table().dom().contains(key_of(sock.key)) || self.tcp.table()[key_of(sock.key)].1.state
                == TcpState::Closed),
    {
        match self.state(sock) {
            Some(TcpState::Closed) | None => true,
            _ => false,
        }
    }

    /// The clock's tick for address resolution: requests for the
    /// addresses due for a retry are sent again and recorded, addresses
    /// that ran out of retries are given up. Returns the frames to write
    /// and the addresses given up.
    pub fn arp_tick(&mut self, now: u64) -> (r: (Vec<Vec<u8>>, Vec<[u8; 4]>))
        requires
            old(self).wf(),
        ensures
            final(self).wf(),
            final(self).our_ip == old(self).our_ip,
            final(self).our_mac == old(self).our_mac,
            final(self).arp.bindings() == old(self).arp.bindings(),
            final(self).tcp.model() == old(self).tcp.model(),
            r.0@.map_values(|f: Vec<u8>| f@) == retry_ips(old(self).arp, now).map_values(
                |ip: [u8; 4]| arp_request_frame(old(self).our_ip, old(self).our_mac, ip),
            ),
            r.1@ == old(self).arp.pending_seq().filter(give_up_pred(now)).map_values(pending_ip()),
            pending_of(final(self).arp) == (PendingState {
                map: bump_all(
                    to_map(kept_pending(old(self).arp, now), pending_key()).map_values(|e: PendingEntry| pending_view(e)),
                    retry_ips(old(self).arp, now),
                    now,
                ),
                order: kept_pending(old(self).arp, now).map_values(pending_ip()),
            }),
    {
        let ghost s0 = self.arp.pending_seq();
        let tick = self.arp.tick(now);
        let ghost m0 = pending_of(self.arp).map;
        let ghost ord = pending_of(self.arp).order;
        let ghost rs = s0.filter(retry_pred(now));
        let ghost ips = tick.retry_ips@;
        proof {
            old(self).arp.lemma_pending_unique();
            lemma_filter_unique(s0, pending_key(), retry_pred(now));
        }
        let mut frames: Vec<Vec<u8>> = Vec::new();
        let mut j: usize = 0;
        assert(ips.take(0) =~= Seq::<[u8; 4]>::empty());
        assert(frames@.map_values(|f: Vec<u8>| f@) =~= Seq::<Seq<u8>>::empty());
        while j < tick.retry_ips.len()
            invariant
                j <= ips.len(),
                ips == tick.retry_ips@,
                ips == rs.map_values(pending_ip()),
                rs == s0.filter(retry_pred(now)),
                keys_unique(rs, pending_key()),
                keys_unique(s0, pending_key()),
                self.wf(),
                self.our_ip == old(self).our_ip,
                self.our_mac == old(self).our_mac,
                self.arp.bindings() == old(self).arp.bindings(),
                self.tcp.model() == old(self).tcp.model(),
                self.arp.pending_seq().map_values(pending_ip()) == ord,
                ord == s0.filter(crate::arp::keep_pred(now)).map_values(pending_ip()),
                m0 == to_map(s0.filter(crate::arp::keep_pred(now)), pending_key()).map_values(|e: PendingEntry| pending_view(e)),
                pending_of(self.arp).map == bump_all(m0, ips.take(j as int), now),
                frames@.map_values(|f: Vec<u8>| f@) == ips.take(j as int).map_values(
                    |ip: [u8; 4]| arp_request_frame(self.our_ip, self.our_mac, ip),
                ),
            decreases ips.len() - j,
        {
            let ip = tick.retry_ips[j];
            proof {
                // The address is due for a retry, so it is still waited for.
                let e = rs[j as int];
                assert(ip == e.ip);
                s0.lemma_filter_pred(retry_pred(now), j as int);
                lemma_filter_member(s0, retry_pred(now), j as int);
                let i = choose|i: int| 0 <= i < s0.len() && s0[i] == rs[j as int];
                s0.lemma_filter_contains(crate::arp::keep_pred(now), i);
                let kept = s0.filter(crate::arp::keep_pred(now));
                let n = choose|n: int| 0 <= n < kept.len() && kept[n] == e;
                lemma_filter_unique(s0, pending_key(), crate::arp::keep_pred(now));
                lemma_map_dom(kept, pending_key(), n);
                assert forall|q: int| 0 <= q < ips.take(j as int).len() implies ip_key(#[trigger] ips.take(j as int)[q]) != ip_key(ip) by {
                    assert(ips.take(j as int)[q] == rs[q].ip);
                }
                lemma_bump_all_other(m0, ips.take(j as int), now, ip_key(ip));
                assert(pending_of(self.arp).map[ip_key(ip)] == m0[ip_key(ip)]);
                assert(m0[ip_key(ip)].retries == e.retries);
            }
            let req = build_arp_request(self.our_mac, self.our_ip, ip);
            let ghost before = frames@.map_values(|f: Vec<u8>| f@);
            frames.push(build_frame(BROADCAST_MAC, self.our_mac, ETH_TYPE_ARP, req.as_slice()));
            let ghost pm = pending_of(self.arp).map;
            self.arp.record_request(ip, now);
            proof {
                assert(ips.take(j + 1).drop_last() =~= ips.take(j as int));
                assert(pending_of(self.arp).map =~= bump(pm, ip, now));
                assert(ips.take(j + 1).map_values(|ip: [u8; 4]| arp_request_frame(self.our_ip, self.our_mac, ip))
                    =~= ips.take(j as int).map_values(|ip: [u8; 4]| arp_request_frame(self.our_ip, self.our_mac, ip)).push(arp_request_frame(self.our_ip, self.our_mac, ip)));
                assert(frames@.map_values(|f: Vec<u8>| f@) =~= before.push(arp_request_frame(self.our_ip, self.our_mac, ip)));
            }
            j = j + 1;
        }
        assert(ips.take(j as int) =~= ips);
        (frames, tick.timed_out_ips)
    }

    /// The clock's tick for retransmission: segments whose timer fired are
    /// sent again and finished connections dropped. Returns the frames to
    /// write.
    pub fn tcp_retransmit(&mut self, now: u64) -> (r: Vec<Vec<u8>>)
        requires
            old(self).wf(),
            time_ok(now),
        ensures
            final(self).wf(),
            final(self).our_ip == old(self).our_ip,
            final(self).our_mac == old(self).our_mac,
            final(self).arp.bindings() == old(self).arp.bindings(),
            (pending_of(final(self).arp), r@.map_values(|f: Vec<u8>| f@)) == route_all(
                old(self).arp.bindings(),
                pending_of(old(self).arp),
                old(self).our_ip,
                old(self).our_mac,
                retx_items(old(self).tcp.model(), old(self).our_ip, now),
                now,
            ),
            final(self).tcp.model() == sent_all(
                retx_all(old(self).tcp.model(), now).filter(crate::tcp::keep_pred(now)),
                retx_keys(old(self).tcp.model(), now),
                now,
            ),
    {
        let ghost b0 = self.arp.bindings();
        let ghost p0 = pending_of(self.arp);
        let ghost m0 = self.tcp.model();
        let retrans = self.tcp.poll_retransmit(now);
        let ghost m1 = self.tcp.model();
        let ghost items = retx_items(m0, self.our_ip, now);
        let ghost keys = retx_keys(m0, now);
        proof {
            lemma_retx_small(m0, now);
            let f = retx_all(m0, now).filter(crate::tcp::keep_pred(now));
            assert forall|j: int| 0 <= j < m1.len() implies (#[trigger] m1[j]).1.send_buffer.len() <= MAX_SEND_BUFFER by {
                lemma_filter_member(retx_all(m0, now), crate::tcp::keep_pred(now), j);
                let i = choose|i: int| 0 <= i < retx_all(m0, now).len() && retx_all(m0, now)[i] == f[j];
                assert(m0[i].1.send_buffer.len() <= MAX_SEND_BUFFER);
            }
        }
        let mut out: Vec<Vec<u8>> = Vec::new();
        let mut i: usize = 0;
        assert(items.take(0) =~= Seq::<([u8; 4], Seq<u8>)>::empty());
        assert(keys.take(0) =~= Seq::<ConnKey>::empty());
        assert(out@.map_values(|f: Vec<u8>| f@) =~= Seq::<Seq<u8>>::empty());
        while i < retrans.len()
            invariant
                i <= retrans@.len(),
                pairs_view(retrans@) == retx_out(m0, now),
                items == retx_items(m0, self.our_ip, now),
                keys == retx_keys(m0, now),
                forall|q: int| 0 <= q < retx_out(m0, now).len() ==> (#[trigger] retx_out(m0, now)[q]).1.payload.len() <= MAX_SEND_BUFFER,
                self.wf(),
                time_ok(now),
                self.our_ip == old(self).our_ip,
                self.our_mac == old(self).our_mac,
                self.arp.bindings() == b0,
                b0 == old(self).arp.bindings(),
                p0 == pending_of(old(self).arp),
                (pending_of(self.arp), out@.map_values(|f: Vec<u8>| f@)) == route_all(b0, p0, self.our_ip, self.our_mac, items.take(i as int), now),
                self.tcp.model() == sent_all(m1, keys.take(i as int), now),
            decreases retrans@.len() - i,
        {
            let key = retrans[i].0;
            let seg = &retrans[i].1;
            proof {
                assert(pairs_view(retrans@)[i as int] == (key, seg@));
                assert(seg@.payload.len() <= MAX_SEND_BUFFER);
                lemma_segment_sum_fits(self.our_ip, key.2, key.1, seg.dst_port, seg.seq, seg.ack, seg.flags, DEFAULT_WINDOW, seg.payload@);
            }
            let seg_bytes = build_tcp_segment(
                self.our_ip,
                key.2,
                key.1,
                seg.dst_port,
                seg.seq,
                seg.ack,
                seg.flags,
                DEFAULT_WINDOW,
                seg.payload.as_slice(),
            );
            let ip_packet = build_ipv4(self.our_ip, key.2, IP_PROTO_TCP, 64, seg_bytes.as_slice());
            assert(ip_packet@ == items[i as int].1 && key.2 == items[i as int].0);
            let ghost ob = out@.map_values(|f: Vec<u8>| f@);
            let frames = self.send_frame(key.2, ip_packet, Some(key), now);
            let ghost fv = frames@.map_values(|f: Vec<u8>| f@);
            let mut frames = frames;
            out.append(&mut frames);
            proof {
                assert(items.take(i + 1).drop_last() =~= items.take(i as int));
                assert(keys.take(i + 1).drop_last() =~= keys.take(i as int));
                assert(keys[i as int] == key);
                assert(out@.map_values(|f: Vec<u8>| f@) =~= ob + fv);
            }
            i = i + 1;
        }
        assert(items.take(i as int) =~= items);
        assert(keys.take(i as int) =~= keys);
        out
    }

    /// Handles an IPv4 packet that arrived in a frame from `src_mac`;
    /// returns the frames to write.
    pub fn handle_ipv4(&mut self, src_mac: [u8; 6], payload: &[u8], now: u64) -> (r: Vec<Vec<u8>>)
        requires
            old(self).wf(),
            time_ok(now),
            payload@.len() <= MAX_FRAME,
        ensures
            final(self).wf(),
            ipv4_in(*old(self), *final(self), r@.map_values(|f: Vec<u8>| f@), src_mac, payload@, now),
    {
        match parse_ipv4(payload) {
            Some((h, body)) => {
                let r = self.handle_ipv4_body(&h, src_mac, body, now);
                proof {
                    assert forall|h2: Ipv4Header| #[trigger] ipv4_fields(h2, payload@) implies ipv4_body_in(
                        *old(self),
                        *final(self),
                        r@.map_values(|f: Vec<u8>| f@),
                        h2,
                        src_mac,
                        payload@.subrange(ihl_of(payload@), payload@.len() as int),
                        now,
                    ) by {
                        lemma_ipv4_header_unique(h2, h, payload@);
                    }
                }
                r
            },
            None => {
                let none: Vec<Vec<u8>> = Vec::new();
                assert(none@.map_values(|f: Vec<u8>| f@) =~= Seq::<Seq<u8>>::empty());
                none
            },
        }
    }
}

} // verus!
