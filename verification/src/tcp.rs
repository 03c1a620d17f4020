//! TCP protocol — segment parsing, state machine, connection management.
//!
//! Times are milliseconds on the caller's monotonic clock.

use vstd::prelude::*;
use crate::arp::{ip_key, ip_key_of};
use crate::clock::clock_nanos;
use crate::keyed::{keys_unique, to_map, index_of, lemma_index_of, lemma_map_dom, lemma_update, lemma_push, lemma_filter_unique};
use crate::util::{
    lemma_be32_roundtrip,
    be16, be32, u16_bytes, u32_bytes, read_be16, read_be32, push_be16, push_be32, push_all,
    set_be16, copy_range, checksum, checksum_spec, sum_fits, put_u16,
    lemma_checksum_self_validates,
};

verus! {

// ── Constants ──

pub const TCP_HDR_LEN: usize = 20;
pub const TCP_FIN: u8 = 0x01;
pub const TCP_SYN: u8 = 0x02;
pub const TCP_RST: u8 = 0x04;
pub const TCP_PSH: u8 = 0x08;
pub const TCP_ACK: u8 = 0x10;

pub const DEFAULT_MSS: u16 = 1460;
pub const DEFAULT_WINDOW: u16 = 65535;
/// Initial retransmission timeout (ms).
pub const INITIAL_RTO_MS: u64 = 1000;
pub const MAX_RETRANSMITS: u32 = 5;
/// Upper bound of the retransmission timeout (ms); also the TIME-WAIT span.
pub const MAX_RTO_MS: u64 = 60_000;

// ── TCP Header ──

#[derive(Debug, Clone, Copy)]
pub struct TcpHeader {
    pub src_port: u16,
    pub dst_port: u16,
    pub seq: u32,
    pub ack: u32,
    pub _data_offset: u8,  // high nibble × 4 = header length
    pub flags: u8,
    pub window: u16,
    pub _checksum: u16,
    pub _urgent: u16,
}

/// Header length in bytes announced by a segment.
pub open spec fn tcp_hdr_len_of(s: Seq<u8>) -> int {
    (s[12] / 16) as int * 4
}

/// `parse_tcp` accepts `s`.
pub open spec fn tcp_accepts(s: Seq<u8>) -> bool {
    &&& s.len() >= TCP_HDR_LEN
    &&& tcp_hdr_len_of(s) >= TCP_HDR_LEN
    &&& s.len() >= tcp_hdr_len_of(s)
}

/// `h` holds the fields encoded in the first 20 bytes of `s`.
pub open spec fn tcp_fields(h: TcpHeader, s: Seq<u8>) -> bool {
    &&& s.len() >= 20
    &&& h.src_port == be16(s[0], s[1])
    &&& h.dst_port == be16(s[2], s[3])
    &&& h.seq == be32(s[4], s[5], s[6], s[7])
    &&& h.ack == be32(s[8], s[9], s[10], s[11])
    &&& h._data_offset == s[12] / 16
    &&& h.flags == s[13]
    &&& h.window == be16(s[14], s[15])
    &&& h._checksum == be16(s[16], s[17])
    &&& h._urgent == be16(s[18], s[19])
}

pub fn parse_tcp(data: &[u8]) -> (r: Option<(TcpHeader, &[u8])>)
    ensures
        r is Some <==> tcp_accepts(data@),
        r matches Some((h, p)) ==> tcp_fields(h, data@) && p@ == data@.subrange(
            tcp_hdr_len_of(data@),
            data@.len() as int,
        ),
{
    if data.len() < TCP_HDR_LEN {
        return None;
    }
    let data_offset = data[12] / 16;
    let hdr_len = data_offset as usize * 4;
    if hdr_len < TCP_HDR_LEN || data.len() < hdr_len {
        return None;
    }
    Some(
        (
            TcpHeader {
                src_port: read_be16(data[0], data[1]),
                dst_port: read_be16(data[2], data[3]),
                seq: read_be32(data[4], data[5], data[6], data[7]),
                ack: read_be32(data[8], data[9], data[10], data[11]),
                _data_offset: data_offset,
                flags: data[13],
                window: read_be16(data[14], data[15]),
                _checksum: read_be16(data[16], data[17]),
                _urgent: read_be16(data[18], data[19]),
            },
            &data[hdr_len..data.len()],
        ),
    )
}

/// The 20 header bytes `build_tcp_header` writes (checksum and urgent
/// pointer zero, data offset 5).
pub open spec fn tcp_header_bytes(
    src_port: u16,
    dst_port: u16,
    seq: u32,
    ack: u32,
    flags: u8,
    window: u16,
) -> Seq<u8> {
    u16_bytes(src_port) + u16_bytes(dst_port) + u32_bytes(seq) + u32_bytes(ack) + seq![
        0x50u8,
        flags,
    ] + u16_bytes(window) + seq![0u8, 0u8, 0u8, 0u8]
}

pub fn build_tcp_header(
    src_port: u16,
    dst_port: u16,
    seq: u32,
    ack: u32,
    flags: u8,
    window: u16,
) -> (r: Vec<u8>)
    ensures
        r@ == tcp_header_bytes(src_port, dst_port, seq, ack, flags, window),
{
    let mut buf: Vec<u8> = Vec::with_capacity(TCP_HDR_LEN);
    push_be16(&mut buf, src_port);
    push_be16(&mut buf, dst_port);
    push_be32(&mut buf, seq);
    push_be32(&mut buf, ack);
    buf.push(0x50);  // data_offset = 5 (20 bytes, no options)
    buf.push(flags);
    push_be16(&mut buf, window);
    // checksum and urgent pointer left as 0 (caller fills checksum)
    push_be16(&mut buf, 0);
    push_be16(&mut buf, 0);
    assert(buf@ =~= tcp_header_bytes(src_port, dst_port, seq, ack, flags, window));
    buf
}

/// The 12-byte pseudo-header over which the TCP checksum also runs; the
/// length field wraps at 16 bits.
pub open spec fn pseudo_header(src_ip: Seq<u8>, dst_ip: Seq<u8>, tcp_len: nat) -> Seq<u8> {
    src_ip + dst_ip + seq![0u8, 6u8] + u16_bytes(len16(tcp_len))
}

/// A length as carried in a 16-bit field (it wraps).
pub open spec fn len16(n: nat) -> u16 {
    (n % 65536) as u16
}

fn len16_of(n: usize, extra: usize) -> (r: u16)
    requires
        extra < 65536,
    ensures
        r == len16((n + extra) as nat),
{
    ((n % 65536 + extra) % 65536) as u16
}

/// What the checksum of a built segment is computed over.
pub open spec fn tcp_checksum_input(
    src_ip: Seq<u8>,
    dst_ip: Seq<u8>,
    src_port: u16,
    dst_port: u16,
    seq: u32,
    ack: u32,
    flags: u8,
    window: u16,
    payload: Seq<u8>,
) -> Seq<u8> {
    pseudo_header(src_ip, dst_ip, (TCP_HDR_LEN + payload.len()) as nat) + tcp_header_bytes(
        src_port,
        dst_port,
        seq,
        ack,
        flags,
        window,
    ) + payload
}

/// The segment `build_tcp_segment` produces.
pub open spec fn tcp_segment(
    src_ip: Seq<u8>,
    dst_ip: Seq<u8>,
    src_port: u16,
    dst_port: u16,
    seq: u32,
    ack: u32,
    flags: u8,
    window: u16,
    payload: Seq<u8>,
) -> Seq<u8> {
    let cs = checksum_spec(
        tcp_checksum_input(src_ip, dst_ip, src_port, dst_port, seq, ack, flags, window, payload),
    );
    put_u16(tcp_header_bytes(src_port, dst_port, seq, ack, flags, window), 16, cs) + payload
}

fn push_pseudo_header(
    buf: &mut Vec<u8>,
    src_ip: [u8; 4],
    dst_ip: [u8; 4],
    tcp_len: u16,
    Ghost(n): Ghost<nat>,
)
    requires
        tcp_len == len16(n),
    ensures
        final(buf)@ == old(buf)@ + pseudo_header(src_ip@, dst_ip@, n),
{
    push_all(buf, src_ip.as_slice());
    push_all(buf, dst_ip.as_slice());
    buf.push(0);
    buf.push(6);  // TCP protocol
    push_be16(buf, tcp_len);
    assert(final(buf)@ =~= old(buf)@ + pseudo_header(src_ip@, dst_ip@, n));
}

fn segment_checksum(
    src_ip: [u8; 4],
    dst_ip: [u8; 4],
    header: &[u8],
    payload: &[u8],
) -> (cs: u16)
    requires
        header@.len() == TCP_HDR_LEN,
        sum_fits(
            pseudo_header(src_ip@, dst_ip@, (TCP_HDR_LEN + payload@.len()) as nat) + header@
                + payload@,
        ),
    ensures
        cs == checksum_spec(
            pseudo_header(src_ip@, dst_ip@, (TCP_HDR_LEN + payload@.len()) as nat) + header@
                + payload@,
        ),
{
    let tcp_len = len16_of(payload.len(), TCP_HDR_LEN);
    let mut full: Vec<u8> = Vec::new();
    push_pseudo_header(
        &mut full,
        src_ip,
        dst_ip,
        tcp_len,
        Ghost((TCP_HDR_LEN + payload@.len()) as nat),
    );
    push_all(&mut full, header);
    push_all(&mut full, payload);
    checksum(full.as_slice())
}

/// Build a TCP segment (header + payload) with checksum including pseudo-header.
pub fn build_tcp_segment(
    src_ip: [u8; 4],
    dst_ip: [u8; 4],
    src_port: u16,
    dst_port: u16,
    seq: u32,
    ack: u32,
    flags: u8,
    window: u16,
    payload: &[u8],
) -> (r: Vec<u8>)
    requires
        sum_fits(
            tcp_checksum_input(
                src_ip@,
                dst_ip@,
                src_port,
                dst_port,
                seq,
                ack,
                flags,
                window,
                payload@,
            ),
        ),
    ensures
        r@ == tcp_segment(src_ip@, dst_ip@, src_port, dst_port, seq, ack, flags, window, payload@),
{
    let mut header = build_tcp_header(src_port, dst_port, seq, ack, flags, window);
    // Checksum over pseudo-header + header + payload
    let cs = segment_checksum(src_ip, dst_ip, header.as_slice(), payload);
    set_be16(&mut header, 16, cs);
    // Final segment: header + payload
    push_all(&mut header, payload);
    header
}

/// The pseudo-header and segment over which a received segment's checksum
/// is checked.
pub open spec fn tcp_verify_input(src_ip: Seq<u8>, dst_ip: Seq<u8>, segment: Seq<u8>) -> Seq<u8> {
    pseudo_header(src_ip, dst_ip, segment.len()) + segment
}

pub fn verify_tcp_checksum(src_ip: [u8; 4], dst_ip: [u8; 4], segment: &[u8]) -> (r: bool)
    requires
        sum_fits(tcp_verify_input(src_ip@, dst_ip@, segment@)),
    ensures
        r == (checksum_spec(tcp_verify_input(src_ip@, dst_ip@, segment@)) == 0),
{
    let tcp_len = len16_of(segment.len(), 0);
    let mut full: Vec<u8> = Vec::new();
    push_pseudo_header(&mut full, src_ip, dst_ip, tcp_len, Ghost(segment@.len()));
    push_all(&mut full, segment);
    checksum(full.as_slice()) == 0
}

/// A segment built by `build_tcp_segment` passes `verify_tcp_checksum`
/// for the same addresses.
pub proof fn lemma_tcp_segment_verifies(
    src_ip: [u8; 4],
    dst_ip: [u8; 4],
    src_port: u16,
    dst_port: u16,
    seq: u32,
    ack: u32,
    flags: u8,
    window: u16,
    payload: Seq<u8>,
)
    ensures
        checksum_spec(
            tcp_verify_input(
                src_ip@,
                dst_ip@,
                tcp_segment(
                    src_ip@,
                    dst_ip@,
                    src_port,
                    dst_port,
                    seq,
                    ack,
                    flags,
                    window,
                    payload,
                ),
            ),
        ) == 0,
{
    let full = tcp_checksum_input(
        src_ip@,
        dst_ip@,
        src_port,
        dst_port,
        seq,
        ack,
        flags,
        window,
        payload,
    );
    let cs = checksum_spec(full);
    let seg = tcp_segment(src_ip@, dst_ip@, src_port, dst_port, seq, ack, flags, window, payload);
    let hdr = tcp_header_bytes(src_port, dst_port, seq, ack, flags, window);
    assert(seg.len() == TCP_HDR_LEN + payload.len());
    assert(full[28] == 0 && full[29] == 0);
    lemma_checksum_self_validates(full, 28);
    assert(tcp_verify_input(src_ip@, dst_ip@, seg) =~= put_u16(full, 28, cs));
}

/// Parsing a built segment gives back its header fields and payload.
pub proof fn lemma_tcp_segment_parses(
    src_ip: [u8; 4],
    dst_ip: [u8; 4],
    src_port: u16,
    dst_port: u16,
    seq: u32,
    ack: u32,
    flags: u8,
    window: u16,
    payload: Seq<u8>,
)
    ensures
        ({
            let s = tcp_segment(
                src_ip@,
                dst_ip@,
                src_port,
                dst_port,
                seq,
                ack,
                flags,
                window,
                payload,
            );
            &&& tcp_accepts(s)
            &&& tcp_hdr_len_of(s) == TCP_HDR_LEN
            &&& be16(s[0], s[1]) == src_port
            &&& be16(s[2], s[3]) == dst_port
            &&& be32(s[4], s[5], s[6], s[7]) == seq
            &&& be32(s[8], s[9], s[10], s[11]) == ack
            &&& s[13] == flags
            &&& be16(s[14], s[15]) == window
            &&& s.subrange(20, s.len() as int) == payload
        }),
{
    let s = tcp_segment(src_ip@, dst_ip@, src_port, dst_port, seq, ack, flags, window, payload);
    assert(s.subrange(20, s.len() as int) =~= payload);
    assert(s[12] == 0x50);
    assert(s[0] == u16_bytes(src_port)[0] && s[1] == u16_bytes(src_port)[1]);
    assert(s[2] == u16_bytes(dst_port)[0] && s[3] == u16_bytes(dst_port)[1]);
    assert(s[14] == u16_bytes(window)[0] && s[15] == u16_bytes(window)[1]);
    assert(s[4] == u32_bytes(seq)[0] && s[5] == u32_bytes(seq)[1] && s[6] == u32_bytes(seq)[2]
        && s[7] == u32_bytes(seq)[3]);
    assert(s[8] == u32_bytes(ack)[0] && s[9] == u32_bytes(ack)[1] && s[10] == u32_bytes(ack)[2]
        && s[11] == u32_bytes(ack)[3]);
    lemma_be32_roundtrip(seq);
    lemma_be32_roundtrip(ack);
}



// ── Connection state ──

#[derive(Clone, Copy, PartialEq, Eq, Debug, Structural)]
pub enum TcpState {
    Closed,
    Listen,
    SynSent,
    SynReceived,
    Established,
    FinWait1,
    FinWait2,
    CloseWait,
    Closing,
    LastAck,
    TimeWait,
}

// ── TCB (Transmission Control Block) ──

pub struct Tcb {
    // Connection identity
    pub local_ip: [u8; 4],
    pub remote_ip: [u8; 4],
    pub local_port: u16,
    pub remote_port: u16,
    // State
    pub state: TcpState,
    // Send sequence variables (RFC 793)
    pub iss: u32,  // initial send sequence number
    pub snd_una: u32,  // oldest unacknowledged sequence number
    pub snd_nxt: u32,  // next sequence number to send
    pub snd_wnd: u16,  // peer's advertised window
    // Receive sequence variables (RFC 793)
    pub irs: u32,  // initial receive sequence number
    pub rcv_nxt: u32,  // next expected sequence number
    pub _rcv_wnd: u16,  // our advertised window
    // Retransmission (milliseconds)
    pub rto: u64,
    pub retransmit_at: Option<u64>,
    pub retransmit_count: u32,
    // Send buffer: all unacked application data.
    pub send_buffer: Vec<u8>,
    pub recv_buffer: Vec<u8>,
}

/// A TCB with its buffers as sequences.
pub struct TcbView {
    pub local_ip: [u8; 4],
    pub remote_ip: [u8; 4],
    pub local_port: u16,
    pub remote_port: u16,
    pub state: TcpState,
    pub iss: u32,
    pub snd_una: u32,
    pub snd_nxt: u32,
    pub snd_wnd: u16,
    pub irs: u32,
    pub rcv_nxt: u32,
    pub _rcv_wnd: u16,
    pub rto: u64,
    pub retransmit_at: Option<u64>,
    pub retransmit_count: u32,
    pub send_buffer: Seq<u8>,
    pub recv_buffer: Seq<u8>,
}

impl View for Tcb {
    type V = TcbView;

    open spec fn view(&self) -> TcbView {
        TcbView {
            local_ip: self.local_ip,
            remote_ip: self.remote_ip,
            local_port: self.local_port,
            remote_port: self.remote_port,
            state: self.state,
            iss: self.iss,
            snd_una: self.snd_una,
            snd_nxt: self.snd_nxt,
            snd_wnd: self.snd_wnd,
            irs: self.irs,
            rcv_nxt: self.rcv_nxt,
            _rcv_wnd: self._rcv_wnd,
            rto: self.rto,
            retransmit_at: self.retransmit_at,
            retransmit_count: self.retransmit_count,
            send_buffer: self.send_buffer@,
            recv_buffer: self.recv_buffer@,
        }
    }
}

/// An outgoing TCP segment to be wrapped in IP and sent.
#[derive(Debug)]
pub struct OutgoingSegment {
    pub flags: u8,
    pub seq: u32,
    pub ack: u32,
    pub payload: Vec<u8>,
    pub dst_port: u16,
}

pub struct SegView {
    pub flags: u8,
    pub seq: u32,
    pub ack: u32,
    pub payload: Seq<u8>,
    pub dst_port: u16,
}

impl View for OutgoingSegment {
    type V = SegView;

    open spec fn view(&self) -> SegView {
        SegView {
            flags: self.flags,
            seq: self.seq,
            ack: self.ack,
            payload: self.payload@,
            dst_port: self.dst_port,
        }
    }
}

pub open spec fn segs_view(v: Seq<OutgoingSegment>) -> Seq<SegView> {
    v.map_values(|s: OutgoingSegment| s@)
}

/// A segment with no payload.
pub open spec fn ctl_seg(flags: u8, seq: u32, ack: u32, dst_port: u16) -> SegView {
    SegView { flags, seq, ack, payload: Seq::empty(), dst_port }
}

/// The pure ACK a connection sends from its current sequence numbers.
pub open spec fn ack_of(t: TcbView) -> SegView {
    ctl_seg(TCP_ACK, t.snd_nxt, t.rcv_nxt, t.remote_port)
}

/// 1 when `b` is set in `flags`, else 0.
pub open spec fn bit(flags: u8, b: u8) -> u32 {
    if flags & b != 0 {
        1
    } else {
        0
    }
}

/// Length of a payload as the 32-bit sequence arithmetic sees it.
pub open spec fn seg_len(p: Seq<u8>) -> u32 {
    p.len() as u32
}

/// The sequence space a segment occupies fits a 32-bit sum.
pub open spec fn seg_fits(h: TcpHeader, p: Seq<u8>) -> bool {
    seg_len(p) + bit(h.flags, TCP_SYN) + bit(h.flags, TCP_FIN) <= u32::MAX
}

/// The clock is far enough from its end that `now` plus any timeout fits.
pub open spec fn time_ok(now: u64) -> bool {
    now as int + MAX_RTO_MS <= u64::MAX
}

/// In-order data received while the peer may still send.
pub open spec fn accept_data(u: TcbView, h: TcpHeader, p: Seq<u8>) -> TcbView {
    if seg_len(p) > 0 && h.seq == u.rcv_nxt {
        TcbView { recv_buffer: u.recv_buffer + p, rcv_nxt: u.rcv_nxt.wrapping_add(seg_len(p)), ..u }
    } else {
        u
    }
}

/// The ACK value `a` acknowledges new data: SND.UNA < a <= SND.NXT in
/// sequence-number (wrapping) arithmetic.
pub open spec fn acks_new_data(t: TcbView, a: u32) -> bool {
    0 < a.wrapping_sub(t.snd_una) <= t.snd_nxt.wrapping_sub(t.snd_una)
}

/// ACK processing in ESTABLISHED: an ACK of new data advances `snd_una`
/// and drops the acknowledged bytes from the front of the send buffer; the
/// retransmission timer stops once everything sent is acknowledged. Any
/// other ACK changes nothing.
pub open spec fn est_ack(t: TcbView, h: TcpHeader) -> TcbView {
    if h.flags & TCP_ACK != 0 && acks_new_data(t, h.ack) {
        let acked = h.ack.wrapping_sub(t.snd_una) as int;
        let trim = if acked < t.send_buffer.len() {
            acked
        } else {
            t.send_buffer.len() as int
        };
        let t1 = TcbView {
            send_buffer: t.send_buffer.subrange(trim, t.send_buffer.len() as int),
            snd_una: h.ack,
            ..t
        };
        if h.ack == t.snd_nxt {
            TcbView { retransmit_at: None, retransmit_count: 0, ..t1 }
        } else {
            t1
        }
    } else {
        t
    }
}

pub open spec fn step_syn_received(t: TcbView, h: TcpHeader, now: u64) -> (TcbView, Seq<SegView>) {
    if h.flags & TCP_ACK != 0 && h.ack == t.snd_nxt {
        (
            TcbView {
                state: TcpState::Established,
                rcv_nxt: h.seq.wrapping_add(1),
                snd_una: h.ack,
                retransmit_at: None,
                retransmit_count: 0,
                ..t
            },
            Seq::empty(),
        )
    } else if t.retransmit_at matches Some(d) && now >= d {
        (t, seq![ctl_seg(TCP_SYN | TCP_ACK, t.iss, t.rcv_nxt, t.remote_port)])
    } else {
        (t, Seq::empty())
    }
}

pub open spec fn step_established(t: TcbView, h: TcpHeader, p: Seq<u8>) -> (TcbView, Seq<SegView>) {
    let t1 = est_ack(t, h);
    let len = seg_len(p);
    let syn = bit(h.flags, TCP_SYN);
    let fin = bit(h.flags, TCP_FIN);
    if (len > 0 || syn != 0 || fin != 0) && h.seq == t1.rcv_nxt {
        let t2 = TcbView {
            recv_buffer: if len > 0 {
                t1.recv_buffer + p
            } else {
                t1.recv_buffer
            },
            rcv_nxt: h.seq.wrapping_add((len + syn + fin) as u32),
            ..t1
        };
        (
            if fin != 0 {
                TcbView { state: TcpState::CloseWait, ..t2 }
            } else {
                t2
            },
            seq![ack_of(t2)],
        )
    } else {
        (t1, Seq::empty())
    }
}

pub open spec fn step_close_wait(t: TcbView, h: TcpHeader, p: Seq<u8>) -> (TcbView, Seq<SegView>) {
    if seg_len(p) > 0 && h.seq == t.rcv_nxt {
        let t2 = accept_data(t, h, p);
        (t2, seq![ack_of(t2)])
    } else {
        (t, Seq::empty())
    }
}

pub open spec fn step_last_ack(t: TcbView, h: TcpHeader) -> (TcbView, Seq<SegView>) {
    if h.flags & TCP_ACK != 0 {
        (TcbView { state: TcpState::Closed, retransmit_at: None, ..t }, Seq::empty())
    } else {
        (t, Seq::empty())
    }
}

pub open spec fn step_fin_wait1(t: TcbView, h: TcpHeader, p: Seq<u8>, now: u64) -> (TcbView, Seq<
    SegView,
>) {
    let len = seg_len(p);
    if h.flags & TCP_ACK != 0 {
        if h.ack == t.snd_nxt {
            let t1 = TcbView { snd_una: h.ack, retransmit_at: None, retransmit_count: 0, ..t };
            if h.flags & TCP_FIN != 0 {
                let t2 = TcbView {
                    rcv_nxt: h.seq.wrapping_add((len + 1) as u32),
                    state: TcpState::TimeWait,
                    retransmit_at: Some((now + MAX_RTO_MS) as u64),
                    ..t1
                };
                (t2, seq![ack_of(t2)])
            } else {
                (accept_data(TcbView { state: TcpState::FinWait2, ..t1 }, h, p), Seq::empty())
            }
        } else {
            (accept_data(t, h, p), Seq::empty())
        }
    } else if h.flags & TCP_FIN != 0 {
        let t2 = TcbView {
            rcv_nxt: h.seq.wrapping_add((len + 1) as u32),
            state: TcpState::Closing,
            ..t
        };
        (t2, seq![ack_of(t2)])
    } else {
        (accept_data(t, h, p), Seq::empty())
    }
}

pub open spec fn step_fin_wait2(t: TcbView, h: TcpHeader, p: Seq<u8>, now: u64) -> (TcbView, Seq<
    SegView,
>) {
    if h.flags & TCP_FIN != 0 && h.seq == t.rcv_nxt {
        let t2 = TcbView {
            rcv_nxt: h.seq.wrapping_add((seg_len(p) + 1) as u32),
            state: TcpState::TimeWait,
            retransmit_at: Some((now + MAX_RTO_MS) as u64),
            ..t
        };
        (t2, seq![ack_of(t2)])
    } else {
        (accept_data(t, h, p), Seq::empty())
    }
}

pub open spec fn step_syn_sent(t: TcbView, h: TcpHeader) -> (TcbView, Seq<SegView>) {
    if h.flags & (TCP_SYN | TCP_ACK) == TCP_SYN | TCP_ACK {
        if h.ack == t.snd_nxt {
            let t2 = TcbView {
                irs: h.seq,
                rcv_nxt: h.seq.wrapping_add(1),
                snd_una: h.ack,
                snd_wnd: h.window,
                state: TcpState::Established,
                retransmit_at: None,
                retransmit_count: 0,
                ..t
            };
            (t2, seq![ack_of(t2)])
        } else {
            (t, Seq::empty())
        }
    } else if h.flags & TCP_RST != 0 {
        (TcbView { state: TcpState::Closed, ..t }, Seq::empty())
    } else {
        (t, Seq::empty())
    }
}

pub open spec fn step_closing(t: TcbView, h: TcpHeader, now: u64) -> (TcbView, Seq<SegView>) {
    if h.flags & TCP_ACK != 0 && h.ack == t.snd_nxt {
        (
            TcbView {
                state: TcpState::TimeWait,
                retransmit_at: Some((now + MAX_RTO_MS) as u64),
                retransmit_count: 0,
                ..t
            },
            Seq::empty(),
        )
    } else {
        (t, Seq::empty())
    }
}

/// How a connection in state `t.state` reacts to a segment with header `h`
/// and payload `p` at time `now`: its new state and the segments to send.
pub open spec fn tcb_step(t: TcbView, h: TcpHeader, p: Seq<u8>, now: u64) -> (TcbView, Seq<SegView>) {
    match t.state {
        TcpState::SynReceived => step_syn_received(t, h, now),
        TcpState::Established => step_established(t, h, p),
        TcpState::CloseWait => step_close_wait(t, h, p),
        TcpState::LastAck => step_last_ack(t, h),
        TcpState::FinWait1 => step_fin_wait1(t, h, p, now),
        TcpState::FinWait2 => step_fin_wait2(t, h, p, now),
        TcpState::SynSent => step_syn_sent(t, h),
        TcpState::Closing => step_closing(t, h, now),
        _ => (t, Seq::empty()),
    }
}

/// The state changes that an incoming segment can cause.
pub open spec fn allowed_transition(a: TcpState, b: TcpState) -> bool {
    ||| a == b
    ||| a == TcpState::SynReceived && b == TcpState::Established
    ||| a == TcpState::SynSent && (b == TcpState::Established || b == TcpState::Closed)
    ||| a == TcpState::Established && b == TcpState::CloseWait
    ||| a == TcpState::FinWait1 && (b == TcpState::FinWait2 || b == TcpState::TimeWait || b == TcpState::Closing)
    ||| a == TcpState::FinWait2 && b == TcpState::TimeWait
    ||| a == TcpState::LastAck && b == TcpState::Closed
    ||| a == TcpState::Closing && b == TcpState::TimeWait
}

/// Whatever segment arrives, a connection only moves along the TCP state
/// diagram's edges for incoming segments; its addresses, ports, initial
/// sequence number and next send sequence number do not change; and every
/// segment it answers with goes to the peer's port.
pub proof fn lemma_tcb_step_shape(t: TcbView, h: TcpHeader, p: Seq<u8>, now: u64)
    ensures
        ({
            let (t2, out) = tcb_step(t, h, p, now);
            &&& allowed_transition(t.state, t2.state)
            &&& t2.local_ip == t.local_ip && t2.remote_ip == t.remote_ip
            &&& t2.local_port == t.local_port && t2.remote_port == t.remote_port
            &&& t2.iss == t.iss && t2.snd_nxt == t.snd_nxt
            &&& forall|i: int| 0 <= i < out.len() ==> (#[trigger] out[i]).dst_port == t.remote_port
        }),
{
}

/// In FIN-WAIT-2, the peer's FIN at the next expected sequence number is
/// acknowledged: the next expected number moves past the segment's data and
/// the FIN (sequence number + data length + 1, modulo 2^32), the
/// connection enters TIME-WAIT, and exactly one pure ACK carrying that
/// number goes to the peer.
pub proof fn lemma_fin_wait2_acks_fin(t: TcbView, h: TcpHeader, p: Seq<u8>, now: u64)
    requires
        t.state == TcpState::FinWait2,
        h.flags & TCP_FIN != 0,
        h.seq == t.rcv_nxt,
        p.len() + 1 <= u32::MAX,
    ensures
        ({
            let (t2, out) = tcb_step(t, h, p, now);
            let expect = ((h.seq as int + p.len() + 1) % 0x1_0000_0000) as u32;
            &&& t2.state == TcpState::TimeWait
            &&& t2.rcv_nxt == expect
            &&& out.len() == 1
            &&& out[0].flags == TCP_ACK
            &&& out[0].ack == expect
            &&& out[0].seq == t.snd_nxt
            &&& out[0].payload.len() == 0
            &&& out[0].dst_port == t.remote_port
        }),
{
}

/// In an established connection, a segment without SYN or FIN whose data
/// starts at the next expected sequence number has its data appended to
/// the receive buffer; the next expected number moves past it, the
/// connection stays established, and one ACK of the new number answers it.
pub proof fn lemma_in_order_data_delivered(t: TcbView, h: TcpHeader, p: Seq<u8>, now: u64)
    requires
        t.state == TcpState::Established,
        0 < p.len() <= u32::MAX,
        h.flags & TCP_SYN == 0,
        h.flags & TCP_FIN == 0,
        h.seq == t.rcv_nxt,
    ensures
        ({
            let (t2, out) = tcb_step(t, h, p, now);
            &&& t2.state == TcpState::Established
            &&& t2.recv_buffer == t.recv_buffer + p
            &&& t2.rcv_nxt == t.rcv_nxt.wrapping_add(p.len() as u32)
            &&& out == seq![ack_of(t2)]
            &&& out[0].flags == TCP_ACK
            &&& out[0].ack == t2.rcv_nxt
        }),
{
    let t1 = est_ack(t, h);
    assert(t1.rcv_nxt == t.rcv_nxt && t1.recv_buffer == t.recv_buffer && t1.state == t.state);
    assert(seg_len(p) > 0);
}

/// In an established connection, an ACK of new data (SND.UNA < ACK <=
/// SND.NXT, in wrapping arithmetic) of `k` bytes moves `snd_una` to it and
/// drops the first `k` bytes of the send buffer (all of it when shorter);
/// the retransmission timer stops only when everything sent is
/// acknowledged. Any other ACK leaves `snd_una`, the send buffer and the
/// timer as they were.
pub proof fn lemma_ack_trims_send_buffer(t: TcbView, h: TcpHeader, p: Seq<u8>, now: u64)
    requires
        t.state == TcpState::Established,
    ensures
        ({
            let t2 = tcb_step(t, h, p, now).0;
            let k = h.ack.wrapping_sub(t.snd_una) as int;
            if h.flags & TCP_ACK != 0 && acks_new_data(t, h.ack) {
                &&& t2.snd_una == h.ack
                &&& t2.send_buffer == t.send_buffer.subrange(
                    if k < t.send_buffer.len() { k } else { t.send_buffer.len() as int },
                    t.send_buffer.len() as int,
                )
                &&& (h.ack == t.snd_nxt ==> t2.retransmit_at is None && t2.retransmit_count == 0)
                &&& (h.ack != t.snd_nxt ==> t2.retransmit_at == t.retransmit_at && t2.retransmit_count
                    == t.retransmit_count)
            } else {
                &&& t2.snd_una == t.snd_una
                &&& t2.send_buffer == t.send_buffer
                &&& t2.retransmit_at == t.retransmit_at
                &&& t2.retransmit_count == t.retransmit_count
            }
        }),
{
}

fn ack_segment(tcb: &Tcb) -> (r: OutgoingSegment)
    ensures
        r@ == ack_of(tcb@),
{
    let r = OutgoingSegment {
        flags: TCP_ACK,
        seq: tcb.snd_nxt,
        ack: tcb.rcv_nxt,
        payload: Vec::new(),
        dst_port: tcb.remote_port,
    };
    assert(r@ =~= ack_of(tcb@));
    r
}

fn one(s: OutgoingSegment) -> (r: Vec<OutgoingSegment>)
    ensures
        segs_view(r@) == seq![s@],
{
    let mut v: Vec<OutgoingSegment> = Vec::new();
    v.push(s);
    assert(segs_view(v@) =~= seq![s@]);
    v
}

fn none() -> (r: Vec<OutgoingSegment>)
    ensures
        segs_view(r@) == Seq::<SegView>::empty(),
{
    let v: Vec<OutgoingSegment> = Vec::new();
    assert(segs_view(v@) =~= Seq::<SegView>::empty());
    v
}

fn append_recv(tcb: &mut Tcb, payload: &[u8])
    ensures
        final(tcb)@ == (TcbView { recv_buffer: old(tcb)@.recv_buffer + payload@, ..old(tcb)@ }),
{
    push_all(&mut tcb.recv_buffer, payload);
}

fn accept_data_exec(tcb: &mut Tcb, header: &TcpHeader, payload: &[u8])
    ensures
        final(tcb)@ == accept_data(old(tcb)@, *header, payload@),
{
    let seg_len = payload.len() as u32;
    if seg_len > 0 && header.seq == tcb.rcv_nxt {
        append_recv(tcb, payload);
        tcb.rcv_nxt = tcb.rcv_nxt.wrapping_add(seg_len);
    }
}

fn established_exec(tcb: &mut Tcb, header: &TcpHeader, payload: &[u8]) -> (r: Vec<OutgoingSegment>)
    requires
        seg_fits(*header, payload@),
    ensures
        (final(tcb)@, segs_view(r@)) == step_established(old(tcb)@, *header, payload@),
{
    let seg_len = payload.len() as u32;
    let syn_flag: u32 = if header.flags & TCP_SYN != 0 { 1 } else { 0 };
    let fin_flag: u32 = if header.flags & TCP_FIN != 0 { 1 } else { 0 };
    let mut outgoing = none();
    // Process ACK: advance snd_una, trim send_buffer
    if header.flags & TCP_ACK != 0 {
        let ack_val = header.ack;
        if ack_val.wrapping_sub(tcb.snd_una) > 0 && ack_val.wrapping_sub(tcb.snd_una) <= tcb.snd_nxt.wrapping_sub(
            tcb.snd_una,
        ) {
            let acked = ack_val.wrapping_sub(tcb.snd_una) as usize;
            let len = tcb.send_buffer.len();
            let trim = if acked < len { acked } else { len };
            if trim > 0 {
                tcb.send_buffer = copy_range(tcb.send_buffer.as_slice(), trim, len);
            } else {
                assert(tcb.send_buffer@.subrange(0, len as int) =~= tcb.send_buffer@);
            }
            tcb.snd_una = ack_val;
            // Stop retransmit timer if all data ACKed
            if tcb.snd_una == tcb.snd_nxt {
                tcb.retransmit_at = None;
                tcb.retransmit_count = 0;
            }
        }
    }
    assert(tcb@ == est_ack(old(tcb)@, *header));
    // Process incoming data
    if seg_len > 0 || syn_flag != 0 || fin_flag != 0 {
        if header.seq == tcb.rcv_nxt {
            if seg_len > 0 {
                append_recv(tcb, payload);
            }
            tcb.rcv_nxt = header.seq.wrapping_add(seg_len + syn_flag + fin_flag);
            outgoing = one(ack_segment(tcb));
            if fin_flag != 0 {
                tcb.state = TcpState::CloseWait;
            }
        }
    }
    outgoing
}

fn fin_wait1_exec(tcb: &mut Tcb, header: &TcpHeader, payload: &[u8], now: u64) -> (r: Vec<
    OutgoingSegment,
>)
    requires
        seg_fits(*header, payload@),
        time_ok(now),
    ensures
        (final(tcb)@, segs_view(r@)) == step_fin_wait1(old(tcb)@, *header, payload@, now),
{
    let seg_len = payload.len() as u32;
    if header.flags & TCP_ACK != 0 {
        if header.ack == tcb.snd_nxt {
            tcb.snd_una = header.ack;
            tcb.retransmit_at = None;
            tcb.retransmit_count = 0;
            if header.flags & TCP_FIN != 0 {
                // Simultaneous close: FIN+ACK received
                tcb.rcv_nxt = header.seq.wrapping_add(seg_len + 1);
                tcb.state = TcpState::TimeWait;
                tcb.retransmit_at = Some(now + MAX_RTO_MS);
                return one(ack_segment(tcb));
            }
            tcb.state = TcpState::FinWait2;
        }
    } else if header.flags & TCP_FIN != 0 {
        // FIN before ACK
        tcb.rcv_nxt = header.seq.wrapping_add(seg_len + 1);
        tcb.state = TcpState::Closing;
        return one(ack_segment(tcb));
    }
    // Buffer any data
    accept_data_exec(tcb, header, payload);
    none()
}

fn fin_wait2_exec(tcb: &mut Tcb, header: &TcpHeader, payload: &[u8], now: u64) -> (r: Vec<
    OutgoingSegment,
>)
    requires
        seg_fits(*header, payload@),
        time_ok(now),
    ensures
        (final(tcb)@, segs_view(r@)) == step_fin_wait2(old(tcb)@, *header, payload@, now),
{
    let seg_len = payload.len() as u32;
    if header.flags & TCP_FIN != 0 && header.seq == tcb.rcv_nxt {
        tcb.rcv_nxt = header.seq.wrapping_add(seg_len + 1);
        tcb.state = TcpState::TimeWait;
        tcb.retransmit_at = Some(now + MAX_RTO_MS);
        return one(ack_segment(tcb));
    }
    accept_data_exec(tcb, header, payload);
    none()
}

/// Process a segment for an existing connection: update the TCB and return
/// the segments to send back.
pub fn process_existing_tcb(tcb: &mut Tcb, header: &TcpHeader, payload: &[u8], now: u64) -> (r: Vec<
    OutgoingSegment,
>)
    requires
        seg_fits(*header, payload@),
        time_ok(now),
    ensures
        (final(tcb)@, segs_view(r@)) == tcb_step(old(tcb)@, *header, payload@, now),
        allowed_transition(old(tcb).state, final(tcb).state),
        final(tcb).local_ip == old(tcb).local_ip && final(tcb).remote_ip == old(tcb).remote_ip,
        final(tcb).local_port == old(tcb).local_port && final(tcb).remote_port == old(tcb).remote_port,
        final(tcb).iss == old(tcb).iss && final(tcb).snd_nxt == old(tcb).snd_nxt,
        forall|i: int| 0 <= i < r@.len() ==> (#[trigger] r@[i]).dst_port == old(tcb).remote_port,
{
    let ghost t0 = tcb@;
    let r = step_tcb(tcb, header, payload, now);
    proof {
        lemma_tcb_step_shape(t0, *header, payload@, now);
        let out = tcb_step(t0, *header, payload@, now).1;
        assert forall|i: int| 0 <= i < r@.len() implies (#[trigger] r@[i]).dst_port == t0.remote_port by {
            assert(segs_view(r@)[i] == r@[i]@);
            assert(out[i] == segs_view(r@)[i]);
            assert(out[i].dst_port == t0.remote_port);
        }
    }
    r
}

fn step_tcb(tcb: &mut Tcb, header: &TcpHeader, payload: &[u8], now: u64) -> (r: Vec<OutgoingSegment>)
    requires
        seg_fits(*header, payload@),
        time_ok(now),
    ensures
        (final(tcb)@, segs_view(r@)) == tcb_step(old(tcb)@, *header, payload@, now),
{
    match tcb.state {
        TcpState::SynReceived => {
            // Expecting ACK of our SYN+ACK
            if header.flags & TCP_ACK != 0 {
                if header.ack == tcb.snd_nxt {
                    tcb.state = TcpState::Established;
                    tcb.rcv_nxt = header.seq.wrapping_add(1);  // consume the SYN
                    tcb.snd_una = header.ack;
                    tcb.retransmit_at = None;
                    tcb.retransmit_count = 0;
                    return none();
                }
            }
            // Invalid or wrong ACK → re-send SYN+ACK if timer expired
            let expired = match tcb.retransmit_at {
                Some(t) => now >= t,
                None => false,
            };
            if expired {
                let s = OutgoingSegment {
                    flags: TCP_SYN | TCP_ACK,
                    seq: tcb.iss,
                    ack: tcb.rcv_nxt,
                    payload: Vec::new(),
                    dst_port: tcb.remote_port,
                };
                assert(s@ =~= ctl_seg(TCP_SYN | TCP_ACK, tcb.iss, tcb.rcv_nxt, tcb.remote_port));
                return one(s);
            }
            none()
        },
        TcpState::Established => established_exec(tcb, header, payload),
        TcpState::CloseWait => {
            // Waiting for application to call close() — just ACK any data
            let seg_len = payload.len() as u32;
            if seg_len > 0 && header.seq == tcb.rcv_nxt {
                accept_data_exec(tcb, header, payload);
                return one(ack_segment(tcb));
            }
            none()
        },
        TcpState::LastAck => {
            // Waiting for ACK of our FIN
            if header.flags & TCP_ACK != 0 {
                tcb.state = TcpState::Closed;
                tcb.retransmit_at = None;
            }
            none()
        },
        TcpState::FinWait1 => fin_wait1_exec(tcb, header, payload, now),
        TcpState::FinWait2 => fin_wait2_exec(tcb, header, payload, now),
        TcpState::SynSent => {
            // Expecting SYN+ACK from server
            if header.flags & (TCP_SYN | TCP_ACK) == TCP_SYN | TCP_ACK {
                if header.ack == tcb.snd_nxt {
                    tcb.irs = header.seq;
                    tcb.rcv_nxt = header.seq.wrapping_add(1);
                    tcb.snd_una = header.ack;
                    tcb.snd_wnd = header.window;
                    tcb.state = TcpState::Established;
                    tcb.retransmit_at = None;
                    tcb.retransmit_count = 0;
                    // Send ACK to complete handshake
                    return one(ack_segment(tcb));
                }
            } else if header.flags & TCP_RST != 0 {
                tcb.state = TcpState::Closed;
            }
            none()
        },
        TcpState::Closing => {
            // Sent FIN, received FIN, waiting for ACK of our FIN
            if header.flags & TCP_ACK != 0 && header.ack == tcb.snd_nxt {
                tcb.state = TcpState::TimeWait;
                tcb.retransmit_at = Some(now + MAX_RTO_MS);
                tcb.retransmit_count = 0;
            }
            none()
        },
        _ => none(),
    }
}


// ── Connection table ──

/// 4-tuple key for connection lookup: (local_ip, local_port, remote_ip, remote_port).
pub type ConnKey = ([u8; 4], u16, [u8; 4], u16);

/// The key as integers.
pub open spec fn key_of(k: ConnKey) -> (u32, u16, u32, u16) {
    (ip_key(k.0), k.1, ip_key(k.2), k.3)
}

pub open spec fn entry_key() -> spec_fn((ConnKey, TcbView)) -> (u32, u16, u32, u16) {
    |e: (ConnKey, TcbView)| key_of(e.0)
}

pub open spec fn entry_view(e: (ConnKey, Tcb)) -> (ConnKey, TcbView) {
    (e.0, e.1@)
}

pub open spec fn model_of(v: Seq<(ConnKey, Tcb)>) -> Seq<(ConnKey, TcbView)> {
    v.map_values(|e: (ConnKey, Tcb)| entry_view(e))
}

pub struct TcpManager {
    connections: Vec<(ConnKey, Tcb)>,
}

fn same_key(a: &ConnKey, b: &ConnKey) -> (r: bool)
    ensures
        r == (key_of(*a) == key_of(*b)),
{
    ip_key_of(a.0) == ip_key_of(b.0) && a.1 == b.1 && ip_key_of(a.2) == ip_key_of(b.2) && a.3
        == b.3
}

/// The RST answer to a segment for which no connection exists.
pub open spec fn rst_reply(h: TcpHeader, p: Seq<u8>) -> Seq<SegView> {
    if h.flags & TCP_RST == 0 {
        seq![
            SegView {
                flags: TCP_RST | TCP_ACK,
                seq: if h.flags & TCP_ACK != 0 {
                    h.ack
                } else {
                    0
                },
                ack: h.seq.wrapping_add((seg_len(p) + bit(h.flags, TCP_SYN)) as u32),
                payload: Seq::empty(),
                dst_port: h.src_port,
            },
        ]
    } else {
        Seq::empty()
    }
}

/// The segment to retransmit for a connection whose timer fired; with
/// data, it resends the whole send buffer (all unacknowledged bytes) from
/// `snd_una`.
pub open spec fn retransmit_seg(t: TcbView) -> SegView {
    match t.state {
        TcpState::SynSent => ctl_seg(TCP_SYN, t.iss, 0, t.remote_port),
        TcpState::SynReceived => ctl_seg(TCP_SYN | TCP_ACK, t.iss, t.rcv_nxt, t.remote_port),
        TcpState::Established | TcpState::CloseWait => {
            let payload = t.send_buffer;
            SegView {
                flags: if payload.len() == 0 {
                    TCP_ACK
                } else {
                    TCP_PSH | TCP_ACK
                },
                seq: t.snd_una,
                ack: t.rcv_nxt,
                payload,
                dst_port: t.remote_port,
            }
        },
        TcpState::FinWait1 | TcpState::LastAck | TcpState::Closing => ctl_seg(
            TCP_FIN | TCP_ACK,
            t.snd_nxt.wrapping_sub(1),
            t.rcv_nxt,
            t.remote_port,
        ),
        _ => ctl_seg(TCP_ACK, t.snd_una, t.rcv_nxt, t.remote_port),
    }
}

/// A retransmission of an established (or half-closed) connection resends
/// exactly the unacknowledged bytes, the whole send buffer, starting at
/// `snd_una`.
pub proof fn lemma_retransmit_resends_unacked(t: TcbView)
    requires
        t.state == TcpState::Established || t.state == TcpState::CloseWait,
    ensures
        retransmit_seg(t).payload == t.send_buffer,
        retransmit_seg(t).seq == t.snd_una,
        retransmit_seg(t).ack == t.rcv_nxt,
        retransmit_seg(t).dst_port == t.remote_port,
        retransmit_seg(t).flags == if t.send_buffer.len() == 0 { TCP_ACK } else { TCP_PSH | TCP_ACK },
{
}

/// Build an OutgoingSegment for retransmission from the TCB state.
pub fn build_retransmit(tcb: &Tcb) -> (r: OutgoingSegment)
    ensures
        r@ == retransmit_seg(tcb@),
{
    let r = match tcb.state {
        TcpState::SynSent => OutgoingSegment {
            flags: TCP_SYN,
            seq: tcb.iss,
            ack: 0,
            payload: Vec::new(),
            dst_port: tcb.remote_port,
        },
        TcpState::SynReceived => OutgoingSegment {
            flags: TCP_SYN | TCP_ACK,
            seq: tcb.iss,
            ack: tcb.rcv_nxt,
            payload: Vec::new(),
            dst_port: tcb.remote_port,
        },
        TcpState::Established | TcpState::CloseWait => {
            // The send buffer holds exactly the unacknowledged data, which
            // starts at snd_una.
            let payload = copy_range(tcb.send_buffer.as_slice(), 0, tcb.send_buffer.len());
            assert(payload@ =~= tcb.send_buffer@);
            OutgoingSegment {
                flags: if payload.len() == 0 {
                    TCP_ACK
                } else {
                    TCP_PSH | TCP_ACK
                },
                seq: tcb.snd_una,
                ack: tcb.rcv_nxt,
                payload,
                dst_port: tcb.remote_port,
            }
        },
        TcpState::FinWait1 | TcpState::LastAck | TcpState::Closing => OutgoingSegment {
            flags: TCP_FIN | TCP_ACK,
            seq: tcb.snd_nxt.wrapping_sub(1),  // FIN was already counted
            ack: tcb.rcv_nxt,
            payload: Vec::new(),
            dst_port: tcb.remote_port,
        },
        _ => OutgoingSegment {
            flags: TCP_ACK,
            seq: tcb.snd_una,
            ack: tcb.rcv_nxt,
            payload: Vec::new(),
            dst_port: tcb.remote_port,
        },
    };
    assert(r@ =~= retransmit_seg(tcb@));
    r
}

/// What the retransmission timer does to a connection at `now`: its new
/// state and the segment to resend, if any. A TIME-WAIT whose timer has
/// run out is left as it is (and then dropped), with nothing sent.
pub open spec fn retx_update(t: TcbView, now: u64) -> (TcbView, Option<SegView>) {
    match t.retransmit_at {
        Some(d) => if now >= d {
            if t.state == TcpState::TimeWait {
                (t, None)
            } else if t.retransmit_count >= MAX_RETRANSMITS {
                (TcbView { state: TcpState::Closed, ..t }, None)
            } else {
                let t2 = TcbView {
                    retransmit_at: Some((now + t.rto) as u64),
                    rto: if t.rto * 2 < MAX_RTO_MS {
                        (t.rto * 2) as u64
                    } else {
                        MAX_RTO_MS
                    },
                    retransmit_count: (t.retransmit_count + 1) as u32,
                    ..t
                };
                (t2, Some(retransmit_seg(t2)))
            }
        } else {
            (t, None)
        },
        None => (t, None),
    }
}

/// A connection is kept after a timer pass unless it is closed or its
/// TIME-WAIT has run out.
pub open spec fn keeps(t: TcbView, now: u64) -> bool {
    &&& t.state != TcpState::Closed
    &&& !(t.state == TcpState::TimeWait && (t.retransmit_at matches Some(e) && now >= e))
}

/// A TIME-WAIT connection whose timer has run out is dropped by the next
/// timer pass, and nothing is sent for it.
pub proof fn lemma_time_wait_expires(t: TcbView, now: u64)
    requires
        t.state == TcpState::TimeWait,
        t.retransmit_at matches Some(d) && now >= d,
    ensures
        retx_update(t, now).1 is None,
        !keeps(retx_update(t, now).0, now),
{
}

pub open spec fn keep_pred(now: u64) -> spec_fn((ConnKey, TcbView)) -> bool {
    |e: (ConnKey, TcbView)| keeps(e.1, now)
}

pub open spec fn retx_entry(e: (ConnKey, TcbView), now: u64) -> (ConnKey, TcbView) {
    (e.0, retx_update(e.1, now).0)
}

/// The table after a timer pass (before removing finished connections).
pub open spec fn retx_all(s: Seq<(ConnKey, TcbView)>, now: u64) -> Seq<(ConnKey, TcbView)> {
    s.map_values(|e: (ConnKey, TcbView)| retx_entry(e, now))
}

/// The segments a timer pass resends, in table order.
pub open spec fn retx_out(s: Seq<(ConnKey, TcbView)>, now: u64) -> Seq<(ConnKey, SegView)>
    decreases s.len(),
{
    if s.len() == 0 {
        Seq::empty()
    } else {
        let e = s.last();
        retx_out(s.drop_last(), now) + match retx_update(e.1, now).1 {
            Some(seg) => seq![(e.0, seg)],
            None => Seq::empty(),
        }
    }
}

pub open spec fn pairs_view(v: Seq<(ConnKey, OutgoingSegment)>) -> Seq<(ConnKey, SegView)> {
    v.map_values(|e: (ConnKey, OutgoingSegment)| (e.0, e.1@))
}

/// The active close of a connection: its new state and the segments sent.
pub open spec fn close_step(t: TcbView, now: u64) -> (TcbView, Seq<SegView>) {
    match t.state {
        TcpState::Established => {
            let seg = ctl_seg(TCP_FIN | TCP_ACK, t.snd_nxt, t.rcv_nxt, t.remote_port);
            (
                TcbView {
                    state: TcpState::FinWait1,
                    snd_nxt: t.snd_nxt.wrapping_add(1),
                    retransmit_at: Some((now + t.rto) as u64),
                    ..t
                },
                seq![seg],
            )
        },
        TcpState::CloseWait => {
            let seg = ctl_seg(TCP_FIN | TCP_ACK, t.snd_nxt, t.rcv_nxt, t.remote_port);
            (
                TcbView {
                    state: TcpState::LastAck,
                    snd_nxt: t.snd_nxt.wrapping_add(1),
                    retransmit_at: Some((now + t.rto) as u64),
                    ..t
                },
                seq![seg],
            )
        },
        TcpState::Closed | TcpState::TimeWait | TcpState::Listen => (t, Seq::empty()),
        _ => (
            TcbView { state: TcpState::Closed, ..t },
            seq![ctl_seg(TCP_RST, t.snd_nxt, 0, t.remote_port)],
        ),
    }
}

/// The local port of the first connection to `remote_ip:remote_port`.
pub open spec fn src_port_of(s: Seq<(ConnKey, TcbView)>, remote_ip: [u8; 4], remote_port: u16) -> Option<
    u16,
>
    decreases s.len(),
{
    if s.len() == 0 {
        None
    } else if ip_key(s[0].0.2) == ip_key(remote_ip) && s[0].0.3 == remote_port {
        Some(s[0].0.1)
    } else {
        src_port_of(s.drop_first(), remote_ip, remote_port)
    }
}

/// A local port is used by some connection.
pub open spec fn port_used(s: Seq<(ConnKey, TcbView)>, port: u16) -> bool {
    exists|i: int| 0 <= i < s.len() && (#[trigger] s[i]).0.1 == port
}

/// The TCB a passive open starts with (state LISTEN, initial timeout).
pub open spec fn fresh_tcb(local_ip: [u8; 4], remote_ip: [u8; 4], local_port: u16, remote_port: u16) -> TcbView {
    TcbView {
        local_ip,
        remote_ip,
        local_port,
        remote_port,
        state: TcpState::Listen,
        iss: 0,
        snd_una: 0,
        snd_nxt: 0,
        snd_wnd: 0,
        irs: 0,
        rcv_nxt: 0,
        _rcv_wnd: DEFAULT_WINDOW,
        rto: INITIAL_RTO_MS,
        retransmit_at: None,
        retransmit_count: 0,
        send_buffer: Seq::empty(),
        recv_buffer: Seq::empty(),
    }
}

impl Tcb {
    pub fn new_server(local_ip: [u8; 4], remote_ip: [u8; 4], local_port: u16, remote_port: u16) -> (r: Self)
        ensures
            r@ == fresh_tcb(local_ip, remote_ip, local_port, remote_port),
    {
        let r = Tcb {
            local_ip,
            remote_ip,
            local_port,
            remote_port,
            state: TcpState::Listen,
            iss: 0,
            snd_una: 0,
            snd_nxt: 0,
            snd_wnd: 0,
            irs: 0,
            rcv_nxt: 0,
            _rcv_wnd: DEFAULT_WINDOW,
            rto: INITIAL_RTO_MS,
            retransmit_at: None,
            retransmit_count: 0,
            send_buffer: Vec::new(),
            recv_buffer: Vec::new(),
        };
        assert(r@ =~= fresh_tcb(local_ip, remote_ip, local_port, remote_port));
        r
    }
}

/// The connection a client opens with initial sequence number `iss`.
pub open spec fn syn_sent_tcb(
    local_ip: [u8; 4],
    remote_ip: [u8; 4],
    local_port: u16,
    remote_port: u16,
    iss: u32,
    now: u64,
) -> TcbView {
    TcbView {
        state: TcpState::SynSent,
        iss,
        snd_una: iss,
        snd_nxt: iss.wrapping_add(1),
        retransmit_at: Some((now + INITIAL_RTO_MS) as u64),
        rto: INITIAL_RTO_MS,
        ..fresh_tcb(local_ip, remote_ip, local_port, remote_port)
    }
}

impl TcpManager {
    /// Connections in table order, with their TCBs as views.
    pub closed spec fn model(&self) -> Seq<(ConnKey, TcbView)> {
        model_of(self.connections@)
    }

    /// Connections by key.
    pub open spec fn table(&self) -> Map<(u32, u16, u32, u16), (ConnKey, TcbView)> {
        to_map(self.model(), entry_key())
    }

    pub open spec fn wf(&self) -> bool {
        &&& keys_unique(self.model(), entry_key())
        &&& forall|i: int| 0 <= i < self.model().len() ==> (#[trigger] self.model()[i]).1.rto <= MAX_RTO_MS
    }

    pub fn new() -> (r: Self)
        ensures
            r.wf(),
            r.model() == Seq::<(ConnKey, TcbView)>::empty(),
    {
        let r = TcpManager { connections: Vec::new() };
        assert(r.model() =~= Seq::<(ConnKey, TcbView)>::empty());
        r
    }

    fn find(&self, key: &ConnKey) -> (r: Option<usize>)
        requires
            self.wf(),
        ensures
            r is None <==> !self.table().dom().contains(key_of(*key)),
            r matches Some(i) ==> i < self.model().len() && key_of(self.model()[i as int].0)
                == key_of(*key) && self.table()[key_of(*key)] == self.model()[i as int],
    {
        proof {
            lemma_index_of(self.model(), entry_key(), key_of(*key));
        }
        let mut i: usize = 0;
        while i < self.connections.len()
            invariant
                self.wf(),
                i <= self.connections@.len(),
                forall|j: int| 0 <= j < i ==> key_of(#[trigger] self.model()[j].0) != key_of(*key),
            decreases self.connections@.len() - i,
        {
            assert(self.model()[i as int] == entry_view(self.connections@[i as int]));
            if same_key(&self.connections[i].0, key) {
                proof {
                    lemma_map_dom(self.model(), entry_key(), i as int);
                }
                return Some(i);
            }
            i = i + 1;
        }
        proof {
            if self.table().dom().contains(key_of(*key)) {
                let j = index_of(self.model(), entry_key(), key_of(*key));
                assert(key_of(self.model()[j].0) == key_of(*key));
            }
        }
        None
    }

    /// Replace the TCB at index `i` (same key) by `tcb`.
    fn put_back(&mut self, i: usize, key: ConnKey, tcb: Tcb, Ghost(old_model): Ghost<
        Seq<(ConnKey, TcbView)>,
    >)
        requires
            i <= old(self).connections@.len(),
            i < old_model.len(),
            model_of(old(self).connections@) == old_model.remove(i as int),
            key_of(old_model[i as int].0) == key_of(key),
            keys_unique(old_model, entry_key()),
            forall|j: int| 0 <= j < old_model.len() ==> (#[trigger] old_model[j]).1.rto <= MAX_RTO_MS,
            tcb.rto <= MAX_RTO_MS,
        ensures
            final(self).wf(),
            final(self).model() == old_model.update(i as int, (key, tcb@)),
            final(self).table() == to_map(old_model, entry_key()).insert(key_of(key), (key, tcb@)),
    {
        let ghost e = (key, tcb@);
        proof {
            lemma_update(old_model, entry_key(), i as int, e);
        }
        let ghost before = self.connections@;
        self.connections.insert(i, (key, tcb));
        assert(self.connections@ == before.insert(i as int, (key, tcb)));
        assert(model_of(before).len() == before.len());
        assert(self.connections@.len() == old_model.len());
        assert(self.model().len() == old_model.len());
        assert forall|j: int| 0 <= j < old_model.len() implies #[trigger] self.model()[j]
            == old_model.update(i as int, e)[j] by {
            assert(self.model()[j] == entry_view(self.connections@[j]));
            if j < i {
                assert(self.connections@[j] == before[j]);
                assert(model_of(before)[j] == entry_view(before[j]));
            } else if j > i {
                assert(self.connections@[j] == before[j - 1]);
                assert(model_of(before)[j - 1] == entry_view(before[j - 1]));
            }
        }
        assert(self.model() =~= old_model.update(i as int, e));
        assert forall|j: int| 0 <= j < self.model().len() implies (#[trigger] self.model()[j]).1.rto
            <= MAX_RTO_MS by {
            if j != i {
                assert(self.model()[j] == old_model[j]);
            }
        }
    }

    /// Process an incoming TCP segment. Returns any segment that should be sent back.
    pub fn process(
        &mut self,
        local_ip: [u8; 4],
        remote_ip: [u8; 4],
        tcp_hdr: &TcpHeader,
        payload: &[u8],
        now: u64,
    ) -> (r: (Option<ConnKey>, Vec<OutgoingSegment>))
        requires
            old(self).wf(),
            seg_fits(*tcp_hdr, payload@),
            time_ok(now),
        ensures
            final(self).wf(),
            ({
                let key: ConnKey = (local_ip, tcp_hdr.dst_port, remote_ip, tcp_hdr.src_port);
                let k = key_of(key);
                if old(self).table().dom().contains(k) {
                    let (stored, t) = old(self).table()[k];
                    let (t2, out) = tcb_step(t, *tcp_hdr, payload@, now);
                    &&& r.0 == Some(key)
                    &&& segs_view(r.1@) == out
                    &&& final(self).model() == old(self).model().update(
                        index_of(old(self).model(), entry_key(), k),
                        (stored, t2),
                    )
                    &&& final(self).table() == old(self).table().insert(k, (stored, t2))
                } else {
                    &&& r.0 is None
                    &&& segs_view(r.1@) == rst_reply(*tcp_hdr, payload@)
                    &&& final(self).model() == old(self).model()
                }
            }),
    {
        let key: ConnKey = (local_ip, tcp_hdr.dst_port, remote_ip, tcp_hdr.src_port);
        let ghost k = key_of(key);
        let ghost m = self.model();
        match self.find(&key) {
            Some(i) => {
                proof {
                    lemma_index_of(m, entry_key(), k);
                }
                let (stored, mut tcb) = self.connections.remove(i);
                proof {
                    assert(model_of(self.connections@) =~= m.remove(i as int));
                    assert(m[i as int] == (stored, tcb@));
                }
                let outgoing = process_existing_tcb(&mut tcb, tcp_hdr, payload, now);
                self.put_back(i, stored, tcb, Ghost(m));
                (Some(key), outgoing)
            },
            None => {
                // No matching connection and not a SYN to a listening port → RST
                if tcp_hdr.flags & TCP_RST == 0 {
                    let syn: u32 = if tcp_hdr.flags & TCP_SYN != 0 { 1 } else { 0 };
                    let rst = OutgoingSegment {
                        flags: TCP_RST | TCP_ACK,
                        seq: if tcp_hdr.flags & TCP_ACK != 0 {
                            tcp_hdr.ack
                        } else {
                            0
                        },
                        ack: tcp_hdr.seq.wrapping_add(payload.len() as u32 + syn),
                        payload: Vec::new(),
                        dst_port: tcp_hdr.src_port,
                    };
                    let v = one(rst);
                    assert(segs_view(v@) =~= rst_reply(*tcp_hdr, payload@));
                    return (None, v);
                }
                (None, none())
            },
        }
    }

    /// Check for retransmission timeouts. Returns segments that need re-sending.
    pub fn poll_retransmit(&mut self, now: u64) -> (r: Vec<(ConnKey, OutgoingSegment)>)
        requires
            old(self).wf(),
            time_ok(now),
        ensures
            final(self).wf(),
            pairs_view(r@) == retx_out(old(self).model(), now),
            final(self).model() == retx_all(old(self).model(), now).filter(keep_pred(now)),
    {
        let mut rest: Vec<(ConnKey, Tcb)> = Vec::new();
        std::mem::swap(&mut rest, &mut self.connections);
        let ghost s = model_of(rest@);
        let ghost n = s.len();
        let mut retransmits: Vec<(ConnKey, OutgoingSegment)> = Vec::new();
        let mut kept: Vec<(ConnKey, Tcb)> = Vec::new();
        let ghost mut i: int = 0;
        while rest.len() > 0
            invariant
                0 <= i <= n,
                n == s.len(),
                time_ok(now),
                forall|j: int| 0 <= j < s.len() ==> (#[trigger] s[j]).1.rto <= MAX_RTO_MS,
                model_of(rest@) == s.subrange(i, n as int),
                pairs_view(retransmits@) == retx_out(s.subrange(0, i), now),
                model_of(kept@) == retx_all(s.subrange(0, i), now).filter(keep_pred(now)),
            decreases rest@.len(),
        {
            let ghost old_rest = rest@;
            assert(model_of(old_rest).len() == old_rest.len());
            assert(i < n);
            let ghost e = s[i];
            assert(model_of(old_rest)[0] == entry_view(old_rest[0]));
            assert(model_of(old_rest)[0] == s[i]);
            let (key, mut tcb) = rest.remove(0);
            proof {
                assert(rest@ == old_rest.subrange(1, old_rest.len() as int));
                assert forall|j: int| 0 <= j < rest@.len() implies #[trigger] model_of(rest@)[j]
                    == s.subrange(i + 1, n as int)[j] by {
                    assert(model_of(rest@)[j] == entry_view(rest@[j]));
                    assert(rest@[j] == old_rest[j + 1]);
                    assert(model_of(old_rest)[j + 1] == entry_view(old_rest[j + 1]));
                }
                assert(model_of(rest@) =~= s.subrange(i + 1, n as int));
                assert(e == (key, tcb@));
            }
            let mut seg: Option<OutgoingSegment> = None;
            match tcb.retransmit_at {
                Some(deadline) => {
                    if now >= deadline {
                        if tcb.state == TcpState::TimeWait {
                            // TIME-WAIT has run out: the connection is dropped below.
                        } else if tcb.retransmit_count >= MAX_RETRANSMITS {
                            // Too many retransmissions — kill connection
                            tcb.state = TcpState::Closed;
                        } else {
                            tcb.retransmit_at = Some(now + tcb.rto);
                            let doubled = tcb.rto * 2;
                            tcb.rto = if doubled < MAX_RTO_MS { doubled } else { MAX_RTO_MS };
                            tcb.retransmit_count = tcb.retransmit_count + 1;
                            seg = Some(build_retransmit(&tcb));
                        }
                    }
                },
                None => {},
            }
            proof {
                assert(tcb@ == retx_update(e.1, now).0);
                assert(match seg {
                    Some(x) => retx_update(e.1, now).1 == Some(x@),
                    None => retx_update(e.1, now).1 is None,
                });
                let pre = s.subrange(0, i);
                let post = s.subrange(0, i + 1);
                assert(post.drop_last() =~= pre);
                assert(post.last() == e);
                reveal_with_fuel(Seq::filter, 1);
                assert(retx_all(post, now).drop_last() =~= retx_all(pre, now));
                assert(retx_all(post, now).last() == (key, tcb@));
            }
            match seg {
                Some(x) => {
                    retransmits.push((key, x));
                },
                None => {},
            }
            proof {
                assert(pairs_view(retransmits@) =~= retx_out(s.subrange(0, i + 1), now));
            }
            // Remove closed connections; also expire TimeWait
            let expired = match tcb.retransmit_at {
                Some(expiry) => now >= expiry,
                None => false,
            };
            let keep = !(tcb.state == TcpState::Closed) && !(tcb.state == TcpState::TimeWait && expired);
            if keep {
                kept.push((key, tcb));
            }
            proof {
                i = i + 1;
                assert(model_of(kept@) =~= retx_all(s.subrange(0, i), now).filter(keep_pred(now)));
            }
        }
        proof {
            assert(s.subrange(0, n as int) =~= s);
            assert(s == model_of(old(self).connections@));
            let ra = retx_all(s, now);
            assert(forall|j: int| 0 <= j < ra.len() ==> key_of((#[trigger] ra[j]).0) == key_of(s[j].0));
            assert(keys_unique(ra, entry_key()));
            lemma_filter_unique(ra, entry_key(), keep_pred(now));
        }
        self.connections = kept;
        proof {
            let f = retx_all(s, now).filter(keep_pred(now));
            assert(self.model() == f);
            assert forall|j: int| 0 <= j < f.len() implies (#[trigger] f[j]).1.rto <= MAX_RTO_MS by {
                lemma_filter_member(retx_all(s, now), keep_pred(now), j);
            }
        }
        retransmits
    }
}

/// Every element of a filtered sequence comes from the sequence filtered.
pub proof fn lemma_filter_member<T>(s: Seq<T>, p: spec_fn(T) -> bool, j: int)
    requires
        0 <= j < s.filter(p).len(),
    ensures
        exists|i: int| 0 <= i < s.len() && s[i] == s.filter(p)[j],
    decreases s.len(),
{
    reveal_with_fuel(Seq::filter, 1);
    let q = s.drop_last();
    if j < q.filter(p).len() {
        lemma_filter_member(q, p, j);
        let i = choose|i: int| 0 <= i < q.len() && q[i] == q.filter(p)[j];
        assert(s[i] == q[i]);
        assert(s.filter(p)[j] == q.filter(p)[j]);
    } else {
        assert(s.filter(p)[j] == s.last());
        assert(s[s.len() - 1] == s.last());
    }
}


impl TcpManager {
    /// Get a mutable reference to a TCB by key.
    pub fn get_mut(&mut self, key: &ConnKey) -> (r: Option<&mut Tcb>)
        requires
            old(self).wf(),
        ensures
            r is None <==> !old(self).table().dom().contains(key_of(*key)),
            r is None ==> final(self).model() == old(self).model(),
            r matches Some(t) ==> {
                let i = index_of(old(self).model(), entry_key(), key_of(*key));
                &&& t@ == old(self).table()[key_of(*key)].1
                &&& final(self).model() == old(self).model().update(
                    i,
                    (old(self).model()[i].0, final(t)@),
                )
            },
    {
        proof {
            lemma_index_of(self.model(), entry_key(), key_of(*key));
        }
        match self.find(key) {
            Some(i) => {
                assert(i == index_of(self.model(), entry_key(), key_of(*key)));
                Some(&mut self.connections[i].1)
            },
            None => None,
        }
    }
}

/// Replacing a connection's TCB (same key, timeout in bounds) keeps the
/// table well formed and updates it at that key.
pub proof fn lemma_model_update(m: Seq<(ConnKey, TcbView)>, i: int, t: TcbView)
    requires
        0 <= i < m.len(),
        keys_unique(m, entry_key()),
        forall|j: int| 0 <= j < m.len() ==> (#[trigger] m[j]).1.rto <= MAX_RTO_MS,
        t.rto <= MAX_RTO_MS,
    ensures
        keys_unique(m.update(i, (m[i].0, t)), entry_key()),
        forall|j: int|
            0 <= j < m.len() ==> (#[trigger] m.update(i, (m[i].0, t))[j]).1.rto <= MAX_RTO_MS,
        to_map(m.update(i, (m[i].0, t)), entry_key()) == to_map(m, entry_key()).insert(
            key_of(m[i].0),
            (m[i].0, t),
        ),
{
    lemma_update(m, entry_key(), i, (m[i].0, t));
}


/// `port` is the local port a new connection gets: the first port in
/// 40000..60000 that no connection of `m` uses, or 40000 when all are taken.
pub open spec fn ephemeral_port(m: Seq<(ConnKey, TcbView)>, port: u16) -> bool {
    ||| (40000 <= port < 60000 && !port_used(m, port) && forall|p: u16| 40000 <= p < port ==> port_used(m, p))
    ||| (port == 40000 && forall|p: u16| 40000 <= p < 60000 ==> port_used(m, p))
}

impl TcpManager {
    /// Get a reference to a TCB by key.
    pub fn get(&self, key: &ConnKey) -> (r: Option<&Tcb>)
        requires
            self.wf(),
        ensures
            r is None <==> !self.table().dom().contains(key_of(*key)),
            r matches Some(t) ==> t@ == self.table()[key_of(*key)].1,
    {
        match self.find(key) {
            Some(i) => {
                assert(self.model()[i as int] == entry_view(self.connections@[i as int]));
                Some(&self.connections[i].1)
            },
            None => None,
        }
    }

    /// Start retransmission timer for this connection if not already running.
    pub fn record_sent(&mut self, key: &ConnKey, now: u64)
        requires
            old(self).wf(),
            time_ok(now),
        ensures
            final(self).wf(),
            ({
                let k = key_of(*key);
                if old(self).table().dom().contains(k) && old(self).table()[k].1.retransmit_at is None {
                    let (stored, t) = old(self).table()[k];
                    final(self).model() == old(self).model().update(
                        index_of(old(self).model(), entry_key(), k),
                        (stored, TcbView { retransmit_at: Some((now + t.rto) as u64), ..t }),
                    )
                } else {
                    final(self).model() == old(self).model()
                }
            }),
    {
        let ghost m = self.model();
        match self.get_mut(key) {
            Some(tcb) => {
                proof {
                    lemma_index_of(m, entry_key(), key_of(*key));
                    assert(m[index_of(m, entry_key(), key_of(*key))].1.rto <= MAX_RTO_MS);
                }
                if tcb.retransmit_at.is_none() {
                    tcb.retransmit_at = Some(now + tcb.rto);
                }
                proof {
                    lemma_index_of(m, entry_key(), key_of(*key));
                    lemma_model_update(m, index_of(m, entry_key(), key_of(*key)), tcb@);
                    if m[index_of(m, entry_key(), key_of(*key))].1.retransmit_at is Some {
                        assert(m.update(index_of(m, entry_key(), key_of(*key)), (m[index_of(m, entry_key(), key_of(*key))].0, tcb@)) =~= m);
                    }
                }
            },
            None => {},
        }
    }

    /// Drain received data from a connection's buffer.
    pub fn drain_data(&mut self, key: &ConnKey) -> (r: Vec<u8>)
        requires
            old(self).wf(),
        ensures
            final(self).wf(),
            ({
                let k = key_of(*key);
                if old(self).table().dom().contains(k) {
                    let (stored, t) = old(self).table()[k];
                    &&& r@ == t.recv_buffer
                    &&& final(self).model() == old(self).model().update(
                        index_of(old(self).model(), entry_key(), k),
                        (stored, TcbView { recv_buffer: Seq::empty(), ..t }),
                    )
                } else {
                    &&& r@ == Seq::<u8>::empty()
                    &&& final(self).model() == old(self).model()
                }
            }),
    {
        let ghost m = self.model();
        match self.get_mut(key) {
            Some(tcb) => {
                let mut data: Vec<u8> = Vec::new();
                std::mem::swap(&mut data, &mut tcb.recv_buffer);
                proof {
                    lemma_index_of(m, entry_key(), key_of(*key));
                    lemma_model_update(m, index_of(m, entry_key(), key_of(*key)), tcb@);
                    assert(tcb@ =~= TcbView { recv_buffer: Seq::empty(), ..m[index_of(m, entry_key(), key_of(*key))].1 });
                }
                data
            },
            None => Vec::new(),
        }
    }

    /// Initiate an active close: send FIN.
    pub fn close(&mut self, key: &ConnKey, now: u64) -> (r: Vec<OutgoingSegment>)
        requires
            old(self).wf(),
            time_ok(now),
        ensures
            final(self).wf(),
            ({
                let k = key_of(*key);
                if old(self).table().dom().contains(k) {
                    let (stored, t) = old(self).table()[k];
                    let (t2, out) = close_step(t, now);
                    &&& segs_view(r@) == out
                    &&& final(self).model() == old(self).model().update(
                        index_of(old(self).model(), entry_key(), k),
                        (stored, t2),
                    )
                } else {
                    &&& segs_view(r@) == Seq::<SegView>::empty()
                    &&& final(self).model() == old(self).model()
                }
            }),
    {
        let ghost m = self.model();
        let tcb = match self.get_mut(key) {
            Some(t) => t,
            None => return none(),
        };
        let ghost t0 = tcb@;
        proof {
            lemma_index_of(m, entry_key(), key_of(*key));
            assert(m[index_of(m, entry_key(), key_of(*key))].1.rto <= MAX_RTO_MS);
        }
        let out = match tcb.state {
            TcpState::Established => {
                tcb.state = TcpState::FinWait1;
                let s = OutgoingSegment {
                    flags: TCP_FIN | TCP_ACK,
                    seq: tcb.snd_nxt,
                    ack: tcb.rcv_nxt,
                    payload: Vec::new(),
                    dst_port: tcb.remote_port,
                };
                tcb.snd_nxt = tcb.snd_nxt.wrapping_add(1);
                tcb.retransmit_at = Some(now + tcb.rto);
                assert(s@ =~= ctl_seg(TCP_FIN | TCP_ACK, t0.snd_nxt, t0.rcv_nxt, t0.remote_port));
                one(s)
            },
            TcpState::CloseWait => {
                tcb.state = TcpState::LastAck;
                let s = OutgoingSegment {
                    flags: TCP_FIN | TCP_ACK,
                    seq: tcb.snd_nxt,
                    ack: tcb.rcv_nxt,
                    payload: Vec::new(),
                    dst_port: tcb.remote_port,
                };
                tcb.snd_nxt = tcb.snd_nxt.wrapping_add(1);
                tcb.retransmit_at = Some(now + tcb.rto);
                assert(s@ =~= ctl_seg(TCP_FIN | TCP_ACK, t0.snd_nxt, t0.rcv_nxt, t0.remote_port));
                one(s)
            },
            TcpState::Closed | TcpState::TimeWait | TcpState::Listen => none(),
            _ => {
                // Force close with RST for other states
                tcb.state = TcpState::Closed;
                let s = OutgoingSegment {
                    flags: TCP_RST,
                    seq: tcb.snd_nxt,
                    ack: 0,
                    payload: Vec::new(),
                    dst_port: tcb.remote_port,
                };
                assert(s@ =~= ctl_seg(TCP_RST, t0.snd_nxt, 0, t0.remote_port));
                one(s)
            },
        };
        proof {
            lemma_index_of(m, entry_key(), key_of(*key));
            lemma_model_update(m, index_of(m, entry_key(), key_of(*key)), tcb@);
            assert(tcb@ == close_step(t0, now).0);
            if t0.state == TcpState::Closed || t0.state == TcpState::TimeWait || t0.state == TcpState::Listen {
                assert(m.update(index_of(m, entry_key(), key_of(*key)), (m[index_of(m, entry_key(), key_of(*key))].0, tcb@)) =~= m);
            }
        }
        out
    }

    /// Close a connection (active or passive close).
    pub fn close_conn(&mut self, key: &ConnKey, now: u64) -> (r: Vec<OutgoingSegment>)
        requires
            old(self).wf(),
            time_ok(now),
        ensures
            final(self).wf(),
            ({
                let k = key_of(*key);
                if old(self).table().dom().contains(k) {
                    let (stored, t) = old(self).table()[k];
                    let (t2, out) = close_step(t, now);
                    &&& segs_view(r@) == out
                    &&& final(self).model() == old(self).model().update(
                        index_of(old(self).model(), entry_key(), k),
                        (stored, t2),
                    )
                } else {
                    &&& segs_view(r@) == Seq::<SegView>::empty()
                    &&& final(self).model() == old(self).model()
                }
            }),
    {
        self.close(key, now)
    }

    /// Find the source port for a connection matching remote IP and port.
    pub fn find_src_port(&self, remote_ip: [u8; 4], remote_port: u16) -> (r: Option<u16>)
        ensures
            r == src_port_of(self.model(), remote_ip, remote_port),
    {
        let ghost m = self.model();
        let rk = ip_key_of(remote_ip);
        let mut i: usize = 0;
        assert(m.subrange(0, m.len() as int) =~= m);
        while i < self.connections.len()
            invariant
                m == self.model(),
                rk == ip_key(remote_ip),
                i <= m.len(),
                m.len() == self.connections@.len(),
                src_port_of(m, remote_ip, remote_port) == src_port_of(
                    m.subrange(i as int, m.len() as int),
                    remote_ip,
                    remote_port,
                ),
            decreases m.len() - i,
        {
            let ghost rest = m.subrange(i as int, m.len() as int);
            assert(rest[0] == m[i as int]);
            assert(m[i as int] == entry_view(self.connections@[i as int]));
            let k = &self.connections[i].0;
            if ip_key_of(k.2) == rk && k.3 == remote_port {
                return Some(k.1);
            }
            assert(rest.drop_first() =~= m.subrange(i + 1, m.len() as int));
            i = i + 1;
        }
        None
    }

    /// The first local port in 40000..60000 that no connection uses, or
    /// 40000 when all are taken.
    pub fn next_ephemeral(&self) -> (r: u16)
        ensures
            ephemeral_port(self.model(), r),
    {
        let ghost m = self.model();
        let mut port: u16 = 40000;
        while port < 60000
            invariant
                m == self.model(),
                m.len() == self.connections@.len(),
                40000 <= port <= 60000,
                forall|p: u16| 40000 <= p < port ==> port_used(m, p),
            decreases 60000 - port,
        {
            let mut used = false;
            let mut i: usize = 0;
            while i < self.connections.len()
                invariant
                    m == self.model(),
                    m.len() == self.connections@.len(),
                    i <= m.len(),
                    used == exists|j: int| 0 <= j < i && (#[trigger] m[j]).0.1 == port,
                decreases m.len() - i,
            {
                assert(m[i as int] == entry_view(self.connections@[i as int]));
                if self.connections[i].0.1 == port {
                    used = true;
                }
                i = i + 1;
            }
            if !used {
                return port;
            }
            port = port + 1;
        }
        40000
    }

    /// Open a client connection to `remote_ip:remote_port` from the first
    /// free ephemeral port, with initial sequence number `iss`.
    pub fn initiate_connect_with_iss(
        &mut self,
        local_ip: [u8; 4],
        remote_ip: [u8; 4],
        remote_port: u16,
        now: u64,
        iss: u32,
    ) -> (r: (Option<ConnKey>, Vec<OutgoingSegment>))
        requires
            old(self).wf(),
            time_ok(now),
        ensures
            final(self).wf(),
            ({
                let key = r.0->0;
                let k = key_of(key);
                &&& r.0 is Some
                &&& key.0 == local_ip && key.2 == remote_ip && key.3 == remote_port
                &&& ephemeral_port(old(self).model(), key.1)
                &&& if old(self).table().dom().contains(k) && (old(self).table()[k].1.state
                    == TcpState::Established || old(self).table()[k].1.state == TcpState::SynSent) {
                    &&& segs_view(r.1@) == Seq::<SegView>::empty()
                    &&& final(self).model() == old(self).model()
                } else {
                    &&& segs_view(r.1@) == seq![ctl_seg(TCP_SYN, iss, 0, remote_port)]
                    &&& final(self).table() == old(self).table().insert(
                        k,
                        (key, syn_sent_tcb(local_ip, remote_ip, key.1, remote_port, iss, now)),
                    )
                }
            }),
    {
        let local_port = self.next_ephemeral();
        let key: ConnKey = (local_ip, local_port, remote_ip, remote_port);
        let ghost m = self.model();
        let ghost k = key_of(key);
        match self.find(&key) {
            Some(i) => {
                assert(self.model()[i as int] == entry_view(self.connections@[i as int]));
                let st = self.connections[i].1.state;
                if st == TcpState::Established || st == TcpState::SynSent {
                    return (Some(key), none());
                }
            },
            None => {},
        }
        let mut tcb = Tcb::new_server(local_ip, remote_ip, local_port, remote_port);
        tcb.state = TcpState::SynSent;
        tcb.iss = iss;
        tcb.snd_una = iss;
        tcb.snd_nxt = iss.wrapping_add(1);
        tcb.retransmit_at = Some(now + INITIAL_RTO_MS);
        tcb.rto = INITIAL_RTO_MS;
        assert(tcb@ =~= syn_sent_tcb(local_ip, remote_ip, local_port, remote_port, iss, now));
        self.insert_conn(key, tcb);
        let s = OutgoingSegment {
            flags: TCP_SYN,
            seq: iss,
            ack: 0,
            payload: Vec::new(),
            dst_port: remote_port,
        };
        assert(s@ =~= ctl_seg(TCP_SYN, iss, 0, remote_port));
        (Some(key), one(s))
    }

    /// Insert or replace the connection under `key`.
    fn insert_conn(&mut self, key: ConnKey, tcb: Tcb)
        requires
            old(self).wf(),
            tcb.rto <= MAX_RTO_MS,
        ensures
            final(self).wf(),
            final(self).table() == old(self).table().insert(key_of(key), (key, tcb@)),
    {
        let ghost m = self.model();
        match self.find(&key) {
            Some(i) => {
                let _ = self.connections.remove(i);
                assert(model_of(self.connections@) =~= m.remove(i as int));
                self.put_back(i, key, tcb, Ghost(m));
            },
            None => {
                let ghost e = (key, tcb@);
                proof {
                    lemma_push(m, entry_key(), e);
                }
                self.connections.push((key, tcb));
                assert(self.model() =~= m.push(e));
            },
        }
    }

    /// Initiate an active connection (client SYN).
    pub fn initiate_connect(&mut self, local_ip: [u8; 4], remote_ip: [u8; 4], remote_port: u16, now: u64) -> (r: (
        Option<ConnKey>,
        Vec<OutgoingSegment>,
    ))
        requires
            old(self).wf(),
            time_ok(now),
        ensures
            final(self).wf(),
            r.0 matches Some(key) && key.0 == local_ip && key.2 == remote_ip && key.3 == remote_port
                && ephemeral_port(old(self).model(), key.1),
            ({
                let key = r.0->0;
                let k = key_of(key);
                if old(self).table().dom().contains(k) && (old(self).table()[k].1.state
                    == TcpState::Established || old(self).table()[k].1.state == TcpState::SynSent) {
                    &&& segs_view(r.1@) == Seq::<SegView>::empty()
                    &&& final(self).model() == old(self).model()
                } else {
                    exists|iss: u32|
                        {
                            &&& segs_view(r.1@) == seq![ctl_seg(TCP_SYN, iss, 0, remote_port)]
                            &&& #[trigger] final(self).table() == old(self).table().insert(
                                k,
                                (key, syn_sent_tcb(local_ip, remote_ip, key.1, remote_port, iss, now)),
                            )
                        }
                }
            }),
    {
        let iss = rand_seq();
        self.initiate_connect_with_iss(local_ip, remote_ip, remote_port, now, iss)
    }
}

/// Simple pseudo-random initial sequence number from the clock.
pub fn rand_seq() -> u32 {
    let t = clock_nanos();
    (t % 0x1_0000_0000) as u32
}

} // verus!
