//! IPv4 header — parse, build, checksum. Plus minimal ICMP Echo handling.

use vstd::prelude::*;
use crate::util::{
    be16, u16_bytes, read_be16, push_be16, set_be16, push_all, copy_range, checksum, checksum_spec,
    sum_fits, put_u16, lemma_short_sum_fits, lemma_checksum_self_validates,
};

verus! {

pub const IP_PROTO_ICMP: u8 = 1;
pub const IP_PROTO_TCP: u8 = 6;
pub const IP_HDR_LEN: usize = 20;

// ICMP types
pub const ICMP_ECHO_REQUEST: u8 = 8;
pub const ICMP_ECHO_REPLY: u8 = 0;
pub const ICMP_HDR_SIZE: usize = 8;

#[derive(Debug)]
pub struct Ipv4Header {
    pub _version_ihl: u8,  // 0x45 for version=4, IHL=5
    pub _dscp_ecn: u8,
    pub _total_len: u16,
    pub _id: u16,
    pub _flags_frag: u16,  // 0x4000 = DF set
    pub _ttl: u8,
    pub protocol: u8,
    pub _checksum: u16,
    pub src: [u8; 4],
    pub dst: [u8; 4],
}

/// Header length in bytes announced by the first byte of an IPv4 packet.
pub open spec fn ihl_of(s: Seq<u8>) -> int {
    (s[0] % 16) as int * 4
}

/// `parse_ipv4` accepts `s`: long enough for the announced header, and the
/// header checksum is either absent (zero) or valid.
pub open spec fn ipv4_accepts(s: Seq<u8>) -> bool {
    &&& s.len() >= IP_HDR_LEN
    &&& ihl_of(s) >= IP_HDR_LEN
    &&& s.len() >= ihl_of(s)
    &&& (be16(s[10], s[11]) == 0 || checksum_spec(s.subrange(0, ihl_of(s))) == 0)
}

/// `h` holds the header fields encoded in the first 20 bytes of `s`.
pub open spec fn ipv4_fields(h: Ipv4Header, s: Seq<u8>) -> bool {
    &&& s.len() >= 20
    &&& h._version_ihl == s[0]
    &&& h._dscp_ecn == s[1]
    &&& h._total_len == be16(s[2], s[3])
    &&& h._id == be16(s[4], s[5])
    &&& h._flags_frag == be16(s[6], s[7])
    &&& h._ttl == s[8]
    &&& h.protocol == s[9]
    &&& h._checksum == be16(s[10], s[11])
    &&& h.src@ == s.subrange(12, 16)
    &&& h.dst@ == s.subrange(16, 20)
}

/// Verify the checksum of a header: it sums to zero.
pub fn verify_ip_checksum(header: &[u8]) -> (r: bool)
    requires
        sum_fits(header@),
    ensures
        r == (checksum_spec(header@) == 0),
{
    checksum(header) == 0
}

/// Parse an IPv4 header. Returns (header, payload_slice) or None.
pub fn parse_ipv4(data: &[u8]) -> (r: Option<(Ipv4Header, &[u8])>)
    ensures
        r is Some <==> ipv4_accepts(data@),
        r matches Some((h, p)) ==> ipv4_fields(h, data@) && p@ == data@.subrange(
            ihl_of(data@),
            data@.len() as int,
        ),
{
    if data.len() < IP_HDR_LEN {
        return None;
    }
    let version_ihl = data[0];
    let ihl = (version_ihl % 16) as usize * 4;
    if ihl < IP_HDR_LEN || data.len() < ihl {
        return None;
    }
    // Verify header checksum
    let cs = read_be16(data[10], data[11]);
    if cs != 0 {
        let header = &data[0..ihl];
        proof {
            lemma_short_sum_fits(header@);
        }
        if !verify_ip_checksum(header) {
            return None;
        }
    }
    let src = [data[12], data[13], data[14], data[15]];
    let dst = [data[16], data[17], data[18], data[19]];
    assert(src@ =~= data@.subrange(12, 16));
    assert(dst@ =~= data@.subrange(16, 20));
    Some(
        (
            Ipv4Header {
                _version_ihl: version_ihl,
                _dscp_ecn: data[1],
                _total_len: read_be16(data[2], data[3]),
                _id: read_be16(data[4], data[5]),
                _flags_frag: read_be16(data[6], data[7]),
                _ttl: data[8],
                protocol: data[9],
                _checksum: cs,
                src,
                dst,
            },
            &data[ihl..data.len()],
        ),
    )
}

/// The 20 header bytes of a packet built by `build_ipv4`, with checksum
/// field `cs`.
pub open spec fn ipv4_header_bytes(
    src: Seq<u8>,
    dst: Seq<u8>,
    protocol: u8,
    ttl: u8,
    total_len: u16,
    cs: u16,
) -> Seq<u8> {
    seq![0x45u8, 0u8] + u16_bytes(total_len) + seq![0u8, 0u8, 0x40u8, 0u8, ttl, protocol]
        + u16_bytes(cs) + src + dst
}

/// The total-length field `build_ipv4` writes (the length wraps at 16 bits).
pub open spec fn ipv4_total_len(payload_len: nat) -> u16 {
    ((IP_HDR_LEN + payload_len) % 65536) as u16
}

/// The packet `build_ipv4` produces: header with its checksum, then payload.
pub open spec fn ipv4_packet(src: Seq<u8>, dst: Seq<u8>, protocol: u8, ttl: u8, payload: Seq<u8>) -> Seq<
    u8,
> {
    let h0 = ipv4_header_bytes(src, dst, protocol, ttl, ipv4_total_len(payload.len()), 0);
    put_u16(h0, 10, checksum_spec(h0)) + payload
}

pub fn build_ipv4(src: [u8; 4], dst: [u8; 4], protocol: u8, ttl: u8, payload: &[u8]) -> (r: Vec<
    u8,
>)
    ensures
        r@ == ipv4_packet(src@, dst@, protocol, ttl, payload@),
{
    let total_len = ((payload.len() % 65536 + IP_HDR_LEN) % 65536) as u16;
    assert(total_len == ipv4_total_len(payload@.len()));
    let mut buf: Vec<u8> = Vec::new();
    // version=4, IHL=5
    buf.push(0x45);
    // DSCP + ECN = 0
    buf.push(0);
    // Total length
    push_be16(&mut buf, total_len);
    // Identification
    push_be16(&mut buf, 0);
    // Flags (DF=1) + Fragment Offset = 0
    push_be16(&mut buf, 0x4000);
    // TTL
    buf.push(ttl);
    // Protocol
    buf.push(protocol);
    // Checksum field, zero until computed below
    push_be16(&mut buf, 0);
    // Source IP
    push_all(&mut buf, src.as_slice());
    // Destination IP
    push_all(&mut buf, dst.as_slice());
    let ghost h0 = ipv4_header_bytes(src@, dst@, protocol, ttl, total_len, 0);
    assert(buf@ =~= h0);
    // Payload
    push_all(&mut buf, payload);
    let header = copy_range(buf.as_slice(), 0, IP_HDR_LEN);
    assert(header@ =~= h0);
    proof {
        lemma_short_sum_fits(header@);
    }
    let cs = checksum(header.as_slice());
    set_be16(&mut buf, 10, cs);
    assert(buf@ =~= put_u16(h0, 10, cs) + payload@);
    buf
}

/// A packet built by `build_ipv4` carries a valid header checksum, and
/// parsing it gives back its addresses, protocol, TTL, length and payload.
pub proof fn lemma_ipv4_roundtrip(src: [u8; 4], dst: [u8; 4], protocol: u8, ttl: u8, payload: Seq<
    u8,
>)
    ensures
        ({
            let s = ipv4_packet(src@, dst@, protocol, ttl, payload);
            &&& ipv4_accepts(s)
            &&& ihl_of(s) == IP_HDR_LEN
            &&& checksum_spec(s.subrange(0, 20)) == 0
            &&& s[0] == 0x45
            &&& be16(s[2], s[3]) == ipv4_total_len(payload.len())
            &&& s[8] == ttl
            &&& s[9] == protocol
            &&& s.subrange(12, 16) == src@
            &&& s.subrange(16, 20) == dst@
            &&& s.subrange(20, s.len() as int) == payload
        }),
{
    let h0 = ipv4_header_bytes(src@, dst@, protocol, ttl, ipv4_total_len(payload.len()), 0);
    let cs = checksum_spec(h0);
    let h = put_u16(h0, 10, cs);
    let s = h + payload;
    assert(h0[10] == 0 && h0[11] == 0);
    lemma_checksum_self_validates(h0, 10);
    assert(s.subrange(0, 20) =~= h);
    assert(s.subrange(12, 16) =~= src@);
    assert(s.subrange(16, 20) =~= dst@);
    assert(s.subrange(20, s.len() as int) =~= payload);
    assert(s[0] == 0x45);
    assert(ihl_of(s) == 20);
    let tl = ipv4_total_len(payload.len());
    assert(s[2] == u16_bytes(tl)[0] && s[3] == u16_bytes(tl)[1]);
}

/// The echo request with its type set to reply and its checksum field
/// cleared.
pub open spec fn echo_reply_base(req: Seq<u8>) -> Seq<u8> {
    req.update(0, ICMP_ECHO_REPLY).update(2, 0u8).update(3, 0u8)
}

/// The reply `build_icmp_echo_reply` makes of an echo request.
pub open spec fn echo_reply_of(req: Seq<u8>) -> Seq<u8> {
    put_u16(echo_reply_base(req), 2, checksum_spec(echo_reply_base(req)))
}

pub fn build_icmp_echo_reply(echo_request: &[u8]) -> (r: Option<Vec<u8>>)
    requires
        echo_request@.len() >= ICMP_HDR_SIZE && echo_request@[0] == ICMP_ECHO_REQUEST ==> sum_fits(
            echo_reply_base(echo_request@),
        ),
    ensures
        r is Some <==> echo_request@.len() >= ICMP_HDR_SIZE && echo_request@[0] == ICMP_ECHO_REQUEST,
        r matches Some(v) ==> v@ == echo_reply_of(echo_request@) && checksum_spec(v@) == 0,
{
    if echo_request.len() < ICMP_HDR_SIZE {
        return None;
    }
    if echo_request[0] != ICMP_ECHO_REQUEST {
        return None;
    }
    let mut reply = copy_range(echo_request, 0, echo_request.len());
    reply.set(0, ICMP_ECHO_REPLY);  // change type
    reply.set(2, 0);  // clear old checksum
    reply.set(3, 0);
    assert(reply@ =~= echo_reply_base(echo_request@));
    let cs = checksum(reply.as_slice());
    set_be16(&mut reply, 2, cs);
    proof {
        lemma_checksum_self_validates(echo_reply_base(echo_request@), 2);
    }
    assert(reply@ =~= echo_reply_of(echo_request@));
    Some(reply)
}

} // verus!
