//! Ethernet II frame — parse and construct.

use vstd::prelude::*;
use crate::util::{be16, u16_bytes, read_be16, push_be16, push_all};

verus! {

pub const ETH_HDR_LEN: usize = 14;
pub const ETH_TYPE_IPV4: u16 = 0x0800;
pub const ETH_TYPE_ARP: u16 = 0x0806;
pub const BROADCAST_MAC: [u8; 6] = [0xFF, 0xFF, 0xFF, 0xFF, 0xFF, 0xFF];

#[derive(Debug)]
pub struct EthernetHdr {
    pub dst: [u8; 6],
    pub src: [u8; 6],
    pub ethertype: u16,
}

/// The wire bytes of a frame.
pub open spec fn frame_bytes(dst: Seq<u8>, src: Seq<u8>, ethertype: u16, payload: Seq<u8>) -> Seq<u8> {
    dst + src + u16_bytes(ethertype) + payload
}

/// Returns None if too short. Returns (header fields, payload slice).
pub fn parse_frame(data: &[u8]) -> (r: Option<(EthernetHdr, &[u8])>)
    ensures
        r is None <==> data@.len() < ETH_HDR_LEN,
        r matches Some((h, p)) ==> {
            &&& h.dst@ == data@.subrange(0, 6)
            &&& h.src@ == data@.subrange(6, 12)
            &&& h.ethertype == be16(data@[12], data@[13])
            &&& p@ == data@.subrange(14, data@.len() as int)
        },
{
    if data.len() < ETH_HDR_LEN {
        return None;
    }
    let dst = [data[0], data[1], data[2], data[3], data[4], data[5]];
    let src = [data[6], data[7], data[8], data[9], data[10], data[11]];
    let ethertype = read_be16(data[12], data[13]);
    assert(dst@ =~= data@.subrange(0, 6));
    assert(src@ =~= data@.subrange(6, 12));
    let payload = &data[ETH_HDR_LEN..data.len()];
    Some((EthernetHdr { dst, src, ethertype }, payload))
}

pub fn build_frame(dst: [u8; 6], src: [u8; 6], ethertype: u16, payload: &[u8]) -> (r: Vec<u8>)
    ensures
        r@ == frame_bytes(dst@, src@, ethertype, payload@),
{
    let mut buf: Vec<u8> = Vec::new();
    push_all(&mut buf, dst.as_slice());
    push_all(&mut buf, src.as_slice());
    push_be16(&mut buf, ethertype);
    push_all(&mut buf, payload);
    buf
}

/// Parsing a built frame gives back its addresses, type and payload.
pub proof fn lemma_frame_roundtrip(dst: [u8; 6], src: [u8; 6], ethertype: u16, payload: Seq<u8>)
    ensures
        ({
            let s = frame_bytes(dst@, src@, ethertype, payload);
            &&& s.len() >= ETH_HDR_LEN
            &&& s.subrange(0, 6) == dst@
            &&& s.subrange(6, 12) == src@
            &&& be16(s[12], s[13]) == ethertype
            &&& s.subrange(14, s.len() as int) == payload
        }),
{
    let s = frame_bytes(dst@, src@, ethertype, payload);
    assert(s.subrange(0, 6) =~= dst@);
    assert(s.subrange(6, 12) =~= src@);
    assert(s.subrange(14, s.len() as int) =~= payload);
    assert(s[12] == u16_bytes(ethertype)[0] && s[13] == u16_bytes(ethertype)[1]);
}

} // verus!
