//! ICMP Echo packets for ping: construction, parsing and checksum.

use vstd::prelude::*;
use crate::util::{
    be16, u16_bytes, read_be16, push_be16, push_all, set_be16, checksum_spec, sum_fits,
    put_u16, lemma_checksum_self_validates, ihl_bytes,
};
use crate::keyed::{keys_unique, to_map, index_of, lemma_index_of, lemma_map_dom, lemma_update, lemma_push, lemma_remove, lemma_filter_unique};
use crate::traceroute::{raw_ok, after_ip_header};

pub use crate::util::checksum;

verus! {

pub const ICMP_ECHO_REQUEST: u8 = 8;
pub const ICMP_ECHO_REPLY: u8 = 0;
pub const ICMP_HEADER_SIZE: usize = 8;

/// An echo request with its checksum field still zero.
pub open spec fn echo_request_base(id: u16, seq: u16, payload: Seq<u8>) -> Seq<u8> {
    seq![ICMP_ECHO_REQUEST, 0u8, 0u8, 0u8] + u16_bytes(id) + u16_bytes(seq) + payload
}

/// The echo request `build_echo_request` produces.
pub open spec fn echo_request(id: u16, seq: u16, payload: Seq<u8>) -> Seq<u8> {
    let b = echo_request_base(id, seq, payload);
    put_u16(b, 2, checksum_spec(b))
}

/// Build an ICMP Echo Request packet (Type=8, Code=0) whose checksum is valid.
pub fn build_echo_request(id: u16, seq: u16, payload: &[u8]) -> (r: Vec<u8>)
    requires
        sum_fits(echo_request_base(id, seq, payload@)),
    ensures
        r@ == echo_request(id, seq, payload@),
        checksum_spec(r@) == 0,
{
    let mut buf: Vec<u8> = Vec::new();
    buf.push(ICMP_ECHO_REQUEST);
    buf.push(0);  // Code
    push_be16(&mut buf, 0);  // checksum field, zero until computed
    push_be16(&mut buf, id);
    push_be16(&mut buf, seq);
    push_all(&mut buf, payload);
    assert(buf@ =~= echo_request_base(id, seq, payload@));
    let cs = checksum(buf.as_slice());
    set_be16(&mut buf, 2, cs);
    proof {
        lemma_checksum_self_validates(echo_request_base(id, seq, payload@), 2);
    }
    buf
}

/// Parse an ICMP Echo Reply. Returns (id, seq, payload).
pub fn parse_echo_reply(data: &[u8]) -> (r: Option<(u16, u16, &[u8])>)
    ensures
        r is Some <==> data@.len() >= ICMP_HEADER_SIZE && data@[0] == ICMP_ECHO_REPLY,
        r matches Some((id, seq, p)) ==> id == be16(data@[4], data@[5]) && seq == be16(
            data@[6],
            data@[7],
        ) && p@ == data@.subrange(8, data@.len() as int),
{
    if data.len() < ICMP_HEADER_SIZE {
        return None;
    }
    if data[0] != ICMP_ECHO_REPLY {
        return None;
    }
    let id = read_be16(data[4], data[5]);
    let seq = read_be16(data[6], data[7]);
    let payload = &data[ICMP_HEADER_SIZE..data.len()];
    Some((id, seq, payload))
}

/// A reply parses back to the id, sequence number and payload of the
/// request it answers.
pub proof fn lemma_echo_roundtrip(id: u16, seq: u16, payload: Seq<u8>)
    ensures
        ({
            let s = echo_request(id, seq, payload);
            &&& s.len() >= ICMP_HEADER_SIZE
            &&& be16(s[4], s[5]) == id
            &&& be16(s[6], s[7]) == seq
            &&& s.subrange(8, s.len() as int) == payload
        }),
{
    let s = echo_request(id, seq, payload);
    assert(s[4] == u16_bytes(id)[0] && s[5] == u16_bytes(id)[1]);
    assert(s[6] == u16_bytes(seq)[0] && s[7] == u16_bytes(seq)[1]);
    assert(s.subrange(8, s.len() as int) =~= payload);
}


// ── Outstanding requests ──

/// The echo requests sent and neither answered nor given up: each
/// sequence number once, with the time it was sent, in the order first
/// sent.
pub struct PingTable {
    waiting: Vec<(u16, u64)>,
}

pub open spec fn seq_key() -> spec_fn((u16, u64)) -> u16 {
    |e: (u16, u64)| e.0
}

/// A request sent at `e.1` has had no answer for longer than `timeout` at
/// `now`.
pub open spec fn timed_out(e: (u16, u64), now: u64, timeout: u64) -> bool {
    now as int - e.1 as int > timeout as int
}

pub open spec fn timed_out_pred(now: u64, timeout: u64) -> spec_fn((u16, u64)) -> bool {
    |e: (u16, u64)| timed_out(e, now, timeout)
}

pub open spec fn still_waiting_pred(now: u64, timeout: u64) -> spec_fn((u16, u64)) -> bool {
    |e: (u16, u64)| !timed_out(e, now, timeout)
}

/// Time from `sent` to `now` (zero if the clock reads earlier).
pub open spec fn elapsed(sent: u64, now: u64) -> u64 {
    if now >= sent { (now - sent) as u64 } else { 0 }
}

/// The sequence number of an echo reply with identifier `id` in a raw
/// packet, if the packet is one.
pub open spec fn reply_seq(packet: Seq<u8>, id: u16) -> Option<u16> {
    let body = after_ip_header(packet);
    if body.len() >= ICMP_HEADER_SIZE && body[0] == ICMP_ECHO_REPLY && be16(body[4], body[5]) == id {
        Some(be16(body[6], body[7]))
    } else {
        None
    }
}

impl PingTable {
    /// The waiting requests, in the order first sent.
    pub closed spec fn entries(&self) -> Seq<(u16, u64)> {
        self.waiting@
    }

    /// The waiting requests by sequence number.
    pub open spec fn waiting_map(&self) -> Map<u16, (u16, u64)> {
        to_map(self.entries(), seq_key())
    }

    pub closed spec fn wf(&self) -> bool {
        keys_unique(self.waiting@, seq_key())
    }

    pub fn new() -> (r: Self)
        ensures
            r.wf(),
            r.entries() == Seq::<(u16, u64)>::empty(),
    {
        PingTable { waiting: Vec::new() }
    }

    fn find(&self, seq: u16) -> (r: Option<usize>)
        requires
            self.wf(),
        ensures
            r is None <==> !self.waiting_map().dom().contains(seq),
            r matches Some(i) ==> i < self.entries().len() && self.entries()[i as int].0 == seq,
    {
        proof {
            lemma_index_of(self.waiting@, seq_key(), seq);
        }
        let mut i: usize = 0;
        while i < self.waiting.len()
            invariant
                i <= self.waiting@.len(),
                keys_unique(self.waiting@, seq_key()),
                forall|j: int| 0 <= j < i ==> (#[trigger] self.waiting@[j]).0 != seq,
            decreases self.waiting@.len() - i,
        {
            if self.waiting[i].0 == seq {
                proof {
                    lemma_map_dom(self.waiting@, seq_key(), i as int);
                }
                return Some(i);
            }
            i = i + 1;
        }
        proof {
            if self.waiting_map().dom().contains(seq) {
                let j = index_of(self.waiting@, seq_key(), seq);
                assert(self.waiting@[j].0 == seq);
            }
        }
        None
    }

    /// Records that request `seq` was sent at `now` (a request with the
    /// same number still waiting takes the new time, in its place).
    pub fn record_sent(&mut self, seq: u16, now: u64)
        requires
            old(self).wf(),
        ensures
            final(self).wf(),
            final(self).waiting_map() == old(self).waiting_map().insert(seq, (seq, now)),
            final(self).entries().map_values(|e: (u16, u64)| e.0) == if old(self).waiting_map().dom().contains(seq) {
                old(self).entries().map_values(|e: (u16, u64)| e.0)
            } else {
                old(self).entries().map_values(|e: (u16, u64)| e.0).push(seq)
            },
    {
        match self.find(seq) {
            Some(i) => {
                proof {
                    lemma_update(self.waiting@, seq_key(), i as int, (seq, now));
                }
                let ghost before = self.waiting@;
                self.waiting.set(i, (seq, now));
                assert(self.waiting@.map_values(|e: (u16, u64)| e.0) =~= before.map_values(|e: (u16, u64)| e.0));
            },
            None => {
                proof {
                    lemma_push(self.waiting@, seq_key(), (seq, now));
                }
                let ghost before = self.waiting@;
                self.waiting.push((seq, now));
                assert(self.waiting@.map_values(|e: (u16, u64)| e.0) =~= before.map_values(|e: (u16, u64)| e.0).push(seq));
            },
        }
    }

    /// Matches a raw packet (IP header included) against the waiting
    /// requests: an echo reply with identifier `id` to a waiting request
    /// removes it and gives its sequence number and the time it took at
    /// `now`; any other packet changes nothing.
    pub fn on_reply(&mut self, id: u16, packet: &[u8], now: u64) -> (r: Option<(u16, u64)>)
        requires
            old(self).wf(),
            raw_ok(packet@),
        ensures
            final(self).wf(),
            match reply_seq(packet@, id) {
                Some(s) if old(self).waiting_map().dom().contains(s) => {
                    &&& r == Some((s, elapsed(old(self).waiting_map()[s].1, now)))
                    &&& final(self).waiting_map() == old(self).waiting_map().remove(s)
                },
                _ => r is None && final(self).entries() == old(self).entries(),
            },
    {
        let hl = ihl_bytes(packet[0]);
        let body = &packet[hl..packet.len()];
        assert(body@ == after_ip_header(packet@));
        let (rid, rseq) = match parse_echo_reply(body) {
            Some((a, b, _)) => (a, b),
            None => { return None; }
        };
        if rid != id {
            return None;
        }
        match self.find(rseq) {
            None => None,
            Some(i) => {
                let sent = self.waiting[i].1;
                proof {
                    lemma_map_dom(self.waiting@, seq_key(), i as int);
                    lemma_remove(self.waiting@, seq_key(), i as int);
                }
                self.waiting.remove(i);
                let e = if now >= sent { now - sent } else { 0 };
                Some((rseq, e))
            },
        }
    }

    /// Gives up the requests that have waited longer than `timeout` at
    /// `now`: their sequence numbers, in the order sent; the others stay.
    pub fn expire(&mut self, now: u64, timeout: u64) -> (r: Vec<u16>)
        requires
            old(self).wf(),
        ensures
            final(self).wf(),
            r@ == old(self).entries().filter(timed_out_pred(now, timeout)).map_values(|e: (u16, u64)| e.0),
            final(self).entries() == old(self).entries().filter(still_waiting_pred(now, timeout)),
    {
        let mut out: Vec<u16> = Vec::new();
        let mut kept: Vec<(u16, u64)> = Vec::new();
        let mut rest: Vec<(u16, u64)> = Vec::new();
        std::mem::swap(&mut rest, &mut self.waiting);
        let ghost s = rest@;
        let ghost mut i: int = 0;
        while rest.len() > 0
            invariant
                0 <= i <= s.len(),
                rest@ == s.subrange(i, s.len() as int),
                out@ == s.subrange(0, i).filter(timed_out_pred(now, timeout)).map_values(|e: (u16, u64)| e.0),
                kept@ == s.subrange(0, i).filter(still_waiting_pred(now, timeout)),
            decreases rest@.len(),
        {
            let e = rest.remove(0);
            proof {
                assert(e == s[i]);
                let pre = s.subrange(0, i);
                let post = s.subrange(0, i + 1);
                assert(post.drop_last() =~= pre);
                assert(post.last() == e);
                reveal_with_fuel(Seq::filter, 1);
                i = i + 1;
                assert(rest@ =~= s.subrange(i, s.len() as int));
            }
            if e.1 < now && now - e.1 > timeout {
                out.push(e.0);
                proof {
                    assert(out@ =~= s.subrange(0, i).filter(timed_out_pred(now, timeout)).map_values(
                        |e: (u16, u64)| e.0,
                    ));
                }
            } else {
                kept.push(e);
            }
        }
        proof {
            assert(s.subrange(0, s.len() as int) =~= s);
            lemma_filter_unique(s, seq_key(), still_waiting_pred(now, timeout));
        }
        self.waiting = kept;
        out
    }

    /// The sequence numbers still waiting, in the order sent.
    pub fn waiting_seqs(&self) -> (r: Vec<u16>)
        ensures
            r@ == self.entries().map_values(|e: (u16, u64)| e.0),
    {
        let mut r: Vec<u16> = Vec::new();
        let mut i: usize = 0;
        while i < self.waiting.len()
            invariant
                i <= self.waiting@.len(),
                r@ == self.waiting@.subrange(0, i as int).map_values(|e: (u16, u64)| e.0),
            decreases self.waiting@.len() - i,
        {
            r.push(self.waiting[i].0);
            assert(self.waiting@.subrange(0, i + 1) =~= self.waiting@.subrange(0, i as int).push(self.waiting@[i as int]));
            assert(r@ =~= self.waiting@.subrange(0, i + 1).map_values(|e: (u16, u64)| e.0));
            i = i + 1;
        }
        assert(self.waiting@.subrange(0, i as int) =~= self.waiting@);
        r
    }
}

} // verus!
