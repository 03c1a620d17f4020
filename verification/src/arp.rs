//! ARP protocol — packet parsing/construction and address cache (IP→MAC).

use vstd::prelude::*;
use crate::util::{be16, be32, u16_bytes, read_be16, read_be32, push_be16, push_all, lemma_be16_roundtrip};
use crate::keyed::{keys_unique, to_map, index_of, lemma_index_of, lemma_map_dom, lemma_update, lemma_push, lemma_remove, lemma_filter_unique};
use crate::clock::clock_ms;
use std::collections::HashMap;

verus! {

pub const ARP_HTYPE_ETHER: u16 = 1;
pub const ARP_PTYPE_IPV4: u16 = 0x0800;
pub const ARP_HLEN_ETHER: u8 = 6;
pub const ARP_PLEN_IPV4: u8 = 4;
pub const ARP_OP_REQUEST: u16 = 1;
pub const ARP_OP_REPLY: u16 = 2;
pub const ARP_PKT_LEN: usize = 28;  // 8B base + 2×6B HW + 2×4B proto

/// Lifetime of a learned address, in milliseconds.
pub const CACHE_TTL_MS: u64 = 60_000;
/// Time between two requests for an unresolved address, in milliseconds.
pub const PENDING_RETRY_INTERVAL_MS: u64 = 3_000;
/// Requests sent before an unresolved address times out.
pub const MAX_RETRIES: u32 = 3;

#[derive(Debug)]
pub struct ArpPacket {
    pub htype: u16,
    pub ptype: u16,
    pub hlen: u8,
    pub plen: u8,
    pub oper: u16,
    pub sha: [u8; 6],  // sender hardware address
    pub spa: [u8; 4],  // sender protocol address
    pub tha: [u8; 6],  // target hardware address
    pub tpa: [u8; 4],  // target protocol address
}

/// The 28 wire bytes of an ARP packet with the given fields.
pub open spec fn arp_bytes(
    htype: u16,
    ptype: u16,
    hlen: u8,
    plen: u8,
    oper: u16,
    sha: Seq<u8>,
    spa: Seq<u8>,
    tha: Seq<u8>,
    tpa: Seq<u8>,
) -> Seq<u8> {
    u16_bytes(htype) + u16_bytes(ptype) + seq![hlen, plen] + u16_bytes(oper) + sha + spa + tha + tpa
}

/// `p` holds the fields that the first 28 bytes of `s` encode.
pub open spec fn arp_fields(p: ArpPacket, s: Seq<u8>) -> bool {
    &&& s.len() >= 28
    &&& p.htype == be16(s[0], s[1])
    &&& p.ptype == be16(s[2], s[3])
    &&& p.hlen == s[4]
    &&& p.plen == s[5]
    &&& p.oper == be16(s[6], s[7])
    &&& p.sha@ == s.subrange(8, 14)
    &&& p.spa@ == s.subrange(14, 18)
    &&& p.tha@ == s.subrange(18, 24)
    &&& p.tpa@ == s.subrange(24, 28)
}

pub fn parse_arp(data: &[u8]) -> (r: Option<ArpPacket>)
    ensures
        r is None <==> data@.len() < ARP_PKT_LEN,
        r matches Some(p) ==> arp_fields(p, data@),
{
    if data.len() < ARP_PKT_LEN {
        return None;
    }
    let sha = [data[8], data[9], data[10], data[11], data[12], data[13]];
    let spa = [data[14], data[15], data[16], data[17]];
    let tha = [data[18], data[19], data[20], data[21], data[22], data[23]];
    let tpa = [data[24], data[25], data[26], data[27]];
    let p = ArpPacket {
        htype: read_be16(data[0], data[1]),
        ptype: read_be16(data[2], data[3]),
        hlen: data[4],
        plen: data[5],
        oper: read_be16(data[6], data[7]),
        sha,
        spa,
        tha,
        tpa,
    };
    assert(p.sha@ =~= data@.subrange(8, 14));
    assert(p.spa@ =~= data@.subrange(14, 18));
    assert(p.tha@ =~= data@.subrange(18, 24));
    assert(p.tpa@ =~= data@.subrange(24, 28));
    Some(p)
}

pub fn build_arp(
    htype: u16,
    ptype: u16,
    hlen: u8,
    plen: u8,
    oper: u16,
    sha: [u8; 6],
    spa: [u8; 4],
    tha: [u8; 6],
    tpa: [u8; 4],
) -> (r: Vec<u8>)
    ensures
        r@ == arp_bytes(htype, ptype, hlen, plen, oper, sha@, spa@, tha@, tpa@),
{
    let mut buf: Vec<u8> = Vec::with_capacity(ARP_PKT_LEN);
    push_be16(&mut buf, htype);
    push_be16(&mut buf, ptype);
    buf.push(hlen);
    buf.push(plen);
    push_be16(&mut buf, oper);
    push_all(&mut buf, sha.as_slice());
    push_all(&mut buf, spa.as_slice());
    push_all(&mut buf, tha.as_slice());
    push_all(&mut buf, tpa.as_slice());
    assert(buf@ =~= arp_bytes(htype, ptype, hlen, plen, oper, sha@, spa@, tha@, tpa@));
    buf
}

pub fn build_arp_reply(sha: [u8; 6], spa: [u8; 4], tha: [u8; 6], tpa: [u8; 4]) -> (r: Vec<u8>)
    ensures
        r@ == arp_bytes(
            ARP_HTYPE_ETHER,
            ARP_PTYPE_IPV4,
            ARP_HLEN_ETHER,
            ARP_PLEN_IPV4,
            ARP_OP_REPLY,
            sha@,
            spa@,
            tha@,
            tpa@,
        ),
{
    build_arp(
        ARP_HTYPE_ETHER,
        ARP_PTYPE_IPV4,
        ARP_HLEN_ETHER,
        ARP_PLEN_IPV4,
        ARP_OP_REPLY,
        sha,
        spa,
        tha,
        tpa,
    )
}

pub fn build_arp_request(sha: [u8; 6], spa: [u8; 4], tpa: [u8; 4]) -> (r: Vec<u8>)
    ensures
        r@ == arp_bytes(
            ARP_HTYPE_ETHER,
            ARP_PTYPE_IPV4,
            ARP_HLEN_ETHER,
            ARP_PLEN_IPV4,
            ARP_OP_REQUEST,
            sha@,
            spa@,
            seq![0u8, 0u8, 0u8, 0u8, 0u8, 0u8],
            tpa@,
        ),
{
    let zero: [u8; 6] = [0, 0, 0, 0, 0, 0];
    let r = build_arp(
        ARP_HTYPE_ETHER,
        ARP_PTYPE_IPV4,
        ARP_HLEN_ETHER,
        ARP_PLEN_IPV4,
        ARP_OP_REQUEST,
        sha,
        spa,
        zero,
        tpa,
    );
    assert(zero@ =~= seq![0u8, 0u8, 0u8, 0u8, 0u8, 0u8]);
    r
}

/// Parsing what `build_arp` wrote gives back every field it was given.
pub proof fn lemma_arp_roundtrip(
    htype: u16,
    ptype: u16,
    hlen: u8,
    plen: u8,
    oper: u16,
    sha: [u8; 6],
    spa: [u8; 4],
    tha: [u8; 6],
    tpa: [u8; 4],
)
    ensures
        ({
            let s = arp_bytes(htype, ptype, hlen, plen, oper, sha@, spa@, tha@, tpa@);
            &&& s.len() == 28
            &&& arp_fields(
                ArpPacket { htype, ptype, hlen, plen, oper, sha, spa, tha, tpa },
                s,
            )
        }),
{
    let s = arp_bytes(htype, ptype, hlen, plen, oper, sha@, spa@, tha@, tpa@);
    assert(s.len() == 28);
    lemma_be16_roundtrip(htype);
    lemma_be16_roundtrip(ptype);
    lemma_be16_roundtrip(oper);
    assert(s[0] == u16_bytes(htype)[0] && s[1] == u16_bytes(htype)[1]);
    assert(s[2] == u16_bytes(ptype)[0] && s[3] == u16_bytes(ptype)[1]);
    assert(s[6] == u16_bytes(oper)[0] && s[7] == u16_bytes(oper)[1]);
    assert(s.subrange(8, 14) =~= sha@);
    assert(s.subrange(14, 18) =~= spa@);
    assert(s.subrange(18, 24) =~= tha@);
    assert(s.subrange(24, 28) =~= tpa@);
}

// ── Address cache ──

/// An IPv4 address as a 32-bit key.
pub open spec fn ip_key(ip: [u8; 4]) -> u32 {
    be32(ip[0], ip[1], ip[2], ip[3])
}

pub fn ip_key_of(ip: [u8; 4]) -> (r: u32)
    ensures
        r == ip_key(ip),
{
    read_be32(ip[0], ip[1], ip[2], ip[3])
}

/// Distinct addresses have distinct keys.
pub proof fn lemma_ip_key_injective(a: [u8; 4], b: [u8; 4])
    requires
        ip_key(a) == ip_key(b),
    ensures
        a@ == b@,
{
    let x = a[0] as int * 16777216 + a[1] as int * 65536 + a[2] as int * 256 + a[3] as int;
    let y = b[0] as int * 16777216 + b[1] as int * 65536 + b[2] as int * 256 + b[3] as int;
    assert(x == y);
    assert(a[3] == b[3] && a[2] == b[2] && a[1] == b[1] && a[0] == b[0]) by (nonlinear_arith)
        requires
            x == a[0] as int * 16777216 + a[1] as int * 65536 + a[2] as int * 256 + a[3] as int,
            y == b[0] as int * 16777216 + b[1] as int * 65536 + b[2] as int * 256 + b[3] as int,
            x == y,
            0 <= a[0] < 256, 0 <= a[1] < 256, 0 <= a[2] < 256, 0 <= a[3] < 256,
            0 <= b[0] < 256, 0 <= b[1] < 256, 0 <= b[2] < 256, 0 <= b[3] < 256,
    ;
    assert(a@ =~= b@);
}

/// A learned IP→MAC binding.
pub struct ArpEntry {
    pub ip: [u8; 4],
    pub mac: [u8; 6],
    /// When the binding was learned (ms).
    pub learned: u64,
}

/// Packets waiting for an address to be resolved.
pub struct PendingEntry {
    pub ip: [u8; 4],
    pub packets: Vec<Vec<u8>>,
    pub last_request: u64,
    pub retries: u32,
}

pub struct ArpCache {
    /// Learned bindings, by address key.
    entries: HashMap<u32, ArpEntry>,
    /// Unresolved addresses, in the order they were first queued (the
    /// retries and time-outs of a tick come out in that order).
    pending: Vec<PendingEntry>,
}

/// Result of a tick — which IPs need an ARP request (re)sent, and which timed out.
pub struct TickResult {
    pub retry_ips: Vec<[u8; 4]>,
    pub timed_out_ips: Vec<[u8; 4]>,
}

pub open spec fn pending_key() -> spec_fn(PendingEntry) -> u32 {
    |e: PendingEntry| ip_key(e.ip)
}

/// A binding learned at `learned` has expired at time `now`.
pub open spec fn expired(learned: u64, now: u64) -> bool {
    learned as int + CACHE_TTL_MS < now as int
}

/// An unresolved address whose request should be sent again at `now`.
pub open spec fn needs_retry(e: PendingEntry, now: u64) -> bool {
    e.retries < MAX_RETRIES && e.last_request as int + PENDING_RETRY_INTERVAL_MS <= now as int
}

/// An unresolved address that is given up at `now`.
pub open spec fn gives_up(e: PendingEntry, now: u64) -> bool {
    e.retries >= MAX_RETRIES && now as int - e.last_request as int >= PENDING_RETRY_INTERVAL_MS
}

pub open spec fn retry_pred(now: u64) -> spec_fn(PendingEntry) -> bool {
    |e: PendingEntry| needs_retry(e, now)
}

pub open spec fn give_up_pred(now: u64) -> spec_fn(PendingEntry) -> bool {
    |e: PendingEntry| gives_up(e, now)
}

pub open spec fn keep_pred(now: u64) -> spec_fn(PendingEntry) -> bool {
    |e: PendingEntry| !gives_up(e, now)
}

pub open spec fn pending_ip() -> spec_fn(PendingEntry) -> [u8; 4] {
    |e: PendingEntry| e.ip
}

/// The binding of `ip` to `mac` learned at `now`.
pub open spec fn entry_at(ip: [u8; 4], mac: [u8; 6], now: u64) -> ArpEntry {
    ArpEntry { ip, mac, learned: now }
}

impl ArpCache {
    /// Learned bindings, by address key.
    pub closed spec fn bindings(&self) -> Map<u32, ArpEntry> {
        self.entries@
    }

    /// Unresolved addresses, in the order they were first queued.
    pub closed spec fn pending_seq(&self) -> Seq<PendingEntry> {
        self.pending@
    }

    /// Unresolved addresses, by address key.
    pub open spec fn pending_map(&self) -> Map<u32, PendingEntry> {
        to_map(self.pending_seq(), pending_key())
    }

    pub closed spec fn wf(&self) -> bool {
        &&& forall|k: u32| #[trigger] self.entries@.contains_key(k) ==> ip_key(self.entries@[k].ip) == k
        &&& keys_unique(self.pending@, pending_key())
    }

    /// No two unresolved addresses share a key.
    pub proof fn lemma_pending_unique(&self)
        requires
            self.wf(),
        ensures
            keys_unique(self.pending_seq(), pending_key()),
    {
    }

    /// The MAC bound to `ip` and still valid at `now`.
    pub open spec fn lookup_spec(&self, ip: [u8; 4], now: u64) -> Option<[u8; 6]> {
        let k = ip_key(ip);
        if self.bindings().dom().contains(k) && !expired(self.bindings()[k].learned, now) {
            Some(self.bindings()[k].mac)
        } else {
            None
        }
    }

    pub fn new() -> (r: Self)
        ensures
            r.wf(),
            r.bindings() == Map::<u32, ArpEntry>::empty(),
            r.pending_seq() == Seq::<PendingEntry>::empty(),
    {
        let r = ArpCache { entries: HashMap::new(), pending: Vec::new() };
        assert(r.bindings() =~= Map::<u32, ArpEntry>::empty());
        r
    }


    fn find_pending(&self, ip: [u8; 4]) -> (r: Option<usize>)
        requires
            self.wf(),
        ensures
            r is None <==> !self.pending_map().dom().contains(ip_key(ip)),
            r matches Some(i) ==> i < self.pending@.len() && ip_key(self.pending@[i as int].ip)
                == ip_key(ip) && self.pending_map()[ip_key(ip)] == self.pending@[i as int],
    {
        let k = ip_key_of(ip);
        proof {
            lemma_index_of(self.pending@, pending_key(), k);
        }
        let mut i: usize = 0;
        while i < self.pending.len()
            invariant
                self.wf(),
                k == ip_key(ip),
                i <= self.pending@.len(),
                forall|j: int| 0 <= j < i ==> ip_key(#[trigger] self.pending@[j].ip) != k,
            decreases self.pending@.len() - i,
        {
            if ip_key_of(self.pending[i].ip) == k {
                proof {
                    lemma_map_dom(self.pending@, pending_key(), i as int);
                }
                return Some(i);
            }
            i = i + 1;
        }
        proof {
            if self.pending_map().dom().contains(k) {
                let j = index_of(self.pending@, pending_key(), k);
                assert(ip_key(self.pending@[j].ip) == k);
            }
        }
        None
    }

    /// Look up the MAC address for an IP at time `now` (ms). Returns None if
    /// not found or expired.
    pub fn lookup_at(&self, ip: [u8; 4], now: u64) -> (r: Option<[u8; 6]>)
        requires
            self.wf(),
        ensures
            r == self.lookup_spec(ip, now),
    {
        broadcast use vstd::std_specs::hash::group_hash_axioms;
        let k = ip_key_of(ip);
        match self.entries.get(&k) {
            None => None,
            Some(e) => {
                if e.learned < now && now - e.learned > CACHE_TTL_MS {
                    None
                } else {
                    Some(e.mac)
                }
            },
        }
    }

    /// Look up the MAC address for an IP. Returns None if not found or expired.
    /// The current time is the wall clock in milliseconds since the Unix
    /// epoch (`clock_ms`); a cache used this way must not be given times on
    /// another base through the `_at` methods.
    pub fn lookup(&self, ip: [u8; 4]) -> (r: Option<[u8; 6]>)
        requires
            self.wf(),
        ensures
            exists|now: u64| r == #[trigger] self.lookup_spec(ip, now),
    {
        let now = clock_ms();
        self.lookup_at(ip, now)
    }

    fn set_binding(&mut self, ip: [u8; 4], mac: [u8; 6], now: u64)
        requires
            old(self).wf(),
        ensures
            final(self).wf(),
            final(self).bindings() == old(self).bindings().insert(
                ip_key(ip),
                ArpEntry { ip, mac, learned: now },
            ),
            final(self).pending@ == old(self).pending@,
    {
        broadcast use vstd::std_specs::hash::group_hash_axioms;
        let e = ArpEntry { ip, mac, learned: now };
        let k = ip_key_of(ip);
        self.entries.insert(k, e);
    }

    fn take_pending(&mut self, ip: [u8; 4]) -> (r: Vec<Vec<u8>>)
        requires
            old(self).wf(),
        ensures
            final(self).wf(),
            final(self).entries@ == old(self).entries@,
            final(self).pending_map() == old(self).pending_map().remove(ip_key(ip)),
            r@ == (if old(self).pending_map().dom().contains(ip_key(ip)) {
                old(self).pending_map()[ip_key(ip)].packets@
            } else {
                Seq::empty()
            }),
            final(self).pending_seq().map_values(pending_ip()) == (if old(self).pending_map().dom().contains(ip_key(ip)) {
                old(self).pending_seq().map_values(pending_ip()).remove(index_of(old(self).pending_seq(), pending_key(), ip_key(ip)))
            } else {
                old(self).pending_seq().map_values(pending_ip())
            }),
    {
        match self.find_pending(ip) {
            Some(i) => {
                proof {
                    lemma_remove(self.pending@, pending_key(), i as int);
                    lemma_index_of(self.pending@, pending_key(), ip_key(ip));
                }
                let ghost before = self.pending@;
                let p = self.pending.remove(i);
                assert(self.pending@.map_values(pending_ip()) =~= before.map_values(pending_ip()).remove(i as int));
                p.packets
            },
            None => {
                assert(old(self).pending_map().remove(ip_key(ip)) =~= old(self).pending_map());
                Vec::new()
            },
        }
    }

    /// Bind `ip` to `mac` as learned at `now` and hand back the packets that
    /// were waiting for it.
    pub fn insert_at(&mut self, ip: [u8; 4], mac: [u8; 6], now: u64) -> (r: Vec<Vec<u8>>)
        requires
            old(self).wf(),
        ensures
            final(self).wf(),
            final(self).bindings() == old(self).bindings().insert(
                ip_key(ip),
                ArpEntry { ip, mac, learned: now },
            ),
            final(self).pending_map() == old(self).pending_map().remove(ip_key(ip)),
            r@ == (if old(self).pending_map().dom().contains(ip_key(ip)) {
                old(self).pending_map()[ip_key(ip)].packets@
            } else {
                Seq::empty()
            }),
            final(self).pending_seq().map_values(pending_ip()) == (if old(self).pending_map().dom().contains(ip_key(ip)) {
                old(self).pending_seq().map_values(pending_ip()).remove(index_of(old(self).pending_seq(), pending_key(), ip_key(ip)))
            } else {
                old(self).pending_seq().map_values(pending_ip())
            }),
    {
        self.set_binding(ip, mac, now);
        self.take_pending(ip)
    }

    /// `insert_at` at the current time.
    /// The current time is the wall clock in milliseconds since the Unix
    /// epoch (`clock_ms`); a cache used this way must not be given times on
    /// another base through the `_at` methods.
    pub fn insert(&mut self, ip: [u8; 4], mac: [u8; 6]) -> (r: Vec<Vec<u8>>)
        requires
            old(self).wf(),
        ensures
            final(self).wf(),
            exists|now: u64| final(self).bindings() == old(self).bindings().insert(
                ip_key(ip),
                #[trigger] entry_at(ip, mac, now),
            ),
            final(self).pending_map() == old(self).pending_map().remove(ip_key(ip)),
            r@ == (if old(self).pending_map().dom().contains(ip_key(ip)) {
                old(self).pending_map()[ip_key(ip)].packets@
            } else {
                Seq::empty()
            }),
    {
        let now = clock_ms();
        let r = self.insert_at(ip, mac, now);
        assert(self.bindings() == old(self).bindings().insert(ip_key(ip), entry_at(ip, mac, now)));
        r
    }

    /// Soft-update at `now`: learn MAC from any ARP packet without draining
    /// pending. All-zero addresses are ignored.
    pub fn learn_at(&mut self, ip: [u8; 4], mac: [u8; 6], now: u64)
        requires
            old(self).wf(),
        ensures
            final(self).wf(),
            final(self).pending_seq() == old(self).pending_seq(),
            final(self).bindings() == (if ip@ == seq![0u8, 0u8, 0u8, 0u8] || mac@ == seq![
                0u8,
                0u8,
                0u8,
                0u8,
                0u8,
                0u8,
            ] {
                old(self).bindings()
            } else {
                old(self).bindings().insert(ip_key(ip), ArpEntry { ip, mac, learned: now })
            }),
    {
        let ip_zero = ip[0] == 0 && ip[1] == 0 && ip[2] == 0 && ip[3] == 0;
        let mac_zero = mac[0] == 0 && mac[1] == 0 && mac[2] == 0 && mac[3] == 0 && mac[4] == 0
            && mac[5] == 0;
        assert(ip_zero <==> ip@ =~= seq![0u8, 0u8, 0u8, 0u8]);
        assert(mac_zero <==> mac@ =~= seq![0u8, 0u8, 0u8, 0u8, 0u8, 0u8]);
        if ip_zero || mac_zero {
            return;
        }
        self.set_binding(ip, mac, now);
    }

    /// Soft-update: learn MAC from any ARP packet without draining pending.
    /// The current time is the wall clock in milliseconds since the Unix
    /// epoch (`clock_ms`); a cache used this way must not be given times on
    /// another base through the `_at` methods.
    pub fn learn(&mut self, ip: [u8; 4], mac: [u8; 6])
        requires
            old(self).wf(),
        ensures
            final(self).wf(),
            final(self).pending_seq() == old(self).pending_seq(),
            ip@ == seq![0u8, 0u8, 0u8, 0u8] || mac@ == seq![0u8, 0u8, 0u8, 0u8, 0u8, 0u8]
                ==> final(self).bindings() == old(self).bindings(),
            !(ip@ == seq![0u8, 0u8, 0u8, 0u8] || mac@ == seq![0u8, 0u8, 0u8, 0u8, 0u8, 0u8])
                ==> exists|now: u64| final(self).bindings() == old(self).bindings().insert(
                ip_key(ip),
                #[trigger] entry_at(ip, mac, now),
            ),
    {
        let now = clock_ms();
        self.learn_at(ip, mac, now);
        assert(!(ip@ == seq![0u8, 0u8, 0u8, 0u8] || mac@ == seq![0u8, 0u8, 0u8, 0u8, 0u8, 0u8])
            ==> self.bindings() == old(self).bindings().insert(ip_key(ip), entry_at(ip, mac, now)));
    }

    /// No valid binding and no pending request for this IP at `now`.
    pub fn needs_resolution_at(&self, ip: [u8; 4], now: u64) -> (r: bool)
        requires
            self.wf(),
        ensures
            r == (self.lookup_spec(ip, now) is None && !self.pending_map().dom().contains(
                ip_key(ip),
            )),
    {
        self.lookup_at(ip, now).is_none() && self.find_pending(ip).is_none()
    }

    /// Check if we need to send an ARP request for this IP (no cache, no pending).
    /// The current time is the wall clock in milliseconds since the Unix
    /// epoch (`clock_ms`); a cache used this way must not be given times on
    /// another base through the `_at` methods.
    pub fn needs_resolution(&self, ip: [u8; 4]) -> (r: bool)
        requires
            self.wf(),
        ensures
            exists|now: u64| r == (#[trigger] self.lookup_spec(ip, now) is None && !self.pending_map().dom().contains(ip_key(ip))),
    {
        let now = clock_ms();
        self.needs_resolution_at(ip, now)
    }

    /// Queue an IP packet waiting for ARP resolution.
    /// Returns true if this is the first packet for this IP (caller should send ARP request).
    /// Number of addresses waiting for resolution.
    pub fn pending_len(&self) -> (r: usize)
        ensures
            r == self.pending_seq().len(),
    {
        self.pending.len()
    }

    pub fn queue_packet(&mut self, ip: [u8; 4], packet: Vec<u8>, now: u64) -> (r: bool)
        requires
            old(self).wf(),
        ensures
            final(self).wf(),
            final(self).bindings() == old(self).bindings(),
            r == !old(self).pending_map().dom().contains(ip_key(ip)),
            final(self).pending_map().dom() == old(self).pending_map().dom().insert(ip_key(ip)),
            forall|k: u32|
                k != ip_key(ip) && old(self).pending_map().dom().contains(k) ==> #[trigger] final(self).pending_map()[k] == old(self).pending_map()[k],
            ({
                let e = final(self).pending_map()[ip_key(ip)];
                if r {
                    &&& e.ip == ip
                    &&& e.packets@ == seq![packet]
                    &&& e.last_request == now
                    &&& e.retries == 0
                } else {
                    let o = old(self).pending_map()[ip_key(ip)];
                    &&& e.ip == o.ip
                    &&& e.packets@ == o.packets@.push(packet)
                    &&& e.last_request == o.last_request
                    &&& e.retries == o.retries
                }
            }),
            final(self).pending_seq().map_values(pending_ip()) == (if r {
                old(self).pending_seq().map_values(pending_ip()).push(ip)
            } else {
                old(self).pending_seq().map_values(pending_ip())
            }),
    {
        match self.find_pending(ip) {
            Some(i) => {
                let mut e = self.pending.remove(i);
                e.packets.push(packet);
                let ghost new_e = e;
                proof {
                    lemma_update(old(self).pending@, pending_key(), i as int, new_e);
                    assert(old(self).pending@.update(i as int, new_e) =~= self.pending@.insert(
                        i as int,
                        new_e,
                    ));
                }
                self.pending.insert(i, e);
                proof {
                    lemma_map_dom(self.pending@, pending_key(), i as int);
                    assert(self.pending@.map_values(pending_ip()) =~= old(self).pending@.map_values(pending_ip()));
                }
                false
            },
            None => {
                let mut packets: Vec<Vec<u8>> = Vec::new();
                packets.push(packet);
                let e = PendingEntry { ip, packets, last_request: now, retries: 0 };
                proof {
                    lemma_push(self.pending@, pending_key(), e);
                }
                self.pending.push(e);
                proof {
                    assert(self.pending@.map_values(pending_ip()) =~= old(self).pending@.map_values(pending_ip()).push(ip));
                }
                true
            },
        }
    }

    /// Addresses whose request should be sent again and addresses given up
    /// at `now`, each in queue order; the given-up ones leave the queue.
    pub fn tick(&mut self, now: u64) -> (r: TickResult)
        requires
            old(self).wf(),
        ensures
            final(self).wf(),
            final(self).bindings() == old(self).bindings(),
            r.retry_ips@ == old(self).pending_seq().filter(retry_pred(now)).map_values(
                pending_ip(),
            ),
            r.timed_out_ips@ == old(self).pending_seq().filter(give_up_pred(now)).map_values(
                pending_ip(),
            ),
            final(self).pending_seq() == old(self).pending_seq().filter(keep_pred(now)),
    {
        let mut retry_ips: Vec<[u8; 4]> = Vec::new();
        let mut timed_out_ips: Vec<[u8; 4]> = Vec::new();
        let mut kept: Vec<PendingEntry> = Vec::new();
        let mut rest: Vec<PendingEntry> = Vec::new();
        std::mem::swap(&mut rest, &mut self.pending);
        let ghost s = rest@;
        let ghost mut i: int = 0;
        while rest.len() > 0
            invariant
                0 <= i <= s.len(),
                rest@ == s.subrange(i, s.len() as int),
                retry_ips@ == s.subrange(0, i).filter(retry_pred(now)).map_values(pending_ip()),
                timed_out_ips@ == s.subrange(0, i).filter(give_up_pred(now)).map_values(
                    pending_ip(),
                ),
                kept@ == s.subrange(0, i).filter(keep_pred(now)),
            decreases rest@.len(),
        {
            let e = rest.remove(0);
            proof {
                assert(e == s[i]);
                let pre = s.subrange(0, i);
                let post = s.subrange(0, i + 1);
                assert(post.drop_last() =~= pre);
                assert(post.last() == e);
                reveal_with_fuel(Seq::filter, 1);
                i = i + 1;
                assert(rest@ =~= s.subrange(i, s.len() as int));
            }
            let due = e.last_request <= now && now - e.last_request >= PENDING_RETRY_INTERVAL_MS;
            if e.retries >= MAX_RETRIES {
                if due {
                    timed_out_ips.push(e.ip);
                    proof {
                        assert(timed_out_ips@ =~= s.subrange(0, i).filter(
                            give_up_pred(now),
                        ).map_values(pending_ip()));
                    }
                } else {
                    kept.push(e);
                }
            } else {
                if due {
                    retry_ips.push(e.ip);
                    proof {
                        assert(retry_ips@ =~= s.subrange(0, i).filter(retry_pred(now)).map_values(
                            pending_ip(),
                        ));
                    }
                }
                kept.push(e);
            }
        }
        proof {
            assert(s.subrange(0, s.len() as int) =~= s);
            lemma_filter_unique(s, pending_key(), keep_pred(now));
        }
        self.pending = kept;
        TickResult { retry_ips, timed_out_ips }
    }

    /// Record that a request for `ip` was sent at `now`.
    pub fn record_request(&mut self, ip: [u8; 4], now: u64)
        requires
            old(self).wf(),
            old(self).pending_map().dom().contains(ip_key(ip)) ==> old(self).pending_map()[ip_key(ip)].retries < u32::MAX,
        ensures
            final(self).wf(),
            final(self).bindings() == old(self).bindings(),
            final(self).pending_map().dom() == old(self).pending_map().dom().insert(ip_key(ip)),
            forall|k: u32|
                k != ip_key(ip) && old(self).pending_map().dom().contains(k) ==> #[trigger] final(self).pending_map()[k] == old(self).pending_map()[k],
            ({
                let e = final(self).pending_map()[ip_key(ip)];
                if old(self).pending_map().dom().contains(ip_key(ip)) {
                    let o = old(self).pending_map()[ip_key(ip)];
                    &&& e.ip == o.ip
                    &&& e.packets == o.packets
                    &&& e.last_request == now
                    &&& e.retries == o.retries + 1
                } else {
                    &&& e.ip == ip
                    &&& e.packets@ == Seq::<Vec<u8>>::empty()
                    &&& e.last_request == now
                    &&& e.retries == 1
                }
            }),
            final(self).pending_seq().map_values(pending_ip()) == (if old(self).pending_map().dom().contains(ip_key(ip)) {
                old(self).pending_seq().map_values(pending_ip())
            } else {
                old(self).pending_seq().map_values(pending_ip()).push(ip)
            }),
    {
        match self.find_pending(ip) {
            Some(i) => {
                let mut e = self.pending.remove(i);
                e.last_request = now;
                e.retries = e.retries + 1;
                let ghost new_e = e;
                proof {
                    lemma_update(old(self).pending@, pending_key(), i as int, new_e);
                    assert(old(self).pending@.update(i as int, new_e) =~= self.pending@.insert(
                        i as int,
                        new_e,
                    ));
                }
                self.pending.insert(i, e);
                proof {
                    lemma_map_dom(self.pending@, pending_key(), i as int);
                    assert(self.pending@.map_values(pending_ip()) =~= old(self).pending@.map_values(pending_ip()));
                }
            },
            None => {
                let e = PendingEntry { ip, packets: Vec::new(), last_request: now, retries: 1 };
                proof {
                    lemma_push(self.pending@, pending_key(), e);
                }
                self.pending.push(e);
                proof {
                    assert(self.pending@.map_values(pending_ip()) =~= old(self).pending@.map_values(pending_ip()).push(ip));
                }
            },
        }
    }
}

} // verus!
