//! ICMP for traceroute: echo packets plus parsing of ICMP error messages
//! (Time Exceeded, Destination Unreachable) that quote the probe.

use vstd::prelude::*;
use crate::util::{ihl_bytes, be16, read_be16};

pub use crate::ping::{build_echo_request, parse_echo_reply, checksum};

verus! {

pub const ICMP_ECHO_REPLY: u8 = 0;
pub const ICMP_DEST_UNREACH: u8 = 3;
pub const ICMP_ECHO_REQUEST: u8 = 8;
pub const ICMP_TIME_EXCEEDED: u8 = 11;
pub const ICMP_HEADER_SIZE: usize = 8;

/// Header length announced by the quoted IP header.
pub open spec fn inner_ihl(body: Seq<u8>) -> int {
    (body[8] % 16) as int * 4
}

/// The 8 bytes of `s` at offset `o`.
pub open spec fn window8(s: Seq<u8>, o: usize) -> Seq<u8> {
    s.subrange(o as int, o as int + 8)
}

/// `parse_icmp_error` accepts `body`.
pub open spec fn error_accepts(body: Seq<u8>) -> bool {
    &&& body.len() >= 8 + 20 + 8
    &&& (body[0] == ICMP_TIME_EXCEEDED || body[0] == ICMP_DEST_UNREACH)
    &&& body.len() - 8 >= inner_ihl(body) + 8
}

/// Parse an ICMP error message. Returns (type, code, quoted protocol, first
/// 8 bytes of the quoted transport header).
pub fn parse_icmp_error(body: &[u8]) -> (r: Option<(u8, u8, u8, [u8; 8])>)
    ensures
        r is Some <==> error_accepts(body@),
        r matches Some((t, c, proto, transport)) ==> {
            let off = 8 + inner_ihl(body@);
            &&& t == body@[0]
            &&& c == body@[1]
            &&& proto == body@[17]
            &&& transport@ == body@.subrange(off, off + 8)
        },
{
    if body.len() < 8 + 20 + 8 {
        return None;
    }
    let kind = body[0];
    let code = body[1];
    if kind != ICMP_TIME_EXCEEDED && kind != ICMP_DEST_UNREACH {
        return None;
    }
    let inner_len = body.len() - 8;
    let inner_ihl = ihl_bytes(body[8]);
    let protocol = body[17];
    if inner_len < inner_ihl + 8 {
        return None;
    }
    let o = 8 + inner_ihl;
    let transport: [u8; 8] = [
        body[o],
        body[o + 1],
        body[o + 2],
        body[o + 3],
        body[o + 4],
        body[o + 5],
        body[o + 6],
        body[o + 7],
    ];
    assert(transport@ =~= window8(body@, o));
    Some((kind, code, protocol, transport))
}

// ── Probes ──

/// Destination port of the first UDP probe.
pub const BASE_PORT: u16 = 33434;

/// A probe sent with TTL `ttl`, recognised by `marker`: its destination
/// port (UDP) or its sequence number (ICMP).
#[derive(Clone, Copy)]
pub struct Probe {
    pub ttl: u8,
    pub marker: u16,
    pub received: bool,
}

/// The probes of a trace, in the order they are sent, and what the answers
/// told: the address that answered first for each TTL (indexed by TTL),
/// and the smallest TTL that reached the target.
pub struct ProbeTable {
    pub probes: Vec<Probe>,
    pub hop_addrs: Vec<Option<[u8; 4]>>,
    pub target_reached_at: Option<u8>,
    pub unreceived: usize,
}

/// The number of probes not answered yet.
pub open spec fn pending_count(ps: Seq<Probe>) -> nat
    decreases ps.len(),
{
    if ps.len() == 0 {
        0
    } else {
        pending_count(ps.drop_last()) + if ps.last().received { 0nat } else { 1nat }
    }
}

/// The marker of the `i`-th probe: counted from `first`, wrapping at 16
/// bits or not.
pub open spec fn marker_at(first: u16, wrapping: bool, i: int) -> u16 {
    if wrapping {
        ((first + i) % 65536) as u16
    } else {
        (first + i) as u16
    }
}

/// The `count` probes sent for TTLs from `first` on, `n` per TTL.
pub open spec fn planned(first: u8, n: u8, count: int, first_marker: u16, wrapping: bool) -> Seq<Probe> {
    Seq::new(count as nat, |i: int| Probe { ttl: (first + i / (n as int)) as u8, marker: marker_at(first_marker, wrapping, i), received: false })
}

/// The number of TTLs from `first` to `max`.
pub open spec fn hop_count(first: u8, max: u8) -> int {
    max - first + 1
}

/// Index of the first unanswered probe with `marker`, or -1.
pub open spec fn first_match(ps: Seq<Probe>, marker: u16) -> int
    decreases ps.len(),
{
    if ps.len() == 0 {
        -1
    } else {
        let j = first_match(ps.drop_last(), marker);
        if j >= 0 {
            j
        } else if ps.last().marker == marker && !ps.last().received {
            ps.len() - 1
        } else {
            -1
        }
    }
}

impl ProbeTable {
    pub open spec fn wf(&self) -> bool {
        &&& self.unreceived == pending_count(self.probes@)
        &&& forall|i: int| 0 <= i < self.probes@.len() ==> (#[trigger] self.probes@[i]).ttl < self.hop_addrs@.len()
    }

    /// The answer to probe `i` came from `from`.
    pub open spec fn answered(&self, i: int, from: [u8; 4]) -> (Seq<Probe>, Seq<Option<[u8; 4]>>) {
        let p = self.probes@[i];
        (
            self.probes@.update(i, Probe { received: true, ..p }),
            if self.hop_addrs@[p.ttl as int] is None {
                self.hop_addrs@.update(p.ttl as int, Some(from))
            } else {
                self.hop_addrs@
            },
        )
    }
}

proof fn lemma_pending_update(ps: Seq<Probe>, i: int, p: Probe)
    requires
        0 <= i < ps.len(),
        !ps[i].received,
        p.received,
    ensures
        pending_count(ps.update(i, p)) + 1 == pending_count(ps),
    decreases ps.len(),
{
    let q = ps.update(i, p);
    if i == ps.len() - 1 {
        assert(q.drop_last() =~= ps.drop_last());
    } else {
        lemma_pending_update(ps.drop_last(), i, p);
        assert(q.drop_last() =~= ps.drop_last().update(i, p));
    }
}

proof fn lemma_pending_all(ps: Seq<Probe>)
    requires
        forall|i: int| 0 <= i < ps.len() ==> !(#[trigger] ps[i]).received,
    ensures
        pending_count(ps) == ps.len(),
    decreases ps.len(),
{
    if ps.len() > 0 {
        lemma_pending_all(ps.drop_last());
    }
}

proof fn lemma_first_match(ps: Seq<Probe>, marker: u16, j: int)
    requires
        0 <= j <= ps.len(),
        forall|q: int| 0 <= q < j ==> !((#[trigger] ps[q]).marker == marker && !ps[q].received),
    ensures
        j < ps.len() && ps[j].marker == marker && !ps[j].received ==> first_match(ps, marker) == j,
        j == ps.len() ==> first_match(ps, marker) == -1,
    decreases ps.len(),
{
    if ps.len() > 0 {
        let d = ps.drop_last();
        if j < ps.len() {
            if j < d.len() {
                lemma_first_match(d, marker, j);
            } else {
                lemma_first_match(d, marker, d.len() as int);
            }
        } else {
            lemma_first_match(d, marker, d.len() as int);
        }
    }
}

impl ProbeTable {
    fn plan(first_ttl: u8, max_hops: u8, nqueries: u8, first_marker: u16, wrapping: bool) -> (r: Self)
        requires
            first_ttl <= max_hops,
            hop_count(first_ttl, max_hops) <= 255,
            !wrapping ==> first_marker + hop_count(first_ttl, max_hops) * nqueries <= u16::MAX,
        ensures
            r.wf(),
            r.hop_addrs@ == Seq::new((max_hops + 1) as nat, |i: int| None::<[u8; 4]>),
            r.target_reached_at is None,
            r.probes@ == planned(first_ttl, nqueries, hop_count(first_ttl, max_hops) * nqueries, first_marker, wrapping),
    {
        let ghost total = hop_count(first_ttl, max_hops) * nqueries;
        let ghost pl = planned(first_ttl, nqueries, total, first_marker, wrapping);
        let mut probes: Vec<Probe> = Vec::new();
        let mut hop_addrs: Vec<Option<[u8; 4]>> = Vec::new();
        let mut h: usize = 0;
        while h <= max_hops as usize
            invariant
                h <= max_hops + 1,
                hop_addrs@ =~= Seq::new(h as nat, |i: int| None::<[u8; 4]>),
            decreases max_hops + 1 - h,
        {
            hop_addrs.push(None);
            h = h + 1;
        }
        let mut marker = first_marker;
        let mut ttl: u8 = first_ttl;
        let mut k: usize = 0;
        let num_hops: u8 = max_hops - first_ttl + 1;
        while k < num_hops as usize
            invariant
                first_ttl <= max_hops,
                num_hops == hop_count(first_ttl, max_hops),
                num_hops <= 255,
                k <= num_hops,
                k < num_hops ==> ttl == first_ttl + k,
                total == num_hops * nqueries,
                pl == planned(first_ttl, nqueries, total, first_marker, wrapping),
                !wrapping ==> first_marker + num_hops * nqueries <= u16::MAX,
                probes@.len() == k * nqueries,
                marker == marker_at(first_marker, wrapping, k * nqueries),
                hop_addrs@.len() == max_hops + 1,
                k * nqueries <= total,
                forall|i: int| 0 <= i < probes@.len() ==> #[trigger] probes@[i] == pl[i],
            decreases num_hops - k,
        {
            let mut q: u8 = 0;
            while q < nqueries
                invariant
                    first_ttl <= max_hops,
                    num_hops == hop_count(first_ttl, max_hops),
                    k < num_hops,
                    num_hops <= 255,
                    ttl == first_ttl + k,
                    total == num_hops * nqueries,
                    pl == planned(first_ttl, nqueries, total, first_marker, wrapping),
                    q <= nqueries,
                    !wrapping ==> first_marker + num_hops * nqueries <= u16::MAX,
                    probes@.len() == k * nqueries + q,
                    k * nqueries + q <= total,
                    marker == marker_at(first_marker, wrapping, k * nqueries + q),
                    forall|i: int| 0 <= i < probes@.len() ==> #[trigger] probes@[i] == pl[i],
                decreases nqueries - q,
            {
                let ghost idx = k * nqueries + q;
                proof {
                    assert(idx < total) by (nonlinear_arith)
                        requires idx == k * nqueries + q, q < nqueries, k < num_hops, total == num_hops * nqueries;
                    assert(idx / (nqueries as int) == k) by (nonlinear_arith)
                        requires idx == k * nqueries + q, q < nqueries, 0 <= q, 0 <= k;
                    assert(pl[idx] == Probe { ttl, marker, received: false });
                }
                let ghost before = probes@;
                probes.push(Probe { ttl, marker, received: false });
                if wrapping {
                    proof {
                        let x = first_marker + idx;
                        assert(((x % 65536) + 1) % 65536 == (x + 1) % 65536) by (nonlinear_arith)
                            requires x >= 0;
                    }
                    marker = marker.wrapping_add(1);
                } else {
                    assert(first_marker + idx + 1 <= u16::MAX) by (nonlinear_arith)
                        requires first_marker + num_hops * nqueries <= u16::MAX, idx < num_hops * nqueries;
                    marker = marker + 1;
                }
                q = q + 1;
                proof {
                    assert(probes@[idx] == pl[idx]);
                    assert forall|i: int| 0 <= i < probes@.len() implies #[trigger] probes@[i] == pl[i] by {
                        if i < idx {
                            assert(probes@[i] == before[i]);
                        }
                    }
                }
            }
            proof {
                assert((k + 1) * nqueries == k * nqueries + nqueries) by (nonlinear_arith);
            }
            k = k + 1;
            if k < num_hops as usize {
                ttl = ttl + 1;
            }
        }
        proof {
            assert(probes@.len() == total);
            assert(probes@ =~= pl);
            assert forall|i: int| 0 <= i < probes@.len() implies !(#[trigger] probes@[i]).received by {}
            lemma_pending_all(probes@);
            assert forall|i: int| 0 <= i < probes@.len() implies (#[trigger] probes@[i]).ttl < hop_addrs@.len() by {
                assert(i / (nqueries as int) < num_hops) by (nonlinear_arith)
                    requires 0 <= i < num_hops * nqueries, nqueries > 0;
                assert(probes@[i] == pl[i]);
            }
        }
        let unreceived = probes.len();
        ProbeTable { probes, hop_addrs, target_reached_at: None, unreceived }
    }
}

/// The smallest TTL known to reach the target, after a probe with `ttl`
/// reached it.
pub open spec fn reach(t: Option<u8>, ttl: u8) -> Option<u8> {
    match t {
        Some(x) => if ttl < x { Some(ttl) } else { t },
        None => Some(ttl),
    }
}

/// What is known of the target after the probes with TTLs `ttls` reached
/// it, one after the other, starting from `t`.
pub open spec fn reached_after(t: Option<u8>, ttls: Seq<u8>) -> Option<u8>
    decreases ttls.len(),
{
    if ttls.len() == 0 {
        t
    } else {
        reach(reached_after(t, ttls.drop_last()), ttls.last())
    }
}

/// Whatever order the answers that reached the target come in, the trace
/// ends at the smallest TTL among them: starting from nothing, after the
/// probes with TTLs `ttls` reached the target, the TTL recorded is one of
/// them and no larger than any of them (none when there were none).
pub proof fn lemma_reached_is_min(ttls: Seq<u8>)
    ensures
        ttls.len() == 0 ==> reached_after(None, ttls) is None,
        ttls.len() > 0 ==> (reached_after(None, ttls) matches Some(m) && (exists|i: int| 0 <= i < ttls.len() && ttls[i] == m)
            && forall|i: int| 0 <= i < ttls.len() ==> m <= #[trigger] ttls[i]),
    decreases ttls.len(),
{
    if ttls.len() > 0 {
        let init = ttls.drop_last();
        lemma_reached_is_min(init);
        let last = ttls.last();
        assert forall|i: int| 0 <= i < init.len() implies init[i] == ttls[i] by {}
        if init.len() == 0 {
            assert(ttls[0] == last);
        } else {
            let m0 = reached_after(None, init)->0;
            let i0 = choose|i: int| 0 <= i < init.len() && init[i] == m0;
            assert(ttls[i0] == m0);
            assert(ttls[ttls.len() - 1] == last);
        }
    }
}

/// A packet read from a raw socket has its announced IP header.
pub open spec fn raw_ok(data: Seq<u8>) -> bool {
    data.len() >= 1 && (data[0] % 16) as int * 4 <= data.len()
}

/// The ICMP message after the IP header of a raw packet.
pub open spec fn after_ip_header(data: Seq<u8>) -> Seq<u8> {
    data.subrange((data[0] % 16) as int * 4, data.len() as int)
}

/// The 8 quoted transport bytes of an ICMP error message.
pub open spec fn quoted(body: Seq<u8>) -> Seq<u8> {
    body.subrange(8 + inner_ihl(body), 8 + inner_ihl(body) + 8)
}

/// The indices of the probes sent with `ttl`, in order.
pub open spec fn probes_of(ps: Seq<Probe>, ttl: u8) -> Seq<usize>
    decreases ps.len(),
{
    if ps.len() == 0 {
        seq![]
    } else {
        probes_of(ps.drop_last(), ttl) + if ps.last().ttl == ttl { seq![(ps.len() - 1) as usize] } else { Seq::<usize>::empty() }
    }
}

impl ProbeTable {
    /// What an answer to the probe with `marker` does: the first unanswered
    /// such probe is answered from `from` (and `reached` tells whether it
    /// reached the target); the result is its index.
    pub open spec fn match_effect(&self, fin: &Self, r: Option<usize>, marker: u16, from: [u8; 4], reached: bool) -> bool {
        let j = first_match(self.probes@, marker);
        if j >= 0 {
            &&& r == Some(j as usize)
            &&& (fin.probes@, fin.hop_addrs@) == self.answered(j, from)
            &&& fin.target_reached_at == if reached { reach(self.target_reached_at, self.probes@[j].ttl) } else { self.target_reached_at }
        } else {
            &&& r is None
            &&& self.unchanged(fin)
        }
    }

    pub open spec fn unchanged(&self, fin: &Self) -> bool {
        &&& fin.probes@ == self.probes@
        &&& fin.hop_addrs@ == self.hop_addrs@
        &&& fin.target_reached_at == self.target_reached_at
    }

    /// The probes of a UDP trace: `nqueries` per TTL from `first_ttl` to
    /// `max_hops`, to ports counted from `BASE_PORT`.
    pub fn new_udp(first_ttl: u8, max_hops: u8, nqueries: u8) -> (r: Self)
        requires
            first_ttl <= max_hops,
            hop_count(first_ttl, max_hops) <= 255,
            BASE_PORT + hop_count(first_ttl, max_hops) * nqueries <= u16::MAX,
        ensures
            r.wf(),
            r.hop_addrs@ == Seq::new((max_hops + 1) as nat, |i: int| None::<[u8; 4]>),
            r.target_reached_at is None,
            r.probes@ == planned(first_ttl, nqueries, hop_count(first_ttl, max_hops) * nqueries, BASE_PORT, false),
    {
        Self::plan(first_ttl, max_hops, nqueries, BASE_PORT, false)
    }

    /// The probes of an ICMP trace: `nqueries` per TTL from `first_ttl` to
    /// `max_hops`, with sequence numbers counted from 0.
    pub fn new_echo(first_ttl: u8, max_hops: u8, nqueries: u8) -> (r: Self)
        requires
            first_ttl <= max_hops,
            hop_count(first_ttl, max_hops) <= 255,
        ensures
            r.wf(),
            r.hop_addrs@ == Seq::new((max_hops + 1) as nat, |i: int| None::<[u8; 4]>),
            r.target_reached_at is None,
            r.probes@ == planned(first_ttl, nqueries, hop_count(first_ttl, max_hops) * nqueries, 0, true),
    {
        Self::plan(first_ttl, max_hops, nqueries, 0, true)
    }

    fn find(&self, marker: u16) -> (r: Option<usize>)
        ensures
            match r {
                Some(j) => first_match(self.probes@, marker) == j && j < self.probes@.len()
                    && self.probes@[j as int].marker == marker && !self.probes@[j as int].received,
                None => first_match(self.probes@, marker) == -1,
            },
    {
        let mut i: usize = 0;
        while i < self.probes.len()
            invariant
                i <= self.probes@.len(),
                forall|q: int| 0 <= q < i ==> !((#[trigger] self.probes@[q]).marker == marker && !self.probes@[q].received),
            decreases self.probes@.len() - i,
        {
            if self.probes[i].marker == marker && !self.probes[i].received {
                proof { lemma_first_match(self.probes@, marker, i as int); }
                return Some(i);
            }
            i = i + 1;
        }
        proof { lemma_first_match(self.probes@, marker, i as int); }
        None
    }

    fn answer(&mut self, j: usize, from: [u8; 4], reached: bool)
        requires
            old(self).wf(),
            j < old(self).probes@.len(),
            !old(self).probes@[j as int].received,
        ensures
            final(self).wf(),
            (final(self).probes@, final(self).hop_addrs@) == old(self).answered(j as int, from),
            final(self).target_reached_at == if reached {
                reach(old(self).target_reached_at, old(self).probes@[j as int].ttl)
            } else {
                old(self).target_reached_at
            },
    {
        let p = self.probes[j];
        proof {
            lemma_pending_update(self.probes@, j as int, Probe { received: true, ..p });
        }
        self.probes.set(j, Probe { received: true, ..p });
        self.unreceived = self.unreceived - 1;
        let t = p.ttl as usize;
        assert(old(self).probes@[j as int].ttl < old(self).hop_addrs@.len());
        if self.hop_addrs[t].is_none() {
            self.hop_addrs.set(t, Some(from));
        }
        if reached {
            match self.target_reached_at {
                Some(x) => {
                    if p.ttl < x {
                        self.target_reached_at = Some(p.ttl);
                    }
                },
                None => {
                    self.target_reached_at = Some(p.ttl);
                },
            }
        }
        proof {
            assert forall|i: int| 0 <= i < self.probes@.len() implies (#[trigger] self.probes@[i]).ttl < self.hop_addrs@.len() by {
                assert(self.probes@[i].ttl == old(self).probes@[i].ttl);
            }
        }
    }

    /// A packet read from the raw socket during a UDP trace, from `from`:
    /// an ICMP error quoting one of our UDP probes answers it, and a port
    /// unreachable error means that it reached the target. The result is
    /// the index of the probe answered.
    pub fn on_udp_reply(&mut self, data: &[u8], from: [u8; 4]) -> (r: Option<usize>)
        requires
            old(self).wf(),
            raw_ok(data@),
        ensures
            final(self).wf(),
            ({
                let body = after_ip_header(data@);
                if error_accepts(body) && body[17] == 17 {
                    let t = quoted(body);
                    old(self).match_effect(
                        final(self),
                        r,
                        be16(t[2], t[3]),
                        from,
                        body[0] == ICMP_DEST_UNREACH && body[1] == 3,
                    )
                } else {
                    &&& r is None
                    &&& old(self).unchanged(final(self))
                }
            }),
    {
        let hl = ihl_bytes(data[0]);
        let body = &data[hl..data.len()];
        match parse_icmp_error(body) {
            Some((kind, code, proto, transport)) => {
                if proto != 17 {
                    return None;
                }
                let port = read_be16(transport[2], transport[3]);
                match self.find(port) {
                    Some(j) => {
                        self.answer(j, from, kind == ICMP_DEST_UNREACH && code == 3);
                        Some(j)
                    },
                    None => None,
                }
            },
            None => None,
        }
    }

    /// A packet read from the raw socket during an ICMP trace with
    /// identifier `id`, from `from`: an echo reply with our id answers the
    /// probe with its sequence number and reached the target; a Time
    /// Exceeded error quoting one of our echo requests answers it. The
    /// result is the index of the probe answered.
    pub fn on_echo_reply(&mut self, data: &[u8], from: [u8; 4], id: u16) -> (r: Option<usize>)
        requires
            old(self).wf(),
            raw_ok(data@),
        ensures
            final(self).wf(),
            ({
                let body = after_ip_header(data@);
                if body.len() >= ICMP_HEADER_SIZE && body[0] == ICMP_ECHO_REPLY {
                    if be16(body[4], body[5]) == id {
                        old(self).match_effect(final(self), r, be16(body[6], body[7]), from, true)
                    } else {
                        &&& r is None
                        &&& old(self).unchanged(final(self))
                    }
                } else if error_accepts(body) && body[0] == ICMP_TIME_EXCEEDED && body[1] == 0 && body[17] == 1
                    && be16(quoted(body)[4], quoted(body)[5]) == id {
                    let t = quoted(body);
                    old(self).match_effect(final(self), r, be16(t[6], t[7]), from, false)
                } else {
                    &&& r is None
                    &&& old(self).unchanged(final(self))
                }
            }),
    {
        let hl = ihl_bytes(data[0]);
        let body = &data[hl..data.len()];
        match parse_echo_reply(body) {
            Some((rid, rseq, _)) => {
                if rid != id {
                    return None;
                }
                match self.find(rseq) {
                    Some(j) => {
                        self.answer(j, from, true);
                        Some(j)
                    },
                    None => None,
                }
            },
            None => match parse_icmp_error(body) {
                Some((kind, code, proto, transport)) => {
                    if kind != ICMP_TIME_EXCEEDED || code != 0 || proto != 1 {
                        return None;
                    }
                    let inner_id = read_be16(transport[4], transport[5]);
                    let inner_seq = read_be16(transport[6], transport[7]);
                    if inner_id != id {
                        return None;
                    }
                    match self.find(inner_seq) {
                        Some(j) => {
                            self.answer(j, from, false);
                            Some(j)
                        },
                        None => None,
                    }
                },
                None => None,
            },
        }
    }

    /// The TTLs to report, from `first_ttl`: up to the one that reached the
    /// target, or to `max_hops`.
    pub fn hops_to_print(&self, first_ttl: u8, max_hops: u8) -> (r: Vec<u8>)
        requires
            first_ttl <= max_hops,
        ensures
            ({
                let last: int = match self.target_reached_at {
                    Some(t) => if first_ttl <= t <= max_hops { t as int } else { max_hops as int },
                    None => max_hops as int,
                };
                r@ == Seq::new((last - first_ttl + 1) as nat, |i: int| (first_ttl + i) as u8)
            }),
    {
        let ghost last: int = match self.target_reached_at {
            Some(t) => if first_ttl <= t <= max_hops { t as int } else { max_hops as int },
            None => max_hops as int,
        };
        let mut r: Vec<u8> = Vec::new();
        let mut ttl: u8 = first_ttl;
        loop
            invariant
                first_ttl <= ttl <= max_hops,
                ttl <= last,
                last <= max_hops,
                last == (match self.target_reached_at {
                    Some(t) => if first_ttl <= t <= max_hops { t as int } else { max_hops as int },
                    None => max_hops as int,
                }),
                r@ == Seq::new((ttl - first_ttl) as nat, |i: int| (first_ttl + i) as u8),
            ensures
                r@ == Seq::new((last - first_ttl + 1) as nat, |i: int| (first_ttl + i) as u8),
            decreases max_hops - ttl,
        {
            r.push(ttl);
            assert(r@ =~= Seq::new((ttl - first_ttl + 1) as nat, |i: int| (first_ttl + i) as u8));
            if self.target_reached_at == Some(ttl) || ttl == max_hops {
                return r;
            }
            ttl = ttl + 1;
        }
    }

    /// The indices of the probes sent with `ttl`, in order.
    pub fn hop_probes(&self, ttl: u8) -> (r: Vec<usize>)
        ensures
            r@ == probes_of(self.probes@, ttl),
    {
        let mut r: Vec<usize> = Vec::new();
        let mut i: usize = 0;
        assert(self.probes@.subrange(0, 0) =~= Seq::<Probe>::empty());
        while i < self.probes.len()
            invariant
                i <= self.probes@.len(),
                r@ == probes_of(self.probes@.subrange(0, i as int), ttl),
            decreases self.probes@.len() - i,
        {
            let ghost sub = self.probes@.subrange(0, i + 1);
            assert(sub.drop_last() =~= self.probes@.subrange(0, i as int));
            assert(sub.last() == self.probes@[i as int]);
            if self.probes[i].ttl == ttl {
                r.push(i);
            }
            assert(r@ =~= probes_of(sub, ttl));
            i = i + 1;
        }
        assert(self.probes@.subrange(0, i as int) =~= self.probes@);
        r
    }
}

} // verus!
