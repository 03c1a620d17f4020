//! Decisions of the iterative resolver: picking records out of responses,
//! and the response a resolver sends back to its client.

use vstd::prelude::*;
use crate::dns_message::{
    DnsHeader, DnsMessage, DnsRR, RData, RRView, RDataView, TYPE_SOA, TYPE_A, TYPE_NS, TYPE_CNAME,
    CLASS_IN, RCODE_NXDOMAIN, copy_rr, copy_question, rrs_view, questions_view, DnsQuestion,
};
use crate::dns_cache::{DnsCache, CacheKey, cache_key, get_effect, lookup, ns_ips, pairs_view, rrs_opt, a_pairs};
use crate::caddyfile::trim_char_end;
use crate::text::{chars_of, split_by, split_ranges, ranges_view, ranges_within};
use vstd::string::{StrSliceExecFns, StringExecFns};
use vstd::utf8::encode_utf8;
use crate::dns_message::{lower_all, lemma_lower_utf8, push_lower, text_to_string};

verus! {

/// Index of the first record with CNAME rdata, or -1.
pub open spec fn first_cname(rs: Seq<RRView>) -> int
    decreases rs.len(),
{
    if rs.len() == 0 {
        -1
    } else if rs[0].rdata is CNAME {
        0
    } else {
        let j = first_cname(rs.drop_first());
        if j < 0 { -1 } else { j + 1 }
    }
}

proof fn lemma_first_cname_range(rs: Seq<RRView>)
    ensures
        -1 <= first_cname(rs) < rs.len(),
    decreases rs.len(),
{
    if rs.len() > 0 {
        lemma_first_cname_range(rs.drop_first());
    }
}

/// The index `first_cname` gives holds a CNAME record.
pub proof fn lemma_first_cname_found(rs: Seq<RRView>)
    ensures
        first_cname(rs) >= 0 ==> first_cname(rs) < rs.len() && rs[first_cname(rs)].rdata is CNAME,
    decreases rs.len(),
{
    if rs.len() > 0 && !(rs[0].rdata is CNAME) {
        lemma_first_cname_found(rs.drop_first());
        if first_cname(rs) >= 0 {
            assert(rs[first_cname(rs)] == rs.drop_first()[first_cname(rs) - 1]);
        }
    }
}

proof fn lemma_first_cname(rs: Seq<RRView>, j: int)
    requires
        0 <= j <= rs.len(),
        forall|q: int| 0 <= q < j ==> !(rs[q].rdata is CNAME),
    ensures
        j < rs.len() && rs[j].rdata is CNAME ==> first_cname(rs) == j,
        j == rs.len() ==> first_cname(rs) == -1,
    decreases j,
{
    if j > 0 {
        let t = rs.drop_first();
        assert forall|q: int| 0 <= q < j - 1 implies !(t[q].rdata is CNAME) by {
            assert(t[q] == rs[q + 1]);
        }
        lemma_first_cname(t, j - 1);
    } else if rs.len() > 0 && !(rs[0].rdata is CNAME) && j == rs.len() {
    }
}

/// The first record whose rdata is a CNAME.
pub fn find_cname(rrs: &[DnsRR]) -> (r: Option<DnsRR>)
    ensures
        match r {
            Some(rr) => first_cname(rrs_view(rrs@)) >= 0 && rr@ == rrs@[first_cname(rrs_view(rrs@))]@,
            None => first_cname(rrs_view(rrs@)) == -1,
        },
{
    let ghost v = rrs_view(rrs@);
    let mut i: usize = 0;
    while i < rrs.len()
        invariant
            v == rrs_view(rrs@),
            i <= rrs@.len(),
            forall|q: int| 0 <= q < i ==> !(v[q].rdata is CNAME),
        decreases rrs@.len() - i,
    {
        if let RData::CNAME(_) = &rrs[i].rdata {
            proof { lemma_first_cname(v, i as int); }
            return Some(copy_rr(&rrs[i]));
        }
        i = i + 1;
    }
    proof { lemma_first_cname(v, i as int); }
    None
}

pub open spec fn cname_of(d: RDataView) -> Seq<char> {
    match d {
        RDataView::CNAME(n) => n,
        _ => Seq::empty(),
    }
}

/// The target name of a CNAME record.
pub fn cname_target(rr: &DnsRR) -> (r: &str)
    requires
        rr@.rdata is CNAME,
    ensures
        r@ == cname_of(rr@.rdata),
{
    match &rr.rdata {
        RData::CNAME(name) => name.as_str(),
        _ => {
            proof { assert(false); }
            ""
        }
    }
}

pub open spec fn of_type(qtype: u16) -> spec_fn(RRView) -> bool {
    |rr: RRView| rr.rtype == qtype
}

/// The records of type `qtype`, in order.
pub fn extract_matching(rrs: &[DnsRR], qtype: u16) -> (r: Vec<DnsRR>)
    ensures
        rrs_view(r@) == rrs_view(rrs@).filter(of_type(qtype)),
{
    let ghost v = rrs_view(rrs@);
    let mut out: Vec<DnsRR> = Vec::new();
    let mut i: usize = 0;
    assert(v.subrange(0, 0).filter(of_type(qtype)) == Seq::<RRView>::empty()) by {
        reveal(Seq::filter);
    }
    while i < rrs.len()
        invariant
            v == rrs_view(rrs@),
            i <= rrs@.len(),
            rrs_view(out@) == v.subrange(0, i as int).filter(of_type(qtype)),
        decreases rrs@.len() - i,
    {
        let ghost before = out@;
        proof {
            reveal(Seq::filter);
            assert(v.subrange(0, i + 1).drop_last() == v.subrange(0, i as int));
        }
        if rrs[i].rtype == qtype {
            out.push(copy_rr(&rrs[i]));
            assert(rrs_view(out@) == rrs_view(before).push(rrs@[i as int]@));
        }
        i = i + 1;
    }
    assert(v.subrange(0, i as int) == v);
    out
}

/// Whether some authority record is an SOA: the mark of a negative answer.
pub fn is_nxdomain(authorities: &[DnsRR]) -> (r: bool)
    ensures
        r == exists|i: int| 0 <= i < authorities@.len() && (#[trigger] authorities@[i]).rtype == TYPE_SOA,
{
    let mut i: usize = 0;
    while i < authorities.len()
        invariant
            i <= authorities@.len(),
            forall|q: int| 0 <= q < i ==> (#[trigger] authorities@[q]).rtype != TYPE_SOA,
        decreases authorities@.len() - i,
    {
        if authorities[i].rtype == TYPE_SOA {
            return true;
        }
        i = i + 1;
    }
    false
}

/// The MINIMUM field of the first record with SOA rdata, or 60.
pub open spec fn soa_minimum(rs: Seq<RRView>) -> u32
    decreases rs.len(),
{
    if rs.len() == 0 {
        60
    } else {
        match rs[0].rdata {
            RDataView::SOA { minimum, .. } => minimum,
            _ => soa_minimum(rs.drop_first()),
        }
    }
}

pub fn extract_soa_minimum(authorities: &[DnsRR]) -> (r: u32)
    ensures
        r == soa_minimum(rrs_view(authorities@)),
{
    let ghost v = rrs_view(authorities@);
    let mut i: usize = 0;
    assert(v.skip(0) == v);
    while i < authorities.len()
        invariant
            v == rrs_view(authorities@),
            i <= authorities@.len(),
            soa_minimum(v.skip(i as int)) == soa_minimum(v),
        decreases authorities@.len() - i,
    {
        assert(v.skip(i as int).drop_first() == v.skip(i + 1));
        if let RData::SOA { minimum, .. } = &authorities[i].rdata {
            return *minimum;
        }
        i = i + 1;
    }
    60
}

/// The response to a query: the query's id and questions, the QR and RA
/// bits with `rcode`, and the answers (ANCOUNT being their number modulo
/// 65536).
pub fn build_response(query: &DnsMessage, answers: &[DnsRR], rcode: u8) -> (r: DnsMessage)
    ensures
        r.header == (DnsHeader {
            id: query.header.id,
            flags: 0x8000u16 | 0x0080u16 | rcode as u16,
            qdcount: query.header.qdcount,
            ancount: (answers@.len() % 65536) as u16,
            nscount: 0,
            arcount: 0,
        }),
        r@.questions == query@.questions,
        r@.answers == rrs_view(answers@),
        r.authorities@.len() == 0,
        r.additionals@.len() == 0,
{
    let mut questions = Vec::new();
    let mut i: usize = 0;
    while i < query.questions.len()
        invariant
            i <= query.questions@.len(),
            questions_view(questions@) == questions_view(query.questions@.subrange(0, i as int)),
        decreases query.questions@.len() - i,
    {
        let ghost before = questions@;
        questions.push(copy_question(&query.questions[i]));
        i = i + 1;
        assert(questions_view(questions@) == questions_view(before).push(query.questions@[i - 1]@));
        assert(questions_view(query.questions@.subrange(0, i as int)) == questions_view(query.questions@.subrange(0, i - 1)).push(query.questions@[i - 1]@));
    }
    assert(query.questions@.subrange(0, i as int) == query.questions@);
    let mut out = Vec::new();
    let mut j: usize = 0;
    while j < answers.len()
        invariant
            j <= answers@.len(),
            rrs_view(out@) == rrs_view(answers@.subrange(0, j as int)),
        decreases answers@.len() - j,
    {
        let ghost before = out@;
        out.push(copy_rr(&answers[j]));
        j = j + 1;
        assert(rrs_view(out@) == rrs_view(before).push(answers@[j - 1]@));
        assert(rrs_view(answers@.subrange(0, j as int)) == rrs_view(answers@.subrange(0, j - 1)).push(answers@[j - 1]@));
    }
    assert(answers@.subrange(0, j as int) == answers@);
    DnsMessage {
        header: DnsHeader {
            id: query.header.id,
            flags: 0x8000u16 | 0x0080u16 | rcode as u16,
            qdcount: query.header.qdcount,
            ancount: (answers.len() % 65536) as u16,
            nscount: 0,
            arcount: 0,
        },
        questions,
        answers: out,
        authorities: Vec::new(),
        additionals: Vec::new(),
    }
}

// ── Name servers of a name ──

/// Labels joined with dots.
pub open spec fn join_labels(ls: Seq<Seq<char>>) -> Seq<char>
    decreases ls.len(),
{
    if ls.len() == 0 {
        seq![]
    } else if ls.len() == 1 {
        ls[0]
    } else {
        join_labels(ls.drop_last()) + seq!['.'] + ls.last()
    }
}

/// The labels of a name with an empty label after them: the name without
/// its trailing dots, split at each dot, then "".
pub open spec fn zone_labels(name: Seq<char>) -> Seq<Seq<char>> {
    split_by(trim_char_end(name, '.'), '.').push(seq![])
}

/// Zone `i` of the labels `ls`: the root for the last, otherwise labels
/// `i..` joined with dots, then a dot.
pub open spec fn zone_at(ls: Seq<Seq<char>>, i: int) -> Seq<char> {
    if i == ls.len() - 1 { seq!['.'] } else { join_labels(ls.subrange(i, ls.len() as int)) + seq!['.'] }
}

/// The name servers of the first zone, from `i` on, that has any.
pub open spec fn first_servers(m: Map<CacheKey, Seq<(RRView, u64)>>, ls: Seq<Seq<char>>, i: int, now: u64) -> Option<Seq<(Seq<char>, Seq<u8>)>>
    decreases ls.len() - i,
{
    if i < 0 || i >= ls.len() {
        None
    } else {
        let p = ns_ips(m, zone_at(ls, i), now);
        if p.len() > 0 { Some(p) } else { first_servers(m, ls, i + 1, now) }
    }
}

pub open spec fn servers_result(r: Result<Vec<(String, [u8; 4])>, String>) -> Result<Seq<(Seq<char>, Seq<u8>)>, Seq<char>> {
    match r {
        Ok(v) => Ok(pairs_view(v@)),
        Err(e) => Err(e@),
    }
}

/// The name servers to ask for `name`: those of the first zone, from the
/// name itself towards the root, whose servers have cached addresses.
pub fn get_nameservers_at(name: &str, cache: &mut DnsCache, now: u64) -> (r: Result<Vec<(String, [u8; 4])>, String>)
    requires
        old(cache).wf(),
    ensures
        final(cache).wf(),
        servers_result(r) == match first_servers(old(cache).records_view(), zone_labels(name@), 0, now) {
            Some(p) => Ok(p),
            None => Err("no NS records found for "@ + name@),
        },
        forall|k: CacheKey| #[trigger] lookup(final(cache).records_view(), k, now) == lookup(old(cache).records_view(), k, now),
        final(cache).negatives_view() == old(cache).negatives_view(),
{
    proof {
        reveal_strlit(".");
    }
    let ghost m0 = cache.records_view();
    let cs = chars_of(name);
    let mut te = cs.len();
    assert(cs@.subrange(0, cs@.len() as int) =~= cs@);
    while te > 0 && cs[te - 1] == '.'
        invariant
            te <= cs@.len(),
            trim_char_end(cs@, '.') == trim_char_end(cs@.subrange(0, te as int), '.'),
        decreases te,
    {
        assert(cs@.subrange(0, te as int).drop_last() =~= cs@.subrange(0, te - 1));
        te = te - 1;
    }
    let parts = split_ranges(&cs, 0, te, '.');
    let ghost ls = zone_labels(name@);
    assert(ranges_view(cs@, parts@) == split_by(trim_char_end(name@, '.'), '.'));
    let mut i: usize = 0;
    assert(first_servers(m0, ls, 0, now) == first_servers(m0, ls, i as int, now));
    while i < parts.len()
        invariant
            ls.len() == parts@.len() + 1,
            i <= parts@.len(),
            ls == ranges_view(cs@, parts@).push(seq![]),
            ranges_within(parts@, 0, te as int),
            te <= cs@.len(),
            cs@ == name@,
            cache.wf(),
            forall|k: CacheKey| #[trigger] lookup(cache.records_view(), k, now) == lookup(m0, k, now),
            cache.negatives_view() == old(cache).negatives_view(),
            m0 == old(cache).records_view(),
            ls == zone_labels(name@),
            first_servers(m0, ls, 0, now) == first_servers(m0, ls, i as int, now),
        decreases parts@.len() - i,
    {
        proof {
            reveal_strlit(".");
        }
        let mut zone = String::new();
        let mut j = i;
        while j < parts.len()
            invariant
                i < parts@.len(),
                ls.len() == parts@.len() + 1,
                i <= j <= parts@.len(),
                ls == ranges_view(cs@, parts@).push(seq![]),
                ranges_within(parts@, 0, te as int),
                te <= cs@.len(),
                cs@ == name@,
                j > i ==> zone@ == join_labels(ls.subrange(i as int, j as int)),
                j == i ==> zone@ == Seq::<char>::empty(),
            decreases parts@.len() - j,
        {
            proof {
                reveal_strlit(".");
            }
            if j > i {
                zone.append(".");
            }
            let (a, b) = parts[j];
            assert(ls[j as int] == cs@.subrange(a as int, b as int));
            zone.append(name.substring_char(a, b));
            proof {
                let piece = ls.subrange(i as int, j + 1);
                assert(piece.drop_last() =~= ls.subrange(i as int, j as int));
                assert(piece.last() == ls[j as int]);
                assert(zone@ =~= join_labels(piece));
            }
            j = j + 1;
        }
        zone.append(".");
        zone.append(".");
        proof {
            let whole = ls.subrange(i as int, ls.len() as int);
            assert(whole.drop_last() =~= ls.subrange(i as int, j as int));
            assert(whole.last() == ls[ls.len() - 1]);
            assert(ls[ls.len() - 1] == Seq::<char>::empty());
            assert(zone@ =~= zone_at(ls, i as int));
        }
        let ghost mb = cache.records_view();
        let ips = cache.get_ns_ips_at(zone.as_str(), now);
        proof {
            lemma_ns_ips_same(mb, m0, zone@, now);
            assert forall|k: CacheKey| #[trigger] lookup(cache.records_view(), k, now) == lookup(m0, k, now) by {
                assert(lookup(cache.records_view(), k, now) == lookup(mb, k, now));
            }
        }
        if ips.len() > 0 {
            return Ok(ips);
        }
        i = i + 1;
    }
    proof {
        reveal_strlit(".");
    }
    let mut root = String::new();
    root.append(".");
    assert(root@ =~= zone_at(ls, i as int));
    let ghost mb = cache.records_view();
    let ips = cache.get_ns_ips_at(root.as_str(), now);
    proof {
        lemma_ns_ips_same(mb, m0, root@, now);
        assert forall|k: CacheKey| #[trigger] lookup(cache.records_view(), k, now) == lookup(m0, k, now) by {
            assert(lookup(cache.records_view(), k, now) == lookup(mb, k, now));
        }
        assert(first_servers(m0, ls, (i + 1) as int, now) is None);
    }
    if ips.len() > 0 {
        return Ok(ips);
    }
    let mut msg = String::from_str("no NS records found for ");
    msg.append(name);
    Err(msg)
}

proof fn lemma_ns_pairs_same(m1: Map<CacheKey, Seq<(RRView, u64)>>, m2: Map<CacheKey, Seq<(RRView, u64)>>, rs: Seq<RRView>, now: u64)
    requires
        forall|k: CacheKey| #[trigger] lookup(m1, k, now) == lookup(m2, k, now),
    ensures
        crate::dns_cache::ns_pairs(m1, rs, now) == crate::dns_cache::ns_pairs(m2, rs, now),
    decreases rs.len(),
{
    if rs.len() > 0 {
        lemma_ns_pairs_same(m1, m2, rs.drop_last(), now);
        match rs.last().rdata {
            RDataView::NS(n) => {
                assert(lookup(m1, cache_key(n, TYPE_A, CLASS_IN), now) == lookup(m2, cache_key(n, TYPE_A, CLASS_IN), now));
            }
            _ => {}
        }
    }
}

proof fn lemma_ns_ips_same(m1: Map<CacheKey, Seq<(RRView, u64)>>, m2: Map<CacheKey, Seq<(RRView, u64)>>, z: Seq<char>, now: u64)
    requires
        forall|k: CacheKey| #[trigger] lookup(m1, k, now) == lookup(m2, k, now),
    ensures
        ns_ips(m1, z, now) == ns_ips(m2, z, now),
{
    assert(lookup(m1, cache_key(z, TYPE_NS, CLASS_IN), now) == lookup(m2, cache_key(z, TYPE_NS, CLASS_IN), now));
    lemma_ns_pairs_same(m1, m2, lookup(m1, cache_key(z, TYPE_NS, CLASS_IN), now), now);
}

// ── Cache first ──

/// `s` with every ASCII upper-case letter lowered and every other
/// character unchanged (as `str::to_ascii_lowercase`): its UTF-8 bytes are
/// those of `s`, lowered byte by byte.
fn ascii_lowercase(s: &str) -> (r: String)
    ensures
        encode_utf8(r@) == lower_all(encode_utf8(s@)),
{
    let b = s.as_bytes();
    let mut v: Vec<u8> = Vec::new();
    push_lower(&mut v, b, 0, b.len());
    assert(b@.subrange(0, b@.len() as int) == b@);
    proof {
        lemma_lower_utf8(s@);
    }
    let ghost bytes = v@;
    match text_to_string(v) {
        Some(t) => {
            proof {
                vstd::utf8::decode_utf8_encode_utf8(bytes);
            }
            t
        },
        None => String::new(),
    }
}

proof fn lemma_lower_idempotent(b: Seq<u8>)
    ensures
        lower_all(lower_all(b)) == lower_all(b),
{
    assert(lower_all(lower_all(b)) =~= lower_all(b));
}

/// What the cache alone answers for `name`: its records of `qtype` alive
/// at `now`, or no records when the name is known not to exist; `None`
/// when the servers must be asked.
pub open spec fn cached_answer(m: Map<CacheKey, Seq<(RRView, u64)>>, negatives: Map<CacheKey, u64>, name: Seq<char>, qtype: u16, now: u64) -> Option<Seq<RRView>> {
    let k = cache_key(name, qtype, CLASS_IN);
    match get_effect(m, k, now).0 {
        Some(v) => Some(v),
        None => if negatives.dom().contains(k) && now < negatives[k] { Some(seq![]) } else { None },
    }
}

/// The lower-cased name to resolve, and the cache's own answer for it.
pub fn resolve_from_cache_at(name: &str, qtype: u16, cache: &mut DnsCache, now: u64) -> (r: (String, Option<Vec<DnsRR>>))
    requires
        old(cache).wf(),
    ensures
        final(cache).wf(),
        encode_utf8(r.0@) == lower_all(encode_utf8(name@)),
        rrs_opt(r.1) == cached_answer(old(cache).records_view(), old(cache).negatives_view(), name@, qtype, now),
        final(cache).records_view() == get_effect(old(cache).records_view(), cache_key(name@, qtype, CLASS_IN), now).1,
        final(cache).negatives_view() == old(cache).negatives_view(),
{
    let lower = ascii_lowercase(name);
    proof { lemma_lower_idempotent(encode_utf8(name@)); }
    assert(cache_key(lower@, qtype, CLASS_IN) == cache_key(name@, qtype, CLASS_IN));
    match cache.get_at(lower.as_str(), qtype, CLASS_IN, now) {
        Some(rrs) => (lower, Some(rrs)),
        None => {
            if cache.is_nxdomain_at(lower.as_str(), qtype, CLASS_IN, now) {
                let none: Vec<DnsRR> = Vec::new();
                assert(rrs_view(none@) =~= Seq::<RRView>::empty());
                (lower, Some(none))
            } else {
                (lower, None)
            }
        }
    }
}

// ── After a reply ──

/// Stores every record of a reply at `now` and gives its answers (none for
/// an NXDOMAIN reply), authority and additional records.
pub fn absorb_reply_at(msg: DnsMessage, cache: &mut DnsCache, now: u64) -> (r: (Vec<DnsRR>, Vec<DnsRR>, Vec<DnsRR>))
    requires
        old(cache).wf(),
    ensures
        final(cache).wf(),
        final(cache).records_view() == crate::dns_cache::put_all_effect(
            crate::dns_cache::put_all_effect(
                crate::dns_cache::put_all_effect(old(cache).records_view(), msg@.answers, now),
                msg@.authorities,
                now,
            ),
            msg@.additionals,
            now,
        ),
        final(cache).negatives_view() == old(cache).negatives_view(),
        rrs_view(r.0@) == if msg.header.flags % 16 == RCODE_NXDOMAIN { Seq::<RRView>::empty() } else { msg@.answers },
        rrs_view(r.1@) == msg@.authorities,
        rrs_view(r.2@) == msg@.additionals,
{
    cache.put_all_at(msg.answers.as_slice(), now);
    cache.put_all_at(msg.authorities.as_slice(), now);
    cache.put_all_at(msg.additionals.as_slice(), now);
    let DnsMessage { header, questions: _, answers, authorities, additionals } = msg;
    if header.rcode() == RCODE_NXDOMAIN {
        let none: Vec<DnsRR> = Vec::new();
        assert(rrs_view(none@) =~= Seq::<RRView>::empty());
        (none, authorities, additionals)
    } else {
        (answers, authorities, additionals)
    }
}

/// What the answers of a reply lead to.
pub enum AnswerStep {
    /// Records of the asked type: the resolution ends with them.
    Found(Vec<DnsRR>),
    /// A CNAME to follow.
    Follow(DnsRR),
    /// A CNAME to follow, but 16 have been followed already.
    DepthExceeded,
    /// Nothing more to learn from these answers.
    NoData,
}

pub const MAX_CNAME_DEPTH: u32 = 16;

pub open spec fn answer_step_spec(answers: Seq<RRView>, qtype: u16, cname_depth: u32, r: AnswerStep) -> bool {
    let matching = answers.filter(of_type(qtype));
    if matching.len() > 0 {
        r matches AnswerStep::Found(v) && rrs_view(v@) == matching
    } else if qtype != TYPE_CNAME && first_cname(answers) >= 0 {
        if cname_depth >= MAX_CNAME_DEPTH {
            r is DepthExceeded
        } else {
            r matches AnswerStep::Follow(c) && c@ == answers[first_cname(answers)]
        }
    } else {
        r is NoData
    }
}

pub fn answer_step(answers: &[DnsRR], qtype: u16, cname_depth: u32) -> (r: AnswerStep)
    ensures
        answer_step_spec(rrs_view(answers@), qtype, cname_depth, r),
{
    let matching = extract_matching(answers, qtype);
    if matching.len() > 0 {
        return AnswerStep::Found(matching);
    }
    assert(rrs_view(answers@).filter(of_type(qtype)).len() == 0);
    if qtype != TYPE_CNAME {
        match find_cname(answers) {
            Some(c) => {
                if cname_depth >= MAX_CNAME_DEPTH {
                    return AnswerStep::DepthExceeded;
                }
                proof {
                    let j = first_cname(rrs_view(answers@));
                    lemma_first_cname_range(rrs_view(answers@));
                    assert(rrs_view(answers@)[j] == answers@[j]@);
                }
                return AnswerStep::Follow(c);
            }
            None => {}
        }
    }
    AnswerStep::NoData
}

// ── Referrals ──

/// The names of the NS records among `rs`, in order.
pub open spec fn ns_names(rs: Seq<RRView>) -> Seq<Seq<char>>
    decreases rs.len(),
{
    if rs.len() == 0 {
        seq![]
    } else {
        ns_names(rs.drop_last()) + match rs.last().rdata {
            RDataView::NS(n) => seq![n],
            _ => Seq::<Seq<char>>::empty(),
        }
    }
}

/// The address of the first A record among `rs` named exactly `n`.
pub open spec fn first_glue(rs: Seq<RRView>, n: Seq<char>) -> Option<Seq<u8>>
    decreases rs.len(),
{
    if rs.len() == 0 {
        None
    } else {
        match rs[0].rdata {
            RDataView::A(ip) => if rs[0].name == n { Some(ip) } else { first_glue(rs.drop_first(), n) },
            _ => first_glue(rs.drop_first(), n),
        }
    }
}

/// The address of the first glue record for `n`.
pub(crate) fn glue_for(additionals: &[DnsRR], n: &String) -> (r: Option<[u8; 4]>)
    ensures
        match r {
            Some(ip) => first_glue(rrs_view(additionals@), n@) == Some(ip@),
            None => first_glue(rrs_view(additionals@), n@) is None,
        },
{
    let ghost v = rrs_view(additionals@);
    let mut i: usize = 0;
    assert(v.skip(0) =~= v);
    while i < additionals.len()
        invariant
            i <= additionals@.len(),
            v == rrs_view(additionals@),
            first_glue(v, n@) == first_glue(v.skip(i as int), n@),
        decreases additionals@.len() - i,
    {
        assert(v.skip(i as int).drop_first() =~= v.skip(i + 1));
        assert(v.skip(i as int)[0] == additionals@[i as int]@);
        if let RData::A(ip) = &additionals[i].rdata {
            if additionals[i].name == *n {
                return Some(*ip);
            }
        }
        i = i + 1;
    }
    None
}

/// The names of the NS records among `authorities`, in order.
pub(crate) fn collect_ns_names(authorities: &[DnsRR]) -> (r: Vec<String>)
    ensures
        r@.map_values(|s: String| s@) == ns_names(rrs_view(authorities@)),
{
    let ghost av = rrs_view(authorities@);
    let mut names: Vec<String> = Vec::new();
    let mut i: usize = 0;
    assert(av.subrange(0, 0) =~= Seq::<RRView>::empty());
    assert(names@.map_values(|s: String| s@) =~= Seq::<Seq<char>>::empty());
    while i < authorities.len()
        invariant
            i <= authorities@.len(),
            av == rrs_view(authorities@),
            names@.map_values(|s: String| s@) == ns_names(av.subrange(0, i as int)),
        decreases authorities@.len() - i,
    {
        assert(av.subrange(0, i + 1).drop_last() =~= av.subrange(0, i as int));
        assert(av.subrange(0, i + 1).last() == authorities@[i as int]@);
        let ghost before = names@;
        if let RData::NS(n) = &authorities[i].rdata {
            names.push(n.clone());
            assert(names@.map_values(|s: String| s@) =~= before.map_values(|s: String| s@) + seq![n@]);
        } else {
            assert(names@.map_values(|s: String| s@) =~= before.map_values(|s: String| s@) + Seq::<Seq<char>>::empty());
        }
        i = i + 1;
    }
    assert(av.subrange(0, i as int) =~= av);
    names
}

/// Appends `(n, address)` for each A record of `rrs`, in order.
pub(crate) fn push_a_pairs(out: &mut Vec<(String, [u8; 4])>, n: &String, rrs: &[DnsRR])
    ensures
        pairs_view(final(out)@) == pairs_view(old(out)@) + a_pairs(n@, rrs_view(rrs@)),
{
    let ghost rv = rrs_view(rrs@);
    let ghost o0 = pairs_view(out@);
    let mut j: usize = 0;
    assert(rv.subrange(0, 0) =~= Seq::<RRView>::empty());
    assert(o0 + a_pairs(n@, Seq::<RRView>::empty()) =~= o0);
    while j < rrs.len()
        invariant
            j <= rrs@.len(),
            rv == rrs_view(rrs@),
            pairs_view(out@) == o0 + a_pairs(n@, rv.subrange(0, j as int)),
        decreases rrs@.len() - j,
    {
        assert(rv.subrange(0, j + 1).drop_last() =~= rv.subrange(0, j as int));
        assert(rv.subrange(0, j + 1).last() == rrs@[j as int]@);
        let ghost ob = out@;
        if let RData::A(ip) = &rrs[j].rdata {
            out.push((n.clone(), *ip));
            assert(pairs_view(out@) =~= pairs_view(ob) + seq![(n@, ip@)]);
            assert(o0 + a_pairs(n@, rv.subrange(0, j + 1)) =~= o0 + a_pairs(n@, rv.subrange(0, j as int)) + seq![(n@, ip@)]);
        } else {
            assert(o0 + a_pairs(n@, rv.subrange(0, j + 1)) =~= o0 + a_pairs(n@, rv.subrange(0, j as int)) + Seq::<(Seq<char>, Seq<u8>)>::empty());
        }
        j = j + 1;
    }
    assert(rv.subrange(0, j as int) =~= rv);
}

/// The names of a referral's servers joined with commas: what marks a
/// referral already followed.
pub open spec fn referral_key_spec(servers: Seq<(Seq<char>, Seq<u8>)>) -> Seq<char>
    decreases servers.len(),
{
    if servers.len() == 0 {
        seq![]
    } else if servers.len() == 1 {
        servers[0].0
    } else {
        referral_key_spec(servers.drop_last()) + seq![','] + servers.last().0
    }
}

pub fn referral_key(servers: &[(String, [u8; 4])]) -> (r: String)
    ensures
        r@ == referral_key_spec(pairs_view(servers@)),
{
    proof {
        reveal_strlit(",");
    }
    let ghost sv = pairs_view(servers@);
    let mut s = String::new();
    let mut i: usize = 0;
    assert(sv.subrange(0, 0) =~= Seq::<(Seq<char>, Seq<u8>)>::empty());
    while i < servers.len()
        invariant
            i <= servers@.len(),
            sv == pairs_view(servers@),
            s@ == referral_key_spec(sv.subrange(0, i as int)),
        decreases servers@.len() - i,
    {
        proof {
            reveal_strlit(",");
        }
        if i > 0 {
            s.append(",");
        }
        s.append(servers[i].0.as_str());
        proof {
            let sub = sv.subrange(0, i + 1);
            assert(sub.drop_last() =~= sv.subrange(0, i as int));
            assert(sub.last() == sv[i as int]);
            assert(s@ =~= referral_key_spec(sub));
        }
        i = i + 1;
    }
    assert(sv.subrange(0, i as int) =~= sv);
    s
}

// ── Queries ──

/// `fastrand::u16(..)`: a random query id; nothing is promised of it.
#[verifier::external_body]
fn random_u16() -> u16 {
    fastrand::u16(..)
}

/// A recursion-desired query for `name` and `qtype`, class IN, with the
/// given id.
pub fn build_query_with_id(id: u16, name: &str, qtype: u16) -> (r: DnsMessage)
    ensures
        r.header == (DnsHeader { id, flags: 0x0100, qdcount: 1, ancount: 0, nscount: 0, arcount: 0 }),
        r@.questions == seq![crate::dns_message::QuestionView { qname: name@, qtype, qclass: CLASS_IN }],
        r.answers@.len() == 0,
        r.authorities@.len() == 0,
        r.additionals@.len() == 0,
{
    let mut questions = Vec::new();
    questions.push(DnsQuestion { qname: String::from_str(name), qtype, qclass: CLASS_IN });
    let r = DnsMessage {
        header: DnsHeader { id, flags: 0x0100, qdcount: 1, ancount: 0, nscount: 0, arcount: 0 },
        questions,
        answers: Vec::new(),
        authorities: Vec::new(),
        additionals: Vec::new(),
    };
    assert(r@.questions =~= seq![crate::dns_message::QuestionView { qname: name@, qtype, qclass: CLASS_IN }]);
    r
}

/// A query as `build_query_with_id` makes it, with a random id.
pub fn build_query(name: &str, qtype: u16) -> (r: DnsMessage)
    ensures
        r.header.flags == 0x0100 && r.header.qdcount == 1 && r.header.ancount == 0 && r.header.nscount == 0
            && r.header.arcount == 0,
        r@.questions == seq![crate::dns_message::QuestionView { qname: name@, qtype, qclass: CLASS_IN }],
        r.answers@.len() == 0,
        r.authorities@.len() == 0,
        r.additionals@.len() == 0,
{
    let id = random_u16();
    build_query_with_id(id, name, qtype)
}

} // verus!
