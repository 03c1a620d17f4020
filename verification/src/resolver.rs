//! Iterative resolution from the root servers, as a machine that its caller
//! drives. A step either advances on the cache alone, or asks the caller to
//! send a query to a server and hand back the reply, or ends with the
//! answer. Name servers without glue are resolved by nested resolutions,
//! kept on a stack of frames.

use vstd::prelude::*;
use vstd::string::{StrSliceExecFns, StringExecFns};
use crate::dns_message::{DnsMessage, DnsHeader, DnsRR, RRView, MessageView, QuestionView, TYPE_A, TYPE_CNAME, TYPE_SOA, CLASS_IN, RCODE_NXDOMAIN, RCODE_NOERROR, rrs_view, copy_rr};
use crate::dns_cache::{DnsCache, CacheKey, cache_key, get_effect, lookup, put_all_effect, expiry, pairs_view, a_pairs, negative_alive};
use crate::dns_resolve::{
    first_cname, cname_of, cname_target, of_type, soa_minimum, first_servers, zone_labels,
    get_nameservers_at, cached_answer, resolve_from_cache_at, absorb_reply_at, AnswerStep, answer_step,
    ns_names, first_glue, glue_for, collect_ns_names, push_a_pairs, referral_key_spec, referral_key,
    is_nxdomain, extract_soa_minimum, build_query, build_response, MAX_CNAME_DEPTH,
};
use crate::http::str_eq;
use vstd::utf8::encode_utf8;
use crate::dns_message::lower_all;

verus! {

/// Passes of one resolution before it gives up.
pub const MAX_ITERATIONS: u32 = 30;
/// Depth of nested resolutions for name servers without glue.
pub const MAX_GLUE_DEPTH: u32 = 3;

/// Where a resolution stands.
pub enum Stage {
    /// Nothing done yet: the root servers are still to be found.
    Begin,
    /// At the head of a pass: the cache is asked first.
    Head,
    /// Asking the servers in turn, from `next` on; `last_err` tells why the
    /// last one failed.
    Asking { next: usize, last_err: String },
    /// Following a referral: the addresses of the name servers `names` are
    /// gathered in `found`, from `next` on.
    Referral { names: Vec<String>, next: usize, found: Vec<(String, [u8; 4])>, additionals: Vec<DnsRR> },
}

pub enum StageView {
    Begin,
    Head,
    Asking { next: nat, last_err: Seq<char> },
    Referral { names: Seq<Seq<char>>, next: nat, found: Seq<(Seq<char>, Seq<u8>)>, additionals: Seq<RRView> },
}

impl View for Stage {
    type V = StageView;

    open spec fn view(&self) -> StageView {
        match self {
            Stage::Begin => StageView::Begin,
            Stage::Head => StageView::Head,
            Stage::Asking { next, last_err } => StageView::Asking { next: *next as nat, last_err: last_err@ },
            Stage::Referral { names, next, found, additionals } => StageView::Referral {
                names: names@.map_values(|s: String| s@),
                next: *next as nat,
                found: pairs_view(found@),
                additionals: rrs_view(additionals@),
            },
        }
    }
}

/// One resolution of `name` (lower-cased) and `qtype`.
pub struct Frame {
    pub name: String,
    pub qtype: u16,
    pub glue_depth: u32,
    /// The name asked for now: `name`, or the target of the last CNAME.
    pub current: String,
    pub servers: Vec<(String, [u8; 4])>,
    /// The referrals followed, by the names of their servers.
    pub visited: Vec<String>,
    pub cname_depth: u32,
    /// The CNAME records followed so far.
    pub chain: Vec<DnsRR>,
    pub iteration: u32,
    pub stage: Stage,
}

pub struct FrameView {
    pub name: Seq<char>,
    pub qtype: u16,
    pub glue_depth: u32,
    pub current: Seq<char>,
    pub servers: Seq<(Seq<char>, Seq<u8>)>,
    pub visited: Seq<Seq<char>>,
    pub cname_depth: u32,
    pub chain: Seq<RRView>,
    pub iteration: u32,
    pub stage: StageView,
}

impl View for Frame {
    type V = FrameView;

    open spec fn view(&self) -> FrameView {
        FrameView {
            name: self.name@,
            qtype: self.qtype,
            glue_depth: self.glue_depth,
            current: self.current@,
            servers: pairs_view(self.servers@),
            visited: self.visited@.map_values(|s: String| s@),
            cname_depth: self.cname_depth,
            chain: rrs_view(self.chain@),
            iteration: self.iteration,
            stage: self.stage@,
        }
    }
}

/// A resolution in progress, with the nested resolutions it waits for on
/// top of it; or its outcome once it has ended.
pub struct Resolution {
    frames: Vec<Frame>,
    outcome: Option<Vec<DnsRR>>,
}

pub struct ResolutionView {
    pub frames: Seq<FrameView>,
    pub outcome: Option<Seq<RRView>>,
}

impl View for Resolution {
    type V = ResolutionView;

    closed spec fn view(&self) -> ResolutionView {
        ResolutionView {
            frames: self.frames@.map_values(|f: Frame| f@),
            outcome: match self.outcome {
                Some(v) => Some(rrs_view(v@)),
                None => None,
            },
        }
    }
}

/// What the caller is to do after a step.
pub enum Step {
    /// Step again.
    Continue,
    /// Send `query` to `server` (port 53) and hand back the reply.
    Query { server: [u8; 4], query: DnsMessage },
    /// The resolution has ended with these records.
    Done(Vec<DnsRR>),
}

pub open spec fn frame_wf(f: FrameView) -> bool {
    &&& f.iteration <= MAX_ITERATIONS
    &&& f.cname_depth <= MAX_CNAME_DEPTH
    &&& f.glue_depth <= MAX_GLUE_DEPTH
    &&& match f.stage {
        StageView::Begin => true,
        StageView::Head => true,
        StageView::Asking { next, .. } => f.iteration < MAX_ITERATIONS && next <= f.servers.len(),
        StageView::Referral { names, next, .. } => f.iteration < MAX_ITERATIONS && next <= names.len(),
    }
}

/// Every frame under the top one waits, in a referral, for the addresses
/// of one of its name servers.
pub open spec fn waits(f: FrameView) -> bool {
    f.stage matches StageView::Referral { names, next, .. } && next < names.len()
}

pub open spec fn view_wf(s: ResolutionView) -> bool {
    &&& (s.outcome is Some <==> s.frames.len() == 0)
    &&& forall|i: int| 0 <= i < s.frames.len() ==> frame_wf(#[trigger] s.frames[i])
    &&& forall|i: int| 0 <= i < s.frames.len() - 1 ==> waits(#[trigger] s.frames[i])
}

/// A fresh resolution of `name` and `qtype`.
pub open spec fn new_frame(name: Seq<char>, qtype: u16, glue_depth: u32) -> FrameView {
    FrameView {
        name,
        qtype,
        glue_depth,
        current: name,
        servers: seq![],
        visited: seq![],
        cname_depth: 0,
        chain: seq![],
        iteration: 0,
        stage: StageView::Begin,
    }
}

pub open spec fn res_view(r: Result<Vec<DnsRR>, String>) -> Result<Seq<RRView>, Seq<char>> {
    match r {
        Ok(v) => Ok(rrs_view(v@)),
        Err(e) => Err(e@),
    }
}

/// A waiting referral receives the result of the nested resolution of its
/// current name server: the addresses it found, if it ended well.
pub open spec fn deliver(st: StageView, res: Result<Seq<RRView>, Seq<char>>) -> StageView {
    match st {
        StageView::Referral { names, next, found, additionals } => StageView::Referral {
            names,
            next: next + 1,
            found: match res {
                Ok(v) => found + a_pairs(names[next as int], v),
                Err(_) => found,
            },
            additionals,
        },
        _ => st,
    }
}

/// The top resolution ends with `res`: the one under it receives it, or,
/// for the outermost one, the records become the outcome (none on error).
pub open spec fn finish_view(s: ResolutionView, res: Result<Seq<RRView>, Seq<char>>) -> ResolutionView {
    let rest = s.frames.drop_last();
    if rest.len() == 0 {
        ResolutionView {
            frames: rest,
            outcome: Some(
                match res {
                    Ok(v) => v,
                    Err(_) => Seq::empty(),
                },
            ),
        }
    } else {
        let p = rest.last();
        ResolutionView { frames: rest.update(rest.len() - 1, FrameView { stage: deliver(p.stage, res), ..p }), outcome: None }
    }
}

/// The top resolution becomes `f`.
pub open spec fn with_top(s: ResolutionView, f: FrameView) -> ResolutionView {
    ResolutionView { frames: s.frames.update(s.frames.len() - 1, f), outcome: None }
}

pub open spec fn no_ns_msg(name: Seq<char>) -> Seq<char> {
    "no NS records found for "@ + name
}

/// Lookups at `now` give in `m1` what they give in `m0`.
pub open spec fn same_lookups(m0: Map<CacheKey, Seq<(RRView, u64)>>, m1: Map<CacheKey, Seq<(RRView, u64)>>, now: u64) -> bool {
    forall|k: CacheKey| #[trigger] lookup(m1, k, now) == lookup(m0, k, now)
}

/// `q` is a recursion-desired query for `name` and `qtype`, class IN.
pub open spec fn query_for(q: DnsMessage, name: Seq<char>, qtype: u16) -> bool {
    &&& q.header.flags == 0x0100
    &&& q.header.qdcount == 1
    &&& q.header.ancount == 0
    &&& q.header.nscount == 0
    &&& q.header.arcount == 0
    &&& q@.questions == seq![QuestionView { qname: name, qtype, qclass: CLASS_IN }]
    &&& q@.answers.len() == 0
    &&& q@.authorities.len() == 0
    &&& q@.additionals.len() == 0
}

/// The records after a reply's answers, authority and additional records
/// are stored at `now`.
pub open spec fn absorbed(m: Map<CacheKey, Seq<(RRView, u64)>>, msg: MessageView, now: u64) -> Map<CacheKey, Seq<(RRView, u64)>> {
    put_all_effect(put_all_effect(put_all_effect(m, msg.answers, now), msg.authorities, now), msg.additionals, now)
}

/// A step at the start of a resolution: the root servers are looked up.
pub open spec fn begin_spec(s0: ResolutionView, m0: Map<CacheKey, Seq<(RRView, u64)>>, now: u64, s1: ResolutionView, m1: Map<CacheKey, Seq<(RRView, u64)>>) -> bool {
    let f = s0.frames.last();
    &&& same_lookups(m0, m1, now)
    &&& s1 == match first_servers(m0, zone_labels(seq!['.']), 0, now) {
        Some(p) => with_top(s0, FrameView { servers: p, stage: StageView::Head, ..f }),
        None => finish_view(s0, Err(no_ns_msg(seq!['.']))),
    }
}

/// A step at the head of a pass: the pass count is checked, then the
/// cache is asked for the current name.
pub open spec fn head_spec(s0: ResolutionView, m0: Map<CacheKey, Seq<(RRView, u64)>>, now: u64, s1: ResolutionView, m1: Map<CacheKey, Seq<(RRView, u64)>>) -> bool {
    let f = s0.frames.last();
    if f.iteration >= MAX_ITERATIONS {
        &&& m1 == m0
        &&& s1 == finish_view(s0, Err("too many iterations"@))
    } else {
        let (c, m2) = get_effect(m0, cache_key(f.current, f.qtype, CLASS_IN), now);
        &&& m1 == m2
        &&& s1 == match c {
            Some(v) => finish_view(s0, Ok(f.chain + v)),
            None => with_top(s0, FrameView { stage: StageView::Asking { next: 0, last_err: seq![] }, ..f }),
        }
    }
}

/// A step while asking servers: the next one is queried, or the
/// resolution fails with the last error when none is left.
pub open spec fn asking_spec(s0: ResolutionView, s1: ResolutionView, out: Step) -> bool {
    let f = s0.frames.last();
    let next = f.stage->Asking_next;
    if next >= f.servers.len() {
        &&& out is Continue
        &&& s1 == finish_view(s0, Err(f.stage->Asking_last_err))
    } else {
        &&& s1 == s0
        &&& out matches Step::Query { server, query } && server@ == f.servers[next as int].1 && query_for(
            query,
            f.current,
            f.qtype,
        )
    }
}

/// A step in a referral: the next name server's address is taken from the
/// glue, or from the cache, or resolved by a nested resolution (unless
/// nesting is too deep); once all are gathered, the resolution goes on
/// with them, unless there are none or the same servers were followed
/// before.
pub open spec fn referral_spec(s0: ResolutionView, m0: Map<CacheKey, Seq<(RRView, u64)>>, now: u64, s1: ResolutionView, m1: Map<CacheKey, Seq<(RRView, u64)>>) -> bool {
    let f = s0.frames.last();
    let names = f.stage->names;
    let next = f.stage->Referral_next;
    let found = f.stage->found;
    let additionals = f.stage->additionals;
    if next >= names.len() {
        &&& m1 == m0
        &&& s1 == if found.len() == 0 {
            finish_view(s0, Err("empty referral"@))
        } else if f.visited.contains(referral_key_spec(found)) {
            finish_view(s0, Err("referral cycle detected"@))
        } else {
            with_top(
                s0,
                FrameView {
                    visited: f.visited.push(referral_key_spec(found)),
                    servers: found,
                    iteration: (f.iteration + 1) as u32,
                    stage: StageView::Head,
                    ..f
                },
            )
        }
    } else {
        let ns = names[next as int];
        match first_glue(additionals, ns) {
            Some(ip) => {
                &&& m1 == m0
                &&& s1 == with_top(
                    s0,
                    FrameView { stage: StageView::Referral { names, next: next + 1, found: found.push((ns, ip)), additionals }, ..f },
                )
            },
            None => {
                let (c, m2) = get_effect(m0, cache_key(ns, TYPE_A, CLASS_IN), now);
                &&& m1 == m2
                &&& s1 == match c {
                    Some(v) => with_top(
                        s0,
                        FrameView { stage: StageView::Referral { names, next: next + 1, found: found + a_pairs(ns, v), additionals }, ..f },
                    ),
                    None => if f.glue_depth >= MAX_GLUE_DEPTH {
                        with_top(s0, FrameView { stage: StageView::Referral { names, next: next + 1, found, additionals }, ..f })
                    } else {
                        ResolutionView { frames: s0.frames.push(new_frame(ns, TYPE_A, (f.glue_depth + 1) as u32)), outcome: None }
                    },
                }
            },
        }
    }
}

/// What one step does: the new state, the cache's records and negative
/// entries after it, and what the caller is to do next.
pub open spec fn step_spec(
    s0: ResolutionView,
    m0: Map<CacheKey, Seq<(RRView, u64)>>,
    n0: Map<CacheKey, u64>,
    now: u64,
    s1: ResolutionView,
    m1: Map<CacheKey, Seq<(RRView, u64)>>,
    n1: Map<CacheKey, u64>,
    out: Step,
) -> bool {
    match s0.outcome {
        Some(v) => {
            &&& out matches Step::Done(d) && rrs_view(d@) == v
            &&& s1 == s0
            &&& m1 == m0
            &&& n1 == n0
        },
        None => {
            &&& n1 == n0
            &&& match s0.frames.last().stage {
                StageView::Begin => out is Continue && begin_spec(s0, m0, now, s1, m1),
                StageView::Head => out is Continue && head_spec(s0, m0, now, s1, m1),
                StageView::Asking { .. } => m1 == m0 && asking_spec(s0, s1, out),
                StageView::Referral { .. } => out is Continue && referral_spec(s0, m0, now, s1, m1),
            }
        },
    }
}

/// The resolution waits for the reply of a server it queried.
pub open spec fn awaits_reply(s: ResolutionView) -> bool {
    &&& s.outcome is None
    &&& s.frames.last().stage matches StageView::Asking { next, .. }
    &&& next < s.frames.last().servers.len()
}

/// What a server's reply does. A failure moves on to the next server. A
/// response is stored in the cache; its answers end the resolution or lead
/// to a CNAME's target; without answers, NS records make a referral, an
/// SOA record a negative answer, and anything else a failure.
pub open spec fn reply_spec(
    s0: ResolutionView,
    m0: Map<CacheKey, Seq<(RRView, u64)>>,
    n0: Map<CacheKey, u64>,
    now: u64,
    reply: Result<DnsMessage, String>,
    s1: ResolutionView,
    m1: Map<CacheKey, Seq<(RRView, u64)>>,
    n1: Map<CacheKey, u64>,
) -> bool {
    let f = s0.frames.last();
    let next = f.stage->Asking_next;
    match reply {
        Err(e) => {
            &&& m1 == m0
            &&& n1 == n0
            &&& s1 == with_top(
                s0,
                FrameView { stage: StageView::Asking { next: next + 1, last_err: f.servers[next as int].0 + ": "@ + e@ }, ..f },
            )
        },
        Ok(msg) => {
            let m2 = absorbed(m0, msg@, now);
            let answers = if msg.header.flags % 16 == RCODE_NXDOMAIN as u16 { Seq::<RRView>::empty() } else { msg@.answers };
            let auth = msg@.authorities;
            if answers.len() > 0 {
                let matching = answers.filter(of_type(f.qtype));
                if matching.len() > 0 {
                    &&& m1 == m2
                    &&& n1 == n0
                    &&& s1 == finish_view(s0, Ok(f.chain + matching))
                } else if f.qtype != TYPE_CNAME && first_cname(answers) >= 0 {
                    if f.cname_depth >= MAX_CNAME_DEPTH {
                        &&& m1 == m2
                        &&& n1 == n0
                        &&& s1 == finish_view(s0, Err("CNAME depth exceeded"@))
                    } else {
                        let c = answers[first_cname(answers)];
                        let target = cname_of(c.rdata);
                        &&& same_lookups(m2, m1, now)
                        &&& n1 == n0
                        &&& s1 == match first_servers(m2, zone_labels(target), 0, now) {
                            Some(p) => with_top(
                                s0,
                                FrameView {
                                    cname_depth: (f.cname_depth + 1) as u32,
                                    current: target,
                                    chain: f.chain.push(c),
                                    servers: p,
                                    iteration: (f.iteration + 1) as u32,
                                    stage: StageView::Head,
                                    ..f
                                },
                            ),
                            None => finish_view(s0, Err(no_ns_msg(target))),
                        }
                    }
                } else {
                    &&& m1 == m2
                    &&& n1 == n0
                    &&& s1 == finish_view(s0, Ok(f.chain))
                }
            } else if ns_names(auth).len() > 0 {
                &&& m1 == m2
                &&& n1 == n0
                &&& s1 == with_top(
                    s0,
                    FrameView {
                        stage: StageView::Referral { names: ns_names(auth), next: 0, found: seq![], additionals: msg@.additionals },
                        ..f
                    },
                )
            } else if exists|i: int| 0 <= i < auth.len() && (#[trigger] auth[i]).rtype == TYPE_SOA {
                &&& m1 == m2
                &&& n1 == n0.insert(cache_key(f.name, f.qtype, CLASS_IN), expiry(now, soa_minimum(auth)))
                &&& s1 == finish_view(s0, Ok(seq![]))
            } else {
                &&& m1 == m2
                &&& n1 == n0
                &&& s1 == finish_view(s0, Err("no useful response from any server"@))
            }
        },
    }
}

/// The records of all questions, in order.
pub open spec fn all_answers(rs: Seq<Seq<RRView>>) -> Seq<RRView>
    decreases rs.len(),
{
    if rs.len() == 0 {
        seq![]
    } else {
        all_answers(rs.drop_last()) + rs.last()
    }
}

/// Some question got no records, and its name is known not to exist.
pub open spec fn any_nxdomain(qs: Seq<QuestionView>, rs: Seq<Seq<RRView>>, n: Map<CacheKey, u64>, now: u64) -> bool {
    exists|i: int| 0 <= i < qs.len() && (#[trigger] rs[i]).len() == 0 && negative_alive(n, cache_key(qs[i].qname, qs[i].qtype, CLASS_IN), now)
}

pub open spec fn results_view(rs: Seq<Vec<DnsRR>>) -> Seq<Seq<RRView>> {
    rs.map_values(|v: Vec<DnsRR>| rrs_view(v@))
}

/// The resolver's response to a query whose `i`-th question resolved to
/// `results[i]`: all the records, with NXDOMAIN when a question got none
/// and its name is known not to exist.
pub fn respond_at(query: &DnsMessage, results: Vec<Vec<DnsRR>>, cache: &DnsCache, now: u64) -> (r: DnsMessage)
    requires
        cache.wf(),
        results@.len() == query.questions@.len(),
    ensures
        r.header == (DnsHeader {
            id: query.header.id,
            flags: 0x8000u16 | 0x0080u16 | (if any_nxdomain(query@.questions, results_view(results@), cache.negatives_view(), now) {
                RCODE_NXDOMAIN
            } else {
                RCODE_NOERROR
            }) as u16,
            qdcount: query.header.qdcount,
            ancount: (all_answers(results_view(results@)).len() % 65536) as u16,
            nscount: 0,
            arcount: 0,
        }),
        r@.questions == query@.questions,
        r@.answers == all_answers(results_view(results@)),
        r.authorities@.len() == 0,
        r.additionals@.len() == 0,
{
    let ghost rv = results_view(results@);
    let ghost qv = query@.questions;
    let mut answers: Vec<DnsRR> = Vec::new();
    let mut rcode = RCODE_NOERROR;
    let mut i: usize = 0;
    assert(rv.subrange(0, 0) =~= Seq::<Seq<RRView>>::empty());
    assert(rrs_view(answers@) =~= Seq::<RRView>::empty());
    while i < results.len()
        invariant
            i <= results@.len(),
            results@.len() == query.questions@.len(),
            cache.wf(),
            rv == results_view(results@),
            qv == query@.questions,
            rrs_view(answers@) == all_answers(rv.subrange(0, i as int)),
            rcode == (if any_nxdomain(qv.subrange(0, i as int), rv.subrange(0, i as int), cache.negatives_view(), now) {
                RCODE_NXDOMAIN
            } else {
                RCODE_NOERROR
            }),
        decreases results@.len() - i,
    {
        let q = &query.questions[i];
        assert(qv[i as int] == q@);
        assert(rv[i as int] == rrs_view(results@[i as int]@));
        let nx = results[i].len() == 0 && cache.is_nxdomain_at(q.qname.as_str(), q.qtype, CLASS_IN, now);
        let ghost before = rcode;
        if nx {
            rcode = RCODE_NXDOMAIN;
        }
        let copied = copy_rrs(&results[i]);
        append_rrs(&mut answers, copied);
        proof {
            let q1 = qv.subrange(0, i + 1);
            let r1 = rv.subrange(0, i + 1);
            assert(r1.drop_last() =~= rv.subrange(0, i as int));
            assert(r1.last() == rv[i as int]);
            if any_nxdomain(qv.subrange(0, i as int), rv.subrange(0, i as int), cache.negatives_view(), now) {
                let j = choose|j: int| 0 <= j < i && (#[trigger] rv.subrange(0, i as int)[j]).len() == 0 && negative_alive(cache.negatives_view(), cache_key(qv.subrange(0, i as int)[j].qname, qv.subrange(0, i as int)[j].qtype, CLASS_IN), now);
                assert(r1[j] == rv.subrange(0, i as int)[j]);
                assert(q1[j] == qv.subrange(0, i as int)[j]);
            }
            if nx {
                assert(r1[i as int] == rv[i as int]);
                assert(q1[i as int] == qv[i as int]);
            }
            if any_nxdomain(q1, r1, cache.negatives_view(), now) {
                let j = choose|j: int| 0 <= j < i + 1 && (#[trigger] r1[j]).len() == 0 && negative_alive(cache.negatives_view(), cache_key(q1[j].qname, q1[j].qtype, CLASS_IN), now);
                if j < i {
                    assert(r1[j] == rv.subrange(0, i as int)[j]);
                    assert(q1[j] == qv.subrange(0, i as int)[j]);
                } else {
                    assert(r1[j] == rv[i as int]);
                    assert(q1[j] == qv[i as int]);
                    assert(results@[i as int]@.len() == rv[i as int].len());
                }
            }
        }
        i = i + 1;
    }
    assert(rv.subrange(0, i as int) =~= rv);
    assert(qv.subrange(0, i as int) =~= qv);
    build_response(query, answers.as_slice(), rcode)
}

fn contains_name(v: &Vec<String>, s: &String) -> (r: bool)
    ensures
        r == v@.map_values(|x: String| x@).contains(s@),
{
    let ghost vv = v@.map_values(|x: String| x@);
    let mut i: usize = 0;
    while i < v.len()
        invariant
            i <= v@.len(),
            vv == v@.map_values(|x: String| x@),
            forall|q: int| 0 <= q < i ==> vv[q] != s@,
        decreases v@.len() - i,
    {
        if str_eq(v[i].as_str(), s.as_str()) {
            assert(vv[i as int] == s@);
            return true;
        }
        i = i + 1;
    }
    false
}

impl Resolution {
    fn step_begin(&mut self, cache: &mut DnsCache, now: u64)
        requires
            old(self).wf(),
            old(cache).wf(),
            old(self)@.outcome is None,
            old(self)@.frames.last().stage is Begin,
        ensures
            final(self).wf(),
            final(cache).wf(),
            final(cache).negatives_view() == old(cache).negatives_view(),
            begin_spec(old(self)@, old(cache).records_view(), now, final(self)@, final(cache).records_view()),
    {
        let ghost s0 = self@;
        let mut f = self.take_top();
        proof {
            reveal_strlit(".");
        }
        assert("."@ =~= seq!['.']);
        let r = get_nameservers_at(".", cache, now);
        match r {
            Ok(servers) => {
                let ghost fv = f@;
                assert(first_servers(old(cache).records_view(), zone_labels(seq!['.']), 0, now) == Some(pairs_view(servers@)));
                f.servers = servers;
                f.stage = Stage::Head;
                proof {
                    assert(f@ == (FrameView { servers: f@.servers, stage: StageView::Head, ..fv }));
                    lemma_with_top_wf(s0, f@);
                }
                self.put_top(f);
                assert(self@.frames =~= with_top(s0, f@).frames);
            },
            Err(e) => {
                self.put_top(f);
                assert(self@.frames =~= s0.frames);
                self.finish(Err(e));
            },
        }
    }

    fn step_head(&mut self, cache: &mut DnsCache, now: u64)
        requires
            old(self).wf(),
            old(cache).wf(),
            old(self)@.outcome is None,
            old(self)@.frames.last().stage is Head,
        ensures
            final(self).wf(),
            final(cache).wf(),
            final(cache).negatives_view() == old(cache).negatives_view(),
            head_spec(old(self)@, old(cache).records_view(), now, final(self)@, final(cache).records_view()),
    {
        let ghost s0 = self@;
        let mut f = self.take_top();
        if f.iteration >= MAX_ITERATIONS {
            self.put_top(f);
            assert(self@.frames =~= s0.frames);
            self.finish(Err(String::from_str("too many iterations")));
            return;
        }
        match cache.get_at(f.current.as_str(), f.qtype, CLASS_IN, now) {
            Some(rrs) => {
                let mut chain = copy_rrs(&f.chain);
                append_rrs(&mut chain, rrs);
                self.put_top(f);
                assert(self@.frames =~= s0.frames);
                self.finish(Ok(chain));
            },
            None => {
                let ghost fv = f@;
                f.stage = Stage::Asking { next: 0, last_err: String::new() };
                proof {
                    assert(f@ == (FrameView { stage: StageView::Asking { next: 0, last_err: seq![] }, ..fv }));
                    lemma_with_top_wf(s0, f@);
                }
                self.put_top(f);
                assert(self@.frames =~= with_top(s0, f@).frames);
            },
        }
    }

    fn step_asking(&mut self) -> (r: Step)
        requires
            old(self).wf(),
            old(self)@.outcome is None,
            old(self)@.frames.last().stage is Asking,
        ensures
            final(self).wf(),
            asking_spec(old(self)@, final(self)@, r),
    {
        let ghost s0 = self@;
        let last = self.frames.len() - 1;
        assert(self.frames@[last as int]@ == s0.frames.last());
        let (next, err) = match &self.frames[last].stage {
            Stage::Asking { next, last_err } => (*next, last_err.clone()),
            _ => {
                proof { assert(false); }
                (0, String::new())
            },
        };
        if next >= self.frames[last].servers.len() {
            self.finish(Err(err));
            Step::Continue
        } else {
            let f = &self.frames[last];
            let query = build_query(f.current.as_str(), f.qtype);
            assert(pairs_view(f.servers@)[next as int] == (f.servers@[next as int].0@, f.servers@[next as int].1@));
            Step::Query { server: f.servers[next].1, query }
        }
    }

    fn step_referral(&mut self, cache: &mut DnsCache, now: u64)
        requires
            old(self).wf(),
            old(cache).wf(),
            old(self)@.outcome is None,
            old(self)@.frames.last().stage is Referral,
        ensures
            final(self).wf(),
            final(cache).wf(),
            final(cache).negatives_view() == old(cache).negatives_view(),
            referral_spec(old(self)@, old(cache).records_view(), now, final(self)@, final(cache).records_view()),
    {
        let ghost s0 = self@;
        let f = self.take_top();
        let ghost fv = f@;
        let Frame { name, qtype, glue_depth, current, servers, visited, cname_depth, chain, iteration, stage } = f;
        assert(stage@ == fv.stage);
        match stage {
            Stage::Referral { names, next, found, additionals } => {
                let mut found = found;
                let count = names.len();
                if next >= count {
                    if found.len() == 0 {
                        self.put_top(Frame { name, qtype, glue_depth, current, servers, visited, cname_depth, chain, iteration, stage: Stage::Referral { names, next, found, additionals } });
                        assert(self@.frames =~= s0.frames);
                        self.finish(Err(String::from_str("empty referral")));
                        return;
                    }
                    let key = referral_key(found.as_slice());
                    if contains_name(&visited, &key) {
                        self.put_top(Frame { name, qtype, glue_depth, current, servers, visited, cname_depth, chain, iteration, stage: Stage::Referral { names, next, found, additionals } });
                        assert(self@.frames =~= s0.frames);
                        self.finish(Err(String::from_str("referral cycle detected")));
                        return;
                    }
                    let mut visited = visited;
                    let ghost vb = visited@;
                    visited.push(key);
                    assert(visited@.map_values(|x: String| x@) =~= vb.map_values(|x: String| x@).push(key@));
                    let nf = Frame { name, qtype, glue_depth, current, servers: found, visited, cname_depth, chain, iteration: iteration + 1, stage: Stage::Head };
                    proof {
                        lemma_with_top_wf(s0, nf@);
                    }
                    self.put_top(nf);
                    assert(self@.frames =~= with_top(s0, nf@).frames);
                    return;
                }
                let ns = names[next].clone();
                assert(names@.map_values(|x: String| x@)[next as int] == ns@);
                match glue_for(additionals.as_slice(), &ns) {
                    Some(ip) => {
                        let ghost fb = found@;
                        found.push((ns, ip));
                        assert(pairs_view(found@) =~= pairs_view(fb).push((names@[next as int]@, ip@)));
                        let nf = Frame { name, qtype, glue_depth, current, servers, visited, cname_depth, chain, iteration, stage: Stage::Referral { names, next: next + 1, found, additionals } };
                        proof {
                            lemma_with_top_wf(s0, nf@);
                        }
                        self.put_top(nf);
                        assert(self@.frames =~= with_top(s0, nf@).frames);
                    },
                    None => {
                        match cache.get_at(ns.as_str(), TYPE_A, CLASS_IN, now) {
                            Some(rrs) => {
                                push_a_pairs(&mut found, &ns, rrs.as_slice());
                                let nf = Frame { name, qtype, glue_depth, current, servers, visited, cname_depth, chain, iteration, stage: Stage::Referral { names, next: next + 1, found, additionals } };
                                proof {
                                    lemma_with_top_wf(s0, nf@);
                                }
                                self.put_top(nf);
                                assert(self@.frames =~= with_top(s0, nf@).frames);
                            },
                            None => {
                                if glue_depth >= MAX_GLUE_DEPTH {
                                    let nf = Frame { name, qtype, glue_depth, current, servers, visited, cname_depth, chain, iteration, stage: Stage::Referral { names, next: next + 1, found, additionals } };
                                    proof {
                                        lemma_with_top_wf(s0, nf@);
                                    }
                                    self.put_top(nf);
                                    assert(self@.frames =~= with_top(s0, nf@).frames);
                                } else {
                                    let same = Frame { name, qtype, glue_depth, current, servers, visited, cname_depth, chain, iteration, stage: Stage::Referral { names, next, found, additionals } };
                                    self.put_top(same);
                                    assert(self@.frames =~= s0.frames);
                                    let child = Frame {
                                        name: ns.clone(),
                                        qtype: TYPE_A,
                                        glue_depth: glue_depth + 1,
                                        current: ns,
                                        servers: Vec::new(),
                                        visited: Vec::new(),
                                        cname_depth: 0,
                                        chain: Vec::new(),
                                        iteration: 0,
                                        stage: Stage::Begin,
                                    };
                                    proof {
                                        assert(child@.servers =~= Seq::<(Seq<char>, Seq<u8>)>::empty());
                                        assert(child@.visited =~= Seq::<Seq<char>>::empty());
                                        assert(child@.chain =~= Seq::<RRView>::empty());
                                        lemma_push_wf(s0, child@);
                                    }
                                    self.put_top(child);
                                }
                            },
                        }
                    },
                }
            },
            _ => {
                proof { assert(false); }
            },
        }
    }

    /// Hands the resolution the outcome of the query it asked for: the
    /// server's response, or why none came.
    pub fn on_reply(&mut self, reply: Result<DnsMessage, String>, cache: &mut DnsCache, now: u64)
        requires
            old(self).wf(),
            old(cache).wf(),
            awaits_reply(old(self)@),
        ensures
            final(self).wf(),
            final(cache).wf(),
            reply_spec(
                old(self)@,
                old(cache).records_view(),
                old(cache).negatives_view(),
                now,
                reply,
                final(self)@,
                final(cache).records_view(),
                final(cache).negatives_view(),
            ),
    {
        let ghost s0 = self@;
        let f = self.take_top();
        let ghost fv = f@;
        let Frame { name, qtype, glue_depth, current, servers, visited, cname_depth, chain, iteration, stage } = f;
        assert(stage@ == fv.stage);
        let (next, last_err) = match stage {
            Stage::Asking { next, last_err } => (next, last_err),
            _ => {
                proof { assert(false); }
                (0, String::new())
            },
        };
        assert(pairs_view(servers@)[next as int] == (servers@[next as int].0@, servers@[next as int].1@));
        let count = servers.len();
        assert(next < count);
        match reply {
            Err(e) => {
                let mut m = servers[next].0.clone();
                m.append(": ");
                m.append(e.as_str());
                let nf = Frame { name, qtype, glue_depth, current, servers, visited, cname_depth, chain, iteration, stage: Stage::Asking { next: next + 1, last_err: m } };
                proof {
                    reveal_strlit(": ");
                    lemma_with_top_wf(s0, nf@);
                }
                self.put_top(nf);
                assert(self@.frames =~= with_top(s0, nf@).frames);
            },
            Ok(msg) => {
                let (answers, auth, adds) = absorb_reply_at(msg, cache, now);
                if answers.len() > 0 {
                    match answer_step(answers.as_slice(), qtype, cname_depth) {
                        AnswerStep::Found(m) => {
                            let mut all = copy_rrs(&chain);
                            append_rrs(&mut all, m);
                            self.put_top(Frame { name, qtype, glue_depth, current, servers, visited, cname_depth, chain, iteration, stage: Stage::Asking { next, last_err } });
                            assert(self@.frames =~= s0.frames);
                            self.finish(Ok(all));
                        },
                        AnswerStep::Follow(c) => {
                            proof {
                                crate::dns_resolve::lemma_first_cname_found(rrs_view(answers@));
                            }
                            let target = String::from_str(cname_target(&c));
                            match get_nameservers_at(target.as_str(), cache, now) {
                                Ok(p) => {
                                    let mut chain = chain;
                                    let ghost cb = chain@;
                                    let ghost cv = c@;
                                    chain.push(c);
                                    assert(rrs_view(chain@) =~= rrs_view(cb).push(cv));
                                    let nf = Frame {
                                        name,
                                        qtype,
                                        glue_depth,
                                        current: target,
                                        servers: p,
                                        visited,
                                        cname_depth: cname_depth + 1,
                                        chain,
                                        iteration: iteration + 1,
                                        stage: Stage::Head,
                                    };
                                    proof {
                                        lemma_with_top_wf(s0, nf@);
                                    }
                                    self.put_top(nf);
                                    assert(self@.frames =~= with_top(s0, nf@).frames);
                                },
                                Err(e) => {
                                    self.put_top(Frame { name, qtype, glue_depth, current, servers, visited, cname_depth, chain, iteration, stage: Stage::Asking { next, last_err } });
                                    assert(self@.frames =~= s0.frames);
                                    self.finish(Err(e));
                                },
                            }
                        },
                        AnswerStep::DepthExceeded => {
                            self.put_top(Frame { name, qtype, glue_depth, current, servers, visited, cname_depth, chain, iteration, stage: Stage::Asking { next, last_err } });
                            assert(self@.frames =~= s0.frames);
                            self.finish(Err(String::from_str("CNAME depth exceeded")));
                        },
                        AnswerStep::NoData => {
                            let all = copy_rrs(&chain);
                            self.put_top(Frame { name, qtype, glue_depth, current, servers, visited, cname_depth, chain, iteration, stage: Stage::Asking { next, last_err } });
                            assert(self@.frames =~= s0.frames);
                            self.finish(Ok(all));
                        },
                    }
                } else {
                    let names = collect_ns_names(auth.as_slice());
                    if names.len() > 0 {
                        let nf = Frame {
                            name,
                            qtype,
                            glue_depth,
                            current,
                            servers,
                            visited,
                            cname_depth,
                            chain,
                            iteration,
                            stage: Stage::Referral { names, next: 0, found: Vec::new(), additionals: adds },
                        };
                        proof {
                            assert(pairs_view(Seq::<(String, [u8; 4])>::empty()) =~= Seq::<(Seq<char>, Seq<u8>)>::empty());
                            lemma_with_top_wf(s0, nf@);
                        }
                        self.put_top(nf);
                        assert(self@.frames =~= with_top(s0, nf@).frames);
                    } else if is_nxdomain(auth.as_slice()) {
                        proof {
                            let i = choose|i: int| 0 <= i < auth@.len() && (#[trigger] auth@[i]).rtype == TYPE_SOA;
                            assert(rrs_view(auth@)[i].rtype == TYPE_SOA);
                        }
                        let ttl = extract_soa_minimum(auth.as_slice());
                        cache.put_nxdomain_at(name.as_str(), qtype, CLASS_IN, ttl, now);
                        self.put_top(Frame { name, qtype, glue_depth, current, servers, visited, cname_depth, chain, iteration, stage: Stage::Asking { next, last_err } });
                        assert(self@.frames =~= s0.frames);
                        let none: Vec<DnsRR> = Vec::new();
                        assert(rrs_view(none@) =~= Seq::<RRView>::empty());
                        self.finish(Ok(none));
                    } else {
                        proof {
                            assert forall|i: int| 0 <= i < rrs_view(auth@).len() implies (#[trigger] rrs_view(auth@)[i]).rtype != TYPE_SOA by {
                                assert(rrs_view(auth@)[i] == auth@[i]@);
                            }
                        }
                        self.put_top(Frame { name, qtype, glue_depth, current, servers, visited, cname_depth, chain, iteration, stage: Stage::Asking { next, last_err } });
                        assert(self@.frames =~= s0.frames);
                        self.finish(Err(String::from_str("no useful response from any server")));
                    }
                }
            },
        }
    }

    /// One step of the resolution.
    pub fn step(&mut self, cache: &mut DnsCache, now: u64) -> (r: Step)
        requires
            old(self).wf(),
            old(cache).wf(),
        ensures
            final(self).wf(),
            final(cache).wf(),
            step_spec(
                old(self)@,
                old(cache).records_view(),
                old(cache).negatives_view(),
                now,
                final(self)@,
                final(cache).records_view(),
                final(cache).negatives_view(),
                r,
            ),
    {
        match &self.outcome {
            Some(v) => {
                return Step::Done(copy_rrs(v));
            },
            None => {},
        }
        let last = self.frames.len() - 1;
        assert(self.frames@[last as int]@ == self@.frames.last());
        let tag: u8 = match &self.frames[last].stage {
            Stage::Begin => 0,
            Stage::Head => 1,
            Stage::Asking { .. } => 2,
            Stage::Referral { .. } => 3,
        };
        if tag == 0 {
            self.step_begin(cache, now);
            Step::Continue
        } else if tag == 1 {
            self.step_head(cache, now);
            Step::Continue
        } else if tag == 2 {
            self.step_asking()
        } else {
            self.step_referral(cache, now);
            Step::Continue
        }
    }
}

proof fn lemma_with_top_wf(s: ResolutionView, f: FrameView)
    requires
        view_wf(s),
        s.outcome is None,
        frame_wf(f),
    ensures
        view_wf(with_top(s, f)),
        with_top(s, f).frames.len() == s.frames.len(),
{
    let t = with_top(s, f);
    assert forall|i: int| 0 <= i < t.frames.len() implies frame_wf(#[trigger] t.frames[i]) by {
        if i < s.frames.len() - 1 {
            assert(t.frames[i] == s.frames[i]);
        }
    }
    assert forall|i: int| 0 <= i < t.frames.len() - 1 implies waits(#[trigger] t.frames[i]) by {
        assert(t.frames[i] == s.frames[i]);
    }
}

proof fn lemma_push_wf(s: ResolutionView, f: FrameView)
    requires
        view_wf(s),
        s.outcome is None,
        waits(s.frames.last()),
        frame_wf(f),
    ensures
        view_wf(ResolutionView { frames: s.frames.push(f), outcome: None }),
{
    let t = s.frames.push(f);
    assert forall|i: int| 0 <= i < t.len() implies frame_wf(#[trigger] t[i]) by {
        if i < s.frames.len() {
            assert(t[i] == s.frames[i]);
        }
    }
    assert forall|i: int| 0 <= i < t.len() - 1 implies waits(#[trigger] t[i]) by {
        assert(t[i] == s.frames[i]);
    }
}

proof fn lemma_finish_wf(s: ResolutionView, res: Result<Seq<RRView>, Seq<char>>)
    requires
        view_wf(s),
        s.outcome is None,
    ensures
        view_wf(finish_view(s, res)),
{
    let rest = s.frames.drop_last();
    if rest.len() > 0 {
        let p = rest.last();
        assert(rest.last() == s.frames[rest.len() - 1]);
        assert(waits(p));
        let t = finish_view(s, res).frames;
        assert forall|i: int| 0 <= i < t.len() implies frame_wf(#[trigger] t[i]) by {
            if i < t.len() - 1 {
                assert(t[i] == s.frames[i]);
            } else {
                assert(frame_wf(s.frames[i]));
            }
        }
        assert forall|i: int| 0 <= i < t.len() - 1 implies waits(#[trigger] t[i]) by {
            assert(t[i] == s.frames[i]);
        }
    }
}

fn copy_rrs(v: &Vec<DnsRR>) -> (r: Vec<DnsRR>)
    ensures
        rrs_view(r@) == rrs_view(v@),
{
    let mut r: Vec<DnsRR> = Vec::new();
    let mut i: usize = 0;
    while i < v.len()
        invariant
            i <= v@.len(),
            rrs_view(r@) == rrs_view(v@).subrange(0, i as int),
        decreases v@.len() - i,
    {
        let ghost before = r@;
        r.push(copy_rr(&v[i]));
        assert(rrs_view(r@) =~= rrs_view(before).push(v@[i as int]@));
        assert(rrs_view(r@) =~= rrs_view(v@).subrange(0, i + 1));
        i = i + 1;
    }
    assert(rrs_view(v@).subrange(0, i as int) =~= rrs_view(v@));
    r
}

fn append_rrs(out: &mut Vec<DnsRR>, v: Vec<DnsRR>)
    ensures
        rrs_view(final(out)@) == rrs_view(old(out)@) + rrs_view(v@),
{
    let mut v = v;
    let ghost a = rrs_view(out@);
    let ghost b = rrs_view(v@);
    out.append(&mut v);
    assert(rrs_view(out@) =~= a + b);
}

impl Resolution {
    pub open spec fn wf(&self) -> bool {
        view_wf(self@)
    }

    /// The top frame, taken off the stack.
    fn take_top(&mut self) -> (f: Frame)
        requires
            old(self)@.frames.len() > 0,
        ensures
            f@ == old(self)@.frames.last(),
            final(self)@ == (ResolutionView { frames: old(self)@.frames.drop_last(), outcome: old(self)@.outcome }),
    {
        let f = self.frames.pop().unwrap();
        assert(self@.frames =~= old(self)@.frames.drop_last());
        f
    }

    /// `f` put on top of the stack.
    fn put_top(&mut self, f: Frame)
        ensures
            final(self)@ == (ResolutionView { frames: old(self)@.frames.push(f@), outcome: old(self)@.outcome }),
    {
        let ghost fv = f@;
        self.frames.push(f);
        assert(self@.frames =~= old(self)@.frames.push(fv));
    }

    /// Starts resolving `name` and `qtype`: the cache answers at once when
    /// it holds live records of the lower-cased name or knows that it does
    /// not exist.
    pub fn start(name: &str, qtype: u16, cache: &mut DnsCache, now: u64) -> (r: Self)
        requires
            old(cache).wf(),
        ensures
            final(cache).wf(),
            r.wf(),
            final(cache).records_view() == get_effect(old(cache).records_view(), cache_key(name@, qtype, CLASS_IN), now).1,
            final(cache).negatives_view() == old(cache).negatives_view(),
            match cached_answer(old(cache).records_view(), old(cache).negatives_view(), name@, qtype, now) {
                Some(v) => r@ == (ResolutionView { frames: seq![], outcome: Some(v) }),
                None => {
                    &&& r@.outcome is None
                    &&& r@.frames.len() == 1
                    &&& r@.frames[0] == new_frame(r@.frames[0].name, qtype, 0)
                    &&& encode_utf8(r@.frames[0].name) == lower_all(encode_utf8(name@))
                },
            },
    {
        let (lower, cached) = resolve_from_cache_at(name, qtype, cache, now);
        match cached {
            Some(v) => {
                let r = Resolution { frames: Vec::new(), outcome: Some(v) };
                assert(r@.frames =~= Seq::<FrameView>::empty());
                r
            },
            None => {
                let f = Frame {
                    name: lower.clone(),
                    qtype,
                    glue_depth: 0,
                    current: lower,
                    servers: Vec::new(),
                    visited: Vec::new(),
                    cname_depth: 0,
                    chain: Vec::new(),
                    iteration: 0,
                    stage: Stage::Begin,
                };
                let mut frames: Vec<Frame> = Vec::new();
                frames.push(f);
                let r = Resolution { frames, outcome: None };
                proof {
                    assert(r@.frames[0].servers =~= Seq::<(Seq<char>, Seq<u8>)>::empty());
                    assert(r@.frames[0].visited =~= Seq::<Seq<char>>::empty());
                    assert(r@.frames[0].chain =~= Seq::<RRView>::empty());
                    assert(frame_wf(r@.frames[0]));
                }
                r
            },
        }
    }

    /// The top resolution ends with `res`.
    fn finish(&mut self, res: Result<Vec<DnsRR>, String>)
        requires
            old(self).wf(),
            old(self)@.outcome is None,
        ensures
            final(self).wf(),
            final(self)@ == finish_view(old(self)@, res_view(res)),
    {
        let ghost s0 = self@;
        let ghost rv = res_view(res);
        proof {
            lemma_finish_wf(s0, rv);
        }
        let _ = self.take_top();
        if self.frames.len() == 0 {
            let v = match res {
                Ok(v) => v,
                Err(_) => Vec::new(),
            };
            self.outcome = Some(v);
            assert(self@.frames =~= s0.frames.drop_last());
            assert(rrs_view(v@) == (match rv { Ok(x) => x, Err(_) => Seq::<RRView>::empty() }));
            return;
        }
        let ghost s1 = self@;
        let p = self.take_top();
        let ghost pv = p@;
        proof {
            assert(s1.frames.last() == s0.frames[s0.frames.len() - 2]);
            assert(waits(s0.frames[s0.frames.len() - 2]));
        }
        let Frame { name, qtype, glue_depth, current, servers, visited, cname_depth, chain, iteration, stage } = p;
        assert(stage@ == pv.stage);
        assert(waits(pv));
        let stage = match stage {
            Stage::Referral { names, next, found, additionals } => {
                assert(names@.map_values(|s: String| s@).len() == names@.len());
                let count = names.len();
                assert(next < count);
                let mut found = found;
                match res {
                    Ok(v) => {
                        push_a_pairs(&mut found, &names[next], v.as_slice());
                    },
                    Err(_) => {},
                }
                Stage::Referral { names, next: next + 1, found, additionals }
            },
            other => other,
        };
        let f = Frame { name, qtype, glue_depth, current, servers, visited, cname_depth, chain, iteration, stage };
        assert(f@ == (FrameView { stage: deliver(pv.stage, rv), ..pv }));
        self.put_top(f);
        assert(self@.frames =~= s0.frames.drop_last().update(s0.frames.len() - 2, f@));
    }
}

} // verus!
