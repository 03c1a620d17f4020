//! DNS cache: positive records grouped by (name, type, class) with their
//! expiry times, and a negative (NXDOMAIN) cache. Names are compared
//! ASCII-case-insensitively. Times are milliseconds on the caller's clock.

use vstd::prelude::*;
use vstd::utf8::encode_utf8;
use crate::clock::clock_ms;
use crate::dns_message::{
    DnsRR, RRView, RDataView, lower_all, push_lower, rdata_eq, copy_rr, rrs_view,
};
use crate::keyed::{keys_unique, to_map, index_of, lemma_index_of, lemma_map_dom, lemma_update, lemma_push, lemma_remove};
use crate::util::{bytes_eq, copy_range};
use crate::dns_message::{RData, TYPE_A, TYPE_NS, CLASS_IN};
use crate::http::{same_ignoring_case, str_eq_ignore_case};
use crate::text::{
    chars_of, trim, trim_bounds, words, word_ranges, lines, line_ranges, split_by, split_ranges,
    ranges_view, ranges_within, parse_uint, parse_uint_range,
};
use vstd::string::{StrSliceExecFns, StringExecFns};

verus! {

/// Cache key: lower-cased name bytes, type and class.
pub type CacheKey = (Seq<u8>, u16, u16);

pub open spec fn cache_key(name: Seq<char>, rtype: u16, class: u16) -> CacheKey {
    (lower_all(encode_utf8(name)), rtype, class)
}

pub open spec fn rr_key(rr: RRView) -> CacheKey {
    cache_key(rr.name, rr.rtype, rr.class)
}

/// Expiry time of something that lives `ttl` seconds from `now` (ms),
/// saturating at the clock's end.
pub open spec fn expiry(now: u64, ttl: u32) -> u64 {
    if now as int + ttl as int * 1000 > u64::MAX { u64::MAX } else { (now as int + ttl as int * 1000) as u64 }
}

/// The entries still alive at `now`.
pub open spec fn live_entries(es: Seq<(RRView, u64)>, now: u64) -> Seq<(RRView, u64)> {
    es.filter(live_pred(now))
}

pub open spec fn live_pred(now: u64) -> spec_fn((RRView, u64)) -> bool {
    |e: (RRView, u64)| e.1 > now
}

proof fn lemma_live_push(s: Seq<(RRView, u64)>, x: (RRView, u64), now: u64)
    ensures
        live_entries(s.push(x), now) == if x.1 > now { live_entries(s, now).push(x) } else { live_entries(s, now) },
{
    reveal(Seq::filter);
    assert(s.push(x).drop_last() =~= s);
}

proof fn lemma_first_rdata_found(es: Seq<(RRView, u64)>, d: RDataView, j: int)
    requires
        0 <= j < es.len(),
        es[j].0.rdata == d,
        forall|q: int| 0 <= q < j ==> es[q].0.rdata != d,
    ensures
        first_rdata(es, d) == j,
    decreases j,
{
    if j > 0 {
        let t = es.drop_first();
        assert forall|q: int| 0 <= q < j - 1 implies t[q].0.rdata != d by {
            assert(t[q] == es[q + 1]);
        }
        lemma_first_rdata_found(t, d, j - 1);
    }
}

proof fn lemma_first_rdata_absent(es: Seq<(RRView, u64)>, d: RDataView)
    requires
        forall|q: int| 0 <= q < es.len() ==> es[q].0.rdata != d,
    ensures
        first_rdata(es, d) == -1,
    decreases es.len(),
{
    if es.len() > 0 {
        let t = es.drop_first();
        assert forall|q: int| 0 <= q < t.len() implies t[q].0.rdata != d by {
            assert(t[q] == es[q + 1]);
        }
        lemma_first_rdata_absent(t, d);
    }
}

pub open spec fn entry_records(es: Seq<(RRView, u64)>) -> Seq<RRView> {
    es.map_values(|e: (RRView, u64)| e.0)
}

/// What a lookup of `k` at `now` returns and leaves: the records alive at
/// `now`, in insertion order; the key is forgotten when none is alive, and
/// its dead entries are dropped otherwise.
pub open spec fn get_effect(m: Map<CacheKey, Seq<(RRView, u64)>>, k: CacheKey, now: u64) -> (
    Option<Seq<RRView>>,
    Map<CacheKey, Seq<(RRView, u64)>>,
) {
    if !m.dom().contains(k) {
        (None, m)
    } else {
        let live = live_entries(m[k], now);
        if live.len() == 0 {
            (None, m.remove(k))
        } else {
            (Some(entry_records(live)), m.insert(k, live))
        }
    }
}

/// Index of the first entry whose rdata is `d`, or -1.
pub open spec fn first_rdata(es: Seq<(RRView, u64)>, d: RDataView) -> int
    decreases es.len(),
{
    if es.len() == 0 {
        -1
    } else if es[0].0.rdata == d {
        0
    } else {
        let j = first_rdata(es.drop_first(), d);
        if j < 0 { -1 } else { j + 1 }
    }
}

/// Storing `rr` with expiry `exp` among `es`: an entry with the same rdata
/// takes the new TTL and expiry; otherwise the record is appended.
pub open spec fn put_entries(es: Seq<(RRView, u64)>, rr: RRView, exp: u64) -> Seq<(RRView, u64)> {
    let j = first_rdata(es, rr.rdata);
    if j >= 0 {
        es.update(j, (RRView { ttl: rr.ttl, ..es[j].0 }, exp))
    } else {
        es.push((rr, exp))
    }
}

/// No two entries share their rdata.
pub open spec fn rdata_distinct(es: Seq<(RRView, u64)>) -> bool {
    forall|i: int, j: int| 0 <= i < j < es.len() ==> #[trigger] es[i].0.rdata != #[trigger] es[j].0.rdata
}

/// Under every key, the cached records have pairwise distinct rdata.
pub open spec fn cache_rdata_distinct(m: Map<CacheKey, Seq<(RRView, u64)>>) -> bool {
    forall|k: CacheKey| #[trigger] m.dom().contains(k) ==> rdata_distinct(m[k])
}

proof fn lemma_first_rdata(es: Seq<(RRView, u64)>, d: RDataView)
    ensures
        first_rdata(es, d) < es.len(),
        first_rdata(es, d) >= 0 ==> es[first_rdata(es, d)].0.rdata == d,
        first_rdata(es, d) < 0 ==> forall|i: int| 0 <= i < es.len() ==> es[i].0.rdata != d,
    decreases es.len(),
{
    if es.len() > 0 && es[0].0.rdata != d {
        let t = es.drop_first();
        lemma_first_rdata(t, d);
        assert forall|i: int| 0 < i < es.len() implies es[i] == t[i - 1] by {}
    }
}

/// Storing a record keeps the records under each key distinct by rdata: a
/// record whose rdata is already held under its key refreshes that entry,
/// and is never stored twice.
pub proof fn lemma_put_keeps_rdata_distinct(m: Map<CacheKey, Seq<(RRView, u64)>>, rr: RRView, now: u64)
    requires
        cache_rdata_distinct(m),
    ensures
        cache_rdata_distinct(put_effect(m, rr, now)),
{
    let k = rr_key(rr);
    let es = if m.dom().contains(k) { m[k] } else { Seq::empty() };
    let e2 = put_entries(es, rr, expiry(now, rr.ttl));
    lemma_first_rdata(es, rr.rdata);
    assert(rdata_distinct(es));
    assert(rdata_distinct(e2)) by {
        let j = first_rdata(es, rr.rdata);
        assert forall|a: int, b: int| 0 <= a < b < e2.len() implies #[trigger] e2[a].0.rdata != #[trigger] e2[b].0.rdata by {
            if j >= 0 {
                assert(e2[a].0.rdata == es[a].0.rdata);
                assert(e2[b].0.rdata == es[b].0.rdata);
            } else {
                if b == es.len() {
                    assert(e2[a] == es[a]);
                } else {
                    assert(e2[a] == es[a] && e2[b] == es[b]);
                }
            }
        }
    }
    let m2 = put_effect(m, rr, now);
    assert forall|k2: CacheKey| #[trigger] m2.dom().contains(k2) implies rdata_distinct(m2[k2]) by {
        if k2 != k {
            assert(m2[k2] == m[k2]);
        }
    }
}

pub open spec fn put_effect(m: Map<CacheKey, Seq<(RRView, u64)>>, rr: RRView, now: u64) -> Map<CacheKey, Seq<(RRView, u64)>> {
    let k = rr_key(rr);
    let es = if m.dom().contains(k) { m[k] } else { Seq::empty() };
    m.insert(k, put_entries(es, rr, expiry(now, rr.ttl)))
}

/// Storing every record of `rrs` in turn at `now`.
pub open spec fn put_all_effect(m: Map<CacheKey, Seq<(RRView, u64)>>, rrs: Seq<RRView>, now: u64) -> Map<CacheKey, Seq<(RRView, u64)>>
    decreases rrs.len(),
{
    if rrs.len() == 0 {
        m
    } else {
        put_effect(put_all_effect(m, rrs.drop_last(), now), rrs.last(), now)
    }
}

pub open spec fn rrs_opt(r: Option<Vec<DnsRR>>) -> Option<Seq<RRView>> {
    match r {
        Some(v) => Some(rrs_view(v@)),
        None => None,
    }
}

struct CacheEntry {
    rr: DnsRR,
    expires: u64,
}

struct Bucket {
    name: Vec<u8>,
    rtype: u16,
    class: u16,
    entries: Vec<CacheEntry>,
}

struct Negative {
    name: Vec<u8>,
    rtype: u16,
    class: u16,
    expires: u64,
}

pub struct DnsCache {
    records: Vec<Bucket>,
    negatives: Vec<Negative>,
}

spec fn bucket_key() -> spec_fn(Bucket) -> CacheKey {
    |b: Bucket| (b.name@, b.rtype, b.class)
}

spec fn negative_key() -> spec_fn(Negative) -> CacheKey {
    |n: Negative| (n.name@, n.rtype, n.class)
}

spec fn entry_view(e: CacheEntry) -> (RRView, u64) {
    (e.rr@, e.expires)
}

spec fn entries_view(es: Seq<CacheEntry>) -> Seq<(RRView, u64)> {
    es.map_values(|e: CacheEntry| entry_view(e))
}

spec fn bucket_view(b: Bucket) -> Seq<(RRView, u64)> {
    entries_view(b.entries@)
}

/// The lower-cased bytes of a name.
fn name_key(name: &str) -> (r: Vec<u8>)
    ensures
        r@ == lower_all(encode_utf8(name@)),
{
    let b = name.as_bytes();
    let mut r: Vec<u8> = Vec::new();
    push_lower(&mut r, b, 0, b.len());
    assert(b@.subrange(0, b@.len() as int) == b@);
    r
}

impl DnsCache {
    /// Cached records with their expiry times, by key.
    pub closed spec fn records_view(&self) -> Map<CacheKey, Seq<(RRView, u64)>> {
        to_map(self.records@, bucket_key()).map_values(|b: Bucket| bucket_view(b))
    }

    /// Expiry time of each negative entry, by key.
    pub closed spec fn negatives_view(&self) -> Map<CacheKey, u64> {
        to_map(self.negatives@, negative_key()).map_values(|n: Negative| n.expires)
    }

    pub closed spec fn wf(&self) -> bool {
        &&& keys_unique(self.records@, bucket_key())
        &&& keys_unique(self.negatives@, negative_key())
    }

    pub fn new() -> (r: Self)
        ensures
            r.wf(),
            r.records_view() == Map::<CacheKey, Seq<(RRView, u64)>>::empty(),
            r.negatives_view() == Map::<CacheKey, u64>::empty(),
    {
        let r = DnsCache { records: Vec::new(), negatives: Vec::new() };
        assert(to_map(r.records@, bucket_key()) =~= Map::empty());
        assert(to_map(r.negatives@, negative_key()) =~= Map::empty());
        assert(r.records_view() =~= Map::<CacheKey, Seq<(RRView, u64)>>::empty());
        assert(r.negatives_view() =~= Map::<CacheKey, u64>::empty());
        r
    }

    fn find_bucket(&self, key: &Vec<u8>, rtype: u16, class: u16) -> (r: Option<usize>)
        requires
            self.wf(),
        ensures
            r is None <==> !to_map(self.records@, bucket_key()).dom().contains((key@, rtype, class)),
            r matches Some(i) ==> i < self.records@.len() && bucket_key()(self.records@[i as int])
                == (key@, rtype, class),
    {
        let ghost k = (key@, rtype, class);
        proof {
            lemma_index_of(self.records@, bucket_key(), k);
        }
        let mut i: usize = 0;
        while i < self.records.len()
            invariant
                self.wf(),
                k == (key@, rtype, class),
                i <= self.records@.len(),
                forall|j: int| 0 <= j < i ==> bucket_key()(#[trigger] self.records@[j]) != k,
            decreases self.records@.len() - i,
        {
            let b = &self.records[i];
            if b.rtype == rtype && b.class == class && bytes_eq(b.name.as_slice(), key.as_slice()) {
                proof { lemma_map_dom(self.records@, bucket_key(), i as int); }
                return Some(i);
            }
            i = i + 1;
        }
        proof {
            if to_map(self.records@, bucket_key()).dom().contains(k) {
                let j = index_of(self.records@, bucket_key(), k);
                assert(bucket_key()(self.records@[j]) == k);
            }
        }
        None
    }

    fn find_negative(&self, key: &Vec<u8>, rtype: u16, class: u16) -> (r: Option<usize>)
        requires
            self.wf(),
        ensures
            r is None <==> !to_map(self.negatives@, negative_key()).dom().contains((key@, rtype, class)),
            r matches Some(i) ==> i < self.negatives@.len() && negative_key()(self.negatives@[i as int])
                == (key@, rtype, class),
    {
        let ghost k = (key@, rtype, class);
        proof {
            lemma_index_of(self.negatives@, negative_key(), k);
        }
        let mut i: usize = 0;
        while i < self.negatives.len()
            invariant
                self.wf(),
                k == (key@, rtype, class),
                i <= self.negatives@.len(),
                forall|j: int| 0 <= j < i ==> negative_key()(#[trigger] self.negatives@[j]) != k,
            decreases self.negatives@.len() - i,
        {
            let n = &self.negatives[i];
            if n.rtype == rtype && n.class == class && bytes_eq(n.name.as_slice(), key.as_slice()) {
                proof { lemma_map_dom(self.negatives@, negative_key(), i as int); }
                return Some(i);
            }
            i = i + 1;
        }
        proof {
            if to_map(self.negatives@, negative_key()).dom().contains(k) {
                let j = index_of(self.negatives@, negative_key(), k);
                assert(negative_key()(self.negatives@[j]) == k);
            }
        }
        None
    }
}

/// A negative entry for `k` is stored and has not expired at `now`.
pub open spec fn negative_alive(n: Map<CacheKey, u64>, k: CacheKey, now: u64) -> bool {
    n.dom().contains(k) && now < n[k]
}

impl DnsCache {
    /// Remembers that `name` has no records of `qtype`/`qclass` for `ttl`
    /// seconds from `now`.
    pub fn put_nxdomain_at(&mut self, name: &str, qtype: u16, qclass: u16, ttl: u32, now: u64)
        requires
            old(self).wf(),
        ensures
            final(self).wf(),
            final(self).negatives_view() == old(self).negatives_view().insert(
                cache_key(name@, qtype, qclass),
                expiry(now, ttl),
            ),
            final(self).records_view() == old(self).records_view(),
    {
        let key = name_key(name);
        let exp = now.saturating_add(ttl as u64 * 1000);
        let ghost k = (key@, qtype, qclass);
        let ghost old_negs = self.negatives@;
        match self.find_negative(&key, qtype, qclass) {
            Some(i) => {
                let n = Negative { name: key, rtype: qtype, class: qclass, expires: exp };
                proof { lemma_update(old_negs, negative_key(), i as int, n); }
                self.negatives.set(i, n);
            }
            None => {
                let n = Negative { name: key, rtype: qtype, class: qclass, expires: exp };
                proof { lemma_push(old_negs, negative_key(), n); }
                self.negatives.push(n);
            }
        }
        assert(self.negatives_view() =~= old(self).negatives_view().insert(k, exp));
    }

    /// Whether a negative entry for the key is still alive at `now`.
    pub fn is_nxdomain_at(&self, name: &str, qtype: u16, qclass: u16, now: u64) -> (r: bool)
        requires
            self.wf(),
        ensures
            r == negative_alive(self.negatives_view(), cache_key(name@, qtype, qclass), now),
    {
        let key = name_key(name);
        match self.find_negative(&key, qtype, qclass) {
            Some(i) => {
                proof { lemma_map_dom(self.negatives@, negative_key(), i as int); }
                now < self.negatives[i].expires
            }
            None => false,
        }
    }

    /// The records of the key alive at `now`, in the order they were first
    /// stored. Dead entries of the key are dropped, and the key is
    /// forgotten when none is alive.
    pub fn get_at(&mut self, name: &str, qtype: u16, qclass: u16, now: u64) -> (r: Option<Vec<DnsRR>>)
        requires
            old(self).wf(),
        ensures
            final(self).wf(),
            (rrs_opt(r), final(self).records_view()) == get_effect(
                old(self).records_view(),
                cache_key(name@, qtype, qclass),
                now,
            ),
            final(self).negatives_view() == old(self).negatives_view(),
    {
        let key = name_key(name);
        let ghost k = (key@, qtype, qclass);
        let ghost m = self.records_view();
        let i = match self.find_bucket(&key, qtype, qclass) {
            Some(i) => i,
            None => {
                return None;
            }
        };
        let ghost old_recs = self.records@;
        proof {
            lemma_map_dom(old_recs, bucket_key(), i as int);
            assert(m.dom().contains(k) && m[k] == bucket_view(old_recs[i as int]));
        }
        let mut kept: Vec<CacheEntry> = Vec::new();
        let mut out: Vec<DnsRR> = Vec::new();
        let mut j: usize = 0;
        {
            let b = &self.records[i];
            let ghost es = b.entries@;
            while j < b.entries.len()
                invariant
                    es == b.entries@,
                    j <= es.len(),
                    entries_view(kept@) == live_entries(entries_view(es.subrange(0, j as int)), now),
                    rrs_view(out@) == entry_records(entries_view(kept@)),
                decreases es.len() - j,
            {
                let e = &b.entries[j];
                let ghost pre = entries_view(es.subrange(0, j as int));
                assert(entries_view(es.subrange(0, j + 1)).drop_last() == pre);
                assert(entries_view(es.subrange(0, j + 1)).last() == entry_view(es[j as int]));
                proof {
                    lemma_live_push(pre, entry_view(es[j as int]), now);
                    assert(entries_view(es.subrange(0, j + 1)) == pre.push(entry_view(es[j as int])));
                }
                if e.expires > now {
                    let ghost kv = kept@;
                    let ghost ov = out@;
                    kept.push(CacheEntry { rr: copy_rr(&e.rr), expires: e.expires });
                    out.push(copy_rr(&e.rr));
                    assert(entries_view(kept@) == entries_view(kv).push(entry_view(es[j as int])));
                    assert(rrs_view(out@) == rrs_view(ov).push(es[j as int].rr@));
                    assert(entry_records(entries_view(kept@)) == entry_records(entries_view(kv)).push(es[j as int].rr@));
                }
                j = j + 1;
            }
            assert(es.subrange(0, j as int) == es);
        }
        if kept.len() == 0 {
            proof { lemma_remove(old_recs, bucket_key(), i as int); }
            self.records.remove(i);
            assert(self.records_view() =~= m.remove(k));
            return None;
        }
        let name_copy = copy_range(self.records[i].name.as_slice(), 0, self.records[i].name.len());
        assert(name_copy@ =~= old_recs[i as int].name@);
        let nb = Bucket { name: name_copy, rtype: qtype, class: qclass, entries: kept };
        proof { lemma_update(old_recs, bucket_key(), i as int, nb); }
        self.records.set(i, nb);
        assert(self.records_view() =~= m.insert(k, live_entries(m[k], now)));
        Some(out)
    }
}

impl DnsCache {
    /// Stores `rr` under its key with an expiry `ttl` seconds after `now`.
    /// A stored record of the key with the same rdata takes the new TTL and
    /// expiry instead of being duplicated.
    pub fn put_at(&mut self, rr: &DnsRR, now: u64)
        requires
            old(self).wf(),
        ensures
            final(self).wf(),
            final(self).records_view() == put_effect(old(self).records_view(), rr@, now),
            final(self).negatives_view() == old(self).negatives_view(),
    {
        let key = name_key(rr.name.as_str());
        let exp = now.saturating_add(rr.ttl as u64 * 1000);
        let ghost k = (key@, rr.rtype, rr.class);
        let ghost m = self.records_view();
        let ghost old_recs = self.records@;
        match self.find_bucket(&key, rr.rtype, rr.class) {
            None => {
                let mut entries: Vec<CacheEntry> = Vec::new();
                entries.push(CacheEntry { rr: copy_rr(rr), expires: exp });
                let nb = Bucket { name: key, rtype: rr.rtype, class: rr.class, entries };
                proof {
                    lemma_push(old_recs, bucket_key(), nb);
                    lemma_first_rdata_absent(Seq::empty(), rr@.rdata);
                    assert(bucket_view(nb) =~= Seq::<(RRView, u64)>::empty().push((rr@, exp)));
                }
                self.records.push(nb);
                assert(self.records_view() =~= put_effect(m, rr@, now));
            }
            Some(i) => {
                proof {
                    lemma_map_dom(old_recs, bucket_key(), i as int);
                }
                let mut b = self.records.remove(i);
                let ghost es = bucket_view(b);
                assert(m[k] == es);
                let mut j: usize = 0;
                let mut found = false;
                while j < b.entries.len() && !found
                    invariant
                        es == entries_view(b.entries@),
                        j <= b.entries@.len(),
                        forall|q: int| 0 <= q < j ==> es[q].0.rdata != rr@.rdata,
                        found ==> j < b.entries@.len() && es[j as int].0.rdata == rr@.rdata,
                    decreases b.entries@.len() - j, if found { 0int } else { 1int },
                {
                    if rdata_eq(&b.entries[j].rr.rdata, &rr.rdata) {
                        found = true;
                    } else {
                        j = j + 1;
                    }
                }
                if found {
                    proof { lemma_first_rdata_found(es, rr@.rdata, j as int); }
                    let mut c = copy_rr(&b.entries[j].rr);
                    c.ttl = rr.ttl;
                    b.entries.set(j, CacheEntry { rr: c, expires: exp });
                    assert(bucket_view(b) =~= put_entries(es, rr@, exp));
                } else {
                    proof { lemma_first_rdata_absent(es, rr@.rdata); }
                    b.entries.push(CacheEntry { rr: copy_rr(rr), expires: exp });
                    assert(bucket_view(b) =~= put_entries(es, rr@, exp));
                }
                proof { lemma_update(old_recs, bucket_key(), i as int, b); }
                self.records.insert(i, b);
                assert(self.records@ =~= old_recs.update(i as int, b));
                assert(self.records_view() =~= put_effect(m, rr@, now));
            }
        }
    }

    /// Stores each record of `rrs` in turn, all at time `now`.
    pub fn put_all_at(&mut self, rrs: &[DnsRR], now: u64)
        requires
            old(self).wf(),
        ensures
            final(self).wf(),
            final(self).records_view() == put_all_effect(old(self).records_view(), rrs_view(rrs@), now),
            final(self).negatives_view() == old(self).negatives_view(),
    {
        let ghost m0 = self.records_view();
        let mut i: usize = 0;
        assert(rrs_view(rrs@.subrange(0, 0)) =~= Seq::<RRView>::empty());
        while i < rrs.len()
            invariant
                i <= rrs@.len(),
                self.wf(),
                self.records_view() == put_all_effect(m0, rrs_view(rrs@.subrange(0, i as int)), now),
                self.negatives_view() == old(self).negatives_view(),
            decreases rrs@.len() - i,
        {
            self.put_at(&rrs[i], now);
            i = i + 1;
            assert(rrs_view(rrs@.subrange(0, i as int)).drop_last() =~= rrs_view(rrs@.subrange(0, i - 1)));
        }
        assert(rrs@.subrange(0, i as int) =~= rrs@);
    }
}

proof fn lemma_first_rdata_matches(es: Seq<(RRView, u64)>, d: RDataView)
    ensures
        -1 <= first_rdata(es, d) < es.len(),
        first_rdata(es, d) >= 0 ==> es[first_rdata(es, d)].0.rdata == d,
    decreases es.len(),
{
    if es.len() > 0 && es[0].0.rdata != d {
        lemma_first_rdata_matches(es.drop_first(), d);
    }
}

/// Some record is returned, and one of them has the rdata and TTL of `rr`.
pub open spec fn holds_record(r: Option<Seq<RRView>>, rr: RRView) -> bool {
    match r {
        Some(rs) => exists|i: int| 0 <= i < rs.len() && (#[trigger] rs[i]).rdata == rr.rdata && rs[i].ttl == rr.ttl,
        None => false,
    }
}

/// A record stored at `now` is among the records that a lookup of its key
/// returns at any time before its expiry: some returned record has its
/// rdata and its TTL.
pub proof fn lemma_put_then_get(m: Map<CacheKey, Seq<(RRView, u64)>>, rr: RRView, now: u64, later: u64)
    requires
        later < expiry(now, rr.ttl),
    ensures
        holds_record(get_effect(put_effect(m, rr, now), rr_key(rr), later).0, rr),
{
    let k = rr_key(rr);
    let exp = expiry(now, rr.ttl);
    let es0 = if m.dom().contains(k) { m[k] } else { Seq::<(RRView, u64)>::empty() };
    let es1 = put_entries(es0, rr, exp);
    let m1 = put_effect(m, rr, now);
    assert(m1[k] == es1);
    lemma_first_rdata_matches(es0, rr.rdata);
    let j = first_rdata(es0, rr.rdata);
    let idx = if j >= 0 { j } else { es0.len() as int };
    assert(0 <= idx < es1.len() && es1[idx].0.rdata == rr.rdata && es1[idx].0.ttl == rr.ttl && es1[idx].1 == exp);
    es1.lemma_filter_contains(live_pred(later), idx);
    let live = live_entries(es1, later);
    assert(live.contains(es1[idx]));
    let p = choose|p: int| 0 <= p < live.len() && live[p] == es1[idx];
    assert(live.len() > 0);
    let rs = entry_records(live);
    assert(m1.dom().contains(k));
    assert(get_effect(m1, k, later).0 == Some(rs));
    assert(rs[p] == es1[idx].0);
    assert(rs.len() == live.len());
    assert(0 <= p < rs.len() && rs[p].rdata == rr.rdata && rs[p].ttl == rr.ttl);
    assert(holds_record(Some(rs), rr));
}

/// A negative entry stored at `now` answers "no such name" exactly until
/// its expiry.
pub proof fn lemma_nxdomain_then_check(n: Map<CacheKey, u64>, k: CacheKey, ttl: u32, now: u64, later: u64)
    ensures
        negative_alive(n.insert(k, expiry(now, ttl)), k, later) == (later < expiry(now, ttl)),
{
}

impl DnsCache {
    /// `get_at` at the current time.
    /// The current time is the wall clock in milliseconds since the Unix
    /// epoch (`clock_ms`); a cache used this way must not be given times on
    /// another base through the `_at` methods.
    pub fn get(&mut self, name: &str, qtype: u16, qclass: u16) -> (r: Option<Vec<DnsRR>>)
        requires
            old(self).wf(),
        ensures
            final(self).wf(),
            exists|now: u64| (rrs_opt(r), final(self).records_view()) == #[trigger] get_effect(
                old(self).records_view(),
                cache_key(name@, qtype, qclass),
                now,
            ),
            final(self).negatives_view() == old(self).negatives_view(),
    {
        let now = clock_ms();
        self.get_at(name, qtype, qclass, now)
    }

    /// `put_at` at the current time.
    /// The current time is the wall clock in milliseconds since the Unix
    /// epoch (`clock_ms`); a cache used this way must not be given times on
    /// another base through the `_at` methods.
    pub fn put(&mut self, rr: &DnsRR)
        requires
            old(self).wf(),
        ensures
            final(self).wf(),
            exists|now: u64| final(self).records_view() == #[trigger] put_effect(old(self).records_view(), rr@, now),
            final(self).negatives_view() == old(self).negatives_view(),
    {
        let now = clock_ms();
        self.put_at(rr, now);
    }

    /// `put_all_at` at the current time.
    /// The current time is the wall clock in milliseconds since the Unix
    /// epoch (`clock_ms`); a cache used this way must not be given times on
    /// another base through the `_at` methods.
    pub fn put_all(&mut self, rrs: &[DnsRR])
        requires
            old(self).wf(),
        ensures
            final(self).wf(),
            exists|now: u64| final(self).records_view() == #[trigger] put_all_effect(
                old(self).records_view(),
                rrs_view(rrs@),
                now,
            ),
            final(self).negatives_view() == old(self).negatives_view(),
    {
        let now = clock_ms();
        self.put_all_at(rrs, now);
    }

    /// `put_nxdomain_at` at the current time.
    /// The current time is the wall clock in milliseconds since the Unix
    /// epoch (`clock_ms`); a cache used this way must not be given times on
    /// another base through the `_at` methods.
    pub fn put_nxdomain(&mut self, name: &str, qtype: u16, qclass: u16, ttl: u32)
        requires
            old(self).wf(),
        ensures
            final(self).wf(),
            exists|now: u64| final(self).negatives_view() == old(self).negatives_view().insert(
                cache_key(name@, qtype, qclass),
                #[trigger] expiry(now, ttl),
            ),
            final(self).records_view() == old(self).records_view(),
    {
        let now = clock_ms();
        self.put_nxdomain_at(name, qtype, qclass, ttl, now);
    }

    /// `is_nxdomain_at` at the current time.
    /// The current time is the wall clock in milliseconds since the Unix
    /// epoch (`clock_ms`); a cache used this way must not be given times on
    /// another base through the `_at` methods.
    pub fn is_nxdomain(&self, name: &str, qtype: u16, qclass: u16) -> (r: bool)
        requires
            self.wf(),
        ensures
            exists|now: u64| r == #[trigger] negative_alive(self.negatives_view(), cache_key(name@, qtype, qclass), now),
    {
        let now = clock_ms();
        self.is_nxdomain_at(name, qtype, qclass, now)
    }
}

// ── Root hints ──

/// The octets that read as `u8` among the dot-separated parts, in order.
pub open spec fn good_octets(ps: Seq<Seq<char>>) -> Seq<u8>
    decreases ps.len(),
{
    if ps.len() == 0 {
        seq![]
    } else {
        good_octets(ps.drop_last()) + match parse_uint(ps.last(), 10, 255) {
            Some(v) => seq![v as u8],
            None => Seq::<u8>::empty(),
        }
    }
}

/// The words of a trimmed hints line that is neither empty nor a ';'
/// comment, when it has at least four.
pub open spec fn hint_words(line: Seq<char>) -> Option<Seq<Seq<char>>> {
    let t = trim(line);
    if t.len() == 0 || t[0] == ';' {
        None
    } else {
        let ps = words(t);
        if ps.len() < 4 { None } else { Some(ps) }
    }
}

/// Where the type word of a hints line stands: after an optional class
/// word "IN" or "CLASS1" (any ASCII case).
pub open spec fn hint_type_index(ps: Seq<Seq<char>>) -> int {
    if same_ignoring_case(ps[2], "IN"@) || same_ignoring_case(ps[2], "CLASS1"@) { 3 } else { 2 }
}

pub open spec fn is_a_word(w: Seq<char>) -> bool {
    w == seq!['A']
}

pub open spec fn is_ns_word(w: Seq<char>) -> bool {
    w == seq!['N', 'S']
}

/// A hints line of type A or NS whose record data word is missing: the
/// one kind of line that the hints reader has no answer for.
pub open spec fn hint_line_broken(line: Seq<char>) -> bool {
    match hint_words(line) {
        Some(ps) => {
            let t = hint_type_index(ps);
            (is_a_word(ps[t]) || is_ns_word(ps[t])) && t + 1 >= ps.len()
        },
        None => false,
    }
}

/// The record a hints line "<name> <ttl> [IN|CLASS1] <type> <data>"
/// describes: A records with four readable octets and NS records; the
/// TTL defaults to 3600000 when it does not read as a `u32`.
pub open spec fn hint_record(line: Seq<char>) -> Option<RRView> {
    match hint_words(line) {
        Some(ps) => {
            let ttl = match parse_uint(ps[1], 10, u32::MAX as nat) {
                Some(v) => v as u32,
                None => 3600000u32,
            };
            let t = hint_type_index(ps);
            if is_a_word(ps[t]) {
                let o = good_octets(split_by(ps[t + 1], '.'));
                if o.len() == 4 {
                    Some(RRView { name: ps[0], rtype: TYPE_A, class: CLASS_IN, ttl, rdata: RDataView::A(o) })
                } else {
                    None
                }
            } else if is_ns_word(ps[t]) {
                Some(RRView { name: ps[0], rtype: TYPE_NS, class: CLASS_IN, ttl, rdata: RDataView::NS(ps[t + 1]) })
            } else {
                None
            }
        },
        None => None,
    }
}

/// The records of the hints lines `ls`, in order.
pub open spec fn hint_records(ls: Seq<Seq<char>>) -> Seq<RRView>
    decreases ls.len(),
{
    if ls.len() == 0 {
        seq![]
    } else {
        hint_records(ls.drop_last()) + match hint_record(ls.last()) {
            Some(rr) => seq![rr],
            None => Seq::<RRView>::empty(),
        }
    }
}

pub open spec fn hints_readable(content: Seq<char>) -> bool {
    forall|i: int| 0 <= i < lines(content).len() ==> !hint_line_broken(#[trigger] lines(content)[i])
}

/// The four octets of a dotted address, when exactly four parts read as `u8`.
fn octets_of(cs: &Vec<char>, from: usize, to: usize) -> (r: Option<[u8; 4]>)
    requires
        from <= to <= cs@.len(),
    ensures
        match r {
            Some(ip) => good_octets(split_by(cs@.subrange(from as int, to as int), '.')) == ip@,
            None => good_octets(split_by(cs@.subrange(from as int, to as int), '.')).len() != 4,
        },
{
    let parts = split_ranges(cs, from, to, '.');
    let ghost pv = ranges_view(cs@, parts@);
    let mut got: Vec<u8> = Vec::new();
    let mut k: usize = 0;
    assert(pv.subrange(0, 0) =~= Seq::<Seq<char>>::empty());
    while k < parts.len()
        invariant
            k <= parts@.len(),
            pv == ranges_view(cs@, parts@),
            ranges_within(parts@, from as int, to as int),
            to <= cs@.len(),
            got@ == good_octets(pv.subrange(0, k as int)),
        decreases parts@.len() - k,
    {
        let (a, b) = parts[k];
        assert(pv[k as int] == cs@.subrange(a as int, b as int));
        assert(pv.subrange(0, k + 1).drop_last() =~= pv.subrange(0, k as int));
        let ghost before = got@;
        match parse_uint_range(cs, a, b, 10, 255) {
            Some(v) => {
                got.push(v as u8);
                assert(got@ =~= before + seq![v as u8]);
            }
            None => {
                assert(got@ =~= before + Seq::<u8>::empty());
            }
        }
        k = k + 1;
    }
    assert(pv.subrange(0, k as int) =~= pv);
    if got.len() != 4 {
        return None;
    }
    let ip = [got[0], got[1], got[2], got[3]];
    assert(ip@ =~= got@);
    Some(ip)
}

/// The word ranges of a hints line that is worth reading (see `hint_words`).
fn hint_word_ranges(cs: &Vec<char>, a: usize, b: usize) -> (r: Option<Vec<(usize, usize)>>)
    requires
        a <= b <= cs@.len(),
    ensures
        match r {
            Some(ws) => ranges_within(ws@, a as int, b as int) && hint_words(cs@.subrange(a as int, b as int))
                == Some(ranges_view(cs@, ws@)),
            None => hint_words(cs@.subrange(a as int, b as int)) is None,
        },
{
    let (lo, hi) = trim_bounds(cs, a, b);
    if lo == hi {
        return None;
    }
    if cs[lo] == ';' {
        assert(trim(cs@.subrange(a as int, b as int))[0] == cs@[lo as int]);
        return None;
    }
    let ws = word_ranges(cs, lo, hi);
    if ws.len() < 4 {
        return None;
    }
    Some(ws)
}

/// Whether some hints line has no record data word after type A or NS.
pub fn hints_have_broken_line(content: &str) -> (r: bool)
    ensures
        r == !hints_readable(content@),
{
    let cs = chars_of(content);
    let ls = line_ranges(&cs, 0, cs.len());
    assert(cs@.subrange(0, cs@.len() as int) =~= cs@);
    let ghost lv = ranges_view(cs@, ls@);
    let mut i: usize = 0;
    while i < ls.len()
        invariant
            i <= ls@.len(),
            lv == ranges_view(cs@, ls@),
            lv == lines(content@),
            cs@ == content@,
            ranges_within(ls@, 0, cs@.len() as int),
            forall|q: int| 0 <= q < i ==> !hint_line_broken(#[trigger] lv[q]),
        decreases ls@.len() - i,
    {
        let (a, b) = ls[i];
        assert(lv[i as int] == cs@.subrange(a as int, b as int));
        if let Some(ws) = hint_word_ranges(&cs, a, b) {
            let ghost pv = ranges_view(cs@, ws@);
            let (c0, c1) = ws[2];
            assert(pv[2] == cs@.subrange(c0 as int, c1 as int));
            let class = content.substring_char(c0, c1);
            let t: usize = if str_eq_ignore_case(class, "IN") || str_eq_ignore_case(class, "CLASS1") { 3 } else { 2 };
            let (t0, t1) = ws[t];
            assert(pv[t as int] == cs@.subrange(t0 as int, t1 as int));
            assert(t0 <= t1);
            let is_a = t1 - t0 == 1 && cs[t0] == 'A';
            let is_ns = t1 - t0 == 2 && cs[t0] == 'N' && cs[t0 + 1] == 'S';
            assert(is_a == is_a_word(pv[t as int])) by {
                if t1 - t0 == 1 && cs@[t0 as int] == 'A' {
                    assert(pv[t as int] =~= seq!['A']);
                }
                if is_a_word(pv[t as int]) {
                    assert(pv[t as int][0] == cs@[t0 as int]);
                }
            }
            assert(is_ns == is_ns_word(pv[t as int])) by {
                if t1 - t0 == 2 && cs@[t0 as int] == 'N' && cs@[t0 + 1] == 'S' {
                    assert(pv[t as int] =~= seq!['N', 'S']);
                }
                if is_ns_word(pv[t as int]) {
                    assert(pv[t as int][0] == cs@[t0 as int]);
                    assert(pv[t as int][1] == cs@[t0 + 1]);
                }
            }
            if (is_a || is_ns) && t + 1 >= ws.len() {
                return true;
            }
        }
        i = i + 1;
    }
    false
}

/// The A and NS records of a root hints file, in order (see `hint_record`).
pub fn parse_root_hints(content: &str) -> (r: Vec<DnsRR>)
    requires
        hints_readable(content@),
    ensures
        rrs_view(r@) == hint_records(lines(content@)),
{
    let cs = chars_of(content);
    let ls = line_ranges(&cs, 0, cs.len());
    assert(cs@.subrange(0, cs@.len() as int) =~= cs@);
    let ghost lv = ranges_view(cs@, ls@);
    let mut out: Vec<DnsRR> = Vec::new();
    let mut i: usize = 0;
    assert(lv.subrange(0, 0) =~= Seq::<Seq<char>>::empty());
    while i < ls.len()
        invariant
            i <= ls@.len(),
            lv == ranges_view(cs@, ls@),
            lv == lines(content@),
            cs@ == content@,
            hints_readable(content@),
            ranges_within(ls@, 0, cs@.len() as int),
            rrs_view(out@) == hint_records(lv.subrange(0, i as int)),
        decreases ls@.len() - i,
    {
        let (a, b) = ls[i];
        let ghost line = cs@.subrange(a as int, b as int);
        assert(lv[i as int] == line);
        assert(!hint_line_broken(lines(content@)[i as int]));
        assert(lv.subrange(0, i + 1).drop_last() =~= lv.subrange(0, i as int));
        let ghost before = out@;
        let mut rec: Option<DnsRR> = None;
        if let Some(ws) = hint_word_ranges(&cs, a, b) {
            let ghost pv = ranges_view(cs@, ws@);
            let (n0, n1) = ws[0];
            let (l0, l1) = ws[1];
            let (c0, c1) = ws[2];
            assert(pv[0] == cs@.subrange(n0 as int, n1 as int));
            assert(pv[1] == cs@.subrange(l0 as int, l1 as int));
            assert(pv[2] == cs@.subrange(c0 as int, c1 as int));
            let ttl: u32 = match parse_uint_range(&cs, l0, l1, 10, u32::MAX as u64) {
                Some(v) => v as u32,
                None => 3600000,
            };
            let class = content.substring_char(c0, c1);
            let t: usize = if str_eq_ignore_case(class, "IN") || str_eq_ignore_case(class, "CLASS1") { 3 } else { 2 };
            let (t0, t1) = ws[t];
            assert(pv[t as int] == cs@.subrange(t0 as int, t1 as int));
            assert(t0 <= t1);
            let is_a = t1 - t0 == 1 && cs[t0] == 'A';
            let is_ns = t1 - t0 == 2 && cs[t0] == 'N' && cs[t0 + 1] == 'S';
            assert(is_a == is_a_word(pv[t as int])) by {
                if t1 - t0 == 1 && cs@[t0 as int] == 'A' {
                    assert(pv[t as int] =~= seq!['A']);
                }
                if is_a_word(pv[t as int]) {
                    assert(pv[t as int][0] == cs@[t0 as int]);
                }
            }
            assert(is_ns == is_ns_word(pv[t as int])) by {
                if t1 - t0 == 2 && cs@[t0 as int] == 'N' && cs@[t0 + 1] == 'S' {
                    assert(pv[t as int] =~= seq!['N', 'S']);
                }
                if is_ns_word(pv[t as int]) {
                    assert(pv[t as int][0] == cs@[t0 as int]);
                    assert(pv[t as int][1] == cs@[t0 + 1]);
                }
            }
            if is_a || is_ns {
                let (d0, d1) = ws[t + 1];
                assert(pv[t + 1] == cs@.subrange(d0 as int, d1 as int));
                let name = String::from_str(content.substring_char(n0, n1));
                if is_a {
                    if let Some(ip) = octets_of(&cs, d0, d1) {
                        rec = Some(DnsRR { name, rtype: TYPE_A, class: CLASS_IN, ttl, rdata: RData::A(ip) });
                    }
                } else {
                    let ns = String::from_str(content.substring_char(d0, d1));
                    rec = Some(DnsRR { name, rtype: TYPE_NS, class: CLASS_IN, ttl, rdata: RData::NS(ns) });
                }
            }
        }
        match rec {
            Some(rr) => {
                assert(hint_record(line) == Some(rr@));
                out.push(rr);
                assert(rrs_view(out@) =~= rrs_view(before) + seq![out@.last()@]);
            }
            None => {
                assert(hint_record(line) is None);
                assert(rrs_view(out@) =~= rrs_view(before) + Seq::<RRView>::empty());
            }
        }
        i = i + 1;
    }
    assert(lv.subrange(0, i as int) =~= lv);
    out
}

impl DnsCache {
    /// Stores the records of a root hints file at time `now`.
    pub fn load_root_hints_at(&mut self, content: &str, now: u64)
        requires
            old(self).wf(),
            hints_readable(content@),
        ensures
            final(self).wf(),
            final(self).records_view() == put_all_effect(old(self).records_view(), hint_records(lines(content@)), now),
            final(self).negatives_view() == old(self).negatives_view(),
    {
        let rrs = parse_root_hints(content);
        self.put_all_at(rrs.as_slice(), now);
    }

    /// Stores the records of a root hints file, read at the current time.
    /// The current time is the wall clock in milliseconds since the Unix
    /// epoch (`clock_ms`); a cache used this way must not be given times on
    /// another base through the `_at` methods.
    pub fn load_root_hints(&mut self, content: &str)
        requires
            old(self).wf(),
            hints_readable(content@),
        ensures
            final(self).wf(),
            exists|now: u64| final(self).records_view() == #[trigger] put_all_effect(
                old(self).records_view(),
                hint_records(lines(content@)),
                now,
            ),
            final(self).negatives_view() == old(self).negatives_view(),
    {
        let now = clock_ms();
        self.load_root_hints_at(content, now);
    }
}

// ── Name servers ──

/// The records that a lookup of `k` at `now` returns (none when it
/// returns nothing).
pub open spec fn lookup(m: Map<CacheKey, Seq<(RRView, u64)>>, k: CacheKey, now: u64) -> Seq<RRView> {
    match get_effect(m, k, now).0 {
        Some(v) => v,
        None => seq![],
    }
}

proof fn lemma_live_idempotent(s: Seq<(RRView, u64)>, now: u64)
    ensures
        live_entries(live_entries(s, now), now) == live_entries(s, now),
    decreases s.len(),
{
    if s.len() > 0 {
        let init = s.drop_last();
        lemma_live_idempotent(init, now);
        assert(init.push(s.last()) =~= s);
        lemma_live_push(init, s.last(), now);
        let l = live_entries(init, now);
        if s.last().1 > now {
            lemma_live_push(l, s.last(), now);
        }
    }
}

/// A lookup leaves every lookup at the same time unchanged.
pub proof fn lemma_get_keeps_lookups(m: Map<CacheKey, Seq<(RRView, u64)>>, k1: CacheKey, k2: CacheKey, now: u64)
    ensures
        lookup(get_effect(m, k1, now).1, k2, now) == lookup(m, k2, now),
{
    if m.dom().contains(k1) && k1 == k2 {
        let live = live_entries(m[k1], now);
        if live.len() > 0 {
            lemma_live_idempotent(m[k1], now);
        }
    }
}

/// The (name, address) pairs of the A records `rs`, all under `n`.
pub open spec fn a_pairs(n: Seq<char>, rs: Seq<RRView>) -> Seq<(Seq<char>, Seq<u8>)>
    decreases rs.len(),
{
    if rs.len() == 0 {
        seq![]
    } else {
        a_pairs(n, rs.drop_last()) + match rs.last().rdata {
            RDataView::A(ip) => seq![(n, ip)],
            _ => Seq::<(Seq<char>, Seq<u8>)>::empty(),
        }
    }
}

/// For each NS record of `rs`, in order, the cached addresses of its name.
pub open spec fn ns_pairs(m: Map<CacheKey, Seq<(RRView, u64)>>, rs: Seq<RRView>, now: u64) -> Seq<(Seq<char>, Seq<u8>)>
    decreases rs.len(),
{
    if rs.len() == 0 {
        seq![]
    } else {
        ns_pairs(m, rs.drop_last(), now) + match rs.last().rdata {
            RDataView::NS(n) => a_pairs(n, lookup(m, cache_key(n, TYPE_A, CLASS_IN), now)),
            _ => Seq::<(Seq<char>, Seq<u8>)>::empty(),
        }
    }
}

/// The name servers of `zone` with their cached addresses.
pub open spec fn ns_ips(m: Map<CacheKey, Seq<(RRView, u64)>>, zone: Seq<char>, now: u64) -> Seq<(Seq<char>, Seq<u8>)> {
    ns_pairs(m, lookup(m, cache_key(zone, TYPE_NS, CLASS_IN), now), now)
}

pub open spec fn pairs_view(v: Seq<(String, [u8; 4])>) -> Seq<(Seq<char>, Seq<u8>)> {
    v.map_values(|p: (String, [u8; 4])| (p.0@, p.1@))
}

impl DnsCache {
    /// A lookup at `now` whose absence reads as no records.
    fn lookup_at(&mut self, name: &str, qtype: u16, now: u64) -> (r: Vec<DnsRR>)
        requires
            old(self).wf(),
        ensures
            final(self).wf(),
            rrs_view(r@) == lookup(old(self).records_view(), cache_key(name@, qtype, CLASS_IN), now),
            final(self).records_view() == get_effect(old(self).records_view(), cache_key(name@, qtype, CLASS_IN), now).1,
            final(self).negatives_view() == old(self).negatives_view(),
    {
        match self.get_at(name, qtype, CLASS_IN, now) {
            Some(v) => v,
            None => {
                let v: Vec<DnsRR> = Vec::new();
                assert(rrs_view(v@) =~= Seq::<RRView>::empty());
                v
            }
        }
    }

    /// The name servers of `zone` and their cached addresses at `now`, in
    /// the order of the NS records and of their A records. Lookups at `now`
    /// give afterwards what they gave before.
    pub fn get_ns_ips_at(&mut self, zone: &str, now: u64) -> (r: Vec<(String, [u8; 4])>)
        requires
            old(self).wf(),
        ensures
            final(self).wf(),
            pairs_view(r@) == ns_ips(old(self).records_view(), zone@, now),
            forall|k: CacheKey| #[trigger] lookup(final(self).records_view(), k, now) == lookup(old(self).records_view(), k, now),
            final(self).negatives_view() == old(self).negatives_view(),
    {
        let ghost m0 = self.records_view();
        let nsr = self.lookup_at(zone, TYPE_NS, now);
        proof {
            assert forall|k: CacheKey| #[trigger] lookup(self.records_view(), k, now) == lookup(m0, k, now) by {
                lemma_get_keeps_lookups(m0, cache_key(zone@, TYPE_NS, CLASS_IN), k, now);
            }
        }
        let ghost nv = rrs_view(nsr@);
        let mut out: Vec<(String, [u8; 4])> = Vec::new();
        let mut i: usize = 0;
        assert(nv.subrange(0, 0) =~= Seq::<RRView>::empty());
        assert(pairs_view(out@) =~= Seq::<(Seq<char>, Seq<u8>)>::empty());
        while i < nsr.len()
            invariant
                i <= nsr@.len(),
                self.wf(),
                nv == rrs_view(nsr@),
                nv == lookup(m0, cache_key(zone@, TYPE_NS, CLASS_IN), now),
                forall|k: CacheKey| #[trigger] lookup(self.records_view(), k, now) == lookup(m0, k, now),
                self.negatives_view() == old(self).negatives_view(),
                pairs_view(out@) == ns_pairs(m0, nv.subrange(0, i as int), now),
            decreases nsr@.len() - i,
        {
            assert(nv.subrange(0, i + 1).drop_last() =~= nv.subrange(0, i as int));
            assert(nv.subrange(0, i + 1).last() == nsr@[i as int]@);
            let ghost before = out@;
            if let RData::NS(name) = &nsr[i].rdata {
                let ghost mb = self.records_view();
                let ghost ka = cache_key(name@, TYPE_A, CLASS_IN);
                let arr = self.lookup_at(name.as_str(), TYPE_A, now);
                proof {
                    assert forall|k: CacheKey| #[trigger] lookup(self.records_view(), k, now) == lookup(m0, k, now) by {
                        lemma_get_keeps_lookups(mb, ka, k, now);
                    }
                }
                let ghost av = rrs_view(arr@);
                assert(av == lookup(m0, ka, now));
                let mut j: usize = 0;
                assert(av.subrange(0, 0) =~= Seq::<RRView>::empty());
                assert(pairs_view(out@) =~= pairs_view(before) + a_pairs(name@, av.subrange(0, 0)));
                while j < arr.len()
                    invariant
                        j <= arr@.len(),
                        av == rrs_view(arr@),
                        pairs_view(out@) == pairs_view(before) + a_pairs(name@, av.subrange(0, j as int)),
                    decreases arr@.len() - j,
                {
                    assert(av.subrange(0, j + 1).drop_last() =~= av.subrange(0, j as int));
                    assert(av.subrange(0, j + 1).last() == arr@[j as int]@);
                    let ghost ob = out@;
                    if let RData::A(ip) = &arr[j].rdata {
                        out.push((name.clone(), *ip));
                        assert(pairs_view(out@) =~= pairs_view(ob) + seq![(name@, ip@)]);
                    } else {
                        assert(pairs_view(out@) =~= pairs_view(ob) + Seq::<(Seq<char>, Seq<u8>)>::empty());
                    }
                    j = j + 1;
                }
                assert(av.subrange(0, j as int) =~= av);
            } else {
                assert(pairs_view(out@) =~= pairs_view(before) + Seq::<(Seq<char>, Seq<u8>)>::empty());
            }
            i = i + 1;
        }
        assert(nv.subrange(0, i as int) =~= nv);
        out
    }

    /// `get_ns_ips_at` at the current time.
    /// The current time is the wall clock in milliseconds since the Unix
    /// epoch (`clock_ms`); a cache used this way must not be given times on
    /// another base through the `_at` methods.
    pub fn get_ns_ips(&mut self, zone: &str) -> (r: Vec<(String, [u8; 4])>)
        requires
            old(self).wf(),
        ensures
            final(self).wf(),
            exists|now: u64| pairs_view(r@) == #[trigger] ns_ips(old(self).records_view(), zone@, now),
            final(self).negatives_view() == old(self).negatives_view(),
    {
        let now = clock_ms();
        self.get_ns_ips_at(zone, now)
    }
}

} // verus!
