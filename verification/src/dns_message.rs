//! DNS wire format (RFC 1035): names, header, questions, resource records
//! and whole messages.
//!
//! Names are decoded with compression pointers followed; names are always
//! encoded uncompressed. Every decoded label is lower-cased (ASCII only).

use vstd::prelude::*;
use vstd::utf8::{valid_utf8, decode_utf8, encode_utf8, encode_scalar, encode_utf8_decode_utf8, encode_utf8_valid_utf8};
use vstd::set_lib::{set_int_range, lemma_int_range, lemma_len_subset};
use crate::util::{
    be16, be32, u16_bytes, u32_bytes, read_be16, read_be32, push_be16, push_be32, push_all, copy_range,
    lemma_be16_roundtrip, lemma_be32_roundtrip, bytes_eq,
};

verus! {

pub const TYPE_A: u16 = 1;
pub const TYPE_NS: u16 = 2;
pub const TYPE_CNAME: u16 = 5;
pub const TYPE_SOA: u16 = 6;
pub const TYPE_MX: u16 = 15;
pub const TYPE_AAAA: u16 = 28;

pub const CLASS_IN: u16 = 1;

pub const RCODE_NOERROR: u8 = 0;
pub const RCODE_NXDOMAIN: u8 = 3;

pub const FLAG_QR: u16 = 0x8000;
pub const FLAG_RA: u16 = 0x0080;

// ── Message types ──

#[derive(Debug, Clone, Copy, PartialEq, Eq, Structural)]
pub struct DnsHeader {
    pub id: u16,
    pub flags: u16,
    pub qdcount: u16,
    pub ancount: u16,
    pub nscount: u16,
    pub arcount: u16,
}

impl DnsHeader {
    /// The QR bit: the message is a response.
    pub fn is_response(&self) -> (r: bool)
        ensures
            r == (self.flags >= FLAG_QR),
    {
        self.flags >= FLAG_QR
    }

    /// The response code: the low four bits of the flags.
    pub fn rcode(&self) -> (r: u8)
        ensures
            r == self.flags % 16,
    {
        (self.flags % 16) as u8
    }
}

#[derive(Debug, Clone)]
pub struct DnsQuestion {
    pub qname: String,
    pub qtype: u16,
    pub qclass: u16,
}

#[derive(Debug, Clone, PartialEq)]
pub enum RData {
    A([u8; 4]),
    AAAA([u8; 16]),
    NS(String),
    CNAME(String),
    MX { preference: u16, exchange: String },
    SOA { mname: String, rname: String, serial: u32, refresh: u32, retry: u32, expire: u32, minimum: u32 },
    Unknown(Vec<u8>),
}

#[derive(Debug, Clone)]
pub struct DnsRR {
    pub name: String,
    pub rtype: u16,
    pub class: u16,
    pub ttl: u32,
    pub rdata: RData,
}

#[derive(Debug, Clone)]
pub struct DnsMessage {
    pub header: DnsHeader,
    pub questions: Vec<DnsQuestion>,
    pub answers: Vec<DnsRR>,
    pub authorities: Vec<DnsRR>,
    pub additionals: Vec<DnsRR>,
}

pub struct QuestionView {
    pub qname: Seq<char>,
    pub qtype: u16,
    pub qclass: u16,
}

pub enum RDataView {
    A(Seq<u8>),
    AAAA(Seq<u8>),
    NS(Seq<char>),
    CNAME(Seq<char>),
    MX { preference: u16, exchange: Seq<char> },
    SOA { mname: Seq<char>, rname: Seq<char>, serial: u32, refresh: u32, retry: u32, expire: u32, minimum: u32 },
    Unknown(Seq<u8>),
}

pub struct RRView {
    pub name: Seq<char>,
    pub rtype: u16,
    pub class: u16,
    pub ttl: u32,
    pub rdata: RDataView,
}

pub struct MessageView {
    pub header: DnsHeader,
    pub questions: Seq<QuestionView>,
    pub answers: Seq<RRView>,
    pub authorities: Seq<RRView>,
    pub additionals: Seq<RRView>,
}

impl View for DnsQuestion {
    type V = QuestionView;

    open spec fn view(&self) -> QuestionView {
        QuestionView { qname: self.qname@, qtype: self.qtype, qclass: self.qclass }
    }
}

impl View for RData {
    type V = RDataView;

    open spec fn view(&self) -> RDataView {
        match self {
            RData::A(ip) => RDataView::A(ip@),
            RData::AAAA(ip) => RDataView::AAAA(ip@),
            RData::NS(n) => RDataView::NS(n@),
            RData::CNAME(n) => RDataView::CNAME(n@),
            RData::MX { preference, exchange } => RDataView::MX { preference: *preference, exchange: exchange@ },
            RData::SOA { mname, rname, serial, refresh, retry, expire, minimum } => RDataView::SOA {
                mname: mname@,
                rname: rname@,
                serial: *serial,
                refresh: *refresh,
                retry: *retry,
                expire: *expire,
                minimum: *minimum,
            },
            RData::Unknown(d) => RDataView::Unknown(d@),
        }
    }
}

impl View for DnsRR {
    type V = RRView;

    open spec fn view(&self) -> RRView {
        RRView { name: self.name@, rtype: self.rtype, class: self.class, ttl: self.ttl, rdata: self.rdata@ }
    }
}

pub open spec fn questions_view(qs: Seq<DnsQuestion>) -> Seq<QuestionView> {
    qs.map_values(|q: DnsQuestion| q@)
}

pub open spec fn rrs_view(rrs: Seq<DnsRR>) -> Seq<RRView> {
    rrs.map_values(|rr: DnsRR| rr@)
}

impl View for DnsMessage {
    type V = MessageView;

    open spec fn view(&self) -> MessageView {
        MessageView {
            header: self.header,
            questions: questions_view(self.questions@),
            answers: rrs_view(self.answers@),
            authorities: rrs_view(self.authorities@),
            additionals: rrs_view(self.additionals@),
        }
    }
}

/// Number of distinct compression-pointer targets (14-bit offsets).
pub const POINTER_SPACE: usize = 16384;

// ── Name encoding ──

/// ASCII lower-casing of one byte; every other byte is unchanged.
pub open spec fn ascii_lower(b: u8) -> u8 {
    if 65 <= b <= 90 { (b + 32) as u8 } else { b }
}

pub open spec fn lower_all(s: Seq<u8>) -> Seq<u8> {
    s.map_values(|b: u8| ascii_lower(b))
}

/// ASCII upper-case letters lowered, every other character kept.
pub open spec fn lower_char(c: char) -> char {
    if 65 <= (c as u32) <= 90 { ((c as u32) + 32) as char } else { c }
}

proof fn lemma_high_bytes(y: u8)
    ensures
        (0x80u8 | y) >= 0x80,
        (0xC0u8 | y) >= 0x80,
        (0xE0u8 | y) >= 0x80,
        (0xF0u8 | y) >= 0x80,
{
    assert((0x80u8 | y) >= 0x80) by (bit_vector);
    assert((0xC0u8 | y) >= 0x80) by (bit_vector);
    assert((0xE0u8 | y) >= 0x80) by (bit_vector);
    assert((0xF0u8 | y) >= 0x80) by (bit_vector);
}

/// Lowering the bytes of one character's encoding gives the encoding of
/// the lowered character: an ASCII character is one byte, and the bytes of
/// any other character are all 0x80 or more, which lowering keeps.
proof fn lemma_lower_scalar(c: char)
    ensures
        lower_all(encode_scalar(c as u32)) == encode_scalar(lower_char(c) as u32),
{
    let v = c as u32;
    if v < 128 {
        assert((v & 0x7F) == v) by (bit_vector)
            requires
                v < 128,
        ;
        if 65 <= v <= 90 {
            let w = lower_char(c) as u32;
            assert(w == v + 32);
            assert((w & 0x7F) == w) by (bit_vector)
                requires
                    w < 128,
            ;
        }
        assert(lower_all(encode_scalar(v)) =~= encode_scalar(lower_char(c) as u32));
    } else {
        assert(lower_char(c) == c);
        let e = encode_scalar(v);
        lemma_high_bytes(((v >> 6) & 0x1F) as u8);
        lemma_high_bytes(((v >> 12) & 0x0F) as u8);
        lemma_high_bytes(((v >> 18) & 0x7) as u8);
        lemma_high_bytes((v & 0x3F) as u8);
        lemma_high_bytes(((v >> 6) & 0x3F) as u8);
        lemma_high_bytes(((v >> 12) & 0x3F) as u8);
        assert forall|i: int| 0 <= i < e.len() implies e[i] >= 0x80 by {}
        assert(lower_all(e) =~= e);
    }
}

/// Lowering the UTF-8 bytes of a text byte by byte gives the UTF-8 bytes
/// of the text with its ASCII letters lowered; so the result is UTF-8.
pub proof fn lemma_lower_utf8(cs: Seq<char>)
    ensures
        lower_all(encode_utf8(cs)) == encode_utf8(cs.map_values(|c: char| lower_char(c))),
        valid_utf8(lower_all(encode_utf8(cs))),
    decreases cs.len(),
{
    broadcast use vstd::utf8::encode_utf8_valid_utf8;
    let l = cs.map_values(|c: char| lower_char(c));
    if cs.len() == 0 {
        assert(lower_all(encode_utf8(cs)) =~= encode_utf8(l));
    } else {
        let t = cs.drop_first();
        lemma_lower_utf8(t);
        assert(l.drop_first() =~= t.map_values(|c: char| lower_char(c)));
        assert(l[0] == lower_char(cs[0]));
        lemma_lower_scalar(cs[0]);
        let a = encode_scalar(cs[0] as u32);
        let b = encode_utf8(t);
        assert(lower_all(a + b) =~= lower_all(a) + lower_all(b));
        assert(encode_utf8(cs) == a + b);
        assert(encode_utf8(l) == encode_scalar(l[0] as u32) + encode_utf8(l.drop_first()));
    }
}

/// Wire form of one label: its length byte (taken modulo 256) and its bytes;
/// nothing for an empty label.
pub open spec fn label_wire(cur: Seq<u8>) -> Seq<u8> {
    if cur.len() == 0 { seq![] } else { seq![(cur.len() % 256) as u8] + cur }
}

/// Wire labels of the dot-separated parts of `s`, the current (unfinished)
/// label being `cur`. Empty parts are skipped.
pub open spec fn wire_from(s: Seq<u8>, cur: Seq<u8>) -> Seq<u8>
    decreases s.len(),
{
    if s.len() == 0 {
        label_wire(cur)
    } else if s[0] == 46 {
        label_wire(cur) + wire_from(s.drop_first(), seq![])
    } else {
        wire_from(s.drop_first(), cur.push(s[0]))
    }
}

/// Uncompressed wire form of the name whose text bytes are `s`.
pub open spec fn name_wire(s: Seq<u8>) -> Seq<u8> {
    wire_from(s, seq![]) + seq![0u8]
}

/// Decoded text of one label: lower-cased and followed by a dot.
pub open spec fn label_text(cur: Seq<u8>) -> Seq<u8> {
    if cur.len() == 0 { seq![] } else { lower_all(cur) + seq![46u8] }
}

/// The text that decoding `name_wire(s)` gives back, `cur` as in `wire_from`.
pub open spec fn text_from(s: Seq<u8>, cur: Seq<u8>) -> Seq<u8>
    decreases s.len(),
{
    if s.len() == 0 {
        label_text(cur)
    } else if s[0] == 46 {
        label_text(cur) + text_from(s.drop_first(), seq![])
    } else {
        text_from(s.drop_first(), cur.push(s[0]))
    }
}

/// Every label of `s` is shorter than 192 bytes, so that its length byte
/// is neither truncated nor read back as a compression pointer.
pub open spec fn labels_fit(s: Seq<u8>, cur: Seq<u8>) -> bool
    decreases s.len(),
{
    if s.len() == 0 {
        cur.len() < 192
    } else if s[0] == 46 {
        cur.len() < 192 && labels_fit(s.drop_first(), seq![])
    } else {
        labels_fit(s.drop_first(), cur.push(s[0]))
    }
}

/// Encodes a dotted name as uncompressed wire labels ending in the root
/// label. Empty labels (leading, doubled or trailing dots) are skipped; a
/// label's length byte is its byte length modulo 256.
pub fn encode_name(name: &str) -> (r: Vec<u8>)
    ensures
        r@ == name_wire(encode_utf8(name@)),
{
    let b = name.as_bytes();
    let ghost s = b@;
    let mut buf: Vec<u8> = Vec::new();
    let mut start: usize = 0;
    let mut i: usize = 0;
    assert(s.skip(0) == s);
    assert(s.subrange(0, 0) == Seq::<u8>::empty());
    assert(buf@ + wire_from(s, seq![]) == wire_from(s, seq![]));
    while i < b.len()
        invariant
            s == b@,
            start <= i <= b@.len(),
            buf@ + wire_from(s.skip(i as int), s.subrange(start as int, i as int)) == wire_from(s, seq![]),
        decreases b@.len() - i,
    {
        let ghost cur = s.subrange(start as int, i as int);
        let ghost rest = s.skip(i as int);
        assert(rest.drop_first() == s.skip(i + 1));
        if b[i] == 46 {
            let ghost before = buf@;
            if i > start {
                buf.push(((i - start) % 256) as u8);
                push_all(&mut buf, &b[start..i]);
            }
            assert(buf@ == before + label_wire(cur));
            assert(wire_from(rest, cur) == label_wire(cur) + wire_from(rest.drop_first(), seq![]));
            start = i + 1;
            i = i + 1;
            assert(s.subrange(start as int, i as int) == Seq::<u8>::empty());
        } else {
            i = i + 1;
            assert(s.subrange(start as int, i as int) == cur.push(s[i - 1]));
        }
    }
    let ghost before = buf@;
    if i > start {
        buf.push(((i - start) % 256) as u8);
        push_all(&mut buf, &b[start..i]);
    }
    assert(s.skip(i as int) == Seq::<u8>::empty());
    assert(buf@ == before + label_wire(s.subrange(start as int, i as int)));
    buf.push(0);
    buf
}

// ── Name decoding ──

/// Offsets that a compression pointer can name.
pub open spec fn pointer_range() -> Set<int> {
    set_int_range(0, POINTER_SPACE as int)
}

/// Target of the compression pointer whose two bytes are `hi` (at least
/// 0xC0) and `lo`.
pub open spec fn pointer_target(hi: u8, lo: u8) -> int {
    (hi as int - 192) * 256 + lo as int
}

pub proof fn lemma_visit_bound(visited: Set<int>, p: int)
    requires
        visited.finite(),
        visited.subset_of(pointer_range()),
        0 <= p < POINTER_SPACE,
    ensures
        visited.insert(p).finite(),
        visited.insert(p).subset_of(pointer_range()),
        visited.insert(p).len() <= POINTER_SPACE,
{
    lemma_int_range(0, POINTER_SPACE as int);
    lemma_len_subset(visited.insert(p), pointer_range());
}

/// Walks the labels of the name at `off`, following compression pointers
/// and refusing a pointer target already in `visited`. Gives the decoded
/// text (each label lower-cased and followed by a dot) and the offset just
/// past the name where it started: past the first pointer met, or past the
/// root label when no pointer was met.
pub open spec fn walk_name(msg: Seq<u8>, off: int, visited: Set<int>) -> Option<(Seq<u8>, int)>
    decreases POINTER_SPACE - visited.len(), msg.len() - off
    when visited.finite() && visited.subset_of(pointer_range())
{
    if off < 0 || off >= msg.len() {
        None
    } else {
        let len = msg[off];
        if len == 0 {
            Some((seq![], off + 1))
        } else if len >= 192 {
            if off + 1 >= msg.len() {
                None
            } else {
                let p = pointer_target(len, msg[off + 1]);
                if visited.contains(p) {
                    None
                } else {
                    proof { lemma_visit_bound(visited, p); }
                    match walk_name(msg, p, visited.insert(p)) {
                        Some((t, _)) => Some((t, off + 2)),
                        None => None,
                    }
                }
            }
        } else if off + 1 + len > msg.len() {
            None
        } else {
            match walk_name(msg, off + 1 + len, visited) {
                Some((t, c)) => Some((label_text(msg.subrange(off + 1, off + 1 + len)) + t, c)),
                None => None,
            }
        }
    }
}

/// The name at `start` as text bytes ("." for the root) and the offset past it.
pub open spec fn name_text(msg: Seq<u8>, start: int) -> Option<(Seq<u8>, int)> {
    match walk_name(msg, start, Set::empty()) {
        Some((t, c)) => Some((if t.len() == 0 { seq![46u8] } else { t }, c)),
        None => None,
    }
}

/// The decoded name at `start`: absent when the walk fails or its text is
/// not UTF-8.
pub open spec fn name_at(msg: Seq<u8>, start: int) -> Option<(Seq<char>, int)> {
    match name_text(msg, start) {
        Some((t, c)) => if valid_utf8(t) { Some((decode_utf8(t), c)) } else { None },
        None => None,
    }
}

pub open spec fn name_result(r: Option<(String, usize)>) -> Option<(Seq<char>, int)> {
    match r {
        Some((s, c)) => Some((s@, c as int)),
        None => None,
    }
}

/// What the walk from `start` gives, once `text` has been read and the walk
/// stands at a position whose own walk is `rest`.
pub open spec fn walk_join(text: Seq<u8>, rest: Option<(Seq<u8>, int)>, jumped: bool, jump_end: int) -> Option<(Seq<u8>, int)> {
    match rest {
        Some((t, c)) => Some((text + t, if jumped { jump_end } else { c })),
        None => None,
    }
}

/// `String::from_utf8`: a string exactly when the bytes are valid UTF-8,
/// and the string's UTF-8 encoding is then those bytes.
#[verifier::external_body]
fn string_from_utf8(bytes: Vec<u8>) -> (r: Option<String>)
    ensures
        r is Some <==> valid_utf8(bytes@),
        r matches Some(s) ==> encode_utf8(s@) == bytes@,
{
    String::from_utf8(bytes).ok()
}

/// Turns text bytes into a string, when they are UTF-8.
pub(crate) fn text_to_string(bytes: Vec<u8>) -> (r: Option<String>)
    ensures
        r is Some <==> valid_utf8(bytes@),
        r matches Some(s) ==> s@ == decode_utf8(bytes@),
{
    let r = string_from_utf8(bytes);
    proof {
        if r is Some {
            encode_utf8_decode_utf8(r->0@);
        }
    }
    r
}

/// Appends `src[from..to]` lower-cased.
pub(crate) fn push_lower(buf: &mut Vec<u8>, src: &[u8], from: usize, to: usize)
    requires
        from <= to <= src@.len(),
    ensures
        final(buf)@ == old(buf)@ + lower_all(src@.subrange(from as int, to as int)),
{
    let ghost start = buf@;
    let mut i = from;
    while i < to
        invariant
            from <= i <= to <= src@.len(),
            buf@ == start + lower_all(src@.subrange(from as int, i as int)),
        decreases to - i,
    {
        let c = src[i];
        let l = if 65 <= c && c <= 90 { c + 32 } else { c };
        buf.push(l);
        i = i + 1;
        assert(lower_all(src@.subrange(from as int, i as int)) == lower_all(src@.subrange(from as int, i - 1)).push(l));
    }
}

/// Decodes the name at `start`, following compression pointers (each
/// target at most once), and gives it with the offset just past it in the
/// message: past the first pointer when one was followed. Labels are
/// lower-cased; the root name is ".". `None` on a truncated name, a
/// pointer loop or a name that is not UTF-8 (the dots between labels are
/// ASCII, so this is the same as some label not being UTF-8).
pub fn decode_name(msg: &[u8], start: usize) -> (r: Option<(String, usize)>)
    ensures
        name_result(r) == name_at(msg@, start as int),
{
    let mut seen: Vec<bool> = Vec::new();
    while seen.len() < POINTER_SPACE
        invariant
            seen@.len() <= POINTER_SPACE,
            forall|p: int| 0 <= p < seen@.len() ==> !seen@[p],
        decreases POINTER_SPACE - seen@.len(),
    {
        seen.push(false);
    }
    let mut text: Vec<u8> = Vec::new();
    let mut offset: usize = start;
    let mut jumped = false;
    let mut jump_end: usize = start;
    let ghost mut visited: Set<int> = Set::empty();
    assert(walk_join(text@, walk_name(msg@, start as int, visited), jumped, jump_end as int)
        == walk_name(msg@, start as int, Set::empty())) by {
        assert(text@ + Seq::<u8>::empty() == Seq::<u8>::empty());
        match walk_name(msg@, start as int, visited) {
            Some((t, c)) => { assert(text@ + t == t); }
            None => {}
        }
    }
    loop
        invariant
            seen@.len() == POINTER_SPACE,
            visited.finite(),
            visited.subset_of(pointer_range()),
            forall|p: int| 0 <= p < POINTER_SPACE ==> (seen@[p] <==> visited.contains(p)),
            walk_join(text@, walk_name(msg@, offset as int, visited), jumped, jump_end as int)
                == walk_name(msg@, start as int, Set::empty()),
        decreases POINTER_SPACE - visited.len(), msg@.len() - offset,
    {
        if offset >= msg.len() {
            return None;
        }
        let len = msg[offset];
        if len == 0 {
            let consumed = if jumped { jump_end } else { offset + 1 };
            assert(walk_name(msg@, offset as int, visited) == Some((Seq::<u8>::empty(), offset + 1)));
            assert(text@ + Seq::<u8>::empty() == text@);
            let mut bytes = text;
            if bytes.len() == 0 {
                bytes.push(46);
            }
            match text_to_string(bytes) {
                Some(name) => { return Some((name, consumed)); }
                None => { return None; }
            }
        }
        if len >= 192 {
            if offset + 1 >= msg.len() {
                return None;
            }
            let p: usize = (len - 192) as usize * 256 + msg[offset + 1] as usize;
            assert(p == pointer_target(len, msg@[offset + 1]));
            if seen[p] {
                return None;
            }
            proof { lemma_visit_bound(visited, p as int); }
            seen.set(p, true);
            if !jumped {
                jump_end = offset + 2;
                jumped = true;
            }
            proof { visited = visited.insert(p as int); }
            offset = p;
        } else {
            let label_len = len as usize;
            if label_len >= msg.len() - offset {
                return None;
            }
            let ghost before = text@;
            let ghost label = msg@.subrange(offset + 1, offset + 1 + label_len);
            let ghost rest = walk_name(msg@, offset + 1 + label_len, visited);
            push_lower(&mut text, msg, offset + 1, offset + 1 + label_len);
            text.push(46);
            assert(text@ == before + label_text(label));
            proof {
                match rest {
                    Some((t, c)) => { assert(before + (label_text(label) + t) == text@ + t); }
                    None => {}
                }
            }
            offset = offset + 1 + label_len;
        }
    }
}

proof fn lemma_wire_window(m: Seq<u8>, off: int, e: Seq<u8>, k: int)
    requires
        0 <= off,
        off + e.len() <= m.len(),
        m.subrange(off, off + e.len()) == e,
        0 <= k < e.len(),
    ensures
        m[off + k] == e[k],
{
    assert(m.subrange(off, off + e.len())[k] == m[off + k]);
}

/// Walking an uncompressed wire name that sits at `off` reads exactly its
/// labels and its root label.
proof fn lemma_walk_wire(m: Seq<u8>, off: int, visited: Set<int>, s: Seq<u8>, cur: Seq<u8>)
    requires
        visited.finite(),
        visited.subset_of(pointer_range()),
        labels_fit(s, cur),
        0 <= off,
        off + wire_from(s, cur).len() + 1 <= m.len(),
        m.subrange(off, off + wire_from(s, cur).len() + 1) == wire_from(s, cur) + seq![0u8],
    ensures
        walk_name(m, off, visited) == Some((text_from(s, cur), off + wire_from(s, cur).len() + 1)),
    decreases s.len(),
{
    let w = wire_from(s, cur);
    let e = w + seq![0u8];
    let n = cur.len() as int;
    if s.len() == 0 || s[0] == 46 {
        let tail = if s.len() == 0 { Seq::<u8>::empty() } else { wire_from(s.drop_first(), seq![]) };
        assert(w == label_wire(cur) + tail);
        if n > 0 {
            assert(label_wire(cur) == seq![(n % 256) as u8] + cur);
            lemma_wire_window(m, off, e, 0);
            assert(m[off] == n);
            assert(m.subrange(off + 1, off + 1 + n) == cur) by {
                assert forall|k: int| 0 <= k < n implies m.subrange(off + 1, off + 1 + n)[k] == cur[k] by {
                    lemma_wire_window(m, off, e, 1 + k);
                }
            }
            let off2 = off + 1 + n;
            let e2 = tail + seq![0u8];
            assert(m.subrange(off2, off2 + e2.len()) == e2) by {
                assert forall|k: int| 0 <= k < e2.len() implies m.subrange(off2, off2 + e2.len())[k] == e2[k] by {
                    lemma_wire_window(m, off, e, 1 + n + k);
                }
            }
            if s.len() == 0 {
                lemma_wire_window(m, off, e, 1 + n);
                assert(walk_name(m, off2, visited) == Some((Seq::<u8>::empty(), off2 + 1)));
                assert(label_text(cur) + Seq::<u8>::empty() == label_text(cur));
            } else {
                lemma_walk_wire(m, off2, visited, s.drop_first(), seq![]);
            }
        } else {
            assert(w == tail);
            if s.len() == 0 {
                lemma_wire_window(m, off, e, 0);
            } else {
                lemma_walk_wire(m, off, visited, s.drop_first(), seq![]);
                assert(text_from(s, cur) == text_from(s.drop_first(), seq![]));
            }
        }
    } else {
        lemma_walk_wire(m, off, visited, s.drop_first(), cur.push(s[0]));
    }
}

/// Decoding the uncompressed wire form of a name gives back the name's
/// text lower-cased, with a dot after each label ("." when the name has no
/// label), and consumes the whole wire form; this holds whenever every
/// label is shorter than 192 bytes.
pub proof fn lemma_name_roundtrip(s: Seq<u8>)
    requires
        labels_fit(s, seq![]),
    ensures
        name_text(name_wire(s), 0) == Some((
            if text_from(s, seq![]).len() == 0 { seq![46u8] } else { text_from(s, seq![]) },
            name_wire(s).len() as int,
        )),
{
    let m = name_wire(s);
    assert(m.subrange(0, m.len() as int) == m);
    lemma_walk_wire(m, 0, Set::empty(), s, seq![]);
}

// ── Header ──

pub open spec fn header_wire(h: DnsHeader) -> Seq<u8> {
    u16_bytes(h.id) + u16_bytes(h.flags) + u16_bytes(h.qdcount) + u16_bytes(h.ancount)
        + u16_bytes(h.nscount) + u16_bytes(h.arcount)
}

pub open spec fn header_at(msg: Seq<u8>) -> Option<DnsHeader> {
    if msg.len() < 12 {
        None
    } else {
        Some(DnsHeader {
            id: be16(msg[0], msg[1]),
            flags: be16(msg[2], msg[3]),
            qdcount: be16(msg[4], msg[5]),
            ancount: be16(msg[6], msg[7]),
            nscount: be16(msg[8], msg[9]),
            arcount: be16(msg[10], msg[11]),
        })
    }
}

pub fn encode_header(h: &DnsHeader) -> (r: Vec<u8>)
    ensures
        r@ == header_wire(*h),
{
    let mut b: Vec<u8> = Vec::with_capacity(12);
    push_be16(&mut b, h.id);
    push_be16(&mut b, h.flags);
    push_be16(&mut b, h.qdcount);
    push_be16(&mut b, h.ancount);
    push_be16(&mut b, h.nscount);
    push_be16(&mut b, h.arcount);
    b
}

pub fn decode_header(msg: &[u8]) -> (r: Option<DnsHeader>)
    ensures
        r == header_at(msg@),
{
    if msg.len() < 12 {
        return None;
    }
    Some(DnsHeader {
        id: read_be16(msg[0], msg[1]),
        flags: read_be16(msg[2], msg[3]),
        qdcount: read_be16(msg[4], msg[5]),
        ancount: read_be16(msg[6], msg[7]),
        nscount: read_be16(msg[8], msg[9]),
        arcount: read_be16(msg[10], msg[11]),
    })
}

/// Decoding an encoded header gives the header back.
pub proof fn lemma_header_roundtrip(h: DnsHeader)
    ensures
        header_at(header_wire(h)) == Some(h),
{
    let w = header_wire(h);
    assert(w.len() == 12);
    assert(w[0] == u16_bytes(h.id)[0] && w[1] == u16_bytes(h.id)[1]);
    assert(w[2] == u16_bytes(h.flags)[0] && w[3] == u16_bytes(h.flags)[1]);
    assert(w[4] == u16_bytes(h.qdcount)[0] && w[5] == u16_bytes(h.qdcount)[1]);
    assert(w[6] == u16_bytes(h.ancount)[0] && w[7] == u16_bytes(h.ancount)[1]);
    assert(w[8] == u16_bytes(h.nscount)[0] && w[9] == u16_bytes(h.nscount)[1]);
    assert(w[10] == u16_bytes(h.arcount)[0] && w[11] == u16_bytes(h.arcount)[1]);
    lemma_be16_roundtrip(h.id);
    lemma_be16_roundtrip(h.flags);
    lemma_be16_roundtrip(h.qdcount);
    lemma_be16_roundtrip(h.ancount);
    lemma_be16_roundtrip(h.nscount);
    lemma_be16_roundtrip(h.arcount);
}

// ── Question ──

pub open spec fn question_wire(q: QuestionView) -> Seq<u8> {
    name_wire(encode_utf8(q.qname)) + u16_bytes(q.qtype) + u16_bytes(q.qclass)
}

pub open spec fn question_at(msg: Seq<u8>, off: int) -> Option<(QuestionView, int)> {
    match name_at(msg, off) {
        Some((n, o)) => if o + 4 > msg.len() {
            None
        } else {
            Some((QuestionView { qname: n, qtype: be16(msg[o], msg[o + 1]), qclass: be16(msg[o + 2], msg[o + 3]) }, o + 4))
        },
        None => None,
    }
}

pub open spec fn question_result(r: Option<(DnsQuestion, usize)>) -> Option<(QuestionView, int)> {
    match r {
        Some((q, c)) => Some((q@, c as int)),
        None => None,
    }
}

pub fn decode_question(msg: &[u8], offset: usize) -> (r: Option<(DnsQuestion, usize)>)
    ensures
        question_result(r) == question_at(msg@, offset as int),
{
    let (qname, off) = match decode_name(msg, offset) {
        Some(x) => x,
        None => { return None; }
    };
    if off > msg.len() || msg.len() - off < 4 {
        return None;
    }
    let qtype = read_be16(msg[off], msg[off + 1]);
    let qclass = read_be16(msg[off + 2], msg[off + 3]);
    Some((DnsQuestion { qname, qtype, qclass }, off + 4))
}

pub fn encode_question(q: &DnsQuestion) -> (r: Vec<u8>)
    ensures
        r@ == question_wire(q@),
{
    let mut b = encode_name(q.qname.as_str());
    push_be16(&mut b, q.qtype);
    push_be16(&mut b, q.qclass);
    b
}

// ── Resource records ──

pub open spec fn rdata_wire(d: RDataView) -> Seq<u8> {
    match d {
        RDataView::A(ip) => ip,
        RDataView::AAAA(ip) => ip,
        RDataView::NS(n) => name_wire(encode_utf8(n)),
        RDataView::CNAME(n) => name_wire(encode_utf8(n)),
        RDataView::MX { preference, exchange } => u16_bytes(preference) + name_wire(encode_utf8(exchange)),
        RDataView::SOA { mname, rname, serial, refresh, retry, expire, minimum } =>
            name_wire(encode_utf8(mname)) + name_wire(encode_utf8(rname)) + u32_bytes(serial)
                + u32_bytes(refresh) + u32_bytes(retry) + u32_bytes(expire) + u32_bytes(minimum),
        RDataView::Unknown(b) => b,
    }
}

/// Wire form of a record; the RDLENGTH field is the rdata's length modulo 65536.
pub open spec fn rr_wire(rr: RRView) -> Seq<u8> {
    let rd = rdata_wire(rr.rdata);
    name_wire(encode_utf8(rr.name)) + u16_bytes(rr.rtype) + u16_bytes(rr.class) + u32_bytes(rr.ttl)
        + u16_bytes((rd.len() % 65536) as u16) + rd
}

pub open spec fn be32_at(msg: Seq<u8>, o: int) -> u32 {
    be32(msg[o], msg[o + 1], msg[o + 2], msg[o + 3])
}

/// The rdata of type `rtype` occupying `msg[start..start + len]`. Names in
/// it are read from the whole message, so they may point anywhere.
pub open spec fn rdata_at(msg: Seq<u8>, rtype: u16, start: int, len: int) -> Option<RDataView> {
    if rtype == TYPE_A {
        if len < 4 { None } else { Some(RDataView::A(msg.subrange(start, start + 4))) }
    } else if rtype == TYPE_AAAA {
        if len < 16 { None } else { Some(RDataView::AAAA(msg.subrange(start, start + 16))) }
    } else if rtype == TYPE_NS {
        match name_at(msg, start) {
            Some((n, _)) => Some(RDataView::NS(n)),
            None => None,
        }
    } else if rtype == TYPE_CNAME {
        match name_at(msg, start) {
            Some((n, _)) => Some(RDataView::CNAME(n)),
            None => None,
        }
    } else if rtype == TYPE_MX {
        if len < 3 {
            None
        } else {
            match name_at(msg, start + 2) {
                Some((n, _)) => Some(RDataView::MX { preference: be16(msg[start], msg[start + 1]), exchange: n }),
                None => None,
            }
        }
    } else if rtype == TYPE_SOA {
        match name_at(msg, start) {
            Some((mname, o1)) => match name_at(msg, o1) {
                Some((rname, o2)) => if o2 + 20 > start + len {
                    None
                } else {
                    Some(RDataView::SOA {
                        mname,
                        rname,
                        serial: be32_at(msg, o2),
                        refresh: be32_at(msg, o2 + 4),
                        retry: be32_at(msg, o2 + 8),
                        expire: be32_at(msg, o2 + 12),
                        minimum: be32_at(msg, o2 + 16),
                    })
                },
                None => None,
            },
            None => None,
        }
    } else {
        Some(RDataView::Unknown(msg.subrange(start, start + len)))
    }
}

/// The 32-bit big-endian number in the four bytes of `msg` from `o`.
pub open spec fn u32_at(msg: Seq<u8>, o: int) -> int {
    msg[o] as int * 16777216 + msg[o + 1] as int * 65536 + msg[o + 2] as int * 256 + msg[o + 3] as int
}

/// An SOA record's rdata is its two names, then serial, refresh, retry,
/// expire and minimum as big-endian 32-bit numbers at offsets 0, 4, 8, 12
/// and 16 after the second name (RFC 1035 §3.3.13); decoding reads them so.
pub proof fn lemma_soa_fields(msg: Seq<u8>, start: int, len: int)
    ensures
        rdata_at(msg, TYPE_SOA, start, len) matches Some(RDataView::SOA { mname, rname, serial, refresh, retry, expire, minimum }) ==> {
            let o1 = (name_at(msg, start)->0).1;
            let o2 = (name_at(msg, o1)->0).1;
            &&& name_at(msg, start) == Some((mname, o1))
            &&& name_at(msg, o1) == Some((rname, o2))
            &&& o2 + 20 <= start + len
            &&& serial as int == u32_at(msg, o2)
            &&& refresh as int == u32_at(msg, o2 + 4)
            &&& retry as int == u32_at(msg, o2 + 8)
            &&& expire as int == u32_at(msg, o2 + 12)
            &&& minimum as int == u32_at(msg, o2 + 16)
        },
{
    if let Some(RDataView::SOA { mname, rname, serial, refresh, retry, expire, minimum }) = rdata_at(msg, TYPE_SOA, start, len) {
        let o1 = (name_at(msg, start)->0).1;
        let o2 = (name_at(msg, o1)->0).1;
        assert(serial as int == u32_at(msg, o2));
    }
}

pub open spec fn rr_at(msg: Seq<u8>, off: int) -> Option<(RRView, int)> {
    match name_at(msg, off) {
        Some((name, o)) => if o + 10 > msg.len() {
            None
        } else {
            let rtype = be16(msg[o], msg[o + 1]);
            let rdlength = be16(msg[o + 8], msg[o + 9]) as int;
            let rd_start = o + 10;
            if rd_start + rdlength > msg.len() {
                None
            } else {
                match rdata_at(msg, rtype, rd_start, rdlength) {
                    Some(d) => Some((
                        RRView { name, rtype, class: be16(msg[o + 2], msg[o + 3]), ttl: be32_at(msg, o + 4), rdata: d },
                        rd_start + rdlength,
                    )),
                    None => None,
                }
            }
        },
        None => None,
    }
}

pub open spec fn rr_result(r: Option<(DnsRR, usize)>) -> Option<(RRView, int)> {
    match r {
        Some((rr, c)) => Some((rr@, c as int)),
        None => None,
    }
}

pub open spec fn rdata_result(r: Option<RData>) -> Option<RDataView> {
    match r {
        Some(d) => Some(d@),
        None => None,
    }
}

fn encode_rdata(rdata: &RData) -> (r: Vec<u8>)
    ensures
        r@ == rdata_wire(rdata@),
{
    match rdata {
        RData::A(ip) => {
            let mut b: Vec<u8> = Vec::new();
            push_all(&mut b, ip);
            b
        }
        RData::AAAA(ip) => {
            let mut b: Vec<u8> = Vec::new();
            push_all(&mut b, ip);
            b
        }
        RData::NS(n) => encode_name(n.as_str()),
        RData::CNAME(n) => encode_name(n.as_str()),
        RData::MX { preference, exchange } => {
            let mut b: Vec<u8> = Vec::new();
            push_be16(&mut b, *preference);
            let e = encode_name(exchange.as_str());
            push_all(&mut b, e.as_slice());
            b
        }
        RData::SOA { mname, rname, serial, refresh, retry, expire, minimum } => {
            let mut b = encode_name(mname.as_str());
            let r = encode_name(rname.as_str());
            push_all(&mut b, r.as_slice());
            push_be32(&mut b, *serial);
            push_be32(&mut b, *refresh);
            push_be32(&mut b, *retry);
            push_be32(&mut b, *expire);
            push_be32(&mut b, *minimum);
            b
        }
        RData::Unknown(d) => copy_range(d.as_slice(), 0, d.len()),
    }
}

pub fn encode_rr(rr: &DnsRR) -> (r: Vec<u8>)
    ensures
        r@ == rr_wire(rr@),
{
    let mut b = encode_name(rr.name.as_str());
    push_be16(&mut b, rr.rtype);
    push_be16(&mut b, rr.class);
    push_be32(&mut b, rr.ttl);
    let rdata = encode_rdata(&rr.rdata);
    push_be16(&mut b, (rdata.len() % 65536) as u16);
    push_all(&mut b, rdata.as_slice());
    b
}

fn read_be32_at(msg: &[u8], o: usize) -> (r: u32)
    requires
        o + 4 <= msg@.len(),
    ensures
        r == be32_at(msg@, o as int),
{
    read_be32(msg[o], msg[o + 1], msg[o + 2], msg[o + 3])
}

fn decode_rdata(msg: &[u8], rtype: u16, start: usize, len: usize) -> (r: Option<RData>)
    requires
        start + len <= msg@.len(),
    ensures
        rdata_result(r) == rdata_at(msg@, rtype, start as int, len as int),
{
    let total = msg.len();
    assert(start + len <= total);
    let end: usize = start + len;
    if rtype == TYPE_A {
        if len < 4 {
            return None;
        }
        let ip = [msg[start], msg[start + 1], msg[start + 2], msg[start + 3]];
        assert(ip@ =~= msg@.subrange(start as int, start + 4));
        Some(RData::A(ip))
    } else if rtype == TYPE_AAAA {
        if len < 16 {
            return None;
        }
        let ip = [
            msg[start], msg[start + 1], msg[start + 2], msg[start + 3],
            msg[start + 4], msg[start + 5], msg[start + 6], msg[start + 7],
            msg[start + 8], msg[start + 9], msg[start + 10], msg[start + 11],
            msg[start + 12], msg[start + 13], msg[start + 14], msg[start + 15],
        ];
        assert(ip@ =~= msg@.subrange(start as int, start + 16));
        Some(RData::AAAA(ip))
    } else if rtype == TYPE_NS {
        match decode_name(msg, start) {
            Some((n, _)) => Some(RData::NS(n)),
            None => None,
        }
    } else if rtype == TYPE_CNAME {
        match decode_name(msg, start) {
            Some((n, _)) => Some(RData::CNAME(n)),
            None => None,
        }
    } else if rtype == TYPE_MX {
        if len < 3 {
            return None;
        }
        let preference = read_be16(msg[start], msg[start + 1]);
        match decode_name(msg, start + 2) {
            Some((exchange, _)) => Some(RData::MX { preference, exchange }),
            None => None,
        }
    } else if rtype == TYPE_SOA {
        let (mname, o1) = match decode_name(msg, start) {
            Some(x) => x,
            None => { return None; }
        };
        let (rname, o2) = match decode_name(msg, o1) {
            Some(x) => x,
            None => { return None; }
        };
        if o2 > end || end - o2 < 20 {
            return None;
        }
        Some(RData::SOA {
            mname,
            rname,
            serial: read_be32_at(msg, o2),
            refresh: read_be32_at(msg, o2 + 4),
            retry: read_be32_at(msg, o2 + 8),
            expire: read_be32_at(msg, o2 + 12),
            minimum: read_be32_at(msg, o2 + 16),
        })
    } else {
        Some(RData::Unknown(copy_range(msg, start, end)))
    }
}

pub fn decode_rr(msg: &[u8], offset: usize) -> (r: Option<(DnsRR, usize)>)
    ensures
        rr_result(r) == rr_at(msg@, offset as int),
{
    let (name, off) = match decode_name(msg, offset) {
        Some(x) => x,
        None => { return None; }
    };
    if off > msg.len() || msg.len() - off < 10 {
        return None;
    }
    let rtype = read_be16(msg[off], msg[off + 1]);
    let class = read_be16(msg[off + 2], msg[off + 3]);
    let ttl = read_be32_at(msg, off + 4);
    let rdlength = read_be16(msg[off + 8], msg[off + 9]) as usize;
    let rd_start = off + 10;
    if rdlength > msg.len() - rd_start {
        return None;
    }
    match decode_rdata(msg, rtype, rd_start, rdlength) {
        Some(rdata) => Some((DnsRR { name, rtype, class, ttl, rdata }, rd_start + rdlength)),
        None => None,
    }
}

// ── Whole message ──

/// `n` questions read one after another from `off`, and the offset past them.
pub open spec fn questions_at(msg: Seq<u8>, off: int, n: nat) -> Option<(Seq<QuestionView>, int)>
    decreases n,
{
    if n == 0 {
        Some((seq![], off))
    } else {
        match questions_at(msg, off, (n - 1) as nat) {
            Some((qs, o)) => match question_at(msg, o) {
                Some((q, o2)) => Some((qs.push(q), o2)),
                None => None,
            },
            None => None,
        }
    }
}

/// `n` records read one after another from `off`, and the offset past them.
pub open spec fn rrs_at(msg: Seq<u8>, off: int, n: nat) -> Option<(Seq<RRView>, int)>
    decreases n,
{
    if n == 0 {
        Some((seq![], off))
    } else {
        match rrs_at(msg, off, (n - 1) as nat) {
            Some((rs, o)) => match rr_at(msg, o) {
                Some((rr, o2)) => Some((rs.push(rr), o2)),
                None => None,
            },
            None => None,
        }
    }
}

/// The message in `msg`: the header, then as many questions, answers,
/// authority and additional records as its counts announce. Bytes after
/// the last record are ignored.
pub open spec fn message_at(msg: Seq<u8>) -> Option<MessageView> {
    match header_at(msg) {
        Some(h) => match questions_at(msg, 12, h.qdcount as nat) {
            Some((qs, o1)) => match rrs_at(msg, o1, h.ancount as nat) {
                Some((an, o2)) => match rrs_at(msg, o2, h.nscount as nat) {
                    Some((ns, o3)) => match rrs_at(msg, o3, h.arcount as nat) {
                        Some((ar, _)) => Some(MessageView {
                            header: h,
                            questions: qs,
                            answers: an,
                            authorities: ns,
                            additionals: ar,
                        }),
                        None => None,
                    },
                    None => None,
                },
                None => None,
            },
            None => None,
        },
        None => None,
    }
}

pub open spec fn questions_wire(qs: Seq<QuestionView>) -> Seq<u8>
    decreases qs.len(),
{
    if qs.len() == 0 { seq![] } else { questions_wire(qs.drop_last()) + question_wire(qs.last()) }
}

pub open spec fn rrs_wire(rs: Seq<RRView>) -> Seq<u8>
    decreases rs.len(),
{
    if rs.len() == 0 { seq![] } else { rrs_wire(rs.drop_last()) + rr_wire(rs.last()) }
}

/// Wire form of a message: the header as it stands (its counts are not
/// recomputed), then every question and record in order.
pub open spec fn message_wire(m: MessageView) -> Seq<u8> {
    header_wire(m.header) + questions_wire(m.questions) + rrs_wire(m.answers) + rrs_wire(m.authorities)
        + rrs_wire(m.additionals)
}

pub open spec fn message_result(r: Option<DnsMessage>) -> Option<MessageView> {
    match r {
        Some(m) => Some(m@),
        None => None,
    }
}

fn decode_questions(msg: &[u8], off: usize, n: u16) -> (r: Option<(Vec<DnsQuestion>, usize)>)
    ensures
        match r {
            Some((qs, o)) => questions_at(msg@, off as int, n as nat) == Some((questions_view(qs@), o as int)),
            None => questions_at(msg@, off as int, n as nat) is None,
        },
{
    let mut out: Vec<DnsQuestion> = Vec::new();
    let mut o = off;
    let mut k: u16 = 0;
    while k < n
        invariant
            k <= n,
            questions_at(msg@, off as int, k as nat) == Some((questions_view(out@), o as int)),
        decreases n - k,
    {
        let (q, o2) = match decode_question(msg, o) {
            Some(x) => x,
            None => {
                assert(questions_at(msg@, off as int, (k + 1) as nat) is None);
                proof { lemma_questions_none_grows(msg@, off as int, (k + 1) as nat, n as nat); }
                return None;
            }
        };
        let ghost before = out@;
        out.push(q);
        assert(questions_view(out@) == questions_view(before).push(q@));
        o = o2;
        k = k + 1;
    }
    Some((out, o))
}

proof fn lemma_questions_none_grows(msg: Seq<u8>, off: int, k: nat, n: nat)
    requires
        k <= n,
        questions_at(msg, off, k) is None,
    ensures
        questions_at(msg, off, n) is None,
    decreases n - k,
{
    if k < n {
        lemma_questions_none_grows(msg, off, k + 1, n);
    }
}

proof fn lemma_rrs_none_grows(msg: Seq<u8>, off: int, k: nat, n: nat)
    requires
        k <= n,
        rrs_at(msg, off, k) is None,
    ensures
        rrs_at(msg, off, n) is None,
    decreases n - k,
{
    if k < n {
        lemma_rrs_none_grows(msg, off, k + 1, n);
    }
}

fn decode_rrs(msg: &[u8], off: usize, n: u16) -> (r: Option<(Vec<DnsRR>, usize)>)
    ensures
        match r {
            Some((rs, o)) => rrs_at(msg@, off as int, n as nat) == Some((rrs_view(rs@), o as int)),
            None => rrs_at(msg@, off as int, n as nat) is None,
        },
{
    let mut out: Vec<DnsRR> = Vec::new();
    let mut o = off;
    let mut k: u16 = 0;
    while k < n
        invariant
            k <= n,
            rrs_at(msg@, off as int, k as nat) == Some((rrs_view(out@), o as int)),
        decreases n - k,
    {
        let (rr, o2) = match decode_rr(msg, o) {
            Some(x) => x,
            None => {
                assert(rrs_at(msg@, off as int, (k + 1) as nat) is None);
                proof { lemma_rrs_none_grows(msg@, off as int, (k + 1) as nat, n as nat); }
                return None;
            }
        };
        let ghost before = out@;
        out.push(rr);
        assert(rrs_view(out@) == rrs_view(before).push(rr@));
        o = o2;
        k = k + 1;
    }
    Some((out, o))
}

pub fn decode_message(msg: &[u8]) -> (r: Option<DnsMessage>)
    ensures
        message_result(r) == message_at(msg@),
{
    let header = match decode_header(msg) {
        Some(h) => h,
        None => { return None; }
    };
    let (questions, o1) = match decode_questions(msg, 12, header.qdcount) {
        Some(x) => x,
        None => { return None; }
    };
    let (answers, o2) = match decode_rrs(msg, o1, header.ancount) {
        Some(x) => x,
        None => { return None; }
    };
    let (authorities, o3) = match decode_rrs(msg, o2, header.nscount) {
        Some(x) => x,
        None => { return None; }
    };
    let (additionals, _) = match decode_rrs(msg, o3, header.arcount) {
        Some(x) => x,
        None => { return None; }
    };
    Some(DnsMessage { header, questions, answers, authorities, additionals })
}

pub fn encode_message(msg: &DnsMessage) -> (r: Vec<u8>)
    ensures
        r@ == message_wire(msg@),
{
    let mut b = encode_header(&msg.header);
    let mut i: usize = 0;
    let ghost base = b@;
    while i < msg.questions.len()
        invariant
            i <= msg.questions@.len(),
            b@ == base + questions_wire(questions_view(msg.questions@.subrange(0, i as int))),
        decreases msg.questions@.len() - i,
    {
        let q = encode_question(&msg.questions[i]);
        push_all(&mut b, q.as_slice());
        i = i + 1;
        let ghost qs = questions_view(msg.questions@.subrange(0, i as int));
        assert(qs.drop_last() == questions_view(msg.questions@.subrange(0, i - 1)));
    }
    assert(msg.questions@.subrange(0, i as int) == msg.questions@);
    push_rrs(&mut b, &msg.answers);
    push_rrs(&mut b, &msg.authorities);
    push_rrs(&mut b, &msg.additionals);
    b
}

fn push_rrs(b: &mut Vec<u8>, rrs: &Vec<DnsRR>)
    ensures
        final(b)@ == old(b)@ + rrs_wire(rrs_view(rrs@)),
{
    let ghost base = b@;
    let mut i: usize = 0;
    assert(rrs_wire(rrs_view(rrs@.subrange(0, 0))) == Seq::<u8>::empty());
    while i < rrs.len()
        invariant
            i <= rrs@.len(),
            b@ == base + rrs_wire(rrs_view(rrs@.subrange(0, i as int))),
        decreases rrs@.len() - i,
    {
        let w = encode_rr(&rrs[i]);
        push_all(b, w.as_slice());
        i = i + 1;
        let ghost rs = rrs_view(rrs@.subrange(0, i as int));
        assert(rs.drop_last() == rrs_view(rrs@.subrange(0, i - 1)));
    }
    assert(rrs@.subrange(0, i as int) == rrs@);
}

// ── Round trip ──

/// A name that decoding its own wire form gives back unchanged: every label
/// shorter than 192 bytes, already lower-case, each followed by one dot and
/// no empty label; the root name is ".".
pub open spec fn canonical_name(n: Seq<char>) -> bool {
    let b = encode_utf8(n);
    &&& labels_fit(b, seq![])
    &&& if text_from(b, seq![]).len() == 0 { b == seq![46u8] } else { text_from(b, seq![]) == b }
}

/// Rdata of a variant that a record of type `rtype` is decoded into, whose
/// names are canonical and whose addresses have their lengths.
pub open spec fn rdata_fits(rtype: u16, d: RDataView) -> bool {
    match d {
        RDataView::A(ip) => rtype == TYPE_A && ip.len() == 4,
        RDataView::AAAA(ip) => rtype == TYPE_AAAA && ip.len() == 16,
        RDataView::NS(n) => rtype == TYPE_NS && canonical_name(n),
        RDataView::CNAME(n) => rtype == TYPE_CNAME && canonical_name(n),
        RDataView::MX { preference, exchange } => rtype == TYPE_MX && canonical_name(exchange),
        RDataView::SOA { mname, rname, serial, refresh, retry, expire, minimum } =>
            rtype == TYPE_SOA && canonical_name(mname) && canonical_name(rname),
        RDataView::Unknown(b) => rtype != TYPE_A && rtype != TYPE_AAAA && rtype != TYPE_NS
            && rtype != TYPE_CNAME && rtype != TYPE_MX && rtype != TYPE_SOA,
    }
}

pub open spec fn canonical_rr(rr: RRView) -> bool {
    &&& canonical_name(rr.name)
    &&& rdata_fits(rr.rtype, rr.rdata)
    &&& rdata_wire(rr.rdata).len() < 65536
}

/// A message whose counts are the lengths of its sections and whose names
/// and records are canonical.
pub open spec fn canonical_message(m: MessageView) -> bool {
    &&& m.header.qdcount == m.questions.len()
    &&& m.header.ancount == m.answers.len()
    &&& m.header.nscount == m.authorities.len()
    &&& m.header.arcount == m.additionals.len()
    &&& forall|i: int| 0 <= i < m.questions.len() ==> canonical_name(#[trigger] m.questions[i].qname)
    &&& forall|i: int| 0 <= i < m.answers.len() ==> canonical_rr(#[trigger] m.answers[i])
    &&& forall|i: int| 0 <= i < m.authorities.len() ==> canonical_rr(#[trigger] m.authorities[i])
    &&& forall|i: int| 0 <= i < m.additionals.len() ==> canonical_rr(#[trigger] m.additionals[i])
}

/// `w` sits in `m` at `off`.
pub open spec fn sits_at(m: Seq<u8>, off: int, w: Seq<u8>) -> bool {
    0 <= off && off + w.len() <= m.len() && m.subrange(off, off + w.len()) == w
}

proof fn lemma_sits_split(m: Seq<u8>, off: int, a: Seq<u8>, b: Seq<u8>)
    requires
        sits_at(m, off, a + b),
    ensures
        sits_at(m, off, a),
        sits_at(m, off + a.len(), b),
{
    assert forall|k: int| 0 <= k < a.len() implies m.subrange(off, off + a.len())[k] == a[k] by {
        lemma_wire_window(m, off, a + b, k);
    }
    assert forall|k: int| 0 <= k < b.len() implies m.subrange(off + a.len(), off + a.len() + b.len())[k] == b[k] by {
        lemma_wire_window(m, off, a + b, a.len() + k);
    }
    assert(m.subrange(off, off + a.len()) =~= a);
    assert(m.subrange(off + a.len(), off + a.len() + b.len()) =~= b);
}

proof fn lemma_sits_u16(m: Seq<u8>, off: int, v: u16)
    requires
        sits_at(m, off, u16_bytes(v)),
    ensures
        be16(m[off], m[off + 1]) == v,
{
    lemma_wire_window(m, off, u16_bytes(v), 0);
    lemma_wire_window(m, off, u16_bytes(v), 1);
    lemma_be16_roundtrip(v);
}

proof fn lemma_sits_u32(m: Seq<u8>, off: int, v: u32)
    requires
        sits_at(m, off, u32_bytes(v)),
    ensures
        be32_at(m, off) == v,
{
    lemma_wire_window(m, off, u32_bytes(v), 0);
    lemma_wire_window(m, off, u32_bytes(v), 1);
    lemma_wire_window(m, off, u32_bytes(v), 2);
    lemma_wire_window(m, off, u32_bytes(v), 3);
    lemma_be32_roundtrip(v);
}

proof fn lemma_name_at_wire(m: Seq<u8>, off: int, n: Seq<char>)
    requires
        canonical_name(n),
        sits_at(m, off, name_wire(encode_utf8(n))),
    ensures
        name_at(m, off) == Some((n, off + name_wire(encode_utf8(n)).len())),
{
    let b = encode_utf8(n);
    lemma_walk_wire(m, off, Set::empty(), b, seq![]);
    encode_utf8_valid_utf8(n);
    encode_utf8_decode_utf8(n);
}

proof fn lemma_question_at_wire(m: Seq<u8>, off: int, q: QuestionView)
    requires
        canonical_name(q.qname),
        sits_at(m, off, question_wire(q)),
    ensures
        question_at(m, off) == Some((q, off + question_wire(q).len())),
{
    let nw = name_wire(encode_utf8(q.qname));
    lemma_sits_split(m, off, nw + u16_bytes(q.qtype), u16_bytes(q.qclass));
    lemma_sits_split(m, off, nw, u16_bytes(q.qtype));
    lemma_name_at_wire(m, off, q.qname);
    lemma_sits_u16(m, off + nw.len(), q.qtype);
    lemma_sits_u16(m, off + nw.len() + 2, q.qclass);
}

proof fn lemma_rdata_at_wire(m: Seq<u8>, start: int, rtype: u16, d: RDataView)
    requires
        rdata_fits(rtype, d),
        sits_at(m, start, rdata_wire(d)),
    ensures
        rdata_at(m, rtype, start, rdata_wire(d).len() as int) == Some(d),
{
    match d {
        RDataView::A(ip) => {}
        RDataView::AAAA(ip) => {}
        RDataView::NS(n) => { lemma_name_at_wire(m, start, n); }
        RDataView::CNAME(n) => { lemma_name_at_wire(m, start, n); }
        RDataView::MX { preference, exchange } => {
            lemma_sits_split(m, start, u16_bytes(preference), name_wire(encode_utf8(exchange)));
            lemma_sits_u16(m, start, preference);
            lemma_name_at_wire(m, start + 2, exchange);
        }
        RDataView::SOA { mname, rname, serial, refresh, retry, expire, minimum } => {
            let wm = name_wire(encode_utf8(mname));
            let wr = name_wire(encode_utf8(rname));
            let o2 = start + wm.len() + wr.len();
            lemma_sits_split(m, start, wm + wr + u32_bytes(serial) + u32_bytes(refresh) + u32_bytes(retry) + u32_bytes(expire), u32_bytes(minimum));
            lemma_sits_split(m, start, wm + wr + u32_bytes(serial) + u32_bytes(refresh) + u32_bytes(retry), u32_bytes(expire));
            lemma_sits_split(m, start, wm + wr + u32_bytes(serial) + u32_bytes(refresh), u32_bytes(retry));
            lemma_sits_split(m, start, wm + wr + u32_bytes(serial), u32_bytes(refresh));
            lemma_sits_split(m, start, wm + wr, u32_bytes(serial));
            lemma_sits_split(m, start, wm, wr);
            lemma_name_at_wire(m, start, mname);
            lemma_name_at_wire(m, start + wm.len(), rname);
            lemma_sits_u32(m, o2, serial);
            lemma_sits_u32(m, o2 + 4, refresh);
            lemma_sits_u32(m, o2 + 8, retry);
            lemma_sits_u32(m, o2 + 12, expire);
            lemma_sits_u32(m, o2 + 16, minimum);
        }
        RDataView::Unknown(b) => {}
    }
}

proof fn lemma_rr_at_wire(m: Seq<u8>, off: int, rr: RRView)
    requires
        canonical_rr(rr),
        sits_at(m, off, rr_wire(rr)),
    ensures
        rr_at(m, off) == Some((rr, off + rr_wire(rr).len())),
{
    let nw = name_wire(encode_utf8(rr.name));
    let rd = rdata_wire(rr.rdata);
    let lw = u16_bytes((rd.len() % 65536) as u16);
    let o = off + nw.len();
    lemma_sits_split(m, off, nw + u16_bytes(rr.rtype) + u16_bytes(rr.class) + u32_bytes(rr.ttl) + lw, rd);
    lemma_sits_split(m, off, nw + u16_bytes(rr.rtype) + u16_bytes(rr.class) + u32_bytes(rr.ttl), lw);
    lemma_sits_split(m, off, nw + u16_bytes(rr.rtype) + u16_bytes(rr.class), u32_bytes(rr.ttl));
    lemma_sits_split(m, off, nw + u16_bytes(rr.rtype), u16_bytes(rr.class));
    lemma_sits_split(m, off, nw, u16_bytes(rr.rtype));
    lemma_name_at_wire(m, off, rr.name);
    lemma_sits_u16(m, o, rr.rtype);
    lemma_sits_u16(m, o + 2, rr.class);
    lemma_sits_u32(m, o + 4, rr.ttl);
    lemma_sits_u16(m, o + 8, (rd.len() % 65536) as u16);
    lemma_rdata_at_wire(m, o + 10, rr.rtype, rr.rdata);
}

proof fn lemma_questions_at_wire(m: Seq<u8>, off: int, qs: Seq<QuestionView>)
    requires
        forall|i: int| 0 <= i < qs.len() ==> canonical_name(#[trigger] qs[i].qname),
        sits_at(m, off, questions_wire(qs)),
    ensures
        questions_at(m, off, qs.len()) == Some((qs, off + questions_wire(qs).len())),
    decreases qs.len(),
{
    if qs.len() > 0 {
        let init = qs.drop_last();
        lemma_sits_split(m, off, questions_wire(init), question_wire(qs.last()));
        assert forall|i: int| 0 <= i < init.len() implies canonical_name(#[trigger] init[i].qname) by {
            assert(init[i] == qs[i]);
        }
        lemma_questions_at_wire(m, off, init);
        assert(canonical_name(qs[qs.len() - 1].qname));
        lemma_question_at_wire(m, off + questions_wire(init).len(), qs.last());
        assert(init.push(qs.last()) =~= qs);
    }
}

proof fn lemma_rrs_at_wire(m: Seq<u8>, off: int, rs: Seq<RRView>)
    requires
        forall|i: int| 0 <= i < rs.len() ==> canonical_rr(#[trigger] rs[i]),
        sits_at(m, off, rrs_wire(rs)),
    ensures
        rrs_at(m, off, rs.len()) == Some((rs, off + rrs_wire(rs).len())),
    decreases rs.len(),
{
    if rs.len() > 0 {
        let init = rs.drop_last();
        lemma_sits_split(m, off, rrs_wire(init), rr_wire(rs.last()));
        assert forall|i: int| 0 <= i < init.len() implies canonical_rr(#[trigger] init[i]) by {
            assert(init[i] == rs[i]);
        }
        lemma_rrs_at_wire(m, off, init);
        assert(canonical_rr(rs[rs.len() - 1]));
        lemma_rr_at_wire(m, off + rrs_wire(init).len(), rs.last());
        assert(init.push(rs.last()) =~= rs);
    }
}

proof fn lemma_sections(m: Seq<u8>, hw: Seq<u8>, qw: Seq<u8>, aw: Seq<u8>, nw: Seq<u8>, dw: Seq<u8>)
    requires
        m == hw + qw + aw + nw + dw,
    ensures
        sits_at(m, 0, hw),
        sits_at(m, hw.len() as int, qw),
        sits_at(m, hw.len() + qw.len() as int, aw),
        sits_at(m, hw.len() + qw.len() + aw.len() as int, nw),
        sits_at(m, hw.len() + qw.len() + aw.len() + nw.len() as int, dw),
{
    assert(m.subrange(0, m.len() as int) =~= m);
    lemma_sits_split(m, 0, hw + qw + aw + nw, dw);
    lemma_sits_split(m, 0, hw + qw + aw, nw);
    lemma_sits_split(m, 0, hw + qw, aw);
    lemma_sits_split(m, 0, hw, qw);
}

proof fn lemma_message_at_parts(m: Seq<u8>, mv: MessageView, o1: int, o2: int, o3: int, o4: int)
    requires
        header_at(m) == Some(mv.header),
        questions_at(m, 12, mv.header.qdcount as nat) == Some((mv.questions, o1)),
        rrs_at(m, o1, mv.header.ancount as nat) == Some((mv.answers, o2)),
        rrs_at(m, o2, mv.header.nscount as nat) == Some((mv.authorities, o3)),
        rrs_at(m, o3, mv.header.arcount as nat) == Some((mv.additionals, o4)),
    ensures
        message_at(m) == Some(mv),
{
}

/// Decoding an encoded message gives the message back, whenever its counts
/// match its sections and its names and records are canonical.
pub proof fn lemma_message_roundtrip(mv: MessageView)
    requires
        canonical_message(mv),
    ensures
        message_at(message_wire(mv)) == Some(mv),
{
    let m = message_wire(mv);
    let hw = header_wire(mv.header);
    let qw = questions_wire(mv.questions);
    let aw = rrs_wire(mv.answers);
    let nw = rrs_wire(mv.authorities);
    let dw = rrs_wire(mv.additionals);
    assert(hw.len() == 12);
    let o1 = 12 + qw.len() as int;
    let o2 = o1 + aw.len() as int;
    let o3 = o2 + nw.len() as int;
    lemma_sections(m, hw, qw, aw, nw, dw);
    assert(header_at(m) == Some(mv.header)) by {
        lemma_header_roundtrip(mv.header);
        assert forall|k: int| 0 <= k < 12 implies m[k] == hw[k] by {
            lemma_wire_window(m, 0, hw, k);
        }
    }
    lemma_questions_at_wire(m, 12, mv.questions);
    lemma_rrs_at_wire(m, o1, mv.answers);
    lemma_rrs_at_wire(m, o2, mv.authorities);
    lemma_rrs_at_wire(m, o3, mv.additionals);
    lemma_message_at_parts(m, mv, o1, o2, o3, o3 + dw.len());
}

// ── Copies and comparison with contracts ──

fn string_eq(a: &String, b: &String) -> (r: bool)
    ensures
        r == (a@ == b@),
{
    *a == *b
}

/// Whether two rdata are the same value.
pub fn rdata_eq(a: &RData, b: &RData) -> (r: bool)
    ensures
        r == (a@ == b@),
{
    match (a, b) {
        (RData::A(x), RData::A(y)) => bytes_eq(x, y),
        (RData::AAAA(x), RData::AAAA(y)) => bytes_eq(x, y),
        (RData::NS(x), RData::NS(y)) => string_eq(x, y),
        (RData::CNAME(x), RData::CNAME(y)) => string_eq(x, y),
        (RData::MX { preference: p1, exchange: e1 }, RData::MX { preference: p2, exchange: e2 }) =>
            *p1 == *p2 && string_eq(e1, e2),
        (
            RData::SOA { mname: m1, rname: r1, serial: s1, refresh: f1, retry: t1, expire: x1, minimum: n1 },
            RData::SOA { mname: m2, rname: r2, serial: s2, refresh: f2, retry: t2, expire: x2, minimum: n2 },
        ) => string_eq(m1, m2) && string_eq(r1, r2) && *s1 == *s2 && *f1 == *f2 && *t1 == *t2
            && *x1 == *x2 && *n1 == *n2,
        (RData::Unknown(x), RData::Unknown(y)) => bytes_eq(x.as_slice(), y.as_slice()),
        _ => false,
    }
}

/// A copy of an rdata value.
pub fn copy_rdata(d: &RData) -> (r: RData)
    ensures
        r@ == d@,
{
    match d {
        RData::A(ip) => {
            let c = [ip[0], ip[1], ip[2], ip[3]];
            assert(c@ =~= ip@);
            RData::A(c)
        }
        RData::AAAA(ip) => {
            let c = [
                ip[0], ip[1], ip[2], ip[3], ip[4], ip[5], ip[6], ip[7],
                ip[8], ip[9], ip[10], ip[11], ip[12], ip[13], ip[14], ip[15],
            ];
            assert(c@ =~= ip@);
            RData::AAAA(c)
        }
        RData::NS(n) => RData::NS(n.clone()),
        RData::CNAME(n) => RData::CNAME(n.clone()),
        RData::MX { preference, exchange } => RData::MX { preference: *preference, exchange: exchange.clone() },
        RData::SOA { mname, rname, serial, refresh, retry, expire, minimum } => RData::SOA {
            mname: mname.clone(),
            rname: rname.clone(),
            serial: *serial,
            refresh: *refresh,
            retry: *retry,
            expire: *expire,
            minimum: *minimum,
        },
        RData::Unknown(v) => {
            let c = copy_range(v.as_slice(), 0, v.len());
            assert(c@ =~= v@);
            RData::Unknown(c)
        }
    }
}

/// A copy of a record.
pub fn copy_rr(rr: &DnsRR) -> (r: DnsRR)
    ensures
        r@ == rr@,
{
    DnsRR { name: rr.name.clone(), rtype: rr.rtype, class: rr.class, ttl: rr.ttl, rdata: copy_rdata(&rr.rdata) }
}

/// A copy of a question.
pub fn copy_question(q: &DnsQuestion) -> (r: DnsQuestion)
    ensures
        r@ == q@,
{
    DnsQuestion { qname: q.qname.clone(), qtype: q.qtype, qclass: q.qclass }
}

} // verus!
