//! HTTP helpers of the web server: header lookup, keep-alive and Basic
//! authentication decisions, validators, byte ranges, compression choice,
//! hop-by-hop headers and the fixed error responses.

use vstd::prelude::*;
use vstd::string::StringExecFns;
use vstd::utf8::{valid_utf8, decode_utf8, encode_utf8, encode_utf8_decode_utf8};
use base64::engine::general_purpose::STANDARD as BASE64_STANDARD;
use base64::Engine;
use std::io::Write;
use flate2::write::GzEncoder;
use flate2::Compression;
use crate::dns_message::{lower_all, text_to_string};
use crate::text::{
    chars_of, trim, trim_start, trim_end, is_ws, trim_bounds, parse_uint, parse_uint_range, hex_chars, dec_chars,
    push_radix, digit_value, digits_value, all_digits, lemma_radix_roundtrip, lemma_encode_append, lemma_encode_ascii,
};
use crate::util::{bytes_eq, copy_range};

verus! {

#[verifier::external_type_specification]
#[verifier::external_body]
pub struct ExIoError(std::io::Error);

#[derive(Debug)]
pub enum ProxyError {
    Io(std::io::Error),
    HttpInvalidRequest(String),
}

/// A request or response header: its name and raw value bytes.
#[derive(Debug, Clone)]
pub struct Header {
    pub name: String,
    pub value: Vec<u8>,
}

pub struct HeaderView {
    pub name: Seq<char>,
    pub value: Seq<u8>,
}

impl View for Header {
    type V = HeaderView;

    open spec fn view(&self) -> HeaderView {
        HeaderView { name: self.name@, value: self.value@ }
    }
}

pub open spec fn headers_view(hs: Seq<Header>) -> Seq<HeaderView> {
    hs.map_values(|h: Header| h@)
}

/// Two strings equal up to ASCII case (`eq_ignore_ascii_case`, which
/// compares bytes).
pub open spec fn same_ignoring_case(a: Seq<char>, b: Seq<char>) -> bool {
    lower_all(encode_utf8(a)) == lower_all(encode_utf8(b))
}

/// Byte-wise comparison up to ASCII case.
pub fn bytes_eq_ignore_case(a: &[u8], b: &[u8]) -> (r: bool)
    ensures
        r == (lower_all(a@) == lower_all(b@)),
{
    if a.len() != b.len() {
        assert(lower_all(a@).len() != lower_all(b@).len());
        return false;
    }
    let mut i: usize = 0;
    while i < a.len()
        invariant
            a@.len() == b@.len(),
            i <= a@.len(),
            forall|q: int| 0 <= q < i ==> lower_all(a@)[q] == lower_all(b@)[q],
        decreases a@.len() - i,
    {
        let x = a[i];
        let y = b[i];
        let lx = if 65 <= x && x <= 90 { x + 32 } else { x };
        let ly = if 65 <= y && y <= 90 { y + 32 } else { y };
        if lx != ly {
            assert(lower_all(a@)[i as int] != lower_all(b@)[i as int]);
            return false;
        }
        i = i + 1;
    }
    assert(lower_all(a@) =~= lower_all(b@));
    true
}

pub fn str_eq_ignore_case(a: &str, b: &str) -> (r: bool)
    ensures
        r == same_ignoring_case(a@, b@),
{
    bytes_eq_ignore_case(a.as_bytes(), b.as_bytes())
}

// ── Header lookup ──

/// Index of the first header named `name` (up to ASCII case), or -1.
pub open spec fn first_header(hs: Seq<HeaderView>, name: Seq<char>) -> int
    decreases hs.len(),
{
    if hs.len() == 0 {
        -1
    } else if same_ignoring_case(hs[0].name, name) {
        0
    } else {
        let j = first_header(hs.drop_first(), name);
        if j < 0 { -1 } else { j + 1 }
    }
}

proof fn lemma_first_header(hs: Seq<HeaderView>, name: Seq<char>, j: int)
    requires
        0 <= j <= hs.len(),
        forall|q: int| 0 <= q < j ==> !same_ignoring_case(#[trigger] hs[q].name, name),
    ensures
        j < hs.len() && same_ignoring_case(hs[j].name, name) ==> first_header(hs, name) == j,
        j == hs.len() ==> first_header(hs, name) == -1,
    decreases j,
{
    if j > 0 {
        let t = hs.drop_first();
        assert forall|q: int| 0 <= q < j - 1 implies !same_ignoring_case(#[trigger] t[q].name, name) by {
            assert(t[q] == hs[q + 1]);
        }
        lemma_first_header(t, name, j - 1);
    }
}

/// The value of the first header named `name`, when it is UTF-8.
pub open spec fn header_value(hs: Seq<HeaderView>, name: Seq<char>) -> Option<Seq<char>> {
    let i = first_header(hs, name);
    if i < 0 {
        None
    } else if valid_utf8(hs[i].value) {
        Some(decode_utf8(hs[i].value))
    } else {
        None
    }
}

pub open spec fn string_opt(r: Option<String>) -> Option<Seq<char>> {
    match r {
        Some(s) => Some(s@),
        None => None,
    }
}

/// The value of the first header whose name is `name` up to ASCII case;
/// `None` when there is none or its value is not UTF-8.
pub fn get_header(headers: &[Header], name: &str) -> (r: Option<String>)
    ensures
        string_opt(r) == header_value(headers_view(headers@), name@),
{
    let ghost hs = headers_view(headers@);
    let mut i: usize = 0;
    while i < headers.len()
        invariant
            hs == headers_view(headers@),
            i <= headers@.len(),
            forall|q: int| 0 <= q < i ==> !same_ignoring_case(#[trigger] hs[q].name, name@),
        decreases headers@.len() - i,
    {
        if str_eq_ignore_case(headers[i].name.as_str(), name) {
            proof { lemma_first_header(hs, name@, i as int); }
            let v = copy_range(headers[i].value.as_slice(), 0, headers[i].value.len());
            assert(v@ =~= hs[i as int].value);
            return text_to_string(v);
        }
        i = i + 1;
    }
    proof { lemma_first_header(hs, name@, i as int); }
    None
}

pub open spec fn connection_chars() -> Seq<char> {
    seq!['C', 'o', 'n', 'n', 'e', 'c', 't', 'i', 'o', 'n']
}

pub open spec fn close_chars() -> Seq<char> {
    seq!['c', 'l', 'o', 's', 'e']
}

/// The connection is kept open unless a Connection header says "close".
pub fn wants_keep_alive(headers: &[Header]) -> (r: bool)
    ensures
        r == match header_value(headers_view(headers@), connection_chars()) {
            Some(v) => !same_ignoring_case(v, close_chars()),
            None => true,
        },
{
    proof {
        reveal_strlit("Connection");
        reveal_strlit("close");
    }
    let name = "Connection";
    assert(name@ =~= connection_chars());
    match get_header(headers, name) {
        Some(v) => {
            let c = "close";
            assert(c@ =~= close_chars());
            !str_eq_ignore_case(v.as_str(), c)
        }
        None => true,
    }
}

// ── Basic authentication ──

/// Equality of two byte strings in time that depends on their lengths only.
pub fn ct_eq(a: &[u8], b: &[u8]) -> (r: bool)
    ensures
        r == (a@ == b@),
{
    if a.len() != b.len() {
        return false;
    }
    let mut diff: u8 = 0;
    let mut i: usize = 0;
    assert(a@.subrange(0, 0) =~= b@.subrange(0, 0));
    while i < a.len()
        invariant
            a@.len() == b@.len(),
            i <= a@.len(),
            (diff == 0) == (a@.subrange(0, i as int) == b@.subrange(0, i as int)),
        decreases a@.len() - i,
    {
        let x = a[i];
        let y = b[i];
        let d = diff;
        assert(((d | (x ^ y)) == 0u8) == (d == 0u8 && x == y)) by (bit_vector);
        diff = d | (x ^ y);
        assert(a@.subrange(0, i + 1) == a@.subrange(0, i as int).push(x));
        assert(b@.subrange(0, i + 1) == b@.subrange(0, i as int).push(y));
        proof {
            if a@.subrange(0, i + 1) == b@.subrange(0, i + 1) {
                assert(a@.subrange(0, i + 1)[i as int] == b@.subrange(0, i + 1)[i as int]);
                assert(a@.subrange(0, i as int) =~= a@.subrange(0, i + 1).subrange(0, i as int));
                assert(b@.subrange(0, i as int) =~= b@.subrange(0, i + 1).subrange(0, i as int));
            }
        }
        i = i + 1;
    }
    assert(a@.subrange(0, i as int) == a@);
    assert(b@.subrange(0, i as int) == b@);
    diff == 0
}

/// What base64's STANDARD engine (`Engine::decode`) gives for `input`: the
/// bytes it encodes when it is valid padded standard base64. It depends on
/// the input alone.
pub uninterp spec fn base64_standard_decode(input: Seq<u8>) -> Option<Seq<u8>>;

/// `base64::engine::general_purpose::STANDARD.decode`; its result is named
/// by `base64_standard_decode`, and its error is mapped to `None`.
#[verifier::external_body]
fn base64_decode(input: &[u8]) -> (r: Option<Vec<u8>>)
    ensures
        match r {
            Some(v) => base64_standard_decode(input@) == Some(v@),
            None => base64_standard_decode(input@) is None,
        },
{
    BASE64_STANDARD.decode(input).ok()
}

pub open spec fn bytes_opt(r: Option<Vec<u8>>) -> Option<Seq<u8>> {
    match r {
        Some(v) => Some(v@),
        None => None,
    }
}

/// Whether decoded Basic credentials are the expected "user:password".
pub fn credentials_match(decoded: Option<Vec<u8>>, expected: &str) -> (r: bool)
    ensures
        r == match bytes_opt(decoded) {
            Some(d) => d == encode_utf8(expected@),
            None => false,
        },
{
    match decoded {
        Some(d) => ct_eq(d.as_slice(), expected.as_bytes()),
        None => false,
    }
}

pub open spec fn authorization_chars() -> Seq<char> {
    seq!['A', 'u', 't', 'h', 'o', 'r', 'i', 'z', 'a', 't', 'i', 'o', 'n']
}

pub open spec fn basic_prefix() -> Seq<u8> {
    seq![66u8, 97u8, 115u8, 105u8, 99u8, 32u8]
}

/// The encoded credentials of an Authorization value "Basic <base64>".
pub open spec fn basic_credentials(v: Seq<char>) -> Option<Seq<u8>> {
    let b = encode_utf8(v);
    if b.len() >= 6 && b.subrange(0, 6) == basic_prefix() {
        Some(b.subrange(6, b.len() as int))
    } else {
        None
    }
}

/// The request carries Basic credentials whose base64 decodes to `expected`.
pub open spec fn auth_ok(hs: Seq<HeaderView>, expected: Seq<char>) -> bool {
    match header_value(hs, authorization_chars()) {
        Some(v) => match basic_credentials(v) {
            Some(enc) => base64_standard_decode(enc) == Some(encode_utf8(expected)),
            None => false,
        },
        None => false,
    }
}

pub fn check_auth(headers: &[Header], expected: &str) -> (r: bool)
    ensures
        r == auth_ok(headers_view(headers@), expected@),
{
    proof {
        reveal_strlit("Authorization");
    }
    let name = "Authorization";
    assert(name@ =~= authorization_chars());
    let value = match get_header(headers, name) {
        Some(v) => v,
        None => { return false; }
    };
    let b = value.as_str().as_bytes();
    let prefix: [u8; 6] = [66, 97, 115, 105, 99, 32];
    assert(prefix@ =~= basic_prefix());
    if b.len() < 6 || !bytes_eq(&b[0..6], &prefix) {
        return false;
    }
    let encoded = &b[6..b.len()];
    let decoded = base64_decode(encoded);
    credentials_match(decoded, expected)
}

// ── Validators, ranges, content types ──

/// The weak validator `W/"<mtime secs hex>-<size hex>"`.
pub open spec fn etag_chars(mtime_secs: u64, size: u64) -> Seq<char> {
    seq!['W', '/', '"'] + hex_chars(mtime_secs as nat) + seq!['-'] + hex_chars(size as nat) + seq!['"']
}

/// The weak entity tag of a file from its modification time (seconds since
/// the Unix epoch) and size.
pub fn etag_for(mtime_secs: u64, size: u64) -> (r: String)
    ensures
        r@ == etag_chars(mtime_secs, size),
{
    proof {
        reveal_strlit("W/\"");
        reveal_strlit("-");
        reveal_strlit("\"");
    }
    let mut s = String::from_str("W/\"");
    push_radix(&mut s, mtime_secs, 16);
    s.append("-");
    push_radix(&mut s, size, 16);
    s.append("\"");
    assert(s@ =~= etag_chars(mtime_secs, size));
    s
}

pub open spec fn bytes_eq_prefix_chars() -> Seq<char> {
    seq!['b', 'y', 't', 'e', 's', '=']
}

/// Index of the first `c` in `cs`, or -1.
pub open spec fn first_char(cs: Seq<char>, c: char) -> int
    decreases cs.len(),
{
    if cs.len() == 0 {
        -1
    } else if cs[0] == c {
        0
    } else {
        let j = first_char(cs.drop_first(), c);
        if j < 0 { -1 } else { j + 1 }
    }
}

pub proof fn lemma_first_char(cs: Seq<char>, c: char, j: int)
    requires
        0 <= j <= cs.len(),
        forall|q: int| 0 <= q < j ==> cs[q] != c,
    ensures
        j < cs.len() && cs[j] == c ==> first_char(cs, c) == j,
        j == cs.len() ==> first_char(cs, c) == -1,
    decreases j,
{
    if j > 0 {
        let t = cs.drop_first();
        assert forall|q: int| 0 <= q < j - 1 implies t[q] != c by {
            assert(t[q] == cs[q + 1]);
        }
        lemma_first_char(t, c, j - 1);
    }
}

/// The two sides of a range value `bytes=<start>-<end>`, split at the
/// first '-'.
pub open spec fn range_sides(v: Seq<char>) -> Option<(Seq<char>, Seq<char>)> {
    if v.len() < 6 || v.subrange(0, 6) != bytes_eq_prefix_chars() {
        None
    } else {
        let rest = v.subrange(6, v.len() as int);
        let d = first_char(rest, '-');
        if d < 0 {
            None
        } else {
            Some((rest.subrange(0, d), rest.subrange(d + 1, rest.len() as int)))
        }
    }
}

pub open spec fn parse_u64(cs: Seq<char>) -> Option<nat> {
    parse_uint(cs, 10, u64::MAX as nat)
}

/// The length of a suffix range `bytes=-<n>`.
pub open spec fn suffix_length(v: Seq<char>) -> Option<nat> {
    match range_sides(v) {
        Some((s, e)) => if trim(s).len() == 0 { parse_u64(trim(e)) } else { None },
        None => None,
    }
}

/// The inclusive byte range that a Range header value selects in a file
/// of `file_size` bytes.
pub open spec fn range_spec(v: Seq<char>, file_size: u64) -> Option<(u64, u64)> {
    match range_sides(v) {
        None => None,
        Some((s, e)) => if trim(s).len() == 0 {
            match parse_u64(trim(e)) {
                None => None,
                Some(n) => if n == 0 || file_size == 0 || n > file_size {
                    None
                } else {
                    Some(((file_size - n) as u64, (file_size - 1) as u64))
                },
            }
        } else {
            match parse_u64(trim(s)) {
                None => None,
                Some(start) => if file_size == 0 || start >= file_size {
                    None
                } else {
                    let end: Option<nat> = if trim(e).len() == 0 {
                        Some((file_size - 1) as nat)
                    } else {
                        match parse_u64(trim(e)) {
                            Some(x) => Some(if x < file_size - 1 { x } else { (file_size - 1) as nat }),
                            None => None,
                        }
                    };
                    match end {
                        Some(end) => if start <= end { Some((start as u64, end as u64)) } else { None },
                        None => None,
                    }
                },
            }
        },
    }
}

/// A range that a Range value selects lies within the file: it starts no
/// later than it ends, and ends before the file's last byte is passed.
pub proof fn lemma_range_within_file(v: Seq<char>, file_size: u64)
    ensures
        range_spec(v, file_size) matches Some((a, b)) ==> a <= b < file_size,
{
}

/// Where the two sides of a range value lie in its characters.
fn range_split(cs: &Vec<char>) -> (r: Option<(usize, usize)>)
    ensures
        match r {
            Some((d, n)) => n == cs@.len() && 6 <= d < n && range_sides(cs@) == Some((
                cs@.subrange(6, d as int),
                cs@.subrange(d + 1, n as int),
            )),
            None => range_sides(cs@) is None,
        },
{
    let n = cs.len();
    if n < 6 || cs[0] != 'b' || cs[1] != 'y' || cs[2] != 't' || cs[3] != 'e' || cs[4] != 's' || cs[5] != '=' {
        proof {
            if n >= 6 {
                if cs@.subrange(0, 6) == bytes_eq_prefix_chars() {
                    assert(cs@[0] == cs@.subrange(0, 6)[0]);
                    assert(cs@[1] == cs@.subrange(0, 6)[1]);
                    assert(cs@[2] == cs@.subrange(0, 6)[2]);
                    assert(cs@[3] == cs@.subrange(0, 6)[3]);
                    assert(cs@[4] == cs@.subrange(0, 6)[4]);
                    assert(cs@[5] == cs@.subrange(0, 6)[5]);
                }
            }
        }
        return None;
    }
    assert(cs@.subrange(0, 6) =~= bytes_eq_prefix_chars());
    let ghost rest = cs@.subrange(6, n as int);
    let mut i: usize = 6;
    while i < n
        invariant
            n == cs@.len(),
            6 <= i <= n,
            rest == cs@.subrange(6, n as int),
            cs@.subrange(0, 6) == bytes_eq_prefix_chars(),
            forall|q: int| 0 <= q < i - 6 ==> rest[q] != '-',
        decreases n - i,
    {
        if cs[i] == '-' {
            proof { lemma_first_char(rest, '-', i - 6); }
            assert(rest.subrange(0, i - 6) =~= cs@.subrange(6, i as int));
            assert(rest.subrange(i - 6 + 1, rest.len() as int) =~= cs@.subrange(i + 1, n as int));
            return Some((i, n));
        }
        i = i + 1;
    }
    proof { lemma_first_char(rest, '-', i - 6); }
    None
}

/// The inclusive byte range selected by a Range header value
/// (`bytes=<start>-<end>`, `bytes=<start>-` or `bytes=-<suffix length>`)
/// in a file of `file_size` bytes; the end is clamped to the last byte. A
/// range that selects nothing in the file (a suffix longer than the file,
/// a start past its end) gives `None`: 416.
pub fn parse_range(val: &str, file_size: u64) -> (r: Option<(u64, u64)>)
    ensures
        r == range_spec(val@, file_size),
{
    let cs = chars_of(val);
    let (d, n) = match range_split(&cs) {
        Some(x) => x,
        None => { return None; }
    };
    let (slo, shi) = trim_bounds(&cs, 6, d);
    let (elo, ehi) = trim_bounds(&cs, d + 1, n);
    if slo == shi {
        let k = match parse_uint_range(&cs, elo, ehi, 10, u64::MAX) {
            Some(k) => k,
            None => { return None; }
        };
        if k == 0 || file_size == 0 || k > file_size {
            return None;
        }
        return Some((file_size - k, file_size - 1));
    }
    let start = match parse_uint_range(&cs, slo, shi, 10, u64::MAX) {
        Some(s) => s,
        None => { return None; }
    };
    if file_size == 0 || start >= file_size {
        return None;
    }
    let end = if elo == ehi {
        file_size - 1
    } else {
        match parse_uint_range(&cs, elo, ehi, 10, u64::MAX) {
            Some(x) => if x < file_size - 1 { x } else { file_size - 1 },
            None => { return None; }
        }
    };
    if start <= end {
        Some((start, end))
    } else {
        None
    }
}

/// `needle` occurs in `hay`.
pub open spec fn contains_bytes(hay: Seq<u8>, needle: Seq<u8>) -> bool {
    exists|i: int| 0 <= i && i + needle.len() <= hay.len() && #[trigger] hay.subrange(i, i + needle.len()) == needle
}

pub fn find_bytes(hay: &[u8], needle: &[u8]) -> (r: bool)
    ensures
        r == contains_bytes(hay@, needle@),
{
    if needle.len() > hay.len() {
        return false;
    }
    if needle.len() == 0 {
        assert(hay@.subrange(0int, 0int + needle@.len()) =~= needle@);
        return true;
    }
    let last = hay.len() - needle.len();
    let mut i: usize = 0;
    while i <= last
        invariant
            last + needle@.len() == hay@.len(),
            hay@.len() <= usize::MAX,
            needle@.len() > 0,
            i <= last + 1,
            forall|q: int| 0 <= q < i ==> #[trigger] hay@.subrange(q, q + needle@.len()) != needle@,
        decreases last + 1 - i,
    {
        if bytes_eq(&hay[i..i + needle.len()], needle) {
            return true;
        }
        i = i + 1;
    }
    proof {
        if contains_bytes(hay@, needle@) {
            let w = choose|q: int| 0 <= q && q + needle@.len() <= hay@.len() && #[trigger] hay@.subrange(q, q + needle@.len()) == needle@;
            assert(hay@.subrange(w, w + needle@.len()) != needle@);
        }
    }
    false
}

/// Content types worth compressing: text, JavaScript, JSON, XML and SVG.
pub open spec fn compressible(ct: Seq<u8>) -> bool {
    (ct.len() >= 5 && ct.subrange(0, 5) == seq![116u8, 101u8, 120u8, 116u8, 47u8])
        || contains_bytes(ct, seq![106u8, 97u8, 118u8, 97u8, 115u8, 99u8, 114u8, 105u8, 112u8, 116u8])
        || contains_bytes(ct, seq![106u8, 115u8, 111u8, 110u8])
        || contains_bytes(ct, seq![120u8, 109u8, 108u8])
        || contains_bytes(ct, seq![115u8, 118u8, 103u8])
}

pub fn is_compressible(ct: &str) -> (r: bool)
    ensures
        r == compressible(encode_utf8(ct@)),
{
    let b = ct.as_bytes();
    let text: [u8; 5] = [116, 101, 120, 116, 47];
    let javascript: [u8; 10] = [106, 97, 118, 97, 115, 99, 114, 105, 112, 116];
    let json: [u8; 4] = [106, 115, 111, 110];
    let xml: [u8; 3] = [120, 109, 108];
    let svg: [u8; 3] = [115, 118, 103];
    assert(text@ =~= seq![116u8, 101u8, 120u8, 116u8, 47u8]);
    assert(javascript@ =~= seq![106u8, 97u8, 118u8, 97u8, 115u8, 99u8, 114u8, 105u8, 112u8, 116u8]);
    assert(json@ =~= seq![106u8, 115u8, 111u8, 110u8]);
    assert(xml@ =~= seq![120u8, 109u8, 108u8]);
    assert(svg@ =~= seq![115u8, 118u8, 103u8]);
    let starts = b.len() >= 5 && bytes_eq(&b[0..5], &text);
    starts || find_bytes(b, &javascript) || find_bytes(b, &json) || find_bytes(b, &xml) || find_bytes(b, &svg)
}

/// Headers that concern one connection only and are not forwarded.
pub open spec fn hop_by_hop_names() -> Seq<Seq<char>> {
    seq![
        seq!['c', 'o', 'n', 'n', 'e', 'c', 't', 'i', 'o', 'n'],
        seq!['k', 'e', 'e', 'p', '-', 'a', 'l', 'i', 'v', 'e'],
        seq!['t', 'r', 'a', 'n', 's', 'f', 'e', 'r', '-', 'e', 'n', 'c', 'o', 'd', 'i', 'n', 'g'],
        seq!['t', 'e'],
        seq!['t', 'r', 'a', 'i', 'l', 'e', 'r'],
        seq!['u', 'p', 'g', 'r', 'a', 'd', 'e'],
        seq!['p', 'r', 'o', 'x', 'y', '-', 'a', 'u', 't', 'h', 'e', 'n', 't', 'i', 'c', 'a', 't', 'e'],
        seq!['p', 'r', 'o', 'x', 'y', '-', 'a', 'u', 't', 'h', 'o', 'r', 'i', 'z', 'a', 't', 'i', 'o', 'n'],
    ]
}

pub open spec fn hop_by_hop(name: Seq<char>) -> bool {
    exists|i: int| 0 <= i < hop_by_hop_names().len() && same_ignoring_case(#[trigger] hop_by_hop_names()[i], name)
}

fn hop_name(i: usize) -> (r: &'static str)
    requires
        i < 8,
    ensures
        r@ == hop_by_hop_names()[i as int],
{
    proof {
        reveal_strlit("connection");
        reveal_strlit("keep-alive");
        reveal_strlit("transfer-encoding");
        reveal_strlit("te");
        reveal_strlit("trailer");
        reveal_strlit("upgrade");
        reveal_strlit("proxy-authenticate");
        reveal_strlit("proxy-authorization");
    }
    let r = if i == 0 {
        "connection"
    } else if i == 1 {
        "keep-alive"
    } else if i == 2 {
        "transfer-encoding"
    } else if i == 3 {
        "te"
    } else if i == 4 {
        "trailer"
    } else if i == 5 {
        "upgrade"
    } else if i == 6 {
        "proxy-authenticate"
    } else {
        "proxy-authorization"
    };
    assert(r@ =~= hop_by_hop_names()[i as int]);
    r
}

pub fn is_hop_by_hop(name: &str) -> (r: bool)
    ensures
        r == hop_by_hop(name@),
{
    let mut i: usize = 0;
    while i < 8
        invariant
            i <= 8,
            forall|q: int| 0 <= q < i ==> !same_ignoring_case(#[trigger] hop_by_hop_names()[q], name@),
        decreases 8 - i,
    {
        if str_eq_ignore_case(hop_name(i), name) {
            return true;
        }
        i = i + 1;
    }
    false
}

// ── Content types and compression ──

/// Equality of two strings.
pub fn str_eq(a: &str, b: &str) -> (r: bool)
    ensures
        r == (a@ == b@),
{
    let r = bytes_eq(a.as_bytes(), b.as_bytes());
    proof {
        encode_utf8_decode_utf8(a@);
        encode_utf8_decode_utf8(b@);
    }
    r
}

/// What std's `Path::extension` gives for `path` (as a string): the text
/// after the last dot of the file name. It depends on the path alone.
pub uninterp spec fn path_extension(path: Seq<char>) -> Option<Seq<char>>;

/// `std::path::Path::extension`, kept only when it is UTF-8 (as `to_str`
/// does); its result is named by `path_extension`.
#[verifier::external_body]
fn extension_of(path: &str) -> (r: Option<String>)
    ensures
        string_opt(r) == path_extension(path@),
{
    std::path::Path::new(path).extension().and_then(|s| s.to_str()).map(|s| s.to_string())
}

/// The Content-Type served for a file extension.
pub open spec fn mime_for(ext: Option<Seq<char>>) -> Seq<char> {
    match ext {
        Some(e) => if e == "html"@ || e == "htm"@ {
            "text/html; charset=utf-8"@
        } else if e == "css"@ {
            "text/css"@
        } else if e == "js"@ {
            "application/javascript"@
        } else if e == "json"@ {
            "application/json"@
        } else if e == "png"@ {
            "image/png"@
        } else if e == "jpg"@ || e == "jpeg"@ {
            "image/jpeg"@
        } else if e == "gif"@ {
            "image/gif"@
        } else if e == "svg"@ {
            "image/svg+xml"@
        } else if e == "pdf"@ {
            "application/pdf"@
        } else if e == "ico"@ {
            "image/x-icon"@
        } else if e == "wasm"@ {
            "application/wasm"@
        } else {
            "application/octet-stream"@
        },
        None => "application/octet-stream"@,
    }
}

/// The Content-Type of an extension (`None`: no extension).
pub fn mime_for_extension(ext: Option<&str>) -> (r: &'static str)
    ensures
        r@ == mime_for(match ext { Some(e) => Some(e@), None => None }),
{
    match ext {
        Some(e) => if str_eq(e, "html") || str_eq(e, "htm") {
            "text/html; charset=utf-8"
        } else if str_eq(e, "css") {
            "text/css"
        } else if str_eq(e, "js") {
            "application/javascript"
        } else if str_eq(e, "json") {
            "application/json"
        } else if str_eq(e, "png") {
            "image/png"
        } else if str_eq(e, "jpg") || str_eq(e, "jpeg") {
            "image/jpeg"
        } else if str_eq(e, "gif") {
            "image/gif"
        } else if str_eq(e, "svg") {
            "image/svg+xml"
        } else if str_eq(e, "pdf") {
            "application/pdf"
        } else if str_eq(e, "ico") {
            "image/x-icon"
        } else if str_eq(e, "wasm") {
            "application/wasm"
        } else {
            "application/octet-stream"
        },
        None => "application/octet-stream",
    }
}

/// The Content-Type served for the file at `path`.
pub fn mime_type(path: &str) -> (r: &'static str)
    ensures
        r@ == mime_for(path_extension(path@)),
{
    let ext = extension_of(path);
    match ext {
        Some(e) => mime_for_extension(Some(e.as_str())),
        None => mime_for_extension(None),
    }
}

/// What flate2's `GzEncoder` over a `Vec`, at the default compression
/// level, produces for `data`: the gzip stream of `data`.
/// It depends on the data alone.
pub uninterp spec fn gzip_of(data: Seq<u8>) -> Seq<u8>;

/// flate2's `GzEncoder::new(Vec::new(), Compression::default())`, all of
/// `data` written, then `finish`. Writing into a `Vec` does not fail, and
/// the deflate stream it drives fails only on an empty output buffer or
/// misuse after finishing, neither of which happens here: the result is
/// always `Ok`, and is named by `gzip_of`.
#[verifier::external_body]
fn gzip(data: &[u8]) -> (r: Result<Vec<u8>, std::io::Error>)
    ensures
        r is Ok,
        r matches Ok(v) ==> v@ == gzip_of(data@),
{
    let mut e = GzEncoder::new(Vec::new(), Compression::default());
    e.write_all(data)?;
    e.finish()
}

/// Gzip-compresses a response body; this always succeeds.
pub fn compress(data: &[u8]) -> (r: Result<Vec<u8>, ProxyError>)
    ensures
        r matches Ok(v) && v@ == gzip_of(data@),
{
    match gzip(data) {
        Ok(v) => Ok(v),
        Err(e) => Err(ProxyError::Io(e)),
    }
}

// ── Forwarded headers ──

/// The text of a header value: its UTF-8 decoding, or nothing.
pub open spec fn value_text(v: Seq<u8>) -> Seq<char> {
    if valid_utf8(v) { decode_utf8(v) } else { Seq::empty() }
}

/// The header lines forwarded for `hs`: "name: value\r\n" for each header
/// that is not hop-by-hop, in order.
pub open spec fn header_lines(hs: Seq<HeaderView>) -> Seq<char>
    decreases hs.len(),
{
    if hs.len() == 0 {
        Seq::empty()
    } else {
        let h = hs.last();
        header_lines(hs.drop_last()) + if hop_by_hop(h.name) {
            Seq::empty()
        } else {
            h.name + seq![':', ' '] + value_text(h.value) + seq!['\r', '\n']
        }
    }
}

pub fn copy_headers(dst: &mut String, headers: &[Header])
    ensures
        final(dst)@ == old(dst)@ + header_lines(headers_view(headers@)),
{
    proof {
        reveal_strlit(": ");
        reveal_strlit("\r\n");
        reveal_strlit("");
    }
    let ghost start = dst@;
    let mut i: usize = 0;
    assert(headers_view(headers@.subrange(0, 0)) =~= Seq::<HeaderView>::empty());
    while i < headers.len()
        invariant
            i <= headers@.len(),
            dst@ == start + header_lines(headers_view(headers@.subrange(0, i as int))),
        decreases headers@.len() - i,
    {
        let h = &headers[i];
        let ghost before = dst@;
        let ghost hv = headers_view(headers@.subrange(0, i + 1));
        assert(hv.drop_last() =~= headers_view(headers@.subrange(0, i as int)));
        assert(hv.last() == h@);
        if !is_hop_by_hop(h.name.as_str()) {
            proof {
                reveal_strlit(": ");
                reveal_strlit("\r\n");
                reveal_strlit("");
            }
            assert(": "@ =~= seq![':', ' ']);
            assert("\r\n"@ =~= seq!['\r', '\n']);
            assert(""@ =~= Seq::<char>::empty());
            dst.append(h.name.as_str());
            dst.append(": ");
            let v = copy_range(h.value.as_slice(), 0, h.value.len());
            assert(v@ =~= h.value@);
            match text_to_string(v) {
                Some(t) => dst.append(t.as_str()),
                None => dst.append(""),
            }
            dst.append("\r\n");
            assert(dst@ =~= before + (h@.name + seq![':', ' '] + value_text(h@.value) + seq!['\r', '\n']));
        } else {
            assert(dst@ =~= before + Seq::<char>::empty());
        }
        i = i + 1;
    }
    assert(headers@.subrange(0, i as int) =~= headers@);
}

// ── Fixed responses and chunk framing ──

/// A complete plain-text response closing the connection, with the status
/// line and extra header lines of `head`.
pub open spec fn plain_response(head: Seq<char>, body: Seq<char>) -> Seq<char> {
    head + "Content-Type: text/plain\r\nContent-Length: "@ + dec_chars(encode_utf8(body).len())
        + "\r\nConnection: close\r\n\r\n"@ + body
}

fn plain_response_text(head: &str, body: &str) -> (r: String)
    ensures
        r@ == plain_response(head@, body@),
{
    let mut s = String::from_str(head);
    assert(s@ == head@);
    s.append("Content-Type: text/plain\r\nContent-Length: ");
    assert(s@ == head@ + "Content-Type: text/plain\r\nContent-Length: "@);
    let n = body.as_bytes().len() as u64;
    push_radix(&mut s, n, 10);
    assert(s@ == head@ + "Content-Type: text/plain\r\nContent-Length: "@ + dec_chars(encode_utf8(body@).len()));
    s.append("\r\nConnection: close\r\n\r\n");
    s.append(body);
    assert(s@ =~= plain_response(head@, body@));
    s
}

/// The response refusing a client over its request rate.
pub fn response_429() -> (r: String)
    ensures
        r@ == plain_response("HTTP/1.1 429 Too Many Requests\r\nRetry-After: 1\r\n"@, "429 Too Many Requests"@),
{
    plain_response_text("HTTP/1.1 429 Too Many Requests\r\nRetry-After: 1\r\n", "429 Too Many Requests")
}

/// The response asking for Basic credentials.
pub fn response_401() -> (r: String)
    ensures
        r@ == plain_response(
            "HTTP/1.1 401 Unauthorized\r\nWWW-Authenticate: Basic realm=\"Restricted\"\r\n"@,
            "401 Unauthorized"@,
        ),
{
    plain_response_text(
        "HTTP/1.1 401 Unauthorized\r\nWWW-Authenticate: Basic realm=\"Restricted\"\r\n",
        "401 Unauthorized",
    )
}

/// The response reporting that the upstream failed, with the reason.
pub fn response_502(reason: &str) -> (r: String)
    ensures
        r@ == plain_response("HTTP/1.1 502 Bad Gateway\r\n"@, "502 Bad Gateway\nUpstream: "@ + reason@),
{
    let mut body = String::from_str("502 Bad Gateway\nUpstream: ");
    body.append(reason);
    plain_response_text("HTTP/1.1 502 Bad Gateway\r\n", body.as_str())
}

/// The line that opens a chunk of `len` bytes: its size in hexadecimal.
pub fn chunk_header(len: usize) -> (r: String)
    ensures
        r@ == hex_chars(len as nat) + "\r\n"@,
{
    let mut s = String::new();
    push_radix(&mut s, len as u64, 16);
    s.append("\r\n");
    s
}

/// The chunk that ends a chunked body.
pub const LAST_CHUNK: &'static str = "0\r\n\r\n";

// ── Reading request bodies ──

/// Index of the first `pat` in `buf`, or -1.
pub open spec fn first_match(buf: Seq<u8>, pat: Seq<u8>) -> int
    decreases buf.len(),
{
    if buf.len() < pat.len() {
        -1
    } else if buf.subrange(0, pat.len() as int) == pat {
        0
    } else if buf.len() == 0 {
        -1
    } else {
        let j = first_match(buf.drop_first(), pat);
        if j < 0 { -1 } else { j + 1 }
    }
}

proof fn lemma_first_match(buf: Seq<u8>, pat: Seq<u8>, j: int)
    requires
        0 <= j,
        forall|q: int| 0 <= q < j && q + pat.len() <= buf.len() ==> #[trigger] buf.subrange(q, q + pat.len()) != pat,
    ensures
        j + pat.len() <= buf.len() && buf.subrange(j, j + pat.len()) == pat ==> first_match(buf, pat) == j,
        j + pat.len() > buf.len() ==> first_match(buf, pat) == -1,
    decreases j,
{
    if buf.len() < pat.len() {
    } else if j > 0 {
        assert(buf.subrange(0int, 0int + pat.len()) != pat);
        if buf.len() == 0 {
            assert(buf.subrange(0int, 0int + pat.len()) =~= pat);
        }
        assert(buf.len() > 0);
        let t = buf.drop_first();
        assert(t == buf.subrange(1, buf.len() as int));
        assert forall|q: int| 0 <= q < j - 1 && q + pat.len() <= t.len() implies #[trigger] t.subrange(q, q + pat.len()) != pat by {
            assert forall|m: int| 0 <= m < pat.len() implies #[trigger] t.subrange(q, q + pat.len())[m] == buf.subrange(q + 1, q + 1 + pat.len())[m] by {
                assert(t.subrange(q, q + pat.len())[m] == t[q + m]);
                assert(t[q + m] == buf[q + m + 1]);
            }
            assert(t.subrange(q, q + pat.len()) =~= buf.subrange(q + 1, q + 1 + pat.len()));
            assert(0 <= q + 1 < j && q + 1 + pat.len() <= buf.len());
            assert(buf.subrange(q + 1, q + 1 + pat.len()) != pat);
        }
        if j + pat.len() <= buf.len() && buf.subrange(j, j + pat.len()) == pat {
            assert(t.subrange(j - 1, j - 1 + pat.len()) =~= buf.subrange(j, j + pat.len()));
        }
        lemma_first_match(t, pat, j - 1);
    }
}

/// Position of the first occurrence of `pat` (non-empty) in `buf`.
pub fn find_pattern(buf: &[u8], pat: &[u8]) -> (r: Option<usize>)
    requires
        pat@.len() > 0,
    ensures
        match r {
            Some(p) => first_match(buf@, pat@) == p && p + pat@.len() <= buf@.len(),
            None => first_match(buf@, pat@) == -1,
        },
{
    if pat.len() > buf.len() {
        proof { lemma_first_match(buf@, pat@, 0); }
        return None;
    }
    let last = buf.len() - pat.len();
    let mut i: usize = 0;
    while i <= last
        invariant
            last + pat@.len() == buf@.len(),
            buf@.len() <= usize::MAX,
            pat@.len() > 0,
            i <= last + 1,
            forall|q: int| 0 <= q < i && q + pat@.len() <= buf@.len() ==> #[trigger] buf@.subrange(q, q + pat@.len()) != pat@,
        decreases last + 1 - i,
    {
        if bytes_eq(&buf[i..i + pat.len()], pat) {
            proof { lemma_first_match(buf@, pat@, i as int); }
            return Some(i);
        }
        i = i + 1;
    }
    proof { lemma_first_match(buf@, pat@, i as int); }
    None
}

/// The size announced by a chunk-size line (without its CRLF): the hex
/// number before any ';' extension, trimmed, as `usize::from_str_radix`
/// reads it.
pub open spec fn chunk_size_of(line: Seq<u8>) -> Option<nat> {
    if !valid_utf8(line) {
        None
    } else {
        let cs = decode_utf8(line);
        let semi = first_char(cs, ';');
        let head = if semi < 0 { cs } else { cs.subrange(0, semi) };
        parse_uint(trim(head), 16, usize::MAX as nat)
    }
}

/// The message of a chunk-size line that does not read as a size.
pub open spec fn chunk_size_error(line: Seq<u8>) -> Seq<char> {
    if !valid_utf8(line) {
        "non-utf8 chunk size"@
    } else {
        "bad chunk size: "@ + decode_utf8(line)
    }
}

/// Reads a chunk-size line. Errors: the line is not UTF-8 ("non-utf8 chunk
/// size"), or its size is not a hexadecimal `usize` ("bad chunk size: "
/// and the line).
pub fn parse_chunk_size(line: &[u8]) -> (r: Result<usize, ProxyError>)
    ensures
        match chunk_size_of(line@) {
            Some(n) => r matches Ok(v) && v == n,
            None => r matches Err(ProxyError::HttpInvalidRequest(m)) && m@ == chunk_size_error(line@),
        },
{
    proof {
        reveal_strlit("non-utf8 chunk size");
        reveal_strlit("bad chunk size: ");
    }
    let copy = copy_range(line, 0, line.len());
    assert(copy@ =~= line@);
    let text = match text_to_string(copy) {
        Some(t) => t,
        None => { return Err(ProxyError::HttpInvalidRequest(String::from_str("non-utf8 chunk size"))); }
    };
    let cs = chars_of(text.as_str());
    let ghost whole = cs@;
    let mut end: usize = 0;
    while end < cs.len() && cs[end] != ';'
        invariant
            end <= cs@.len(),
            forall|q: int| 0 <= q < end ==> cs@[q] != ';',
        decreases cs@.len() - end,
    {
        end = end + 1;
    }
    proof {
        lemma_first_char(cs@, ';', end as int);
        assert(cs@.subrange(0, cs@.len() as int) =~= cs@);
    }
    let (lo, hi) = trim_bounds(&cs, 0, end);
    match parse_uint_range(&cs, lo, hi, 16, usize::MAX as u64) {
        Some(v) => Ok(v as usize),
        None => {
            let mut msg = String::from_str("bad chunk size: ");
            msg.append(text.as_str());
            Err(ProxyError::HttpInvalidRequest(msg))
        }
    }
}

// ── Chunked bodies ──

/// Where the reading of a chunked body stands: at a chunk-size line, or
/// after the last chunk, waiting for the blank line that ends the trailers.
#[derive(Debug, Clone, Copy, PartialEq, Eq, Structural)]
pub enum ChunkPhase {
    SizeLine,
    Trailers,
}

/// What to do next with the buffered bytes of a chunked body.
#[derive(Debug)]
pub enum ChunkAction {
    /// Read more bytes into the buffer and step again, telling whether the
    /// peer has closed.
    Read,
    /// Append `buf[start..end]` to the body, drop the buffer up to `end`
    /// and the CRLF after it, and stay at a chunk-size line.
    Data { start: usize, end: usize },
    /// Drop the first `consumed` bytes and wait for the end of the trailers.
    Trailers { consumed: usize },
    /// The body is complete; the buffer from `rest` on follows it.
    Done { rest: usize },
    /// The body is malformed or cut short.
    Fail(ProxyError),
}

/// `ChunkAction` as positions, with the kind of failure.
pub enum ChunkStep {
    Read,
    Data(nat, nat),
    Trailers(nat),
    Done(nat),
    Truncated,
    BadSize,
}

pub open spec fn crlf() -> Seq<u8> {
    seq![13u8, 10u8]
}

pub open spec fn blank_line() -> Seq<u8> {
    seq![13u8, 10u8, 13u8, 10u8]
}

/// The next step of reading a chunked body from the buffer `buf` in
/// `phase`; `eof` tells that no more bytes will come.
pub open spec fn chunk_step(phase: ChunkPhase, buf: Seq<u8>, eof: bool) -> ChunkStep {
    match phase {
        ChunkPhase::SizeLine => {
            let le = first_match(buf, crlf());
            if le < 0 {
                if eof { ChunkStep::Truncated } else { ChunkStep::Read }
            } else {
                let a = le + 2;
                match chunk_size_of(buf.subrange(0, le)) {
                    None => ChunkStep::BadSize,
                    Some(n) => if n == 0 {
                        if a + 2 <= buf.len() && buf.subrange(a, a + 2) == crlf() {
                            ChunkStep::Done((a + 2) as nat)
                        } else {
                            ChunkStep::Trailers(a as nat)
                        }
                    } else if a + n + 2 <= buf.len() {
                        ChunkStep::Data(a as nat, (a + n) as nat)
                    } else if eof {
                        ChunkStep::Truncated
                    } else {
                        ChunkStep::Read
                    },
                }
            }
        },
        ChunkPhase::Trailers => {
            let p = first_match(buf, blank_line());
            if p >= 0 {
                ChunkStep::Done((p + 4) as nat)
            } else if eof {
                ChunkStep::Done(buf.len())
            } else {
                ChunkStep::Read
            }
        },
    }
}

/// One step of reading a chunked body (see `chunk_step`). Every position
/// it gives lies within `buf`, and a chunk's data is followed there by its
/// CRLF.
pub fn chunked_step(phase: ChunkPhase, buf: &[u8], eof: bool) -> (r: ChunkAction)
    ensures
        match chunk_step(phase, buf@, eof) {
            ChunkStep::Read => r is Read,
            ChunkStep::Data(a, b) => r matches ChunkAction::Data { start, end } && start == a && end == b,
            ChunkStep::Trailers(c) => r matches ChunkAction::Trailers { consumed } && consumed == c,
            ChunkStep::Done(x) => r matches ChunkAction::Done { rest } && rest == x,
            ChunkStep::Truncated => r matches ChunkAction::Fail(ProxyError::HttpInvalidRequest(m))
                && m@ == "chunked body truncated"@,
            ChunkStep::BadSize => r matches ChunkAction::Fail(ProxyError::HttpInvalidRequest(m))
                && m@ == chunk_size_error(buf@.subrange(0, first_match(buf@, crlf()))),
        },
        match r {
            ChunkAction::Data { start, end } => start <= end && end + 2 <= buf@.len(),
            ChunkAction::Trailers { consumed } => consumed <= buf@.len(),
            ChunkAction::Done { rest } => rest <= buf@.len(),
            _ => true,
        },
{
    proof {
        reveal_strlit("chunked body truncated");
    }
    let mut crlf_bytes: Vec<u8> = Vec::new();
    crlf_bytes.push(13u8);
    crlf_bytes.push(10u8);
    assert(crlf_bytes@ =~= crlf());
    match phase {
        ChunkPhase::SizeLine => {
            let le = match find_pattern(buf, crlf_bytes.as_slice()) {
                Some(p) => p,
                None => {
                    if eof {
                        return ChunkAction::Fail(ProxyError::HttpInvalidRequest(String::from_str("chunked body truncated")));
                    }
                    return ChunkAction::Read;
                }
            };
            let n = match parse_chunk_size(&buf[0..le]) {
                Ok(n) => n,
                Err(e) => { return ChunkAction::Fail(e); }
            };
            assert(buf@.subrange(0, le as int) == buf@.subrange(0, le as int));
            let blen = buf.len();
            assert(le + 2 <= blen);
            let a = le + 2;
            if n == 0 {
                if buf.len() - a >= 2 && buf[a] == 13u8 && buf[a + 1] == 10u8 {
                    assert(buf@.subrange(a as int, a + 2) =~= crlf());
                    return ChunkAction::Done { rest: a + 2 };
                }
                if buf.len() - a >= 2 {
                    assert(buf@.subrange(a as int, a + 2)[0] == buf@[a as int]);
                    assert(buf@.subrange(a as int, a + 2)[1] == buf@[a + 1]);
                }
                return ChunkAction::Trailers { consumed: a };
            }
            if n <= buf.len() - a && buf.len() - a - n >= 2 {
                return ChunkAction::Data { start: a, end: a + n };
            }
            if eof {
                return ChunkAction::Fail(ProxyError::HttpInvalidRequest(String::from_str("chunked body truncated")));
            }
            ChunkAction::Read
        },
        ChunkPhase::Trailers => {
            let mut blank: Vec<u8> = Vec::new();
            blank.push(13u8);
            blank.push(10u8);
            blank.push(13u8);
            blank.push(10u8);
            assert(blank@ =~= blank_line());
            match find_pattern(buf, blank.as_slice()) {
                Some(p) => {
                    let blen = buf.len();
                    assert(p + 4 <= blen);
                    ChunkAction::Done { rest: p + 4 }
                },
                None => {
                    if eof {
                        ChunkAction::Done { rest: buf.len() }
                    } else {
                        ChunkAction::Read
                    }
                },
            }
        },
    }
}

/// A chunk as `chunk_header` frames it (its size in hex and a CRLF, the
/// data, a CRLF) is read back as exactly that data, whatever follows it.
pub proof fn lemma_chunk_roundtrip(data: Seq<u8>, rest: Seq<u8>, eof: bool)
    requires
        0 < data.len() <= usize::MAX,
    ensures
        ({
            let head = encode_utf8(hex_chars(data.len()) + "\r\n"@);
            let buf = head + data + crlf() + rest;
            &&& chunk_step(ChunkPhase::SizeLine, buf, eof) == ChunkStep::Data(head.len(), head.len() + data.len())
            &&& buf.subrange(head.len() as int, (head.len() + data.len()) as int) == data
        }),
{
    reveal_strlit("\r\n");
    let h = hex_chars(data.len());
    lemma_radix_roundtrip(data.len(), 16);
    assert forall|i: int| 0 <= i < h.len() implies (h[i] as u32) < 128 && h[i] != ';' && !is_ws(h[i])
        && (h[i] as u32) != 13 && h[i] != '+' by {
        assert(digit_value(h[i], 16) is Some);
    }
    let nl = "\r\n"@;
    assert(nl =~= seq!['\r', '\n']);
    lemma_encode_append(h, nl);
    lemma_encode_ascii(h);
    lemma_encode_ascii(nl);
    let line = encode_utf8(h);
    assert(encode_utf8(nl) =~= crlf());
    let head = encode_utf8(h + nl);
    assert(head == line + crlf());
    let buf = head + data + crlf() + rest;
    let le = line.len() as int;
    // The size line ends at the first CRLF.
    assert forall|q: int| 0 <= q < le && q + 2 <= buf.len() implies #[trigger] buf.subrange(q, q + 2) != crlf() by {
        assert(buf[q] == line[q]);
        assert(buf.subrange(q, q + 2)[0] == buf[q]);
    }
    assert(buf.subrange(le, le + 2) =~= crlf());
    lemma_first_match(buf, crlf(), le);
    // The size line reads as the length.
    assert(buf.subrange(0, le) =~= line);
    broadcast use vstd::utf8::encode_utf8_valid_utf8;
    broadcast use vstd::utf8::encode_utf8_decode_utf8;
    assert(valid_utf8(line));
    assert(decode_utf8(line) == h);
    lemma_first_char(h, ';', h.len() as int);
    assert(trim_start(h) == h);
    assert(trim_end(h) == h);
    assert(trim(h) == h);
    assert(parse_uint(h, 16, usize::MAX as nat) == Some(data.len()));
    assert(chunk_size_of(line) == Some(data.len()));
    assert(buf.subrange(le + 2, le + 2 + data.len()) =~= data);
}

/// The last chunk as `LAST_CHUNK` writes it ends the body; what follows it
/// is left for the next message.
pub proof fn lemma_last_chunk_ends(rest: Seq<u8>, eof: bool)
    ensures
        chunk_step(ChunkPhase::SizeLine, encode_utf8(LAST_CHUNK@) + rest, eof) == ChunkStep::Done(5),
{
    reveal_strlit("0\r\n\r\n");
    let cs = LAST_CHUNK@;
    assert(cs =~= seq!['0', '\r', '\n', '\r', '\n']);
    lemma_encode_ascii(cs);
    let b = encode_utf8(cs);
    assert(b =~= seq![48u8, 13u8, 10u8, 13u8, 10u8]);
    let buf = b + rest;
    assert(buf.subrange(0, 2) != crlf()) by {
        assert(buf.subrange(0, 2)[0] == 48u8);
    }
    assert(buf.subrange(1, 3) =~= crlf());
    lemma_first_match(buf, crlf(), 1);
    let line = buf.subrange(0, 1);
    assert(line =~= seq![48u8]);
    assert(line =~= encode_utf8(seq!['0'])) by {
        lemma_encode_ascii(seq!['0']);
    }
    broadcast use vstd::utf8::encode_utf8_valid_utf8;
    broadcast use vstd::utf8::encode_utf8_decode_utf8;
    let z = seq!['0'];
    assert(decode_utf8(line) == z);
    lemma_first_char(z, ';', 1);
    assert(trim_start(z) == z);
    assert(trim_end(z) == z);
    assert(digit_value('0', 16) == Some(0nat));
    assert(z.drop_last() =~= Seq::<char>::empty());
    assert(digits_value(Seq::<char>::empty(), 16) * 16 == 0);
    assert(digits_value(z, 16) == 0);
    assert(all_digits(z, 16)) by {
        assert forall|i: int| 0 <= i < z.len() implies (#[trigger] digit_value(z[i], 16)) is Some by {
            assert(z[i] == '0');
        }
    }
    assert(parse_uint(z, 16, usize::MAX as nat) == Some(0nat));
    assert(buf.subrange(3, 5) =~= crlf());
}

/// How a request body is delimited.
#[derive(Debug, Clone, Copy, PartialEq, Eq, Structural)]
pub enum BodyFraming {
    Chunked,
    Length(usize),
}

pub open spec fn transfer_encoding_chars() -> Seq<char> {
    "Transfer-Encoding"@
}

pub open spec fn content_length_chars() -> Seq<char> {
    "Content-Length"@
}

/// Chunked when Transfer-Encoding is "chunked" (up to ASCII case),
/// otherwise the Content-Length when it parses as a `usize`, otherwise 0.
pub open spec fn framing_of(hs: Seq<HeaderView>) -> BodyFraming {
    match header_value(hs, transfer_encoding_chars()) {
        Some(v) if same_ignoring_case(v, "chunked"@) => BodyFraming::Chunked,
        _ => match header_value(hs, content_length_chars()) {
            Some(v) => match parse_uint(v, 10, usize::MAX as nat) {
                Some(n) => BodyFraming::Length(n as usize),
                None => BodyFraming::Length(0),
            },
            None => BodyFraming::Length(0),
        },
    }
}

pub fn body_framing(headers: &[Header]) -> (r: BodyFraming)
    ensures
        r == framing_of(headers_view(headers@)),
{
    if let Some(te) = get_header(headers, "Transfer-Encoding") {
        if str_eq_ignore_case(te.as_str(), "chunked") {
            return BodyFraming::Chunked;
        }
    }
    match get_header(headers, "Content-Length") {
        Some(v) => {
            let cs = chars_of(v.as_str());
            assert(cs@.subrange(0, cs@.len() as int) =~= cs@);
            match parse_uint_range(&cs, 0, cs.len(), 10, usize::MAX as u64) {
                Some(n) => BodyFraming::Length(n as usize),
                None => BodyFraming::Length(0),
            }
        }
        None => BodyFraming::Length(0),
    }
}

// ── Dates ──

pub open spec fn day_name(w: u32) -> Seq<char> {
    if w == 0 { "Sun"@ } else if w == 1 { "Mon"@ } else if w == 2 { "Tue"@ } else if w == 3 { "Wed"@ }
    else if w == 4 { "Thu"@ } else if w == 5 { "Fri"@ } else { "Sat"@ }
}

pub open spec fn month_name(m: u32) -> Seq<char> {
    if m == 0 { "Jan"@ } else if m == 1 { "Feb"@ } else if m == 2 { "Mar"@ } else if m == 3 { "Apr"@ }
    else if m == 4 { "May"@ } else if m == 5 { "Jun"@ } else if m == 6 { "Jul"@ } else if m == 7 { "Aug"@ }
    else if m == 8 { "Sep"@ } else if m == 9 { "Oct"@ } else if m == 10 { "Nov"@ } else { "Dec"@ }
}

/// `n` in decimal, with a leading zero below 10 (`{:02}`).
pub open spec fn two_digits(n: nat) -> Seq<char> {
    if n < 10 { "0"@ + dec_chars(n) } else { dec_chars(n) }
}

/// An HTTP date (RFC 7231 IMF-fixdate) from broken-down UTC time fields as
/// `gmtime` gives them: week day from Sunday, day of the month, month from
/// January, years since 1900, hour, minute, second.
pub open spec fn http_date_chars(wday: u32, mday: u32, mon: u32, tm_year: u32, hour: u32, min: u32, sec: u32) -> Seq<char> {
    day_name(wday) + ", "@ + two_digits(mday as nat) + " "@ + month_name(mon) + " "@ + dec_chars((tm_year + 1900) as nat) + " "@
        + two_digits(hour as nat) + ":"@ + two_digits(min as nat) + ":"@ + two_digits(sec as nat) + " GMT"@
}

fn push_two_digits(s: &mut String, n: u32)
    ensures
        final(s)@ == old(s)@ + two_digits(n as nat),
{
    if n < 10 {
        s.append("0");
    }
    push_radix(s, n as u64, 10);
}

/// Formats broken-down UTC time fields as an HTTP date.
pub fn http_date(wday: u32, mday: u32, mon: u32, tm_year: u32, hour: u32, min: u32, sec: u32) -> (r: String)
    requires
        wday < 7,
        mon < 12,
    ensures
        r@ == http_date_chars(wday, mday, mon, tm_year, hour, min, sec),
{
    let day = if wday == 0 { "Sun" } else if wday == 1 { "Mon" } else if wday == 2 { "Tue" } else if wday == 3 { "Wed" }
        else if wday == 4 { "Thu" } else if wday == 5 { "Fri" } else { "Sat" };
    let month = if mon == 0 { "Jan" } else if mon == 1 { "Feb" } else if mon == 2 { "Mar" } else if mon == 3 { "Apr" }
        else if mon == 4 { "May" } else if mon == 5 { "Jun" } else if mon == 6 { "Jul" } else if mon == 7 { "Aug" }
        else if mon == 8 { "Sep" } else if mon == 9 { "Oct" } else if mon == 10 { "Nov" } else { "Dec" };
    let mut s = String::from_str(day);
    s.append(", ");
    push_two_digits(&mut s, mday);
    s.append(" ");
    s.append(month);
    s.append(" ");
    push_radix(&mut s, tm_year as u64 + 1900, 10);
    s.append(" ");
    push_two_digits(&mut s, hour);
    s.append(":");
    push_two_digits(&mut s, min);
    s.append(":");
    push_two_digits(&mut s, sec);
    s.append(" GMT");
    s
}

} // verus!
