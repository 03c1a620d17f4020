//! Dotted IPv4 addresses and "IP:PORT" strings of the stack's command line.

use vstd::prelude::*;
use crate::text::{chars_of, split_by, split_ranges, ranges_view, ranges_within, parse_uint, parse_uint_range};

verus! {

/// Octet `k` of a dotted address: the `k`-th dot-separated part read as a
/// `u8`, 0 when it does not read as one or is missing.
pub open spec fn octet_of(parts: Seq<Seq<char>>, k: int) -> u8 {
    if k < parts.len() {
        match parse_uint(parts[k], 10, 255) {
            Some(v) => v as u8,
            None => 0,
        }
    } else {
        0
    }
}

pub open spec fn ip_of(cs: Seq<char>) -> Seq<u8> {
    let parts = split_by(cs, '.');
    seq![octet_of(parts, 0), octet_of(parts, 1), octet_of(parts, 2), octet_of(parts, 3)]
}

fn ip_of_range(cs: &Vec<char>, from: usize, to: usize) -> (r: [u8; 4])
    requires
        from <= to <= cs@.len(),
    ensures
        r@ == ip_of(cs@.subrange(from as int, to as int)),
{
    let parts = split_ranges(cs, from, to, '.');
    let ghost pv = ranges_view(cs@, parts@);
    let mut ip: [u8; 4] = [0, 0, 0, 0];
    let mut k: usize = 0;
    while k < 4
        invariant
            k <= 4,
            from <= to <= cs@.len(),
            pv == ranges_view(cs@, parts@),
            pv == split_by(cs@.subrange(from as int, to as int), '.'),
            ranges_within(parts@, from as int, to as int),
            forall|q: int| 0 <= q < k ==> ip@[q] == octet_of(pv, q),
            forall|q: int| k <= q < 4 ==> ip@[q] == 0,
        decreases 4 - k,
    {
        if k < parts.len() {
            let (a, b) = parts[k];
            assert(pv[k as int] == cs@.subrange(a as int, b as int));
            let v = match parse_uint_range(cs, a, b, 10, 255) {
                Some(v) => v as u8,
                None => 0,
            };
            ip[k] = v;
        }
        k = k + 1;
    }
    assert(ip@ =~= ip_of(cs@.subrange(from as int, to as int)));
    ip
}

/// Reads a dotted IPv4 address; each missing or unreadable octet is 0 and
/// parts after the fourth are ignored.
pub fn parse_ip(s: &str) -> (r: [u8; 4])
    ensures
        r@ == ip_of(s@),
{
    let cs = chars_of(s);
    assert(cs@.subrange(0, cs@.len() as int) =~= cs@);
    ip_of_range(&cs, 0, cs.len())
}

/// Index of the last `c` in `cs`, or -1.
pub open spec fn last_char(cs: Seq<char>, c: char) -> int
    decreases cs.len(),
{
    if cs.len() == 0 {
        -1
    } else if cs.last() == c {
        cs.len() - 1
    } else {
        last_char(cs.drop_last(), c)
    }
}

pub proof fn lemma_last_char(cs: Seq<char>, c: char, j: int)
    requires
        -1 <= j < cs.len(),
        forall|q: int| j < q < cs.len() ==> cs[q] != c,
    ensures
        j >= 0 && cs[j] == c ==> last_char(cs, c) == j,
        j == -1 ==> last_char(cs, c) == -1,
    decreases cs.len() - j,
{
    if cs.len() > 0 && j < cs.len() - 1 {
        lemma_last_char(cs.drop_last(), c, j);
    }
}

/// The address and port of "IP:PORT", split at the last ':'; `None` when
/// there is no ':' or the port is not a `u16`.
pub open spec fn addr_of(cs: Seq<char>) -> Option<(Seq<u8>, u16)> {
    let d = last_char(cs, ':');
    if d < 0 {
        None
    } else {
        match parse_uint(cs.subrange(d + 1, cs.len() as int), 10, 65535) {
            Some(p) => Some((ip_of(cs.subrange(0, d)), p as u16)),
            None => None,
        }
    }
}

pub fn parse_addr(s: &str) -> (r: Option<([u8; 4], u16)>)
    ensures
        match r {
            Some((ip, port)) => addr_of(s@) == Some((ip@, port)),
            None => addr_of(s@) is None,
        },
{
    let cs = chars_of(s);
    let n = cs.len();
    let mut j = n;
    while j > 0 && cs[j - 1] != ':'
        invariant
            n == cs@.len(),
            j <= n,
            forall|q: int| j <= q < n ==> cs@[q] != ':',
        decreases j,
    {
        j = j - 1;
    }
    if j == 0 {
        proof { lemma_last_char(cs@, ':', -1); }
        return None;
    }
    let d = j - 1;
    proof { lemma_last_char(cs@, ':', d as int); }
    let port = match parse_uint_range(&cs, d + 1, n, 10, 65535) {
        Some(p) => p as u16,
        None => { return None; }
    };
    let ip = ip_of_range(&cs, 0, d);
    Some((ip, port))
}

} // verus!
