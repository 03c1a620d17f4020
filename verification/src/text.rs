//! Text helpers with contracts: reading the characters of a string,
//! Unicode whitespace trimming, unsigned integer parsing as `str::parse`
//! and `from_str_radix` do it, and decimal / hexadecimal formatting.

use vstd::prelude::*;
use vstd::utf8::{encode_utf8, encode_scalar};
use vstd::string::{StrSliceExecFns, StringExecFns};

verus! {

/// `char::is_whitespace`: the Unicode White_Space property.
pub open spec fn is_ws(c: char) -> bool {
    let u = c as u32;
    (9 <= u <= 13) || u == 32 || u == 0x85 || u == 0xA0 || u == 0x1680 || (0x2000 <= u <= 0x200A)
        || u == 0x2028 || u == 0x2029 || u == 0x202F || u == 0x205F || u == 0x3000
}

pub fn char_is_ws(c: char) -> (r: bool)
    ensures
        r == is_ws(c),
{
    let u = c as u32;
    (9 <= u && u <= 13) || u == 32 || u == 0x85 || u == 0xA0 || u == 0x1680 || (0x2000 <= u && u <= 0x200A)
        || u == 0x2028 || u == 0x2029 || u == 0x202F || u == 0x205F || u == 0x3000
}

pub open spec fn trim_start(cs: Seq<char>) -> Seq<char>
    decreases cs.len(),
{
    if cs.len() > 0 && is_ws(cs[0]) { trim_start(cs.drop_first()) } else { cs }
}

pub open spec fn trim_end(cs: Seq<char>) -> Seq<char>
    decreases cs.len(),
{
    if cs.len() > 0 && is_ws(cs.last()) { trim_end(cs.drop_last()) } else { cs }
}

/// `str::trim`: leading and trailing whitespace removed.
pub open spec fn trim(cs: Seq<char>) -> Seq<char> {
    trim_end(trim_start(cs))
}

/// The characters of a string.
pub fn chars_of(s: &str) -> (r: Vec<char>)
    ensures
        r@ == s@,
{
    let n = s.unicode_len();
    let mut r: Vec<char> = Vec::new();
    let mut i: usize = 0;
    while i < n
        invariant
            n == s@.len(),
            i <= n,
            r@ == s@.subrange(0, i as int),
        decreases n - i,
    {
        r.push(s.get_char(i));
        i = i + 1;
        assert(r@ =~= s@.subrange(0, i as int));
    }
    assert(r@ =~= s@);
    r
}

/// Bounds of `cs[from..to]` with whitespace trimmed from both ends.
pub fn trim_bounds(cs: &Vec<char>, from: usize, to: usize) -> (r: (usize, usize))
    requires
        from <= to <= cs@.len(),
    ensures
        from <= r.0 <= r.1 <= to,
        cs@.subrange(r.0 as int, r.1 as int) == trim(cs@.subrange(from as int, to as int)),
{
    let ghost whole = cs@.subrange(from as int, to as int);
    let mut lo = from;
    while lo < to && char_is_ws(cs[lo])
        invariant
            from <= lo <= to <= cs@.len(),
            trim_start(whole) == trim_start(cs@.subrange(lo as int, to as int)),
        decreases to - lo,
    {
        assert(cs@.subrange(lo as int, to as int).drop_first() == cs@.subrange(lo + 1, to as int));
        lo = lo + 1;
    }
    assert(trim_start(cs@.subrange(lo as int, to as int)) == cs@.subrange(lo as int, to as int));
    let mut hi = to;
    while hi > lo && char_is_ws(cs[hi - 1])
        invariant
            from <= lo <= hi <= to <= cs@.len(),
            trim(whole) == trim_end(cs@.subrange(lo as int, hi as int)),
        decreases hi - lo,
    {
        assert(cs@.subrange(lo as int, hi as int).drop_last() == cs@.subrange(lo as int, hi - 1));
        hi = hi - 1;
    }
    (lo, hi)
}

// ── Unsigned integers ──

/// Value of a digit in `radix` (10 or 16; both letter cases for 16).
pub open spec fn digit_value(c: char, radix: nat) -> Option<nat> {
    let u = c as u32;
    if 48 <= u <= 57 && (u - 48) < radix {
        Some((u - 48) as nat)
    } else if radix == 16 && 97 <= u <= 102 {
        Some((u - 87) as nat)
    } else if radix == 16 && 65 <= u <= 70 {
        Some((u - 55) as nat)
    } else {
        None
    }
}

pub open spec fn all_digits(ds: Seq<char>, radix: nat) -> bool {
    forall|i: int| 0 <= i < ds.len() ==> (#[trigger] digit_value(ds[i], radix)) is Some
}

pub open spec fn digits_value(ds: Seq<char>, radix: nat) -> nat
    decreases ds.len(),
{
    if ds.len() == 0 {
        0
    } else {
        digits_value(ds.drop_last(), radix) * radix + digit_value(ds.last(), radix).unwrap()
    }
}

/// `from_str_radix` of an unsigned type whose largest value is `max`: an
/// optional '+', then at least one digit, and a value no larger than `max`.
pub open spec fn parse_uint(cs: Seq<char>, radix: nat, max: nat) -> Option<nat> {
    let ds = if cs.len() > 0 && cs[0] == '+' { cs.drop_first() } else { cs };
    if ds.len() == 0 || !all_digits(ds, radix) || digits_value(ds, radix) > max {
        None
    } else {
        Some(digits_value(ds, radix))
    }
}

fn digit_of(c: char, radix: u32) -> (r: Option<u32>)
    requires
        radix == 10 || radix == 16,
    ensures
        match digit_value(c, radix as nat) {
            Some(v) => r == Some(v as u32),
            None => r is None,
        },
{
    let u = c as u32;
    if 48 <= u && u <= 57 && (u - 48) < radix {
        Some(u - 48)
    } else if radix == 16 && 97 <= u && u <= 102 {
        Some(u - 87)
    } else if radix == 16 && 65 <= u && u <= 70 {
        Some(u - 55)
    } else {
        None
    }
}

proof fn lemma_digits_grow(ds: Seq<char>, radix: nat, i: int)
    requires
        radix >= 1,
        0 <= i <= ds.len(),
        all_digits(ds, radix),
    ensures
        digits_value(ds.subrange(0, i), radix) <= digits_value(ds, radix),
    decreases ds.len() - i,
{
    if i < ds.len() {
        lemma_digits_grow(ds, radix, i + 1);
        let p = ds.subrange(0, i + 1);
        assert(p.drop_last() == ds.subrange(0, i));
        assert(digit_value(ds[i], radix) is Some);
        let a = digits_value(ds.subrange(0, i), radix);
        assert(a * radix >= a) by (nonlinear_arith)
            requires
                radix >= 1,
                a >= 0,
        ;
    } else {
        assert(ds.subrange(0, i) == ds);
    }
}

/// Parses `cs[from..to]` as `from_str_radix` does for an unsigned type
/// whose largest value is `max`.
pub fn parse_uint_range(cs: &Vec<char>, from: usize, to: usize, radix: u32, max: u64) -> (r: Option<u64>)
    requires
        from <= to <= cs@.len(),
        radix == 10 || radix == 16,
    ensures
        match parse_uint(cs@.subrange(from as int, to as int), radix as nat, max as nat) {
            Some(v) => r == Some(v as u64),
            None => r is None,
        },
{
    let ghost whole = cs@.subrange(from as int, to as int);
    let mut start = from;
    if from < to && cs[from] == '+' {
        start = from + 1;
    }
    let ghost ds = cs@.subrange(start as int, to as int);
    assert(ds == if whole.len() > 0 && whole[0] == '+' { whole.drop_first() } else { whole });
    if start == to {
        return None;
    }
    let mut acc: u128 = 0;
    let mut i = start;
    while i < to
        invariant
            from <= start <= i <= to <= cs@.len(),
            start < to,
            radix == 10 || radix == 16,
            ds == cs@.subrange(start as int, to as int),
            whole == cs@.subrange(from as int, to as int),
            ds == (if whole.len() > 0 && whole[0] == '+' { whole.drop_first() } else { whole }),
            all_digits(cs@.subrange(start as int, i as int), radix as nat),
            acc == digits_value(cs@.subrange(start as int, i as int), radix as nat),
            acc <= max,
        decreases to - i,
    {
        let d = match digit_of(cs[i], radix) {
            Some(d) => d,
            None => {
                assert(ds[i - start] == cs@[i as int]);
                assert(digit_value(ds[i - start], radix as nat) is None);
                assert(!all_digits(ds, radix as nat));
                return None;
            }
        };
        let ghost p = cs@.subrange(start as int, i + 1);
        assert(p.drop_last() == cs@.subrange(start as int, i as int));
        assert(all_digits(p, radix as nat)) by {
            assert forall|k: int| 0 <= k < p.len() implies (#[trigger] digit_value(p[k], radix as nat)) is Some by {
                if k < p.len() - 1 {
                    assert(p[k] == cs@.subrange(start as int, i as int)[k]);
                }
            }
        }
        assert(acc * (radix as u128) <= 0xffff_ffff_ffff_ffffu128 * 16) by (nonlinear_arith)
            requires
                acc <= 0xffff_ffff_ffff_ffffu128,
                radix <= 16,
        ;
        let next: u128 = acc * radix as u128 + d as u128;
        if next > max as u128 {
            proof {
                if all_digits(ds, radix as nat) {
                    assert(ds.subrange(0, i + 1 - start) == p);
                    lemma_digits_grow(ds, radix as nat, i + 1 - start);
                }
            }
            return None;
        }
        acc = next;
        i = i + 1;
    }
    assert(cs@.subrange(start as int, i as int) == ds);
    Some(acc as u64)
}

// ── Formatting ──

pub open spec fn digit_char(d: nat) -> char {
    if d < 10 { ((48 + d) as u32) as char } else { ((87 + d) as u32) as char }
}

/// Digits of `n` in `radix`, most significant first, lower-case letters,
/// without leading zeros ("0" for zero).
pub open spec fn radix_chars(n: nat, radix: nat) -> Seq<char>
    decreases n,
{
    if radix < 2 || n < radix {
        seq![digit_char(n)]
    } else {
        proof {
            assert(n / radix < n) by (nonlinear_arith)
                requires
                    radix >= 2,
                    n >= radix,
            ;
        }
        radix_chars(n / radix, radix).push(digit_char(n % radix))
    }
}

/// Reading back the digits that `radix_chars` writes gives the number:
/// every character is a digit of the radix, and there is at least one.
pub proof fn lemma_radix_roundtrip(n: nat, radix: nat)
    requires
        radix == 10 || radix == 16,
    ensures
        radix_chars(n, radix).len() > 0,
        all_digits(radix_chars(n, radix), radix),
        digits_value(radix_chars(n, radix), radix) == n,
    decreases n,
{
    if n < radix {
        let c = digit_char(n);
        assert(digit_value(c, radix) == Some(n));
        assert(radix_chars(n, radix).drop_last() =~= Seq::<char>::empty());
        assert(digits_value(Seq::<char>::empty(), radix) * radix == 0);
    } else {
        let q = n / radix;
        let m = n % radix;
        assert(q < n && m < radix && q * radix + m == n) by (nonlinear_arith)
            requires
                radix >= 2,
                n >= radix,
                q == n / radix,
                m == n % radix,
        ;
        lemma_radix_roundtrip(q, radix);
        let ds = radix_chars(n, radix);
        assert(ds == radix_chars(q, radix).push(digit_char(m)));
        assert(ds.drop_last() =~= radix_chars(q, radix));
        assert(ds.last() == digit_char(m));
        assert(digit_value(digit_char(m), radix) == Some(m));
        assert(digits_value(ds, radix) == digits_value(ds.drop_last(), radix) * radix + m);
        assert forall|i: int| 0 <= i < ds.len() implies (#[trigger] digit_value(ds[i], radix)) is Some by {
            if i < ds.len() - 1 {
                assert(ds[i] == radix_chars(q, radix)[i]);
            }
        }
    }
}

/// The UTF-8 encoding of a concatenation is the concatenation of the
/// encodings.
pub proof fn lemma_encode_append(a: Seq<char>, b: Seq<char>)
    ensures
        encode_utf8(a + b) == encode_utf8(a) + encode_utf8(b),
    decreases a.len(),
{
    if a.len() == 0 {
        assert(a + b =~= b);
        assert(encode_utf8(a) + encode_utf8(b) =~= encode_utf8(b));
    } else {
        assert((a + b)[0] == a[0]);
        assert((a + b).drop_first() =~= a.drop_first() + b);
        lemma_encode_append(a.drop_first(), b);
        assert(encode_utf8(a + b) =~= encode_utf8(a) + encode_utf8(b));
    }
}

/// ASCII characters encode one byte each, the byte being the code.
pub proof fn lemma_encode_ascii(cs: Seq<char>)
    requires
        forall|i: int| 0 <= i < cs.len() ==> (cs[i] as u32) < 128,
    ensures
        encode_utf8(cs).len() == cs.len(),
        forall|i: int| 0 <= i < cs.len() ==> encode_utf8(cs)[i] == (cs[i] as u32) as u8,
    decreases cs.len(),
{
    if cs.len() > 0 {
        let t = cs.drop_first();
        assert forall|i: int| 0 <= i < t.len() implies (t[i] as u32) < 128 by {
            assert(t[i] == cs[i + 1]);
        }
        lemma_encode_ascii(t);
        let v = cs[0] as u32;
        assert((v & 0x7F) == v) by (bit_vector)
            requires
                v < 128,
        ;
        assert(encode_scalar(v) == seq![v as u8]);
        let e = encode_utf8(cs);
        assert(e == seq![v as u8] + encode_utf8(t));
        assert forall|i: int| 0 <= i < cs.len() implies e[i] == (cs[i] as u32) as u8 by {
            if i > 0 {
                assert(e[i] == encode_utf8(t)[i - 1]);
                assert(t[i - 1] == cs[i]);
            }
        }
    }
}

pub open spec fn dec_chars(n: nat) -> Seq<char> {
    radix_chars(n, 10)
}

pub open spec fn hex_chars(n: nat) -> Seq<char> {
    radix_chars(n, 16)
}

fn digit_str(d: u64) -> (r: &'static str)
    requires
        d < 16,
    ensures
        r@ == seq![digit_char(d as nat)],
{
    proof {
        reveal_strlit("0");
        reveal_strlit("1");
        reveal_strlit("2");
        reveal_strlit("3");
        reveal_strlit("4");
        reveal_strlit("5");
        reveal_strlit("6");
        reveal_strlit("7");
        reveal_strlit("8");
        reveal_strlit("9");
        reveal_strlit("a");
        reveal_strlit("b");
        reveal_strlit("c");
        reveal_strlit("d");
        reveal_strlit("e");
        reveal_strlit("f");
    }
    let r = if d == 0 {
        "0"
    } else if d == 1 {
        "1"
    } else if d == 2 {
        "2"
    } else if d == 3 {
        "3"
    } else if d == 4 {
        "4"
    } else if d == 5 {
        "5"
    } else if d == 6 {
        "6"
    } else if d == 7 {
        "7"
    } else if d == 8 {
        "8"
    } else if d == 9 {
        "9"
    } else if d == 10 {
        "a"
    } else if d == 11 {
        "b"
    } else if d == 12 {
        "c"
    } else if d == 13 {
        "d"
    } else if d == 14 {
        "e"
    } else {
        "f"
    };
    assert(r@ =~= seq![digit_char(d as nat)]);
    r
}

/// Appends the digits of `n` in `radix` (10 or 16).
pub fn push_radix(s: &mut String, n: u64, radix: u64)
    requires
        radix == 10 || radix == 16,
    ensures
        final(s)@ == old(s)@ + radix_chars(n as nat, radix as nat),
    decreases n,
{
    if n >= radix {
        push_radix(s, n / radix, radix);
    }
    s.append(digit_str(n % radix));
    assert(n < radix ==> n % radix == n);
}

/// `n` in decimal, as `format!("{}", n)` writes it.
pub fn dec_string(n: u64) -> (r: String)
    ensures
        r@ == dec_chars(n as nat),
{
    let mut s = String::new();
    push_radix(&mut s, n, 10);
    s
}

/// `n` in lower-case hexadecimal, as `format!("{:x}", n)` writes it.
pub fn hex_string(n: u64) -> (r: String)
    ensures
        r@ == hex_chars(n as nat),
{
    let mut s = String::new();
    push_radix(&mut s, n, 16);
    s
}

// ── Splitting ──

/// The pieces of `cs` between separators (`str::split`), the piece being
/// read so far being `cur`; empty pieces are kept.
pub open spec fn split_from(cs: Seq<char>, cur: Seq<char>, sep: char) -> Seq<Seq<char>>
    decreases cs.len(),
{
    if cs.len() == 0 {
        seq![cur]
    } else if cs[0] == sep {
        seq![cur] + split_from(cs.drop_first(), seq![], sep)
    } else {
        split_from(cs.drop_first(), cur.push(cs[0]), sep)
    }
}

/// `str::split` by one character.
pub open spec fn split_by(cs: Seq<char>, sep: char) -> Seq<Seq<char>> {
    split_from(cs, seq![], sep)
}

/// The words of `cs` (`str::split_whitespace`), `cur` being the word read so far.
pub open spec fn words_from(cs: Seq<char>, cur: Seq<char>) -> Seq<Seq<char>>
    decreases cs.len(),
{
    if cs.len() == 0 {
        if cur.len() == 0 { seq![] } else { seq![cur] }
    } else if is_ws(cs[0]) {
        (if cur.len() == 0 { seq![] } else { seq![cur] }) + words_from(cs.drop_first(), seq![])
    } else {
        words_from(cs.drop_first(), cur.push(cs[0]))
    }
}

/// `str::split_whitespace`: the maximal runs of non-whitespace characters.
pub open spec fn words(cs: Seq<char>) -> Seq<Seq<char>> {
    words_from(cs, seq![])
}

/// The pieces that index ranges of `cs` select.
pub open spec fn ranges_view(cs: Seq<char>, rs: Seq<(usize, usize)>) -> Seq<Seq<char>> {
    rs.map_values(|r: (usize, usize)| cs.subrange(r.0 as int, r.1 as int))
}

pub open spec fn ranges_within(rs: Seq<(usize, usize)>, from: int, to: int) -> bool {
    forall|k: int| 0 <= k < rs.len() ==> from <= (#[trigger] rs[k]).0 <= rs[k].1 <= to
}

/// Ranges of the pieces of `cs[from..to]` split at `sep`.
pub fn split_ranges(cs: &Vec<char>, from: usize, to: usize, sep: char) -> (r: Vec<(usize, usize)>)
    requires
        from <= to <= cs@.len(),
    ensures
        ranges_within(r@, from as int, to as int),
        ranges_view(cs@, r@) == split_by(cs@.subrange(from as int, to as int), sep),
{
    let ghost whole = cs@.subrange(from as int, to as int);
    let mut out: Vec<(usize, usize)> = Vec::new();
    let mut start = from;
    let mut i = from;
    assert(ranges_view(cs@, out@) =~= Seq::<Seq<char>>::empty());
    assert(cs@.subrange(from as int, from as int) =~= Seq::<char>::empty());
    assert(Seq::<Seq<char>>::empty() + split_by(whole, sep) =~= split_by(whole, sep));
    while i < to
        invariant
            from <= start <= i <= to <= cs@.len(),
            whole == cs@.subrange(from as int, to as int),
            ranges_within(out@, from as int, to as int),
            ranges_view(cs@, out@) + split_from(cs@.subrange(i as int, to as int), cs@.subrange(start as int, i as int), sep)
                == split_by(whole, sep),
        decreases to - i,
    {
        let ghost rest = cs@.subrange(i as int, to as int);
        let ghost cur = cs@.subrange(start as int, i as int);
        assert(rest.drop_first() == cs@.subrange(i + 1, to as int));
        assert(rest[0] == cs@[i as int]);
        if cs[i] == sep {
            let ghost before = out@;
            out.push((start, i));
            assert(ranges_view(cs@, out@) == ranges_view(cs@, before).push(cur));
            assert(ranges_view(cs@, out@) + split_from(cs@.subrange(i + 1, to as int), seq![], sep)
                =~= ranges_view(cs@, before) + (seq![cur] + split_from(rest.drop_first(), seq![], sep)));
            start = i + 1;
            i = i + 1;
            assert(cs@.subrange(start as int, i as int) =~= Seq::<char>::empty());
        } else {
            i = i + 1;
            assert(cs@.subrange(start as int, i as int) =~= cur.push(rest[0]));
        }
    }
    let ghost before = out@;
    out.push((start, to));
    assert(ranges_view(cs@, out@) == ranges_view(cs@, before).push(cs@.subrange(start as int, to as int)));
    assert(cs@.subrange(i as int, to as int) =~= Seq::<char>::empty());
    assert(ranges_view(cs@, out@) =~= ranges_view(cs@, before) + seq![cs@.subrange(start as int, to as int)]);
    out
}

/// Ranges of the words of `cs[from..to]`.
pub fn word_ranges(cs: &Vec<char>, from: usize, to: usize) -> (r: Vec<(usize, usize)>)
    requires
        from <= to <= cs@.len(),
    ensures
        ranges_within(r@, from as int, to as int),
        ranges_view(cs@, r@) == words(cs@.subrange(from as int, to as int)),
{
    let ghost whole = cs@.subrange(from as int, to as int);
    let mut out: Vec<(usize, usize)> = Vec::new();
    let mut start = from;
    let mut i = from;
    assert(ranges_view(cs@, out@) =~= Seq::<Seq<char>>::empty());
    assert(cs@.subrange(from as int, from as int) =~= Seq::<char>::empty());
    assert(Seq::<Seq<char>>::empty() + words(whole) =~= words(whole));
    while i < to
        invariant
            from <= start <= i <= to <= cs@.len(),
            whole == cs@.subrange(from as int, to as int),
            ranges_within(out@, from as int, to as int),
            ranges_view(cs@, out@) + words_from(cs@.subrange(i as int, to as int), cs@.subrange(start as int, i as int))
                == words(whole),
        decreases to - i,
    {
        let ghost rest = cs@.subrange(i as int, to as int);
        let ghost cur = cs@.subrange(start as int, i as int);
        assert(rest.drop_first() == cs@.subrange(i + 1, to as int));
        assert(rest[0] == cs@[i as int]);
        if char_is_ws(cs[i]) {
            let ghost before = out@;
            if i > start {
                out.push((start, i));
                assert(ranges_view(cs@, out@) == ranges_view(cs@, before).push(cur));
                assert(ranges_view(cs@, out@) + words_from(cs@.subrange(i + 1, to as int), seq![])
                    =~= ranges_view(cs@, before) + (seq![cur] + words_from(rest.drop_first(), seq![])));
            } else {
                assert(cur.len() == 0);
                assert(ranges_view(cs@, out@) + words_from(cs@.subrange(i + 1, to as int), seq![])
                    =~= ranges_view(cs@, before) + (Seq::<Seq<char>>::empty() + words_from(rest.drop_first(), seq![])));
            }
            start = i + 1;
            i = i + 1;
            assert(cs@.subrange(start as int, i as int) =~= Seq::<char>::empty());
        } else {
            i = i + 1;
            assert(cs@.subrange(start as int, i as int) =~= cur.push(rest[0]));
        }
    }
    assert(cs@.subrange(i as int, to as int) =~= Seq::<char>::empty());
    if i > start {
        let ghost before = out@;
        out.push((start, to));
        assert(ranges_view(cs@, out@) =~= ranges_view(cs@, before) + seq![cs@.subrange(start as int, to as int)]);
    } else {
        assert(ranges_view(cs@, out@) =~= ranges_view(cs@, out@) + Seq::<Seq<char>>::empty());
    }
    out
}

/// A line without the '\r' that ended it before its '\n'.
pub open spec fn strip_cr(p: Seq<char>) -> Seq<char> {
    if p.len() > 0 && p.last() == '\r' { p.drop_last() } else { p }
}

pub open spec fn strip_all(ps: Seq<Seq<char>>) -> Seq<Seq<char>> {
    ps.map_values(|p: Seq<char>| strip_cr(p))
}

/// `str::lines`: the pieces between '\n's, each without a '\r' before its
/// '\n'; the text after the last '\n' is a line only when not empty.
pub open spec fn lines(cs: Seq<char>) -> Seq<Seq<char>> {
    let ps = split_by(cs, '\n');
    let n = ps.len() as int;
    let body = strip_all(ps.subrange(0, n - 1));
    if ps[n - 1].len() == 0 { body } else { body.push(ps[n - 1]) }
}

proof fn lemma_split_nonempty(cs: Seq<char>, cur: Seq<char>, sep: char)
    ensures
        split_from(cs, cur, sep).len() >= 1,
    decreases cs.len(),
{
    if cs.len() > 0 {
        if cs[0] == sep {
            lemma_split_nonempty(cs.drop_first(), seq![], sep);
        } else {
            lemma_split_nonempty(cs.drop_first(), cur.push(cs[0]), sep);
        }
    }
}

/// Ranges of the lines of `cs[from..to]`.
pub fn line_ranges(cs: &Vec<char>, from: usize, to: usize) -> (r: Vec<(usize, usize)>)
    requires
        from <= to <= cs@.len(),
    ensures
        ranges_within(r@, from as int, to as int),
        ranges_view(cs@, r@) == lines(cs@.subrange(from as int, to as int)),
{
    let ps = split_ranges(cs, from, to, '\n');
    let ghost pv = split_by(cs@.subrange(from as int, to as int), '\n');
    proof { lemma_split_nonempty(cs@.subrange(from as int, to as int), seq![], '\n'); }
    assert(ranges_view(cs@, ps@).len() == ps@.len());
    let n = ps.len();
    let mut out: Vec<(usize, usize)> = Vec::new();
    let mut k: usize = 0;
    assert(strip_all(pv.subrange(0, 0)) =~= Seq::<Seq<char>>::empty());
    assert(ranges_view(cs@, out@) =~= Seq::<Seq<char>>::empty());
    while k + 1 < n
        invariant
            n == ps@.len(),
            n >= 1,
            k < n,
            pv == ranges_view(cs@, ps@),
            ranges_within(ps@, from as int, to as int),
            ranges_within(out@, from as int, to as int),
            to <= cs@.len(),
            ranges_view(cs@, out@) == strip_all(pv.subrange(0, k as int)),
        decreases n - k,
    {
        let (a, b) = ps[k];
        assert(from <= a <= b <= to);
        let e = if b > a && cs[b - 1] == '\r' { b - 1 } else { b };
        let ghost before = out@;
        out.push((a, e));
        assert(pv[k as int] == cs@.subrange(a as int, b as int));
        assert(cs@.subrange(a as int, e as int) == strip_cr(pv[k as int])) by {
            if b > a && cs@[b - 1] == '\r' {
                assert(cs@.subrange(a as int, b as int).drop_last() =~= cs@.subrange(a as int, b - 1));
            }
        }
        assert(ranges_view(cs@, out@) == ranges_view(cs@, before).push(cs@.subrange(a as int, e as int)));
        assert(strip_all(pv.subrange(0, k + 1)) =~= strip_all(pv.subrange(0, k as int)).push(strip_cr(pv[k as int])));
        k = k + 1;
    }
    let (a, b) = ps[n - 1];
    assert(pv[n - 1] == cs@.subrange(a as int, b as int));
    if b > a {
        let ghost before = out@;
        out.push((a, b));
        assert(ranges_view(cs@, out@) == ranges_view(cs@, before).push(cs@.subrange(a as int, b as int)));
    }
    out
}

} // verus!
