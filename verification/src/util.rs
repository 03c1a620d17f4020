//! Internet checksum (RFC 1071) and big-endian byte helpers shared by the
//! protocol modules.

use vstd::prelude::*;
use vstd::arithmetic::div_mod::{
    lemma_fundamental_div_mod, lemma_fundamental_div_mod_converse_mod,
};

verus! {

// ── Big-endian helpers ──

/// The 16-bit big-endian value of two bytes.
pub open spec fn be16(hi: u8, lo: u8) -> u16 {
    (hi as int * 256 + lo as int) as u16
}

/// The 32-bit big-endian value of four bytes.
pub open spec fn be32(b0: u8, b1: u8, b2: u8, b3: u8) -> u32 {
    (b0 as int * 16777216 + b1 as int * 65536 + b2 as int * 256 + b3 as int) as u32
}

/// The two big-endian bytes of a 16-bit value.
pub open spec fn u16_bytes(v: u16) -> Seq<u8> {
    seq![(v / 256) as u8, (v % 256) as u8]
}

/// The four big-endian bytes of a 32-bit value.
pub open spec fn u32_bytes(v: u32) -> Seq<u8> {
    seq![(v / 16777216) as u8, ((v / 65536) % 256) as u8, ((v / 256) % 256) as u8, (v % 256) as u8]
}

/// The two big-endian bytes of a 16-bit value read back to that value.
pub proof fn lemma_be16_roundtrip(v: u16)
    ensures
        be16(u16_bytes(v)[0], u16_bytes(v)[1]) == v,
{
}

/// The four big-endian bytes of a 32-bit value read back to that value.
pub proof fn lemma_be32_roundtrip(v: u32)
    ensures
        be32(u32_bytes(v)[0], u32_bytes(v)[1], u32_bytes(v)[2], u32_bytes(v)[3]) == v,
{
    let b0 = v / 16777216;
    let b1 = (v / 65536) % 256;
    let b2 = (v / 256) % 256;
    let b3 = v % 256;
    assert(b0 * 16777216 + b1 * 65536 + b2 * 256 + b3 == v) by (nonlinear_arith)
        requires
            b0 == v / 16777216,
            b1 == (v / 65536) % 256,
            b2 == (v / 256) % 256,
            b3 == v % 256,
            v <= u32::MAX,
    ;
}

pub fn read_be16(hi: u8, lo: u8) -> (r: u16)
    ensures
        r == be16(hi, lo),
        r as int == hi as int * 256 + lo as int,
{
    hi as u16 * 256 + lo as u16
}

pub fn read_be32(b0: u8, b1: u8, b2: u8, b3: u8) -> (r: u32)
    ensures
        r == be32(b0, b1, b2, b3),
        r as int == b0 as int * 16777216 + b1 as int * 65536 + b2 as int * 256 + b3 as int,
{
    b0 as u32 * 16777216 + b1 as u32 * 65536 + b2 as u32 * 256 + b3 as u32
}

pub fn push_be16(buf: &mut Vec<u8>, v: u16)
    ensures
        final(buf)@ == old(buf)@ + u16_bytes(v),
{
    buf.push((v / 256) as u8);
    buf.push((v % 256) as u8);
}

pub fn push_be32(buf: &mut Vec<u8>, v: u32)
    ensures
        final(buf)@ == old(buf)@ + u32_bytes(v),
{
    buf.push((v / 16777216) as u8);
    buf.push(((v / 65536) % 256) as u8);
    buf.push(((v / 256) % 256) as u8);
    buf.push((v % 256) as u8);
}

/// Writes `v` big-endian at offset `k` of `buf`.
pub fn set_be16(buf: &mut Vec<u8>, k: usize, v: u16)
    requires
        k + 1 < old(buf).len(),
    ensures
        final(buf)@ == put_u16(old(buf)@, k as int, v),
{
    let k1 = k + 1;
    buf.set(k, (v / 256) as u8);
    buf.set(k1, (v % 256) as u8);
}

/// Header length in bytes announced by the low nibble of an IPv4 first byte.
pub fn ihl_bytes(b: u8) -> (r: usize)
    ensures
        r == (b % 16) as int * 4,
{
    (b % 16) as usize * 4
}

/// Appends every byte of `src` to `buf`.
pub fn push_all(buf: &mut Vec<u8>, src: &[u8])
    ensures
        final(buf)@ == old(buf)@ + src@,
{
    let ghost start = buf@;
    let mut i: usize = 0;
    while i < src.len()
        invariant
            i <= src@.len(),
            buf@ == start + src@.subrange(0, i as int),
        decreases src@.len() - i,
    {
        buf.push(src[i]);
        i = i + 1;
        assert(src@.subrange(0, i as int) == src@.subrange(0, i - 1) + seq![src@[i - 1]]);
    }
    assert(src@.subrange(0, src@.len() as int) == src@);
}

/// A copy of `src[start..end]`.
pub fn copy_range(src: &[u8], start: usize, end: usize) -> (r: Vec<u8>)
    requires
        start <= end <= src@.len(),
    ensures
        r@ == src@.subrange(start as int, end as int),
{
    let mut r: Vec<u8> = Vec::new();
    let mut i: usize = start;
    while i < end
        invariant
            start <= i <= end,
            end <= src@.len(),
            r@ == src@.subrange(start as int, i as int),
        decreases end - i,
    {
        r.push(src[i]);
        i = i + 1;
        assert(src@.subrange(start as int, i as int)
            == src@.subrange(start as int, i - 1) + seq![src@[i - 1]]);
    }
    r
}

/// Byte-wise equality of two slices.
pub fn bytes_eq(a: &[u8], b: &[u8]) -> (r: bool)
    ensures
        r == (a@ == b@),
{
    if a.len() != b.len() {
        return false;
    }
    let mut i: usize = 0;
    while i < a.len()
        invariant
            a@.len() == b@.len(),
            i <= a@.len(),
            forall|j: int| 0 <= j < i ==> a@[j] == b@[j],
        decreases a@.len() - i,
    {
        if a[i] != b[i] {
            return false;
        }
        i = i + 1;
    }
    assert(a@ =~= b@);
    true
}

// ── Internet checksum ──

/// The `j`-th 16-bit word of `s`; an odd final byte is padded with a zero
/// low byte.
pub open spec fn word_at(s: Seq<u8>, j: int) -> nat {
    if 2 * j + 1 < s.len() {
        (s[2 * j] as nat) * 256 + s[2 * j + 1] as nat
    } else {
        (s[2 * j] as nat) * 256
    }
}

/// Sum of the first `n` words of `s`.
pub open spec fn words_sum(s: Seq<u8>, n: nat) -> nat
    decreases n,
{
    if n == 0 {
        0
    } else {
        words_sum(s, (n - 1) as nat) + word_at(s, n - 1)
    }
}

/// Number of 16-bit words in `s` (an odd final byte counts as a word).
pub open spec fn word_count(s: Seq<u8>) -> nat {
    ((s.len() + 1) / 2) as nat
}

/// Plain integer sum of all 16-bit words of `s`.
pub open spec fn word_sum(s: Seq<u8>) -> nat {
    words_sum(s, word_count(s))
}

/// The checksum's running 32-bit sum never overflows on `s`.
pub open spec fn sum_fits(s: Seq<u8>) -> bool {
    word_sum(s) <= u32::MAX
}

/// End-around-carry folding of a sum into 16 bits.
pub open spec fn fold16(x: nat) -> nat
    decreases x,
{
    if x < 65536 {
        x
    } else {
        proof {
            lemma_fundamental_div_mod(x as int, 65536);
        }
        fold16(x % 65536 + x / 65536)
    }
}

/// The RFC 1071 checksum of `s`: one's complement of the folded word sum.
pub open spec fn checksum_spec(s: Seq<u8>) -> u16 {
    (65535 - fold16(word_sum(s))) as u16
}

/// `s` with the 16-bit value `v` written big-endian at offset `k`.
pub open spec fn put_u16(s: Seq<u8>, k: int, v: u16) -> Seq<u8> {
    s.update(k, (v / 256) as u8).update(k + 1, (v % 256) as u8)
}

proof fn lemma_fold16_step(x: nat)
    requires
        x >= 65536,
    ensures
        x % 65536 + x / 65536 < x,
        (x % 65536 + x / 65536) % 65535 == x % 65535,
        x % 65536 + x / 65536 > 0,
{
    lemma_fundamental_div_mod(x as int, 65536);
    let q = x / 65536;
    let r = x % 65536;
    assert(q >= 1);
    assert(x == 65536 * q + r);
    assert(x == (r + q) + 65535 * q) by (nonlinear_arith)
        requires
            x == 65536 * q + r,
    ;
    lemma_mod_shift((r + q) as int, q as int);
}

/// `(a + 65535 * k) % 65535 == a % 65535` for naturals.
proof fn lemma_mod_shift(a: int, k: int)
    requires
        a >= 0,
        k >= 0,
    ensures
        (a + 65535 * k) % 65535 == a % 65535,
{
    lemma_fundamental_div_mod(a, 65535);
    let q = a / 65535;
    let r = a % 65535;
    assert(a + 65535 * k == (q + k) * 65535 + r) by (nonlinear_arith)
        requires
            a == 65535 * q + r,
    ;
    lemma_fundamental_div_mod_converse_mod(a + 65535 * k, 65535, q + k, r);
}

/// Folding keeps the value modulo 65535, stays within 16 bits, and is zero
/// only for zero.
pub proof fn lemma_fold16(x: nat)
    ensures
        fold16(x) <= 65535,
        fold16(x) % 65535 == x % 65535,
        fold16(x) == 0 <==> x == 0,
    decreases x,
{
    if x >= 65536 {
        lemma_fold16_step(x);
        lemma_fold16((x % 65536 + x / 65536) as nat);
    }
}

proof fn lemma_words_sum_mono(s: Seq<u8>, a: nat, b: nat)
    requires
        a <= b,
    ensures
        words_sum(s, a) <= words_sum(s, b),
    decreases b,
{
    if a < b {
        lemma_words_sum_mono(s, a, (b - 1) as nat);
    }
}

/// Writing the 16-bit value `v` over a zero word at an even offset adds `v`
/// to the word sum of every prefix that covers that word.
proof fn lemma_words_sum_put(s: Seq<u8>, k: int, v: u16, n: nat)
    requires
        0 <= k,
        k % 2 == 0,
        k + 1 < s.len(),
        s[k] == 0,
        s[k + 1] == 0,
        n <= word_count(s),
    ensures
        words_sum(put_u16(s, k, v), n) == words_sum(s, n) + (if n > k / 2 {
            v as nat
        } else {
            0
        }),
    decreases n,
{
    let t = put_u16(s, k, v);
    if n > 0 {
        lemma_words_sum_put(s, k, v, (n - 1) as nat);
        let j = n - 1;
        assert(t.len() == s.len());
        if j == k / 2 {
            assert(2 * j == k);
            assert(t[k] == (v / 256) as u8);
            assert(t[k + 1] == (v % 256) as u8);
            assert(word_at(t, j) == v as nat);
            assert(word_at(s, j) == 0);
        } else {
            assert(2 * j != k && 2 * j != k + 1 && 2 * j + 1 != k && 2 * j + 1 != k + 1);
            assert(word_at(t, j) == word_at(s, j));
        }
    }
}

/// The RFC 1071 property: with a zeroed 16-bit field at an even offset,
/// writing the computed checksum into that field makes the checksum of the
/// whole data zero.
pub proof fn lemma_checksum_self_validates(s: Seq<u8>, k: int)
    requires
        0 <= k,
        k % 2 == 0,
        k + 1 < s.len(),
        s[k] == 0,
        s[k + 1] == 0,
    ensures
        checksum_spec(put_u16(s, k, checksum_spec(s))) == 0,
{
    let cs = checksum_spec(s);
    let t = put_u16(s, k, cs);
    let total = word_sum(s);
    lemma_fold16(total);
    let f = fold16(total);
    assert(cs as nat == 65535 - f);
    assert(word_count(t) == word_count(s));
    assert(k / 2 < word_count(s));
    lemma_words_sum_put(s, k, cs, word_count(s));
    assert(word_sum(t) == total + (65535 - f));
    let t_total = word_sum(t);
    lemma_fold16(t_total);
    // total + 65535 - f is a positive multiple of 65535
    lemma_fundamental_div_mod(total as int, 65535);
    lemma_mod_shift(total as int - f, 1);
    assert(f % 65535 == total % 65535);
    assert((total as int - f) % 65535 == 0) by {
        let q = total as int / 65535;
        let r = total as int % 65535;
        lemma_fundamental_div_mod(f as int, 65535);
        let qf = f as int / 65535;
        assert(total as int - f == (q - qf) * 65535) by (nonlinear_arith)
            requires
                total as int == 65535 * q + r,
                f as int == 65535 * qf + r,
        ;
        lemma_mul_mod_zero(q - qf);
    }
    assert(t_total % 65535 == 0);
    assert(t_total > 0);
    assert(fold16(t_total) == 65535);
}

proof fn lemma_mul_mod_zero(q: int)
    ensures
        (q * 65535) % 65535 == 0,
{
    lemma_fundamental_div_mod_converse_mod(q * 65535, 65535, q, 0);
}

/// Sum of all words is bounded by the word count times 0xFFFF.
pub proof fn lemma_word_sum_bound(s: Seq<u8>, n: nat)
    ensures
        words_sum(s, n) <= n * 65535,
    decreases n,
{
    if n > 0 {
        lemma_word_sum_bound(s, (n - 1) as nat);
        assert(word_at(s, n - 1) <= 65535);
    }
}

/// Short data never overflows the checksum's running sum.
pub proof fn lemma_short_sum_fits(s: Seq<u8>)
    requires
        s.len() <= 131072,
    ensures
        sum_fits(s),
{
    lemma_word_sum_bound(s, word_count(s));
    assert(word_count(s) <= 65536);
    assert(word_count(s) * 65535 <= 65536 * 65535) by (nonlinear_arith)
        requires
            word_count(s) <= 65536,
    ;
}

/// Internet checksum (RFC 1071): one's complement of the one's complement sum
/// of 16-bit words. Returns 0x0000 to indicate a valid checksum when the input
/// includes the checksum field.
pub fn checksum(data: &[u8]) -> (r: u16)
    requires
        sum_fits(data@),
    ensures
        r == checksum_spec(data@),
{
    let ghost s = data@;
    let n = data.len();
    let mut sum: u32 = 0;
    let mut i: usize = 0;
    proof {
        lemma_words_sum_mono(s, 0, word_count(s));
    }
    while i < n && n - i > 1
        invariant
            n == s.len(),
            s == data@,
            i % 2 == 0,
            i <= n,
            sum as nat == words_sum(s, (i / 2) as nat),
            word_sum(s) <= u32::MAX,
        decreases n - i,
    {
        let w = read_be16(data[i], data[i + 1]);
        proof {
            assert(word_at(s, (i / 2) as int) == w as nat);
            assert((i / 2 + 1) as nat <= word_count(s));
            lemma_words_sum_mono(s, (i / 2 + 1) as nat, word_count(s));
        }
        sum = sum + w as u32;
        i = i + 2;
    }
    if i < n {
        proof {
            assert(i + 1 == n);
            assert(word_at(s, (i / 2) as int) == s[i as int] as nat * 256);
            assert((i / 2 + 1) as nat == word_count(s));
        }
        sum = sum + (data[i] as u32) * 256;
    } else {
        assert((i / 2) as nat == word_count(s));
    }
    assert(sum as nat == word_sum(s));
    let ghost total = sum as nat;
    while sum >= 65536
        invariant
            fold16(sum as nat) == fold16(total),
        decreases sum,
    {
        proof {
            lemma_fold16_step(sum as nat);
        }
        sum = sum % 65536 + sum / 65536;
    }
    proof {
        lemma_fold16(total);
    }
    let folded = sum as u16;
    assert(folded as nat == fold16(total));
    0xFFFF - folded
}

} // verus!
