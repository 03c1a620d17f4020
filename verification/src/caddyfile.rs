//! Caddyfile reader: each `address { directives }` block becomes one site.

use vstd::prelude::*;
use vstd::string::{StrSliceExecFns, StringExecFns};
use crate::addr::{last_char, lemma_last_char};
use crate::http::{str_eq, first_char, lemma_first_char};
use crate::text::{
    chars_of, trim, trim_start, trim_bounds, words, word_ranges, lines, line_ranges, split_by,
    split_ranges, ranges_view, ranges_within,
};

verus! {

/// One site: a listener (or a virtual host on it) and what it serves.
#[derive(Debug, Clone)]
pub struct SiteConfig {
    pub listen_addr: String,
    pub host: Option<String>,
    pub root: Option<String>,
    pub file_server: bool,
    pub gzip: bool,
    pub log: bool,
    pub reverse_proxy: Option<String>,
    /// ("user:password", realm).
    pub basic_auth: Option<(String, String)>,
    /// The rate and burst words of a `rate_limit` directive, as written.
    pub rate_limit: Option<(Option<String>, Option<String>)>,
}

pub struct Config {
    pub sites: Vec<SiteConfig>,
    /// Directives that were not understood, in the order met.
    pub unknown_directives: Vec<String>,
}

pub struct SiteView {
    pub listen_addr: Seq<char>,
    pub host: Option<Seq<char>>,
    pub root: Option<Seq<char>>,
    pub file_server: bool,
    pub gzip: bool,
    pub log: bool,
    pub reverse_proxy: Option<Seq<char>>,
    pub basic_auth: Option<(Seq<char>, Seq<char>)>,
    pub rate_limit: Option<(Option<Seq<char>>, Option<Seq<char>>)>,
}

pub open spec fn opt_view(o: Option<String>) -> Option<Seq<char>> {
    match o {
        Some(s) => Some(s@),
        None => None,
    }
}

impl View for SiteConfig {
    type V = SiteView;

    open spec fn view(&self) -> SiteView {
        SiteView {
            listen_addr: self.listen_addr@,
            host: opt_view(self.host),
            root: opt_view(self.root),
            file_server: self.file_server,
            gzip: self.gzip,
            log: self.log,
            reverse_proxy: opt_view(self.reverse_proxy),
            basic_auth: match self.basic_auth {
                Some((a, b)) => Some((a@, b@)),
                None => None,
            },
            rate_limit: match self.rate_limit {
                Some((r, b)) => Some((opt_view(r), opt_view(b))),
                None => None,
            },
        }
    }
}

pub open spec fn sites_view(s: Seq<SiteConfig>) -> Seq<SiteView> {
    s.map_values(|c: SiteConfig| c@)
}

pub open spec fn strings_view(s: Seq<String>) -> Seq<Seq<char>> {
    s.map_values(|c: String| c@)
}

// ── Directives ──

pub open spec fn word_at(ws: Seq<Seq<char>>, k: int) -> Option<Seq<char>> {
    if k < ws.len() { Some(ws[k]) } else { None }
}

pub open spec fn trim_char_start(cs: Seq<char>, c: char) -> Seq<char>
    decreases cs.len(),
{
    if cs.len() > 0 && cs[0] == c { trim_char_start(cs.drop_first(), c) } else { cs }
}

pub open spec fn trim_char_end(cs: Seq<char>, c: char) -> Seq<char>
    decreases cs.len(),
{
    if cs.len() > 0 && cs.last() == c { trim_char_end(cs.drop_last(), c) } else { cs }
}

/// `trim_matches('"')`.
pub open spec fn trim_quotes(cs: Seq<char>) -> Seq<char> {
    trim_char_end(trim_char_start(cs, '"'), '"')
}

pub open spec fn known_directive(d: Seq<char>) -> bool {
    d == "root"@ || d == "file_server"@ || d == "gzip"@ || d == "log"@ || d == "reverse_proxy"@
        || d == "rate_limit"@ || d == "basic_auth"@
}

/// The site after one directive line with words `ws`.
pub open spec fn apply_directive(s: SiteView, ws: Seq<Seq<char>>) -> SiteView {
    let d = ws[0];
    if d == "root"@ {
        SiteView { root: word_at(ws, 1), file_server: true, ..s }
    } else if d == "file_server"@ {
        SiteView { file_server: true, ..s }
    } else if d == "gzip"@ {
        SiteView { gzip: true, ..s }
    } else if d == "log"@ {
        SiteView { log: true, ..s }
    } else if d == "reverse_proxy"@ {
        SiteView { reverse_proxy: word_at(ws, 1), ..s }
    } else if d == "rate_limit"@ {
        SiteView { rate_limit: Some((word_at(ws, 1), word_at(ws, 2))), ..s }
    } else if d == "basic_auth"@ {
        if ws.len() >= 4 {
            SiteView { basic_auth: Some((ws[1] + seq![':'] + ws[2], trim_quotes(ws[3]))), ..s }
        } else {
            s
        }
    } else {
        s
    }
}

/// The words of a directive line: none for blank lines and '#' comments.
pub open spec fn directive_words(line: Seq<char>) -> Option<Seq<Seq<char>>> {
    let t = trim(line);
    if t.len() == 0 || t[0] == '#' || words(t).len() == 0 {
        None
    } else {
        Some(words(t))
    }
}

pub open spec fn apply_lines(s: SiteView, ls: Seq<Seq<char>>) -> SiteView
    decreases ls.len(),
{
    if ls.len() == 0 {
        s
    } else {
        let s1 = apply_lines(s, ls.drop_last());
        match directive_words(ls.last()) {
            Some(ws) => apply_directive(s1, ws),
            None => s1,
        }
    }
}

pub open spec fn unknown_in(ls: Seq<Seq<char>>) -> Seq<Seq<char>>
    decreases ls.len(),
{
    if ls.len() == 0 {
        seq![]
    } else {
        unknown_in(ls.drop_last()) + match directive_words(ls.last()) {
            Some(ws) => if known_directive(ws[0]) { Seq::<Seq<char>>::empty() } else { seq![ws[0]] },
            None => Seq::<Seq<char>>::empty(),
        }
    }
}

// ── Blocks ──

pub open spec fn commented(l: Seq<char>) -> bool {
    trim_start(l).len() > 0 && trim_start(l)[0] == '#'
}

/// The last line that is not a '#' comment, or nothing.
pub open spec fn last_uncommented(ls: Seq<Seq<char>>) -> Seq<char>
    decreases ls.len(),
{
    if ls.len() == 0 {
        seq![]
    } else if !commented(ls.last()) {
        ls.last()
    } else {
        last_uncommented(ls.drop_last())
    }
}

/// The site a block declares before its directives, and the directive
/// text; nothing for an empty block, one without '{' or one whose address
/// is empty. An address "host:port" serves `host` on `port`, ":port" any
/// host, and an address without ':' that host on port 80.
pub open spec fn block_parts(block: Seq<char>) -> Option<(SiteView, Seq<char>)> {
    let b = trim(block);
    let ob = first_char(b, '{');
    if b.len() == 0 || ob < 0 {
        None
    } else {
        let addr = addr_text(b.subrange(0, ob));
        if addr.len() == 0 {
            None
        } else {
            Some((site_head(addr), trim(b.subrange(ob + 1, b.len() as int))))
        }
    }
}

/// The address of a block: its last line that is not a '#' comment, trimmed.
pub open spec fn addr_text(part: Seq<char>) -> Seq<char> {
    trim(last_uncommented(lines(trim(part))))
}

/// A site with nothing configured yet, listening as `addr` says.
pub open spec fn site_head(addr: Seq<char>) -> SiteView {
    let d = last_char(addr, ':');
    let host = if d < 0 { Some(addr) } else if d == 0 { None } else { Some(addr.subrange(0, d)) };
    let port = if d < 0 { "80"@ } else { addr.subrange(d + 1, addr.len() as int) };
    SiteView {
        listen_addr: "0\x2e0\x2e0\x2e0:"@ + port,
        host,
        root: None,
        file_server: false,
        gzip: false,
        log: false,
        reverse_proxy: None,
        basic_auth: None,
        rate_limit: None,
    }
}

pub open spec fn block_site(block: Seq<char>) -> Option<SiteView> {
    match block_parts(block) {
        Some((s0, body)) => Some(apply_lines(s0, lines(body))),
        None => None,
    }
}

pub open spec fn block_unknown(block: Seq<char>) -> Seq<Seq<char>> {
    match block_parts(block) {
        Some((s0, body)) => unknown_in(lines(body)),
        None => seq![],
    }
}

pub open spec fn sites_of(bs: Seq<Seq<char>>) -> Seq<SiteView>
    decreases bs.len(),
{
    if bs.len() == 0 {
        seq![]
    } else {
        sites_of(bs.drop_last()) + match block_site(bs.last()) {
            Some(s) => seq![s],
            None => Seq::<SiteView>::empty(),
        }
    }
}

pub open spec fn unknown_of(bs: Seq<Seq<char>>) -> Seq<Seq<char>>
    decreases bs.len(),
{
    if bs.len() == 0 {
        seq![]
    } else {
        unknown_of(bs.drop_last()) + block_unknown(bs.last())
    }
}

// ── Reading ──

fn trim_char_bounds(cs: &Vec<char>, from: usize, to: usize, c: char) -> (r: (usize, usize))
    requires
        from <= to <= cs@.len(),
    ensures
        from <= r.0 <= r.1 <= to,
        cs@.subrange(r.0 as int, r.1 as int) == trim_char_end(trim_char_start(cs@.subrange(from as int, to as int), c), c),
{
    let mut lo = from;
    while lo < to && cs[lo] == c
        invariant
            from <= lo <= to <= cs@.len(),
            trim_char_start(cs@.subrange(from as int, to as int), c) == trim_char_start(cs@.subrange(lo as int, to as int), c),
        decreases to - lo,
    {
        assert(cs@.subrange(lo as int, to as int).drop_first() == cs@.subrange(lo + 1, to as int));
        lo = lo + 1;
    }
    let mut hi = to;
    while hi > lo && cs[hi - 1] == c
        invariant
            from <= lo <= hi <= to <= cs@.len(),
            trim_char_end(trim_char_start(cs@.subrange(from as int, to as int), c), c) == trim_char_end(cs@.subrange(lo as int, hi as int), c),
        decreases hi - lo,
    {
        assert(cs@.subrange(lo as int, hi as int).drop_last() == cs@.subrange(lo as int, hi - 1));
        hi = hi - 1;
    }
    (lo, hi)
}

fn owned(s: &str, from: usize, to: usize) -> (r: String)
    requires
        from <= to <= s@.len(),
    ensures
        r@ == s@.subrange(from as int, to as int),
{
    String::from_str(s.substring_char(from, to))
}

/// Applies the directive line `cs[a..b]` to `site`, noting an unknown
/// directive in `unknown`.
fn apply_line(content: &str, cs: &Vec<char>, a: usize, b: usize, site: &mut SiteConfig, unknown: &mut Vec<String>)
    requires
        a <= b <= cs@.len(),
        cs@ == content@,
    ensures
        final(site)@ == match directive_words(cs@.subrange(a as int, b as int)) {
            Some(ws) => apply_directive(old(site)@, ws),
            None => old(site)@,
        },
        strings_view(final(unknown)@) == strings_view(old(unknown)@) + match directive_words(cs@.subrange(a as int, b as int)) {
            Some(ws) => if known_directive(ws[0]) { Seq::<Seq<char>>::empty() } else { seq![ws[0]] },
            None => Seq::<Seq<char>>::empty(),
        },
{
    proof {
        reveal_strlit(":");
    }
    let ghost u0 = unknown@;
    let (lo, hi) = trim_bounds(cs, a, b);
    if lo == hi || cs[lo] == '#' {
        proof {
            if lo != hi {
                assert(trim(cs@.subrange(a as int, b as int))[0] == cs@[lo as int]);
            }
        }
        assert(strings_view(unknown@) =~= strings_view(u0) + Seq::<Seq<char>>::empty());
        return;
    }
    assert(trim(cs@.subrange(a as int, b as int))[0] == cs@[lo as int]);
    let ws = word_ranges(cs, lo, hi);
    let ghost wv = ranges_view(cs@, ws@);
    if ws.len() == 0 {
        assert(strings_view(unknown@) =~= strings_view(u0) + Seq::<Seq<char>>::empty());
        return;
    }
    let (d0, d1) = ws[0];
    assert(wv[0] == cs@.subrange(d0 as int, d1 as int));
    let d = content.substring_char(d0, d1);
    let ghost s = site@;
    if str_eq(d, "root") {
        site.root = if ws.len() > 1 {
            let (x0, x1) = ws[1];
            assert(wv[1] == cs@.subrange(x0 as int, x1 as int));
            Some(owned(content, x0, x1))
        } else {
            None
        };
        site.file_server = true;
    } else if str_eq(d, "file_server") {
        site.file_server = true;
    } else if str_eq(d, "gzip") {
        site.gzip = true;
    } else if str_eq(d, "log") {
        site.log = true;
    } else if str_eq(d, "reverse_proxy") {
        site.reverse_proxy = if ws.len() > 1 {
            let (x0, x1) = ws[1];
            assert(wv[1] == cs@.subrange(x0 as int, x1 as int));
            Some(owned(content, x0, x1))
        } else {
            None
        };
    } else if str_eq(d, "rate_limit") {
        let rate = if ws.len() > 1 {
            let (x0, x1) = ws[1];
            assert(wv[1] == cs@.subrange(x0 as int, x1 as int));
            Some(owned(content, x0, x1))
        } else {
            None
        };
        let burst = if ws.len() > 2 {
            let (x0, x1) = ws[2];
            assert(wv[2] == cs@.subrange(x0 as int, x1 as int));
            Some(owned(content, x0, x1))
        } else {
            None
        };
        site.rate_limit = Some((rate, burst));
    } else if str_eq(d, "basic_auth") {
        if ws.len() >= 4 {
            let (u0, u1) = ws[1];
            let (p0, p1) = ws[2];
            let (r0, r1) = ws[3];
            assert(wv[1] == cs@.subrange(u0 as int, u1 as int));
            assert(wv[2] == cs@.subrange(p0 as int, p1 as int));
            assert(wv[3] == cs@.subrange(r0 as int, r1 as int));
            let mut cred = owned(content, u0, u1);
            cred.append(":");
            cred.append(content.substring_char(p0, p1));
            let (q0, q1) = trim_char_bounds(cs, r0, r1, '"');
            let realm = owned(content, q0, q1);
            assert(cred@ =~= wv[1] + seq![':'] + wv[2]);
            site.basic_auth = Some((cred, realm));
        }
    } else {
        let ghost before = unknown@;
        unknown.push(owned(content, d0, d1));
        assert(strings_view(unknown@) =~= strings_view(before) + seq![wv[0]]);
        assert(site@ == apply_directive(s, wv));
        return;
    }
    assert(site@ == apply_directive(s, wv));
    assert(strings_view(unknown@) =~= strings_view(u0) + Seq::<Seq<char>>::empty());
}

fn trim_start_bound(cs: &Vec<char>, from: usize, to: usize) -> (r: usize)
    requires
        from <= to <= cs@.len(),
    ensures
        from <= r <= to,
        cs@.subrange(r as int, to as int) == trim_start(cs@.subrange(from as int, to as int)),
{
    let mut lo = from;
    while lo < to && crate::text::char_is_ws(cs[lo])
        invariant
            from <= lo <= to <= cs@.len(),
            trim_start(cs@.subrange(from as int, to as int)) == trim_start(cs@.subrange(lo as int, to as int)),
        decreases to - lo,
    {
        assert(cs@.subrange(lo as int, to as int).drop_first() == cs@.subrange(lo + 1, to as int));
        lo = lo + 1;
    }
    lo
}

fn line_commented(cs: &Vec<char>, a: usize, b: usize) -> (r: bool)
    requires
        a <= b <= cs@.len(),
    ensures
        r == commented(cs@.subrange(a as int, b as int)),
{
    let t = trim_start_bound(cs, a, b);
    if t < b && cs[t] == '#' {
        assert(trim_start(cs@.subrange(a as int, b as int))[0] == cs@[t as int]);
        true
    } else {
        false
    }
}

/// Bounds of the address text of the block head `cs[a..b]`.
fn block_address(cs: &Vec<char>, a: usize, b: usize) -> (r: (usize, usize))
    requires
        a <= b <= cs@.len(),
    ensures
        r.0 <= r.1 <= cs@.len(),
        cs@.subrange(r.0 as int, r.1 as int) == addr_text(cs@.subrange(a as int, b as int)),
{
    let (alo, ahi) = trim_bounds(cs, a, b);
    let ls = line_ranges(cs, alo, ahi);
    let ghost lv = ranges_view(cs@, ls@);
    let mut k = ls.len();
    assert(lv.subrange(0, k as int) =~= lv);
    while k > 0 && line_commented(cs, ls[k - 1].0, ls[k - 1].1)
        invariant
            k <= ls@.len(),
            lv == ranges_view(cs@, ls@),
            ranges_within(ls@, alo as int, ahi as int),
            ahi <= cs@.len(),
            last_uncommented(lv) == last_uncommented(lv.subrange(0, k as int)),
        decreases k,
    {
        assert(lv[k - 1] == cs@.subrange(ls@[k - 1].0 as int, ls@[k - 1].1 as int));
        assert(lv.subrange(0, k as int).last() == lv[k - 1]);
        assert(lv.subrange(0, k as int).drop_last() =~= lv.subrange(0, k - 1));
        k = k - 1;
    }
    if k == 0 {
        assert(last_uncommented(lv.subrange(0, 0)) == Seq::<char>::empty());
        assert(trim(Seq::<char>::empty()) =~= cs@.subrange(0, 0)) by {
            assert(trim_start(Seq::<char>::empty()) == Seq::<char>::empty());
        }
        (0, 0)
    } else {
        let (la, lb) = ls[k - 1];
        assert(lv[k - 1] == cs@.subrange(la as int, lb as int));
        assert(lv.subrange(0, k as int).last() == lv[k - 1]);
        assert(last_uncommented(lv.subrange(0, k as int)) == lv[k - 1]);
        trim_bounds(cs, la, lb)
    }
}

/// A site listening as the address `cs[xa..xb]` (not empty) says.
fn read_site_head(content: &str, cs: &Vec<char>, xa: usize, xb: usize) -> (r: SiteConfig)
    requires
        xa < xb <= cs@.len(),
        cs@ == content@,
    ensures
        r@ == site_head(cs@.subrange(xa as int, xb as int)),
{
    proof {
        reveal_strlit("80");
    }
    let ghost addr = cs@.subrange(xa as int, xb as int);
    let mut e = xb;
    while e > xa && cs[e - 1] != ':'
        invariant
            xa <= e <= xb <= cs@.len(),
            addr == cs@.subrange(xa as int, xb as int),
            forall|q: int| e - xa <= q < addr.len() ==> addr[q] != ':',
        decreases e,
    {
        assert(addr[e - 1 - xa] == cs@[e - 1]);
        e = e - 1;
    }
    let mut listen = String::from_str("0\x2e0\x2e0\x2e0:");
    let host: Option<String>;
    if e == xa {
        proof { lemma_last_char(addr, ':', -1); }
        host = Some(owned(content, xa, xb));
        listen.append("80");
    } else {
        let d = e - 1;
        assert(addr[d - xa] == cs@[d as int]);
        proof { lemma_last_char(addr, ':', (d - xa) as int); }
        host = if d == xa {
            None
        } else {
            assert(addr.subrange(0, d - xa) =~= cs@.subrange(xa as int, d as int));
            Some(owned(content, xa, d))
        };
        assert(addr.subrange(d - xa + 1, addr.len() as int) =~= cs@.subrange(d + 1, xb as int));
        listen.append(content.substring_char(d + 1, xb));
    }
    let site = SiteConfig {
        listen_addr: listen,
        host,
        root: None,
        file_server: false,
        gzip: false,
        log: false,
        reverse_proxy: None,
        basic_auth: None,
        rate_limit: None,
    };
    assert(site@ == site_head(addr));
    site
}

/// Applies the directive lines of `cs[blo..bhi]` to `site`, giving the
/// unknown directives met.
fn read_body(content: &str, cs: &Vec<char>, blo: usize, bhi: usize, site: &mut SiteConfig) -> (r: Vec<String>)
    requires
        blo <= bhi <= cs@.len(),
        cs@ == content@,
    ensures
        final(site)@ == apply_lines(old(site)@, lines(cs@.subrange(blo as int, bhi as int))),
        strings_view(r@) == unknown_in(lines(cs@.subrange(blo as int, bhi as int))),
{
    let ghost s0 = site@;
    let bl = line_ranges(cs, blo, bhi);
    let ghost bv = ranges_view(cs@, bl@);
    let mut unknown: Vec<String> = Vec::new();
    let mut i: usize = 0;
    assert(bv.subrange(0, 0) =~= Seq::<Seq<char>>::empty());
    assert(strings_view(unknown@) =~= Seq::<Seq<char>>::empty());
    while i < bl.len()
        invariant
            i <= bl@.len(),
            bv == ranges_view(cs@, bl@),
            ranges_within(bl@, blo as int, bhi as int),
            bhi <= cs@.len(),
            cs@ == content@,
            site@ == apply_lines(s0, bv.subrange(0, i as int)),
            strings_view(unknown@) == unknown_in(bv.subrange(0, i as int)),
        decreases bl@.len() - i,
    {
        let (la, lb) = bl[i];
        assert(bv[i as int] == cs@.subrange(la as int, lb as int));
        assert(bv.subrange(0, i + 1).drop_last() =~= bv.subrange(0, i as int));
        assert(bv.subrange(0, i + 1).last() == bv[i as int]);
        apply_line(content, cs, la, lb, site, &mut unknown);
        i = i + 1;
    }
    assert(bv.subrange(0, i as int) =~= bv);
    unknown
}

/// The site of the block `cs[a..b]` and the unknown directives met in it.
fn read_block(content: &str, cs: &Vec<char>, a: usize, b: usize) -> (r: Option<(SiteConfig, Vec<String>)>)
    requires
        a <= b <= cs@.len(),
        cs@ == content@,
    ensures
        match r {
            Some((site, unknown)) => block_site(cs@.subrange(a as int, b as int)) == Some(site@)
                && strings_view(unknown@) == block_unknown(cs@.subrange(a as int, b as int)),
            None => block_parts(cs@.subrange(a as int, b as int)) is None,
        },
{
    let ghost block = cs@.subrange(a as int, b as int);
    let (lo, hi) = trim_bounds(cs, a, b);
    let ghost tb = cs@.subrange(lo as int, hi as int);
    assert(tb == trim(block));
    if lo == hi {
        return None;
    }
    let mut j = lo;
    while j < hi && cs[j] != '{'
        invariant
            lo <= j <= hi <= cs@.len(),
            tb == cs@.subrange(lo as int, hi as int),
            forall|q: int| 0 <= q < j - lo ==> tb[q] != '{',
        decreases hi - j,
    {
        assert(tb[j - lo] == cs@[j as int]);
        j = j + 1;
    }
    if j == hi {
        proof { lemma_first_char(tb, '{', (j - lo) as int); }
        return None;
    }
    assert(tb[j - lo] == cs@[j as int]);
    proof { lemma_first_char(tb, '{', (j - lo) as int); }
    assert(tb.subrange(0, j - lo) =~= cs@.subrange(lo as int, j as int));
    assert(tb.subrange(j - lo + 1, tb.len() as int) =~= cs@.subrange(j + 1, hi as int));
    let (xa, xb) = block_address(cs, lo, j);
    if xa == xb {
        return None;
    }
    let mut site = read_site_head(content, cs, xa, xb);
    let (blo, bhi) = trim_bounds(cs, j + 1, hi);
    let unknown = read_body(content, cs, blo, bhi, &mut site);
    Some((site, unknown))
}

impl Config {
    /// Reads a Caddyfile: each block `address { directives }` (blocks end at
    /// '}') gives a site; blank lines and '#' comments are skipped.
    pub fn from_caddyfile(content: &str) -> (r: Config)
        ensures
            sites_view(r.sites@) == sites_of(split_by(content@, '}')),
            strings_view(r.unknown_directives@) == unknown_of(split_by(content@, '}')),
    {
        let cs = chars_of(content);
        let bs = split_ranges(&cs, 0, cs.len(), '}');
        assert(cs@.subrange(0, cs@.len() as int) =~= cs@);
        let ghost bv = ranges_view(cs@, bs@);
        let mut sites: Vec<SiteConfig> = Vec::new();
        let mut unknown: Vec<String> = Vec::new();
        let mut i: usize = 0;
        assert(bv.subrange(0, 0) =~= Seq::<Seq<char>>::empty());
        assert(sites_view(sites@) =~= Seq::<SiteView>::empty());
        assert(strings_view(unknown@) =~= Seq::<Seq<char>>::empty());
        while i < bs.len()
            invariant
                i <= bs@.len(),
                bv == ranges_view(cs@, bs@),
                bv == split_by(content@, '}'),
                ranges_within(bs@, 0, cs@.len() as int),
                cs@ == content@,
                sites_view(sites@) == sites_of(bv.subrange(0, i as int)),
                strings_view(unknown@) == unknown_of(bv.subrange(0, i as int)),
            decreases bs@.len() - i,
        {
            let (a, b) = bs[i];
            assert(bv[i as int] == cs@.subrange(a as int, b as int));
            assert(bv.subrange(0, i + 1).drop_last() =~= bv.subrange(0, i as int));
            assert(bv.subrange(0, i + 1).last() == bv[i as int]);
            let ghost sv = sites@;
            let ghost uv = unknown@;
            match read_block(content, &cs, a, b) {
                Some((site, mut more)) => {
                    sites.push(site);
                    assert(sites_view(sites@) =~= sites_view(sv) + seq![sites@.last()@]);
                    let ghost mv = more@;
                    unknown.append(&mut more);
                    assert(strings_view(unknown@) =~= strings_view(uv) + strings_view(mv));
                }
                None => {
                    assert(sites_view(sites@) =~= sites_view(sv) + Seq::<SiteView>::empty());
                    assert(strings_view(unknown@) =~= strings_view(uv) + Seq::<Seq<char>>::empty());
                }
            }
            i = i + 1;
        }
        assert(bv.subrange(0, i as int) =~= bv);
        Config { sites, unknown_directives: unknown }
    }
}

} // verus!
