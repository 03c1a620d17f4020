//! Decisions of the web server: reading a request head, choosing the site,
//! choosing the response for a static file, and the heads of the responses
//! it writes; the forwarded request of the reverse proxy.

use vstd::prelude::*;
use vstd::string::{StrSliceExecFns, StringExecFns};
use vstd::utf8::encode_utf8;
use crate::caddyfile::{SiteConfig, SiteView, opt_view, trim_char_start, trim_char_end};
use crate::http::{
    Header, HeaderView, headers_view, header_value, get_header, same_ignoring_case, str_eq_ignore_case,
    range_spec, parse_range, compressible, is_compressible, contains_bytes, find_bytes,
    header_lines, copy_headers, str_eq, auth_ok, check_auth,
};
use crate::text::{dec_chars, push_radix, chars_of};

verus! {

// ── Request heads ──

/// What the `httparse` request parser makes of a buffer.
pub enum RequestHead {
    /// A complete head: method, path, headers, and the offset of the body.
    Complete { method: Option<String>, path: Option<String>, headers: Vec<Header>, size: usize },
    /// More bytes are needed.
    Partial,
    /// The bytes are not an HTTP request head (or hold more than 16 headers).
    Invalid,
}

pub enum RequestHeadView {
    Complete { method: Option<Seq<char>>, path: Option<Seq<char>>, headers: Seq<HeaderView>, size: int },
    Partial,
    Invalid,
}

impl View for RequestHead {
    type V = RequestHeadView;

    open spec fn view(&self) -> RequestHeadView {
        match self {
            RequestHead::Complete { method, path, headers, size } => RequestHeadView::Complete {
                method: opt_view(*method),
                path: opt_view(*path),
                headers: headers_view(headers@),
                size: *size as int,
            },
            RequestHead::Partial => RequestHeadView::Partial,
            RequestHead::Invalid => RequestHeadView::Invalid,
        }
    }
}

/// What `httparse::Request::parse`, with room for 16 headers, gives for
/// `buf`. It depends on the bytes alone.
pub uninterp spec fn httparse_request(buf: Seq<u8>) -> RequestHeadView;

/// `httparse::Request::parse` with 16 header slots; the result is named by
/// `httparse_request`, converted to owned values.
#[verifier::external_body]
fn parse_request_head(buf: &[u8]) -> (r: RequestHead)
    ensures
        r@ == httparse_request(buf@),
{
    let mut headers = [httparse::EMPTY_HEADER; 16];
    let mut req = httparse::Request::new(&mut headers);
    match req.parse(buf) {
        Ok(httparse::Status::Complete(size)) => RequestHead::Complete {
            method: req.method.map(|m| m.to_string()),
            path: req.path.map(|p| p.to_string()),
            headers: req.headers.iter().map(|h| Header { name: h.name.to_string(), value: h.value.to_vec() }).collect(),
            size,
        },
        Ok(httparse::Status::Partial) => RequestHead::Partial,
        Err(_) => RequestHead::Invalid,
    }
}

/// What `httparse::Response::parse`, with room for 16 headers, gives for
/// `buf`: the size of a complete head, `Ok(None)` for a partial one, an
/// error for bytes that are not a response head. It depends on the bytes
/// alone.
pub uninterp spec fn httparse_response(buf: Seq<u8>) -> Result<Option<int>, ()>;

/// `httparse::Response::parse` with 16 header slots: the size of a
/// complete head, `Ok(None)` when more bytes are needed, `Err(())` when
/// the bytes are not a response head; named by `httparse_response`.
#[verifier::external_body]
fn parse_response_head(buf: &[u8]) -> (r: Result<Option<usize>, ()>)
    ensures
        match r {
            Ok(Some(n)) => httparse_response(buf@) == Ok::<Option<int>, ()>(Some(n as int)),
            Ok(None) => httparse_response(buf@) == Ok::<Option<int>, ()>(None),
            Err(_) => httparse_response(buf@) is Err,
        },
{
    let mut headers = [httparse::EMPTY_HEADER; 16];
    let mut resp = httparse::Response::new(&mut headers);
    match resp.parse(buf) {
        Ok(httparse::Status::Complete(n)) => Ok(Some(n)),
        Ok(httparse::Status::Partial) => Ok(None),
        Err(_) => Err(()),
    }
}

/// What the connection loop does with the bytes received so far.
pub enum ServeStep {
    /// A complete request head: method ("GET" when absent), path ("/" when
    /// absent), headers, where the body starts, and whether the connection
    /// stays open afterwards.
    Handle { method: String, path: String, headers: Vec<Header>, body_start: usize, keep_alive: bool },
    /// Answer 400 and close.
    BadRequest,
    /// Read more bytes.
    NeedMore,
}

pub open spec fn serve_step_spec(buf: Seq<u8>, r: ServeStep) -> bool {
    match httparse_request(buf) {
        RequestHeadView::Complete { method, path, headers, size } => match r {
            ServeStep::Handle { method: m, path: p, headers: hs, body_start, keep_alive } =>
                m@ == (match method { Some(x) => x, None => "GET"@ })
                && p@ == (match path { Some(x) => x, None => "/"@ })
                && headers_view(hs@) == headers
                && body_start == size
                && keep_alive == match header_value(headers, "Connection"@) {
                    Some(v) => !same_ignoring_case(v, "close"@),
                    None => true,
                },
            _ => false,
        },
        RequestHeadView::Partial => r is NeedMore,
        RequestHeadView::Invalid => r is BadRequest,
    }
}

/// Reads the request head at the start of the connection's buffer.
pub fn serve_step(buf: &[u8]) -> (r: ServeStep)
    ensures
        serve_step_spec(buf@, r),
{
    proof {
        reveal_strlit("Connection");
        reveal_strlit("close");
    }
    match parse_request_head(buf) {
        RequestHead::Complete { method, path, headers, size } => {
            let keep_alive = crate::http::wants_keep_alive(headers.as_slice());
            assert("Connection"@ =~= crate::http::connection_chars());
            assert("close"@ =~= crate::http::close_chars());
            let m = match method {
                Some(m) => m,
                None => String::from_str("GET"),
            };
            let p = match path {
                Some(p) => p,
                None => String::from_str("/"),
            };
            ServeStep::Handle { method: m, path: p, headers, body_start: size, keep_alive }
        }
        RequestHead::Partial => ServeStep::NeedMore,
        RequestHead::Invalid => ServeStep::BadRequest,
    }
}

/// The size of the upstream's response head, or why it cannot be relayed.
pub fn upstream_head_size(buf: &[u8]) -> (r: Result<usize, &'static str>)
    ensures
        match httparse_response(buf@) {
            Ok(Some(n)) => r == Ok::<usize, &'static str>(n as usize),
            Ok(None) => r matches Err(e) && e@ == "incomplete response"@,
            Err(_) => r matches Err(e) && e@ == "bad response"@,
        },
{
    match parse_response_head(buf) {
        Ok(Some(n)) => Ok(n),
        Ok(None) => Err("incomplete response"),
        Err(_) => Err("bad response"),
    }
}

pub const BAD_REQUEST_RESPONSE: &'static str = "HTTP/1.1 400 Bad Request\r\nContent-Length: 0\r\nConnection: close\r\n\r\n";

// ── Sites ──

/// Index of the first site for `host`, else of the first site without a
/// host, else -1.
pub open spec fn site_for(sites: Seq<SiteConfig>, host: Seq<char>) -> int {
    if exists|i: int| 0 <= i < sites.len() && opt_view(sites[i].host) == Some(host) {
        choose|i: int| 0 <= i < sites.len() && opt_view(sites[i].host) == Some(host)
            && forall|j: int| 0 <= j < i ==> opt_view(#[trigger] sites[j].host) != Some(host)
    } else if exists|i: int| 0 <= i < sites.len() && sites[i].host is None {
        choose|i: int| 0 <= i < sites.len() && sites[i].host is None
            && forall|j: int| 0 <= j < i ==> !(#[trigger] sites[j].host is None)
    } else {
        -1
    }
}

pub fn select_site(sites: &[SiteConfig], host: &str) -> (r: Option<usize>)
    ensures
        match r {
            Some(i) => site_for(sites@, host@) == i,
            None => site_for(sites@, host@) == -1,
        },
{
    let mut i: usize = 0;
    while i < sites.len()
        invariant
            i <= sites@.len(),
            forall|j: int| 0 <= j < i ==> opt_view(#[trigger] sites@[j].host) != Some(host@),
        decreases sites@.len() - i,
    {
        let matches = match &sites[i].host {
            Some(h) => str_eq(h.as_str(), host),
            None => false,
        };
        if matches {
            assert(opt_view(sites@[i as int].host) == Some(host@));
            let ghost w = choose|w: int| 0 <= w < sites@.len() && opt_view(sites@[w].host) == Some(host@)
                && forall|j: int| 0 <= j < w ==> opt_view(#[trigger] sites@[j].host) != Some(host@);
            assert(w == i) by {
                if w < i {
                } else if w > i {
                }
            }
            return Some(i);
        }
        i = i + 1;
    }
    let mut k: usize = 0;
    while k < sites.len()
        invariant
            k <= sites@.len(),
            forall|j: int| 0 <= j < sites@.len() ==> opt_view(#[trigger] sites@[j].host) != Some(host@),
            forall|j: int| 0 <= j < k ==> !(#[trigger] sites@[j].host is None),
        decreases sites@.len() - k,
    {
        if sites[k].host.is_none() {
            let ghost w = choose|w: int| 0 <= w < sites@.len() && sites@[w].host is None
                && forall|j: int| 0 <= j < w ==> !(#[trigger] sites@[j].host is None);
            assert(w == k) by {
                if w < k {
                } else if w > k {
                }
            }
            return Some(k);
        }
        k = k + 1;
    }
    None
}

/// The response when a site neither proxies nor serves files.
pub fn not_found_response() -> (r: String)
    ensures
        r@ == "HTTP/1.1 404 Not Found\r\nContent-Type: text/plain\r\nContent-Length: "@
            + dec_chars(encode_utf8("404 Not Found"@).len()) + "\r\nConnection: close\r\n\r\n"@
            + "404 Not Found"@,
{
    let body = "404 Not Found";
    let mut s = String::from_str("HTTP/1.1 404 Not Found\r\nContent-Type: text/plain\r\nContent-Length: ");
    push_radix(&mut s, body.as_bytes().len() as u64, 10);
    s.append("\r\nConnection: close\r\n\r\n");
    s.append(body);
    s
}

// ── Routing ──

/// The root served by a file server that names none.
pub const DEFAULT_ROOT: &'static str = "./www";

/// What a request gets from its site, once its body has been read.
#[derive(Debug)]
pub enum Route {
    /// The rate limit refused it: 429.
    TooManyRequests,
    /// The site asks for credentials that the request does not carry: 401.
    Unauthorized,
    /// Forward it to the upstream at this address.
    Proxy(String),
    /// Serve files from `root`, compressing them when `gzip` is on.
    Files { root: String, gzip: bool },
    /// Nothing serves it: 404.
    NotFound,
}

/// Whether `r` is the route of a request with headers `hs` to `site`,
/// given whether the rate limit let it through: the limit is checked
/// first, then the credentials, then the proxy, then the file server.
pub open spec fn route_spec(site: Option<SiteView>, hs: Seq<HeaderView>, rate_ok: bool, r: Route) -> bool {
    if !rate_ok {
        r is TooManyRequests
    } else {
        match site {
            None => false,
            Some(site) => {
                let refused = match site.basic_auth {
                    Some((expected, _)) => !auth_ok(hs, expected),
                    None => false,
                };
                if refused {
                    r is Unauthorized
                } else {
                    match site.reverse_proxy {
                        Some(up) => r matches Route::Proxy(u) && u@ == up,
                        None => if site.file_server {
                            r matches Route::Files { root, gzip } && gzip == site.gzip && root@ == match site.root {
                                Some(x) => x,
                                None => DEFAULT_ROOT@,
                            }
                        } else {
                            r is NotFound
                        },
                    }
                }
            },
        }
    }
}

/// The route of a request with `headers` to the site chosen for it;
/// `rate_ok` tells whether the rate limit let it through. A request that
/// passes the limit must have a site.
pub fn route_request(site: Option<&SiteConfig>, headers: &[Header], rate_ok: bool) -> (r: Route)
    requires
        rate_ok ==> site is Some,
    ensures
        route_spec(
            match site {
                Some(s) => Some(s@),
                None => None,
            },
            headers_view(headers@),
            rate_ok,
            r,
        ),
{
    if !rate_ok {
        return Route::TooManyRequests;
    }
    let site = site.unwrap();
    if let Some((expected, _)) = &site.basic_auth {
        if !check_auth(headers, expected.as_str()) {
            return Route::Unauthorized;
        }
    }
    if let Some(up) = &site.reverse_proxy {
        return Route::Proxy(up.clone());
    }
    if site.file_server {
        let root = match &site.root {
            Some(x) => x.clone(),
            None => String::from_str(DEFAULT_ROOT),
        };
        return Route::Files { root, gzip: site.gzip };
    }
    Route::NotFound
}

// ── Static files ──

/// The Connection token of a response.
pub fn connection_token(keep_alive: bool) -> (r: &'static str)
    ensures
        r@ == if keep_alive { "keep-alive"@ } else { "close"@ },
{
    if keep_alive { "keep-alive" } else { "close" }
}

pub fn is_head_request(method: &str) -> (r: bool)
    ensures
        r == same_ignoring_case(method@, "HEAD"@),
{
    str_eq_ignore_case(method, "HEAD")
}

/// The client accepts gzip (its Accept-Encoding mentions "gzip") and the
/// site compresses.
pub open spec fn gzip_wanted(enable: bool, hs: Seq<HeaderView>) -> bool {
    enable && match header_value(hs, "Accept-Encoding"@) {
        Some(v) => contains_bytes(encode_utf8(v), encode_utf8("gzip"@)),
        None => false,
    }
}

pub fn wants_gzip(enable: bool, headers: &[Header]) -> (r: bool)
    ensures
        r == gzip_wanted(enable, headers_view(headers@)),
{
    if !enable {
        return false;
    }
    match get_header(headers, "Accept-Encoding") {
        Some(v) => find_bytes(v.as_str().as_bytes(), "gzip".as_bytes()),
        None => false,
    }
}

/// The answer for a regular file.
#[derive(Debug, Clone, Copy, PartialEq, Eq, Structural)]
pub enum FilePlan {
    /// 304: the client's If-None-Match is the file's ETag.
    NotModified,
    /// 206 with the inclusive byte range.
    Partial { start: u64, end: u64 },
    /// 416: a Range header that selects nothing.
    RangeNotSatisfiable,
    /// 200 with a gzip-compressed, chunked body.
    Gzip,
    /// 200 with the whole file.
    Full,
}

pub open spec fn plan_spec(hs: Seq<HeaderView>, etag: Seq<char>, file_size: u64, ct: Seq<char>, gzip: bool, is_head: bool) -> FilePlan {
    if header_value(hs, "If-None-Match"@) == Some(etag) {
        FilePlan::NotModified
    } else {
        match header_value(hs, "Range"@) {
            Some(v) => match range_spec(v, file_size) {
                Some((start, end)) => FilePlan::Partial { start, end },
                None => FilePlan::RangeNotSatisfiable,
            },
            None => if gzip && compressible(encode_utf8(ct)) && !is_head { FilePlan::Gzip } else { FilePlan::Full },
        }
    }
}

/// A file is answered "not modified" exactly when the request's
/// If-None-Match value is the file's ETag. Otherwise the answer does not
/// depend on the ETag, and is the one given to the same request without an
/// If-None-Match header.
pub proof fn lemma_not_modified_only_on_match(
    hs: Seq<HeaderView>,
    hs2: Seq<HeaderView>,
    etag: Seq<char>,
    etag2: Seq<char>,
    file_size: u64,
    ct: Seq<char>,
    gzip: bool,
    is_head: bool,
)
    ensures
        (plan_spec(hs, etag, file_size, ct, gzip, is_head) == FilePlan::NotModified) <==> header_value(
            hs,
            "If-None-Match"@,
        ) == Some(etag),
        header_value(hs, "If-None-Match"@) != Some(etag) && header_value(hs, "If-None-Match"@) != Some(etag2)
            ==> plan_spec(hs, etag, file_size, ct, gzip, is_head) == plan_spec(hs, etag2, file_size, ct, gzip, is_head),
        header_value(hs, "If-None-Match"@) != Some(etag) && header_value(hs2, "If-None-Match"@) is None
            && header_value(hs2, "Range"@) == header_value(hs, "Range"@)
            ==> plan_spec(hs, etag, file_size, ct, gzip, is_head) == plan_spec(hs2, etag, file_size, ct, gzip, is_head),
{
}

pub fn plan_file(headers: &[Header], etag: &str, file_size: u64, ct: &str, gzip: bool, is_head: bool) -> (r: FilePlan)
    ensures
        r == plan_spec(headers_view(headers@), etag@, file_size, ct@, gzip, is_head),
{
    if let Some(client_etag) = get_header(headers, "If-None-Match") {
        if str_eq(client_etag.as_str(), etag) {
            return FilePlan::NotModified;
        }
    }
    match get_header(headers, "Range") {
        Some(v) => match parse_range(v.as_str(), file_size) {
            Some((start, end)) => FilePlan::Partial { start, end },
            None => FilePlan::RangeNotSatisfiable,
        },
        None => if gzip && is_compressible(ct) && !is_head { FilePlan::Gzip } else { FilePlan::Full },
    }
}

/// The 404 of the file server.
pub fn file_not_found(conn: &str) -> (r: String)
    ensures
        r@ == "HTTP/1.1 404 Not Found\r\nContent-Length: 9\r\nConnection: "@ + conn@ + "\r\n\r\nNot Found"@,
{
    let mut s = String::from_str("HTTP/1.1 404 Not Found\r\nContent-Length: 9\r\nConnection: ");
    s.append(conn);
    s.append("\r\n\r\nNot Found");
    s
}

/// The head of a directory listing: chunked and gzip-encoded, or with its
/// length.
pub fn listing_head(gzip: bool, len: usize, conn: &str) -> (r: String)
    ensures
        gzip ==> r@ == "HTTP/1.1 200 OK\r\nContent-Type: text/html; charset=utf-8\r\nTransfer-Encoding: chunked\r\nContent-Encoding: gzip\r\nVary: Accept-Encoding\r\nConnection: "@
            + conn@ + "\r\n\r\n"@,
        !gzip ==> r@ == "HTTP/1.1 200 OK\r\nContent-Type: text/html; charset=utf-8\r\nContent-Length: "@
            + dec_chars(len as nat) + "\r\nConnection: "@ + conn@ + "\r\n\r\n"@,
{
    if gzip {
        let mut s = String::from_str(
            "HTTP/1.1 200 OK\r\nContent-Type: text/html; charset=utf-8\r\nTransfer-Encoding: chunked\r\nContent-Encoding: gzip\r\nVary: Accept-Encoding\r\nConnection: ",
        );
        s.append(conn);
        s.append("\r\n\r\n");
        s
    } else {
        let mut s = String::from_str("HTTP/1.1 200 OK\r\nContent-Type: text/html; charset=utf-8\r\nContent-Length: ");
        push_radix(&mut s, len as u64, 10);
        s.append("\r\nConnection: ");
        s.append(conn);
        s.append("\r\n\r\n");
        s
    }
}

/// The head of the response a plan calls for.
pub open spec fn plan_head(plan: FilePlan, conn: Seq<char>, file_size: u64, ct: Seq<char>, etag: Seq<char>, last_mod: Seq<char>) -> Seq<char> {
    match plan {
        FilePlan::NotModified => "HTTP/1.1 304 Not Modified\r\nETag: "@ + etag + "\r\nConnection: "@ + conn + "\r\n\r\n"@,
        FilePlan::Partial { start, end } => "HTTP/1.1 206 Partial Content\r\nContent-Range: bytes "@ + dec_chars(start as nat)
            + "-"@ + dec_chars(end as nat) + "/"@ + dec_chars(file_size as nat) + "\r\nContent-Length: "@
            + dec_chars((end - start + 1) as nat) + "\r\nContent-Type: "@ + ct + "\r\nETag: "@ + etag
            + "\r\nConnection: "@ + conn + "\r\n\r\n"@,
        FilePlan::RangeNotSatisfiable => "HTTP/1.1 416 Range Not Satisfiable\r\nContent-Range: bytes */"@
            + dec_chars(file_size as nat) + "\r\nConnection: "@ + conn + "\r\n\r\n"@,
        FilePlan::Gzip => "HTTP/1.1 200 OK\r\nContent-Type: "@ + ct
            + "\r\nTransfer-Encoding: chunked\r\nContent-Encoding: gzip\r\nVary: Accept-Encoding\r\nConnection: "@ + conn
            + "\r\n\r\n"@,
        FilePlan::Full => "HTTP/1.1 200 OK\r\nContent-Length: "@ + dec_chars(file_size as nat) + "\r\nContent-Type: "@ + ct
            + "\r\nETag: "@ + etag + "\r\nLast-Modified: "@ + last_mod + "\r\nConnection: "@ + conn + "\r\n\r\n"@,
    }
}

pub fn file_response_head(plan: FilePlan, conn: &str, file_size: u64, ct: &str, etag: &str, last_mod: &str) -> (r: String)
    requires
        plan matches FilePlan::Partial { start, end } ==> start <= end < u64::MAX,
    ensures
        r@ == plan_head(plan, conn@, file_size, ct@, etag@, last_mod@),
{
    match plan {
        FilePlan::NotModified => {
            let mut s = String::from_str("HTTP/1.1 304 Not Modified\r\nETag: ");
            s.append(etag);
            s.append("\r\nConnection: ");
            s.append(conn);
            s.append("\r\n\r\n");
            s
        }
        FilePlan::Partial { start, end } => {
            let mut s = String::from_str("HTTP/1.1 206 Partial Content\r\nContent-Range: bytes ");
            push_radix(&mut s, start, 10);
            s.append("-");
            push_radix(&mut s, end, 10);
            s.append("/");
            push_radix(&mut s, file_size, 10);
            s.append("\r\nContent-Length: ");
            push_radix(&mut s, end - start + 1, 10);
            s.append("\r\nContent-Type: ");
            s.append(ct);
            s.append("\r\nETag: ");
            s.append(etag);
            s.append("\r\nConnection: ");
            s.append(conn);
            s.append("\r\n\r\n");
            s
        }
        FilePlan::RangeNotSatisfiable => {
            let mut s = String::from_str("HTTP/1.1 416 Range Not Satisfiable\r\nContent-Range: bytes */");
            push_radix(&mut s, file_size, 10);
            s.append("\r\nConnection: ");
            s.append(conn);
            s.append("\r\n\r\n");
            s
        }
        FilePlan::Gzip => {
            let mut s = String::from_str("HTTP/1.1 200 OK\r\nContent-Type: ");
            s.append(ct);
            s.append("\r\nTransfer-Encoding: chunked\r\nContent-Encoding: gzip\r\nVary: Accept-Encoding\r\nConnection: ");
            s.append(conn);
            s.append("\r\n\r\n");
            s
        }
        FilePlan::Full => {
            let mut s = String::from_str("HTTP/1.1 200 OK\r\nContent-Length: ");
            push_radix(&mut s, file_size, 10);
            s.append("\r\nContent-Type: ");
            s.append(ct);
            s.append("\r\nETag: ");
            s.append(etag);
            s.append("\r\nLast-Modified: ");
            s.append(last_mod);
            s.append("\r\nConnection: ");
            s.append(conn);
            s.append("\r\n\r\n");
            s
        }
    }
}

// ── Reverse proxy ──

/// The upstream path: without a leading "/api", and "/" when nothing is left.
pub open spec fn upstream_path_of(path: Seq<char>) -> Seq<char> {
    let p = if path.len() >= 4 && path.subrange(0, 4) == "/api"@ { path.subrange(4, path.len() as int) } else { path };
    if p.len() == 0 { "/"@ } else { p }
}

/// The head of the request forwarded upstream: request line, the
/// client's end-to-end headers, then X-Forwarded-For and X-Forwarded-Proto.
pub fn proxy_request_head(method: &str, path: &str, headers: &[Header], client_ip: &str) -> (r: String)
    ensures
        r@ == method@ + " "@ + upstream_path_of(path@) + " HTTP/1.1\r\n"@ + header_lines(headers_view(headers@))
            + "X-Forwarded-For: "@ + client_ip@ + "\r\n"@ + "X-Forwarded-Proto: http\r\n\r\n"@,
{
    proof {
        reveal_strlit("/api");
    }
    let n = path.unicode_len();
    let api = n >= 4 && path.get_char(0) == '/' && path.get_char(1) == 'a' && path.get_char(2) == 'p'
        && path.get_char(3) == 'i';
    assert(api == (path@.len() >= 4 && path@.subrange(0, 4) == "/api"@)) by {
        if path@.len() >= 4 && path@.subrange(0, 4) == "/api"@ {
            assert(path@[0] == path@.subrange(0, 4)[0]);
            assert(path@[1] == path@.subrange(0, 4)[1]);
            assert(path@[2] == path@.subrange(0, 4)[2]);
            assert(path@[3] == path@.subrange(0, 4)[3]);
        }
        if api {
            assert(path@.subrange(0, 4) =~= "/api"@);
        }
    }
    let rest = if api { path.substring_char(4, n) } else { path };
    let up = if rest.unicode_len() == 0 { "/" } else { rest };
    let mut s = String::from_str(method);
    s.append(" ");
    s.append(up);
    s.append(" HTTP/1.1\r\n");
    copy_headers(&mut s, headers);
    s.append("X-Forwarded-For: ");
    s.append(client_ip);
    s.append("\r\n");
    s.append("X-Forwarded-Proto: http\r\n\r\n");
    s
}

// ── Directory listings ──

/// Lexicographic order of strings by code point: the order of `str`'s
/// `Ord`, which compares the UTF-8 bytes.
pub open spec fn str_le(a: Seq<char>, b: Seq<char>) -> bool
    decreases a.len(),
{
    if a.len() == 0 {
        true
    } else if b.len() == 0 {
        false
    } else if a[0] != b[0] {
        (a[0] as u32) < (b[0] as u32)
    } else {
        str_le(a.drop_first(), b.drop_first())
    }
}

pub open spec fn sorted_strings(s: Seq<Seq<char>>) -> bool {
    forall|i: int, j: int| 0 <= i < j < s.len() ==> str_le(#[trigger] s[i], #[trigger] s[j])
}

pub open spec fn strings_view(v: Seq<String>) -> Seq<Seq<char>> {
    v.map_values(|x: String| x@)
}

/// `slice::sort` on strings: the same strings, in ascending order.
#[verifier::external_body]
fn sort_strings(v: &mut Vec<String>)
    ensures
        strings_view(final(v)@).to_multiset() == strings_view(old(v)@).to_multiset(),
        sorted_strings(strings_view(final(v)@)),
{
    v.sort();
}

/// The link to a directory entry under `base`; a directory's ends in `/`.
pub open spec fn entry_anchor(base: Seq<char>, name: Seq<char>, is_dir: bool) -> Seq<char> {
    if is_dir {
        "<a href=\""@ + base + "/"@ + name + "/\">"@ + name + "/</a>"@
    } else {
        "<a href=\""@ + base + "/"@ + name + "\">"@ + name + "</a>"@
    }
}

pub open spec fn entry_anchors(base: Seq<char>, entries: Seq<(String, bool)>) -> Seq<Seq<char>> {
    entries.map_values(|e: (String, bool)| entry_anchor(base, e.0@, e.1))
}

/// The lines of a listing, each followed by a newline.
pub open spec fn listing_lines(s: Seq<Seq<char>>) -> Seq<char>
    decreases s.len(),
{
    if s.len() == 0 {
        seq![]
    } else {
        listing_lines(s.drop_last()) + s.last() + "\n"@
    }
}

/// The HTML of a listing of `request_path` whose links, in order, are
/// `links`.
pub open spec fn listing_html(request_path: Seq<char>, links: Seq<Seq<char>>) -> Seq<char> {
    "<!DOCTYPE html>\n<html><head><title>Index of "@ + request_path + "</title></head>\n<body>\n<h1>Index of "@
        + request_path + "</h1>\n<hr>\n<pre>\n"@ + listing_lines(links) + "</pre>\n<hr>\n</body>\n</html>"@
}

// ── Paths of static files ──

/// A request path with its leading '/' removed: what is joined to a site's
/// root to name the file.
pub fn relative_part(path: &str) -> (r: String)
    ensures
        r@ == trim_char_start(path@, '/'),
{
    let cs = chars_of(path);
    let mut ts: usize = 0;
    assert(path@.subrange(0, path@.len() as int) =~= path@);
    while ts < cs.len() && cs[ts] == '/'
        invariant
            ts <= cs@.len(),
            cs@ == path@,
            trim_char_start(path@, '/') == trim_char_start(path@.subrange(ts as int, path@.len() as int), '/'),
        decreases cs@.len() - ts,
    {
        assert(path@.subrange(ts as int, path@.len() as int).drop_first() =~= path@.subrange(ts + 1, path@.len() as int));
        ts = ts + 1;
    }
    String::from_str(path.substring_char(ts, cs.len()))
}

/// Whether the path `path` lies under the directory `root`, both written
/// in canonical form (absolute, no "." or "..", no repeated or trailing
/// '/'): it is `root` itself, or `root` followed by '/' and more; under
/// "/" lies every absolute path.
pub open spec fn within_root(path: Seq<char>, root: Seq<char>) -> bool {
    &&& root.len() <= path.len()
    &&& path.subrange(0, root.len() as int) == root
    &&& (path.len() == root.len() || (root.len() > 0 && root.last() == '/') || path[root.len() as int] == '/')
}

/// Whether the canonical path `path` lies under the canonical directory
/// `root` (see `within_root`).
pub fn path_within(path: &str, root: &str) -> (r: bool)
    ensures
        r == within_root(path@, root@),
{
    let p = chars_of(path);
    let q = chars_of(root);
    if q.len() > p.len() {
        return false;
    }
    let mut i: usize = 0;
    while i < q.len()
        invariant
            i <= q@.len() <= p@.len(),
            p@ == path@,
            q@ == root@,
            forall|k: int| 0 <= k < i ==> p@[k] == q@[k],
        decreases q@.len() - i,
    {
        if p[i] != q[i] {
            assert(path@.subrange(0, root@.len() as int)[i as int] != root@[i as int]);
            return false;
        }
        i = i + 1;
    }
    assert(path@.subrange(0, root@.len() as int) =~= root@);
    p.len() == q.len() || (q.len() > 0 && q[q.len() - 1] == '/') || p[q.len()] == '/'
}

fn trim_slashes_end(s: &str) -> (r: String)
    ensures
        r@ == trim_char_end(s@, '/'),
{
    let cs = chars_of(s);
    let mut te = cs.len();
    assert(s@.subrange(0, te as int) =~= s@);
    while te > 0 && cs[te - 1] == '/'
        invariant
            te <= cs@.len(),
            cs@ == s@,
            trim_char_end(s@, '/') == trim_char_end(s@.subrange(0, te as int), '/'),
        decreases te,
    {
        assert(s@.subrange(0, te as int).drop_last() =~= s@.subrange(0, te - 1));
        te = te - 1;
    }
    String::from_str(s.substring_char(0, te))
}

/// The HTML listing of a directory requested as `request_path`, whose
/// entries are `entries` (name, and whether it is a directory): one link
/// per entry, sorted.
pub fn dir_listing_html(request_path: &str, entries: &[(String, bool)]) -> (r: String)
    ensures
        exists|links: Seq<Seq<char>>| {
            &&& links.to_multiset() == entry_anchors(trim_char_end(request_path@, '/'), entries@).to_multiset()
            &&& sorted_strings(links)
            &&& r@ == #[trigger] listing_html(request_path@, links)
        },
{
    let base = trim_slashes_end(request_path);
    let ghost av = entry_anchors(base@, entries@);
    let mut names: Vec<String> = Vec::new();
    let mut i: usize = 0;
    while i < entries.len()
        invariant
            i <= entries@.len(),
            av == entry_anchors(base@, entries@),
            strings_view(names@) == av.subrange(0, i as int),
        decreases entries@.len() - i,
    {
        let (name, is_dir) = (&entries[i].0, entries[i].1);
        let mut a = String::from_str("<a href=\"");
        a.append(base.as_str());
        a.append("/");
        a.append(name.as_str());
        if is_dir {
            a.append("/\">");
            a.append(name.as_str());
            a.append("/</a>");
        } else {
            a.append("\">");
            a.append(name.as_str());
            a.append("</a>");
        }
        let ghost before = names@;
        names.push(a);
        assert(strings_view(names@) =~= strings_view(before).push(av[i as int]));
        assert(av.subrange(0, i + 1) =~= av.subrange(0, i as int).push(av[i as int]));
        i = i + 1;
    }
    assert(av.subrange(0, i as int) =~= av);
    sort_strings(&mut names);
    let ghost links = strings_view(names@);
    let mut html = String::from_str("<!DOCTYPE html>\n<html><head><title>Index of ");
    html.append(request_path);
    html.append("</title></head>\n<body>\n<h1>Index of ");
    html.append(request_path);
    html.append("</h1>\n<hr>\n<pre>\n");
    let ghost head = html@;
    let mut j: usize = 0;
    assert(links.subrange(0, 0) =~= Seq::<Seq<char>>::empty());
    assert(head + listing_lines(Seq::<Seq<char>>::empty()) =~= head);
    while j < names.len()
        invariant
            j <= names@.len(),
            links == strings_view(names@),
            html@ == head + listing_lines(links.subrange(0, j as int)),
        decreases names@.len() - j,
    {
        html.append(names[j].as_str());
        html.append("\n");
        assert(links.subrange(0, j + 1).drop_last() =~= links.subrange(0, j as int));
        assert(links.subrange(0, j + 1).last() == names@[j as int]@);
        assert(html@ =~= head + listing_lines(links.subrange(0, j + 1)));
        j = j + 1;
    }
    assert(links.subrange(0, j as int) =~= links);
    html.append("</pre>\n<hr>\n</body>\n</html>");
    assert(html@ =~= listing_html(request_path@, links));
    html
}

} // verus!
