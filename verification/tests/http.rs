use nettools::caddyfile::Config;
use nettools::http::{
    body_framing, check_auth, chunk_header, chunked_step, ChunkAction, ChunkPhase, compress, copy_headers, ct_eq, etag_for, find_pattern, get_header,
    is_compressible, is_hop_by_hop, mime_type, parse_chunk_size, parse_range, response_401,
    response_429, response_502, wants_keep_alive, BodyFraming, Header, ProxyError, LAST_CHUNK,
};
use nettools::http_server::{
    connection_token, file_response_head, is_head_request, path_within, plan_file, proxy_request_head, relative_part, route_request, Route,
    select_site, serve_step, upstream_head_size, wants_gzip, FilePlan, ServeStep,
};
use nettools::text::{dec_string, hex_string};

fn h(name: &str, value: &str) -> Header {
    Header { name: name.to_string(), value: value.as_bytes().to_vec() }
}

#[test]
fn header_lookup_and_keep_alive() {
    let hs = vec![h("Host", "a"), h("connection", "Close"), h("Connection", "keep-alive")];
    assert_eq!(get_header(&hs, "HOST"), Some("a".to_string()));
    assert_eq!(get_header(&hs, "Missing"), None);
    assert!(!wants_keep_alive(&hs));
    assert!(wants_keep_alive(&[h("Host", "a")]));
    let bad = vec![Header { name: "X".into(), value: vec![0xff] }, h("X", "ok")];
    assert_eq!(get_header(&bad, "x"), None);
}

#[test]
fn basic_auth_decodes_credentials() {
    let hs = vec![h("Authorization", "Basic dXNlcjpwYXNz")];
    assert!(check_auth(&hs, "user:pass"));
    assert!(!check_auth(&hs, "user:other"));
    assert!(!check_auth(&[h("Authorization", "Bearer dXNlcjpwYXNz")], "user:pass"));
    assert!(!check_auth(&[h("Authorization", "Basic !!!")], "user:pass"));
    assert!(!check_auth(&[], "user:pass"));
    assert!(ct_eq(b"abc", b"abc"));
    assert!(!ct_eq(b"abc", b"abd"));
    assert!(!ct_eq(b"abc", b"ab"));
}

#[test]
fn validators_and_ranges() {
    assert_eq!(etag_for(0x5f5e100, 1234), "W/\"5f5e100-4d2\"");
    assert_eq!(etag_for(0, 0), "W/\"0-0\"");
    assert_eq!(parse_range("bytes=0-99", 1000), Some((0, 99)));
    assert_eq!(parse_range("bytes= 10 - ", 100), Some((10, 99)));
    assert_eq!(parse_range("bytes=10-5000", 100), Some((10, 99)));
    assert_eq!(parse_range("bytes=-10", 100), Some((90, 99)));
    assert_eq!(parse_range("bytes=-0", 100), None);
    assert_eq!(parse_range("bytes=100-", 100), None);
    assert_eq!(parse_range("bytes=5-2", 100), None);
    assert_eq!(parse_range("items=0-1", 100), None);
    assert_eq!(parse_range("bytes=0-x", 100), None);
    assert_eq!(parse_range("bytes=05", 100), None);
    assert_eq!(parse_range("bytes=-500", 100), None);
    assert_eq!(parse_range("bytes=-50", 100), Some((50, 99)));
    assert_eq!(parse_range("bytes=-100", 100), Some((0, 99)));
}

#[test]
fn content_types() {
    assert!(is_compressible("text/html; charset=utf-8"));
    assert!(is_compressible("application/javascript"));
    assert!(is_compressible("image/svg+xml"));
    assert!(!is_compressible("image/png"));
    assert_eq!(mime_type("www/index.html"), "text/html; charset=utf-8");
    assert_eq!(mime_type("a/b.JPG"), "application/octet-stream");
    assert_eq!(mime_type("a/b.jpeg"), "image/jpeg");
    assert_eq!(mime_type("noext"), "application/octet-stream");
    assert_eq!(mime_type(".bashrc"), "application/octet-stream");
}

#[test]
fn gzip_compresses() {
    let data = vec![b'a'; 1000];
    let z = compress(&data).expect("compresses");
    assert_eq!(&z[..2], &[0x1f, 0x8b]);
    assert!(z.len() < data.len());
}

#[test]
fn hop_by_hop_headers_are_not_forwarded() {
    assert!(is_hop_by_hop("Connection"));
    assert!(is_hop_by_hop("PROXY-AUTHORIZATION"));
    assert!(!is_hop_by_hop("Host"));
    let mut out = String::from("GET / HTTP/1.1\r\n");
    copy_headers(&mut out, &[h("Host", "x"), h("Keep-Alive", "5"), h("Accept", "*/*")]);
    assert_eq!(out, "GET / HTTP/1.1\r\nHost: x\r\nAccept: */*\r\n");
}

#[test]
fn fixed_responses() {
    assert_eq!(
        response_429(),
        "HTTP/1.1 429 Too Many Requests\r\nRetry-After: 1\r\nContent-Type: text/plain\r\nContent-Length: 21\r\nConnection: close\r\n\r\n429 Too Many Requests"
    );
    assert_eq!(
        response_401(),
        "HTTP/1.1 401 Unauthorized\r\nWWW-Authenticate: Basic realm=\"Restricted\"\r\nContent-Type: text/plain\r\nContent-Length: 16\r\nConnection: close\r\n\r\n401 Unauthorized"
    );
    assert_eq!(
        response_502("boom"),
        "HTTP/1.1 502 Bad Gateway\r\nContent-Type: text/plain\r\nContent-Length: 30\r\nConnection: close\r\n\r\n502 Bad Gateway\nUpstream: boom"
    );
    assert_eq!(chunk_header(255), "ff\r\n");
    assert_eq!(dec_string(0), "0");
    assert_eq!(dec_string(1234567890), "1234567890");
    assert_eq!(hex_string(u64::MAX), "ffffffffffffffff");
}

#[test]
fn chunked_body_pieces() {
    assert_eq!(find_pattern(b"abc\r\ndef", b"\r\n"), Some(3));
    assert_eq!(find_pattern(b"abc", b"\r\n"), None);
    assert_eq!(parse_chunk_size(b"1A").ok(), Some(26));
    assert_eq!(parse_chunk_size(b" ff ;ext=1").ok(), Some(255));
    assert!(matches!(parse_chunk_size(b"zz"), Err(ProxyError::HttpInvalidRequest(m)) if m == "bad chunk size: zz"));
    assert!(matches!(parse_chunk_size(&[0xff]), Err(ProxyError::HttpInvalidRequest(m)) if m == "non-utf8 chunk size"));
    assert_eq!(body_framing(&[h("Transfer-Encoding", "Chunked")]), BodyFraming::Chunked);
    assert_eq!(body_framing(&[h("Content-Length", "12")]), BodyFraming::Length(12));
    assert_eq!(body_framing(&[h("Content-Length", " 12")]), BodyFraming::Length(0));
    assert_eq!(body_framing(&[]), BodyFraming::Length(0));
}

#[test]
fn caddyfile_sites() {
    let text = "# main site\nexample.com:8080 {\n  root ./site\n  gzip\n  basic_auth bob secret \"Area\"\n  frobnicate\n}\n\
                :9090 {\n reverse_proxy 127.0.0.1:3000\n rate_limit 5 10\n}\nlocalhost {\n log\n}\n";
    let cfg = Config::from_caddyfile(text);
    assert_eq!(cfg.sites.len(), 3);
    let a = &cfg.sites[0];
    assert_eq!(a.listen_addr, "0.0.0.0:8080");
    assert_eq!(a.host.as_deref(), Some("example.com"));
    assert_eq!(a.root.as_deref(), Some("./site"));
    assert!(a.file_server && a.gzip && !a.log);
    assert_eq!(a.basic_auth, Some(("bob:secret".to_string(), "Area".to_string())));
    let b = &cfg.sites[1];
    assert_eq!(b.listen_addr, "0.0.0.0:9090");
    assert_eq!(b.host, None);
    assert_eq!(b.reverse_proxy.as_deref(), Some("127.0.0.1:3000"));
    assert_eq!(b.rate_limit, Some((Some("5".to_string()), Some("10".to_string()))));
    let c = &cfg.sites[2];
    assert_eq!(c.listen_addr, "0.0.0.0:80");
    assert_eq!(c.host.as_deref(), Some("localhost"));
    assert!(c.log);
    assert_eq!(cfg.unknown_directives, vec!["frobnicate".to_string()]);
}

#[test]
fn requests_and_sites() {
    match serve_step(b"GET /x HTTP/1.1\r\nHost: a\r\nConnection: close\r\n\r\nBODY") {
        ServeStep::Handle { method, path, headers, body_start, keep_alive } => {
            assert_eq!(method, "GET");
            assert_eq!(path, "/x");
            assert_eq!(headers.len(), 2);
            assert_eq!(body_start, 47);
            assert!(!keep_alive);
        }
        _ => panic!("complete request expected"),
    }
    assert!(matches!(serve_step(b"GET / HTTP/1.1\r\n"), ServeStep::NeedMore));
    assert!(matches!(serve_step(b"\x01\x02 nonsense\r\n\r\n"), ServeStep::BadRequest));
    assert_eq!(upstream_head_size(b"HTTP/1.1 200 OK\r\nA: b\r\n\r\nxyz"), Ok(25));
    assert_eq!(upstream_head_size(b"HTTP/1.1 200 OK\r\n"), Err("incomplete response"));
    let cfg = Config::from_caddyfile("a.com:80 {\n}\n:80 {\n}\n");
    assert_eq!(select_site(&cfg.sites, "a.com"), Some(0));
    assert_eq!(select_site(&cfg.sites, "b.com"), Some(1));
    assert_eq!(select_site(&cfg.sites[..1], "b.com"), None);
}

#[test]
fn static_file_answers() {
    assert_eq!(connection_token(true), "keep-alive");
    assert!(is_head_request("head"));
    assert!(wants_gzip(true, &[h("Accept-Encoding", "br, gzip")]));
    assert!(!wants_gzip(false, &[h("Accept-Encoding", "gzip")]));
    let etag = "W/\"1-2\"";
    assert_eq!(plan_file(&[h("If-None-Match", etag)], etag, 10, "text/css", true, false), FilePlan::NotModified);
    assert_eq!(plan_file(&[h("Range", "bytes=2-4")], etag, 10, "text/css", true, false), FilePlan::Partial { start: 2, end: 4 });
    assert_eq!(plan_file(&[h("Range", "bytes=20-")], etag, 10, "text/css", true, false), FilePlan::RangeNotSatisfiable);
    assert_eq!(plan_file(&[], etag, 10, "text/css", true, false), FilePlan::Gzip);
    assert_eq!(plan_file(&[], etag, 10, "text/css", true, true), FilePlan::Full);
    assert_eq!(
        file_response_head(FilePlan::Partial { start: 2, end: 4 }, "close", 10, "text/css", etag, "d"),
        "HTTP/1.1 206 Partial Content\r\nContent-Range: bytes 2-4/10\r\nContent-Length: 3\r\nContent-Type: text/css\r\nETag: W/\"1-2\"\r\nConnection: close\r\n\r\n"
    );
    assert_eq!(
        proxy_request_head("POST", "/api/v1", &[h("Host", "x"), h("TE", "trailers")], "10.0.0.9"),
        "POST /v1 HTTP/1.1\r\nHost: x\r\nX-Forwarded-For: 10.0.0.9\r\nX-Forwarded-Proto: http\r\n\r\n"
    );
    assert!(proxy_request_head("GET", "/api", &[], "::1").starts_with("GET / HTTP/1.1\r\n"));
}

#[test]
fn http_date_formats_like_imf_fixdate() {
    // 1994-11-06 08:49:37 UTC was a Sunday.
    assert_eq!(nettools::http::http_date(0, 6, 10, 94, 8, 49, 37), "Sun, 06 Nov 1994 08:49:37 GMT");
    assert_eq!(nettools::http::http_date(2, 31, 11, 124, 23, 5, 0), "Tue, 31 Dec 2024 23:05:00 GMT");
}

#[test]
fn directory_listing_is_sorted() {
    let entries = vec![("zeta.txt".to_string(), false), ("alpha".to_string(), true), ("beta.html".to_string(), false)];
    let html = nettools::http_server::dir_listing_html("/docs/", &entries);
    let expected = "<!DOCTYPE html>\n<html><head><title>Index of /docs/</title></head>\n<body>\n<h1>Index of /docs/</h1>\n<hr>\n<pre>\n\
<a href=\"/docs/alpha/\">alpha/</a>\n\
<a href=\"/docs/beta.html\">beta.html</a>\n\
<a href=\"/docs/zeta.txt\">zeta.txt</a>\n\
</pre>\n<hr>\n</body>\n</html>";
    assert_eq!(html, expected);
    let empty = nettools::http_server::dir_listing_html("/", &[]);
    assert!(empty.contains("<pre>\n</pre>"));
}

#[test]
fn request_paths_are_joined_without_leading_slashes() {
    assert_eq!(relative_part("//a/b/"), "a/b/");
    assert_eq!(relative_part("index.html"), "index.html");
    assert_eq!(relative_part("/"), "");
}

#[test]
fn containment_goes_by_whole_components() {
    assert!(path_within("/srv/www", "/srv/www"));
    assert!(path_within("/srv/www/a/b.txt", "/srv/www"));
    assert!(!path_within("/srv/wwwx/a", "/srv/www"));
    assert!(!path_within("/srv", "/srv/www"));
    assert!(!path_within("/etc/passwd", "/srv/www"));
    assert!(path_within("/etc/passwd", "/"));
}

#[test]
fn chunked_body_steps() {
    let size = ChunkPhase::SizeLine;
    // A whole chunk: its data lies after the size line, followed by CRLF.
    assert!(matches!(chunked_step(size, b"5;ext=1\r\nhello\r\n", false), ChunkAction::Data { start: 9, end: 14 }));
    // Not all of the chunk yet: read more, or fail when the peer has closed.
    assert!(matches!(chunked_step(size, b"a\r\nhello", false), ChunkAction::Read));
    assert!(matches!(
        chunked_step(size, b"a\r\nhello", true),
        ChunkAction::Fail(ProxyError::HttpInvalidRequest(m)) if m == "chunked body truncated"
    ));
    // No complete size line.
    assert!(matches!(chunked_step(size, b"1f", false), ChunkAction::Read));
    assert!(matches!(chunked_step(size, b"1f", true), ChunkAction::Fail(ProxyError::HttpInvalidRequest(_))));
    assert!(matches!(chunked_step(size, b"zz\r\n", false), ChunkAction::Fail(ProxyError::HttpInvalidRequest(_))));
    // The last chunk, with no trailers: what follows starts after its blank line.
    assert!(matches!(chunked_step(size, b"0\r\n\r\nGET", false), ChunkAction::Done { rest: 5 }));
    // The last chunk with trailers.
    assert!(matches!(chunked_step(size, b"0\r\nX-A: 1\r\n", false), ChunkAction::Trailers { consumed: 3 }));
    let trailers = ChunkPhase::Trailers;
    assert!(matches!(chunked_step(trailers, b"X-A: 1\r\n", false), ChunkAction::Read));
    assert!(matches!(chunked_step(trailers, b"X-A: 1\r\n\r\nnext", false), ChunkAction::Done { rest: 10 }));
    assert!(matches!(chunked_step(trailers, b"X-A: 1\r\n", true), ChunkAction::Done { rest: 8 }));
}

#[test]
fn requests_are_routed_by_limit_credentials_proxy_then_files() {
    let cfg = Config::from_caddyfile(
        "a.com:80 {\n basic_auth user pass \"R\"\n reverse_proxy 127.0.0.1:9000\n}\n\
         b.com:80 {\n file_server\n gzip\n}\nc.com:80 {\n root /srv\n}\nd.com:80 {\n log\n}\n",
    );
    let s = &cfg.sites;
    assert_eq!(s.len(), 4);
    let none: Vec<Header> = vec![];
    let good = vec![h("Authorization", "Basic dXNlcjpwYXNz")];
    let bad = vec![h("Authorization", "Basic dXNlcjpub3Bl")];
    assert!(matches!(route_request(None, &none, false), Route::TooManyRequests));
    assert!(matches!(route_request(Some(&s[0]), &good, false), Route::TooManyRequests));
    assert!(matches!(route_request(Some(&s[0]), &none, true), Route::Unauthorized));
    assert!(matches!(route_request(Some(&s[0]), &bad, true), Route::Unauthorized));
    assert!(matches!(route_request(Some(&s[0]), &good, true), Route::Proxy(u) if u == "127.0.0.1:9000"));
    assert!(matches!(route_request(Some(&s[1]), &none, true), Route::Files { root, gzip: true } if root == "./www"));
    assert!(matches!(route_request(Some(&s[2]), &none, true), Route::Files { root, gzip: false } if root == "/srv"));
    assert!(matches!(route_request(Some(&s[3]), &none, true), Route::NotFound));
}

#[test]
fn written_chunks_read_back() {
    let mut wire = chunk_header(11).into_bytes();
    wire.extend_from_slice(b"hello world\r\n");
    wire.extend_from_slice(LAST_CHUNK.as_bytes());
    wire.extend_from_slice(b"NEXT");
    let mut buf = wire.clone();
    let mut body = Vec::new();
    loop {
        match chunked_step(ChunkPhase::SizeLine, &buf, true) {
            ChunkAction::Data { start, end } => {
                body.extend_from_slice(&buf[start..end]);
                buf.drain(..end + 2);
            }
            ChunkAction::Done { rest } => {
                assert_eq!(&buf[rest..], b"NEXT");
                break;
            }
            other => panic!("unexpected step {:?}", other),
        }
    }
    assert_eq!(body, b"hello world".to_vec());
}

#[test]
fn chunk_size_errors_say_what_was_wrong() {
    assert!(matches!(parse_chunk_size(b"zz"), Err(ProxyError::HttpInvalidRequest(m)) if m == "bad chunk size: zz"));
    assert!(matches!(parse_chunk_size(&[0xff, 0x31]), Err(ProxyError::HttpInvalidRequest(m)) if m == "non-utf8 chunk size"));
    assert!(matches!(
        chunked_step(ChunkPhase::SizeLine, b"1g;x\r\n", false),
        ChunkAction::Fail(ProxyError::HttpInvalidRequest(m)) if m == "bad chunk size: 1g;x"
    ));
}
