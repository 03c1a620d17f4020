use nettools::dns_cache::{hints_have_broken_line, parse_root_hints, DnsCache};
use nettools::dns_message::{
    decode_header, decode_message, decode_name, decode_question, decode_rr, encode_header, encode_message,
    encode_name, encode_question, encode_rr, DnsHeader, DnsMessage, DnsQuestion, DnsRR, RData, CLASS_IN, FLAG_QR,
    FLAG_RA, RCODE_NXDOMAIN, TYPE_A, TYPE_CNAME, TYPE_MX, TYPE_NS, TYPE_SOA,
};
use nettools::dns_resolve::{
    build_response, cname_target, extract_matching, extract_soa_minimum, find_cname, is_nxdomain,
};

fn a_record(name: &str, ip: [u8; 4], ttl: u32) -> DnsRR {
    DnsRR { name: name.to_string(), rtype: TYPE_A, class: CLASS_IN, ttl, rdata: RData::A(ip) }
}

#[test]
fn test_basic_cache() {
    let mut cache = DnsCache::new();
    let rr = DnsRR {
        name: "example.com.".to_string(),
        rtype: TYPE_A,
        class: CLASS_IN,
        ttl: 3600,
        rdata: RData::A([93, 184, 216, 34]),
    };
    cache.put(&rr);

    let result = cache.get("example.com.", TYPE_A, CLASS_IN);
    assert!(result.is_some());
    assert_eq!(result.unwrap()[0].rdata, RData::A([93, 184, 216, 34]));
}

#[test]
fn cache_test_negative_cache() {
    let mut cache = DnsCache::new();
    cache.put_nxdomain("noexist.com.", TYPE_A, CLASS_IN, 60);
    assert!(cache.is_nxdomain("noexist.com.", TYPE_A, CLASS_IN));
    assert!(!cache.is_nxdomain("example.com.", TYPE_A, CLASS_IN));
}

#[test]
fn test_root_hints() {
    let mut cache = DnsCache::new();
    cache.put(&DnsRR {
        name: ".".to_string(),
        rtype: TYPE_NS,
        class: CLASS_IN,
        ttl: 3600000,
        rdata: RData::NS("a.root-servers.net.".to_string()),
    });
    cache.put(&DnsRR {
        name: "a.root-servers.net.".to_string(),
        rtype: TYPE_A,
        class: CLASS_IN,
        ttl: 3600000,
        rdata: RData::A([198, 41, 0, 4]),
    });

    let ns = cache.get(".", TYPE_NS, CLASS_IN);
    assert!(ns.is_some(), "root NS records should be cached");
    assert!(!ns.unwrap().is_empty());
}

#[test]
fn cache_put_then_get_until_expiry() {
    let mut cache = DnsCache::new();
    cache.put_at(&a_record("Example.COM.", [1, 2, 3, 4], 10), 1_000);
    let got = cache.get_at("example.com.", TYPE_A, CLASS_IN, 10_999).expect("alive");
    assert_eq!(got.len(), 1);
    assert_eq!(got[0].rdata, RData::A([1, 2, 3, 4]));
    assert!(cache.get_at("EXAMPLE.com.", TYPE_A, CLASS_IN, 11_000).is_none());
    assert!(cache.get_at("example.com.", TYPE_A, CLASS_IN, 1_000).is_none());
}

#[test]
fn cache_same_rdata_refreshes_instead_of_duplicating() {
    let mut cache = DnsCache::new();
    cache.put_at(&a_record("a.", [1, 1, 1, 1], 5), 0);
    cache.put_at(&a_record("a.", [2, 2, 2, 2], 5), 0);
    cache.put_at(&a_record("a.", [1, 1, 1, 1], 100), 0);
    let got = cache.get_at("a.", TYPE_A, CLASS_IN, 6_000).expect("one alive");
    assert_eq!(got.len(), 1);
    assert_eq!(got[0].ttl, 100);
    assert_eq!(got[0].rdata, RData::A([1, 1, 1, 1]));
}

#[test]
fn cache_negative_expiry() {
    let mut cache = DnsCache::new();
    cache.put_nxdomain_at("gone.", TYPE_A, CLASS_IN, 60, 5_000);
    assert!(cache.is_nxdomain_at("GONE.", TYPE_A, CLASS_IN, 64_999));
    assert!(!cache.is_nxdomain_at("gone.", TYPE_A, CLASS_IN, 65_000));
    assert!(!cache.is_nxdomain_at("gone.", TYPE_NS, CLASS_IN, 6_000));
}

#[test]
fn root_hints_are_read() {
    let text = "; comment\n.  3600000 IN NS A.ROOT-SERVERS.NET.\nA.ROOT-SERVERS.NET. 3600000 A 198.41.0.4\n\
                b. bad CLASS1 A 1.2.3\nc. 5 IN TXT hello\n";
    assert!(!hints_have_broken_line(text));
    let rrs = parse_root_hints(text);
    assert_eq!(rrs.len(), 2);
    assert_eq!(rrs[0].name, ".");
    assert_eq!(rrs[0].rdata, RData::NS("A.ROOT-SERVERS.NET.".to_string()));
    assert_eq!(rrs[0].ttl, 3600000);
    assert_eq!(rrs[1].rdata, RData::A([198, 41, 0, 4]));
    let mut cache = DnsCache::new();
    cache.load_root_hints(text);
    assert!(cache.get("a.root-servers.net.", TYPE_A, CLASS_IN).is_some());
    assert!(hints_have_broken_line("x. 1 IN A\n"));
}

#[test]
fn test_name_roundtrip() {
    let name = "www.example.com.";
    let encoded = encode_name(name);
    let (decoded, consumed) = decode_name(&encoded, 0).expect("should decode");
    assert_eq!(name, decoded);
    assert_eq!(consumed, encoded.len());
}

#[test]
fn test_name_pointer() {
    let n1 = encode_name("www.example.com.");
    let mut buf = Vec::new();
    buf.extend_from_slice(&n1);
    buf.push((0xC0 | (4u16 >> 8)) as u8);
    buf.push(4u8);
    let (name, consumed) = decode_name(&buf, n1.len()).expect("should decode");
    assert_eq!(name, "example.com.");
    assert_eq!(consumed, n1.len() + 2);
}

#[test]
fn name_encoding_skips_empty_labels_and_lowercases_on_decode() {
    assert_eq!(encode_name("a..B."), vec![1, b'a', 1, b'B', 0]);
    assert_eq!(encode_name(""), vec![0]);
    let (n, c) = decode_name(&encode_name("WWW.Example"), 0).unwrap();
    assert_eq!(n, "www.example.");
    assert_eq!(c, 13);
    assert_eq!(decode_name(&[0], 0), Some((".".to_string(), 1)));
}

#[test]
fn name_decoding_refuses_loops_and_truncation() {
    assert!(decode_name(&[0xC0, 0x00], 0).is_none());
    assert!(decode_name(&[3, b'a', b'b'], 0).is_none());
    assert!(decode_name(&[0xC0], 0).is_none());
    assert!(decode_name(&[2, 0xff, 0xfe, 0], 0).is_none());
}

#[test]
fn test_header_roundtrip() {
    let h = DnsHeader { id: 0x1234, flags: 0x8180, qdcount: 1, ancount: 0, nscount: 0, arcount: 0 };
    let enc = encode_header(&h);
    let dec = decode_header(&enc).unwrap();
    assert_eq!(dec.id, 0x1234);
    assert_eq!(dec.flags, 0x8180);
    assert_eq!(dec.qdcount, 1);
}

#[test]
fn header_flags() {
    let h = DnsHeader { id: 1, flags: 0x8183, qdcount: 0, ancount: 0, nscount: 0, arcount: 0 };
    assert!(h.is_response());
    assert_eq!(h.rcode(), RCODE_NXDOMAIN);
    let q = DnsHeader { id: 1, flags: 0x0100, qdcount: 0, ancount: 0, nscount: 0, arcount: 0 };
    assert!(!q.is_response());
    assert_eq!(q.rcode(), 0);
    assert!(decode_header(&[0u8; 11]).is_none());
}

#[test]
fn test_decode_question() {
    let mut buf = encode_name("example.com.");
    buf.extend_from_slice(&TYPE_A.to_be_bytes());
    buf.extend_from_slice(&CLASS_IN.to_be_bytes());
    let (q, consumed) = decode_question(&buf, 0).unwrap();
    assert_eq!(q.qname, "example.com.");
    assert_eq!(q.qtype, TYPE_A);
    assert_eq!(q.qclass, CLASS_IN);
    assert_eq!(consumed, buf.len());
}

#[test]
fn test_decode_rr_a() {
    let mut buf = encode_name("example.com.");
    buf.extend_from_slice(&TYPE_A.to_be_bytes());
    buf.extend_from_slice(&CLASS_IN.to_be_bytes());
    buf.extend_from_slice(&300u32.to_be_bytes());
    buf.extend_from_slice(&4u16.to_be_bytes());
    buf.extend_from_slice(&[93, 184, 216, 34]);
    let (rr, consumed) = decode_rr(&buf, 0).unwrap();
    assert_eq!(rr.name, "example.com.");
    assert_eq!(rr.rtype, TYPE_A);
    assert_eq!(rr.ttl, 300);
    assert!(matches!(rr.rdata, RData::A([93, 184, 216, 34])));
    assert_eq!(consumed, buf.len());
}

#[test]
fn rr_roundtrip_of_each_rdata() {
    let records = vec![
        DnsRR { name: "m.".into(), rtype: TYPE_MX, class: CLASS_IN, ttl: 7, rdata: RData::MX { preference: 10, exchange: "mx.m.".into() } },
        DnsRR { name: "c.".into(), rtype: TYPE_CNAME, class: CLASS_IN, ttl: 7, rdata: RData::CNAME("t.".into()) },
        DnsRR {
            name: "s.".into(),
            rtype: TYPE_SOA,
            class: CLASS_IN,
            ttl: 7,
            rdata: RData::SOA { mname: "ns.".into(), rname: "h.".into(), serial: 1, refresh: 2, retry: 3, expire: 4, minimum: 5 },
        },
        DnsRR { name: "u.".into(), rtype: 16, class: CLASS_IN, ttl: 7, rdata: RData::Unknown(vec![3, b'a', b'b', b'c']) },
        DnsRR { name: "six.".into(), rtype: 28, class: CLASS_IN, ttl: 7, rdata: RData::AAAA([1; 16]) },
    ];
    for rr in &records {
        let wire = encode_rr(rr);
        let (back, used) = decode_rr(&wire, 0).expect("decodes");
        assert_eq!(used, wire.len());
        assert_eq!(back.name, rr.name);
        assert_eq!(back.rtype, rr.rtype);
        assert_eq!(back.rdata, rr.rdata);
    }
}

#[test]
fn test_full_message() {
    let mut qbuf = Vec::new();
    qbuf.extend_from_slice(&0x1234u16.to_be_bytes());
    qbuf.extend_from_slice(&0x0100u16.to_be_bytes());
    qbuf.extend_from_slice(&1u16.to_be_bytes());
    qbuf.extend_from_slice(&0u16.to_be_bytes());
    qbuf.extend_from_slice(&0u16.to_be_bytes());
    qbuf.extend_from_slice(&0u16.to_be_bytes());
    let qname = encode_name("example.com.");
    qbuf.extend_from_slice(&qname);
    qbuf.extend_from_slice(&TYPE_A.to_be_bytes());
    qbuf.extend_from_slice(&CLASS_IN.to_be_bytes());
    let msg = decode_message(&qbuf).unwrap();
    assert_eq!(msg.header.id, 0x1234);
    assert_eq!(msg.questions.len(), 1);
    assert_eq!(msg.questions[0].qname, "example.com.");
}

#[test]
fn test_encode_response() {
    let msg = DnsMessage {
        header: DnsHeader { id: 0x1234, flags: FLAG_QR | FLAG_RA, qdcount: 1, ancount: 1, nscount: 0, arcount: 0 },
        questions: vec![DnsQuestion { qname: "example.com.".into(), qtype: TYPE_A, qclass: CLASS_IN }],
        answers: vec![DnsRR { name: "example.com.".into(), rtype: TYPE_A, class: CLASS_IN, ttl: 300, rdata: RData::A([93, 184, 216, 34]) }],
        authorities: vec![],
        additionals: vec![],
    };
    let wire = encode_message(&msg);
    let decoded = decode_message(&wire).unwrap();
    assert_eq!(decoded.header.id, 0x1234);
    assert!(decoded.header.is_response());
    assert_eq!(decoded.answers.len(), 1);
}

#[test]
fn test_two_a_records() {
    let msg = DnsMessage {
        header: DnsHeader { id: 1, flags: FLAG_QR | FLAG_RA, qdcount: 1, ancount: 2, nscount: 0, arcount: 0 },
        questions: vec![DnsQuestion { qname: "example.com.".into(), qtype: TYPE_A, qclass: CLASS_IN }],
        answers: vec![
            DnsRR { name: "example.com.".into(), rtype: TYPE_A, class: CLASS_IN, ttl: 300, rdata: RData::A([1, 2, 3, 4]) },
            DnsRR { name: "example.com.".into(), rtype: TYPE_A, class: CLASS_IN, ttl: 300, rdata: RData::A([5, 6, 7, 8]) },
        ],
        authorities: vec![],
        additionals: vec![],
    };
    let wire = encode_message(&msg);
    let decoded = decode_message(&wire).unwrap();
    assert_eq!(decoded.answers.len(), 2);
}

#[test]
fn message_with_wrong_count_fails() {
    let msg = DnsMessage {
        header: DnsHeader { id: 1, flags: 0, qdcount: 2, ancount: 0, nscount: 0, arcount: 0 },
        questions: vec![DnsQuestion { qname: "a.".into(), qtype: TYPE_A, qclass: CLASS_IN }],
        answers: vec![],
        authorities: vec![],
        additionals: vec![],
    };
    assert!(decode_message(&encode_message(&msg)).is_none());
    let q = encode_question(&msg.questions[0]);
    assert_eq!(q, vec![1, b'a', 0, 0, 1, 0, 1]);
}

#[test]
fn resolver_helpers() {
    let rrs = vec![
        a_record("x.", [1, 1, 1, 1], 5),
        DnsRR { name: "x.".into(), rtype: TYPE_CNAME, class: CLASS_IN, ttl: 5, rdata: RData::CNAME("y.".into()) },
        DnsRR { name: "x.".into(), rtype: TYPE_CNAME, class: CLASS_IN, ttl: 5, rdata: RData::CNAME("z.".into()) },
    ];
    let c = find_cname(&rrs).expect("has cname");
    assert_eq!(cname_target(&c), "y.");
    assert_eq!(extract_matching(&rrs, TYPE_A).len(), 1);
    assert_eq!(extract_matching(&rrs, TYPE_CNAME).len(), 2);
    assert!(find_cname(&rrs[..1]).is_none());
    assert!(!is_nxdomain(&rrs));
    let soa = DnsRR {
        name: "x.".into(),
        rtype: TYPE_SOA,
        class: CLASS_IN,
        ttl: 5,
        rdata: RData::SOA { mname: "a.".into(), rname: "b.".into(), serial: 1, refresh: 1, retry: 1, expire: 1, minimum: 900 },
    };
    assert!(is_nxdomain(&[soa.clone()]));
    assert_eq!(extract_soa_minimum(&[rrs[0].clone(), soa]), 900);
    assert_eq!(extract_soa_minimum(&rrs), 60);
}

#[test]
fn response_echoes_query() {
    let query = DnsMessage {
        header: DnsHeader { id: 77, flags: 0x0100, qdcount: 1, ancount: 0, nscount: 0, arcount: 0 },
        questions: vec![DnsQuestion { qname: "a.".into(), qtype: TYPE_A, qclass: CLASS_IN }],
        answers: vec![],
        authorities: vec![],
        additionals: vec![],
    };
    let r = build_response(&query, &[a_record("a.", [9, 9, 9, 9], 1)], RCODE_NXDOMAIN);
    assert_eq!(r.header.id, 77);
    assert_eq!(r.header.flags, 0x8083);
    assert_eq!(r.header.ancount, 1);
    assert_eq!(r.questions.len(), 1);
    assert_eq!(r.answers[0].rdata, RData::A([9, 9, 9, 9]));
}

#[test]
fn name_servers_of_a_zone_come_with_their_addresses() {
    let mut cache = DnsCache::new();
    let ns = |target: &str| DnsRR {
        name: "Example.COM.".to_string(),
        rtype: TYPE_NS,
        class: CLASS_IN,
        ttl: 3600,
        rdata: RData::NS(target.to_string()),
    };
    cache.put(&ns("ns1.example.com."));
    cache.put(&ns("ns2.example.com."));
    cache.put(&a_record("ns1.example.com.", [192, 0, 2, 1], 3600));
    cache.put(&a_record("ns1.example.com.", [192, 0, 2, 2], 3600));
    let got = cache.get_ns_ips("example.com.");
    assert_eq!(
        got,
        vec![("ns1.example.com.".to_string(), [192, 0, 2, 1]), ("ns1.example.com.".to_string(), [192, 0, 2, 2])]
    );
    assert!(cache.get_ns_ips("other.org.").is_empty());
}
