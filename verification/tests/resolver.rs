use nettools::dns_cache::DnsCache;
use nettools::dns_message::{
    DnsHeader, DnsMessage, DnsQuestion, DnsRR, RData, CLASS_IN, RCODE_NXDOMAIN, TYPE_A, TYPE_CNAME, TYPE_NS,
    TYPE_SOA,
};
use nettools::resolver::{respond_at, Resolution, Step};

const NOW: u64 = 1_000_000;

fn rr(name: &str, rtype: u16, ttl: u32, rdata: RData) -> DnsRR {
    DnsRR { name: name.to_string(), rtype, class: CLASS_IN, ttl, rdata }
}

fn setup_cache_with_root() -> DnsCache {
    let mut cache = DnsCache::new();
    cache.put_at(&rr(".", TYPE_NS, 3600000, RData::NS("a.root-servers.net.".to_string())), NOW);
    cache.put_at(&rr("a.root-servers.net.", TYPE_A, 3600000, RData::A([198, 41, 0, 4])), NOW);
    cache
}

fn reply(flags: u16, answers: Vec<DnsRR>, authorities: Vec<DnsRR>, additionals: Vec<DnsRR>) -> DnsMessage {
    DnsMessage {
        header: DnsHeader {
            id: 1,
            flags,
            qdcount: 0,
            ancount: answers.len() as u16,
            nscount: authorities.len() as u16,
            arcount: additionals.len() as u16,
        },
        questions: vec![],
        answers,
        authorities,
        additionals,
    }
}

/// Steps until the resolution asks something or ends.
fn run(r: &mut Resolution, cache: &mut DnsCache) -> Step {
    for _ in 0..100 {
        match r.step(cache, NOW) {
            Step::Continue => {}
            other => return other,
        }
    }
    panic!("resolution does not progress");
}

fn expect_query(step: Step, server: [u8; 4], name: &str, qtype: u16) {
    match step {
        Step::Query { server: s, query } => {
            assert_eq!(s, server);
            assert_eq!(query.header.flags, 0x0100);
            assert_eq!(query.questions.len(), 1);
            assert_eq!(query.questions[0].qname, name);
            assert_eq!(query.questions[0].qtype, qtype);
        }
        _ => panic!("expected a query"),
    }
}

fn expect_done(step: Step) -> Vec<DnsRR> {
    match step {
        Step::Done(v) => v,
        _ => panic!("expected the end"),
    }
}

#[test]
fn test_cache_hit() {
    let mut cache = setup_cache_with_root();
    cache.put_at(&rr("example.com.", TYPE_A, 300, RData::A([93, 184, 216, 34])), NOW);

    let mut r = Resolution::start("example.com.", TYPE_A, &mut cache, NOW);
    let results = expect_done(r.step(&mut cache, NOW));
    assert_eq!(results.len(), 1);
    assert!(matches!(results[0].rdata, RData::A([93, 184, 216, 34])));
}

#[test]
fn resolve_test_negative_cache() {
    let mut cache = setup_cache_with_root();
    cache.put_nxdomain_at("noexist.com.", TYPE_A, CLASS_IN, 60, NOW);
    let mut r = Resolution::start("noexist.com.", TYPE_A, &mut cache, NOW);
    let results = expect_done(r.step(&mut cache, NOW));
    assert!(results.is_empty());
}

#[test]
fn cached_answer_ignores_case() {
    let mut cache = setup_cache_with_root();
    cache.put_at(&rr("example.com.", TYPE_A, 300, RData::A([1, 2, 3, 4])), NOW);
    let mut r = Resolution::start("EXAMPLE.Com.", TYPE_A, &mut cache, NOW);
    assert_eq!(expect_done(r.step(&mut cache, NOW)).len(), 1);
}

#[test]
fn referral_with_glue_then_answer() {
    let mut cache = setup_cache_with_root();
    let mut r = Resolution::start("www.example.com.", TYPE_A, &mut cache, NOW);
    expect_query(run(&mut r, &mut cache), [198, 41, 0, 4], "www.example.com.", TYPE_A);
    let referral = reply(
        0x8000,
        vec![],
        vec![rr("com.", TYPE_NS, 172800, RData::NS("a.gtld-servers.net.".to_string()))],
        vec![rr("a.gtld-servers.net.", TYPE_A, 172800, RData::A([192, 5, 6, 30]))],
    );
    r.on_reply(Ok(referral), &mut cache, NOW);
    expect_query(run(&mut r, &mut cache), [192, 5, 6, 30], "www.example.com.", TYPE_A);
    let answer = reply(0x8400, vec![rr("www.example.com.", TYPE_A, 300, RData::A([93, 184, 216, 34]))], vec![], vec![]);
    r.on_reply(Ok(answer), &mut cache, NOW);
    let results = expect_done(run(&mut r, &mut cache));
    assert_eq!(results.len(), 1);
    assert_eq!(results[0].rdata, RData::A([93, 184, 216, 34]));
    // The answer was cached on the way.
    assert!(cache.get_at("www.example.com.", TYPE_A, CLASS_IN, NOW).is_some());
}

#[test]
fn failing_servers_end_without_records() {
    let mut cache = setup_cache_with_root();
    let mut r = Resolution::start("www.example.com.", TYPE_A, &mut cache, NOW);
    expect_query(run(&mut r, &mut cache), [198, 41, 0, 4], "www.example.com.", TYPE_A);
    r.on_reply(Err("recv: timed out".to_string()), &mut cache, NOW);
    assert!(expect_done(run(&mut r, &mut cache)).is_empty());
}

#[test]
fn nxdomain_is_remembered() {
    let mut cache = setup_cache_with_root();
    let mut r = Resolution::start("nope.example.", TYPE_A, &mut cache, NOW);
    expect_query(run(&mut r, &mut cache), [198, 41, 0, 4], "nope.example.", TYPE_A);
    let soa = rr(
        "example.",
        TYPE_SOA,
        900,
        RData::SOA {
            mname: "ns.example.".to_string(),
            rname: "admin.example.".to_string(),
            serial: 1,
            refresh: 2,
            retry: 3,
            expire: 4,
            minimum: 120,
        },
    );
    r.on_reply(Ok(reply(0x8000 | RCODE_NXDOMAIN as u16, vec![], vec![soa], vec![])), &mut cache, NOW);
    assert!(expect_done(run(&mut r, &mut cache)).is_empty());
    assert!(cache.is_nxdomain_at("nope.example.", TYPE_A, CLASS_IN, NOW + 119_000));
    assert!(!cache.is_nxdomain_at("nope.example.", TYPE_A, CLASS_IN, NOW + 120_000));
}

#[test]
fn cname_is_followed() {
    let mut cache = setup_cache_with_root();
    let mut r = Resolution::start("alias.example.", TYPE_A, &mut cache, NOW);
    expect_query(run(&mut r, &mut cache), [198, 41, 0, 4], "alias.example.", TYPE_A);
    let cname = rr("alias.example.", TYPE_CNAME, 300, RData::CNAME("real.example.".to_string()));
    r.on_reply(Ok(reply(0x8000, vec![cname], vec![], vec![])), &mut cache, NOW);
    expect_query(run(&mut r, &mut cache), [198, 41, 0, 4], "real.example.", TYPE_A);
    let a = rr("real.example.", TYPE_A, 300, RData::A([5, 6, 7, 8]));
    r.on_reply(Ok(reply(0x8000, vec![a], vec![], vec![])), &mut cache, NOW);
    let results = expect_done(run(&mut r, &mut cache));
    assert_eq!(results.len(), 2);
    assert_eq!(results[0].rtype, TYPE_CNAME);
    assert_eq!(results[1].rdata, RData::A([5, 6, 7, 8]));
}

#[test]
fn glueless_referral_resolves_the_name_server() {
    let mut cache = setup_cache_with_root();
    let mut r = Resolution::start("www.example.org.", TYPE_A, &mut cache, NOW);
    expect_query(run(&mut r, &mut cache), [198, 41, 0, 4], "www.example.org.", TYPE_A);
    let referral = reply(0x8000, vec![], vec![rr("org.", TYPE_NS, 3600, RData::NS("ns.other.net.".to_string()))], vec![]);
    r.on_reply(Ok(referral), &mut cache, NOW);
    // The name server's address is resolved first, from the root.
    expect_query(run(&mut r, &mut cache), [198, 41, 0, 4], "ns.other.net.", TYPE_A);
    let a = rr("ns.other.net.", TYPE_A, 3600, RData::A([9, 9, 9, 9]));
    r.on_reply(Ok(reply(0x8000, vec![a], vec![], vec![])), &mut cache, NOW);
    expect_query(run(&mut r, &mut cache), [9, 9, 9, 9], "www.example.org.", TYPE_A);
    let answer = rr("www.example.org.", TYPE_A, 300, RData::A([1, 1, 1, 1]));
    r.on_reply(Ok(reply(0x8000, vec![answer], vec![], vec![])), &mut cache, NOW);
    assert_eq!(expect_done(run(&mut r, &mut cache)).len(), 1);
}

#[test]
fn empty_cache_has_no_root_servers() {
    let mut cache = DnsCache::new();
    let mut r = Resolution::start("example.com.", TYPE_A, &mut cache, NOW);
    assert!(expect_done(run(&mut r, &mut cache)).is_empty());
}

#[test]
fn response_carries_all_answers_and_nxdomain() {
    let mut cache = DnsCache::new();
    cache.put_nxdomain_at("gone.example.", TYPE_A, CLASS_IN, 60, NOW);
    let query = DnsMessage {
        header: DnsHeader { id: 77, flags: 0x0100, qdcount: 2, ancount: 0, nscount: 0, arcount: 0 },
        questions: vec![
            DnsQuestion { qname: "a.example.".to_string(), qtype: TYPE_A, qclass: CLASS_IN },
            DnsQuestion { qname: "gone.example.".to_string(), qtype: TYPE_A, qclass: CLASS_IN },
        ],
        answers: vec![],
        authorities: vec![],
        additionals: vec![],
    };
    let results = vec![vec![rr("a.example.", TYPE_A, 60, RData::A([1, 2, 3, 4]))], vec![]];
    let resp = respond_at(&query, results, &cache, NOW);
    assert_eq!(resp.header.id, 77);
    assert_eq!(resp.header.flags, 0x8000 | 0x0080 | RCODE_NXDOMAIN as u16);
    assert_eq!(resp.header.ancount, 1);
    assert_eq!(resp.questions.len(), 2);
    assert_eq!(resp.answers.len(), 1);

    let results = vec![vec![rr("a.example.", TYPE_A, 60, RData::A([1, 2, 3, 4]))], vec![]];
    let later = respond_at(&query, results, &cache, NOW + 60_000);
    assert_eq!(later.header.flags, 0x8080);
}
