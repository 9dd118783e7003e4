use dns_resolver::packet::{DNSPacket, DNSQuestion, DNSRecord, Ipv4Address, QueryType, RCode};
use dns_resolver::recursive_resolver::{
    classify_response, LookupStep, RecursiveLookup, Referral, MAX_DEPTH, ROOT_SERVER,
};
use dns_resolver::resolve_strategy::{first_question, handle_query};
use dns_resolver::stub_resolver::{build_query, QUERY_ID};
use dns_resolver::writer::WriteError;

fn ns(domain: &str, host: &str) -> DNSRecord {
    DNSRecord::NS { domain: domain.to_string(), host: host.to_string(), ttl: 100 }
}

fn a(domain: &str, last: u8) -> DNSRecord {
    DNSRecord::A { domain: domain.to_string(), addr: Ipv4Address::new(10, 0, 0, last), ttl: 100 }
}

fn query_of(step: &LookupStep) -> (String, QueryType, Ipv4Address) {
    match step {
        LookupStep::Query { qname, qtype, server } => (qname.clone(), *qtype, *server),
        LookupStep::Finished(_) => panic!("walk finished early"),
    }
}

#[test]
fn answers_and_nxdomain_end_the_walk() {
    let mut p = DNSPacket::new();
    p.answers.push(a("www.example.com", 1));
    assert!(matches!(classify_response("www.example.com", &p), Referral::Answer));
    let mut n = DNSPacket::new();
    n.header.rcode = RCode::NXDOMAIN;
    n.authorities.push(ns("com", "a.gtld"));
    assert!(matches!(classify_response("www.example.com", &n), Referral::Answer));
    let empty = DNSPacket::new();
    assert!(matches!(classify_response("www.example.com", &empty), Referral::Answer));
}

#[test]
fn glue_is_preferred_over_resolving() {
    let mut p = DNSPacket::new();
    p.authorities.push(ns("com", "a.gtld"));
    p.authorities.push(ns("com", "b.gtld"));
    p.resources.push(a("b.gtld", 2));
    match classify_response("www.example.com", &p) {
        Referral::NextServer(addr) => assert_eq!(addr, Ipv4Address::new(10, 0, 0, 2)),
        _ => panic!("expected the glue address"),
    }
    let mut q = DNSPacket::new();
    q.authorities.push(ns("com", "a.gtld"));
    match classify_response("www.example.com", &q) {
        Referral::ResolveHost(h) => assert_eq!(h, "a.gtld"),
        _ => panic!("expected a host to resolve"),
    }
}

#[test]
fn walk_follows_glue_to_the_answer() {
    let (mut walk, step) = RecursiveLookup::start("www.example.com", QueryType::A);
    let (name, t, server) = query_of(&step);
    assert_eq!(name, "www.example.com");
    assert_eq!(t, QueryType::A);
    assert_eq!(server, Ipv4Address::new(198, 41, 0, 4));
    assert_eq!(server.bits, ROOT_SERVER);
    let mut referral = DNSPacket::new();
    referral.authorities.push(ns("com", "a.gtld"));
    referral.resources.push(a("a.gtld", 7));
    let step = walk.on_response(referral);
    let (_, _, server) = query_of(&step);
    assert_eq!(server, Ipv4Address::new(10, 0, 0, 7));
    let mut answer = DNSPacket::new();
    answer.answers.push(a("www.example.com", 9));
    match walk.on_response(answer) {
        LookupStep::Finished(p) => assert_eq!(p.answers, vec![a("www.example.com", 9)]),
        _ => panic!("expected the answer"),
    }
}

#[test]
fn walk_resolves_a_name_server_without_glue() {
    let (mut walk, _) = RecursiveLookup::start("www.example.com", QueryType::MX);
    let mut referral = DNSPacket::new();
    referral.authorities.push(ns("example.com", "ns1.other.net"));
    let step = walk.on_response(referral);
    let (name, t, server) = query_of(&step);
    assert_eq!(name, "ns1.other.net");
    assert_eq!(t, QueryType::A);
    assert_eq!(server.bits, ROOT_SERVER);
    assert_eq!(walk.frames.len(), 2);
    let mut host_answer = DNSPacket::new();
    host_answer.answers.push(a("ns1.other.net", 5));
    let step = walk.on_response(host_answer);
    let (name, t, server) = query_of(&step);
    assert_eq!(name, "www.example.com");
    assert_eq!(t, QueryType::MX);
    assert_eq!(server, Ipv4Address::new(10, 0, 0, 5));
    assert_eq!(walk.frames.len(), 1);
}

#[test]
fn failed_name_server_lookup_returns_last_response() {
    let (mut walk, _) = RecursiveLookup::start("www.example.com", QueryType::A);
    let mut referral = DNSPacket::new();
    referral.header.id = 77;
    referral.authorities.push(ns("example.com", "ns1.other.net"));
    walk.on_response(referral);
    let mut nothing = DNSPacket::new();
    nothing.header.rcode = RCode::NXDOMAIN;
    match walk.on_response(nothing) {
        LookupStep::Finished(p) => {
            assert_eq!(p.header.id, 77);
            assert_eq!(p.authorities, vec![ns("example.com", "ns1.other.net")]);
        }
        _ => panic!("expected the referral back"),
    }
}

#[test]
fn nesting_stops_at_the_depth_limit() {
    let (mut walk, _) = RecursiveLookup::start("q.example", QueryType::A);
    for i in 0..MAX_DEPTH {
        let mut referral = DNSPacket::new();
        let qname = match walk.frames.last() {
            Some(f) => f.qname.clone(),
            None => panic!(),
        };
        referral.authorities.push(ns(&qname, &format!("ns{}.deep", i)));
        let step = walk.on_response(referral);
        if i + 1 < MAX_DEPTH {
            assert!(matches!(step, LookupStep::Query { .. }));
        } else {
            assert!(matches!(step, LookupStep::Finished(_)));
        }
    }
}

#[test]
fn response_copies_id_and_sets_flags() {
    let mut request = DNSPacket::new();
    request.header.id = 4242;
    request.questions.push(DNSQuestion { qname: "a.example".to_string(), qtype: QueryType::A, class: 1 });
    request.questions.push(DNSQuestion { qname: "b.example".to_string(), qtype: QueryType::A, class: 1 });
    let q = first_question(&request).unwrap();
    assert_eq!(q.qname, "a.example");
    let mut upstream = DNSPacket::new();
    upstream.answers.push(a("a.example", 3));
    upstream.header.rcode = RCode::NOERROR;
    let r = handle_query(&request, true, Some(upstream));
    assert_eq!(r.header.id, 4242);
    assert!(r.header.query);
    assert!(r.header.recursion_desired);
    assert!(r.header.recursion_available);
    assert_eq!(r.header.rcode, RCode::NOERROR);
    assert_eq!(r.questions.len(), 1);
    assert_eq!(r.questions[0].qname, "a.example");
    assert_eq!(r.answers, vec![a("a.example", 3)]);
}

#[test]
fn response_codes_for_failures() {
    let empty = DNSPacket::new();
    let r = handle_query(&empty, false, None);
    assert_eq!(r.header.rcode, RCode::FORMERR);
    assert!(!r.header.recursion_available);
    assert!(first_question(&empty).is_none());
    let mut request = DNSPacket::new();
    request.questions.push(DNSQuestion { qname: "x".to_string(), qtype: QueryType::A, class: 1 });
    assert_eq!(handle_query(&request, true, None).header.rcode, RCode::SERVFAIL);
    let mut refused = DNSPacket::new();
    refused.header.rcode = RCode::REFUSED;
    assert_eq!(handle_query(&request, true, Some(refused)).header.rcode, RCode::SERVFAIL);
    let mut nx = DNSPacket::new();
    nx.header.rcode = RCode::NXDOMAIN;
    assert_eq!(handle_query(&request, true, Some(nx)).header.rcode, RCode::NXDOMAIN);
}

#[test]
fn query_bytes_are_exact() {
    let w = build_query("ab.c", QueryType::MX, true).unwrap();
    let id = QUERY_ID.to_be_bytes();
    assert_eq!(
        w.buffer,
        vec![
            id[0], id[1], 0x01, 0x00, 0, 1, 0, 0, 0, 0, 0, 0, 2, b'a', b'b', 1, b'c', 0, 0, 15, 0,
            1
        ]
    );
    assert_eq!(build_query("bad..name", QueryType::A, false).unwrap_err(), WriteError::InvalidName);
}
