use dns_resolver::cache::{Cache, CacheState, DomainEntry};
use dns_resolver::packet::{DNSRecord, Ipv4Address, QueryType, RCode};

fn entry<'a>(cache: &'a Cache, name: &str) -> &'a DomainEntry {
    cache
        .domain_entries
        .iter()
        .find(|e| e.domain == name)
        .expect("no entry for name")
}

fn a_record(domain: &str, a: u8, b: u8, c: u8, d: u8, ttl: u32) -> DNSRecord {
    DNSRecord::A { domain: domain.to_string(), addr: Ipv4Address::new(a, b, c, d), ttl }
}

#[test]
fn test_cache() {
    let mut cache = Cache::new();

    // Verify that no data is returned when nothing is present
    if cache.lookup("www.google.com", QueryType::A).is_some() {
        panic!()
    }

    // Register a negative cache entry
    cache.store_nxdomain("www.google.com", QueryType::A, 3600);

    // Verify that we get a response, with the NXDOMAIN flag set
    if let Some(packet) = cache.lookup("www.google.com", QueryType::A) {
        assert_eq!(RCode::NXDOMAIN, packet.header.rcode);
    }

    // Register a negative cache entry with no TTL
    cache.store_nxdomain("www.yahoo.com", QueryType::A, 0);

    // And check that no such result is actually returned, since it's expired
    if cache.lookup("www.yahoo.com", QueryType::A).is_some() {
        panic!()
    }

    // Now add some actual records
    let mut records = Vec::new();
    records.push(a_record("www.google.com", 127, 0, 0, 1, 3600000));
    records.push(a_record("www.yahoo.com", 127, 0, 0, 2, 0));
    records.push(DNSRecord::CNAME {
        domain: "www.microsoft.com".to_string(),
        host: "www.somecdn.com".to_string(),
        ttl: 3600000,
    });

    cache.store(&records);

    // Test for successful lookup
    if let Some(packet) = cache.lookup("www.google.com", QueryType::A) {
        assert_eq!(records[0], packet.answers[0]);
    } else {
        panic!();
    }

    // Test for failed lookup, since no CNAME's are known for this domain
    if cache.lookup("www.google.com", QueryType::CNAME).is_some() {
        panic!();
    }

    // Check for successful CNAME lookup
    if let Some(packet) = cache.lookup("www.microsoft.com", QueryType::CNAME) {
        assert_eq!(records[2], packet.answers[0]);
    } else {
        panic!();
    }

    // This lookup should fail, since it has expired due to the 0 second TTL
    if cache.lookup("www.yahoo.com", QueryType::A).is_some() {
        panic!();
    }

    let mut records2 = Vec::new();
    records2.push(a_record("www.yahoo.com", 127, 0, 0, 2, 36000000));

    cache.store(&records2);

    // And now it should succeed, since the record has been store
    if !cache.lookup("www.yahoo.com", QueryType::A).is_some() {
        panic!();
    }

    // Check stat counter behavior
    assert_eq!(3, cache.domain_entries.len());
    assert_eq!(1, entry(&cache, "www.google.com").hits);
    assert_eq!(2, entry(&cache, "www.google.com").updates);
    assert_eq!(1, entry(&cache, "www.yahoo.com").hits);
    assert_eq!(3, entry(&cache, "www.yahoo.com").updates);
    assert_eq!(1, entry(&cache, "www.microsoft.com").updates);
    assert_eq!(1, entry(&cache, "www.microsoft.com").hits);
}

#[test]
fn new_cache_has_nothing() {
    let mut cache = Cache::new();
    assert!(cache.lookup("www.google.com", QueryType::A).is_none());
    assert!(cache.lookup_at("example.org", QueryType::MX, 0).is_none());
    assert!(cache.domain_entries.is_empty());
}

#[test]
fn negative_entry_answers_nxdomain_until_expiry() {
    let mut cache = Cache::new();
    cache.store_nxdomain_at("www.google.com", QueryType::A, 3600, 1000);
    let p = cache.lookup_at("www.google.com", QueryType::A, 1000).unwrap();
    assert_eq!(p.header.rcode, RCode::NXDOMAIN);
    assert!(p.answers.is_empty());
    let p = cache.lookup_at("www.google.com", QueryType::A, 4600).unwrap();
    assert_eq!(p.header.rcode, RCode::NXDOMAIN);
    assert!(cache.lookup_at("www.google.com", QueryType::A, 4601).is_none());
    // other types of the name are not covered
    assert!(cache.lookup_at("www.google.com", QueryType::MX, 1000).is_none());
    // a negative answer counts no hit
    assert_eq!(entry(&cache, "www.google.com").hits, 0);
    assert_eq!(entry(&cache, "www.google.com").updates, 1);
}

#[test]
fn zero_ttl_negative_entry_never_answers() {
    let mut cache = Cache::new();
    cache.store_nxdomain("www.yahoo.com", QueryType::A, 0);
    assert!(cache.lookup("www.yahoo.com", QueryType::A).is_none());
    cache.store_nxdomain_at("www.yahoo.com", QueryType::A, 0, 50);
    assert!(cache.lookup_at("www.yahoo.com", QueryType::A, 50).is_none());
    assert!(cache.lookup_at("www.yahoo.com", QueryType::A, 10).is_none());
    assert_eq!(entry(&cache, "www.yahoo.com").updates, 2);
}

#[test]
fn storing_same_record_twice_keeps_one_entry() {
    let mut cache = Cache::new();
    let rec = a_record("host.example", 10, 0, 0, 1, 300);
    cache.store_at(&[rec.clone()], 100);
    cache.store_at(&[rec.clone()], 200);
    let e = entry(&cache, "host.example");
    assert_eq!(e.updates, 2);
    assert_eq!(e.record_types.len(), 1);
    match &e.record_types[0] {
        dns_resolver::cache::RecordSet::Records { records, .. } => {
            assert_eq!(records.len(), 1);
            assert_eq!(records[0].timestamp, 200);
        }
        _ => panic!("expected records"),
    }
    let p = cache.lookup_at("host.example", QueryType::A, 450).unwrap();
    assert_eq!(p.answers.len(), 1);
    assert_eq!(p.answers[0], rec);
    // the refreshed timestamp counts: valid until 200 + 300
    assert!(cache.lookup_at("host.example", QueryType::A, 501).is_none());
}

#[test]
fn one_positive_lookup_counts_one_hit() {
    let mut cache = Cache::new();
    let recs = vec![
        a_record("multi.example", 10, 0, 0, 1, 60),
        a_record("multi.example", 10, 0, 0, 2, 60),
        a_record("multi.example", 10, 0, 0, 3, 60),
    ];
    cache.store_at(&recs, 0);
    let p = cache.lookup_at("multi.example", QueryType::A, 10).unwrap();
    assert_eq!(p.answers.len(), 3);
    assert_eq!(p.header.rcode, RCode::NOERROR);
    assert_eq!(entry(&cache, "multi.example").hits, 1);
    assert_eq!(entry(&cache, "multi.example").updates, 3);
    cache.store_nxdomain_at("multi.example", QueryType::MX, 60, 0);
    assert!(cache.lookup_at("multi.example", QueryType::MX, 10).is_some());
    assert_eq!(entry(&cache, "multi.example").hits, 1);
}

#[test]
fn positive_lookup_copies_ns_authorities() {
    let mut cache = Cache::new();
    let recs = vec![
        a_record("zone.example", 10, 0, 0, 1, 60),
        DNSRecord::NS { domain: "zone.example".to_string(), host: "ns1.zone.example".to_string(), ttl: 60 },
    ];
    cache.store_at(&recs, 0);
    let p = cache.lookup_at("zone.example", QueryType::A, 1).unwrap();
    assert_eq!(p.answers, vec![recs[0].clone()]);
    assert_eq!(p.authorities, vec![recs[1].clone()]);
}

#[test]
fn unknown_records_are_not_stored() {
    let mut cache = Cache::new();
    let rec = DNSRecord::UNKNOWN { domain: "x.example".to_string(), qtype: 99, data_len: 4, ttl: 60 };
    cache.store_at(&[rec], 0);
    assert!(cache.domain_entries.is_empty());
}

#[test]
fn records_replace_a_negative_entry() {
    let mut cache = Cache::new();
    cache.store_nxdomain_at("swap.example", QueryType::A, 600, 0);
    cache.store_at(&[a_record("swap.example", 1, 2, 3, 4, 600)], 1);
    let p = cache.lookup_at("swap.example", QueryType::A, 2).unwrap();
    assert_eq!(p.header.rcode, RCode::NOERROR);
    assert_eq!(p.answers.len(), 1);
    assert_eq!(entry(&cache, "swap.example").updates, 2);
}

#[test]
fn domain_entry_states() {
    let mut e = DomainEntry::new("d.example".to_string());
    assert_eq!(e.get_cache_state(QueryType::A, 0), CacheState::NotCached);
    e.store_nxdomain(QueryType::A, 10, 0);
    assert_eq!(e.get_cache_state(QueryType::A, 10), CacheState::NegativeCache);
    assert_eq!(e.get_cache_state(QueryType::A, 11), CacheState::NotCached);
    e.store_record(&a_record("d.example", 1, 1, 1, 1, 5), 0);
    assert_eq!(e.get_cache_state(QueryType::A, 5), CacheState::PositiveCache);
    assert_eq!(e.get_cache_state(QueryType::A, 6), CacheState::NotCached);
    let mut out = Vec::new();
    e.fill_query_result(QueryType::A, &mut out, 3);
    assert_eq!(out.len(), 1);
    e.fill_query_result(QueryType::A, &mut out, 6);
    assert_eq!(out.len(), 1);
    assert_eq!(e.updates, 2);
}

#[test]
fn whole_response_is_stored() {
    let mut cache = Cache::new();
    let mut response = dns_resolver::packet::DNSPacket::new();
    response.answers.push(a_record("www.example.com", 10, 0, 0, 1, 60));
    response.authorities.push(DNSRecord::NS {
        domain: "example.com".to_string(),
        host: "ns1.example.com".to_string(),
        ttl: 60,
    });
    response.resources.push(a_record("ns1.example.com", 10, 0, 0, 53, 60));
    cache.store_response_at(&response, 0);
    assert_eq!(cache.domain_entries.len(), 3);
    assert!(cache.lookup_at("www.example.com", QueryType::A, 1).is_some());
    assert!(cache.lookup_at("example.com", QueryType::NS, 1).is_some());
    assert!(cache.lookup_at("ns1.example.com", QueryType::A, 1).is_some());
    cache.store_response(&response);
    assert_eq!(entry(&cache, "www.example.com").updates, 2);
}
