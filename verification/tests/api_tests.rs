use cf_dyndns::api::{
    apply_update_response, ingest_zone_records, ingest_zones, lookup_record, record_update_path,
    records_list_path, update_body, Envelope, FetchOutcome, RecordData, ZoneData,
};
use cf_dyndns::cache::{Cache, DnsRecord};
use cf_dyndns::error::Error;

/// A scripted provider: fixed zones and records, a configurable echo for
/// updates, and counters for every request it serves.
struct FakeProvider {
    zones: Vec<String>,
    records: Vec<(String, String, String, String, String)>, // zone, id, name, type, content
    echo_override: Option<String>,
    zone_list_calls: usize,
    record_list_calls: Vec<String>,
    puts: Vec<(String, String)>,
}

impl FakeProvider {
    fn new(zones: Vec<&str>, records: Vec<(&str, &str, &str, &str, &str)>) -> FakeProvider {
        FakeProvider {
            zones: zones.into_iter().map(|z| z.to_string()).collect(),
            records: records
                .into_iter()
                .map(|(z, i, n, t, c)| {
                    (z.to_string(), i.to_string(), n.to_string(), t.to_string(), c.to_string())
                })
                .collect(),
            echo_override: None,
            zone_list_calls: 0,
            record_list_calls: Vec::new(),
            puts: Vec::new(),
        }
    }

    fn list_zones(&mut self) -> FetchOutcome<Vec<ZoneData>> {
        self.zone_list_calls += 1;
        let payload = self.zones.iter().map(|z| ZoneData { id: z.clone() }).collect();
        FetchOutcome::Response(Envelope { success: true, errors: Vec::new(), result: Some(payload) })
    }

    fn list_records(&mut self, zone: &str) -> FetchOutcome<Vec<RecordData>> {
        self.record_list_calls.push(zone.to_string());
        let payload = self
            .records
            .iter()
            .filter(|r| r.0 == zone)
            .map(|r| RecordData {
                id: r.1.clone(),
                name: r.2.clone(),
                content: r.4.clone(),
                record_type: r.3.clone(),
            })
            .collect();
        FetchOutcome::Response(Envelope { success: true, errors: Vec::new(), result: Some(payload) })
    }

    fn put(&mut self, path: String, body: String, record: &DnsRecord, requested: &str) -> FetchOutcome<RecordData> {
        self.puts.push((path, body));
        let content = match &self.echo_override {
            Some(c) => c.clone(),
            None => requested.to_string(),
        };
        FetchOutcome::Response(Envelope {
            success: true,
            errors: Vec::new(),
            result: Some(RecordData {
                id: record.id.clone(),
                name: String::new(),
                content,
                record_type: String::new(),
            }),
        })
    }
}

/// The resolve driver: answer from the cache, else fetch the zone listing
/// once and every zone's records, then answer from the cache.
fn resolve(
    provider: &mut FakeProvider,
    cache: &mut Cache,
    domain: &str,
    record_type: &str,
) -> Result<DnsRecord, Error> {
    if cache.get_dns_record(domain, record_type).is_none() {
        if !cache.zones_cached() {
            let out = provider.list_zones();
            ingest_zones(cache, out)?;
        }
        let zones = cache.get_zones();
        for zone in zones.iter() {
            let out = provider.list_records(zone.as_str());
            ingest_zone_records(cache, zone.as_str(), out)?;
        }
    }
    lookup_record(cache, domain, record_type)
}

/// The update driver: resolve, issue the update request, verify the echo.
fn update(
    provider: &mut FakeProvider,
    cache: &mut Cache,
    domain: &str,
    record_type: &str,
    content: &str,
) -> Result<DnsRecord, Error> {
    let record = resolve(provider, cache, domain, record_type)?;
    let path = record_update_path(record.zone_id.as_str(), record.id.as_str());
    let body = update_body(content);
    let out = provider.put(path, body, &record, content);
    apply_update_response(cache, domain, record_type, &record, content, out)
}

#[test]
fn transport_failure_is_a_network_error_and_leaves_the_cache_alone() {
    let mut cache = Cache::new();
    let r = ingest_zones(&mut cache, FetchOutcome::Transport);
    assert_eq!(r, Err(Error::Network));
    assert!(!cache.zones_cached());
}

#[test]
fn undecodable_body_is_a_decode_error() {
    let mut cache = Cache::new();
    let r = ingest_zones(&mut cache, FetchOutcome::Malformed);
    assert_eq!(r, Err(Error::Decode));
}

#[test]
fn unsuccessful_envelope_carries_the_providers_messages() {
    let mut cache = Cache::new();
    let out: FetchOutcome<Vec<ZoneData>> = FetchOutcome::Response(Envelope {
        success: false,
        errors: vec!["quota exceeded".to_string()],
        result: None,
    });
    let r = ingest_zones(&mut cache, out);
    assert_eq!(r, Err(Error::Api(vec!["quota exceeded".to_string()])));
    assert!(!cache.zones_cached());
}

#[test]
fn successful_envelope_without_payload_is_a_decode_error() {
    let mut cache = Cache::new();
    let out: FetchOutcome<Vec<ZoneData>> = FetchOutcome::Response(Envelope {
        success: true,
        errors: Vec::new(),
        result: None,
    });
    assert_eq!(ingest_zones(&mut cache, out), Err(Error::Decode));
}

#[test]
fn resolve_finds_a_record_across_zones() {
    let mut provider = FakeProvider::new(
        vec!["z1", "z2"],
        vec![
            ("z1", "r1", "a.example", "A", "203.0.113.1"),
            ("z2", "r2", "b.example", "AAAA", "2001:db8::1"),
        ],
    );
    let mut cache = Cache::new();
    let rec = resolve(&mut provider, &mut cache, "b.example", "AAAA").unwrap();
    assert_eq!(rec.id, "r2");
    assert_eq!(rec.zone_id, "z2");
    assert_eq!(rec.content, "2001:db8::1");
}

#[test]
fn resolve_of_unknown_pair_is_not_found_with_context() {
    let mut provider = FakeProvider::new(vec!["z1"], vec![("z1", "r1", "a.example", "A", "x")]);
    let mut cache = Cache::new();
    let r = resolve(&mut provider, &mut cache, "a.example", "AAAA");
    assert_eq!(
        r,
        Err(Error::NotFound { domain: "a.example".to_string(), record_type: "AAAA".to_string() })
    );
}

#[test]
fn second_resolve_issues_no_further_requests() {
    let mut provider = FakeProvider::new(
        vec!["z1", "z2"],
        vec![("z1", "r1", "a.example", "A", "203.0.113.1")],
    );
    let mut cache = Cache::new();
    resolve(&mut provider, &mut cache, "a.example", "A").unwrap();
    let first = resolve(&mut provider, &mut cache, "a.example", "A").unwrap();
    assert_eq!(first.content, "203.0.113.1");
    // At most one zone listing and one record listing per zone, over both calls.
    assert_eq!(provider.zone_list_calls, 1);
    assert_eq!(provider.record_list_calls, vec!["z1".to_string(), "z2".to_string()]);
}

#[test]
fn mismatched_echo_fails_the_update_and_keeps_the_cache_entry() {
    let mut provider = FakeProvider::new(
        vec!["z1"],
        vec![("z1", "r1", "a.example", "A", "203.0.113.1")],
    );
    provider.echo_override = Some("198.51.100.7".to_string());
    let mut cache = Cache::new();
    let r = update(&mut provider, &mut cache, "a.example", "A", "203.0.113.9");
    assert_eq!(
        r,
        Err(Error::UpdateMismatch {
            domain: "a.example".to_string(),
            record_type: "A".to_string(),
            requested: "203.0.113.9".to_string(),
            actual: "198.51.100.7".to_string(),
        })
    );
    // The cache still holds what was observed before the update attempt.
    let rec = cache.get_dns_record("a.example", "A").unwrap();
    assert_eq!(rec.content, "203.0.113.1");
    assert_eq!(rec.id, "r1");
}

#[test]
fn verified_update_overwrites_the_cache_entry_in_place() {
    let mut provider = FakeProvider::new(
        vec!["z1"],
        vec![("z1", "r1", "a.example", "A", "203.0.113.1")],
    );
    let mut cache = Cache::new();
    let rec = update(&mut provider, &mut cache, "a.example", "A", "203.0.113.9").unwrap();
    assert_eq!(rec.id, "r1");
    assert_eq!(rec.zone_id, "z1");
    assert_eq!(rec.content, "203.0.113.9");
    let cached = cache.get_dns_record("a.example", "A").unwrap();
    assert_eq!(cached.content, "203.0.113.9");
    assert_eq!(cached.id, "r1");
    assert_eq!(cached.zone_id, "z1");
    assert_eq!(provider.puts.len(), 1);
    assert_eq!(provider.puts[0].0, "zones/z1/dns_records/r1");
    assert_eq!(provider.puts[0].1, "{\"content\": \"203.0.113.9\"}");
}

#[test]
fn request_paths_and_body_are_built_exactly() {
    assert_eq!(records_list_path("z9"), "zones/z9/dns_records?type=A&type=AAAA");
    assert_eq!(record_update_path("z9", "r3"), "zones/z9/dns_records/r3");
    assert_eq!(update_body("::1"), "{\"content\": \"::1\"}");
}
