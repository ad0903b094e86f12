use cf_dyndns::api::{
    apply_update_response, ingest_zone_records, ingest_zones, lookup_record, record_update_path,
    update_body, Envelope, FetchOutcome, RecordData, ZoneData,
};
use cf_dyndns::cache::{Cache, DnsRecord};
use cf_dyndns::config::{Args, Config};
use cf_dyndns::error::Error;
use cf_dyndns::reconcile::{
    delete_domain, desired_content_v4, desired_content_v6, needs_update, register_domain,
    should_skip_run, suffix_display, DomainRegistration,
};

fn registration(domain: &str, v4_suffix: Option<&str>) -> DomainRegistration {
    DomainRegistration::new(
        &domain.to_string(),
        &false,
        &v4_suffix.map(|s| s.to_string()),
        &true,
        &None,
    )
}

#[test]
fn a_new_domain_registers_once() {
    let mut domains: Vec<DomainRegistration> = Vec::new();
    assert!(register_domain(&mut domains, registration("a.example", None)));
    assert!(!register_domain(&mut domains, registration("a.example", Some("9"))));
    assert_eq!(domains.len(), 1);
    assert!(domains[0].v4_suffix.is_none());
}

#[test]
fn deleting_removes_every_registration_of_the_domain() {
    let mut domains = vec![
        registration("a.example", None),
        registration("b.example", None),
        registration("a.example", Some("7")),
    ];
    assert!(delete_domain(&mut domains, "a.example"));
    assert_eq!(domains.len(), 1);
    assert_eq!(domains[0].domain, "b.example");
    assert!(!delete_domain(&mut domains, "a.example"));
    assert_eq!(domains.len(), 1);
}

#[test]
fn desired_content_without_suffix_is_the_discovered_address() {
    let addr = "203.0.113.9".to_string();
    assert_eq!(desired_content_v4(&addr, &None).unwrap(), "203.0.113.9");
    let addr6 = "2001:db8::1".to_string();
    assert_eq!(desired_content_v6(&addr6, &None).unwrap(), "2001:db8::1");
}

#[test]
fn desired_content_applies_the_suffix() {
    let addr = "203.0.113.9".to_string();
    assert_eq!(
        desired_content_v4(&addr, &Some("77".to_string())).unwrap(),
        "203.0.113.77"
    );
    let addr6 = "2001:db8::1".to_string();
    assert_eq!(
        desired_content_v6(&addr6, &Some("ab:cd".to_string())).unwrap(),
        "2001:db8:0000:0000:0000:0000:ab:cd"
    );
}

#[test]
fn an_oversized_suffix_is_refused() {
    let addr = "1.2".to_string();
    assert_eq!(
        desired_content_v4(&addr, &Some("3.4.5".to_string())),
        Err(Error::Validation)
    );
}

#[test]
fn update_is_needed_on_difference_or_force() {
    let cur = "203.0.113.1".to_string();
    let new = "203.0.113.9".to_string();
    assert!(needs_update(&cur, &new, false));
    assert!(!needs_update(&cur, &cur.clone(), false));
    assert!(needs_update(&cur, &cur.clone(), true));
}

fn config_with(text: &str) -> Config {
    Config::new(
        &Args { config_file: None, domains_file: None, cloudflare_token: String::new() },
        text,
    )
}

#[test]
fn a_fresh_unchanged_run_is_skipped() {
    let cfg = config_with("last_ipv4=203.0.113.9\nlast_ipv6=2001:db8::1\nlast_update=1000000\n");
    let v4 = "203.0.113.9".to_string();
    let v6 = "2001:db8::1".to_string();
    // Less than twelve hours after the recorded update.
    assert!(should_skip_run(&cfg, &v4, &v6, false, 1000000 + 43199));
    // The window has elapsed: proceed, to re-validate.
    assert!(!should_skip_run(&cfg, &v4, &v6, false, 1000000 + 43200));
    // A forced run never takes the fast path.
    assert!(!should_skip_run(&cfg, &v4, &v6, true, 1000000 + 10));
    // A changed address never takes the fast path.
    let other = "198.51.100.1".to_string();
    assert!(!should_skip_run(&cfg, &other, &v6, false, 1000000 + 10));
}

#[test]
fn a_run_without_recorded_state_is_never_skipped() {
    let cfg = config_with("");
    let v4 = "203.0.113.9".to_string();
    let v6 = "2001:db8::1".to_string();
    assert!(!should_skip_run(&cfg, &v4, &v6, false, 50000));
}

#[test]
fn an_unreadable_timestamp_counts_as_never_updated() {
    let cfg = config_with("last_ipv4=a\nlast_ipv6=b\nlast_update=soon\n");
    let v4 = "a".to_string();
    let v6 = "b".to_string();
    // Parsed as zero: only a very early clock still falls in the window.
    assert!(should_skip_run(&cfg, &v4, &v6, false, 43199));
    assert!(!should_skip_run(&cfg, &v4, &v6, false, 43200));
}

#[test]
fn listing_shows_disabled_default_or_the_suffix() {
    assert_eq!(suffix_display(true, &Some("9".to_string())), "Disabled");
    assert_eq!(suffix_display(false, &None), "Default");
    assert_eq!(suffix_display(false, &Some("9".to_string())), "9");
}

/// A scripted provider for the end-to-end reconciliation scenarios.
struct FakeProvider {
    zones: Vec<String>,
    records: Vec<(String, String, String, String, String)>, // zone, id, name, type, content
    puts: Vec<(String, String)>,
}

impl FakeProvider {
    fn list_zones(&mut self) -> FetchOutcome<Vec<ZoneData>> {
        let payload = self.zones.iter().map(|z| ZoneData { id: z.clone() }).collect();
        FetchOutcome::Response(Envelope { success: true, errors: Vec::new(), result: Some(payload) })
    }

    fn list_records(&mut self, zone: &str) -> FetchOutcome<Vec<RecordData>> {
        let payload = self
            .records
            .iter()
            .filter(|r| r.0 == zone)
            .map(|r| RecordData {
                id: r.1.clone(),
                name: r.2.clone(),
                content: r.4.clone(),
                record_type: r.3.clone(),
            })
            .collect();
        FetchOutcome::Response(Envelope { success: true, errors: Vec::new(), result: Some(payload) })
    }

    fn put(&mut self, path: String, body: String, record: &DnsRecord, requested: &str) -> FetchOutcome<RecordData> {
        self.puts.push((path, body));
        FetchOutcome::Response(Envelope {
            success: true,
            errors: Vec::new(),
            result: Some(RecordData {
                id: record.id.clone(),
                name: String::new(),
                content: requested.to_string(),
                record_type: String::new(),
            }),
        })
    }
}

fn resolve(
    provider: &mut FakeProvider,
    cache: &mut Cache,
    domain: &str,
    record_type: &str,
) -> Result<DnsRecord, Error> {
    if cache.get_dns_record(domain, record_type).is_none() {
        if !cache.zones_cached() {
            let out = provider.list_zones();
            ingest_zones(cache, out)?;
        }
        let zones = cache.get_zones();
        for zone in zones.iter() {
            let out = provider.list_records(zone.as_str());
            ingest_zone_records(cache, zone.as_str(), out)?;
        }
    }
    lookup_record(cache, domain, record_type)
}

/// One domain and family of the per-domain loop: resolve the current
/// record, update when the content differs or the run is forced, and report
/// the transition that took place, if any.
fn reconcile_one(
    provider: &mut FakeProvider,
    cache: &mut Cache,
    domain: &str,
    record_type: &str,
    desired: &String,
    force: bool,
) -> Option<(String, String)> {
    let current = match resolve(provider, cache, domain, record_type) {
        Ok(record) => record.content,
        Err(_) => return None,
    };
    if !needs_update(&current, desired, force) {
        return None;
    }
    let record = match resolve(provider, cache, domain, record_type) {
        Ok(r) => r,
        Err(_) => return None,
    };
    let path = record_update_path(record.zone_id.as_str(), record.id.as_str());
    let body = update_body(desired.as_str());
    let out = provider.put(path, body, &record, desired.as_str());
    match apply_update_response(cache, domain, record_type, &record, desired.as_str(), out) {
        Ok(_) => Some((current, desired.clone())),
        Err(_) => None,
    }
}

#[test]
fn changed_address_is_written_exactly_once_and_reported() {
    let reg = registration("a.example", None);
    let discovered = "203.0.113.9".to_string();
    let mut provider = FakeProvider {
        zones: vec!["z1".to_string()],
        records: vec![(
            "z1".to_string(),
            "r1".to_string(),
            "a.example".to_string(),
            "A".to_string(),
            "203.0.113.1".to_string(),
        )],
        puts: Vec::new(),
    };
    let mut cache = Cache::new();
    let desired = desired_content_v4(&discovered, &reg.v4_suffix).unwrap();
    let transition =
        reconcile_one(&mut provider, &mut cache, reg.domain.as_str(), "A", &desired, false);
    assert_eq!(provider.puts.len(), 1);
    assert_eq!(provider.puts[0].1, "{\"content\": \"203.0.113.9\"}");
    let (old, new) = transition.unwrap();
    assert_eq!(format!("{} -> {}", old, new), "203.0.113.1 -> 203.0.113.9");
}

#[test]
fn unchanged_address_issues_no_write_and_no_transition() {
    let reg = registration("a.example", None);
    let discovered = "203.0.113.9".to_string();
    let mut provider = FakeProvider {
        zones: vec!["z1".to_string()],
        records: vec![(
            "z1".to_string(),
            "r1".to_string(),
            "a.example".to_string(),
            "A".to_string(),
            "203.0.113.9".to_string(),
        )],
        puts: Vec::new(),
    };
    let mut cache = Cache::new();
    let desired = desired_content_v4(&discovered, &reg.v4_suffix).unwrap();
    let transition =
        reconcile_one(&mut provider, &mut cache, reg.domain.as_str(), "A", &desired, false);
    assert_eq!(provider.puts.len(), 0);
    assert!(transition.is_none());
}
