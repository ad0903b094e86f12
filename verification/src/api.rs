//! The provider protocol: unwrapping the API's response envelope, filling
//! the cache from zone and record listings, answering lookups from the
//! cache, and verifying that an update took effect before the cache is
//! overwritten. The transport itself stands outside; these functions take
//! what came back and say exactly what each outcome means.

use vstd::prelude::*;

use crate::cache::{record_key, Cache, CacheView, DnsRecord, RecordView};
use crate::error::Error;

verus! {

/// One zone as the provider lists it.
pub struct ZoneData {
    pub id: String,
}

/// One address record as the provider lists it.
pub struct RecordData {
    pub id: String,
    pub name: String,
    pub content: String,
    pub record_type: String,
}

/// The provider's uniform response wrapper: a success flag, the provider's
/// error messages, and the typed payload, which may be absent.
pub struct Envelope<V> {
    pub success: bool,
    pub errors: Vec<String>,
    pub result: Option<V>,
}

/// How one provider call ended before the envelope is read: the transport
/// failed, the body did not decode, or an envelope came back.
pub enum FetchOutcome<V> {
    Transport,
    Malformed,
    Response(Envelope<V>),
}

/// What an outcome means: a transport failure is a network error, an
/// undecodable body is a decode error, an unsuccessful envelope carries the
/// provider's messages, a successful envelope without a payload breaks the
/// provider's contract and reads as a decode error, and a successful
/// envelope with a payload yields it.
pub open spec fn unwrap_spec<V>(out: FetchOutcome<V>) -> Result<V, Error> {
    match out {
        FetchOutcome::Transport => Err(Error::Network),
        FetchOutcome::Malformed => Err(Error::Decode),
        FetchOutcome::Response(env) => {
            if !env.success {
                Err(Error::Api(env.errors))
            } else {
                match env.result {
                    Some(v) => Ok(v),
                    None => Err(Error::Decode),
                }
            }
        },
    }
}

/// Unwraps one provider response into its payload or its failure.
pub fn unwrap_envelope<V>(out: FetchOutcome<V>) -> (r: Result<V, Error>)
    ensures
        r == unwrap_spec(out),
{
    match out {
        FetchOutcome::Transport => Err(Error::Network),
        FetchOutcome::Malformed => Err(Error::Decode),
        FetchOutcome::Response(env) => {
            if !env.success {
                Err(Error::Api(env.errors))
            } else {
                match env.result {
                    Some(v) => Ok(v),
                    None => Err(Error::Decode),
                }
            }
        },
    }
}

/// The identifiers of the listed zones, in the provider's order.
pub open spec fn zone_ids(zs: Seq<ZoneData>) -> Seq<Seq<char>> {
    zs.map_values(|z: ZoneData| z.id@)
}

/// Adds every zone of a zone-listing response to the cache, in the
/// provider's order; a failed response leaves the cache untouched.
pub fn ingest_zones(cache: &mut Cache, out: FetchOutcome<Vec<ZoneData>>) -> (r: Result<(), Error>)
    ensures
        match unwrap_spec(out) {
            Ok(zs) => r == Ok::<(), Error>(()) && final(cache)@.zones == old(cache)@.zones
                + zone_ids(zs@) && final(cache)@.records == old(cache)@.records,
            Err(e) => r == Err::<(), Error>(e) && final(cache)@ == old(cache)@,
        },
{
    let zones = match unwrap_envelope(out) {
        Ok(zs) => zs,
        Err(e) => {
            return Err(e);
        },
    };
    let ghost base = cache@.zones;
    let mut i: usize = 0;
    proof {
        assert(cache@.zones =~= base + zone_ids(zones@).take(0));
    }
    while i < zones.len()
        invariant
            i <= zones.len(),
            cache@.zones == base + zone_ids(zones@).take(i as int),
            cache@.records == old(cache)@.records,
            base == old(cache)@.zones,
        decreases zones.len() - i,
    {
        let ghost prev = cache@.zones;
        cache.add_zone(zones[i].id.clone());
        proof {
            assert(zone_ids(zones@)[i as int] == zones@[i as int].id@);
            assert(cache@.zones =~= base + zone_ids(zones@).take(i + 1));
        }
        i += 1;
    }
    proof {
        assert(zone_ids(zones@).take(zones.len() as int) =~= zone_ids(zones@));
    }
    Ok(())
}

/// The record map after every listed record of one zone is written into it,
/// keyed by the record's own name and type, in the provider's order.
pub open spec fn records_after(
    m: Map<(Seq<char>, Seq<char>), RecordView>,
    zone: Seq<char>,
    rs: Seq<RecordData>,
) -> Map<(Seq<char>, Seq<char>), RecordView>
    decreases rs.len(),
{
    if rs.len() == 0 {
        m
    } else {
        records_after(
            m.insert(
                record_key(rs[0].record_type@, rs[0].name@),
                RecordView { id: rs[0].id@, zone_id: zone, content: rs[0].content@ },
            ),
            zone,
            rs.drop_first(),
        )
    }
}

/// Writes every record of one zone's listing into the cache, keyed by the
/// record's own name and type; a failed response leaves the cache
/// untouched.
pub fn ingest_zone_records(
    cache: &mut Cache,
    zone_id: &str,
    out: FetchOutcome<Vec<RecordData>>,
) -> (r: Result<(), Error>)
    ensures
        match unwrap_spec(out) {
            Ok(rs) => r == Ok::<(), Error>(()) && final(cache)@.records == records_after(
                old(cache)@.records,
                zone_id@,
                rs@,
            ) && final(cache)@.zones == old(cache)@.zones,
            Err(e) => r == Err::<(), Error>(e) && final(cache)@ == old(cache)@,
        },
{
    let records = match unwrap_envelope(out) {
        Ok(rs) => rs,
        Err(e) => {
            return Err(e);
        },
    };
    let mut i: usize = 0;
    proof {
        assert(records@.skip(0) =~= records@);
    }
    while i < records.len()
        invariant
            i <= records.len(),
            records_after(old(cache)@.records, zone_id@, records@) == records_after(
                cache@.records,
                zone_id@,
                records@.skip(i as int),
            ),
            cache@.zones == old(cache)@.zones,
        decreases records.len() - i,
    {
        let ghost rest = records@.skip(i as int);
        proof {
            assert(rest[0] == records@[i as int]);
            assert(rest.drop_first() =~= records@.skip(i + 1));
        }
        let rec = &records[i];
        cache.set_dns_record(
            rec.name.as_str(),
            rec.record_type.as_str(),
            rec.id.as_str(),
            zone_id,
            rec.content.as_str(),
        );
        i += 1;
    }
    proof {
        assert(records@.skip(records.len() as int) =~= Seq::<RecordData>::empty());
    }
    Ok(())
}

/// The cached record for the pair, or the not-found failure naming both.
pub fn lookup_record(cache: &Cache, domain: &str, record_type: &str) -> (r: Result<
    DnsRecord,
    Error,
>)
    ensures
        match r {
            Ok(rec) => cache@.records.contains_key(record_key(record_type@, domain@)) && rec@
                == cache@.records[record_key(record_type@, domain@)],
            Err(e) => !cache@.records.contains_key(record_key(record_type@, domain@)) && (e
                matches Error::NotFound { domain: d, record_type: t } && d@ == domain@ && t@
                == record_type@),
        },
{
    match cache.get_dns_record(domain, record_type) {
        Some(rec) => Ok(rec.duplicate()),
        None => Err(
            Error::NotFound { domain: domain.to_owned(), record_type: record_type.to_owned() },
        ),
    }
}

/// The request path that lists one zone's address records.
pub fn records_list_path(zone: &str) -> (r: String)
    ensures
        r@ == "zones/"@ + zone@ + "/dns_records?type=A&type=AAAA"@,
{
    let mut r = "zones/".to_owned();
    r.append(zone);
    r.append("/dns_records?type=A&type=AAAA");
    r
}

/// The request path that updates one record.
pub fn record_update_path(zone: &str, id: &str) -> (r: String)
    ensures
        r@ == "zones/"@ + zone@ + "/dns_records/"@ + id@,
{
    let mut r = "zones/".to_owned();
    r.append(zone);
    r.append("/dns_records/");
    r.append(id);
    r
}

/// The JSON body that asks the provider to set a record's content.
pub fn update_body(content: &str) -> (r: String)
    ensures
        r@ == "{\"content\": \""@ + content@ + "\"}"@,
{
    let mut r = "{\"content\": \"".to_owned();
    r.append(content);
    r.append("\"}");
    r
}

/// Verifies one update response against the content that was requested: on
/// a verified echo the cache entry for the pair is overwritten, id and zone
/// unchanged, and the new record returned; on a different echo the update
/// counts as failed and the cache is left exactly as it was, as it is on
/// every failed response.
pub fn apply_update_response(
    cache: &mut Cache,
    domain: &str,
    record_type: &str,
    record: &DnsRecord,
    content: &str,
    out: FetchOutcome<RecordData>,
) -> (r: Result<DnsRecord, Error>)
    ensures
        match unwrap_spec(out) {
            Ok(echo) => {
                if echo.content@ == content@ {
                    (r matches Ok(rec) && rec@ == RecordView {
                        id: record@.id,
                        zone_id: record@.zone_id,
                        content: echo.content@,
                    }) && final(cache)@.records == old(cache)@.records.insert(
                        record_key(record_type@, domain@),
                        RecordView {
                            id: record@.id,
                            zone_id: record@.zone_id,
                            content: echo.content@,
                        },
                    ) && final(cache)@.zones == old(cache)@.zones
                } else {
                    (r matches Err(e) && (e matches Error::UpdateMismatch {
                        domain: d,
                        record_type: t,
                        requested: w,
                        actual: a,
                    } && d@ == domain@ && t@ == record_type@ && w@ == content@ && a@
                        == echo.content@)) && final(cache)@ == old(cache)@
                }
            },
            Err(e) => r == Err::<DnsRecord, Error>(e) && final(cache)@ == old(cache)@,
        },
{
    let echo = match unwrap_envelope(out) {
        Ok(rd) => rd,
        Err(e) => {
            return Err(e);
        },
    };
    let content_owned = content.to_owned();
    if echo.content == content_owned {
        cache.set_dns_record(
            domain,
            record_type,
            record.id.as_str(),
            record.zone_id.as_str(),
            echo.content.as_str(),
        );
        Ok(DnsRecord { id: record.id.clone(), zone_id: record.zone_id.clone(), content: echo.content })
    } else {
        Err(
            Error::UpdateMismatch {
                domain: domain.to_owned(),
                record_type: record_type.to_owned(),
                requested: content_owned,
                actual: echo.content,
            },
        )
    }
}

/// Whether resolving this pair must touch the provider at all: only a pair
/// the cache does not hold starts a fetch, of the zone listing first when
/// no zone is cached, then of every cached zone's records.
pub open spec fn needs_fetch(c: CacheView, record_type: Seq<char>, domain: Seq<char>) -> bool {
    !c.records.contains_key(record_key(record_type, domain))
}

/// Re-populating from a zone's record listing never drops a cached pair:
/// ingestion only inserts.
pub proof fn lemma_ingest_preserves_cached(
    m: Map<(Seq<char>, Seq<char>), RecordView>,
    zone: Seq<char>,
    rs: Seq<RecordData>,
    k: (Seq<char>, Seq<char>),
)
    requires
        m.contains_key(k),
    ensures
        records_after(m, zone, rs).contains_key(k),
    decreases rs.len(),
{
    if rs.len() > 0 {
        lemma_ingest_preserves_cached(
            m.insert(
                record_key(rs[0].record_type@, rs[0].name@),
                RecordView { id: rs[0].id@, zone_id: zone, content: rs[0].content@ },
            ),
            zone,
            rs.drop_first(),
            k,
        );
    }
}

/// Resolution is idempotent at the decision level: a pair that one
/// resolution has cached starts no second fetch, and a record write —
/// an update of this pair or any other — keeps it that way, since writes
/// only ever insert into the cache.
pub proof fn lemma_resolve_idempotent(
    c: CacheView,
    record_type: Seq<char>,
    domain: Seq<char>,
    k: (Seq<char>, Seq<char>),
    v: RecordView,
)
    requires
        c.records.contains_key(record_key(record_type, domain)),
    ensures
        !needs_fetch(c, record_type, domain),
        !needs_fetch(
            CacheView { zones: c.zones, records: c.records.insert(k, v) },
            record_type,
            domain,
        ),
{
}

} // verus!
