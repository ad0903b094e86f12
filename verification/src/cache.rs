//! The in-memory record cache: the zone identifiers discovered so far and
//! the DNS records resolved so far, keyed by the exact (record type, domain
//! name) pair.

use vstd::prelude::*;

verus! {

/// A DNS record as the provider reports it: its identifier, the zone it
/// belongs to, and its content (the address it currently publishes).
#[derive(Clone, Debug, PartialEq, Eq)]
pub struct DnsRecord {
    pub id: String,
    pub zone_id: String,
    pub content: String,
}

/// The mathematical value of a [`DnsRecord`]: its three strings.
pub ghost struct RecordView {
    pub id: Seq<char>,
    pub zone_id: Seq<char>,
    pub content: Seq<char>,
}

impl View for DnsRecord {
    type V = RecordView;

    open spec fn view(&self) -> RecordView {
        RecordView { id: self.id@, zone_id: self.zone_id@, content: self.content@ }
    }
}

impl DnsRecord {
    /// An owned copy, equal to the original.
    pub fn duplicate(&self) -> (r: DnsRecord)
        ensures
            r == *self,
    {
        let r = DnsRecord {
            id: self.id.clone(),
            zone_id: self.zone_id.clone(),
            content: self.content.clone(),
        };
        r
    }
}

/// The key under which a record is cached: the exact (record type, domain
/// name) pair, case-sensitive on both parts. Distinct pairs never share a
/// key.
pub open spec fn record_key(record_type: Seq<char>, domain: Seq<char>) -> (Seq<char>, Seq<char>) {
    (record_type, domain)
}

/// The mathematical value of a [`Cache`]: the zone identifiers in the order
/// they were added, and the record under each (record type, domain) key.
pub ghost struct CacheView {
    pub zones: Seq<Seq<char>>,
    pub records: Map<(Seq<char>, Seq<char>), RecordView>,
}

/// The key of one stored entry: its record type and domain name.
spec fn entry_key(e: (String, String, DnsRecord)) -> (Seq<char>, Seq<char>) {
    (e.0@, e.1@)
}

/// The map the record list stands for: a newer entry stands nearer the
/// front and shadows any older entry with the same key.
spec fn records_map_of(s: Seq<(String, String, DnsRecord)>) -> Map<
    (Seq<char>, Seq<char>),
    RecordView,
>
    decreases s.len(),
{
    if s.len() == 0 {
        Map::empty()
    } else {
        records_map_of(s.drop_first()).insert(entry_key(s[0]), s[0].2@)
    }
}

/// Looking the record list up by key yields the entry nearest the front.
proof fn lemma_records_first_match(s: Seq<(String, String, DnsRecord)>, k: (Seq<char>, Seq<char>), i: int)
    requires
        0 <= i < s.len(),
        entry_key(s[i]) == k,
        forall|j: int| 0 <= j < i ==> #[trigger] entry_key(s[j]) != k,
    ensures
        records_map_of(s).contains_key(k),
        records_map_of(s)[k] == s[i].2@,
    decreases s.len(),
{
    if i > 0 {
        lemma_records_first_match(s.drop_first(), k, i - 1);
    }
}

/// A key that no entry carries is not in the map.
proof fn lemma_records_no_match(s: Seq<(String, String, DnsRecord)>, k: (Seq<char>, Seq<char>))
    requires
        forall|j: int| 0 <= j < s.len() ==> #[trigger] entry_key(s[j]) != k,
    ensures
        !records_map_of(s).contains_key(k),
    decreases s.len(),
{
    if s.len() > 0 {
        lemma_records_no_match(s.drop_first(), k);
    }
}

/// In-memory store of discovered zone identifiers and resolved records.
/// The zone list is either empty, meaning "not yet fetched", or fully
/// populated for this cache's lifetime; a cached record's content is the
/// last value this process observed or wrote.
pub struct Cache {
    zones: Vec<String>,
    records: Vec<(String, String, DnsRecord)>,
}

impl View for Cache {
    type V = CacheView;

    closed spec fn view(&self) -> CacheView {
        CacheView { zones: self.zones.deep_view(), records: records_map_of(self.records@) }
    }
}

impl Cache {
    /// An empty cache: no zones fetched, no records resolved.
    pub fn new() -> (c: Cache)
        ensures
            c@.zones == Seq::<Seq<char>>::empty(),
            c@.records == Map::<(Seq<char>, Seq<char>), RecordView>::empty(),
    {
        let c = Cache { zones: Vec::new(), records: Vec::new() };
        proof {
            assert(c@.zones =~= Seq::<Seq<char>>::empty());
        }
        c
    }

    /// True exactly when at least one zone has been recorded. An account
    /// with no zones at all is indistinguishable from one not yet fetched
    /// and will be fetched again on every resolution.
    pub fn zones_cached(&self) -> (r: bool)
        ensures
            r == (self@.zones.len() > 0),
    {
        self.zones.len() > 0
    }

    /// Appends a zone identifier; order of addition is kept.
    pub fn add_zone(&mut self, zone_id: String)
        ensures
            final(self)@.zones == old(self)@.zones.push(zone_id@),
            final(self)@.records == old(self)@.records,
    {
        let ghost before = self.zones.deep_view();
        let ghost z = zone_id@;
        self.zones.push(zone_id);
        proof {
            assert(self.zones.deep_view() =~= before.push(z));
        }
    }

    /// The zone identifiers added so far, in order.
    pub fn get_zones(&self) -> (r: Vec<String>)
        ensures
            r.deep_view() == self@.zones,
    {
        let mut r: Vec<String> = Vec::new();
        let mut i: usize = 0;
        proof {
            assert(r.deep_view() =~= self@.zones.take(0));
        }
        while i < self.zones.len()
            invariant
                i <= self.zones.len(),
                self@.zones.len() == self.zones.len(),
                self@.zones == self.zones.deep_view(),
                r.deep_view() == self@.zones.take(i as int),
            decreases self.zones.len() - i,
        {
            let ghost prev = r.deep_view();
            r.push(self.zones[i].clone());
            proof {
                assert(r.deep_view() =~= prev.push(self@.zones[i as int]));
                assert(r.deep_view() =~= self@.zones.take(i + 1));
            }
            i += 1;
        }
        proof {
            assert(self@.zones.take(self.zones.len() as int) =~= self@.zones);
        }
        r
    }

    /// The cached record for the exact (domain, record type) pair, if any;
    /// both parts are compared case-sensitively, and distinct pairs never
    /// answer for each other.
    pub fn get_dns_record(&self, domain: &str, record_type: &str) -> (r: Option<&DnsRecord>)
        ensures
            match r {
                Some(rec) => self@.records.contains_key(record_key(record_type@, domain@))
                    && rec@ == self@.records[record_key(record_type@, domain@)],
                None => !self@.records.contains_key(record_key(record_type@, domain@)),
            },
    {
        let rt = record_type.to_owned();
        let dm = domain.to_owned();
        let mut i: usize = 0;
        while i < self.records.len()
            invariant
                i <= self.records.len(),
                rt@ == record_type@,
                dm@ == domain@,
                forall|j: int| 0 <= j < i ==> #[trigger] entry_key(self.records@[j]) != (
                    record_type@,
                    domain@,
                ),
            decreases self.records.len() - i,
        {
            if self.records[i].0 == rt && self.records[i].1 == dm {
                proof {
                    lemma_records_first_match(
                        self.records@,
                        (record_type@, domain@),
                        i as int,
                    );
                }
                return Some(&self.records[i].2);
            }
            proof {
                assert(entry_key(self.records@[i as int]) != (record_type@, domain@));
            }
            i += 1;
        }
        proof {
            lemma_records_no_match(self.records@, (record_type@, domain@));
        }
        None
    }

    /// Inserts or overwrites the record under the exact (domain, record
    /// type) pair; the last write wins, and no other pair is touched.
    pub fn set_dns_record(
        &mut self,
        domain: &str,
        record_type: &str,
        record_id: &str,
        zone_id: &str,
        content: &str,
    )
        ensures
            final(self)@.records == old(self)@.records.insert(
                record_key(record_type@, domain@),
                RecordView { id: record_id@, zone_id: zone_id@, content: content@ },
            ),
            final(self)@.zones == old(self)@.zones,
    {
        let rec = DnsRecord {
            id: record_id.to_owned(),
            zone_id: zone_id.to_owned(),
            content: content.to_owned(),
        };
        let ghost before = self.records@;
        self.records.insert(0, (record_type.to_owned(), domain.to_owned(), rec));
        proof {
            assert(self.records@.drop_first() =~= before);
        }
    }
}

/// The zones-cached flag of a cache value.
pub open spec fn zones_cached_spec(c: CacheView) -> bool {
    c.zones.len() > 0
}

/// The zones-cached flag starts false, becomes true the moment a zone is
/// added, and no later zone addition or record write clears it.
pub proof fn lemma_zones_flag(
    c: CacheView,
    z: Seq<char>,
    k: (Seq<char>, Seq<char>),
    r: RecordView,
)
    ensures
        !zones_cached_spec(CacheView { zones: Seq::empty(), records: Map::empty() }),
        zones_cached_spec(CacheView { zones: c.zones.push(z), ..c }),
        zones_cached_spec(CacheView { zones: c.zones, records: c.records.insert(k, r) })
            == zones_cached_spec(c),
{
}

/// Record reads are exactly the writes: a pair never written reads as
/// absent; a written pair reads back the full written tuple; writing the
/// same pair again replaces the whole record; and a write to any distinct
/// pair — differing in type, in domain, or in both — changes nothing under
/// this one.
pub proof fn lemma_record_roundtrip(
    c: CacheView,
    t: Seq<char>,
    d: Seq<char>,
    t2: Seq<char>,
    d2: Seq<char>,
    r1: RecordView,
    r2: RecordView,
)
    ensures
        !Map::<(Seq<char>, Seq<char>), RecordView>::empty().contains_key(record_key(t, d)),
        (t2, d2) != (t, d) ==> c.records.insert(record_key(t2, d2), r2).contains_key(
            record_key(t, d),
        ) == c.records.contains_key(record_key(t, d)),
        (t2, d2) != (t, d) && c.records.contains_key(record_key(t, d)) ==> c.records.insert(
            record_key(t2, d2),
            r2,
        )[record_key(t, d)] == c.records[record_key(t, d)],
        c.records.insert(record_key(t, d), r1)[record_key(t, d)] == r1,
        c.records.insert(record_key(t, d), r1).insert(record_key(t, d), r2) == c.records.insert(
            record_key(t, d),
            r2,
        ),
{
    assert(c.records.insert(record_key(t, d), r1).insert(record_key(t, d), r2) =~= c.records
        .insert(record_key(t, d), r2));
}

} // verus!
