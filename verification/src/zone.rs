//! Authoritative zone data: building a zone from its file description, record
//! lookup, and choosing the zone responsible for a name.
use vstd::prelude::*;
use vstd::utf8::*;
use crate::dns::{
    Record, SpecRecord, SpecRData, record_model, normalized_name, records_view, copy_records,
    TYPE_A, TYPE_AAAA, TYPE_ANY, TYPE_CAA, TYPE_CNAME, TYPE_MX, TYPE_NS, TYPE_SOA, TYPE_SRV,
    TYPE_TXT, CLASS_IN,
};
use crate::text::{
    unicode_lowercase, unicode_uppercase, str_to_lowercase, str_to_uppercase, str_eq, last_char,
};

verus! {

// ---------------------------------------------------------------------------
// Zone file description
// ---------------------------------------------------------------------------

/// The `[zone]` table of a zone file.
pub struct ZoneMeta {
    pub name: String,
    pub ttl: u32,
}

/// The `[soa]` table of a zone file.
pub struct SoaConfig {
    pub mname: String,
    pub rname: String,
    pub serial: u32,
    pub refresh: u32,
    pub retry: u32,
    pub expire: u32,
    pub minimum: u32,
}

/// One `[[ns]]` entry of a zone file.
pub struct NsEntry {
    pub name: String,
}

/// One `[[record]]` entry of a zone file.
pub struct RecordEntry {
    pub name: String,
    pub rtype: String,
    pub value: String,
    pub ttl: Option<u32>,
    pub priority: Option<u16>,
    pub weight: Option<u16>,
    pub port: Option<u16>,
    pub flag: Option<u8>,
    pub tag: Option<String>,
    /// `value` read as an IPv4 address, or the reason it is not one.
    pub value_ipv4: Result<[u8; 4], String>,
    /// `value` read as an IPv6 address, or the reason it is not one.
    pub value_ipv6: Result<[u8; 16], String>,
}

/// A whole zone file.
pub struct ZoneFile {
    pub zone: ZoneMeta,
    pub soa: SoaConfig,
    pub ns: Vec<NsEntry>,
    pub record: Option<Vec<RecordEntry>>,
}

/// Why a zone file does not describe a zone.
#[derive(Debug)]
pub enum ZoneError {
    BadA { value: String, reason: String },
    BadAAAA { value: String, reason: String },
    UnsupportedType { rtype: String },
}

pub enum SpecZoneError {
    BadA { value: Seq<char>, reason: Seq<char> },
    BadAAAA { value: Seq<char>, reason: Seq<char> },
    UnsupportedType { rtype: Seq<char> },
}

impl View for ZoneError {
    type V = SpecZoneError;

    open spec fn view(&self) -> SpecZoneError {
        match self {
            ZoneError::BadA { value, reason } => SpecZoneError::BadA {
                value: value@,
                reason: reason@,
            },
            ZoneError::BadAAAA { value, reason } => SpecZoneError::BadAAAA {
                value: value@,
                reason: reason@,
            },
            ZoneError::UnsupportedType { rtype } => SpecZoneError::UnsupportedType {
                rtype: rtype@,
            },
        }
    }
}

// ---------------------------------------------------------------------------
// Record sets
// ---------------------------------------------------------------------------

/// The records of one owner name and type.
pub struct RecordSet {
    pub name: String,
    pub rtype: u16,
    pub records: Vec<Record>,
}

pub struct SpecRecordSet {
    pub name: Seq<char>,
    pub rtype: u16,
    pub records: Seq<SpecRecord>,
}

impl View for RecordSet {
    type V = SpecRecordSet;

    open spec fn view(&self) -> SpecRecordSet {
        SpecRecordSet { name: self.name@, rtype: self.rtype, records: records_view(self.records@) }
    }
}

/// The models of a sequence of record sets.
pub open spec fn sets_view(s: Seq<RecordSet>) -> Seq<SpecRecordSet> {
    s.map_values(|r: RecordSet| r@)
}

/// `t[i]` holds the records of `name` and `rtype`.
pub open spec fn has_set(t: Seq<SpecRecordSet>, name: Seq<char>, rtype: u16, i: int) -> bool {
    0 <= i < t.len() && t[i].name == name && t[i].rtype == rtype
}

/// No two sets have the same owner name and type.
pub open spec fn sets_unique(t: Seq<SpecRecordSet>) -> bool {
    forall|i: int, j: int|
        0 <= i < t.len() && 0 <= j < t.len() && #[trigger] t[i].name == #[trigger] t[j].name
            && t[i].rtype == t[j].rtype ==> i == j
}

/// Adds a record under `name` and `rtype`: to the existing set of that name and
/// type, or as a new set at the end.
pub open spec fn sets_add(t: Seq<SpecRecordSet>, name: Seq<char>, rtype: u16, r: SpecRecord) -> Seq<
    SpecRecordSet,
> {
    if exists|i: int| has_set(t, name, rtype, i) {
        let i = choose|i: int| has_set(t, name, rtype, i);
        t.update(i, SpecRecordSet { name, rtype, records: t[i].records.push(r) })
    } else {
        t.push(SpecRecordSet { name, rtype, records: seq![r] })
    }
}

/// Adds a record to the set of its name and type, creating the set if needed.
#[verifier::spinoff_prover]
fn add_record(sets: &mut Vec<RecordSet>, name: &String, rtype: u16, r: Record)
    requires
        sets_unique(sets_view(old(sets)@)),
    ensures
        sets_view(final(sets)@) == sets_add(sets_view(old(sets)@), name@, rtype, r@),
        sets_unique(sets_view(final(sets)@)),
{
    let ghost t = sets_view(sets@);
    let mut i: usize = 0;
    while i < sets.len()
        invariant
            i <= sets@.len(),
            t == sets_view(sets@),
            sets@ == old(sets)@,
            sets_unique(t),
            forall|j: int| 0 <= j < i ==> !has_set(t, name@, rtype, j),
        decreases sets.len() - i,
    {
        if sets[i].rtype == rtype && sets[i].name == *name {
            assert(has_set(t, name@, rtype, i as int));
            let ghost k = choose|k: int| has_set(t, name@, rtype, k);
            assert(k == i);
            let mut set = sets.remove(i);
            assert(set@ == t[i as int]);
            let ghost before = records_view(set.records@);
            set.records.push(r);
            assert(records_view(set.records@) =~= before.push(r@));
            assert(set@ == SpecRecordSet { name: name@, rtype, records: t[i as int].records.push(r@) });
            sets.insert(i, set);
            assert(sets_view(sets@) =~= sets_add(t, name@, rtype, r@));
            assert(sets_unique(sets_view(sets@))) by {
                let u = sets_view(sets@);
                assert forall|a: int, b: int|
                    0 <= a < u.len() && 0 <= b < u.len() && #[trigger] u[a].name
                        == #[trigger] u[b].name && u[a].rtype == u[b].rtype implies a == b by {
                    assert(u[a].name == t[a].name && u[a].rtype == t[a].rtype);
                    assert(u[b].name == t[b].name && u[b].rtype == t[b].rtype);
                }
            }
            return ;
        }
        i = i + 1;
    }
    let mut records: Vec<Record> = Vec::new();
    records.push(r);
    sets.push(RecordSet { name: name.clone(), rtype, records });
    assert(records_view(records@) =~= seq![r@]);
    assert(sets_view(sets@) =~= t.push(SpecRecordSet { name: name@, rtype, records: seq![r@] }));
    assert(sets_unique(sets_view(sets@))) by {
        let u = sets_view(sets@);
        assert forall|a: int, b: int|
            0 <= a < u.len() && 0 <= b < u.len() && #[trigger] u[a].name == #[trigger] u[b].name
                && u[a].rtype == u[b].rtype implies a == b by {
            if a < t.len() && b < t.len() {
                assert(u[a] == t[a] && u[b] == t[b]);
            } else if a < t.len() {
                assert(u[a] == t[a]);
                assert(has_set(t, name@, rtype, a));
            } else if b < t.len() {
                assert(u[b] == t[b]);
                assert(has_set(t, name@, rtype, b));
            }
        }
    }
}


// ---------------------------------------------------------------------------
// Zones
// ---------------------------------------------------------------------------

pub struct Zone {
    pub name: String,
    pub ttl: u32,
    /// The zone's records, grouped by lower-case owner name and type.
    pub records: Vec<RecordSet>,
    /// NS records for the zone apex
    pub ns_records: Vec<Record>,
    /// SOA record for the zone apex
    pub soa_record: Record,
}

/// The zone name of a zone file: lower-cased, with a final dot.
pub open spec fn zone_name_of(n: Seq<char>) -> Seq<char> {
    if n.len() > 0 && n.last() == '.' {
        unicode_lowercase(n)
    } else {
        unicode_lowercase(n.push('.'))
    }
}

/// A record name expanded relative to the zone: `@` is the zone name, a name
/// with a final dot is kept, any other name is placed under the zone; the
/// result is lower-cased.
pub open spec fn expand_name_spec(raw: Seq<char>, zone_name: Seq<char>) -> Seq<char> {
    if raw == seq!['@'] {
        unicode_lowercase(zone_name)
    } else if raw.len() > 0 && raw.last() == '.' {
        unicode_lowercase(raw)
    } else {
        unicode_lowercase(raw + seq!['.'] + zone_name)
    }
}

/// The type code and record that a zone file entry describes, for the expanded
/// owner name `fqdn` and the zone's default TTL.
pub open spec fn entry_record(e: RecordEntry, fqdn: Seq<char>, zone_ttl: u32) -> Result<
    (u16, SpecRecord),
    SpecZoneError,
> {
    let ttl = match e.ttl {
        Some(t) => t,
        None => zone_ttl,
    };
    let up = unicode_uppercase(e.rtype@);
    if up == seq!['A'] {
        match e.value_ipv4 {
            Ok(ip) => Ok((TYPE_A, record_model(fqdn, TYPE_A, ttl, SpecRData::A(ip@)))),
            Err(m) => Err(SpecZoneError::BadA { value: e.value@, reason: m@ }),
        }
    } else if up == seq!['A', 'A', 'A', 'A'] {
        match e.value_ipv6 {
            Ok(ip) => Ok((TYPE_AAAA, record_model(fqdn, TYPE_AAAA, ttl, SpecRData::AAAA(ip@)))),
            Err(m) => Err(SpecZoneError::BadAAAA { value: e.value@, reason: m@ }),
        }
    } else if up == seq!['C', 'N', 'A', 'M', 'E'] {
        Ok(
            (
                TYPE_CNAME,
                record_model(fqdn, TYPE_CNAME, ttl, SpecRData::CNAME(normalized_name(e.value@))),
            ),
        )
    } else if up == seq!['M', 'X'] {
        let preference = match e.priority {
            Some(p) => p,
            None => 10,
        };
        Ok(
            (
                TYPE_MX,
                record_model(
                    fqdn,
                    TYPE_MX,
                    ttl,
                    SpecRData::MX { preference, exchange: normalized_name(e.value@) },
                ),
            ),
        )
    } else if up == seq!['T', 'X', 'T'] {
        Ok((TYPE_TXT, record_model(fqdn, TYPE_TXT, ttl, SpecRData::TXT(e.value@))))
    } else if up == seq!['N', 'S'] {
        Ok((TYPE_NS, record_model(fqdn, TYPE_NS, ttl, SpecRData::NS(normalized_name(e.value@)))))
    } else if up == seq!['S', 'R', 'V'] {
        let priority = match e.priority {
            Some(p) => p,
            None => 0,
        };
        let weight = match e.weight {
            Some(w) => w,
            None => 0,
        };
        let port = match e.port {
            Some(p) => p,
            None => 0,
        };
        Ok(
            (
                TYPE_SRV,
                record_model(
                    fqdn,
                    TYPE_SRV,
                    ttl,
                    SpecRData::SRV { priority, weight, port, target: normalized_name(e.value@) },
                ),
            ),
        )
    } else if up == seq!['C', 'A', 'A'] {
        let flags = match e.flag {
            Some(f) => f,
            None => 0,
        };
        let tag = match e.tag {
            Some(t) => t@,
            None => seq!['i', 's', 's', 'u', 'e'],
        };
        Ok((TYPE_CAA, record_model(fqdn, TYPE_CAA, ttl, SpecRData::CAA { flags, tag, value: e.value@ })))
    } else {
        Err(SpecZoneError::UnsupportedType { rtype: up })
    }
}

/// Adds the records of the zone file entries, in order; fails on the first
/// entry that does not describe a record.
pub open spec fn add_entries(
    t: Seq<SpecRecordSet>,
    entries: Seq<RecordEntry>,
    zone_name: Seq<char>,
    ttl: u32,
) -> Result<Seq<SpecRecordSet>, SpecZoneError>
    decreases entries.len(),
{
    if entries.len() == 0 {
        Ok(t)
    } else {
        let e = entries[0];
        let fqdn = expand_name_spec(e.name@, zone_name);
        match entry_record(e, fqdn, ttl) {
            Err(err) => Err(err),
            Ok((rtype, r)) => add_entries(
                sets_add(t, fqdn, rtype, r),
                entries.drop_first(),
                zone_name,
                ttl,
            ),
        }
    }
}

/// The NS record of the zone apex for one `[[ns]]` entry.
pub open spec fn ns_model(ns: NsEntry, zone_name: Seq<char>, ttl: u32) -> SpecRecord {
    record_model(zone_name, TYPE_NS, ttl, SpecRData::NS(normalized_name(ns.name@)))
}

/// Adds the apex NS records, in order.
pub open spec fn add_ns(t: Seq<SpecRecordSet>, ns: Seq<NsEntry>, zone_name: Seq<char>, ttl: u32) -> Seq<
    SpecRecordSet,
>
    decreases ns.len(),
{
    if ns.len() == 0 {
        t
    } else {
        add_ns(
            sets_add(t, zone_name, TYPE_NS, ns_model(ns[0], zone_name, ttl)),
            ns.drop_first(),
            zone_name,
            ttl,
        )
    }
}

/// The SOA record of the zone apex.
pub open spec fn soa_model(zf: ZoneFile, zone_name: Seq<char>) -> SpecRecord {
    record_model(
        zone_name,
        TYPE_SOA,
        zf.zone.ttl,
        SpecRData::SOA {
            mname: normalized_name(zf.soa.mname@),
            rname: normalized_name(zf.soa.rname@),
            serial: zf.soa.serial,
            refresh: zf.soa.refresh,
            retry: zf.soa.retry,
            expire: zf.soa.expire,
            minimum: zf.soa.minimum,
        },
    )
}

/// The record entries of a zone file.
pub open spec fn file_entries(zf: ZoneFile) -> Seq<RecordEntry> {
    match zf.record {
        Some(v) => v@,
        None => seq![],
    }
}

/// The record sets of the zone described by a zone file: the SOA record, then
/// the NS records, then the record entries.
pub open spec fn zone_sets(zf: ZoneFile) -> Result<Seq<SpecRecordSet>, SpecZoneError> {
    let zname = zone_name_of(zf.zone.name@);
    let ttl = zf.zone.ttl;
    let with_soa = sets_add(seq![], zname, TYPE_SOA, soa_model(zf, zname));
    add_entries(add_ns(with_soa, zf.ns@, zname, ttl), file_entries(zf), zname, ttl)
}

/// `z` is the zone that `zf` describes: its record sets (distinct by owner
/// name and type) are those of the file, and its name, TTL, SOA record and
/// apex NS records are those the file gives.
pub open spec fn zone_of_file(zf: ZoneFile, z: Zone) -> bool {
    &&& zone_sets(zf) == Ok::<Seq<SpecRecordSet>, SpecZoneError>(z.sets())
    &&& z.name@ == zone_name_of(zf.zone.name@)
    &&& z.ttl == zf.zone.ttl
    &&& z.soa_record@ == soa_model(zf, z.name@)
    &&& records_view(z.ns_records@) == zf.ns@.map_values(
        |n: NsEntry| ns_model(n, z.name@, zf.zone.ttl),
    )
    &&& sets_unique(z.sets())
}

/// Records of `name` and `rtype` (first matching set).
pub open spec fn set_records(t: Seq<SpecRecordSet>, name: Seq<char>, rtype: u16) -> Option<
    Seq<SpecRecord>,
>
    decreases t.len(),
{
    if t.len() == 0 {
        None
    } else if t[0].name == name && t[0].rtype == rtype {
        Some(t[0].records)
    } else {
        set_records(t.drop_first(), name, rtype)
    }
}

/// All records of `name`, set by set.
pub open spec fn records_named(t: Seq<SpecRecordSet>, name: Seq<char>) -> Seq<SpecRecord>
    decreases t.len(),
{
    if t.len() == 0 {
        seq![]
    } else {
        (if t[0].name == name {
            t[0].records
        } else {
            seq![]
        }) + records_named(t.drop_first(), name)
    }
}

/// The answer to a lookup of `key` (already lower-cased) and `qtype`: every
/// record of the name for ANY; else the records of that type; else, for a
/// type other than CNAME, the CNAME records of the name; else nothing.
pub open spec fn lookup_spec(t: Seq<SpecRecordSet>, key: Seq<char>, qtype: u16) -> Seq<SpecRecord> {
    if qtype == TYPE_ANY {
        records_named(t, key)
    } else {
        match set_records(t, key, qtype) {
            Some(rs) => rs,
            None => if qtype != TYPE_CNAME {
                match set_records(t, key, TYPE_CNAME) {
                    Some(rs) => rs,
                    None => seq![],
                }
            } else {
                seq![]
            },
        }
    }
}

// ---------------------------------------------------------------------------
// What a zone holds
// ---------------------------------------------------------------------------

/// The record `r` is in the set of `name` and `rtype`.
pub open spec fn holds(t: Seq<SpecRecordSet>, name: Seq<char>, rtype: u16, r: SpecRecord) -> bool {
    exists|i: int| has_set(t, name, rtype, i) && #[trigger] t[i].records.contains(r)
}

/// Adding a record keeps the sets distinct, keeps every record, and holds the
/// new one.
proof fn lemma_sets_add(t: Seq<SpecRecordSet>, name: Seq<char>, rtype: u16, r: SpecRecord)
    requires
        sets_unique(t),
    ensures
        sets_unique(sets_add(t, name, rtype, r)),
        holds(sets_add(t, name, rtype, r), name, rtype, r),
        forall|n: Seq<char>, ty: u16, x: SpecRecord|
            #[trigger] holds(t, n, ty, x) ==> holds(sets_add(t, name, rtype, r), n, ty, x),
{
    let u = sets_add(t, name, rtype, r);
    if exists|i: int| has_set(t, name, rtype, i) {
        let i = choose|i: int| has_set(t, name, rtype, i);
        assert(u[i].records == t[i].records.push(r));
        assert(u[i].records[t[i].records.len() as int] == r);
        assert(has_set(u, name, rtype, i) && u[i].records.contains(r));
        assert forall|a: int, b: int|
            0 <= a < u.len() && 0 <= b < u.len() && #[trigger] u[a].name == #[trigger] u[b].name
                && u[a].rtype == u[b].rtype implies a == b by {
            assert(u[a].name == t[a].name && u[a].rtype == t[a].rtype);
            assert(u[b].name == t[b].name && u[b].rtype == t[b].rtype);
        }
        assert forall|n: Seq<char>, ty: u16, x: SpecRecord| #[trigger] holds(t, n, ty, x) implies holds(
            u,
            n,
            ty,
            x,
        ) by {
            let k = choose|k: int| has_set(t, n, ty, k) && #[trigger] t[k].records.contains(x);
            let m = choose|m: int| 0 <= m < t[k].records.len() && t[k].records[m] == x;
            if k == i {
                assert(u[k].records[m] == x);
            } else {
                assert(u[k] == t[k]);
            }
            assert(u[k].records.contains(x));
        }
    } else {
        let i = t.len() as int;
        assert(u[i].records == seq![r]);
        assert(u[i].records[0] == r);
        assert(has_set(u, name, rtype, i) && u[i].records.contains(r));
        assert forall|a: int, b: int|
            0 <= a < u.len() && 0 <= b < u.len() && #[trigger] u[a].name == #[trigger] u[b].name
                && u[a].rtype == u[b].rtype implies a == b by {
            if a < t.len() && b < t.len() {
                assert(u[a] == t[a] && u[b] == t[b]);
            } else if a < t.len() {
                assert(u[a] == t[a]);
                assert(has_set(t, name, rtype, a));
            } else if b < t.len() {
                assert(u[b] == t[b]);
                assert(has_set(t, name, rtype, b));
            }
        }
        assert forall|n: Seq<char>, ty: u16, x: SpecRecord| #[trigger] holds(t, n, ty, x) implies holds(
            u,
            n,
            ty,
            x,
        ) by {
            let k = choose|k: int| has_set(t, n, ty, k) && #[trigger] t[k].records.contains(x);
            assert(u[k] == t[k]);
        }
    }
}

proof fn lemma_add_ns_holds(t: Seq<SpecRecordSet>, ns: Seq<NsEntry>, zone_name: Seq<char>, ttl: u32)
    requires
        sets_unique(t),
    ensures
        sets_unique(add_ns(t, ns, zone_name, ttl)),
        forall|n: Seq<char>, ty: u16, x: SpecRecord|
            #[trigger] holds(t, n, ty, x) ==> holds(add_ns(t, ns, zone_name, ttl), n, ty, x),
        forall|k: int|
            0 <= k < ns.len() ==> holds(
                add_ns(t, ns, zone_name, ttl),
                zone_name,
                TYPE_NS,
                ns_model(#[trigger] ns[k], zone_name, ttl),
            ),
    decreases ns.len(),
{
    if ns.len() > 0 {
        let t1 = sets_add(t, zone_name, TYPE_NS, ns_model(ns[0], zone_name, ttl));
        lemma_sets_add(t, zone_name, TYPE_NS, ns_model(ns[0], zone_name, ttl));
        lemma_add_ns_holds(t1, ns.drop_first(), zone_name, ttl);
        assert forall|k: int| 0 <= k < ns.len() implies holds(
            add_ns(t, ns, zone_name, ttl),
            zone_name,
            TYPE_NS,
            ns_model(#[trigger] ns[k], zone_name, ttl),
        ) by {
            if k > 0 {
                assert(ns[k] == ns.drop_first()[k - 1]);
            }
        }
    }
}

proof fn lemma_add_entries_holds(
    t: Seq<SpecRecordSet>,
    entries: Seq<RecordEntry>,
    zone_name: Seq<char>,
    ttl: u32,
)
    requires
        sets_unique(t),
    ensures
        add_entries(t, entries, zone_name, ttl) matches Ok(t2) ==> {
            &&& sets_unique(t2)
            &&& forall|n: Seq<char>, ty: u16, x: SpecRecord|
                #[trigger] holds(t, n, ty, x) ==> holds(t2, n, ty, x)
            &&& forall|k: int|
                0 <= k < entries.len() ==> (entry_record(
                    #[trigger] entries[k],
                    expand_name_spec(entries[k].name@, zone_name),
                    ttl,
                ) matches Ok((ty, r)) && holds(
                    t2,
                    expand_name_spec(entries[k].name@, zone_name),
                    ty,
                    r,
                ))
        },
    decreases entries.len(),
{
    if entries.len() > 0 {
        let e = entries[0];
        let fqdn = expand_name_spec(e.name@, zone_name);
        if let Ok((rtype, r)) = entry_record(e, fqdn, ttl) {
            let t1 = sets_add(t, fqdn, rtype, r);
            lemma_sets_add(t, fqdn, rtype, r);
            lemma_add_entries_holds(t1, entries.drop_first(), zone_name, ttl);
            if let Ok(t2) = add_entries(t, entries, zone_name, ttl) {
                assert forall|k: int| 0 <= k < entries.len() implies (entry_record(
                    #[trigger] entries[k],
                    expand_name_spec(entries[k].name@, zone_name),
                    ttl,
                ) matches Ok((ty, x)) && holds(
                    t2,
                    expand_name_spec(entries[k].name@, zone_name),
                    ty,
                    x,
                )) by {
                    if k > 0 {
                        assert(entries[k] == entries.drop_first()[k - 1]);
                    } else {
                        assert(holds(t1, fqdn, rtype, r));
                    }
                }
            }
        }
    }
}

/// In distinct sets, the records of a name and type are those of its set.
proof fn lemma_set_records_of(t: Seq<SpecRecordSet>, name: Seq<char>, rtype: u16, i: int)
    requires
        sets_unique(t),
        has_set(t, name, rtype, i),
    ensures
        set_records(t, name, rtype) == Some(t[i].records),
    decreases t.len(),
{
    if i > 0 {
        let u = t.drop_first();
        assert(t[0].name != name || t[0].rtype != rtype);
        assert(sets_unique(u)) by {
            assert forall|a: int, b: int|
                0 <= a < u.len() && 0 <= b < u.len() && #[trigger] u[a].name == #[trigger] u[b].name
                    && u[a].rtype == u[b].rtype implies a == b by {
                assert(u[a] == t[a + 1] && u[b] == t[b + 1]);
            }
        }
        assert(u[i - 1] == t[i]);
        lemma_set_records_of(u, name, rtype, i - 1);
    }
}

/// Every record that a zone file describes can be looked up in the zone built
/// from it, under its (expanded) owner name and its type: the SOA and NS
/// records at the zone name, and the record of each entry.
pub proof fn lemma_zone_file_lookup(zf: ZoneFile)
    ensures
        zone_sets(zf) matches Ok(t) ==> {
            let zn = zone_name_of(zf.zone.name@);
            let ttl = zf.zone.ttl;
            &&& lookup_spec(t, zn, TYPE_SOA).contains(soa_model(zf, zn))
            &&& forall|k: int|
                0 <= k < zf.ns@.len() ==> lookup_spec(t, zn, TYPE_NS).contains(
                    ns_model(#[trigger] zf.ns@[k], zn, ttl),
                )
            &&& forall|k: int|
                0 <= k < file_entries(zf).len() ==> (entry_record(
                    #[trigger] file_entries(zf)[k],
                    expand_name_spec(file_entries(zf)[k].name@, zn),
                    ttl,
                ) matches Ok((ty, r)) && lookup_spec(
                    t,
                    expand_name_spec(file_entries(zf)[k].name@, zn),
                    ty,
                ).contains(r))
        },
{
    let zn = zone_name_of(zf.zone.name@);
    let ttl = zf.zone.ttl;
    let empty = Seq::<SpecRecordSet>::empty();
    let with_soa = sets_add(empty, zn, TYPE_SOA, soa_model(zf, zn));
    lemma_sets_add(empty, zn, TYPE_SOA, soa_model(zf, zn));
    let with_ns = add_ns(with_soa, zf.ns@, zn, ttl);
    lemma_add_ns_holds(with_soa, zf.ns@, zn, ttl);
    lemma_add_entries_holds(with_ns, file_entries(zf), zn, ttl);
    if let Ok(t) = zone_sets(zf) {
        assert(holds(t, zn, TYPE_SOA, soa_model(zf, zn)));
        let i = choose|i: int| has_set(t, zn, TYPE_SOA, i) && #[trigger] t[i].records.contains(
            soa_model(zf, zn),
        );
        lemma_set_records_of(t, zn, TYPE_SOA, i);
        assert forall|k: int| 0 <= k < zf.ns@.len() implies lookup_spec(t, zn, TYPE_NS).contains(
            ns_model(#[trigger] zf.ns@[k], zn, ttl),
        ) by {
            assert(holds(with_ns, zn, TYPE_NS, ns_model(zf.ns@[k], zn, ttl)));
            assert(holds(t, zn, TYPE_NS, ns_model(zf.ns@[k], zn, ttl)));
            let j = choose|j: int| has_set(t, zn, TYPE_NS, j) && #[trigger] t[j].records.contains(
                ns_model(zf.ns@[k], zn, ttl),
            );
            lemma_set_records_of(t, zn, TYPE_NS, j);
        }
        assert forall|k: int| 0 <= k < file_entries(zf).len() implies (entry_record(
            #[trigger] file_entries(zf)[k],
            expand_name_spec(file_entries(zf)[k].name@, zn),
            ttl,
        ) matches Ok((ty, r)) && lookup_spec(
            t,
            expand_name_spec(file_entries(zf)[k].name@, zn),
            ty,
        ).contains(r)) by {
            let e = file_entries(zf)[k];
            let fqdn = expand_name_spec(e.name@, zn);
            if let Ok((ty, r)) = entry_record(e, fqdn, ttl) {
                assert(holds(t, fqdn, ty, r));
                let j = choose|j: int| has_set(t, fqdn, ty, j) && #[trigger] t[j].records.contains(r);
                lemma_set_records_of(t, fqdn, ty, j);
                assert(ty != TYPE_ANY);
            }
        }
    }
}

proof fn lemma_set_records_none(t: Seq<SpecRecordSet>, name: Seq<char>, rtype: u16)
    requires
        forall|i: int| !has_set(t, name, rtype, i),
    ensures
        set_records(t, name, rtype) is None,
    decreases t.len(),
{
    if t.len() > 0 {
        assert(!has_set(t, name, rtype, 0));
        assert forall|i: int| !has_set(t.drop_first(), name, rtype, i) by {
            if has_set(t.drop_first(), name, rtype, i) {
                assert(has_set(t, name, rtype, i + 1));
            }
        }
        lemma_set_records_none(t.drop_first(), name, rtype);
    }
}

proof fn lemma_records_named_contains(t: Seq<SpecRecordSet>, key: Seq<char>, r: SpecRecord)
    ensures
        records_named(t, key).contains(r) <==> exists|i: int|
            0 <= i < t.len() && t[i].name == key && #[trigger] t[i].records.contains(r),
    decreases t.len(),
{
    if t.len() > 0 {
        let rest = t.drop_first();
        lemma_records_named_contains(rest, key, r);
        let head = if t[0].name == key { t[0].records } else { seq![] };
        let all = head + records_named(rest, key);
        assert(records_named(t, key) == all);
        if all.contains(r) {
            let j = choose|j: int| 0 <= j < all.len() && all[j] == r;
            if j < head.len() {
                assert(head[j] == r);
                assert(t[0].records.contains(r));
            } else {
                assert(records_named(rest, key)[j - head.len()] == r);
                let i = choose|i: int|
                    0 <= i < rest.len() && rest[i].name == key && #[trigger] rest[i].records.contains(r);
                assert(t[i + 1].records.contains(r));
            }
        }
        if exists|i: int| 0 <= i < t.len() && t[i].name == key && #[trigger] t[i].records.contains(r) {
            let i = choose|i: int|
                0 <= i < t.len() && t[i].name == key && #[trigger] t[i].records.contains(r);
            if i == 0 {
                let j = choose|j: int| 0 <= j < head.len() && head[j] == r;
                assert(all[j] == r);
            } else {
                assert(rest[i - 1].records.contains(r));
                let j = choose|j: int|
                    0 <= j < records_named(rest, key).len() && records_named(rest, key)[j] == r;
                assert(all[head.len() + j] == r);
            }
        }
    }
}

/// What a lookup gives, set by set: for ANY, every record of every set the
/// name owns; for another type, the records of the name's set of that type;
/// failing that, for a type other than CNAME, the records of the name's CNAME
/// set; failing that, nothing.
pub proof fn lemma_lookup_sets(t: Seq<SpecRecordSet>, key: Seq<char>, qtype: u16)
    requires
        sets_unique(t),
    ensures
        qtype == TYPE_ANY ==> forall|r: SpecRecord|
            #[trigger] lookup_spec(t, key, qtype).contains(r) <==> exists|i: int|
                0 <= i < t.len() && t[i].name == key && #[trigger] t[i].records.contains(r),
        qtype != TYPE_ANY ==> forall|i: int|
            #[trigger] has_set(t, key, qtype, i) ==> lookup_spec(t, key, qtype) == t[i].records,
        qtype != TYPE_ANY && qtype != TYPE_CNAME && (forall|i: int| !has_set(t, key, qtype, i))
            ==> forall|j: int|
            #[trigger] has_set(t, key, TYPE_CNAME, j) ==> lookup_spec(t, key, qtype)
                == t[j].records,
        qtype != TYPE_ANY && (forall|i: int| !has_set(t, key, qtype, i)) && (qtype == TYPE_CNAME
            || forall|j: int| !has_set(t, key, TYPE_CNAME, j)) ==> lookup_spec(t, key, qtype)
            == Seq::<SpecRecord>::empty(),
{
    if qtype == TYPE_ANY {
        assert forall|r: SpecRecord| #[trigger] lookup_spec(t, key, qtype).contains(r) <==> exists|i: int|
            0 <= i < t.len() && t[i].name == key && #[trigger] t[i].records.contains(r) by {
            lemma_records_named_contains(t, key, r);
        }
    } else {
        assert forall|i: int| #[trigger] has_set(t, key, qtype, i) implies lookup_spec(t, key, qtype)
            == t[i].records by {
            lemma_set_records_of(t, key, qtype, i);
        }
        if forall|i: int| !has_set(t, key, qtype, i) {
            lemma_set_records_none(t, key, qtype);
            if qtype != TYPE_CNAME {
                assert forall|j: int| #[trigger] has_set(t, key, TYPE_CNAME, j) implies lookup_spec(
                    t,
                    key,
                    qtype,
                ) == t[j].records by {
                    lemma_set_records_of(t, key, TYPE_CNAME, j);
                }
                if forall|j: int| !has_set(t, key, TYPE_CNAME, j) {
                    lemma_set_records_none(t, key, TYPE_CNAME);
                }
            }
        }
    }
}

/// Every set holds at least one record.
pub open spec fn sets_nonempty(t: Seq<SpecRecordSet>) -> bool {
    forall|i: int| 0 <= i < t.len() ==> #[trigger] t[i].records.len() > 0
}

proof fn lemma_sets_add_nonempty(t: Seq<SpecRecordSet>, name: Seq<char>, rtype: u16, r: SpecRecord)
    requires
        sets_nonempty(t),
    ensures
        sets_nonempty(sets_add(t, name, rtype, r)),
{
    let u = sets_add(t, name, rtype, r);
    if exists|i: int| has_set(t, name, rtype, i) {
        let i = choose|i: int| has_set(t, name, rtype, i);
        assert forall|j: int| 0 <= j < u.len() implies #[trigger] u[j].records.len() > 0 by {
            if j != i {
                assert(u[j] == t[j]);
            }
        }
    } else {
        assert forall|j: int| 0 <= j < u.len() implies #[trigger] u[j].records.len() > 0 by {
            if j < t.len() {
                assert(u[j] == t[j]);
            }
        }
    }
}

proof fn lemma_add_ns_nonempty(t: Seq<SpecRecordSet>, ns: Seq<NsEntry>, zone_name: Seq<char>, ttl: u32)
    requires
        sets_nonempty(t),
    ensures
        sets_nonempty(add_ns(t, ns, zone_name, ttl)),
    decreases ns.len(),
{
    if ns.len() > 0 {
        let r = ns_model(ns[0], zone_name, ttl);
        lemma_sets_add_nonempty(t, zone_name, TYPE_NS, r);
        lemma_add_ns_nonempty(sets_add(t, zone_name, TYPE_NS, r), ns.drop_first(), zone_name, ttl);
    }
}

proof fn lemma_add_entries_nonempty(
    t: Seq<SpecRecordSet>,
    entries: Seq<RecordEntry>,
    zone_name: Seq<char>,
    ttl: u32,
)
    requires
        sets_nonempty(t),
    ensures
        add_entries(t, entries, zone_name, ttl) matches Ok(u) ==> sets_nonempty(u),
    decreases entries.len(),
{
    if entries.len() > 0 {
        let e = entries[0];
        let fqdn = expand_name_spec(e.name@, zone_name);
        if let Ok((rtype, r)) = entry_record(e, fqdn, ttl) {
            lemma_sets_add_nonempty(t, fqdn, rtype, r);
            lemma_add_entries_nonempty(
                sets_add(t, fqdn, rtype, r),
                entries.drop_first(),
                zone_name,
                ttl,
            );
        }
    }
}

/// When every set holds a record, a name has records exactly when some set
/// has that name.
proof fn lemma_records_named_nonempty(t: Seq<SpecRecordSet>, key: Seq<char>)
    requires
        sets_nonempty(t),
    ensures
        records_named(t, key).len() > 0 <==> exists|i: int|
            0 <= i < t.len() && #[trigger] t[i].name == key,
    decreases t.len(),
{
    if t.len() > 0 {
        let rest = t.drop_first();
        assert(sets_nonempty(rest)) by {
            assert forall|i: int| 0 <= i < rest.len() implies #[trigger] rest[i].records.len() > 0 by {
                assert(rest[i] == t[i + 1]);
            }
        }
        lemma_records_named_nonempty(rest, key);
        assert(t[0].records.len() > 0);
        if exists|i: int| 0 <= i < t.len() && #[trigger] t[i].name == key {
            let i = choose|i: int| 0 <= i < t.len() && #[trigger] t[i].name == key;
            if i > 0 {
                assert(rest[i - 1].name == key);
            }
        }
        if exists|i: int| 0 <= i < rest.len() && #[trigger] rest[i].name == key {
            let i = choose|i: int| 0 <= i < rest.len() && #[trigger] rest[i].name == key;
            assert(t[i + 1].name == key);
        }
    }
}

/// In a zone built from a zone file no record set is empty, so a name exists
/// in the zone (`name_exists`) exactly when a lookup of it for ANY (`lookup`
/// with `TYPE_ANY`) gives at least one record.
pub proof fn lemma_name_exists_iff_any_records(zf: ZoneFile, key: Seq<char>)
    ensures
        zone_sets(zf) matches Ok(t) ==> {
            &&& sets_nonempty(t)
            &&& (exists|i: int| 0 <= i < t.len() && #[trigger] t[i].name == key) <==> lookup_spec(
                t,
                key,
                TYPE_ANY,
            ).len() > 0
        },
{
    let zn = zone_name_of(zf.zone.name@);
    let ttl = zf.zone.ttl;
    let empty = Seq::<SpecRecordSet>::empty();
    let with_soa = sets_add(empty, zn, TYPE_SOA, soa_model(zf, zn));
    lemma_sets_add_nonempty(empty, zn, TYPE_SOA, soa_model(zf, zn));
    let with_ns = add_ns(with_soa, zf.ns@, zn, ttl);
    lemma_add_ns_nonempty(with_soa, zf.ns@, zn, ttl);
    lemma_add_entries_nonempty(with_ns, file_entries(zf), zn, ttl);
    if let Ok(t) = zone_sets(zf) {
        lemma_records_named_nonempty(t, key);
    }
}

/// A lookup of `name` and `rtype` in `t` gives a record of class IN owned by
/// `name` with this TTL and data.
pub open spec fn found_in(t: Seq<SpecRecordSet>, name: Seq<char>, ttl: u32, rtype: u16, rdata: SpecRData) -> bool {
    lookup_spec(t, name, rtype).contains(
        SpecRecord { name: normalized_name(name), rtype, class: CLASS_IN, ttl, rdata },
    )
}

/// Each record entry of a zone file is found in the zone built from it, under
/// its expanded name and its type, as a record of class IN owned by that name
/// whose TTL is the entry's (or the zone's when the entry gives none) and
/// whose data carries the entry's fields in their own slots: the address of
/// an A or AAAA entry; the name of a CNAME or NS entry; for MX the priority
/// (10 by default) as preference; for SRV the priority, weight and port (0 by
/// default) and the target; for CAA the flag (0 by default), the tag ("issue"
/// by default) and the value; the text of a TXT entry.
pub proof fn lemma_zone_entry_fields(zf: ZoneFile, z: Zone, k: int)
    requires
        zone_of_file(zf, z),
        0 <= k < file_entries(zf).len(),
    ensures
        ({
            let e = file_entries(zf)[k];
            let fqdn = expand_name_spec(e.name@, z.name@);
            let ttl = match e.ttl {
                Some(t) => t,
                None => zf.zone.ttl,
            };
            let up = unicode_uppercase(e.rtype@);
            &&& up == seq!['A'] ==> e.value_ipv4 is Ok && found_in(z.sets(), fqdn, ttl, TYPE_A,
                SpecRData::A(e.value_ipv4->Ok_0@),
            )
            &&& up == seq!['A', 'A', 'A', 'A'] ==> e.value_ipv6 is Ok && found_in(z.sets(), fqdn, ttl, TYPE_AAAA,
                SpecRData::AAAA(e.value_ipv6->Ok_0@),
            )
            &&& up == seq!['C', 'N', 'A', 'M', 'E'] ==> found_in(z.sets(), fqdn, ttl, TYPE_CNAME,
                SpecRData::CNAME(normalized_name(e.value@)),
            )
            &&& up == seq!['N', 'S'] ==> found_in(z.sets(), fqdn, ttl, TYPE_NS, SpecRData::NS(normalized_name(e.value@)))
            &&& up == seq!['T', 'X', 'T'] ==> found_in(z.sets(), fqdn, ttl, TYPE_TXT, SpecRData::TXT(e.value@))
            &&& up == seq!['M', 'X'] ==> found_in(z.sets(), fqdn, ttl, TYPE_MX,
                SpecRData::MX {
                    exchange: normalized_name(e.value@),
                    preference: match e.priority {
                        Some(p) => p,
                        None => 10u16,
                    },
                },
            )
            &&& up == seq!['S', 'R', 'V'] ==> found_in(z.sets(), fqdn, ttl, TYPE_SRV,
                SpecRData::SRV {
                    target: normalized_name(e.value@),
                    port: match e.port {
                        Some(p) => p,
                        None => 0u16,
                    },
                    weight: match e.weight {
                        Some(w) => w,
                        None => 0u16,
                    },
                    priority: match e.priority {
                        Some(p) => p,
                        None => 0u16,
                    },
                },
            )
            &&& up == seq!['C', 'A', 'A'] ==> found_in(z.sets(), fqdn, ttl, TYPE_CAA,
                SpecRData::CAA {
                    value: e.value@,
                    tag: match e.tag {
                        Some(t) => t@,
                        None => seq!['i', 's', 's', 'u', 'e'],
                    },
                    flags: match e.flag {
                        Some(f) => f,
                        None => 0u8,
                    },
                },
            )
        }),
{
    lemma_zone_file_lookup(zf);
    let e = file_entries(zf)[k];
    let fqdn = expand_name_spec(e.name@, z.name@);
    assert(entry_record(e, fqdn, zf.zone.ttl) is Ok);
    let (ty, r) = entry_record(e, fqdn, zf.zone.ttl)->Ok_0;
    assert(lookup_spec(z.sets(), fqdn, ty).contains(r));
    let up = unicode_uppercase(e.rtype@);
    assert(seq!['A'].len() == 1 && seq!['A', 'A', 'A', 'A'].len() == 4);
    assert(seq!['C', 'N', 'A', 'M', 'E'].len() == 5);
    assert(seq!['M', 'X'][0] != seq!['N', 'S'][0]);
    assert(seq!['T', 'X', 'T'][0] != seq!['S', 'R', 'V'][0]);
    assert(seq!['T', 'X', 'T'][0] != seq!['C', 'A', 'A'][0]);
    assert(seq!['S', 'R', 'V'][0] != seq!['C', 'A', 'A'][0]);
}

/// The SOA record of a zone built from a zone file carries the file's `[soa]`
/// table field by field (serial, refresh, retry, expire and minimum each in
/// its own slot; the two names fully qualified and lower-cased), is owned by
/// the zone name with the zone TTL and class IN, and is what a lookup of the
/// zone name for SOA finds.
pub proof fn lemma_zone_soa_from_file(zf: ZoneFile, z: Zone)
    requires
        zone_of_file(zf, z),
    ensures
        z.soa_record@.name == normalized_name(z.name@),
        z.soa_record@.rtype == TYPE_SOA,
        z.soa_record@.class == CLASS_IN,
        z.soa_record@.ttl == zf.zone.ttl,
        z.soa_record@.rdata == (SpecRData::SOA {
            mname: normalized_name(zf.soa.mname@),
            rname: normalized_name(zf.soa.rname@),
            minimum: zf.soa.minimum,
            expire: zf.soa.expire,
            retry: zf.soa.retry,
            refresh: zf.soa.refresh,
            serial: zf.soa.serial,
        }),
        lookup_spec(z.sets(), z.name@, TYPE_SOA).contains(z.soa_record@),
{
    lemma_zone_file_lookup(zf);
}

proof fn lemma_set_records_owner(t: Seq<SpecRecordSet>, name: Seq<char>, rtype: u16)
    requires
        set_records(t, name, rtype) is Some,
    ensures
        exists|i: int| 0 <= i < t.len() && #[trigger] t[i].name == name,
    decreases t.len(),
{
    if !(t[0].name == name && t[0].rtype == rtype) {
        lemma_set_records_owner(t.drop_first(), name, rtype);
        let i = choose|i: int| 0 <= i < t.len() - 1 && #[trigger] t.drop_first()[i].name == name;
        assert(t[i + 1].name == name);
    } else {
        assert(t[0].name == name);
    }
}

/// The apex of a zone built from a zone file always owns records (its SOA
/// record), so a query for the zone name itself is never answered NXDOMAIN.
pub proof fn lemma_apex_owns_records(zf: ZoneFile, z: Zone)
    requires
        zone_of_file(zf, z),
    ensures
        exists|i: int| 0 <= i < z.sets().len() && #[trigger] z.sets()[i].name == z.name@,
{
    lemma_zone_soa_from_file(zf, z);
    let t = z.sets();
    assert(lookup_spec(t, z.name@, TYPE_SOA).len() > 0);
    if set_records(t, z.name@, TYPE_SOA) is Some {
        lemma_set_records_owner(t, z.name@, TYPE_SOA);
    } else {
        lemma_set_records_owner(t, z.name@, TYPE_CNAME);
    }
}

/// Records of `name` and `rtype` in `sets`, if such a set exists.
fn find_records(sets: &Vec<RecordSet>, name: &String, rtype: u16) -> (res: Option<Vec<Record>>)
    ensures
        match res {
            Some(v) => set_records(sets_view(sets@), name@, rtype) == Some(records_view(v@)),
            None => set_records(sets_view(sets@), name@, rtype) is None,
        },
{
    let ghost t = sets_view(sets@);
    let mut i: usize = 0;
    assert(t.subrange(0, t.len() as int) =~= t);
    while i < sets.len()
        invariant
            i <= sets@.len(),
            t == sets_view(sets@),
            set_records(t, name@, rtype) == set_records(t.subrange(i as int, t.len() as int), name@, rtype),
        decreases sets.len() - i,
    {
        let ghost rest = t.subrange(i as int, t.len() as int);
        if sets[i].rtype == rtype && sets[i].name == *name {
            return Some(copy_records(&sets[i].records));
        }
        i = i + 1;
        assert(rest.drop_first() =~= t.subrange(i as int, t.len() as int));
    }
    None
}

impl Zone {
    /// The record sets of this zone.
    pub open spec fn sets(&self) -> Seq<SpecRecordSet> {
        sets_view(self.records@)
    }

    /// Expand a record name relative to the zone.
    /// - `@` → zone name
    /// - name without trailing dot → name.zone_name
    /// - name with trailing dot → kept as-is
    pub fn expand_name(raw: &str, zone_name: &str) -> (res: String)
        ensures
            res@ == expand_name_spec(raw@, zone_name@),
    {
        proof {
            reveal_strlit("@");
            reveal_strlit(".");
        }
        assert("@"@ =~= seq!['@']);
        assert("."@ =~= seq!['.']);
        if str_eq(raw, "@") {
            str_to_lowercase(zone_name)
        } else if last_char(raw) == Some('.') {
            str_to_lowercase(raw)
        } else {
            let mut s = raw.to_owned();
            s.append(".");
            s.append(zone_name);
            str_to_lowercase(s.as_str())
        }
    }

    /// Look up records by FQDN and query type.
    ///
    /// - TYPE_ANY returns all records for that name.
    /// - If an A/AAAA query hits a CNAME, the CNAME is returned (caller can chase).
    pub fn lookup(&self, name: &str, qtype: u16) -> (res: Vec<Record>)
        ensures
            records_view(res@) == lookup_spec(self.sets(), unicode_lowercase(name@), qtype),
    {
        let key = str_to_lowercase(name);
        if qtype == TYPE_ANY {
            return self.records_named(&key);
        }
        match find_records(&self.records, &key, qtype) {
            Some(v) => {
                return v;
            },
            None => {},
        }
        if qtype != TYPE_CNAME {
            match find_records(&self.records, &key, TYPE_CNAME) {
                Some(v) => {
                    return v;
                },
                None => {},
            }
        }
        let res: Vec<Record> = Vec::new();
        assert(records_view(res@) =~= seq![]);
        res
    }

    /// Every record of `key`, set by set.
    #[verifier::spinoff_prover]
    fn records_named(&self, key: &String) -> (res: Vec<Record>)
        ensures
            records_view(res@) == records_named(self.sets(), key@),
    {
        let ghost t = self.sets();
        let mut out: Vec<Record> = Vec::new();
        let mut i: usize = 0;
        assert(t.subrange(0, t.len() as int) =~= t);
        assert(records_view(out@) + records_named(t, key@) =~= records_named(t, key@));
        while i < self.records.len()
            invariant
                i <= self.records@.len(),
                t == sets_view(self.records@),
                records_named(t, key@) == records_view(out@) + records_named(
                    t.subrange(i as int, t.len() as int),
                    key@,
                ),
            decreases self.records.len() - i,
        {
            let ghost rest = t.subrange(i as int, t.len() as int);
            let ghost before = records_view(out@);
            if self.records[i].name == *key {
                let set = &self.records[i].records;
                let mut j: usize = 0;
                while j < set.len()
                    invariant
                        j <= set@.len(),
                        records_view(out@) == before + records_view(set@).subrange(0, j as int),
                    decreases set.len() - j,
                {
                    let ghost o = records_view(out@);
                    let c = set[j].clone();
                    assert(records_view(set@)[j as int] == c@);
                    out.push(c);
                    assert(records_view(out@) =~= o.push(c@));
                    j = j + 1;
                    assert(records_view(out@) =~= before + records_view(set@).subrange(
                        0,
                        j as int,
                    ));
                }
                assert(records_view(set@).subrange(0, set@.len() as int) =~= records_view(set@));
            } else {
                assert(before + seq![] =~= before);
            }
            i = i + 1;
            assert(rest.drop_first() =~= t.subrange(i as int, t.len() as int));
            assert(before + (rest[0].records + records_named(rest.drop_first(), key@)) =~= (before
                + rest[0].records) + records_named(rest.drop_first(), key@));
            assert(before + (seq![] + records_named(rest.drop_first(), key@)) =~= before
                + records_named(rest.drop_first(), key@));
        }
        assert(t.subrange(i as int, t.len() as int) =~= Seq::<SpecRecordSet>::empty());
        assert(records_view(out@) + Seq::<SpecRecord>::empty() =~= records_view(out@));
        out
    }

    /// Check whether a name exists in this zone at all (for NXDOMAIN vs NODATA).
    pub fn name_exists(&self, name: &str) -> (res: bool)
        ensures
            res == exists|i: int|
                0 <= i < self.sets().len() && #[trigger] self.sets()[i].name == unicode_lowercase(
                    name@,
                ),
    {
        let key = str_to_lowercase(name);
        let mut i: usize = 0;
        while i < self.records.len()
            invariant
                i <= self.records@.len(),
                key@ == unicode_lowercase(name@),
                forall|j: int| 0 <= j < i ==> #[trigger] self.sets()[j].name != key@,
            decreases self.records.len() - i,
        {
            if self.records[i].name == key {
                assert(self.sets()[i as int].name == key@);
                return true;
            }
            i = i + 1;
        }
        false
    }
}


/// The type code and record of one zone file entry.
fn build_entry(e: &RecordEntry, fqdn: &String, zone_ttl: u32) -> (res: Result<(u16, Record), ZoneError>)
    ensures
        match res {
            Ok((rtype, r)) => entry_record(*e, fqdn@, zone_ttl) == Ok::<(u16, SpecRecord), SpecZoneError>((rtype, r@)),
            Err(err) => entry_record(*e, fqdn@, zone_ttl) == Err::<(u16, SpecRecord), SpecZoneError>(err@),
        },
{
    let ttl = match e.ttl {
        Some(t) => t,
        None => zone_ttl,
    };
    let up = str_to_uppercase(e.rtype.as_str());
    proof {
        reveal_strlit("A");
        reveal_strlit("AAAA");
        reveal_strlit("CNAME");
        reveal_strlit("MX");
        reveal_strlit("TXT");
        reveal_strlit("NS");
        reveal_strlit("SRV");
        reveal_strlit("CAA");
        reveal_strlit("issue");
    }
    assert("A"@ =~= seq!['A']);
    assert("AAAA"@ =~= seq!['A', 'A', 'A', 'A']);
    assert("CNAME"@ =~= seq!['C', 'N', 'A', 'M', 'E']);
    assert("MX"@ =~= seq!['M', 'X']);
    assert("TXT"@ =~= seq!['T', 'X', 'T']);
    assert("NS"@ =~= seq!['N', 'S']);
    assert("SRV"@ =~= seq!['S', 'R', 'V']);
    assert("CAA"@ =~= seq!['C', 'A', 'A']);
    assert("issue"@ =~= seq!['i', 's', 's', 'u', 'e']);
    let name = fqdn.as_str();
    let value = e.value.as_str();
    if str_eq(up.as_str(), "A") {
        match &e.value_ipv4 {
            Ok(ip) => Ok((TYPE_A, Record::new_a(name, ttl, *ip))),
            Err(m) => Err(ZoneError::BadA { value: e.value.clone(), reason: m.clone() }),
        }
    } else if str_eq(up.as_str(), "AAAA") {
        match &e.value_ipv6 {
            Ok(ip) => Ok((TYPE_AAAA, Record::new_aaaa(name, ttl, *ip))),
            Err(m) => Err(ZoneError::BadAAAA { value: e.value.clone(), reason: m.clone() }),
        }
    } else if str_eq(up.as_str(), "CNAME") {
        Ok((TYPE_CNAME, Record::new_cname(name, ttl, value)))
    } else if str_eq(up.as_str(), "MX") {
        let priority = match e.priority {
            Some(p) => p,
            None => 10,
        };
        Ok((TYPE_MX, Record::new_mx(name, ttl, priority, value)))
    } else if str_eq(up.as_str(), "TXT") {
        Ok((TYPE_TXT, Record::new_txt(name, ttl, value)))
    } else if str_eq(up.as_str(), "NS") {
        Ok((TYPE_NS, Record::new_ns(name, ttl, value)))
    } else if str_eq(up.as_str(), "SRV") {
        let priority = match e.priority {
            Some(p) => p,
            None => 0,
        };
        let weight = match e.weight {
            Some(w) => w,
            None => 0,
        };
        let port = match e.port {
            Some(p) => p,
            None => 0,
        };
        Ok((TYPE_SRV, Record::new_srv(name, ttl, priority, weight, port, value)))
    } else if str_eq(up.as_str(), "CAA") {
        let flag = match e.flag {
            Some(f) => f,
            None => 0,
        };
        let tag = match &e.tag {
            Some(t) => t.clone(),
            None => "issue".to_owned(),
        };
        Ok((TYPE_CAA, Record::new_caa(name, ttl, flag, tag.as_str(), value)))
    } else {
        Err(ZoneError::UnsupportedType { rtype: up })
    }
}

impl Zone {
    /// Builds a zone from its zone file description: the apex SOA and NS
    /// records, then each record entry, whose name is expanded relative to the
    /// zone. Fails on the first entry that does not describe a record.
    #[verifier::spinoff_prover]
    pub fn from_file(zf: ZoneFile) -> (res: Result<Zone, ZoneError>)
        ensures
            match res {
                Ok(z) => zone_of_file(zf, z),
                Err(e) => zone_sets(zf) == Err::<Seq<SpecRecordSet>, SpecZoneError>(e@),
            },
    {
        proof {
            reveal_strlit(".");
        }
        let zone_name = if last_char(zf.zone.name.as_str()) == Some('.') {
            str_to_lowercase(zf.zone.name.as_str())
        } else {
            let mut s = zf.zone.name.clone();
            s.append(".");
            assert(s@ =~= zf.zone.name@.push('.'));
            str_to_lowercase(s.as_str())
        };
        let ttl = zf.zone.ttl;
        let ghost zname = zone_name@;
        let mut records: Vec<RecordSet> = Vec::new();
        assert(sets_unique(sets_view(records@)));
        let soa_record = Record::new_soa(
            zone_name.as_str(),
            ttl,
            zf.soa.mname.as_str(),
            zf.soa.rname.as_str(),
            zf.soa.serial,
            zf.soa.refresh,
            zf.soa.retry,
            zf.soa.expire,
            zf.soa.minimum,
        );
        assert(sets_view(records@) =~= Seq::<SpecRecordSet>::empty());
        add_record(&mut records, &zone_name, TYPE_SOA, soa_record.clone());
        let ghost with_soa = sets_view(records@);
        // NS
        let mut ns_records: Vec<Record> = Vec::new();
        let mut i: usize = 0;
        assert(zf.ns@.subrange(0, zf.ns@.len() as int) =~= zf.ns@);
        while i < zf.ns.len()
            invariant
                i <= zf.ns@.len(),
                zone_name@ == zname,
                sets_unique(sets_view(records@)),
                add_ns(with_soa, zf.ns@, zname, ttl) == add_ns(
                    sets_view(records@),
                    zf.ns@.subrange(i as int, zf.ns@.len() as int),
                    zname,
                    ttl,
                ),
                records_view(ns_records@) == zf.ns@.subrange(0, i as int).map_values(
                    |n: NsEntry| ns_model(n, zname, ttl),
                ),
            decreases zf.ns.len() - i,
        {
            let ghost rest = zf.ns@.subrange(i as int, zf.ns@.len() as int);
            let rec = Record::new_ns(zone_name.as_str(), ttl, zf.ns[i].name.as_str());
            let ghost before = records_view(ns_records@);
            assert(rec@ == ns_model(zf.ns@[i as int], zname, ttl));
            let c = rec.clone();
            ns_records.push(c);
            assert(records_view(ns_records@) =~= before.push(rec@));
            assert(zf.ns@.subrange(0, i + 1 as int) =~= zf.ns@.subrange(0, i as int).push(zf.ns@[i as int]));
            add_record(&mut records, &zone_name, TYPE_NS, rec);
            i = i + 1;
            assert(rest.drop_first() =~= zf.ns@.subrange(i as int, zf.ns@.len() as int));
            assert(records_view(ns_records@) =~= zf.ns@.subrange(0, i as int).map_values(
                |n: NsEntry| ns_model(n, zname, ttl),
            ));
        }
        assert(zf.ns@.subrange(0, zf.ns@.len() as int) =~= zf.ns@);
        assert(zf.ns@.subrange(i as int, zf.ns@.len() as int) =~= Seq::<NsEntry>::empty());
        let ghost with_ns = sets_view(records@);
        // User records
        match &zf.record {
            Some(entries) => {
                let mut k: usize = 0;
                assert(entries@.subrange(0, entries@.len() as int) =~= entries@);
                assert(zone_sets(zf) == add_entries(with_ns, entries@, zname, ttl));
                while k < entries.len()
                    invariant
                        k <= entries@.len(),
                        zone_name@ == zname,
                        zone_sets(zf) == add_entries(with_ns, entries@, zname, ttl),
                        sets_unique(sets_view(records@)),
                        add_entries(with_ns, entries@, zname, ttl) == add_entries(
                            sets_view(records@),
                            entries@.subrange(k as int, entries@.len() as int),
                            zname,
                            ttl,
                        ),
                    decreases entries.len() - k,
                {
                    let ghost rest = entries@.subrange(k as int, entries@.len() as int);
                    let entry = &entries[k];
                    let fqdn = Zone::expand_name(entry.name.as_str(), zone_name.as_str());
                    let (rtype, rec) = match build_entry(entry, &fqdn, ttl) {
                        Ok(x) => x,
                        Err(e) => {
                            assert(rest[0] == *entry);
                            assert(add_entries(sets_view(records@), rest, zname, ttl) == Err::<
                                Seq<SpecRecordSet>,
                                SpecZoneError,
                            >(e@));
                            return Err(e);
                        },
                    };
                    add_record(&mut records, &fqdn, rtype, rec);
                    k = k + 1;
                    assert(rest.drop_first() =~= entries@.subrange(k as int, entries@.len() as int));
                }
                assert(entries@.subrange(k as int, entries@.len() as int) =~= Seq::<RecordEntry>::empty());
            },
            None => {},
        }
        Ok(Zone { name: zone_name, ttl, records, ns_records, soa_record })
    }
}


// ---------------------------------------------------------------------------
// Zone sets
// ---------------------------------------------------------------------------

/// The length of a name in bytes.
pub open spec fn name_len(n: Seq<char>) -> nat {
    encode_utf8(n).len()
}

/// `s` ends with `suffix`.
pub open spec fn ends_with(s: Seq<u8>, suffix: Seq<u8>) -> bool {
    s.len() >= suffix.len() && s.subrange(s.len() - suffix.len(), s.len() as int) == suffix
}

/// The zone named `zname` is responsible for the lower-cased name `lower`: it
/// is that name or one of its ancestors.
pub open spec fn zone_matches(lower: Seq<char>, zname: Seq<char>) -> bool {
    lower == zname || ends_with(encode_utf8(lower), seq![0x2Eu8] + encode_utf8(zname))
}

/// Zones sorted by name length, longest first.
pub open spec fn zones_sorted(zs: Seq<Zone>) -> bool {
    forall|i: int, j: int|
        0 <= i < j < zs.len() ==> name_len(#[trigger] zs[i].name@) >= name_len(#[trigger] zs[j].name@)
}

/// No two zones have the same name.
pub open spec fn zones_unique(zs: Seq<Zone>) -> bool {
    forall|i: int, j: int|
        0 <= i < zs.len() && 0 <= j < zs.len() && #[trigger] zs[i].name@ == #[trigger] zs[j].name@
            ==> i == j
}

// ---------------------------------------------------------------------------
// Choosing the responsible zone
// ---------------------------------------------------------------------------

/// `z` is a zone of `zs` responsible for `lower` with the longest name.
pub open spec fn best_zone(zs: Seq<Zone>, lower: Seq<char>, z: Zone) -> bool {
    &&& zs.contains(z)
    &&& zone_matches(lower, z.name@)
    &&& forall|i: int|
        0 <= i < zs.len() && zone_matches(lower, #[trigger] zs[i].name@) ==> name_len(zs[i].name@)
            <= name_len(z.name@)
}

/// The zone responsible for the lower-cased name `lower`: among the zones whose
/// name is `lower` or an ancestor of it, the one with the longest name.
pub open spec fn responsible_zone(zs: Seq<Zone>, lower: Seq<char>) -> Option<Zone> {
    if exists|z: Zone| best_zone(zs, lower, z) {
        Some(choose|z: Zone| best_zone(zs, lower, z))
    } else {
        None
    }
}

/// Two zones that are both responsible for a name with a longest name have the
/// same name.
proof fn lemma_best_zone_names(zs: Seq<Zone>, lower: Seq<char>, z1: Zone, z2: Zone)
    requires
        best_zone(zs, lower, z1),
        best_zone(zs, lower, z2),
    ensures
        z1.name@ == z2.name@,
{
    let i = choose|i: int| 0 <= i < zs.len() && zs[i] == z1;
    let j = choose|j: int| 0 <= j < zs.len() && zs[j] == z2;
    assert(zone_matches(lower, zs[i].name@));
    assert(zone_matches(lower, zs[j].name@));
    let l = encode_utf8(lower);
    let a = encode_utf8(z1.name@);
    let b = encode_utf8(z2.name@);
    assert(a.len() == b.len());
    if lower == z1.name@ {
        if lower != z2.name@ {
            assert(l.len() >= (seq![0x2Eu8] + b).len());
        }
    } else if lower == z2.name@ {
        assert(l.len() >= (seq![0x2Eu8] + a).len());
    } else {
        assert(seq![0x2Eu8] + a == seq![0x2Eu8] + b);
        assert(a =~= (seq![0x2Eu8] + a).subrange(1, a.len() + 1 as int));
        assert(b =~= (seq![0x2Eu8] + b).subrange(1, b.len() + 1 as int));
        assert(decode_utf8(encode_utf8(z1.name@)) == z1.name@) by {
            encode_utf8_decode_utf8(z1.name@);
        }
        assert(decode_utf8(encode_utf8(z2.name@)) == z2.name@) by {
            encode_utf8_decode_utf8(z2.name@);
        }
    }
}

/// In a set of zones with distinct names, a zone is the one responsible for
/// its own name.
pub proof fn lemma_zone_finds_itself(zs: Seq<Zone>, z: Zone)
    requires
        zones_unique(zs),
        zs.contains(z),
    ensures
        responsible_zone(zs, z.name@) == Some(z),
{
    let lower = z.name@;
    assert forall|i: int|
        0 <= i < zs.len() && zone_matches(lower, #[trigger] zs[i].name@) implies name_len(
            zs[i].name@,
        ) <= name_len(z.name@) by {
        if lower != zs[i].name@ {
            assert(encode_utf8(lower).len() >= (seq![0x2Eu8] + encode_utf8(zs[i].name@)).len());
        }
    }
    assert(best_zone(zs, lower, z));
    let c = choose|c: Zone| best_zone(zs, lower, c);
    lemma_best_zone_names(zs, lower, z, c);
    let a = choose|a: int| 0 <= a < zs.len() && zs[a] == c;
    let b = choose|b: int| 0 <= b < zs.len() && zs[b] == z;
    assert(zs[a].name@ == zs[b].name@);
}

/// A set of zones, each found by its name.
pub struct ZoneSet {
    /// Zones sorted by name length, longest first, for suffix matching.
    zones: Vec<Zone>,
}

/// `s` ends with a dot followed by `z`.
fn ends_with_dot_and(s: &[u8], z: &[u8]) -> (res: bool)
    ensures
        res == ends_with(s@, seq![0x2Eu8] + z@),
{
    if s.len() <= z.len() {
        return false;
    }
    let start = s.len() - z.len() - 1;
    if s[start] != 0x2E {
        assert(s@.subrange(start as int, s@.len() as int)[0] != (seq![0x2Eu8] + z@)[0]);
        return false;
    }
    let mut i: usize = 0;
    while i < z.len()
        invariant
            start + 1 + z@.len() == s@.len(),
            s@.len() == s.len(),
            i <= z@.len(),
            s@[start as int] == 0x2E,
            forall|j: int| 0 <= j < i ==> s@[start + 1 + j] == z@[j],
        decreases z.len() - i,
    {
        if s[start + 1 + i] != z[i] {
            assert(s@.subrange(start as int, s@.len() as int)[i + 1] != (seq![0x2Eu8] + z@)[i + 1]);
            return false;
        }
        i = i + 1;
    }
    assert(s@.subrange(start as int, s@.len() as int) =~= seq![0x2Eu8] + z@);
    true
}

impl ZoneSet {
    /// The zones of this set, longest name first.
    pub closed spec fn zones(&self) -> Seq<Zone> {
        self.zones@
    }

    #[verifier::type_invariant]
    spec fn wf(&self) -> bool {
        zones_sorted(self.zones@) && zones_unique(self.zones@)
    }

    pub fn new() -> (res: ZoneSet)
        ensures
            res.zones() == Seq::<Zone>::empty(),
    {
        ZoneSet { zones: Vec::new() }
    }

    /// Adds a zone, replacing any zone of the same name.
    #[verifier::spinoff_prover]
    #[verifier::rlimit(40)]
    pub fn insert(&mut self, zone: Zone)
        ensures
            forall|z: Zone|
                #![trigger final(self).zones().contains(z)]
                final(self).zones().contains(z) <==> (z == zone || (old(self).zones().contains(z)
                    && z.name@ != zone.name@)),
            zones_unique(final(self).zones()),
    {
        proof {
            use_type_invariant(&*self);
        }
        let mut old_zones: Vec<Zone> = Vec::new();
        std::mem::swap(&mut self.zones, &mut old_zones);
        let ghost orig = old_zones@;
        let ghost zlen = name_len(zone.name@);
        let ghost zone_v = zone;
        let zone_len = zone.name.as_str().as_bytes().len();
        let zone_name = zone.name.clone();
        let n = old_zones.len();
        let mut pending: Option<Zone> = Some(zone);
        let mut out: Vec<Zone> = Vec::new();
        // where each output zone comes from (-1: the new zone)
        let ghost mut src: Seq<int> = seq![];
        // where each input zone went (when kept)
        let ghost mut dst: Seq<int> = seq![];
        let ghost mut zpos: int = -1;
        let mut i: usize = 0;
        while i < n
            invariant
                n == orig.len(),
                zone_name@ == zone_v.name@,
                orig == old(self).zones(),
                zones_sorted(orig),
                zones_unique(orig),
                zone_len == zlen,
                zlen == name_len(zone_v.name@),
                i <= orig.len(),
                old_zones@ == orig.subrange(i as int, orig.len() as int),
                zones_sorted(out@),
                zones_unique(out@),
                src.len() == out@.len(),
                dst.len() == i,
                pending is Some ==> pending->0 == zone_v,
                pending is Some ==> zpos == -1,
                pending is Some ==> forall|k: int| 0 <= k < out@.len() ==> #[trigger] src[k] >= 0,
                pending is Some ==> forall|k: int|
                    0 <= k < out@.len() ==> name_len(#[trigger] out@[k].name@) >= zlen,
                pending is None ==> 0 <= zpos < out@.len() && out@[zpos] == zone_v,
                pending is None ==> i > 0 && name_len(orig[i - 1].name@) < zlen,
                forall|k: int|
                    0 <= k < out@.len() ==> (#[trigger] src[k] == -1 && out@[k] == zone_v) || (0
                        <= src[k] < i && orig[src[k]] == out@[k] && out@[k].name@
                        != zone_v.name@),
                forall|k: int|
                    0 <= k < i && (#[trigger] orig[k]).name@ != zone_v.name@ ==> 0 <= dst[k]
                        < out@.len() && out@[dst[k]] == orig[k],
                forall|k: int, m: int|
                    0 <= k < out@.len() && i <= m < orig.len() ==> name_len(
                        #[trigger] out@[k].name@,
                    ) >= name_len(#[trigger] orig[m].name@),
            decreases n - i,
        {
            let z = old_zones.remove(0);
            assert(z == orig[i as int]);
            if z.name == zone_name {
                proof {
                    dst = dst.push(-1);
                }
                i = i + 1;
                continue ;
            }
            let z_len = z.name.as_str().as_bytes().len();
            if z_len < zone_len {
                let ghost before_p = out@;
                let ghost was_pending = pending is Some;
                match pending.take() {
                    Some(p) => {
                        proof {
                            zpos = out@.len() as int;
                            src = src.push(-1);
                        }
                        out.push(p);
                        proof {
                            assert forall|k: int, m: int| 0 <= k < m < out@.len() implies name_len(
                                    #[trigger] out@[k].name@) >= name_len(#[trigger] out@[m].name@) by {
                                assert(out@[k] == before_p[k]);
                                if m < before_p.len() {
                                    assert(out@[m] == before_p[m]);
                                }
                            }
                            assert forall|k: int, m: int| 0 <= k < out@.len() && 0 <= m < out@.len() && #[trigger] out@[k].name@ == #[trigger] out@[m].name@ implies k == m by {
                                if k < before_p.len() && m < before_p.len() {
                                    assert(out@[k] == before_p[k] && out@[m] == before_p[m]);
                                } else if k < before_p.len() {
                                    assert(out@[k] == before_p[k]);
                                    assert(src[k] >= 0);
                                } else if m < before_p.len() {
                                    assert(out@[m] == before_p[m]);
                                    assert(src[m] >= 0);
                                }
                            }
                            assert forall|k: int, m: int|
                                0 <= k < out@.len() && i <= m < orig.len() implies name_len(
                                    #[trigger] out@[k].name@,
                                ) >= name_len(#[trigger] orig[m].name@) by {
                                if k < before_p.len() {
                                    assert(out@[k] == before_p[k]);
                                } else {
                                    assert(name_len(orig[i as int].name@) >= name_len(orig[m].name@));
                                }
                            }
                        }
                    },
                    None => {},
                }
            }
            let ghost before = out@;
            proof {
                dst = dst.push(out@.len() as int);
                src = src.push(i as int);
                assert forall|k: int| 0 <= k < before.len() implies (#[trigger] before[k]).name@ != z.name@ by {
                    if src[k] >= 0 {
                        assert(orig[src[k]].name@ == orig[i as int].name@ ==> src[k] == i);
                    }
                }
                assert forall|k: int| 0 <= k < before.len() implies name_len(#[trigger] before[k].name@) >= name_len(z.name@) by {
                    if src[k] == -1 {
                    } else {
                        assert(name_len(before[k].name@) >= name_len(orig[i as int].name@));
                    }
                }
            }
            out.push(z);
            proof {
                assert(out@ == before.push(orig[i as int]));
                assert forall|k: int, m: int| 0 <= k < out@.len() && i + 1 <= m < orig.len() implies name_len(
                        #[trigger] out@[k].name@,
                    ) >= name_len(#[trigger] orig[m].name@) by {
                    if k < before.len() {
                        assert(out@[k] == before[k]);
                    } else {
                        assert(name_len(orig[i as int].name@) >= name_len(orig[m].name@));
                    }
                }
                assert forall|k: int, m: int| 0 <= k < m < out@.len() implies name_len(
                        #[trigger] out@[k].name@) >= name_len(#[trigger] out@[m].name@) by {
                    if m < before.len() {
                        assert(out@[k] == before[k] && out@[m] == before[m]);
                    } else {
                        assert(out@[k] == before[k]);
                    }
                }
                assert forall|k: int, m: int| 0 <= k < out@.len() && 0 <= m < out@.len() && #[trigger] out@[k].name@ == #[trigger] out@[m].name@ implies k == m by {
                    if k < before.len() && m < before.len() {
                        assert(out@[k] == before[k] && out@[m] == before[m]);
                    } else if k < before.len() {
                        assert(out@[k] == before[k]);
                        assert(before[k].name@ != z.name@);
                    } else if m < before.len() {
                        assert(out@[m] == before[m]);
                        assert(before[m].name@ != z.name@);
                    }
                }
            }
            i = i + 1;
        }
        let ghost before = out@;
        match pending.take() {
            Some(p) => {
                proof {
                    zpos = out@.len() as int;
                    src = src.push(-1);
                }
                out.push(p);
                proof {
                    assert forall|k: int, m: int| 0 <= k < m < out@.len() implies name_len(
                            #[trigger] out@[k].name@) >= name_len(#[trigger] out@[m].name@) by {
                        assert(out@[k] == before[k]);
                        if m < before.len() {
                            assert(out@[m] == before[m]);
                        }
                    }
                    assert forall|k: int, m: int| 0 <= k < out@.len() && 0 <= m < out@.len() && #[trigger] out@[k].name@ == #[trigger] out@[m].name@ implies k == m by {
                        if k < before.len() && m < before.len() {
                            assert(out@[k] == before[k] && out@[m] == before[m]);
                        } else if k < before.len() {
                            assert(out@[k] == before[k]);
                            assert(src[k] >= 0);
                        } else if m < before.len() {
                            assert(out@[m] == before[m]);
                            assert(src[m] >= 0);
                        }
                    }
                }
            },
            None => {},
        }
        let ghost fin = out@;
        proof {
            assert forall|z: Zone| #[trigger] fin.contains(z) <==> (z == zone_v || (orig.contains(z)
                && z.name@ != zone_v.name@)) by {
                if out@.contains(z) {
                    let k = choose|k: int| 0 <= k < out@.len() && out@[k] == z;
                    if src[k] >= 0 {
                        assert(orig[src[k]] == z);
                    }
                }
                if z == zone_v {
                    assert(out@[zpos] == z);
                }
                if orig.contains(z) && z.name@ != zone_v.name@ {
                    let j = choose|j: int| 0 <= j < orig.len() && orig[j] == z;
                    assert(out@[dst[j]] == z);
                }
            }
        }
        self.zones = out;
        assert(self.zones() == fin);
        assert(orig == old(self).zones());
        assert(zone_v == zone);
        assert forall|z: Zone| #[trigger] self.zones().contains(z) <==> (z == zone || (old(self).zones().contains(z)
                    && z.name@ != zone.name@)) by {
            assert(fin.contains(z) <==> (z == zone_v || (orig.contains(z) && z.name@ != zone_v.name@)));
        }
        proof {
            use_type_invariant(&*self);
        }
    }

    /// The number of zones.
    pub fn len(&self) -> (res: usize)
        ensures
            res == self.zones().len(),
    {
        self.zones.len()
    }

    /// Find the zone that is authoritative for `name` (longest suffix match).
    #[verifier::spinoff_prover]
    pub fn find_zone(&self, name: &str) -> (res: Option<&Zone>)
        ensures
            match res {
                Some(z) => responsible_zone(self.zones(), unicode_lowercase(name@)) == Some(*z),
                None => responsible_zone(self.zones(), unicode_lowercase(name@)) is None,
            },
            match res {
                Some(z) => {
                    &&& self.zones().contains(*z)
                    &&& zone_matches(unicode_lowercase(name@), z.name@)
                    &&& forall|i: int|
                        0 <= i < self.zones().len() && zone_matches(
                            unicode_lowercase(name@),
                            #[trigger] self.zones()[i].name@,
                        ) ==> name_len(self.zones()[i].name@) <= name_len(z.name@)
                },
                None => forall|i: int|
                    0 <= i < self.zones().len() ==> !zone_matches(
                        unicode_lowercase(name@),
                        #[trigger] self.zones()[i].name@,
                    ),
            },
    {
        proof {
            use_type_invariant(self);
        }
        let lower = str_to_lowercase(name);
        let lower_bytes = lower.as_str().as_bytes();
        let mut i: usize = 0;
        while i < self.zones.len()
            invariant
                i <= self.zones@.len(),
                lower@ == unicode_lowercase(name@),
                lower_bytes@ == encode_utf8(lower@),
                zones_sorted(self.zones@),
                zones_unique(self.zones@),
                forall|j: int| 0 <= j < i ==> !zone_matches(lower@, #[trigger] self.zones@[j].name@),
            decreases self.zones.len() - i,
        {
            let zname = &self.zones[i].name;
            if lower == *zname || ends_with_dot_and(lower_bytes, zname.as_str().as_bytes()) {
                let z = &self.zones[i];
                assert(self.zones@.contains(*z)) by {
                    assert(self.zones@[i as int] == *z);
                }
                assert forall|j: int|
                    0 <= j < self.zones@.len() && zone_matches(
                        lower@,
                        #[trigger] self.zones@[j].name@,
                    ) implies name_len(self.zones@[j].name@) <= name_len(z.name@) by {
                    if j > i {
                        assert(name_len(self.zones@[i as int].name@) >= name_len(self.zones@[j].name@));
                    }
                }
                proof {
                    assert(best_zone(self.zones@, lower@, *z));
                    let c = choose|c: Zone| best_zone(self.zones@, lower@, c);
                    lemma_best_zone_names(self.zones@, lower@, *z, c);
                    let a = choose|a: int| 0 <= a < self.zones@.len() && self.zones@[a] == c;
                    assert(self.zones@[a].name@ == self.zones@[i as int].name@);
                }
                return Some(z);
            }
            i = i + 1;
        }
        proof {
            if exists|c: Zone| best_zone(self.zones@, lower@, c) {
                let c = choose|c: Zone| best_zone(self.zones@, lower@, c);
                let a = choose|a: int| 0 <= a < self.zones@.len() && self.zones@[a] == c;
                assert(!zone_matches(lower@, self.zones@[a].name@));
            }
        }
        None
    }
}


// ---------------------------------------------------------------------------
// Loading a set of zone files
// ---------------------------------------------------------------------------

/// Why a set of zone files gave no zone set: the first file, by its index,
/// that could not be read or parsed, or that describes no zone.
#[derive(Debug)]
pub enum LoadError {
    File { index: usize, message: String },
    Zone { index: usize, error: ZoneError },
}

/// A zone file that was read and parsed and describes a zone.
pub open spec fn file_loads(f: Result<ZoneFile, String>) -> bool {
    f matches Ok(zf) && zone_sets(zf) is Ok
}

/// `z` is the zone that the read zone file `f` describes.
pub open spec fn file_gives(f: Result<ZoneFile, String>, z: Zone) -> bool {
    f matches Ok(zf) && zone_of_file(zf, z)
}

/// The zone name of a read zone file.
pub open spec fn file_zone_name(f: Result<ZoneFile, String>) -> Seq<char> {
    match f {
        Ok(zf) => zone_name_of(zf.zone.name@),
        Err(_) => Seq::empty(),
    }
}

/// Every zone of `zs` is the zone of one of the first `n` files, and no later
/// one of them names the same zone.
pub open spec fn zones_from_prefix(zs: Seq<Zone>, files: Seq<Result<ZoneFile, String>>, n: int) -> bool {
    forall|z: Zone|
        #![trigger zs.contains(z)]
        zs.contains(z) ==> exists|k: int|
            0 <= k < n && #[trigger] file_gives(files[k], z) && forall|j: int|
                k < j < n ==> file_zone_name(#[trigger] files[j]) != z.name@
}

/// Each of the first `n` files has a zone of its name in `zs`.
pub open spec fn prefix_in_zones(zs: Seq<Zone>, files: Seq<Result<ZoneFile, String>>, n: int) -> bool {
    forall|k: int|
        0 <= k < n ==> exists|z: Zone| #[trigger] zs.contains(z) && z.name@ == file_zone_name(
            #[trigger] files[k],
        )
}

/// Adding the zone of the next file keeps every zone of the set tied to the
/// last file read so far that names it.
proof fn lemma_load_step_from(
    old_zs: Seq<Zone>,
    new_zs: Seq<Zone>,
    files: Seq<Result<ZoneFile, String>>,
    index: int,
    zone: Zone,
)
    requires
        0 <= index < files.len(),
        zones_from_prefix(old_zs, files, index),
        file_gives(files[index], zone),
        file_zone_name(files[index]) == zone.name@,
        forall|z: Zone|
            #![trigger new_zs.contains(z)]
            new_zs.contains(z) <==> (z == zone || (old_zs.contains(z) && z.name@ != zone.name@)),
    ensures
        zones_from_prefix(new_zs, files, index + 1),
{
    let i1 = index + 1;
    assert forall|z: Zone| #[trigger] new_zs.contains(z) implies exists|k: int|
        0 <= k < i1 && #[trigger] file_gives(files[k], z) && forall|j: int|
            k < j < i1 ==> file_zone_name(#[trigger] files[j]) != z.name@ by {
        if z == zone {
            assert(file_gives(files[index], z));
        } else {
            assert(old_zs.contains(z));
            let k = choose|k: int|
                0 <= k < index && #[trigger] file_gives(files[k], z) && forall|j: int|
                    k < j < index ==> file_zone_name(#[trigger] files[j]) != z.name@;
            assert(file_gives(files[k], z));
        }
    }
}

/// Adding the zone of the next file keeps a zone of each file's name in the
/// set.
proof fn lemma_load_step_in(
    old_zs: Seq<Zone>,
    new_zs: Seq<Zone>,
    files: Seq<Result<ZoneFile, String>>,
    index: int,
    zone: Zone,
)
    requires
        0 <= index < files.len(),
        prefix_in_zones(old_zs, files, index),
        file_zone_name(files[index]) == zone.name@,
        forall|z: Zone|
            #![trigger new_zs.contains(z)]
            new_zs.contains(z) <==> (z == zone || (old_zs.contains(z) && z.name@ != zone.name@)),
    ensures
        prefix_in_zones(new_zs, files, index + 1),
{
    let i1 = index + 1;
    assert forall|k: int| 0 <= k < i1 implies exists|z: Zone|
        #[trigger] new_zs.contains(z) && z.name@ == file_zone_name(#[trigger] files[k]) by {
        assert(new_zs.contains(zone));
        if k < index {
            let z = choose|z: Zone| #[trigger] old_zs.contains(z) && z.name@ == file_zone_name(
                files[k],
            );
            if z.name@ != zone.name@ {
                assert(new_zs.contains(z));
            }
        }
    }
}

/// The zone set that a directory of zone files gives, from the files read in
/// order: every file must load, and a later file replaces an earlier zone of
/// the same name. Fails on the first file that could not be read or parsed
/// or that describes no zone, so that no partial set is handed on.
#[verifier::rlimit(40)]
pub fn zones_from_files(files: Vec<Result<ZoneFile, String>>) -> (res: Result<ZoneSet, LoadError>)
    ensures
        res is Ok <==> forall|i: int| 0 <= i < files@.len() ==> #[trigger] file_loads(files@[i]),
        res matches Ok(zs) ==> {
            &&& zones_from_prefix(zs.zones(), files@, files@.len() as int)
            &&& prefix_in_zones(zs.zones(), files@, files@.len() as int)
            &&& zones_unique(zs.zones())
        },
        res matches Err(e) ==> match e {
            LoadError::File { index, message } => {
                &&& index < files@.len()
                &&& files@[index as int] matches Err(m) && m@ == message@
                &&& forall|k: int| 0 <= k < index ==> #[trigger] file_loads(files@[k])
            },
            LoadError::Zone { index, error } => {
                &&& index < files@.len()
                &&& files@[index as int] matches Ok(zf) && zone_sets(zf) == Err::<
                    Seq<SpecRecordSet>,
                    SpecZoneError,
                >(error@)
                &&& forall|k: int| 0 <= k < index ==> #[trigger] file_loads(files@[k])
            },
        },
{
    let ghost orig = files@;
    let mut rest = files;
    let n = rest.len();
    let mut zs = ZoneSet::new();
    let mut index: usize = 0;
    while index < n
        invariant
            n == orig.len(),
            orig == files@,
            index <= n,
            rest@ == orig.subrange(index as int, n as int),
            forall|k: int| 0 <= k < index ==> #[trigger] file_loads(orig[k]),
            zones_from_prefix(zs.zones(), orig, index as int),
            prefix_in_zones(zs.zones(), orig, index as int),
            zones_unique(zs.zones()),
        decreases n - index,
    {
        let f = rest.remove(0);
        assert(f == orig[index as int]);
        match f {
            Err(message) => {
                assert(!file_loads(orig[index as int]));
                return Err(LoadError::File { index, message });
            },
            Ok(zf) => {
                let loaded = Zone::from_file(zf);
                match loaded {
                    Err(error) => {
                        assert(!file_loads(orig[index as int]));
                        return Err(LoadError::Zone { index, error });
                    },
                    Ok(zone) => {
                        let ghost old_zs = zs.zones();
                        let ghost zone_v = zone;
                        zs.insert(zone);
                        proof {
                            assert(file_gives(orig[index as int], zone_v));
                            assert(file_zone_name(orig[index as int]) == zone_v.name@);
                            lemma_load_step_from(old_zs, zs.zones(), orig, index as int, zone_v);
                            lemma_load_step_in(old_zs, zs.zones(), orig, index as int, zone_v);
                        }
                    },
                }
            },
        }
        index = index + 1;
    }
    Ok(zs)
}

/// In a zone set built from zone files, the zone responsible for the name of
/// a file's zone, when no later file names the same zone, is the zone that
/// file describes.
pub proof fn lemma_loaded_zone_answers(zs: Seq<Zone>, files: Seq<Result<ZoneFile, String>>, i: int)
    requires
        zones_from_prefix(zs, files, files.len() as int),
        prefix_in_zones(zs, files, files.len() as int),
        zones_unique(zs),
        0 <= i < files.len(),
        forall|j: int| i < j < files.len() ==> file_zone_name(#[trigger] files[j]) != file_zone_name(
            files[i],
        ),
    ensures
        responsible_zone(zs, file_zone_name(files[i])) matches Some(z) && file_gives(files[i], z),
{
    let name = file_zone_name(files[i]);
    let z = choose|z: Zone| #[trigger] zs.contains(z) && z.name@ == file_zone_name(files[i]);
    let k = choose|k: int|
        0 <= k < files.len() && #[trigger] file_gives(files[k], z) && forall|j: int|
            k < j < files.len() ==> file_zone_name(#[trigger] files[j]) != z.name@;
    assert(file_zone_name(files[k]) == z.name@);
    if k < i {
        assert(file_zone_name(files[i]) != z.name@);
    }
    if k > i {
        assert(file_zone_name(files[k]) != name);
    }
    assert(k == i);
    lemma_zone_finds_itself(zs, z);
}

/// The zone set after a reload attempt: the loaded set when loading succeeded,
/// otherwise the current set, kept whole.
pub fn after_reload(current: ZoneSet, loaded: Result<ZoneSet, String>) -> (res: ZoneSet)
    ensures
        match loaded {
            Ok(z) => res.zones() == z.zones(),
            Err(_) => res.zones() == current.zones(),
        },
{
    match loaded {
        Ok(z) => z,
        Err(_) => current,
    }
}

} // verus!
