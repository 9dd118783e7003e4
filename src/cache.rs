use vstd::prelude::*;

use crate::cache_laws::{
    lemma_cache_lookup_wf, lemma_cache_store_nxdomain_wf, lemma_cache_store_wf,
    lemma_store_nxdomain_wf, lemma_store_record_wf,
};
use crate::packet::{
    empty_header, record_domain, record_qtype, record_ttl, records_view, DNSHeader, DNSPacket,
    DNSRecord, PacketView, QueryType, RCode, RecordView,
};

verus! {

/// What the cache knows of a name and a record type.
#[derive(Clone, Copy, Debug, PartialEq, Eq, Structural)]
pub enum CacheState {
    PositiveCache,
    NegativeCache,
    NotCached,
}

/// A cached record and the time it was stored, in seconds since the epoch.
#[derive(Clone, Debug)]
pub struct RecordEntry {
    pub record: DNSRecord,
    pub timestamp: i64,
}

/// What the cache holds for one record type of a name.
#[derive(Clone, Debug)]
pub enum RecordSet {
    /// The name was reported not to exist, `ttl` seconds from `timestamp` on.
    NoRecords { qtype: QueryType, ttl: u32, timestamp: i64 },
    /// Records of this type, each stored once.
    Records { qtype: QueryType, records: Vec<RecordEntry> },
}

/// The record sets and counters of one name.
#[derive(Clone, Debug)]
pub struct DomainEntry {
    pub domain: String,
    pub record_types: Vec<RecordSet>,
    pub hits: u32,
    pub updates: u32,
}

/// The cache: an entry per name.
#[derive(Clone, Debug)]
pub struct Cache {
    pub domain_entries: Vec<DomainEntry>,
}

// ------------------------------------------------------------------ model
/// What a cached entry holds.
pub struct EntryView {
    pub record: RecordView,
    pub timestamp: i64,
}

/// What a record set holds.
pub enum SetView {
    NoRecords { qtype: QueryType, ttl: u32, timestamp: i64 },
    Records { qtype: QueryType, records: Seq<EntryView> },
}

/// What a name's entry holds.
pub struct DomainView {
    pub domain: Seq<char>,
    pub sets: Seq<SetView>,
    pub hits: u32,
    pub updates: u32,
}

impl View for RecordEntry {
    type V = EntryView;

    open spec fn view(&self) -> EntryView {
        EntryView { record: self.record@, timestamp: self.timestamp }
    }
}

/// The views of a vector of cached entries.
pub open spec fn entries_view(v: Seq<RecordEntry>) -> Seq<EntryView> {
    v.map_values(|e: RecordEntry| e@)
}

impl View for RecordSet {
    type V = SetView;

    open spec fn view(&self) -> SetView {
        match self {
            RecordSet::NoRecords { qtype, ttl, timestamp } => SetView::NoRecords {
                qtype: *qtype,
                ttl: *ttl,
                timestamp: *timestamp,
            },
            RecordSet::Records { qtype, records } => SetView::Records {
                qtype: *qtype,
                records: entries_view(records@),
            },
        }
    }
}

/// The views of a vector of record sets.
pub open spec fn sets_view(v: Seq<RecordSet>) -> Seq<SetView> {
    v.map_values(|s: RecordSet| s@)
}

impl View for DomainEntry {
    type V = DomainView;

    open spec fn view(&self) -> DomainView {
        DomainView {
            domain: self.domain@,
            sets: sets_view(self.record_types@),
            hits: self.hits,
            updates: self.updates,
        }
    }
}

/// The views of a vector of name entries.
pub open spec fn domains_view(v: Seq<DomainEntry>) -> Seq<DomainView> {
    v.map_values(|e: DomainEntry| e@)
}

impl View for Cache {
    type V = Seq<DomainView>;

    open spec fn view(&self) -> Seq<DomainView> {
        domains_view(self.domain_entries@)
    }
}

/// A counter one higher, held at its largest value.
pub open spec fn bump(n: u32) -> u32 {
    if n < u32::MAX {
        (n + 1) as u32
    } else {
        n
    }
}

/// Something stored at `timestamp` with time to live `ttl` is still valid at
/// `now`: a time to live of zero is never valid.
pub open spec fn fresh(timestamp: i64, ttl: u32, now: i64) -> bool {
    ttl > 0 && now <= timestamp + ttl
}

/// The record type a set is for.
pub open spec fn set_qtype(s: SetView) -> QueryType {
    match s {
        SetView::NoRecords { qtype, .. } => qtype,
        SetView::Records { qtype, .. } => qtype,
    }
}

/// Index of the first set for `t` from `from` on.
pub open spec fn find_set(sets: Seq<SetView>, t: QueryType, from: int) -> Option<int>
    decreases sets.len() - from,
{
    if from < 0 || from >= sets.len() {
        None
    } else if set_qtype(sets[from]) == t {
        Some(from)
    } else {
        find_set(sets, t, from + 1)
    }
}

/// Index of the first entry holding `r` from `from` on.
pub open spec fn find_entry(entries: Seq<EntryView>, r: RecordView, from: int) -> Option<int>
    decreases entries.len() - from,
{
    if from < 0 || from >= entries.len() {
        None
    } else if entries[from].record == r {
        Some(from)
    } else {
        find_entry(entries, r, from + 1)
    }
}

/// Index of the first entry for `d` from `from` on.
pub open spec fn find_domain(c: Seq<DomainView>, d: Seq<char>, from: int) -> Option<int>
    decreases c.len() - from,
{
    if from < 0 || from >= c.len() {
        None
    } else if c[from].domain == d {
        Some(from)
    } else {
        find_domain(c, d, from + 1)
    }
}

/// A found set is in range and for `t`.
pub proof fn lemma_find_set(sets: Seq<SetView>, t: QueryType, from: int)
    ensures
        find_set(sets, t, from) matches Some(i) ==> from <= i < sets.len() && set_qtype(sets[i])
            == t,
    decreases sets.len() - from,
{
    if 0 <= from < sets.len() && set_qtype(sets[from]) != t {
        lemma_find_set(sets, t, from + 1);
    }
}

/// A found entry is in range and holds `r`.
pub proof fn lemma_find_entry(entries: Seq<EntryView>, r: RecordView, from: int)
    ensures
        find_entry(entries, r, from) matches Some(i) ==> from <= i < entries.len()
            && entries[i].record == r,
    decreases entries.len() - from,
{
    if 0 <= from < entries.len() && entries[from].record != r {
        lemma_find_entry(entries, r, from + 1);
    }
}

/// A found name entry is in range and for `d`.
pub proof fn lemma_find_domain(c: Seq<DomainView>, d: Seq<char>, from: int)
    ensures
        find_domain(c, d, from) matches Some(i) ==> from <= i < c.len() && c[i].domain == d,
    decreases c.len() - from,
{
    if 0 <= from < c.len() && c[from].domain != d {
        lemma_find_domain(c, d, from + 1);
    }
}

/// The records of type `t` among `entries` that are still valid at `now`, in order.
pub open spec fn fresh_of_type(entries: Seq<EntryView>, t: QueryType, now: i64) -> Seq<RecordView>
    decreases entries.len(),
{
    if entries.len() == 0 {
        Seq::empty()
    } else {
        let rest = fresh_of_type(entries.drop_last(), t, now);
        let e = entries.last();
        if fresh(e.timestamp, record_ttl(e.record), now) && record_qtype(e.record) == t {
            rest.push(e.record)
        } else {
            rest
        }
    }
}

/// The entries of a name's record set for `t`; none when it has no such set or
/// only a negative one.
pub open spec fn set_records(e: DomainView, t: QueryType) -> Seq<EntryView> {
    match find_set(e.sets, t, 0) {
        Some(i) => match e.sets[i] {
            SetView::Records { records, .. } => records,
            SetView::NoRecords { .. } => Seq::empty(),
        },
        None => Seq::empty(),
    }
}

/// What one name's entry knows of type `t` at `now`.
pub open spec fn domain_state(e: DomainView, t: QueryType, now: i64) -> CacheState {
    match find_set(e.sets, t, 0) {
        None => CacheState::NotCached,
        Some(i) => match e.sets[i] {
            SetView::Records { records, .. } => if fresh_of_type(records, t, now).len() > 0 {
                CacheState::PositiveCache
            } else {
                CacheState::NotCached
            },
            SetView::NoRecords { ttl, timestamp, .. } => if fresh(timestamp, ttl, now) {
                CacheState::NegativeCache
            } else {
                CacheState::NotCached
            },
        },
    }
}

/// A record set is for one type, and holds each record once, of that type.
pub open spec fn set_wf(s: SetView) -> bool {
    match s {
        SetView::NoRecords { .. } => true,
        SetView::Records { qtype, records } => {
            &&& forall|i: int, j: int|
                0 <= i < j < records.len() ==> #[trigger] records[i].record
                    != #[trigger] records[j].record
            &&& forall|i: int| 0 <= i < records.len() ==> record_qtype(#[trigger] records[i].record) == qtype
        },
    }
}

/// A name's entry has at most one set per type, each well formed.
pub open spec fn domain_wf(e: DomainView) -> bool {
    &&& forall|i: int, j: int|
        0 <= i < j < e.sets.len() ==> set_qtype(#[trigger] e.sets[i]) != set_qtype(#[trigger] e.sets[j])
    &&& forall|i: int| 0 <= i < e.sets.len() ==> set_wf(#[trigger] e.sets[i])
}

/// The cache has at most one entry per name, each well formed.
pub open spec fn cache_wf(c: Seq<DomainView>) -> bool {
    &&& forall|i: int, j: int| 0 <= i < j < c.len() ==> #[trigger] c[i].domain != #[trigger] c[j].domain
    &&& forall|i: int| 0 <= i < c.len() ==> domain_wf(#[trigger] c[i])
}

/// What the cache knows of name `d` and type `t` at `now`.
pub open spec fn cache_state(c: Seq<DomainView>, d: Seq<char>, t: QueryType, now: i64) -> CacheState {
    match find_domain(c, d, 0) {
        None => CacheState::NotCached,
        Some(i) => domain_state(c[i], t, now),
    }
}

/// An entry for `d` with no sets and zero counters.
pub open spec fn new_domain(d: Seq<char>) -> DomainView {
    DomainView { domain: d, sets: Seq::empty(), hits: 0, updates: 0 }
}

/// `entries` with `e` in place of the entry holding the same record, or added last.
pub open spec fn upsert(entries: Seq<EntryView>, e: EntryView) -> Seq<EntryView> {
    match find_entry(entries, e.record, 0) {
        Some(j) => entries.update(j, e),
        None => entries.push(e),
    }
}

/// A name's entry after storing record `r` at `now`.
pub open spec fn store_record_view(e: DomainView, r: RecordView, now: i64) -> DomainView {
    let t = record_qtype(r);
    let entry = EntryView { record: r, timestamp: now };
    let fresh_set = SetView::Records { qtype: t, records: seq![entry] };
    DomainView {
        sets: match find_set(e.sets, t, 0) {
            Some(i) => match e.sets[i] {
                SetView::Records { qtype, records } => e.sets.update(
                    i,
                    SetView::Records { qtype, records: upsert(records, entry) },
                ),
                SetView::NoRecords { .. } => e.sets.update(i, fresh_set),
            },
            None => e.sets.push(fresh_set),
        },
        updates: bump(e.updates),
        ..e
    }
}

/// A name's entry after recording at `now` that it has no records of type `t`.
pub open spec fn store_nxdomain_view(e: DomainView, t: QueryType, ttl: u32, now: i64) -> DomainView {
    let set = SetView::NoRecords { qtype: t, ttl, timestamp: now };
    DomainView {
        sets: match find_set(e.sets, t, 0) {
            Some(i) => e.sets.update(i, set),
            None => e.sets.push(set),
        },
        updates: bump(e.updates),
        ..e
    }
}

/// The cache after a negative entry for `d` and `t` is stored at `now`.
pub open spec fn cache_store_nxdomain(
    c: Seq<DomainView>,
    d: Seq<char>,
    t: QueryType,
    ttl: u32,
    now: i64,
) -> Seq<DomainView> {
    match find_domain(c, d, 0) {
        Some(i) => c.update(i, store_nxdomain_view(c[i], t, ttl, now)),
        None => c.push(store_nxdomain_view(new_domain(d), t, ttl, now)),
    }
}

/// The cache after record `r` is stored at `now`; a record of an unknown type is skipped.
pub open spec fn cache_store_record(c: Seq<DomainView>, r: RecordView, now: i64) -> Seq<DomainView> {
    if r is Unknown {
        c
    } else {
        let d = record_domain(r);
        match find_domain(c, d, 0) {
            Some(i) => c.update(i, store_record_view(c[i], r, now)),
            None => c.push(store_record_view(new_domain(d), r, now)),
        }
    }
}

/// The cache after records `rs` are stored, in order, at `now`.
pub open spec fn cache_store(c: Seq<DomainView>, rs: Seq<RecordView>, now: i64) -> Seq<DomainView>
    decreases rs.len(),
{
    if rs.len() == 0 {
        c
    } else {
        cache_store_record(cache_store(c, rs.drop_last(), now), rs.last(), now)
    }
}

/// The packet a lookup of `d` and `t` at `now` gives: the valid records of type
/// `t` as answers and the valid NS records of `d` as authorities; an empty packet
/// with NXDOMAIN for a negative entry; nothing otherwise.
pub open spec fn lookup_result(c: Seq<DomainView>, d: Seq<char>, t: QueryType, now: i64) -> Option<
    PacketView,
> {
    match find_domain(c, d, 0) {
        None => None,
        Some(i) => match domain_state(c[i], t, now) {
            CacheState::PositiveCache => Some(
                PacketView {
                    header: empty_header(),
                    questions: Seq::empty(),
                    answers: fresh_of_type(set_records(c[i], t), t, now),
                    authorities: fresh_of_type(set_records(c[i], QueryType::NS), QueryType::NS, now),
                    resources: Seq::empty(),
                },
            ),
            CacheState::NegativeCache => Some(
                PacketView {
                    header: DNSHeader { rcode: RCode::NXDOMAIN, ..empty_header() },
                    questions: Seq::empty(),
                    answers: Seq::empty(),
                    authorities: Seq::empty(),
                    resources: Seq::empty(),
                },
            ),
            CacheState::NotCached => None,
        },
    }
}

/// The cache after that lookup: a positive answer counts one hit for the name.
pub open spec fn cache_after_lookup(c: Seq<DomainView>, d: Seq<char>, t: QueryType, now: i64) -> Seq<
    DomainView,
> {
    match find_domain(c, d, 0) {
        Some(i) => if domain_state(c[i], t, now) == CacheState::PositiveCache {
            c.update(i, DomainView { hits: bump(c[i].hits), ..c[i] })
        } else {
            c
        },
        None => c,
    }
}

/// The view of an optional packet.
pub open spec fn packet_option_view(p: Option<DNSPacket>) -> Option<PacketView> {
    match p {
        Some(pk) => Some(pk@),
        None => None,
    }
}

// ------------------------------------------------------------------ clock
/// Relies on chrono's `Local::now` and `DateTime::timestamp`: the current time in
/// whole seconds since the Unix epoch. Nothing is known of the value.
#[verifier::external_body]
fn current_time() -> (r: i64) {
    chrono::Local::now().timestamp()
}

fn is_fresh(timestamp: i64, ttl: u32, now: i64) -> (r: bool)
    ensures
        r == fresh(timestamp, ttl, now),
{
    ttl > 0 && (now as i128) <= (timestamp as i128) + (ttl as i128)
}

fn bumped(n: u32) -> (r: u32)
    ensures
        r == bump(n),
{
    if n < u32::MAX {
        n + 1
    } else {
        n
    }
}


impl DomainEntry {
    /// An entry for `domain` with no record sets and zero counters.
    pub fn new(domain: String) -> (r: DomainEntry)
        ensures
            r@ == new_domain(domain@),
            domain_wf(r@),
    {
        let r = DomainEntry { domain, record_types: Vec::new(), hits: 0, updates: 0 };
        assert(r@.sets =~= Seq::<SetView>::empty());
        r
    }

    /// Index of the record set for `qtype`.
    fn set_index(&self, qtype: QueryType) -> (r: Option<usize>)
        ensures
            match find_set(self@.sets, qtype, 0) {
                Some(i) => r is Some && r->Some_0 as int == i,
                None => r is None,
            },
            r matches Some(i) ==> i < self.record_types@.len(),
    {
        proof {
            lemma_find_set(self@.sets, qtype, 0);
        }
        let ghost sets = self@.sets;
        let mut i: usize = 0;
        while i < self.record_types.len()
            invariant
                i <= self.record_types@.len(),
                sets == sets_view(self.record_types@),
                find_set(sets, qtype, 0) == find_set(sets, qtype, i as int),
            decreases self.record_types@.len() - i,
        {
            let t = match &self.record_types[i] {
                RecordSet::NoRecords { qtype, .. } => *qtype,
                RecordSet::Records { qtype, .. } => *qtype,
            };
            assert(set_qtype(sets[i as int]) == t);
            if t == qtype {
                return Some(i);
            }
            i = i + 1;
        }
        None
    }

    /// Records at `now` that the name has no records of type `qtype`, for `ttl`
    /// seconds, in place of any set for that type; counts one update.
    pub fn store_nxdomain(&mut self, qtype: QueryType, ttl: u32, now: i64)
        ensures
            final(self)@ == store_nxdomain_view(old(self)@, qtype, ttl, now),
            domain_wf(old(self)@) ==> domain_wf(final(self)@),
    {
        proof {
            if domain_wf(self@) {
                lemma_store_nxdomain_wf(self@, qtype, ttl, now);
            }
        }
        self.updates = bumped(self.updates);
        let set = RecordSet::NoRecords { qtype, ttl, timestamp: now };
        match self.set_index(qtype) {
            Some(i) => {
                let ghost before = self.record_types@;
                self.record_types.set(i, set);
                assert(sets_view(self.record_types@) =~= sets_view(before).update(
                    i as int,
                    set@,
                ));
            },
            None => {
                let ghost before = self.record_types@;
                self.record_types.push(set);
                assert(sets_view(self.record_types@) =~= sets_view(before).push(set@));
            },
        }
    }

    /// Stores `rec` at `now` in the set for its type, in place of an entry holding
    /// the same record; counts one update. A negative set for the type is replaced.
    pub fn store_record(&mut self, rec: &DNSRecord, now: i64)
        ensures
            final(self)@ == store_record_view(old(self)@, rec@, now),
            domain_wf(old(self)@) ==> domain_wf(final(self)@),
    {
        proof {
            if domain_wf(self@) {
                lemma_store_record_wf(self@, rec@, now);
            }
        }
        self.updates = bumped(self.updates);
        let t = rec.get_query_type();
        let entry = RecordEntry { record: rec.duplicate(), timestamp: now };
        let ghost ev = entry@;
        let mut single: Vec<RecordEntry> = Vec::new();
        match self.set_index(t) {
            Some(i) => {
                let ghost before = self.record_types@;
                let old_set = self.record_types.remove(i);
                assert(old_set@ == sets_view(before)[i as int]);
                let new_set = match old_set {
                    RecordSet::Records { qtype, records } => {
                        let mut records = records;
                        upsert_entry(&mut records, entry);
                        RecordSet::Records { qtype, records }
                    },
                    RecordSet::NoRecords { .. } => {
                        single.push(entry);
                        assert(entries_view(single@) =~= seq![ev]);
                        RecordSet::Records { qtype: t, records: single }
                    },
                };
                self.record_types.insert(i, new_set);
                assert(sets_view(self.record_types@) =~= sets_view(before).update(
                    i as int,
                    new_set@,
                ));
            },
            None => {
                single.push(entry);
                assert(entries_view(single@) =~= seq![ev]);
                let new_set = RecordSet::Records { qtype: t, records: single };
                let ghost before = self.record_types@;
                self.record_types.push(new_set);
                assert(sets_view(self.record_types@) =~= sets_view(before).push(new_set@));
            },
        }
    }

    /// What this name's entry knows of `qtype` at `now`.
    pub fn get_cache_state(&self, qtype: QueryType, now: i64) -> (r: CacheState)
        ensures
            r == domain_state(self@, qtype, now),
    {
        match self.set_index(qtype) {
            None => CacheState::NotCached,
            Some(i) => {
                assert(self@.sets[i as int] == self.record_types@[i as int]@);
                match &self.record_types[i] {
                    RecordSet::Records { records, .. } => {
                        let mut found: Vec<DNSRecord> = Vec::new();
                        assert(records_view(found@) =~= Seq::<RecordView>::empty());
                        collect_fresh(records, qtype, now, &mut found);
                        assert(records_view(found@) =~= fresh_of_type(
                            entries_view(records@),
                            qtype,
                            now,
                        ));
                        assert(records_view(found@).len() == found@.len());
                        if found.len() > 0 {
                            CacheState::PositiveCache
                        } else {
                            CacheState::NotCached
                        }
                    },
                    RecordSet::NoRecords { ttl, timestamp, .. } => {
                        if is_fresh(*timestamp, *ttl, now) {
                            CacheState::NegativeCache
                        } else {
                            CacheState::NotCached
                        }
                    },
                }
            },
        }
    }

    /// Appends the records of type `qtype` of this name that are valid at `now`.
    pub fn fill_query_result(&self, qtype: QueryType, result_vec: &mut Vec<DNSRecord>, now: i64)
        ensures
            records_view(final(result_vec)@) == records_view(old(result_vec)@) + fresh_of_type(
                set_records(self@, qtype),
                qtype,
                now,
            ),
    {
        match self.set_index(qtype) {
            None => {
                assert(records_view(result_vec@) + Seq::<RecordView>::empty() =~= records_view(
                    result_vec@,
                ));
            },
            Some(i) => {
                assert(self@.sets[i as int] == self.record_types@[i as int]@);
                match &self.record_types[i] {
                    RecordSet::Records { records, .. } => {
                        collect_fresh(records, qtype, now, result_vec);
                    },
                    RecordSet::NoRecords { .. } => {
                        assert(records_view(result_vec@) + Seq::<RecordView>::empty()
                            =~= records_view(result_vec@));
                    },
                }
            },
        }
    }
}

/// Replaces the entry holding the same record as `entry`, or adds `entry` last.
fn upsert_entry(records: &mut Vec<RecordEntry>, entry: RecordEntry)
    ensures
        entries_view(final(records)@) == upsert(entries_view(old(records)@), entry@),
{
    let ghost view = entries_view(records@);
    let mut i: usize = 0;
    let mut found: Option<usize> = None;
    while i < records.len()
        invariant_except_break
            found is None,
        invariant
            i <= records@.len(),
            view == entries_view(records@),
            found is None ==> find_entry(view, entry@.record, 0) == find_entry(
                view,
                entry@.record,
                i as int,
            ),
            found is Some ==> find_entry(view, entry@.record, 0) == Some(found->Some_0 as int)
                && found->Some_0 < records@.len(),
        ensures
            view == entries_view(records@),
            found is None ==> find_entry(view, entry@.record, 0) is None,
            i <= records@.len(),
            found is Some ==> find_entry(view, entry@.record, 0) == Some(found->Some_0 as int)
                && found->Some_0 < records@.len(),
        decreases records@.len() - i,
    {
        assert(view[i as int] == records@[i as int]@);
        if records[i].record == entry.record {
            found = Some(i);
            break;
        }
        i = i + 1;
    }
    match found {
        Some(j) => {
            let ghost ev = entry@;
            records.set(j, entry);
            assert(entries_view(records@) =~= view.update(j as int, ev));
        },
        None => {
            let ghost ev = entry@;
            records.push(entry);
            assert(entries_view(records@) =~= view.push(ev));
        },
    }
}

/// Appends the records of type `qtype` among `records` that are valid at `now`.
fn collect_fresh(records: &Vec<RecordEntry>, qtype: QueryType, now: i64, out: &mut Vec<DNSRecord>)
    ensures
        records_view(final(out)@) == records_view(old(out)@) + fresh_of_type(
            entries_view(records@),
            qtype,
            now,
        ),
{
    let ghost view = entries_view(records@);
    let ghost start = records_view(out@);
    let mut i: usize = 0;
    while i < records.len()
        invariant
            i <= records@.len(),
            view == entries_view(records@),
            records_view(out@) == start + fresh_of_type(view.subrange(0, i as int), qtype, now),
        decreases records@.len() - i,
    {
        let e = &records[i];
        assert(view.subrange(0, i + 1).drop_last() == view.subrange(0, i as int));
        assert(view.subrange(0, i + 1).last() == e@);
        if is_fresh(e.timestamp, e.record.get_ttl(), now) && e.record.get_query_type() == qtype {
            let ghost prev = out@;
            let copy = e.record.duplicate();
            out.push(copy);
            assert(records_view(out@) =~= records_view(prev).push(copy@));
        }
        i = i + 1;
    }
    assert(view.subrange(0, i as int) == view);
}

impl Cache {
    /// An empty cache.
    pub fn new() -> (r: Cache)
        ensures
            r@ == Seq::<DomainView>::empty(),
            cache_wf(r@),
    {
        let r = Cache { domain_entries: Vec::new() };
        assert(r@ =~= Seq::<DomainView>::empty());
        r
    }

    /// Index of the entry for `qname`.
    fn domain_index(&self, qname: &String) -> (r: Option<usize>)
        ensures
            match find_domain(self@, qname@, 0) {
                Some(i) => r is Some && r->Some_0 as int == i,
                None => r is None,
            },
            r matches Some(i) ==> i < self.domain_entries@.len(),
    {
        proof {
            lemma_find_domain(self@, qname@, 0);
        }
        let ghost c = self@;
        let mut i: usize = 0;
        while i < self.domain_entries.len()
            invariant
                i <= self.domain_entries@.len(),
                c == domains_view(self.domain_entries@),
                find_domain(c, qname@, 0) == find_domain(c, qname@, i as int),
            decreases self.domain_entries@.len() - i,
        {
            assert(c[i as int] == self.domain_entries@[i as int]@);
            if self.domain_entries[i].domain == *qname {
                return Some(i);
            }
            i = i + 1;
        }
        None
    }

    /// What the cache knows of `qname` and `qtype` at `now`.
    fn get_cache_state(&self, qname: &String, qtype: QueryType, now: i64) -> (r: CacheState)
        ensures
            r == cache_state(self@, qname@, qtype, now),
    {
        match self.domain_index(qname) {
            Some(i) => {
                assert(self@[i as int] == self.domain_entries@[i as int]@);
                self.domain_entries[i].get_cache_state(qtype, now)
            },
            None => CacheState::NotCached,
        }
    }

    /// Looks up `qname` and `qtype` at `now`. A valid positive entry gives a packet
    /// with the valid records of that type as answers and the name's valid NS
    /// records as authorities, and counts a hit; a valid negative entry gives an
    /// empty packet with NXDOMAIN; anything else gives nothing.
    pub fn lookup_at(&mut self, qname: &str, qtype: QueryType, now: i64) -> (r: Option<DNSPacket>)
        ensures
            packet_option_view(r) == lookup_result(old(self)@, qname@, qtype, now),
            final(self)@ == cache_after_lookup(old(self)@, qname@, qtype, now),
            cache_wf(old(self)@) ==> cache_wf(final(self)@),
    {
        proof {
            if cache_wf(self@) {
                lemma_cache_lookup_wf(self@, qname@, qtype, now);
            }
        }
        let key = qname.to_owned();
        let ghost c = self@;
        match self.domain_index(&key) {
            None => None,
            Some(i) => {
                assert(c[i as int] == self.domain_entries@[i as int]@);
                let state = self.domain_entries[i].get_cache_state(qtype, now);
                match state {
                    CacheState::PositiveCache => {
                        let mut qr = DNSPacket::new();
                        self.domain_entries[i].fill_query_result(qtype, &mut qr.answers, now);
                        self.domain_entries[i].fill_query_result(
                            QueryType::NS,
                            &mut qr.authorities,
                            now,
                        );
                        let mut entry = self.domain_entries.remove(i);
                        entry.hits = bumped(entry.hits);
                        let ghost ev = entry@;
                        self.domain_entries.insert(i, entry);
                        assert(self@ =~= c.update(i as int, ev));
                        assert(qr@.answers =~= fresh_of_type(set_records(c[i as int], qtype), qtype, now));
                        Some(qr)
                    },
                    CacheState::NegativeCache => {
                        let mut qr = DNSPacket::new();
                        qr.header.rcode = RCode::NXDOMAIN;
                        Some(qr)
                    },
                    CacheState::NotCached => None,
                }
            },
        }
    }

    /// Stores `records` at `now`, one after the other; records of unknown types are
    /// skipped. Each stored record counts one update for its name, whose entry is
    /// made when missing.
    pub fn store_at(&mut self, records: &[DNSRecord], now: i64)
        ensures
            final(self)@ == cache_store(old(self)@, records_view(records@), now),
            cache_wf(old(self)@) ==> cache_wf(final(self)@),
    {
        proof {
            if cache_wf(self@) {
                lemma_cache_store_wf(self@, records_view(records@), now);
            }
        }
        let ghost c0 = self@;
        let ghost rs = records_view(records@);
        let mut i: usize = 0;
        while i < records.len()
            invariant
                i <= records@.len(),
                rs == records_view(records@),
                self@ == cache_store(c0, rs.subrange(0, i as int), now),
            decreases records@.len() - i,
        {
            let rec = &records[i];
            assert(rs.subrange(0, i + 1).drop_last() == rs.subrange(0, i as int));
            assert(rs.subrange(0, i + 1).last() == rec@);
            self.store_one(rec, now);
            i = i + 1;
        }
        assert(rs.subrange(0, i as int) == rs);
    }

    fn store_one(&mut self, rec: &DNSRecord, now: i64)
        ensures
            final(self)@ == cache_store_record(old(self)@, rec@, now),
    {
        let domain = match rec.get_domain() {
            Some(d) => d,
            None => {
                return;
            },
        };
        let ghost c = self@;
        match self.domain_index(&domain) {
            Some(i) => {
                let mut entry = self.domain_entries.remove(i);
                assert(entry@ == c[i as int]);
                entry.store_record(rec, now);
                let ghost ev = entry@;
                self.domain_entries.insert(i, entry);
                assert(self@ =~= c.update(i as int, ev));
            },
            None => {
                let mut entry = DomainEntry::new(domain);
                entry.store_record(rec, now);
                let ghost ev = entry@;
                self.domain_entries.push(entry);
                assert(self@ =~= c.push(ev));
            },
        }
    }

    /// Records at `now` that `qname` has no records of type `qtype`, for `ttl`
    /// seconds; counts one update for the name, whose entry is made when missing.
    pub fn store_nxdomain_at(&mut self, qname: &str, qtype: QueryType, ttl: u32, now: i64)
        ensures
            final(self)@ == cache_store_nxdomain(old(self)@, qname@, qtype, ttl, now),
            cache_wf(old(self)@) ==> cache_wf(final(self)@),
    {
        proof {
            if cache_wf(self@) {
                lemma_cache_store_nxdomain_wf(self@, qname@, qtype, ttl, now);
            }
        }
        let key = qname.to_owned();
        let ghost c = self@;
        match self.domain_index(&key) {
            Some(i) => {
                let mut entry = self.domain_entries.remove(i);
                assert(entry@ == c[i as int]);
                entry.store_nxdomain(qtype, ttl, now);
                let ghost ev = entry@;
                self.domain_entries.insert(i, entry);
                assert(self@ =~= c.update(i as int, ev));
            },
            None => {
                let mut entry = DomainEntry::new(key);
                entry.store_nxdomain(qtype, ttl, now);
                let ghost ev = entry@;
                self.domain_entries.push(entry);
                assert(self@ =~= c.push(ev));
            },
        }
    }

    /// Stores at `now` every record of a response: answers, then authorities,
    /// then additional records.
    pub fn store_response_at(&mut self, response: &DNSPacket, now: i64)
        ensures
            final(self)@ == cache_store(
                cache_store(
                    cache_store(old(self)@, response@.answers, now),
                    response@.authorities,
                    now,
                ),
                response@.resources,
                now,
            ),
            cache_wf(old(self)@) ==> cache_wf(final(self)@),
    {
        self.store_at(response.answers.as_slice(), now);
        self.store_at(response.authorities.as_slice(), now);
        self.store_at(response.resources.as_slice(), now);
    }

    /// `store_response_at` at the current time.
    pub fn store_response(&mut self, response: &DNSPacket)
        ensures
            exists|now: i64|
                final(self)@ == cache_store(
                    cache_store(
                        cache_store(old(self)@, response@.answers, now),
                        response@.authorities,
                        now,
                    ),
                    response@.resources,
                    now,
                ),
            cache_wf(old(self)@) ==> cache_wf(final(self)@),
    {
        let now = current_time();
        self.store_response_at(response, now)
    }

    /// `lookup_at` at the current time.
    pub fn lookup(&mut self, qname: &str, qtype: QueryType) -> (r: Option<DNSPacket>)
        ensures
            exists|now: i64|
                packet_option_view(r) == lookup_result(old(self)@, qname@, qtype, now)
                    && final(self)@ == cache_after_lookup(old(self)@, qname@, qtype, now),
            cache_wf(old(self)@) ==> cache_wf(final(self)@),
    {
        let now = current_time();
        self.lookup_at(qname, qtype, now)
    }

    /// `store_at` at the current time.
    pub fn store(&mut self, records: &[DNSRecord])
        ensures
            exists|now: i64| final(self)@ == cache_store(old(self)@, records_view(records@), now),
            cache_wf(old(self)@) ==> cache_wf(final(self)@),
    {
        let now = current_time();
        self.store_at(records, now)
    }

    /// `store_nxdomain_at` at the current time.
    pub fn store_nxdomain(&mut self, qname: &str, qtype: QueryType, ttl: u32)
        ensures
            exists|now: i64| final(self)@ == cache_store_nxdomain(old(self)@, qname@, qtype, ttl, now),
            cache_wf(old(self)@) ==> cache_wf(final(self)@),
    {
        let now = current_time();
        self.store_nxdomain_at(qname, qtype, ttl, now)
    }
}

} // verus!
