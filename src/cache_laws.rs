use vstd::prelude::*;

use crate::cache::{
    bump, cache_after_lookup, cache_state, cache_store, cache_store_nxdomain, cache_store_record,
    cache_wf, domain_wf, find_domain, find_entry, find_set, lemma_find_domain, lemma_find_entry,
    lemma_find_set, lookup_result, new_domain, set_qtype, set_records, set_wf, store_nxdomain_view,
    store_record_view, upsert, CacheState, DomainView, EntryView, SetView,
};
use crate::packet::{record_domain, record_qtype, QueryType, RCode, RecordView};

verus! {

proof fn lemma_find_domain_update(c: Seq<DomainView>, d: Seq<char>, i: int, e: DomainView, from: int)
    requires
        0 <= from <= i,
        find_domain(c, d, from) == Some(i),
        e.domain == d,
    ensures
        find_domain(c.update(i, e), d, from) == Some(i),
    decreases i - from,
{
    lemma_find_domain(c, d, from);
    if from < i {
        lemma_find_domain_update(c, d, i, e, from + 1);
    }
}

proof fn lemma_find_domain_push(c: Seq<DomainView>, d: Seq<char>, e: DomainView, from: int)
    requires
        0 <= from <= c.len(),
        find_domain(c, d, from) is None,
        e.domain == d,
    ensures
        find_domain(c.push(e), d, from) == Some(c.len() as int),
    decreases c.len() - from,
{
    if from < c.len() {
        lemma_find_domain_push(c, d, e, from + 1);
    }
}

proof fn lemma_find_set_update(sets: Seq<SetView>, t: QueryType, i: int, s: SetView, from: int)
    requires
        0 <= from <= i,
        find_set(sets, t, from) == Some(i),
        set_qtype(s) == t,
    ensures
        find_set(sets.update(i, s), t, from) == Some(i),
    decreases i - from,
{
    lemma_find_set(sets, t, from);
    if from < i {
        lemma_find_set_update(sets, t, i, s, from + 1);
    }
}

proof fn lemma_find_set_push(sets: Seq<SetView>, t: QueryType, s: SetView, from: int)
    requires
        0 <= from <= sets.len(),
        find_set(sets, t, from) is None,
        set_qtype(s) == t,
    ensures
        find_set(sets.push(s), t, from) == Some(sets.len() as int),
    decreases sets.len() - from,
{
    if from < sets.len() {
        lemma_find_set_push(sets, t, s, from + 1);
    }
}

proof fn lemma_find_entry_exists(entries: Seq<EntryView>, r: RecordView, k: int, from: int)
    requires
        0 <= from <= k < entries.len(),
        entries[k].record == r,
    ensures
        find_entry(entries, r, from) is Some,
    decreases k - from,
{
    if from < k && entries[from].record != r {
        lemma_find_entry_exists(entries, r, k, from + 1);
    }
}

/// After a negative entry for `d` and `t` is stored, the entry for `d` is found
/// where it was or last, and its set for `t` is that negative one.
proof fn lemma_nxdomain_stored(c: Seq<DomainView>, d: Seq<char>, t: QueryType, ttl: u32, stored: i64)
    ensures
        ({
            let c2 = cache_store_nxdomain(c, d, t, ttl, stored);
            match find_domain(c2, d, 0) {
                Some(i) => 0 <= i < c2.len() && match find_set(c2[i].sets, t, 0) {
                    Some(j) => 0 <= j < c2[i].sets.len() && c2[i].sets[j] == (SetView::NoRecords {
                        qtype: t,
                        ttl,
                        timestamp: stored,
                    }),
                    None => false,
                },
                None => false,
            }
        }),
{
    let set = SetView::NoRecords { qtype: t, ttl, timestamp: stored };
    lemma_find_domain(c, d, 0);
    match find_domain(c, d, 0) {
        Some(i) => {
            let e = c[i];
            let e2 = store_nxdomain_view(e, t, ttl, stored);
            lemma_find_domain_update(c, d, i, e2, 0);
            lemma_find_set(e.sets, t, 0);
            match find_set(e.sets, t, 0) {
                Some(j) => lemma_find_set_update(e.sets, t, j, set, 0),
                None => lemma_find_set_push(e.sets, t, set, 0),
            }
        },
        None => {
            let e2 = store_nxdomain_view(crate::cache::new_domain(d), t, ttl, stored);
            lemma_find_domain_push(c, d, e2, 0);
            lemma_find_set_push(Seq::<SetView>::empty(), t, set, 0);
        },
    }
}

/// Nothing is cached in an empty cache: every lookup gives nothing and changes nothing.
pub proof fn law_empty_cache_misses(d: Seq<char>, t: QueryType, now: i64)
    ensures
        lookup_result(Seq::<DomainView>::empty(), d, t, now) is None,
        cache_after_lookup(Seq::<DomainView>::empty(), d, t, now) == Seq::<DomainView>::empty(),
{
}

/// After a negative entry for `d` and `t` with a positive time to live is stored,
/// a lookup of them until that time has passed gives a packet with NXDOMAIN.
pub proof fn law_negative_entry_answers(
    c: Seq<DomainView>,
    d: Seq<char>,
    t: QueryType,
    ttl: u32,
    stored: i64,
    now: i64,
)
    requires
        ttl > 0,
        now <= stored + ttl,
    ensures
        lookup_result(cache_store_nxdomain(c, d, t, ttl, stored), d, t, now) matches Some(p)
            && p.header.rcode == RCode::NXDOMAIN,
{
    lemma_nxdomain_stored(c, d, t, ttl, stored);
}

/// After a negative entry for `d` and `t` with time to live zero is stored, no
/// lookup of them gives anything.
pub proof fn law_zero_ttl_never_answers(
    c: Seq<DomainView>,
    d: Seq<char>,
    t: QueryType,
    stored: i64,
    now: i64,
)
    ensures
        lookup_result(cache_store_nxdomain(c, d, t, 0, stored), d, t, now) is None,
{
    lemma_nxdomain_stored(c, d, t, 0, stored);
}

/// After record `r` is stored, the entry for its name is found and its set for
/// the record's type holds `r`.
proof fn lemma_record_stored(c: Seq<DomainView>, r: RecordView, now: i64)
    requires
        !(r is Unknown),
    ensures
        ({
            let d = record_domain(r);
            let t = record_qtype(r);
            let c2 = cache_store_record(c, r, now);
            match find_domain(c2, d, 0) {
                Some(i) => 0 <= i < c2.len() && match find_set(c2[i].sets, t, 0) {
                    Some(j) => 0 <= j < c2[i].sets.len() && c2[i].sets[j] is Records && find_entry(
                        set_records(c2[i], t),
                        r,
                        0,
                    ) is Some,
                    None => false,
                },
                None => false,
            }
        }),
{
    let d = record_domain(r);
    let t = record_qtype(r);
    let entry = EntryView { record: r, timestamp: now };
    let single = SetView::Records { qtype: t, records: seq![entry] };
    lemma_find_domain(c, d, 0);
    let e = match find_domain(c, d, 0) {
        Some(i) => c[i],
        None => crate::cache::new_domain(d),
    };
    let e2 = store_record_view(e, r, now);
    match find_domain(c, d, 0) {
        Some(i) => lemma_find_domain_update(c, d, i, e2, 0),
        None => lemma_find_domain_push(c, d, e2, 0),
    }
    lemma_find_set(e.sets, t, 0);
    match find_set(e.sets, t, 0) {
        Some(j) => match e.sets[j] {
            SetView::Records { qtype, records } => {
                let s2 = SetView::Records { qtype, records: upsert(records, entry) };
                lemma_find_set_update(e.sets, t, j, s2, 0);
                lemma_find_entry(records, r, 0);
                match find_entry(records, r, 0) {
                    Some(k) => lemma_find_entry_exists(records.update(k, entry), r, k, 0),
                    None => lemma_find_entry_exists(records.push(entry), r, records.len() as int, 0),
                }
            },
            SetView::NoRecords { .. } => {
                lemma_find_set_update(e.sets, t, j, single, 0);
                lemma_find_entry_exists(seq![entry], r, 0, 0);
            },
        },
        None => {
            lemma_find_set_push(e.sets, t, single, 0);
            lemma_find_entry_exists(seq![entry], r, 0, 0);
        },
    }
}

/// Storing a record that the cache already holds replaces its entry: the set for
/// its type keeps its size, and the name counts one more update.
pub proof fn law_restore_replaces(c: Seq<DomainView>, r: RecordView, first: i64, second: i64)
    requires
        !(r is Unknown),
    ensures
        ({
            let d = record_domain(r);
            let t = record_qtype(r);
            let c1 = cache_store_record(c, r, first);
            let c2 = cache_store_record(c1, r, second);
            find_domain(c1, d, 0) matches Some(i) && find_domain(c2, d, 0) == Some(i)
                && set_records(c2[i], t).len() == set_records(c1[i], t).len()
                && c2[i].updates == bump(c1[i].updates)
        }),
{
    let d = record_domain(r);
    let t = record_qtype(r);
    let c1 = cache_store_record(c, r, first);
    lemma_record_stored(c, r, first);
    lemma_find_domain(c1, d, 0);
    let i = find_domain(c1, d, 0)->Some_0;
    let e = c1[i];
    let entry = EntryView { record: r, timestamp: second };
    let e2 = store_record_view(e, r, second);
    lemma_find_domain_update(c1, d, i, e2, 0);
    let j = find_set(e.sets, t, 0)->Some_0;
    let records = set_records(e, t);
    let s2 = SetView::Records { qtype: set_qtype(e.sets[j]), records: upsert(records, entry) };
    lemma_find_set(e.sets, t, 0);
    lemma_find_set_update(e.sets, t, j, s2, 0);
    lemma_find_entry(records, r, 0);
    assert(upsert(records, entry).len() == records.len());
}

/// Storing a record twice in a cache with no entry for its name leaves one entry
/// in the set for its type, holding the record as stored the second time, and
/// two updates for the name.
pub proof fn law_store_twice_keeps_one(c: Seq<DomainView>, r: RecordView, first: i64, second: i64)
    requires
        !(r is Unknown),
        find_domain(c, record_domain(r), 0) is None,
    ensures
        ({
            let d = record_domain(r);
            let t = record_qtype(r);
            let c2 = cache_store_record(cache_store_record(c, r, first), r, second);
            find_domain(c2, d, 0) matches Some(i) && set_records(c2[i], t) == seq![
                EntryView { record: r, timestamp: second },
            ] && c2[i].updates == 2
        }),
{
    let d = record_domain(r);
    let t = record_qtype(r);
    let e1 = store_record_view(crate::cache::new_domain(d), r, first);
    let c1 = c.push(e1);
    lemma_find_domain_push(c, d, e1, 0);
    let entry1 = EntryView { record: r, timestamp: first };
    let entry2 = EntryView { record: r, timestamp: second };
    let s1 = SetView::Records { qtype: t, records: seq![entry1] };
    lemma_find_set_push(Seq::<SetView>::empty(), t, s1, 0);
    assert(e1.sets == seq![s1]);
    let i = c.len() as int;
    let e2 = store_record_view(e1, r, second);
    lemma_find_domain_update(c1, d, i, e2, 0);
    assert(find_entry(seq![entry1], r, 0) == Some(0int));
    assert(upsert(seq![entry1], entry2) == seq![entry2]);
    let s2 = SetView::Records { qtype: t, records: seq![entry2] };
    lemma_find_set_update(seq![s1], t, 0, s2, 0);
}

/// A lookup counts one hit for the name when it gives records, however many, and
/// changes nothing when it gives a negative answer or nothing.
pub proof fn law_hits_count_positive_lookups(c: Seq<DomainView>, d: Seq<char>, t: QueryType, now: i64)
    ensures
        cache_state(c, d, t, now) == CacheState::PositiveCache ==> (find_domain(c, d, 0) matches Some(i)
            && cache_after_lookup(c, d, t, now) == c.update(i, DomainView { hits: bump(c[i].hits), ..c[i] })),
        cache_state(c, d, t, now) == CacheState::PositiveCache ==> (lookup_result(c, d, t, now) matches Some(p)
            && p.header.rcode == RCode::NOERROR),
        cache_state(c, d, t, now) == CacheState::NegativeCache ==> cache_after_lookup(c, d, t, now) == c,
        cache_state(c, d, t, now) == CacheState::NegativeCache ==> (lookup_result(c, d, t, now) matches Some(p)
            && p.header.rcode == RCode::NXDOMAIN),
        cache_state(c, d, t, now) == CacheState::NotCached ==> cache_after_lookup(c, d, t, now) == c
            && lookup_result(c, d, t, now) is None,
{
}


proof fn lemma_find_domain_none(c: Seq<DomainView>, d: Seq<char>, from: int)
    requires
        0 <= from,
        find_domain(c, d, from) is None,
    ensures
        forall|k: int| from <= k < c.len() ==> c[k].domain != d,
    decreases c.len() - from,
{
    if from < c.len() {
        lemma_find_domain_none(c, d, from + 1);
    }
}

proof fn lemma_find_set_none(sets: Seq<SetView>, t: QueryType, from: int)
    requires
        0 <= from,
        find_set(sets, t, from) is None,
    ensures
        forall|k: int| from <= k < sets.len() ==> set_qtype(sets[k]) != t,
    decreases sets.len() - from,
{
    if from < sets.len() {
        lemma_find_set_none(sets, t, from + 1);
    }
}

proof fn lemma_find_entry_none(entries: Seq<EntryView>, r: RecordView, from: int)
    requires
        0 <= from,
        find_entry(entries, r, from) is None,
    ensures
        forall|k: int| from <= k < entries.len() ==> entries[k].record != r,
    decreases entries.len() - from,
{
    if from < entries.len() {
        lemma_find_entry_none(entries, r, from + 1);
    }
}

proof fn lemma_upsert_wf(qtype: QueryType, records: Seq<EntryView>, e: EntryView)
    requires
        set_wf(SetView::Records { qtype, records }),
        record_qtype(e.record) == qtype,
    ensures
        set_wf(SetView::Records { qtype, records: upsert(records, e) }),
{
    lemma_find_entry(records, e.record, 0);
    match find_entry(records, e.record, 0) {
        Some(j) => {
            let out = records.update(j, e);
            assert forall|a: int, b: int| 0 <= a < b < out.len() implies #[trigger] out[a].record
                != #[trigger] out[b].record by {
                assert(records[a].record != records[b].record);
            }
        },
        None => {
            lemma_find_entry_none(records, e.record, 0);
            let out = records.push(e);
            assert forall|a: int, b: int| 0 <= a < b < out.len() implies #[trigger] out[a].record
                != #[trigger] out[b].record by {
                if b < records.len() {
                    assert(records[a].record != records[b].record);
                }
            }
        },
    }
}

proof fn lemma_sets_replace_wf(sets: Seq<SetView>, t: QueryType, s: SetView, out: Seq<SetView>)
    requires
        out == match find_set(sets, t, 0) {
            Some(i) => sets.update(i, s),
            None => sets.push(s),
        },
        forall|i: int, j: int|
            0 <= i < j < sets.len() ==> set_qtype(#[trigger] sets[i]) != set_qtype(#[trigger] sets[j]),
        forall|i: int| 0 <= i < sets.len() ==> set_wf(#[trigger] sets[i]),
        set_qtype(s) == t,
        set_wf(s),
    ensures
        forall|i: int, j: int|
            0 <= i < j < out.len() ==> set_qtype(#[trigger] out[i]) != set_qtype(#[trigger] out[j]),
        forall|i: int| 0 <= i < out.len() ==> set_wf(#[trigger] out[i]),
{
    lemma_find_set(sets, t, 0);
    match find_set(sets, t, 0) {
        Some(k) => {
            assert forall|i: int, j: int| 0 <= i < j < out.len() implies set_qtype(#[trigger] out[i])
                != set_qtype(#[trigger] out[j]) by {
                assert(set_qtype(sets[i]) != set_qtype(sets[j]));
            }
        },
        None => {
            lemma_find_set_none(sets, t, 0);
            assert forall|i: int, j: int| 0 <= i < j < out.len() implies set_qtype(#[trigger] out[i])
                != set_qtype(#[trigger] out[j]) by {
                if j < sets.len() {
                    assert(set_qtype(sets[i]) != set_qtype(sets[j]));
                }
            }
        },
    }
}

/// Storing a record keeps a name's entry well formed.
pub proof fn lemma_store_record_wf(e: DomainView, r: RecordView, now: i64)
    requires
        domain_wf(e),
    ensures
        domain_wf(store_record_view(e, r, now)),
{
    let t = record_qtype(r);
    let entry = EntryView { record: r, timestamp: now };
    let single = SetView::Records { qtype: t, records: seq![entry] };
    lemma_find_set(e.sets, t, 0);
    match find_set(e.sets, t, 0) {
        Some(i) => match e.sets[i] {
            SetView::Records { qtype, records } => {
                lemma_upsert_wf(qtype, records, entry);
                lemma_sets_replace_wf(
                    e.sets,
                    t,
                    SetView::Records { qtype, records: upsert(records, entry) },
                    store_record_view(e, r, now).sets,
                );
            },
            SetView::NoRecords { .. } => {
                lemma_sets_replace_wf(e.sets, t, single, store_record_view(e, r, now).sets);
            },
        },
        None => {
            lemma_sets_replace_wf(e.sets, t, single, store_record_view(e, r, now).sets);
        },
    }
}

/// Storing a negative entry keeps a name's entry well formed.
pub proof fn lemma_store_nxdomain_wf(e: DomainView, t: QueryType, ttl: u32, now: i64)
    requires
        domain_wf(e),
    ensures
        domain_wf(store_nxdomain_view(e, t, ttl, now)),
{
    lemma_sets_replace_wf(
        e.sets,
        t,
        SetView::NoRecords { qtype: t, ttl, timestamp: now },
        store_nxdomain_view(e, t, ttl, now).sets,
    );
}

proof fn lemma_cache_replace_wf(c: Seq<DomainView>, d: Seq<char>, e: DomainView, fresh_entry: DomainView)
    requires
        cache_wf(c),
        find_domain(c, d, 0) matches Some(i) ==> e.domain == d && domain_wf(e),
        fresh_entry.domain == d,
        domain_wf(fresh_entry),
    ensures
        cache_wf(match find_domain(c, d, 0) {
            Some(i) => c.update(i, e),
            None => c.push(fresh_entry),
        }),
{
    lemma_find_domain(c, d, 0);
    match find_domain(c, d, 0) {
        Some(k) => {
            let out = c.update(k, e);
            assert forall|i: int, j: int| 0 <= i < j < out.len() implies #[trigger] out[i].domain
                != #[trigger] out[j].domain by {
                assert(c[i].domain != c[j].domain);
            }
        },
        None => {
            lemma_find_domain_none(c, d, 0);
            let out = c.push(fresh_entry);
            assert forall|i: int, j: int| 0 <= i < j < out.len() implies #[trigger] out[i].domain
                != #[trigger] out[j].domain by {
                if j < c.len() {
                    assert(c[i].domain != c[j].domain);
                }
            }
        },
    }
}

/// A negative entry keeps the cache well formed.
pub proof fn lemma_cache_store_nxdomain_wf(c: Seq<DomainView>, d: Seq<char>, t: QueryType, ttl: u32, now: i64)
    requires
        cache_wf(c),
    ensures
        cache_wf(cache_store_nxdomain(c, d, t, ttl, now)),
{
    lemma_find_domain(c, d, 0);
    let fresh_entry = store_nxdomain_view(new_domain(d), t, ttl, now);
    lemma_store_nxdomain_wf(new_domain(d), t, ttl, now);
    match find_domain(c, d, 0) {
        Some(i) => {
            lemma_store_nxdomain_wf(c[i], t, ttl, now);
            lemma_cache_replace_wf(c, d, store_nxdomain_view(c[i], t, ttl, now), fresh_entry);
        },
        None => {
            lemma_cache_replace_wf(c, d, fresh_entry, fresh_entry);
        },
    }
}

/// Storing records keeps the cache well formed.
pub proof fn lemma_cache_store_wf(c: Seq<DomainView>, rs: Seq<RecordView>, now: i64)
    requires
        cache_wf(c),
    ensures
        cache_wf(cache_store(c, rs, now)),
    decreases rs.len(),
{
    if rs.len() > 0 {
        lemma_cache_store_wf(c, rs.drop_last(), now);
        let c1 = cache_store(c, rs.drop_last(), now);
        let r = rs.last();
        if !(r is Unknown) {
            let d = record_domain(r);
            lemma_find_domain(c1, d, 0);
            let fresh_entry = store_record_view(new_domain(d), r, now);
            lemma_store_record_wf(new_domain(d), r, now);
            match find_domain(c1, d, 0) {
                Some(i) => {
                    lemma_store_record_wf(c1[i], r, now);
                    lemma_cache_replace_wf(c1, d, store_record_view(c1[i], r, now), fresh_entry);
                },
                None => {
                    lemma_cache_replace_wf(c1, d, fresh_entry, fresh_entry);
                },
            }
        }
    }
}

/// A lookup keeps the cache well formed.
pub proof fn lemma_cache_lookup_wf(c: Seq<DomainView>, d: Seq<char>, t: QueryType, now: i64)
    requires
        cache_wf(c),
    ensures
        cache_wf(cache_after_lookup(c, d, t, now)),
{
    lemma_find_domain(c, d, 0);
    match find_domain(c, d, 0) {
        Some(k) => {
            let out = cache_after_lookup(c, d, t, now);
            assert forall|i: int, j: int| 0 <= i < j < out.len() implies #[trigger] out[i].domain
                != #[trigger] out[j].domain by {
                assert(c[i].domain != c[j].domain);
            }
            assert forall|i: int| 0 <= i < out.len() implies domain_wf(#[trigger] out[i]) by {
                assert(domain_wf(c[i]));
            }
        },
        None => {},
    }
}


/// In a well-formed cache, storing a record leaves exactly one entry holding it
/// in its name's set for its type, however often it was stored before.
pub proof fn law_stored_once(c: Seq<DomainView>, r: RecordView, now: i64)
    requires
        cache_wf(c),
        !(r is Unknown),
    ensures
        ({
            let c2 = cache_store_record(c, r, now);
            let d = record_domain(r);
            let t = record_qtype(r);
            &&& cache_wf(c2)
            &&& (find_domain(c2, d, 0) matches Some(i) && find_entry(set_records(c2[i], t), r, 0)
                matches Some(k) && forall|j: int|
                0 <= j < set_records(c2[i], t).len() && #[trigger] set_records(c2[i], t)[j].record == r
                    ==> j == k)
        }),
{
    let c2 = cache_store_record(c, r, now);
    let d = record_domain(r);
    let t = record_qtype(r);
    assert(seq![r].drop_last() =~= Seq::<RecordView>::empty());
    assert(seq![r].last() == r);
    assert(cache_store(c, Seq::<RecordView>::empty(), now) == c);
    assert(cache_store(c, seq![r], now) == cache_store_record(
        cache_store(c, seq![r].drop_last(), now),
        seq![r].last(),
        now,
    ));
    assert(cache_store(c, seq![r], now) == c2);
    lemma_cache_store_wf(c, seq![r], now);
    lemma_record_stored(c, r, now);
    lemma_find_domain(c2, d, 0);
    let i = find_domain(c2, d, 0)->Some_0;
    let e = c2[i];
    assert(domain_wf(e));
    lemma_find_set(e.sets, t, 0);
    let j = find_set(e.sets, t, 0)->Some_0;
    assert(set_wf(e.sets[j]));
    let records = set_records(e, t);
    lemma_find_entry(records, r, 0);
    let k = find_entry(records, r, 0)->Some_0;
    assert forall|m: int| 0 <= m < records.len() && #[trigger] records[m].record == r implies m == k by {
        if m < k {
            assert(records[m].record != records[k].record);
        } else if m > k {
            assert(records[k].record != records[m].record);
        }
    }
}

} // verus!
