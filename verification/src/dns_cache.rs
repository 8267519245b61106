//! The proxy's response cache: an explicit expiring map from queried domain
//! name to the resolver's true records. An entry lives thirty seconds from
//! insertion, independent of later lookups; the cache holds at most ten live
//! entries and, when full, evicts the oldest. Time is passed in by the
//! caller as milliseconds, so expiry is part of the verified contract.
use vstd::prelude::*;

use crate::text::bytes_eq;
use crate::dns_wire::{DnsRecord, RecordModel, record_views};

verus! {

/// Milliseconds an entry stays live after insertion.
pub const CACHE_TTL_MS: u64 = 30000;

/// Most entries the cache will hold at once.
pub const CACHE_CAPACITY: usize = 10;

pub struct CacheEntry {
    pub key: Vec<u8>,
    pub records: Vec<DnsRecord>,
    pub expires_at: u64,
}

/// The expiring map, oldest entry first.
pub struct DnsCache {
    pub entries: Vec<CacheEntry>,
}

/// The entry stored under `key`, if any.
pub open spec fn spec_find(es: Seq<CacheEntry>, key: Seq<u8>) -> Option<CacheEntry>
    decreases es.len(),
{
    if es.len() == 0 {
        Option::None
    } else if es[0].key@ == key {
        Option::Some(es[0])
    } else {
        spec_find(es.drop_first(), key)
    }
}

proof fn lemma_find_at(es: Seq<CacheEntry>, key: Seq<u8>, i: int)
    requires
        0 <= i < es.len(),
        es[i].key@ == key,
        forall|j: int| 0 <= j < i ==> es[j].key@ != key,
    ensures
        spec_find(es, key) == Option::Some(es[i]),
    decreases i,
{
    if i > 0 {
        lemma_find_at(es.drop_first(), key, i - 1);
    }
}

proof fn lemma_find_none(es: Seq<CacheEntry>, key: Seq<u8>)
    requires
        forall|j: int| 0 <= j < es.len() ==> es[j].key@ != key,
    ensures
        spec_find(es, key) is None,
    decreases es.len(),
{
    if es.len() > 0 {
        lemma_find_none(es.drop_first(), key);
    }
}

/// `b` is one of the recorded source indices.
pub open spec fn in_srcs(srcs: Seq<int>, b: int) -> bool {
    exists|a: int| 0 <= a < srcs.len() && srcs[a] == b
}

proof fn lemma_in_srcs_push(srcs: Seq<int>, x: int, b: int)
    requires
        in_srcs(srcs, b),
    ensures
        in_srcs(srcs.push(x), b),
{
    let a = choose|a: int| 0 <= a < srcs.len() && srcs[a] == b;
    assert(srcs.push(x)[a] == b);
}

/// The entry `e` sits at `idx`, and no earlier entry carries `key`.
pub open spec fn found_at(es: Seq<CacheEntry>, key: Seq<u8>, e: CacheEntry, idx: int) -> bool {
    &&& 0 <= idx < es.len()
    &&& es[idx] == e
    &&& e.key@ == key
    &&& forall|j: int| 0 <= j < idx ==> es[j].key@ != key
}

proof fn lemma_find_index(es: Seq<CacheEntry>, key: Seq<u8>) -> (idx: int)
    ensures
        spec_find(es, key) matches Option::Some(e) ==> found_at(es, key, e, idx),
        spec_find(es, key) is None ==> forall|j: int| 0 <= j < es.len() ==> es[j].key@ != key,
    decreases es.len(),
{
    if es.len() == 0 {
        0
    } else if es[0].key@ == key {
        0
    } else {
        let sub = lemma_find_index(es.drop_first(), key);
        match spec_find(es.drop_first(), key) {
            Option::Some(e) => {
                assert(es[sub + 1] == es.drop_first()[sub]);
                assert forall|j: int| 0 <= j < sub + 1 implies es[j].key@ != key by {
                    if j > 0 {
                        assert(es[j] == es.drop_first()[j - 1]);
                    }
                }
                assert(found_at(es, key, e, sub + 1));
            },
            Option::None => {
                assert forall|j: int| 0 <= j < es.len() implies es[j].key@ != key by {
                    if j > 0 {
                        assert(es[j] == es.drop_first()[j - 1]);
                    }
                }
            },
        }
        sub + 1
    }
}

impl DnsCache {
    /// Keys are unique and the capacity bound holds.
    pub open spec fn wf(&self) -> bool {
        &&& self.entries@.len() <= CACHE_CAPACITY
        &&& forall|i: int, j: int|
            0 <= i < j < self.entries@.len() ==> self.entries@[i].key@ != self.entries@[j].key@
    }

    /// The records live under `key` at time `now`: present if and only if an
    /// entry exists and has not yet reached its expiry instant.
    pub open spec fn spec_get(&self, key: Seq<u8>, now: u64) -> Option<Seq<RecordModel>> {
        match spec_find(self.entries@, key) {
            Option::Some(e) => if now < e.expires_at {
                Option::Some(record_views(e.records@))
            } else {
                Option::None
            },
            Option::None => Option::None,
        }
    }

    pub fn new() -> (c: DnsCache)
        ensures
            c.wf(),
            c.entries@.len() == 0,
            forall|key: Seq<u8>, now: u64| c.spec_get(key, now) is None,
    {
        let c = DnsCache { entries: Vec::new() };
        proof {
            assert forall|key: Seq<u8>, now: u64| c.spec_get(key, now) is None by {
                lemma_find_none(c.entries@, key);
            }
        }
        c
    }

    pub fn len(&self) -> (n: usize)
        ensures
            n == self.entries@.len(),
    {
        self.entries.len()
    }

    /// Look `key` up at time `now`.
    pub fn get(&self, key: &Vec<u8>, now: u64) -> (r: Option<&Vec<DnsRecord>>)
        requires
            self.wf(),
        ensures
            match (r, self.spec_get(key@, now)) {
                (Some(v), Some(m)) => record_views(v@) == m,
                (None, None) => true,
                _ => false,
            },
    {
        let n: usize = self.entries.len();
        let mut i: usize = 0;
        while i < n
            invariant
                i <= n,
                n == self.entries@.len(),
                self.wf(),
                forall|j: int| 0 <= j < i ==> self.entries@[j].key@ != key@,
            decreases n - i,
        {
            let e = &self.entries[i];
            if bytes_eq(e.key.as_slice(), key.as_slice()) {
                proof {
                    lemma_find_at(self.entries@, key@, i as int);
                }
                if now < e.expires_at {
                    return Some(&e.records);
                } else {
                    return None;
                }
            }
            i = i + 1;
        }
        proof {
            lemma_find_none(self.entries@, key@);
        }
        None
    }

    /// Insert the resolver's records for `key` at time `now`. Any previous
    /// entry under the same key is replaced, entries already expired at `now`
    /// are dropped, and if the cache is still full the oldest entry is
    /// evicted. The new entry answers lookups until `now + CACHE_TTL_MS` and
    /// never after.
    pub fn insert(&mut self, key: Vec<u8>, records: Vec<DnsRecord>, now: u64)
        requires
            old(self).wf(),
            now <= u64::MAX - CACHE_TTL_MS,
        ensures
            final(self).wf(),
            final(self).entries@.len() >= 1,
            forall|t: u64|
                t < now + CACHE_TTL_MS ==> final(self).spec_get(key@, t) == Option::Some(
                    record_views(records@),
                ),
            forall|t: u64|
                t >= now + CACHE_TTL_MS ==> final(self).spec_get(key@, t) is None,
            old(self).entries@.len() < CACHE_CAPACITY ==> forall|k2: Seq<u8>, t: u64|
                k2 != key@ && t >= now ==> final(self).spec_get(k2, t) == old(self).spec_get(
                    k2,
                    t,
                ),
    {
        let n: usize = self.entries.len();
        let mut kept: Vec<CacheEntry> = Vec::new();
        let ghost mut srcs: Seq<int> = Seq::empty();
        let mut i: usize = 0;
        while i < n
            invariant
                i <= n,
                n == old(self).entries@.len(),
                self.entries@ == old(self).entries@,
                old(self).wf(),
                srcs.len() == kept@.len(),
                kept@.len() <= i,
                forall|a: int|
                    0 <= a < srcs.len() ==> 0 <= #[trigger] srcs[a] < i && kept@[a].key@ == old(
                        self,
                    ).entries@[srcs[a]].key@ && record_views(kept@[a].records@) == record_views(
                        old(self).entries@[srcs[a]].records@,
                    ) && kept@[a].expires_at == old(self).entries@[srcs[a]].expires_at && old(
                        self,
                    ).entries@[srcs[a]].expires_at > now,
                forall|b: int|
                    0 <= b < i && old(self).entries@[b].key@ != key@ && old(
                        self,
                    ).entries@[b].expires_at > now ==> in_srcs(srcs, b),
                forall|a: int, b: int| 0 <= a < b < srcs.len() ==> srcs[a] < srcs[b],
                forall|a: int| 0 <= a < kept@.len() ==> #[trigger] kept@[a].key@ != key@,
            decreases n - i,
        {
            let e = &self.entries[i];
            let same = bytes_eq(e.key.as_slice(), key.as_slice());
            let expired = e.expires_at <= now;
            if !same && !expired {
                let ghost pre = kept@;
                kept.push(
                    CacheEntry {
                        key: crate::directive::copy_bytes(&e.key),
                        records: take_records(&e.records),
                        expires_at: e.expires_at,
                    },
                );
                proof {
                    let ghost srcs0 = srcs;
                    srcs = srcs.push(i as int);
                    assert(kept@.drop_last() =~= pre);
                    assert(kept@.last().key@ == old(self).entries@[i as int].key@);
                    assert(forall|a: int| 0 <= a < pre.len() ==> kept@[a] == pre[a]);
                    assert forall|b: int|
                        0 <= b < i + 1 && old(self).entries@[b].key@ != key@ && old(
                            self,
                        ).entries@[b].expires_at > now implies in_srcs(srcs, b) by {
                        if b < i {
                            lemma_in_srcs_push(srcs0, i as int, b);
                        } else {
                            assert(srcs[srcs.len() - 1] == i as int);
                        }
                    }
                }
            }
            i = i + 1;
        }
        proof {
            assert forall|a: int, b: int|
                0 <= a < b < kept@.len() implies kept@[a].key@ != kept@[b].key@ by {
                assert(srcs[a] < srcs[b] < n);
                assert(old(self).entries@[srcs[a]].key@ != old(self).entries@[srcs[b]].key@);
            }
        }
        let ghost full = kept@.len() >= CACHE_CAPACITY;
        if kept.len() >= CACHE_CAPACITY {
            kept.remove(0);
        }
        let ghost pre = kept@;
        kept.push(CacheEntry { key, records, expires_at: now + CACHE_TTL_MS });
        self.entries = kept;
        proof {
            assert(self.entries@.drop_last() =~= pre);
            let last = self.entries@.len() - 1;
            assert(self.entries@[last].key@ == key@);
            assert forall|t: u64|
                t < now + CACHE_TTL_MS implies final(self).spec_get(key@, t) == Option::Some(
                record_views(records@),
            ) by {
                lemma_find_at(self.entries@, key@, last);
            }
            assert forall|t: u64|
                t >= now + CACHE_TTL_MS implies final(self).spec_get(key@, t) is None by {
                lemma_find_at(self.entries@, key@, last);
            }
            if old(self).entries@.len() < CACHE_CAPACITY {
                assert(!full);
                assert forall|k2: Seq<u8>, t: u64|
                    k2 != key@ && t >= now implies final(self).spec_get(k2, t) == old(
                    self,
                ).spec_get(k2, t) by {
                    let idx = lemma_find_index(old(self).entries@, k2);
                    match spec_find(old(self).entries@, k2) {
                        Option::Some(e) => {
                            if e.expires_at > now {
                                assert(in_srcs(srcs, idx));
                                let a = choose|a: int|
                                    0 <= a < srcs.len() && srcs[a] == idx;
                                assert(self.entries@[a] == pre[a]);
                                assert(pre[a].key@ == k2);
                                assert forall|b: int|
                                    0 <= b < a implies self.entries@[b].key@ != k2 by {
                                    assert(self.entries@[b] == pre[b]);
                                    assert(pre[b].key@ == old(self).entries@[srcs[b]].key@);
                                    assert(srcs[b] < srcs[a]);
                                    assert(old(self).entries@[srcs[b]].key@ != old(
                                        self,
                                    ).entries@[idx].key@);
                                }
                                lemma_find_at(self.entries@, k2, a);
                                assert(spec_find(self.entries@, k2) == Option::Some(pre[a]));
                                assert(pre[a].expires_at == e.expires_at);
                                assert(record_views(pre[a].records@) == record_views(e.records@));
                            } else {
                                assert(t >= e.expires_at);
                                assert forall|b: int|
                                    0 <= b < self.entries@.len() implies self.entries@[b].key@
                                    != k2 by {
                                    if b < pre.len() {
                                        assert(self.entries@[b] == pre[b]);
                                        assert(pre[b].key@ == old(
                                            self,
                                        ).entries@[srcs[b]].key@);
                                        if pre[b].key@ == k2 {
                                            assert(srcs[b] == idx);
                                            assert(old(self).entries@[idx].expires_at > now);
                                        }
                                    } else {
                                        assert(self.entries@[b].key@ == key@);
                                    }
                                }
                                lemma_find_none(self.entries@, k2);
                            }
                        },
                        Option::None => {
                            assert forall|b: int|
                                0 <= b < self.entries@.len() implies self.entries@[b].key@
                                != k2 by {
                                if b < pre.len() {
                                    assert(self.entries@[b] == pre[b]);
                                    assert(pre[b].key@ == old(self).entries@[srcs[b]].key@);
                                } else {
                                    assert(self.entries@[b].key@ == key@);
                                }
                            }
                            lemma_find_none(self.entries@, k2);
                        },
                    }
                }
            }
        }
    }
}

/// A structurally equal copy of a record list.
fn take_records(rs: &Vec<DnsRecord>) -> (r: Vec<DnsRecord>)
    ensures
        record_views(r@) == record_views(rs@),
        r@.len() == rs@.len(),
{
    let n: usize = rs.len();
    let mut out: Vec<DnsRecord> = Vec::new();
    let mut i: usize = 0;
    while i < n
        invariant
            i <= n,
            n == rs@.len(),
            out@.len() == i,
            record_views(out@) =~= record_views(rs@).subrange(0, i as int),
        decreases n - i,
    {
        let e = &rs[i];
        let ghost pre = out@;
        out.push(
            DnsRecord {
                name: crate::dns_wire::DnsName {
                    labels: crate::directive::copy_tokens(&e.name.labels),
                },
                rtype: e.rtype,
                rclass: e.rclass,
                ttl: e.ttl,
                rdata: crate::directive::copy_bytes(&e.rdata),
            },
        );
        proof {
            assert(out@.drop_last() =~= pre);
            assert(out@.last()@ == rs@[i as int]@);
            assert(record_views(out@) =~= record_views(rs@).subrange(0, i + 1));
        }
        i = i + 1;
    }
    proof {
        assert(record_views(rs@).subrange(0, n as int) =~= record_views(rs@));
    }
    out
}

} // verus!
