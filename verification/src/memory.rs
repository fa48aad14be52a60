//! The in-memory storage backend: a concurrent map with lazy expiry, an
//! exact entry counter, and a sweep that removes currently-expired records.

use vstd::prelude::*;
use crate::kvmap::{KvMap, kv_contents};
use crate::storage::{StorageValue, RecModel, StorageError, spec_expired, sat_add, now_millis};

verus! {

broadcast use vstd::std_specs::vec::group_vec_axioms;

/// What a read of `k` at instant `now` returns: the payload when the key
/// holds an unexpired record, absent otherwise.
pub open spec fn lookup_res(m: Map<Seq<u8>, RecModel>, k: Seq<u8>, now: u64) -> Option<Seq<u8>> {
    if m.contains_key(k) && !spec_expired(m[k], now) {
        Some(m[k].data)
    } else {
        None
    }
}

/// What a read of `k` at instant `now` leaves behind: an expired record
/// is evicted, anything else is untouched.
pub open spec fn lookup_after(m: Map<Seq<u8>, RecModel>, k: Seq<u8>, now: u64)
    -> Map<Seq<u8>, RecModel> {
    if m.contains_key(k) && spec_expired(m[k], now) {
        m.remove(k)
    } else {
        m
    }
}

/// What a sweep at instant `now` leaves: exactly the unexpired records.
pub open spec fn sweep_spec(m: Map<Seq<u8>, RecModel>, now: u64) -> Map<Seq<u8>, RecModel> {
    Map::new(
        |k: Seq<u8>| m.dom().contains(k) && !spec_expired(m[k], now),
        |k: Seq<u8>| m[k],
    )
}

/// In-memory storage backend over a concurrent hash map.
///
/// Expiry is lazy: reads evict the expired records they encounter, and
/// `cleanup_expired` sweeps the rest. The entry counter makes
/// `keys_count` O(1); it counts entries still in the map, expired but
/// unswept ones included, and converges to the exact live count once
/// they are swept.
pub struct MemoryStorage {
    data: KvMap,
    approximate_count: usize,
}

impl View for MemoryStorage {
    type V = Map<Seq<u8>, RecModel>;

    /// The records the backend holds.
    closed spec fn view(&self) -> Map<Seq<u8>, RecModel> {
        kv_contents(self.data)
    }
}

impl MemoryStorage {
    /// The backend's invariant: the domain is finite and the counter is
    /// exactly the number of entries.
    pub closed spec fn wf(&self) -> bool {
        self@.dom().finite() && self.approximate_count == self@.len()
    }

    /// A fresh, empty backend.
    pub fn new() -> (r: Self)
        ensures
            r.wf(),
            r@ == Map::<Seq<u8>, RecModel>::empty(),
    {
        let r = MemoryStorage { data: KvMap::new(), approximate_count: 0 };
        proof {
            assert(r@ =~= Map::<Seq<u8>, RecModel>::empty());
            assert(r@.dom() =~= Set::<Seq<u8>>::empty());
        }
        r
    }

    /// A fresh, empty backend; the sweep interval is the embedding
    /// runtime's concern, which drives `cleanup_expired` on its ticks.
    pub fn new_with_cleanup_interval(_cleanup_interval_ms: u64) -> (r: Self)
        ensures
            r.wf(),
            r@ == Map::<Seq<u8>, RecModel>::empty(),
    {
        Self::new()
    }

    /// Store a key-value pair without expiry, replacing any prior record,
    /// its expiry included.
    pub fn set(&mut self, key: &Vec<u8>, value: &Vec<u8>) -> (r: Result<(), StorageError>)
        requires
            old(self).wf(),
            old(self)@.len() < usize::MAX,
        ensures
            final(self).wf(),
            final(self)@ == old(self)@.insert(key@, RecModel { data: value@, expires_at: None }),
            r is Ok,
    {
        let is_new = match self.data.get(key) {
            Some(_) => false,
            None => true,
        };
        let stored = StorageValue::new(crate::resp::copy_bytes(value));
        self.data.insert(crate::resp::copy_bytes(key), stored);
        if is_new {
            self.approximate_count = self.approximate_count + 1;
        }
        Ok(())
    }

    /// Store a key-value pair that expires `ttl_ms` milliseconds after
    /// the instant `now_ms`, replacing any prior record.
    pub fn set_with_expiry_at(&mut self, key: &Vec<u8>, value: &Vec<u8>, now_ms: u64, ttl_ms: u64)
        -> (r: Result<(), StorageError>)
        requires
            old(self).wf(),
            old(self)@.len() < usize::MAX,
        ensures
            final(self).wf(),
            final(self)@ == old(self)@.insert(
                key@,
                RecModel { data: value@, expires_at: Some(sat_add(now_ms, ttl_ms)) },
            ),
            r is Ok,
    {
        let is_new = match self.data.get(key) {
            Some(_) => false,
            None => true,
        };
        let stored = StorageValue::new_with_expiry_at(crate::resp::copy_bytes(value), now_ms,
            ttl_ms);
        self.data.insert(crate::resp::copy_bytes(key), stored);
        if is_new {
            self.approximate_count = self.approximate_count + 1;
        }
        Ok(())
    }

    /// Store a key-value pair that expires `ttl_ms` milliseconds from now.
    pub fn set_with_expiry(&mut self, key: &Vec<u8>, value: &Vec<u8>, ttl_ms: u64)
        -> (r: Result<(), StorageError>)
        requires
            old(self).wf(),
            old(self)@.len() < usize::MAX,
        ensures
            final(self).wf(),
            exists|n: u64| final(self)@ == old(self)@.insert(
                key@,
                RecModel { data: value@, expires_at: Some(sat_add(n, ttl_ms)) },
            ),
            r is Ok,
    {
        let now = now_millis();
        let r = self.set_with_expiry_at(key, value, now, ttl_ms);
        proof {
            assert(self@ == old(self)@.insert(
                key@,
                RecModel { data: value@, expires_at: Some(sat_add(now, ttl_ms)) },
            ));
        }
        r
    }

    /// Retrieve a value as of instant `now`: absent keys and expired
    /// records read as absent, and an expired record is evicted.
    pub fn get_at(&mut self, key: &Vec<u8>, now: u64) -> (r: Result<Option<Vec<u8>>, StorageError>)
        requires
            old(self).wf(),
        ensures
            final(self).wf(),
            final(self)@ == lookup_after(old(self)@, key@, now),
            match r {
                Ok(Some(d)) => lookup_res(old(self)@, key@, now) == Some(d@),
                Ok(None) => lookup_res(old(self)@, key@, now) is None,
                Err(_) => false,
            },
    {
        match self.data.get(key) {
            Some(entry) => {
                if entry.is_expired_at(now) {
                    let removed = self.data.remove(key);
                    if removed {
                        self.approximate_count = self.approximate_count - 1;
                    }
                    Ok(None)
                } else {
                    Ok(Some(entry.data))
                }
            },
            None => Ok(None),
        }
    }

    /// Retrieve a value by key at the wall clock's present reading.
    pub fn get(&mut self, key: &Vec<u8>) -> (r: Result<Option<Vec<u8>>, StorageError>)
        requires
            old(self).wf(),
        ensures
            final(self).wf(),
            r is Ok,
            exists|n: u64|
                final(self)@ == lookup_after(old(self)@, key@, n) && (match r {
                    Ok(Some(d)) => lookup_res(old(self)@, key@, n) == Some(d@),
                    Ok(None) => lookup_res(old(self)@, key@, n) is None,
                    Err(_) => false,
                }),
    {
        let now = now_millis();
        let r = self.get_at(key, now);
        proof {
            assert(final(self)@ == lookup_after(old(self)@, key@, now));
        }
        r
    }

    /// Delete a key, expired or not. Returns whether a record existed.
    pub fn delete(&mut self, key: &Vec<u8>) -> (r: Result<bool, StorageError>)
        requires
            old(self).wf(),
        ensures
            final(self).wf(),
            final(self)@ == old(self)@.remove(key@),
            r == Ok::<bool, StorageError>(old(self)@.contains_key(key@)),
    {
        let existed = self.data.remove(key);
        if existed {
            self.approximate_count = self.approximate_count - 1;
        }
        Ok(existed)
    }

    /// Whether a key holds an unexpired record as of instant `now`; an
    /// expired record encountered is evicted.
    pub fn exists_at(&mut self, key: &Vec<u8>, now: u64) -> (r: Result<bool, StorageError>)
        requires
            old(self).wf(),
        ensures
            final(self).wf(),
            final(self)@ == lookup_after(old(self)@, key@, now),
            r == Ok::<bool, StorageError>(lookup_res(old(self)@, key@, now) is Some),
    {
        match self.data.get(key) {
            Some(entry) => {
                if entry.is_expired_at(now) {
                    let removed = self.data.remove(key);
                    if removed {
                        self.approximate_count = self.approximate_count - 1;
                    }
                    Ok(false)
                } else {
                    Ok(true)
                }
            },
            None => Ok(false),
        }
    }

    /// Whether a key holds an unexpired record at the wall clock's
    /// present reading.
    pub fn key_exists(&mut self, key: &Vec<u8>) -> (r: Result<bool, StorageError>)
        requires
            old(self).wf(),
        ensures
            final(self).wf(),
            r is Ok,
            exists|n: u64|
                final(self)@ == lookup_after(old(self)@, key@, n)
                    && r == Ok::<bool, StorageError>(lookup_res(old(self)@, key@, n) is Some),
    {
        let now = now_millis();
        let r = self.exists_at(key, now);
        proof {
            assert(final(self)@ == lookup_after(old(self)@, key@, now));
        }
        r
    }

    /// The number of entries still in the map, in constant time. Expired
    /// but unswept records are counted until a read or a sweep removes
    /// them.
    pub fn keys_count(&self) -> (r: Result<usize, StorageError>)
        requires
            self.wf(),
        ensures
            r matches Ok(c) && c == self@.len(),
    {
        Ok(self.approximate_count)
    }

    /// Remove all records.
    pub fn flush(&mut self) -> (r: Result<(), StorageError>)
        requires
            old(self).wf(),
        ensures
            final(self).wf(),
            final(self)@ == Map::<Seq<u8>, RecModel>::empty(),
            r is Ok,
    {
        self.data.clear();
        self.approximate_count = 0;
        proof {
            assert(self@ =~= Map::<Seq<u8>, RecModel>::empty());
            assert(self@.dom() =~= Set::<Seq<u8>>::empty());
        }
        Ok(())
    }

    /// Sweep the map, removing every record expired as of instant `now`.
    pub fn cleanup_expired_at(&mut self, now: u64)
        requires
            old(self).wf(),
        ensures
            final(self).wf(),
            final(self)@ == sweep_spec(old(self)@, now),
    {
        let keys = self.data.keys();
        let n = keys.len();
        let ghost m0 = self@;
        let ghost ks = keys.deep_view();
        let mut i: usize = 0;
        while i < n
            invariant
                i <= n,
                n == ks.len(),
                ks == keys.deep_view(),
                keys@.len() == n,
                ks.no_duplicates(),
                forall|k: Seq<u8>| ks.contains(k) <==> m0.dom().contains(k),
                m0.dom().finite(),
                self.wf(),
                self@ == m0.remove_keys(expired_among(m0, ks.take(i as int), now)),
            decreases n - i,
        {
            let key = &keys[i];
            proof {
                assert(keys@[i as int].deep_view() =~= key@);
                assert(ks[i as int] == key@);
                assert(ks.contains(ks[i as int]));
            }
            let ghost processed = expired_among(m0, ks.take(i as int), now);
            let expired_here = match self.data.get(key) {
                Some(entry) => entry.is_expired_at(now),
                None => false,
            };
            proof {
                assert(!ks.take(i as int).contains(ks[i as int])) by {
                    if ks.take(i as int).contains(ks[i as int]) {
                        let j = choose|j: int| 0 <= j < i && #[trigger] ks.take(i as int)[j]
                            == ks[i as int];
                        assert(ks[j] == ks[i as int]);
                    }
                }
                assert(!processed.contains(ks[i as int]));
                assert(self@.contains_key(key@) <==> m0.contains_key(key@));
                if self@.contains_key(key@) {
                    assert(self@[key@] == m0[key@]);
                }
            }
            if expired_here {
                let removed = self.data.remove(key);
                if removed {
                    self.approximate_count = self.approximate_count - 1;
                }
                proof {
                    assert(expired_among(m0, ks.take(i + 1), now)
                        =~= processed.insert(ks[i as int])) by {
                        lemma_expired_among_step(m0, ks, i as int, now, true);
                    }
                    assert(self@ =~= m0.remove_keys(expired_among(m0, ks.take(i + 1), now)));
                }
            } else {
                proof {
                    assert(expired_among(m0, ks.take(i + 1), now) =~= processed) by {
                        lemma_expired_among_step(m0, ks, i as int, now, false);
                    }
                    assert(self@ =~= m0.remove_keys(expired_among(m0, ks.take(i + 1), now)));
                }
            }
            i = i + 1;
        }
        proof {
            assert(ks.take(n as int) =~= ks);
            assert(self@ =~= sweep_spec(m0, now)) by {
                assert forall|k: Seq<u8>| #[trigger] self@.dom().contains(k)
                    <==> sweep_spec(m0, now).dom().contains(k) by {
                    if m0.dom().contains(k) {
                        assert(ks.contains(k));
                    }
                }
            }
        }
    }

    /// Sweep the map at the wall clock's present reading.
    pub fn cleanup_expired(&mut self)
        requires
            old(self).wf(),
        ensures
            final(self).wf(),
            exists|n: u64| final(self)@ == sweep_spec(old(self)@, n),
    {
        let now = now_millis();
        self.cleanup_expired_at(now);
        proof {
            assert(self@ == sweep_spec(old(self)@, now));
        }
    }
}

/// What a flush leaves, whatever the state before: nothing.
pub open spec fn flush_spec(m: Map<Seq<u8>, RecModel>) -> Map<Seq<u8>, RecModel> {
    Map::empty()
}

/// Law: after `set(k, v)`, a read of `k` with no intervening write returns
/// `v` at every instant (the record has no expiry), and leaves the store
/// unchanged; after `delete(k)`, a read of `k` returns absent.
pub proof fn lemma_set_then_get(m: Map<Seq<u8>, RecModel>, k: Seq<u8>, v: Seq<u8>, now: u64)
    ensures
        lookup_res(m.insert(k, RecModel { data: v, expires_at: None }), k, now) == Some(v),
        lookup_after(m.insert(k, RecModel { data: v, expires_at: None }), k, now)
            == m.insert(k, RecModel { data: v, expires_at: None }),
        lookup_res(m.remove(k), k, now) is None,
        lookup_after(m.remove(k), k, now) == m.remove(k),
{
}

/// Law: at any one instant a key exists iff a read returns a value; both
/// are the same question of the same record, and both evict the same way.
pub proof fn lemma_exists_iff_get(m: Map<Seq<u8>, RecModel>, k: Seq<u8>, now: u64)
    ensures
        (lookup_res(m, k, now) is Some) <==> (m.contains_key(k) && !spec_expired(m[k], now)),
{
}

/// Law: `set(k, v); set(k, v)` is observationally equivalent to a single
/// `set(k, v)`: the store it leaves is the same.
pub proof fn lemma_set_idempotent(m: Map<Seq<u8>, RecModel>, k: Seq<u8>, r: RecModel)
    ensures
        m.insert(k, r).insert(k, r) == m.insert(k, r),
{
    assert(m.insert(k, r).insert(k, r) =~= m.insert(k, r));
}

/// Law: `delete(k); delete(k)` answers present-then-absent (or
/// absent-then-absent) and leaves the store without `k`.
pub proof fn lemma_delete_twice(m: Map<Seq<u8>, RecModel>, k: Seq<u8>)
    ensures
        !m.remove(k).contains_key(k),
        m.remove(k).remove(k) == m.remove(k),
{
    assert(m.remove(k).remove(k) =~= m.remove(k));
}

/// Law: `flush(); flush()` is equivalent to `flush()`: one flush already
/// leaves the empty store, whatever stood before.
pub proof fn lemma_flush_idempotent(m: Map<Seq<u8>, RecModel>)
    ensures
        flush_spec(flush_spec(m)) == flush_spec(m),
{
}

/// Law: after `set_with_expiry(k, v, ttl)` placed at instant `now`, any
/// read strictly later than the expiry returns absent and evicts the
/// record, and a sweep at such an instant leaves a store without `k`, so
/// the key count converges to exclude it.
pub proof fn lemma_expiry(m: Map<Seq<u8>, RecModel>, k: Seq<u8>, v: Seq<u8>, now: u64, ttl: u64,
    later: u64)
    requires
        later > sat_add(now, ttl),
    ensures
        lookup_res(m.insert(k, RecModel { data: v, expires_at: Some(sat_add(now, ttl)) }), k,
            later) is None,
        lookup_after(m.insert(k, RecModel { data: v, expires_at: Some(sat_add(now, ttl)) }), k,
            later) == m.insert(k, RecModel { data: v, expires_at: Some(sat_add(now, ttl)) })
            .remove(k),
        !sweep_spec(m.insert(k, RecModel { data: v, expires_at: Some(sat_add(now, ttl)) }),
            later).dom().contains(k),
{
}

/// The keys among `ks` whose records in `m` are expired at `now`.
pub open spec fn expired_among(m: Map<Seq<u8>, RecModel>, ks: Seq<Seq<u8>>, now: u64)
    -> Set<Seq<u8>> {
    Set::new(|k: Seq<u8>| ks.contains(k) && m.dom().contains(k) && spec_expired(m[k], now))
}

proof fn lemma_expired_among_step(m: Map<Seq<u8>, RecModel>, ks: Seq<Seq<u8>>, i: int, now: u64,
    expired: bool)
    requires
        0 <= i < ks.len(),
        expired == (m.dom().contains(ks[i]) && spec_expired(m[ks[i]], now)),
    ensures
        expired ==> expired_among(m, ks.take(i + 1), now)
            =~= expired_among(m, ks.take(i), now).insert(ks[i]),
        !expired ==> expired_among(m, ks.take(i + 1), now) =~= expired_among(m, ks.take(i), now),
{
    assert forall|k: Seq<u8>| #[trigger] ks.take(i + 1).contains(k) implies ks.take(i).contains(k)
        || k == ks[i] by {
        let j = choose|j: int| 0 <= j < i + 1 && #[trigger] ks.take(i + 1)[j] == k;
        if j < i {
            assert(ks.take(i)[j] == k);
        }
    }
    assert(ks.take(i + 1)[i] == ks[i]);
    assert forall|k: Seq<u8>| #[trigger] ks.take(i).contains(k) implies ks.take(i + 1).contains(k)
        by {
        let j = choose|j: int| 0 <= j < i && #[trigger] ks.take(i)[j] == k;
        assert(ks.take(i + 1)[j] == k);
    }
}

} // verus!
