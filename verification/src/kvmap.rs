//! The memory backend's concurrent map, backed by `papaya`'s lock-free
//! hash map behind trusted wrappers.
//!
//! The map is held in a field the verifier does not see; `kv_contents`
//! names what it holds, and each wrapper states over that name what the
//! one `papaya` operation it calls does.

use vstd::prelude::*;
use crate::storage::{StorageValue, RecModel};

verus! {

/// A concurrent map from key bytes to stored records.
#[verifier::external_body]
pub struct KvMap {
    inner: papaya::HashMap<Vec<u8>, StorageValue>,
}

/// The entries the map holds, each record as its model.
pub uninterp spec fn kv_contents(m: KvMap) -> Map<Seq<u8>, RecModel>;

impl KvMap {
    /// Relies on `papaya::HashMap::new`: the new map is empty.
    #[verifier::external_body]
    pub fn new() -> (r: Self)
        ensures
            forall|k: Seq<u8>| !kv_contents(r).contains_key(k),
    {
        KvMap { inner: papaya::HashMap::new() }
    }

    /// Relies on `papaya::HashMap::get` (through a pinned guard): the
    /// value under the key, if the key is present.
    #[verifier::external_body]
    pub fn get(&self, key: &Vec<u8>) -> (r: Option<StorageValue>)
        ensures
            match r {
                Some(v) => kv_contents(*self).contains_key(key@)
                    && v@ == kv_contents(*self)[key@],
                None => !kv_contents(*self).contains_key(key@),
            },
    {
        let guard = self.inner.pin();
        guard.get(key).cloned()
    }

    /// Relies on `papaya::HashMap::insert`: the key now maps to the value,
    /// everything else is unchanged.
    #[verifier::external_body]
    pub fn insert(&mut self, key: Vec<u8>, value: StorageValue)
        ensures
            kv_contents(*final(self)) == kv_contents(*old(self)).insert(key@, value@),
    {
        let guard = self.inner.pin();
        guard.insert(key, value);
    }

    /// Relies on `papaya::HashMap::remove`: the key is gone; the result
    /// says whether it was present.
    #[verifier::external_body]
    pub fn remove(&mut self, key: &Vec<u8>) -> (r: bool)
        ensures
            r == kv_contents(*old(self)).contains_key(key@),
            kv_contents(*final(self)) == kv_contents(*old(self)).remove(key@),
    {
        let guard = self.inner.pin();
        guard.remove(key).is_some()
    }

    /// Relies on `papaya::HashMap::clear`: the map is empty afterwards.
    #[verifier::external_body]
    pub fn clear(&mut self)
        ensures
            forall|k: Seq<u8>| !kv_contents(*final(self)).contains_key(k),
    {
        let guard = self.inner.pin();
        guard.clear();
    }

    /// Relies on `papaya::HashMap::keys`: every key exactly once, in no
    /// particular order (the walk order of a hash map is not promised).
    #[verifier::external_body]
    pub fn keys(&self) -> (r: Vec<Vec<u8>>)
        ensures
            r.deep_view().no_duplicates(),
            forall|k: Seq<u8>| r.deep_view().contains(k) <==> kv_contents(*self).dom().contains(k),
    {
        let guard = self.inner.pin();
        guard.keys().cloned().collect()
    }
}

} // verus!
