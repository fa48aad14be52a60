//! Stored records, storage errors, the wall clock, and the backend factory.

use vstd::prelude::*;

verus! {

/// The model of a stored record: payload bytes and an optional absolute
/// expiry in milliseconds since the Unix epoch.
pub struct RecModel {
    pub data: Seq<u8>,
    pub expires_at: Option<u64>,
}

/// Value stored in a backend with optional expiry time.
///
/// The expiry is an absolute wall-clock instant in milliseconds since the
/// Unix epoch, so it survives restart in durable backends and compares
/// across threads without arithmetic drift.
#[derive(Debug, Clone)]
pub struct StorageValue {
    pub data: Vec<u8>,
    /// Absolute expiry time in milliseconds since the Unix epoch.
    pub expires_at: Option<u64>,
}

impl View for StorageValue {
    type V = RecModel;

    open spec fn view(&self) -> RecModel {
        RecModel { data: self.data@, expires_at: self.expires_at }
    }
}

/// Saturating addition on `u64`, used to place an expiry instant.
pub open spec fn sat_add(a: u64, b: u64) -> u64 {
    if a + b > u64::MAX {
        u64::MAX
    } else {
        (a + b) as u64
    }
}

/// A record is expired at `now` iff its expiry is set and strictly past.
pub open spec fn spec_expired(m: RecModel, now: u64) -> bool {
    match m.expires_at {
        Some(e) => now > e,
        None => false,
    }
}

/// Relies on `std::time::SystemTime::now` and `duration_since`: the wall
/// clock as milliseconds since the Unix epoch. Nothing can be promised of
/// the value; callers state what holds of every outcome.
#[verifier::external_body]
pub fn now_millis() -> u64 {
    match std::time::SystemTime::now().duration_since(std::time::UNIX_EPOCH) {
        Ok(d) => d.as_millis() as u64,
        Err(_) => 0,
    }
}

impl StorageValue {
    /// Create a value with no expiry.
    pub fn new(data: Vec<u8>) -> (r: Self)
        ensures
            r@ == (RecModel { data: data@, expires_at: None }),
    {
        StorageValue { data, expires_at: None }
    }

    /// Create a value that expires `ttl_ms` milliseconds after `now_ms`.
    pub fn new_with_expiry_at(data: Vec<u8>, now_ms: u64, ttl_ms: u64) -> (r: Self)
        ensures
            r@ == (RecModel { data: data@, expires_at: Some(sat_add(now_ms, ttl_ms)) }),
    {
        let expires = if now_ms > u64::MAX - ttl_ms {
            u64::MAX
        } else {
            now_ms + ttl_ms
        };
        StorageValue { data, expires_at: Some(expires) }
    }

    /// Create a value that expires `ttl_ms` milliseconds from now.
    pub fn new_with_expiry(data: Vec<u8>, ttl_ms: u64) -> (r: Self)
        ensures
            r@.data == data@,
            exists|n: u64| r@.expires_at == Some(sat_add(n, ttl_ms)),
    {
        let now = now_millis();
        let r = Self::new_with_expiry_at(data, now, ttl_ms);
        proof {
            assert(r@.expires_at == Some(sat_add(now, ttl_ms)));
        }
        r
    }

    /// Whether the value is expired at the given instant.
    pub fn is_expired_at(&self, now: u64) -> (r: bool)
        ensures
            r == spec_expired(self@, now),
    {
        match &self.expires_at {
            Some(e) => now > *e,
            None => false,
        }
    }

    /// Whether the value is expired at the wall clock's present reading.
    /// A value without an expiry is never expired.
    pub fn is_expired(&self) -> (r: bool)
        ensures
            self@.expires_at is None ==> r == false,
            exists|n: u64| r == spec_expired(self@, n),
    {
        let now = now_millis();
        let r = self.is_expired_at(now);
        proof {
            assert(r == spec_expired(self@, now));
        }
        r
    }
}

/// Errors that can occur during storage operations. Faults raised by an
/// outside engine are carried as their descriptive text.
#[derive(Debug, Clone)]
pub enum StorageError {
    /// A fault from the durable engine.
    Lmdb(String),
    /// A record that could not be encoded or decoded.
    Serde(String),
    /// A backend operation failed.
    OperationFailed(String),
    /// A key was required but absent.
    KeyNotFound(String),
    /// A backend connection failed.
    ConnectionError(String),
}

/// The keys of a run of batches, in order.
pub open spec fn concat_key_batches(bs: Seq<Seq<Seq<char>>>, i: int) -> Seq<Seq<char>>
    decreases bs.len() - i,
{
    if i < 0 || i >= bs.len() {
        Seq::empty()
    } else {
        bs[i] + concat_key_batches(bs, i + 1)
    }
}

proof fn lemma_concat_key_batches_push(bs: Seq<Seq<Seq<char>>>, b: Seq<Seq<char>>, i: int)
    requires
        0 <= i <= bs.len(),
    ensures
        concat_key_batches(bs.push(b), i) == concat_key_batches(bs, i) + b,
    decreases bs.len() - i,
{
    if i == bs.len() {
        assert(bs.push(b)[i] == b);
        assert(concat_key_batches(bs.push(b), i + 1) =~= Seq::<Seq<char>>::empty());
        assert(concat_key_batches(bs.push(b), i) =~= b);
        assert(concat_key_batches(bs, i) + b =~= b);
    } else {
        lemma_concat_key_batches_push(bs, b, i + 1);
        assert(bs.push(b)[i] == bs[i]);
        assert(bs[i] + (concat_key_batches(bs, i + 1) + b)
            =~= (bs[i] + concat_key_batches(bs, i + 1)) + b);
    }
}

/// Split keys into deletion batches: each batch holds at most
/// `batch_size` keys, and the batches concatenate back to the input in
/// order. The remote backend's bulk delete takes one batch per request.
pub fn batch_keys(keys: &Vec<String>, batch_size: usize) -> (r: Vec<Vec<String>>)
    requires
        batch_size >= 1,
    ensures
        concat_key_batches(r.deep_view(), 0) == keys.deep_view(),
        forall|i: int| 0 <= i < r.deep_view().len() ==> #[trigger] r.deep_view()[i].len()
            <= batch_size,
{
    let n = keys.len();
    let mut done: Vec<Vec<String>> = Vec::new();
    let mut cur: Vec<String> = Vec::new();
    let mut i: usize = 0;
    proof {
        assert(done.deep_view() =~= Seq::<Seq<Seq<char>>>::empty());
        assert(concat_key_batches(done.deep_view(), 0) =~= Seq::<Seq<char>>::empty());
        assert(cur.deep_view() =~= Seq::<Seq<char>>::empty());
        assert(keys.deep_view().take(0) =~= Seq::<Seq<char>>::empty());
        assert(concat_key_batches(done.deep_view(), 0) + cur.deep_view()
            =~= keys.deep_view().take(0));
    }
    while i < n
        invariant
            i <= n,
            n == keys@.len(),
            keys.deep_view().len() == n,
            cur.deep_view().len() < batch_size,
            batch_size >= 1,
            concat_key_batches(done.deep_view(), 0) + cur.deep_view()
                == keys.deep_view().take(i as int),
            forall|j: int| 0 <= j < done.deep_view().len()
                ==> #[trigger] done.deep_view()[j].len() <= batch_size,
        decreases n - i,
    {
        let ghost done0 = done.deep_view();
        let ghost cur0 = cur.deep_view();
        let k = crate::config::clone_string(&keys[i]);
        proof {
            assert(keys.deep_view()[i as int] == keys@[i as int]@);
        }
        cur.push(k);
        proof {
            assert(cur.deep_view() =~~= cur0.push(keys.deep_view()[i as int]));
            assert(keys.deep_view().take(i + 1)
                =~= keys.deep_view().take(i as int).push(keys.deep_view()[i as int]));
            assert(concat_key_batches(done0, 0) + cur.deep_view()
                =~= keys.deep_view().take(i + 1));
        }
        if cur.len() == batch_size {
            let ghost full = cur.deep_view();
            let finished = cur;
            cur = Vec::new();
            done.push(finished);
            proof {
                assert(done.deep_view() =~~= done0.push(full));
                lemma_concat_key_batches_push(done0, full, 0);
                assert(cur.deep_view() =~= Seq::<Seq<char>>::empty());
                assert(concat_key_batches(done.deep_view(), 0) + cur.deep_view()
                    =~= keys.deep_view().take(i + 1));
            }
        }
        i = i + 1;
    }
    if cur.len() > 0 {
        let ghost done0 = done.deep_view();
        let ghost full = cur.deep_view();
        done.push(cur);
        proof {
            assert(done.deep_view() =~~= done0.push(full));
            lemma_concat_key_batches_push(done0, full, 0);
        }
    }
    proof {
        assert(keys.deep_view().take(n as int) =~= keys.deep_view());
        assert(concat_key_batches(done.deep_view(), 0) =~= keys.deep_view());
    }
    done
}

/// Storage factory for creating backends.
pub struct StorageFactory;

impl StorageFactory {
    /// A fresh, empty in-memory backend.
    pub fn create_memory() -> (r: crate::memory::MemoryStorage)
        ensures
            r.wf(),
            r@ == Map::<Seq<u8>, RecModel>::empty(),
    {
        crate::memory::MemoryStorage::new()
    }
}

} // verus!
