//! A least-recently-used cache of decoded chunks, keyed by row-major chunk
//! index, bounded by a number of chunks.
use vstd::prelude::*;

verus! {

#[verifier::external_type_specification]
#[verifier::external_body]
#[verifier::reject_recursive_types(K)]
#[verifier::reject_recursive_types(V)]
#[verifier::reject_recursive_types(S)]
pub struct ExLruCache<K, V, S>(lru::LruCache<K, V, S>);

/// The entries that a least-recently-used cache holds.
pub uninterp spec fn lru_contents(c: lru::LruCache<u64, Vec<u64>>) -> Map<u64, Seq<u64>>;

/// Relies on `lru::LruCache::new`: a new cache holds no entry.
#[verifier::external_body]
fn lru_new(capacity: usize) -> (r: lru::LruCache<u64, Vec<u64>>)
    requires
        capacity > 0,
    ensures
        lru_contents(r).dom().len() == 0 && lru_contents(r).dom().finite(),
{
    lru::LruCache::new(std::num::NonZeroUsize::new(capacity).unwrap())
}

/// Relies on `lru::LruCache::get`: the value stored under `key`, if any; the
/// entries stay as they are (only their recency changes).
#[verifier::external_body]
fn lru_get(c: &mut lru::LruCache<u64, Vec<u64>>, key: u64) -> (r: Option<Vec<u64>>)
    ensures
        lru_contents(*final(c)) == lru_contents(*old(c)),
        r.is_some() <==> lru_contents(*old(c)).contains_key(key),
        r.is_some() ==> r.unwrap()@ == lru_contents(*old(c))[key],
{
    c.get(&key).cloned()
}

/// Relies on `lru::LruCache::put`: afterwards `key` holds `value`; every other
/// entry either stays as it was or, when the cache was full, is evicted.
#[verifier::external_body]
fn lru_put(c: &mut lru::LruCache<u64, Vec<u64>>, key: u64, value: Vec<u64>)
    ensures
        lru_contents(*final(c)).contains_key(key),
        lru_contents(*final(c))[key] == value@,
        forall|k: u64|
            #[trigger] lru_contents(*final(c)).contains_key(k) && k != key ==> lru_contents(
                *old(c),
            ).contains_key(k) && lru_contents(*final(c))[k] == lru_contents(*old(c))[k],
{
    c.put(key, value);
}

/// The bound of a decoded-chunk cache.
#[derive(Clone, Copy, Debug, PartialEq, Eq, Structural)]
pub enum CacheSize {
    /// No cache.
    Disabled,
    /// At most this many bytes of decoded chunks.
    SizeTotal(u64),
    /// At most this many bytes of decoded chunks per thread.
    SizePerThread(u64),
    /// At most this many chunks.
    ChunksTotal(u64),
    /// At most this many chunks per thread.
    ChunksPerThread(u64),
}

/// The number of chunks of `chunk_bytes` bytes that a cache of `size` holds
/// (at least one where the cache is enabled), or `None` where it is disabled.
/// A sequential reader is one thread, so per-thread bounds are total bounds.
pub open spec fn capacity_spec(size: CacheSize, chunk_bytes: u64) -> Option<nat> {
    match size {
        CacheSize::Disabled => None,
        CacheSize::ChunksTotal(n) | CacheSize::ChunksPerThread(n) => Some(
            if n == 0 {
                1
            } else {
                n as nat
            },
        ),
        CacheSize::SizeTotal(b) | CacheSize::SizePerThread(b) => Some(
            if chunk_bytes == 0 || b / chunk_bytes == 0 {
                1
            } else {
                (b / chunk_bytes) as nat
            },
        ),
    }
}

/// A cache of decoded chunks.
pub struct ChunkCache {
    lru: lru::LruCache<u64, Vec<u64>>,
}

impl ChunkCache {
    /// The decoded chunks held, by row-major chunk index.
    pub closed spec fn contents(&self) -> Map<u64, Seq<u64>> {
        lru_contents(self.lru)
    }

    /// An empty cache of `size` for chunks of `chunk_bytes` bytes, or `None`
    /// where the size disables caching.
    pub fn new(size: CacheSize, chunk_bytes: u64) -> (r: Option<ChunkCache>)
        ensures
            r.is_some() <==> capacity_spec(size, chunk_bytes).is_some(),
            r.is_some() ==> r.unwrap().contents().dom().len() == 0 && r.unwrap().contents().dom().finite(),
    {
        let n: u64 = match size {
            CacheSize::Disabled => {
                return None;
            },
            CacheSize::ChunksTotal(n) | CacheSize::ChunksPerThread(n) => if n == 0 {
                1
            } else {
                n
            },
            CacheSize::SizeTotal(b) | CacheSize::SizePerThread(b) => if chunk_bytes == 0 || b
                / chunk_bytes == 0 {
                1
            } else {
                b / chunk_bytes
            },
        };
        let capacity: usize = if n > usize::MAX as u64 {
            usize::MAX
        } else {
            n as usize
        };
        Some(ChunkCache { lru: lru_new(capacity) })
    }

    /// The decoded chunk stored under `key`, if any; the contents stay.
    pub fn get(&mut self, key: u64) -> (r: Option<Vec<u64>>)
        ensures
            final(self).contents() == old(self).contents(),
            r.is_some() <==> old(self).contents().contains_key(key),
            r.is_some() ==> r.unwrap()@ == old(self).contents()[key],
    {
        lru_get(&mut self.lru, key)
    }

    /// Stores `value` under `key`; other entries stay or are evicted.
    pub fn put(&mut self, key: u64, value: Vec<u64>)
        ensures
            final(self).contents().contains_key(key),
            final(self).contents()[key] == value@,
            forall|k: u64|
                #[trigger] final(self).contents().contains_key(k) && k != key ==> old(
                    self,
                ).contents().contains_key(k) && final(self).contents()[k] == old(self).contents()[k],
    {
        lru_put(&mut self.lru, key, value);
    }
}

} // verus!
