//! Bounded LRU caches mapping resolved paths to primary keys, and packed-entity
//! keys to their decoded blobs.
//!
//! Both mappings are only valid for one committed database version, so entries
//! carry a generation. A write commit bumps the generation; stale entries are
//! then never served for the wrong snapshot, and are evicted in LRU order.

use crate::engine::archived::{ArchNodeView, ArchivedNodes};
use crate::key::Skey;
use crate::path::{SPath, SegmentView};
use lru::LruCache;
use std::sync::Arc;
use vstd::prelude::*;

verus! {

/// `lru::LruCache`, a bounded map that evicts its least recently used entry.
#[verifier::external_type_specification]
#[verifier::external_body]
#[verifier::reject_recursive_types(K)]
#[verifier::reject_recursive_types(V)]
#[verifier::reject_recursive_types(S)]
pub struct ExLruCache<K, V, S>(LruCache<K, V, S>);

/// The hasher `lru::LruCache` uses by default (`lru::DefaultHasher`).
#[verifier::external_type_specification]
#[verifier::external_body]
pub struct ExDefaultHasher(lru::DefaultHasher);

/// An LRU map from paths to the generation and key they resolved to.
pub type PathLru = LruCache<SPath, (u64, Skey)>;

/// An LRU map from a generation and packed-entity key to its decoded blob.
pub type BlobLru = LruCache<(u64, Skey), Arc<ArchivedNodes>>;

/// The key-to-value contents of a path cache.
pub uninterp spec fn path_entries(c: LruCache<SPath, (u64, Skey)>) -> Map<Seq<SegmentView>, (u64, u128)>;

/// The capacity a path cache was made with.
pub uninterp spec fn path_capacity(c: LruCache<SPath, (u64, Skey)>) -> nat;

/// The key-to-blob contents of a blob cache.
pub uninterp spec fn blob_entries(c: LruCache<(u64, Skey), Arc<ArchivedNodes>>) -> Map<
    (u64, u128),
    Seq<(u128, ArchNodeView)>,
>;

/// The capacity a blob cache was made with.
pub uninterp spec fn blob_capacity(c: LruCache<(u64, Skey), Arc<ArchivedNodes>>) -> nat;

/// What a `put` of `v` under `k` does to an LRU cache's contents: `k` maps to
/// `v` and nothing else changes, except that a new key in a full cache evicts
/// one other entry (the least recently used, which these contents do not
/// record).
pub open spec fn put_effect<K, V>(before: Map<K, V>, after: Map<K, V>, k: K, v: V, cap: nat) -> bool {
    &&& after.dom().finite()
    &&& after.len() <= cap
    &&& if before.contains_key(k) || before.len() < cap {
        after == before.insert(k, v)
    } else {
        exists|x: K| #[trigger] before.contains_key(x) && after == before.remove(x).insert(k, v)
    }
}

/// `LruCache::new(cap)` for path entries: an empty cache holding at most `cap`.
#[verifier::external_body]
fn new_path_lru(cap: usize) -> (fresh: PathLru)
    requires
        cap > 0,
    ensures
        path_entries(fresh).dom().is_empty(),
        path_capacity(fresh) == cap,
{
    LruCache::new(std::num::NonZeroUsize::new(cap).unwrap())
}

/// `LruCache::get` on a path cache: the entry under `k`, if any. The lookup
/// only refreshes `k`'s recency, so the contents stay the same.
#[verifier::external_body]
fn path_lru_get(c: &mut LruCache<SPath, (u64, Skey)>, k: &SPath) -> (r: Option<(u64, Skey)>)
    ensures
        path_entries(*final(c)) == path_entries(*old(c)),
        path_capacity(*final(c)) == path_capacity(*old(c)),
        match r {
            Some(v) => path_entries(*old(c)).contains_key(k@) && path_entries(*old(c))[k@] == (
                v.0,
                v.1@,
            ),
            None => !path_entries(*old(c)).contains_key(k@),
        },
{
    c.get(k).copied()
}

/// `LruCache::put` on a path cache (its returned old value is not needed).
#[verifier::external_body]
fn path_lru_put(c: &mut LruCache<SPath, (u64, Skey)>, k: SPath, v: (u64, Skey))
    requires
        path_entries(*old(c)).dom().finite(),
        path_entries(*old(c)).len() <= path_capacity(*old(c)),
    ensures
        path_capacity(*final(c)) == path_capacity(*old(c)),
        put_effect(
            path_entries(*old(c)),
            path_entries(*final(c)),
            k@,
            (v.0, v.1@),
            path_capacity(*old(c)),
        ),
{
    c.put(k, v);
}

/// `LruCache::new(cap)` for decoded blobs: an empty cache holding at most `cap`.
#[verifier::external_body]
fn new_blob_lru(cap: usize) -> (fresh: BlobLru)
    requires
        cap > 0,
    ensures
        blob_entries(fresh).dom().is_empty(),
        blob_capacity(fresh) == cap,
{
    LruCache::new(std::num::NonZeroUsize::new(cap).unwrap())
}

/// `LruCache::get` on a blob cache, sharing the cached blob. The lookup only
/// refreshes the key's recency, so the contents stay the same.
#[verifier::external_body]
fn blob_lru_get(c: &mut LruCache<(u64, Skey), Arc<ArchivedNodes>>, k: (u64, Skey)) -> (r: Option<
    Arc<ArchivedNodes>,
>)
    ensures
        blob_entries(*final(c)) == blob_entries(*old(c)),
        blob_capacity(*final(c)) == blob_capacity(*old(c)),
        match r {
            Some(b) => blob_entries(*old(c)).contains_key((k.0, k.1@)) && blob_entries(*old(c))[(
                k.0,
                k.1@,
            )] == b@,
            None => !blob_entries(*old(c)).contains_key((k.0, k.1@)),
        },
{
    c.get(&k).cloned()
}

/// `LruCache::put` on a blob cache (its returned old value is not needed).
#[verifier::external_body]
fn blob_lru_put(c: &mut LruCache<(u64, Skey), Arc<ArchivedNodes>>, k: (u64, Skey), v: Arc<ArchivedNodes>)
    requires
        blob_entries(*old(c)).dom().finite(),
        blob_entries(*old(c)).len() <= blob_capacity(*old(c)),
    ensures
        blob_capacity(*final(c)) == blob_capacity(*old(c)),
        put_effect(
            blob_entries(*old(c)),
            blob_entries(*final(c)),
            (k.0, k.1@),
            v@,
            blob_capacity(*old(c)),
        ),
{
    c.put(k, v);
}

/// The mathematical form of a [`PathCache`].
pub struct PathCacheView {
    pub paths: Map<Seq<SegmentView>, (u64, u128)>,
    pub path_cap: nat,
    pub blobs: Map<(u64, u128), Seq<(u128, ArchNodeView)>>,
    pub blob_cap: nat,
}

/// A table's caches: `SPath -> (generation, Skey)` path resolutions and
/// `(generation, Skey) -> ArchivedNodes` decoded packed-entity blobs.
///
/// The path cache stores the resolving generation in the value, not the key,
/// so a lookup borrows the caller's path instead of building a composite key;
/// a hit of another generation reads as a miss and is re-resolved (and
/// overwritten) under the caller's own snapshot.
pub struct PathCache {
    entries: LruCache<SPath, (u64, Skey)>,
    blobs: LruCache<(u64, Skey), Arc<ArchivedNodes>>,
}

impl View for PathCache {
    type V = PathCacheView;

    closed spec fn view(&self) -> PathCacheView {
        PathCacheView {
            paths: path_entries(self.entries),
            path_cap: path_capacity(self.entries),
            blobs: blob_entries(self.blobs),
            blob_cap: blob_capacity(self.blobs),
        }
    }
}

/// Both caches hold finitely many entries, within their capacities.
pub open spec fn cache_bounded(c: PathCacheView) -> bool {
    &&& c.paths.dom().finite()
    &&& c.paths.len() <= c.path_cap
    &&& c.blobs.dom().finite()
    &&& c.blobs.len() <= c.blob_cap
}

/// A capacity as the cache takes it: zero is raised to one.
pub open spec fn effective_capacity(n: usize) -> nat {
    if n == 0 {
        1
    } else {
        n as nat
    }
}

/// What a path lookup at `generation` answers: the cached key, when it was
/// resolved under that same generation.
pub open spec fn cached_key(paths: Map<Seq<SegmentView>, (u64, u128)>, generation: u64, path: Seq<SegmentView>) -> Option<u128> {
    if paths.contains_key(path) && paths[path].0 == generation {
        Some(paths[path].1)
    } else {
        None
    }
}

impl PathCache {
    /// Caches holding at most `capacity` path entries and `blob_capacity`
    /// decoded blobs. A zero capacity is raised to one: a one-entry cache is a
    /// valid (if pointless) configuration, not an error.
    pub fn new(capacity: usize, blob_capacity: usize) -> (c: PathCache)
        ensures
            c@.paths == Map::<Seq<SegmentView>, (u64, u128)>::empty(),
            c@.blobs == Map::<(u64, u128), Seq<(u128, ArchNodeView)>>::empty(),
            c@.path_cap == effective_capacity(capacity),
            c@.blob_cap == effective_capacity(blob_capacity),
            cache_bounded(c@),
    {
        let capacity = if capacity == 0 {
            1
        } else {
            capacity
        };
        let blob_capacity = if blob_capacity == 0 {
            1
        } else {
            blob_capacity
        };
        let entries = new_path_lru(capacity);
        let blobs = new_blob_lru(blob_capacity);
        assert(path_entries(entries) =~= Map::<Seq<SegmentView>, (u64, u128)>::empty());
        assert(blob_entries(blobs) =~= Map::<(u64, u128), Seq<(u128, ArchNodeView)>>::empty());
        PathCache { entries, blobs }
    }

    /// The cached key for `path` at `generation`; an entry resolved under
    /// another generation is a miss.
    pub fn get(&mut self, generation: u64, path: &SPath) -> (r: Option<Skey>)
        requires
            cache_bounded(old(self)@),
        ensures
            cache_bounded(final(self)@),
            final(self)@ == old(self)@,
            match r {
                Some(k) => cached_key(old(self)@.paths, generation, path@) == Some(k@),
                None => cached_key(old(self)@.paths, generation, path@) is None,
            },
    {
        match path_lru_get(&mut self.entries, path) {
            Some((tagged, key)) => {
                if tagged == generation {
                    Some(key)
                } else {
                    None
                }
            },
            None => None,
        }
    }

    /// Records that `path` resolves to `key` at `generation`.
    pub fn put(&mut self, generation: u64, path: &SPath, key: Skey)
        requires
            cache_bounded(old(self)@),
        ensures
            cache_bounded(final(self)@),
            final(self)@.path_cap == old(self)@.path_cap,
            final(self)@.blobs == old(self)@.blobs,
            final(self)@.blob_cap == old(self)@.blob_cap,
            put_effect(old(self)@.paths, final(self)@.paths, path@, (generation, key@), old(self)@.path_cap),
    {
        path_lru_put(&mut self.entries, path.duplicate(), (generation, key));
    }

    /// The cached decoded blob of packed entity `key` at `generation`.
    pub fn get_blob(&mut self, generation: u64, key: Skey) -> (r: Option<Arc<ArchivedNodes>>)
        requires
            cache_bounded(old(self)@),
        ensures
            cache_bounded(final(self)@),
            final(self)@ == old(self)@,
            match r {
                Some(b) => old(self)@.blobs.contains_key((generation, key@)) && old(self)@.blobs[(
                    generation,
                    key@,
                )] == b@,
                None => !old(self)@.blobs.contains_key((generation, key@)),
            },
    {
        blob_lru_get(&mut self.blobs, (generation, key))
    }

    /// Records that packed entity `key` decodes to `blob` at `generation`.
    pub fn put_blob(&mut self, generation: u64, key: Skey, blob: Arc<ArchivedNodes>)
        requires
            cache_bounded(old(self)@),
        ensures
            cache_bounded(final(self)@),
            final(self)@.paths == old(self)@.paths,
            final(self)@.path_cap == old(self)@.path_cap,
            final(self)@.blob_cap == old(self)@.blob_cap,
            put_effect(old(self)@.blobs, final(self)@.blobs, (generation, key@), blob@, old(self)@.blob_cap),
    {
        blob_lru_put(&mut self.blobs, (generation, key), blob);
    }
}

/// Read after write: once `path` is recorded as resolving to `key` at
/// `generation`, a lookup at that generation finds `key`, whatever was evicted.
pub proof fn lemma_put_then_get(
    before: Map<Seq<SegmentView>, (u64, u128)>,
    after: Map<Seq<SegmentView>, (u64, u128)>,
    generation: u64,
    path: Seq<SegmentView>,
    key: u128,
    cap: nat,
)
    requires
        put_effect(before, after, path, (generation, key), cap),
    ensures
        cached_key(after, generation, path) == Some(key),
{
    if before.contains_key(path) || before.len() < cap {
    } else {
        let x = choose|x: Seq<SegmentView>| #[trigger] before.contains_key(x) && after == before.remove(
            x,
        ).insert(path, (generation, key));
    }
}

/// A lookup at a generation other than the one an entry was recorded under
/// misses: a resolution is never served for another database version.
pub proof fn lemma_other_generation_misses(
    paths: Map<Seq<SegmentView>, (u64, u128)>,
    generation: u64,
    path: Seq<SegmentView>,
)
    requires
        paths.contains_key(path),
        paths[path].0 != generation,
    ensures
        cached_key(paths, generation, path) is None,
{
}

} // verus!
