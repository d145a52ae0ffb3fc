//! Per-namespace cipher keys, derived from the root secret and kept in a
//! bounded least-recently-used cache.

use vstd::prelude::*;
use vstd::utf8::encode_utf8;
use lru::DefaultHasher;
use lru::LruCache;
use std::num::NonZeroUsize;
use crate::hashing::copy_bytes;
use crate::hashing::hmac_sha256_128;
use crate::hashing::hmac_sha256_128_spec;
use crate::hashing::TAG_SIZE;

verus! {

/// Number of keys that the cache holds at most.
pub const CAPACITY: usize = 1024;

/// `lru::LruCache`: a map of bounded size that drops the entry used least
/// recently.
#[verifier::external_type_specification]
#[verifier::external_body]
#[verifier::reject_recursive_types(K)]
#[verifier::reject_recursive_types(V)]
#[verifier::reject_recursive_types(S)]
pub struct ExLruCache<K, V, S>(LruCache<K, V, S>);

/// `lru::DefaultHasher`: the hasher of a cache made with `LruCache::new`.
#[verifier::external_type_specification]
#[verifier::external_body]
pub struct ExDefaultHasher(DefaultHasher);

/// The entries of `cache`, most recently used first.
pub uninterp spec fn cache_entries(cache: LruCache<String, Vec<u8>>) -> Seq<(Seq<char>, Seq<u8>)>;

/// The number of entries that `cache` was made to hold.
pub uninterp spec fn cache_capacity(cache: LruCache<String, Vec<u8>>) -> nat;

/// Whether `entries` holds the key `k`.
pub open spec fn has_key(entries: Seq<(Seq<char>, Seq<u8>)>, k: Seq<char>) -> bool {
    exists|i: int| 0 <= i < entries.len() && (#[trigger] entries[i]).0 == k
}

/// A position of the key `k` in `entries`, where it is held.
pub open spec fn position_of(entries: Seq<(Seq<char>, Seq<u8>)>, k: Seq<char>) -> int {
    choose|i: int| 0 <= i < entries.len() && (#[trigger] entries[i]).0 == k
}

/// `entries` after a use of the key `k`: its entry has moved to the front.
pub open spec fn touched(entries: Seq<(Seq<char>, Seq<u8>)>, k: Seq<char>) -> Seq<
    (Seq<char>, Seq<u8>),
> {
    if has_key(entries, k) {
        let i = position_of(entries, k);
        seq![entries[i]] + entries.remove(i)
    } else {
        entries
    }
}

/// `entries` after `k` was given the value `v` in a cache of `capacity`
/// entries: the entry stands at the front, in place of an earlier one for `k`
/// or, where there was none and the cache was full, of the least recently
/// used.
pub open spec fn placed(
    entries: Seq<(Seq<char>, Seq<u8>)>,
    k: Seq<char>,
    v: Seq<u8>,
    capacity: nat,
) -> Seq<(Seq<char>, Seq<u8>)> {
    if has_key(entries, k) {
        seq![(k, v)] + entries.remove(position_of(entries, k))
    } else if entries.len() == capacity {
        seq![(k, v)] + entries.drop_last()
    } else {
        seq![(k, v)] + entries
    }
}

/// Calls `lru::LruCache::new`. Trusted: the cache is empty and bounded by
/// `capacity`.
#[verifier::external_body]
fn cache_new(capacity: usize) -> (cache: LruCache<String, Vec<u8>>)
    requires
        capacity > 0,
    ensures
        cache_entries(cache) == Seq::<(Seq<char>, Seq<u8>)>::empty(),
        cache_capacity(cache) == capacity,
{
    LruCache::new(NonZeroUsize::new(capacity).unwrap())
}

/// Calls `lru::LruCache::contains`. Trusted: it tells whether the key is
/// held, and leaves the order of use as it is.
#[verifier::external_body]
fn cache_contains(cache: &LruCache<String, Vec<u8>>, key: &str) -> (found: bool)
    ensures
        found == has_key(cache_entries(*cache), key@),
{
    cache.contains(key)
}

/// Calls `lru::LruCache::len`. Trusted: it is the number of entries.
#[verifier::external_body]
fn cache_len(cache: &LruCache<String, Vec<u8>>) -> (n: usize)
    ensures
        n == cache_entries(*cache).len(),
{
    cache.len()
}

/// Calls `lru::LruCache::get`. Trusted: a key that is held yields its value
/// and becomes the most recently used; otherwise nothing changes.
#[verifier::external_body]
fn cache_get(cache: &mut LruCache<String, Vec<u8>>, key: &str) -> (value: Option<Vec<u8>>)
    ensures
        value is Some <==> has_key(cache_entries(*old(cache)), key@),
        value is Some ==> value->0@ == cache_entries(*old(cache))[position_of(
            cache_entries(*old(cache)),
            key@,
        )].1,
        cache_entries(*final(cache)) == touched(cache_entries(*old(cache)), key@),
        cache_capacity(*final(cache)) == cache_capacity(*old(cache)),
{
    cache.get(key).cloned()
}

/// Calls `lru::LruCache::put`. Trusted: the entry becomes the most recently
/// used, replacing an earlier one for the same key; where the key is new and
/// the cache is full, the least recently used entry leaves.
#[verifier::external_body]
fn cache_put(cache: &mut LruCache<String, Vec<u8>>, key: String, value: Vec<u8>)
    ensures
        cache_entries(*final(cache)) == placed(
            cache_entries(*old(cache)),
            key@,
            value@,
            cache_capacity(*old(cache)),
        ),
        cache_capacity(*final(cache)) == cache_capacity(*old(cache)),
{
    cache.put(key, value);
}

/// The cipher key of `namespace` under `secret`.
pub open spec fn derived_key(secret: Seq<u8>, namespace: Seq<char>) -> Seq<u8> {
    hmac_sha256_128_spec(secret, encode_utf8(namespace))
}

/// `entries` after a request for the key of `k`, which is `v`: an entry for
/// `k` moves to the front, and where there was none it is put there.
pub open spec fn refreshed(
    entries: Seq<(Seq<char>, Seq<u8>)>,
    k: Seq<char>,
    v: Seq<u8>,
    capacity: nat,
) -> Seq<(Seq<char>, Seq<u8>)> {
    if has_key(entries, k) {
        touched(entries, k)
    } else {
        placed(entries, k, v, capacity)
    }
}

/// Whether `entries` may be the content of a cache of `capacity` keys under
/// `secret`: within the bound, one entry per namespace, each holding the
/// 16-byte key derived for its namespace.
pub open spec fn entries_wf(
    entries: Seq<(Seq<char>, Seq<u8>)>,
    secret: Seq<u8>,
    capacity: nat,
) -> bool {
    &&& entries.len() <= capacity
    &&& forall|i: int, j: int|
        #![trigger entries[i], entries[j]]
        0 <= i < j < entries.len() ==> entries[i].0 != entries[j].0
    &&& forall|i: int|
        0 <= i < entries.len() ==> (#[trigger] entries[i]).1 == derived_key(secret, entries[i].0)
            && entries[i].1.len() == TAG_SIZE
}

/// A use of a key keeps the entries well-formed and as many as they were.
pub proof fn lemma_touched_wf(
    entries: Seq<(Seq<char>, Seq<u8>)>,
    k: Seq<char>,
    secret: Seq<u8>,
    capacity: nat,
)
    requires
        entries_wf(entries, secret, capacity),
    ensures
        entries_wf(touched(entries, k), secret, capacity),
        touched(entries, k).len() == entries.len(),
        has_key(entries, k) ==> touched(entries, k)[0] == (k, derived_key(secret, k)),
        has_key(entries, k) ==> derived_key(secret, k).len() == TAG_SIZE,
{
    if has_key(entries, k) {
        let p = position_of(entries, k);
        let after = touched(entries, k);
        assert forall|i: int| 0 <= i < after.len() implies #[trigger] after[i] == entries[if i
            == 0 {
            p
        } else if i <= p {
            i - 1
        } else {
            i
        }] by {}
        assert forall|i: int, j: int| 0 <= i < j < after.len() implies after[i].0 != after[j].0 by {
            let a = if i == 0 {
                p
            } else if i <= p {
                i - 1
            } else {
                i
            };
            let b = if j <= p {
                j - 1
            } else {
                j
            };
            assert(after[i] == entries[a]);
            assert(after[j] == entries[b]);
            assert(a != b);
            if a < b {
                assert(entries[a].0 != entries[b].0);
            } else {
                assert(entries[b].0 != entries[a].0);
            }
        }
    }
}

/// Putting the derived key of a namespace keeps the entries well-formed.
pub proof fn lemma_placed_wf(
    entries: Seq<(Seq<char>, Seq<u8>)>,
    k: Seq<char>,
    secret: Seq<u8>,
    capacity: nat,
)
    requires
        entries_wf(entries, secret, capacity),
        !has_key(entries, k),
        capacity > 0,
        derived_key(secret, k).len() == TAG_SIZE,
    ensures
        entries_wf(placed(entries, k, derived_key(secret, k), capacity), secret, capacity),
        placed(entries, k, derived_key(secret, k), capacity)[0] == (k, derived_key(secret, k)),
{
    let v = derived_key(secret, k);
    let after = placed(entries, k, v, capacity);
    assert forall|i: int| 1 <= i < after.len() implies #[trigger] after[i] == entries[i - 1] by {}
    assert forall|i: int, j: int| 0 <= i < j < after.len() implies after[i].0 != after[j].0 by {
        assert(after[j] == entries[j - 1]);
        if i == 0 {
            assert(entries[j - 1].0 != k);
        } else {
            assert(after[i] == entries[i - 1]);
            assert(entries[i - 1].0 != entries[j - 1].0);
        }
    }
    assert forall|i: int| 0 <= i < after.len() implies (#[trigger] after[i]).1 == derived_key(
        secret,
        after[i].0,
    ) && after[i].1.len() == TAG_SIZE by {
        if i > 0 {
            assert(after[i] == entries[i - 1]);
        }
    }
}

/// A request for a namespace that a full cache does not hold drops the least
/// recently used entry and nothing else: the new entry stands first, and the
/// others follow in the order they had.
pub proof fn lemma_full_cache_drops_least_recent(
    entries: Seq<(Seq<char>, Seq<u8>)>,
    k: Seq<char>,
    secret: Seq<u8>,
    capacity: nat,
)
    requires
        entries_wf(entries, secret, capacity),
        entries.len() == capacity,
        capacity > 0,
        !has_key(entries, k),
    ensures
        ({
            let after = refreshed(entries, k, derived_key(secret, k), capacity);
            &&& after.len() == capacity
            &&& after[0] == (k, derived_key(secret, k))
            &&& after.skip(1) == entries.drop_last()
            &&& !has_key(after, entries.last().0)
        }),
{
    let after = refreshed(entries, k, derived_key(secret, k), capacity);
    assert(after.skip(1) =~= entries.drop_last());
    if has_key(after, entries.last().0) {
        let i = choose|i: int| 0 <= i < after.len() && (#[trigger] after[i]).0 == entries.last().0;
        assert(entries[entries.len() - 1].0 == entries.last().0);
        if i == 0 {
            assert(entries[entries.len() - 1].0 == k);
        } else {
            assert(after[i] == entries[i - 1]);
            assert(entries[i - 1].0 != entries[entries.len() - 1].0);
        }
    }
}

/// A request for a namespace that the cache holds, or that a cache with room
/// does not hold, drops nothing: every namespace held before is held after.
pub proof fn lemma_request_keeps_entries(
    entries: Seq<(Seq<char>, Seq<u8>)>,
    k: Seq<char>,
    secret: Seq<u8>,
    capacity: nat,
    other: Seq<char>,
)
    requires
        entries_wf(entries, secret, capacity),
        has_key(entries, k) || entries.len() < capacity,
        has_key(entries, other),
    ensures
        has_key(refreshed(entries, k, derived_key(secret, k), capacity), other),
{
    let after = refreshed(entries, k, derived_key(secret, k), capacity);
    let j = choose|j: int| 0 <= j < entries.len() && (#[trigger] entries[j]).0 == other;
    if has_key(entries, k) {
        let p = position_of(entries, k);
        if j == p {
            assert(after[0] == entries[p]);
        } else if j < p {
            assert(after[j + 1] == entries[j]);
        } else {
            assert(after[j] == entries[j]);
        }
    } else {
        assert(after[j + 1] == entries[j]);
    }
}

/// The keys of the namespaces in use.
pub struct KeyStore {
    secret: Vec<u8>,
    cache: LruCache<String, Vec<u8>>,
}

impl KeyStore {
    /// The root secret.
    pub closed spec fn secret(&self) -> Seq<u8> {
        self.secret@
    }

    /// The cached namespaces with their keys, most recently used first.
    pub closed spec fn entries(&self) -> Seq<(Seq<char>, Seq<u8>)> {
        cache_entries(self.cache)
    }

    /// The number of keys that the cache was made to hold.
    pub closed spec fn capacity(&self) -> nat {
        cache_capacity(self.cache)
    }

    /// The invariant of the store.
    pub open spec fn wf(&self) -> bool {
        &&& self.capacity() == CAPACITY
        &&& entries_wf(self.entries(), self.secret(), CAPACITY as nat)
    }

    /// A store for `secret` with an empty cache.
    pub fn new(secret: &str) -> (store: Self)
        ensures
            store.wf(),
            store.secret() == encode_utf8(secret@),
            store.entries() == Seq::<(Seq<char>, Seq<u8>)>::empty(),
    {
        KeyStore { secret: copy_bytes(secret.as_bytes()), cache: cache_new(CAPACITY) }
    }

    /// The number of cached keys.
    pub fn len(&self) -> (n: usize)
        ensures
            n == self.entries().len(),
    {
        cache_len(&self.cache)
    }

    /// Whether the key of `namespace` is cached. The order of use stays.
    pub fn is_cached(&self, namespace: &str) -> (found: bool)
        ensures
            found == has_key(self.entries(), namespace@),
    {
        cache_contains(&self.cache, namespace)
    }

    /// The key of `namespace`: taken from the cache, or derived from the
    /// secret and cached. Either way the namespace becomes the most recently
    /// used, and a full cache drops its least recently used entry for a new
    /// one.
    pub fn get_or_derive(&mut self, namespace: &str) -> (key: Vec<u8>)
        requires
            old(self).wf(),
        ensures
            final(self).wf(),
            final(self).secret() == old(self).secret(),
            key@ == derived_key(old(self).secret(), namespace@),
            key@.len() == TAG_SIZE,
            final(self).entries() == refreshed(
                old(self).entries(),
                namespace@,
                key@,
                CAPACITY as nat,
            ),
            final(self).entries()[0] == (namespace@, key@),
    {
        let ghost before = self.entries();
        let ghost secret = self.secret();
        match cache_get(&mut self.cache, namespace) {
            Some(key) => {
                proof {
                    lemma_touched_wf(before, namespace@, secret, CAPACITY as nat);
                }
                key
            },
            None => {
                let key = hmac_sha256_128(self.secret.as_slice(), namespace.as_bytes());
                cache_put(&mut self.cache, namespace.to_owned(), copy_bytes(key.as_slice()));
                proof {
                    lemma_placed_wf(before, namespace@, secret, CAPACITY as nat);
                }
                key
            },
        }
    }
}

} // verus!
