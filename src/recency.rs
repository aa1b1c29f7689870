//! The recency cache of meshed chunks: lru's `LruCache`, keyed by chunk
//! coordinates, behind the few calls the mesh manager makes.

use vstd::prelude::*;
use lru::LruCache;
use std::num::NonZeroUsize;
use std::collections::hash_map::RandomState;

verus! {

/// The cache type: chunk coordinates as keys, hashed with std's `RandomState`.
pub type Recency = LruCache<(i32, i32, i32), (), RandomState>;

#[verifier::external_type_specification]
#[verifier::external_body]
#[verifier::reject_recursive_types(K)]
#[verifier::reject_recursive_types(V)]
#[verifier::reject_recursive_types(S)]
pub struct ExLruCache<K, V, S>(LruCache<K, V, S>);

/// The keys of a cache from least to most recently used.
pub uninterp spec fn recency_order(c: Recency) -> Seq<(i32, i32, i32)>;

/// The number of keys a cache holds at most.
pub uninterp spec fn recency_capacity(c: Recency) -> nat;

/// Whether a key differs from `k`.
pub open spec fn differs(k: (i32, i32, i32)) -> spec_fn((i32, i32, i32)) -> bool {
    |x: (i32, i32, i32)| x != k
}

/// `s` without the key `k`.
pub open spec fn without(s: Seq<(i32, i32, i32)>, k: (i32, i32, i32)) -> Seq<(i32, i32, i32)> {
    s.filter(differs(k))
}

/// Relies on lru's LruCache::with_hasher: an empty cache holding at most `cap`
/// keys.
#[verifier::external_body]
pub(crate) fn recency_new(cap: usize) -> (r: Recency)
    requires
        cap > 0,
    ensures
        recency_order(r) == Seq::<(i32, i32, i32)>::empty(),
        recency_capacity(r) == cap,
{
    LruCache::with_hasher(NonZeroUsize::new(cap).unwrap(), RandomState::new())
}

/// Relies on lru's LruCache::push: the key becomes the most recently used; a
/// key already present moves there; a new key in a full cache displaces the
/// least recently used one.
#[verifier::external_body]
pub(crate) fn recency_push(c: &mut Recency, k: (i32, i32, i32))
    ensures
        recency_capacity(*final(c)) == recency_capacity(*old(c)),
        recency_order(*final(c)) == if recency_order(*old(c)).contains(k) {
            without(recency_order(*old(c)), k).push(k)
        } else if recency_order(*old(c)).len() == recency_capacity(*old(c)) {
            recency_order(*old(c)).subrange(1, recency_order(*old(c)).len() as int).push(k)
        } else {
            recency_order(*old(c)).push(k)
        },
{
    let _ = c.push(k, ());
}

/// Relies on lru's LruCache::pop_lru: removes and returns the least recently
/// used key, if any.
#[verifier::external_body]
pub(crate) fn recency_pop_lru(c: &mut Recency) -> (r: Option<(i32, i32, i32)>)
    ensures
        recency_capacity(*final(c)) == recency_capacity(*old(c)),
        recency_order(*old(c)).len() == 0 ==> r.is_none() && recency_order(*final(c)) == recency_order(*old(c)),
        recency_order(*old(c)).len() > 0 ==> r == Some(recency_order(*old(c))[0])
            && recency_order(*final(c)) == recency_order(*old(c)).subrange(1, recency_order(*old(c)).len() as int),
{
    c.pop_lru().map(|entry| entry.0)
}

/// Relies on lru's LruCache::promote: a key present becomes the most recently
/// used; otherwise nothing changes.
#[verifier::external_body]
pub(crate) fn recency_promote(c: &mut Recency, k: (i32, i32, i32))
    ensures
        recency_capacity(*final(c)) == recency_capacity(*old(c)),
        recency_order(*final(c)) == if recency_order(*old(c)).contains(k) {
            without(recency_order(*old(c)), k).push(k)
        } else {
            recency_order(*old(c))
        },
{
    c.promote(&k)
}

/// Relies on lru's LruCache::pop: the key leaves the cache if it is there; the
/// order of the other keys is kept.
#[verifier::external_body]
pub(crate) fn recency_remove(c: &mut Recency, k: (i32, i32, i32))
    ensures
        recency_capacity(*final(c)) == recency_capacity(*old(c)),
        recency_order(*final(c)) == without(recency_order(*old(c)), k),
{
    let _ = c.pop(&k);
}

/// Relies on lru's LruCache::len: the number of keys held.
#[verifier::external_body]
pub(crate) fn recency_len(c: &Recency) -> (r: usize)
    ensures
        r == recency_order(*c).len(),
{
    c.len()
}

} // verus!
