//! The fuzzy-match cache: a bounded least-recently-used map from
//! `"{token}::{max_edits}"` to the dictionary matches of that token.

use vstd::prelude::*;
use crate::trie::match_views;

verus! {

#[verifier::external_type_specification]
#[verifier::external_body]
#[verifier::reject_recursive_types(K)]
#[verifier::reject_recursive_types(V)]
#[verifier::reject_recursive_types(S)]
pub struct ExLruCache<K, V, S>(lru::LruCache<K, V, S>);

#[verifier::external_type_specification]
#[verifier::external_body]
pub struct ExLruHasher(lru::DefaultHasher);

/// What an LRU cache of matches holds: each key with its matches.
pub uninterp spec fn lru_entries(c: lru::LruCache<String, Vec<(String, usize)>>) -> Map<
    Seq<char>,
    Seq<(Seq<char>, nat)>,
>;

/// The keys of an LRU cache of matches, least recently used first.
pub uninterp spec fn lru_order(c: lru::LruCache<String, Vec<(String, usize)>>) -> Seq<Seq<char>>;

/// The capacity an LRU cache of matches was made with.
pub uninterp spec fn lru_capacity(c: lru::LruCache<String, Vec<(String, usize)>>) -> nat;

/// `s` without the key `k`.
pub open spec fn without_key(s: Seq<Seq<char>>, k: Seq<char>) -> Seq<Seq<char>>
    decreases s.len(),
{
    if s.len() == 0 {
        s
    } else {
        let r = without_key(s.drop_last(), k);
        if s.last() == k {
            r
        } else {
            r.push(s.last())
        }
    }
}

/// The recency order lists each key once, and there are at most as many
/// keys as the capacity.
pub open spec fn lru_consistent(
    entries: Map<Seq<char>, Seq<(Seq<char>, nat)>>,
    order: Seq<Seq<char>>,
    cap: nat,
) -> bool {
    &&& order.no_duplicates()
    &&& order.to_set() == entries.dom()
    &&& order.len() <= cap
}

/// Relies on `lru::LruCache::new`: an empty cache of capacity `cap`, which
/// must not be 0.
#[verifier::external_body]
fn lru_new(cap: usize) -> (r: lru::LruCache<String, Vec<(String, usize)>>)
    requires
        cap > 0,
    ensures
        lru_order(r).len() == 0,
        lru_capacity(r) == cap,
        lru_consistent(lru_entries(r), lru_order(r), lru_capacity(r)),
{
    lru::LruCache::new(std::num::NonZeroUsize::new(cap).unwrap())
}

/// Relies on `lru::LruCache::get`: the value under `key`, if any, cloned; a
/// key found becomes the most recently used.
#[verifier::external_body]
fn lru_get(c: &mut lru::LruCache<String, Vec<(String, usize)>>, key: &str) -> (r: Option<
    Vec<(String, usize)>,
>)
    ensures
        lru_entries(*final(c)) == lru_entries(*old(c)),
        lru_capacity(*final(c)) == lru_capacity(*old(c)),
        lru_order(*final(c)) == (if lru_entries(*old(c)).contains_key(key@) {
            without_key(lru_order(*old(c)), key@).push(key@)
        } else {
            lru_order(*old(c))
        }),
        lru_consistent(lru_entries(*final(c)), lru_order(*final(c)), lru_capacity(*final(c))),
        r is Some <==> lru_entries(*old(c)).contains_key(key@),
        r matches Some(v) ==> match_views(v@) == lru_entries(*old(c))[key@],
{
    c.get(key).cloned()
}

/// Relies on `lru::LruCache::put`: `key` now holds `v` and is the most
/// recently used; when `key` is new and the cache is full, the least
/// recently used entry is evicted first.
#[verifier::external_body]
fn lru_put(c: &mut lru::LruCache<String, Vec<(String, usize)>>, key: String, v: Vec<(String, usize)>)
    ensures
        lru_capacity(*final(c)) == lru_capacity(*old(c)),
        lru_entries(*old(c)).contains_key(key@) || lru_order(*old(c)).len() < lru_capacity(
            *old(c),
        ) ==> lru_entries(*final(c)) == lru_entries(*old(c)).insert(key@, match_views(v@))
            && lru_order(*final(c)) == without_key(lru_order(*old(c)), key@).push(key@),
        !lru_entries(*old(c)).contains_key(key@) && lru_order(*old(c)).len() >= lru_capacity(
            *old(c),
        ) ==> lru_entries(*final(c)) == lru_entries(*old(c)).remove(lru_order(*old(c))[0]).insert(
            key@,
            match_views(v@),
        ) && lru_order(*final(c)) == lru_order(*old(c)).drop_first().push(key@),
        lru_consistent(lru_entries(*final(c)), lru_order(*final(c)), lru_capacity(*final(c))),
{
    c.put(key, v);
}

pub const CACHE_CAPACITY: usize = 100;

/// The fuzzy-match cache.
pub struct MatchCache {
    cache: lru::LruCache<String, Vec<(String, usize)>>,
}

impl MatchCache {
    pub closed spec fn view(&self) -> Map<Seq<char>, Seq<(Seq<char>, nat)>> {
        lru_entries(self.cache)
    }

    /// The keys, least recently used first.
    pub closed spec fn order(&self) -> Seq<Seq<char>> {
        lru_order(self.cache)
    }

    pub closed spec fn capacity(&self) -> nat {
        lru_capacity(self.cache)
    }

    /// Each key is listed once in the recency order, and there are at most
    /// `CACHE_CAPACITY` of them.
    pub open spec fn wf(&self) -> bool {
        lru_consistent(self@, self.order(), self.capacity()) && self.capacity()
            == CACHE_CAPACITY
    }

    /// An empty cache of `CACHE_CAPACITY` entries.
    pub fn new() -> (r: MatchCache)
        ensures
            r.wf(),
            r@ == Map::<Seq<char>, Seq<(Seq<char>, nat)>>::empty(),
            r.order().len() == 0,
    {
        let r = MatchCache { cache: lru_new(CACHE_CAPACITY) };
        assert(r@ =~= Map::<Seq<char>, Seq<(Seq<char>, nat)>>::empty()) by {
            assert forall|k: Seq<char>| !r@.contains_key(k) by {
                if r@.contains_key(k) {
                    assert(r.order().to_set().contains(k));
                }
            }
        }
        r
    }
}

/// Stores `value` under `key`; the least recently used entry may leave.
///
/// The key becomes the most recently used. When it is new and the cache
/// already holds `CACHE_CAPACITY` entries, the least recently used one is
/// evicted.
pub fn insert_into_cache(cache: &mut MatchCache, key: &str, value: &Vec<(String, usize)>)
    requires
        old(cache).wf(),
    ensures
        final(cache).wf(),
        old(cache)@.contains_key(key@) || old(cache).order().len() < CACHE_CAPACITY ==> final(cache)@ == old(cache)@.insert(key@, match_views(value@)) && final(cache).order()
            == without_key(old(cache).order(), key@).push(key@),
        !old(cache)@.contains_key(key@) && old(cache).order().len() >= CACHE_CAPACITY ==> final(cache)@ == old(cache)@.remove(old(cache).order()[0]).insert(key@, match_views(value@))
            && final(cache).order() == old(cache).order().drop_first().push(key@),
        final(cache)@.contains_key(key@),
        final(cache)@[key@] == match_views(value@),
        forall|k: Seq<char>|
            #[trigger] final(cache)@.contains_key(k) && k != key@ ==> old(cache)@.contains_key(k)
                && final(cache)@[k] == old(cache)@[k],
{
    let mut copy: Vec<(String, usize)> = Vec::new();
    let mut i: usize = 0;
    while i < value.len()
        invariant
            i <= value.len(),
            match_views(copy@) == match_views(value@).take(i as int),
        decreases value.len() - i,
    {
        let ghost before = copy@;
        copy.push((value[i].0.clone(), value[i].1));
        assert(match_views(copy@) == match_views(before).push(match_views(value@)[i as int]));
        assert(match_views(value@).take(i + 1) == match_views(value@).take(i as int).push(
            match_views(value@)[i as int],
        ));
        i += 1;
    }
    assert(match_views(value@).take(value.len() as int) == match_views(value@));
    lru_put(&mut cache.cache, String::from_str(key), copy);
}

/// The matches stored under `key`, if any, which becomes the most recently
/// used entry.
pub fn retrieve_from_cache(cache: &mut MatchCache, key: &str) -> (r: Option<Vec<(String, usize)>>)
    requires
        old(cache).wf(),
    ensures
        final(cache).wf(),
        final(cache)@ == old(cache)@,
        final(cache).order() == (if old(cache)@.contains_key(key@) {
            without_key(old(cache).order(), key@).push(key@)
        } else {
            old(cache).order()
        }),
        r is Some <==> old(cache)@.contains_key(key@),
        r matches Some(v) ==> match_views(v@) == old(cache)@[key@],
{
    lru_get(&mut cache.cache, key)
}

} // verus!
