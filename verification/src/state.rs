//! The in-process cache of parsed question pools.
use vstd::prelude::*;
use std::collections::HashMap;
use std::sync::Arc;
use crate::services::generator::QuestionRecord;

verus! {

broadcast use vstd::std_specs::hash::group_hash_axioms;

/// How many parsed pools the cache keeps.
pub const MAX_CACHED_POOLS: usize = 16;

/// Parsed pools by pool id, never more than `MAX_CACHED_POOLS` of them.
pub struct ParsedPoolCache {
    pools: HashMap<i32, Arc<Vec<QuestionRecord>>>,
}

impl ParsedPoolCache {
    /// Every cache, however it was built, holds at most `MAX_CACHED_POOLS`
    /// pools.
    #[verifier::type_invariant]
    spec fn bounded(self) -> bool {
        self.pools@.dom().finite() && self.pools@.dom().len() <= MAX_CACHED_POOLS
    }
}

impl View for ParsedPoolCache {
    type V = Map<i32, Arc<Vec<QuestionRecord>>>;

    closed spec fn view(&self) -> Map<i32, Arc<Vec<QuestionRecord>>> {
        self.pools@
    }
}

/// What the cache may hold after `insert(id, parsed)` on `old`: when it is
/// full and `id` is new, one other pool (which one is left to the map's
/// order) makes room; otherwise `id` is added or replaced.
pub open spec fn cache_insert_allows(
    old: Map<i32, Arc<Vec<QuestionRecord>>>,
    id: i32,
    parsed: Arc<Vec<QuestionRecord>>,
    new: Map<i32, Arc<Vec<QuestionRecord>>>,
) -> bool {
    if old.dom().len() >= MAX_CACHED_POOLS && !old.contains_key(id) {
        exists|evicted: i32| old.contains_key(evicted) && new == old.remove(evicted).insert(id, parsed)
    } else {
        new == old.insert(id, parsed)
    }
}

/// `Arc::clone`. Claimed: another handle on the same pool, equal to the
/// given one (Verus sees an `Arc` as what it points to).
#[verifier::external_body]
fn share(pool: &Arc<Vec<QuestionRecord>>) -> (r: Arc<Vec<QuestionRecord>>)
    ensures
        r == *pool,
{
    Arc::clone(pool)
}

/// The first key of `pools` in the map's iteration order, `None` for an
/// empty map; which key comes first is the map's own order.
fn first_key(pools: &HashMap<i32, Arc<Vec<QuestionRecord>>>) -> (r: Option<i32>)
    ensures
        r matches Some(k) ==> pools@.contains_key(k),
        r is None ==> pools@.dom().len() == 0,
{
    broadcast use vstd::std_specs::hash::axiom_spec_keys_iter;

    for k in it: pools.keys()
        invariant
            it.index() == 0,
    {
        proof {
            let keys = it.seq();
            assert(keys.contains(k));
            assert(keys.map_values(|x: &i32| *x).contains(*k)) by {
                assert(keys.map_values(|x: &i32| *x)[0] == *k);
            }
        }
        return Some(*k);
    }
    None
}

impl ParsedPoolCache {
    /// An empty cache.
    pub fn new() -> (r: Self)
        ensures
            r@ == Map::<i32, Arc<Vec<QuestionRecord>>>::empty(),
            r@.dom().finite(),
    {
        ParsedPoolCache { pools: HashMap::new() }
    }

    /// The parsed pool cached under `pool_id`.
    pub fn get(&self, pool_id: i32) -> (r: Option<Arc<Vec<QuestionRecord>>>)
        ensures
            r == if self@.contains_key(pool_id) {
                Some(self@[pool_id])
            } else {
                None
            },
    {
        match self.pools.get(&pool_id) {
            Some(p) => Some(share(p)),
            None => None,
        }
    }

    /// Caches `parsed` under `pool_id`, evicting another pool first when the
    /// cache is full and `pool_id` is new.
    pub fn insert(&mut self, pool_id: i32, parsed: Arc<Vec<QuestionRecord>>)
        ensures
            cache_insert_allows(old(self)@, pool_id, parsed, final(self)@),
            final(self)@.dom().finite(),
            final(self)@.dom().len() <= MAX_CACHED_POOLS,
    {
        proof {
            use_type_invariant(&*self);
        }
        let mut pools: HashMap<i32, Arc<Vec<QuestionRecord>>> = HashMap::new();
        std::mem::swap(&mut pools, &mut self.pools);
        let ghost before = pools@;
        if pools.len() >= MAX_CACHED_POOLS && !pools.contains_key(&pool_id) {
            match first_key(&pools) {
                Some(oldest_id) => {
                    pools.remove(&oldest_id);
                },
                None => {},
            }
        }
        pools.insert(pool_id, parsed);
        proof {
            insert_keeps_cache_bounded(before, pool_id, parsed, pools@);
        }
        self.pools = pools;
    }

    /// Drops the pool cached under `pool_id`.
    pub fn remove(&mut self, pool_id: i32)
        ensures
            final(self)@ == old(self)@.remove(pool_id),
            final(self)@.dom().finite(),
            final(self)@.dom().len() <= MAX_CACHED_POOLS,
    {
        proof {
            use_type_invariant(&*self);
        }
        let mut pools: HashMap<i32, Arc<Vec<QuestionRecord>>> = HashMap::new();
        std::mem::swap(&mut pools, &mut self.pools);
        let ghost before = pools@;
        pools.remove(&pool_id);
        proof {
            remove_keeps_cache_bounded(before, pool_id);
        }
        self.pools = pools;
    }

    /// How many pools are cached: never more than `MAX_CACHED_POOLS`.
    pub fn len(&self) -> (r: usize)
        ensures
            r == self@.dom().len(),
            r <= MAX_CACHED_POOLS,
    {
        proof {
            use_type_invariant(self);
        }
        self.pools.len()
    }
}

impl Default for ParsedPoolCache {
    fn default() -> (r: Self)
        ensures
            r@ == Map::<i32, Arc<Vec<QuestionRecord>>>::empty(),
            r@.dom().finite(),
    {
        ParsedPoolCache::new()
    }
}

/// A cache that holds at most `MAX_CACHED_POOLS` pools still does after an
/// insert; the inserted pool is then cached under its id; and replacing a
/// cached pool keeps the same ids.
pub proof fn insert_keeps_cache_bounded(
    old: Map<i32, Arc<Vec<QuestionRecord>>>,
    id: i32,
    parsed: Arc<Vec<QuestionRecord>>,
    new: Map<i32, Arc<Vec<QuestionRecord>>>,
)
    requires
        old.dom().finite(),
        old.dom().len() <= MAX_CACHED_POOLS,
        cache_insert_allows(old, id, parsed, new),
    ensures
        new.dom().len() <= MAX_CACHED_POOLS,
        new.contains_key(id),
        new[id] == parsed,
        old.contains_key(id) ==> new.dom() == old.dom(),
{
    if old.dom().len() >= MAX_CACHED_POOLS && !old.contains_key(id) {
        let evicted = choose|evicted: i32|
            old.contains_key(evicted) && new == old.remove(evicted).insert(id, parsed);
        assert(old.remove(evicted).dom() == old.dom().remove(evicted));
        assert(new.dom() == old.dom().remove(evicted).insert(id));
    } else {
        assert(new.dom() == old.dom().insert(id));
        if old.contains_key(id) {
            assert(old.dom().insert(id) =~= old.dom());
        }
    }
}

/// Removing a pool keeps a bounded cache bounded: together with
/// `insert_keeps_cache_bounded`, a cache built by `new` or `default` and any
/// run of inserts and removes never holds more than `MAX_CACHED_POOLS` pools.
pub proof fn remove_keeps_cache_bounded(old: Map<i32, Arc<Vec<QuestionRecord>>>, id: i32)
    requires
        old.dom().finite(),
        old.dom().len() <= MAX_CACHED_POOLS,
    ensures
        old.remove(id).dom().finite(),
        old.remove(id).dom().len() <= MAX_CACHED_POOLS,
{
    assert(old.remove(id).dom() == old.dom().remove(id));
}

} // verus!
