use crate::types::PageId;
use linked_hash_map::LinkedHashMap;
use vstd::prelude::*;

verus! {

/// `linked_hash_map::LinkedHashMap`, a hash map that keeps its keys in the
/// order in which they were put in. Nothing is known of a value of it but
/// what the functions below say; its order does not depend on the hasher.
#[verifier::external_type_specification]
#[verifier::external_body]
#[verifier::reject_recursive_types(K)]
#[verifier::reject_recursive_types(V)]
#[verifier::reject_recursive_types(S)]
pub struct ExLinkedHashMap<K, V, S>(LinkedHashMap<K, V, S>);

/// The keys of a linked hash map, from the one put in longest ago to the one
/// put in last.
pub uninterp spec fn linked_keys(map: LinkedHashMap<PageId, ()>) -> Seq<PageId>;

/// `keys` without `key`.
pub open spec fn without(keys: Seq<PageId>, key: PageId) -> Seq<PageId>
    decreases keys.len(),
{
    if keys.len() == 0 {
        keys
    } else if keys.last() == key {
        without(keys.drop_last(), key)
    } else {
        without(keys.drop_last(), key).push(keys.last())
    }
}

/// `LinkedHashMap::new`: the new map has no key.
#[verifier::external_body]
fn linked_new() -> (map: LinkedHashMap<PageId, ()>)
    ensures
        linked_keys(map) == Seq::<PageId>::empty(),
{
    LinkedHashMap::new()
}

/// `LinkedHashMap::remove`: the key leaves the map, the other keys keep
/// their order; the result tells whether the key was there.
#[verifier::external_body]
fn linked_remove(map: &mut LinkedHashMap<PageId, ()>, key: PageId) -> (removed: Option<()>)
    ensures
        linked_keys(*final(map)) == without(linked_keys(*old(map)), key),
        removed is Some <==> linked_keys(*old(map)).contains(key),
{
    map.remove(&key)
}

/// `LinkedHashMap::insert`: the key becomes the last of the map, whether it
/// was there or not; the other keys keep their order.
#[verifier::external_body]
fn linked_insert(map: &mut LinkedHashMap<PageId, ()>, key: PageId) -> (previous: Option<()>)
    ensures
        linked_keys(*final(map)) == without(linked_keys(*old(map)), key).push(key),
        previous is Some <==> linked_keys(*old(map)).contains(key),
{
    map.insert(key, ())
}

/// `LinkedHashMap::keys`: the keys in the order of the map.
#[verifier::external_body]
fn linked_keys_of(map: &LinkedHashMap<PageId, ()>) -> (keys: Vec<PageId>)
    ensures
        keys@ == linked_keys(*map),
{
    map.keys().copied().collect()
}

/// Chooses the pages that a buffer pool should give up first.
pub trait ReplacementStrategy {
    /// The pages that the strategy knows, the one to give up first at the front.
    spec fn candidates(&self) -> Seq<PageId>;

    /// The pages that the strategy knows after it was told that `page_id`
    /// was fetched or created, in its order.
    spec fn touched(&self, page_id: PageId) -> Seq<PageId>;

    /// Tells the strategy that a page was fetched or created. The strategy
    /// knows the page from then on, and goes on knowing what it knew.
    fn update(&mut self, page_id: PageId)
        ensures
            final(self).candidates() == old(self).touched(page_id),
            final(self).candidates().contains(page_id),
            forall|id: PageId|
                old(self).candidates().contains(id) ==> final(self).candidates().contains(id),
    ;

    /// Returns the pages to give up, in the order of preference.
    fn get_evict(&self) -> (order: Vec<PageId>)
        ensures
            order@ == self.candidates(),
    ;
}

/// The replacement strategies that a buffer pool can be made with.
#[derive(Copy, Clone, Debug, PartialEq, Eq, Structural)]
pub enum ReplacementStrategyType {
    LRU,
}

/// Gives up first the page that was used longest ago.
pub struct LRUReplacementStrategy {
    map: LinkedHashMap<PageId, ()>,
}

impl LRUReplacementStrategy {
    /// The strategy that knows no page yet.
    pub fn new() -> (strategy: Self)
        ensures
            strategy.candidates() == Seq::<PageId>::empty(),
    {
        LRUReplacementStrategy { map: linked_new() }
    }
}

impl ReplacementStrategy for LRUReplacementStrategy {
    closed spec fn candidates(&self) -> Seq<PageId> {
        linked_keys(self.map)
    }

    /// The page becomes the most recently used one.
    open spec fn touched(&self, page_id: PageId) -> Seq<PageId> {
        without(self.candidates(), page_id).push(page_id)
    }

    fn update(&mut self, page_id: PageId) {
        linked_remove(&mut self.map, page_id);
        linked_insert(&mut self.map, page_id);
        proof {
            let keys = old(self).candidates();
            lemma_without(keys, page_id);
            lemma_without(without(keys, page_id), page_id);
            lemma_push_contains(without(keys, page_id), page_id);
        }
    }

    /// The pages from the least to the most recently used one.
    fn get_evict(&self) -> (order: Vec<PageId>) {
        linked_keys_of(&self.map)
    }
}

/// Taking a key out leaves the other keys in, and the key out; it changes
/// nothing if the key was not there.
pub proof fn lemma_without(keys: Seq<PageId>, key: PageId)
    ensures
        !without(keys, key).contains(key),
        forall|id: PageId| id != key ==> (without(keys, key).contains(id) <==> keys.contains(id)),
        without(keys, key).len() <= keys.len(),
        !keys.contains(key) ==> without(keys, key) == keys,
    decreases keys.len(),
{
    if keys.len() > 0 {
        let front = keys.drop_last();
        let last = keys.last();
        lemma_without(front, key);
        let w0 = without(front, key);
        let w = without(keys, key);
        assert(keys =~= front.push(last));
        assert forall|id: PageId| keys.contains(id) <==> (front.contains(id) || id == last) by {
            if keys.contains(id) {
                let i = choose|i: int| 0 <= i < keys.len() && keys[i] == id;
                if i < front.len() {
                    assert(front[i] == id);
                }
            }
            if front.contains(id) {
                let i = choose|i: int| 0 <= i < front.len() && front[i] == id;
                assert(keys[i] == id);
            }
            if id == last {
                assert(keys[keys.len() - 1] == id);
            }
        }
        if last != key {
            assert forall|id: PageId| w.contains(id) <==> (w0.contains(id) || id == last) by {
                if w.contains(id) {
                    let i = choose|i: int| 0 <= i < w.len() && w[i] == id;
                    if i < w0.len() {
                        assert(w0[i] == id);
                    }
                }
                if w0.contains(id) {
                    let i = choose|i: int| 0 <= i < w0.len() && w0[i] == id;
                    assert(w[i] == id);
                }
                if id == last {
                    assert(w[w.len() - 1] == id);
                }
            }
            if !keys.contains(key) {
                assert(w0 == front);
            }
        }
    }
}

/// A sequence with `key` put at its end holds `key` and what it held before.
pub proof fn lemma_push_contains(keys: Seq<PageId>, key: PageId)
    ensures
        keys.push(key).contains(key),
        forall|id: PageId| keys.contains(id) ==> keys.push(key).contains(id),
        forall|id: PageId| keys.push(key).contains(id) ==> keys.contains(id) || id == key,
{
    let w = keys.push(key);
    assert(w[w.len() - 1] == key);
    assert forall|id: PageId| keys.contains(id) implies w.contains(id) by {
        let i = choose|i: int| 0 <= i < keys.len() && keys[i] == id;
        assert(w[i] == id);
    }
    assert forall|id: PageId| w.contains(id) implies keys.contains(id) || id == key by {
        let i = choose|i: int| 0 <= i < w.len() && w[i] == id;
        if i < keys.len() {
            assert(keys[i] == id);
        }
    }
}

/// Makes the replacement strategy of the given kind.
pub fn replacement_strategy_factory(strategy_type: ReplacementStrategyType) -> (strategy:
    LRUReplacementStrategy)
    ensures
        strategy.candidates() == Seq::<PageId>::empty(),
{
    match strategy_type {
        ReplacementStrategyType::LRU => LRUReplacementStrategy::new(),
    }
}

} // verus!
