use crate::storage::bufferpool::BufferPool;
use crate::storage::disk_manager::DiskManager;
use crate::storage::distinct::{
    grown_apart, lemma_apart_install, lemma_apart_root, lemma_apart_split, lemma_grown_apart_none,
    lemma_grown_apart_settled, lemma_grown_apart_some, settled_apart,
};
use crate::storage::free_list::{can_grow, MAX_HEADER_PAGES};
use crate::storage::leaf_chain::{
    first_at, first_with, lemma_chain_borrow, lemma_chain_merge, lemma_chain_pair,
    lemma_chain_pending, node_installed, pair_chain, pending_chain,
};
use crate::storage::page::header_page::HeaderPage;
use crate::storage::page::index_page::{
    first_above, lemma_first_above, lemma_first_equal, INTERNAL_CAPACITY, IndexPage, IndexPageView,
    IndexType, LEAF_CAPACITY, RecordId,
};
use crate::storage::rebalance::{
    after_delete, depth, lemma_borrow_from_left, lemma_borrow_from_right, lemma_collapse,
    lemma_internal_kept, lemma_internal_pending, lemma_kids_after_borrow, lemma_kids_after_merge,
    lemma_leaf_remove, lemma_loose_ready, lemma_merge, lemma_pair_absences, lemma_pending_pair,
    lemma_store_borrow, lemma_store_merge, lookup_around, lookup_with, loose, merged_node, min_keys,
    pair_lookup, pair_state, pending, store_after_borrow,
};
use crate::storage::removal::{
    agree, cut_done, fused, lemma_cut_none, lemma_cut_some, mended, node_fused, node_rotated,
    rotated, store_rotated, taken_below, tree_cut, tree_cut_done,
};
use crate::storage::replacement_strategy::ReplacementStrategy;
use crate::storage::split::{
    after_insert, chain_after, grown, lemma_grown_leaf, lemma_grown_none, lemma_grown_some,
    lemma_internal_none, lemma_internal_some, lemma_leaf_ready, lemma_linked_after_split,
    lemma_settle_split, lemma_split_halves, lemma_tree_grown, root_over, settle_done,
    store_after_split, tree_grown,
};
use crate::storage::tree_model::{
    absent, apart, apart_from, child_hi, child_lo, children_ok, exit_of, first_leaf,
    first_leaf_from, in_range, lemma_after_child, lemma_first_above_is, lemma_first_equal_is,
    lemma_fresh_absent, lemma_install, lemma_keep, lemma_linked_after_child, lemma_linked_child,
    lemma_told_child, linked, linked_from, lookup, lookup_from, ready, subtree_ok, told_apart,
    Limits, Store,
};
use crate::types::{FLUSH, PageId};
use vstd::prelude::*;

verus! {

/// The fill bounds of a tree whose nodes hold at most the given numbers of
/// keys: the least number is half the greatest.
pub open spec fn limits_of(internal_max: int, leaf_max: int) -> Limits {
    Limits { leaf_max, leaf_min: leaf_max / 2, internal_max, internal_min: internal_max / 2 }
}

/// The pages from `root` down form a B+ tree of height `h` over all keys
/// whose leaves are chained in key order, the last one with no next leaf,
/// and whose nodes can be told apart.
pub open spec fn tree_at(store: Store, used: Set<PageId>, root: PageId, h: nat,
    limits: Limits) -> bool {
    &&& subtree_ok(store, used, root, h, None, None, limits, true)
    &&& linked(store, root, h, None)
    &&& told_apart(limits, store, root, h)
}

/// An empty leaf in use is a tree of height 0.
pub proof fn lemma_empty_tree(store: Store, used: Set<PageId>, root: PageId, limits: Limits)
    requires
        store.contains_key(root),
        store[root] == IndexPageView::empty(root, IndexType::Leaf),
        used.contains(root),
        limits.ok(),
    ensures
        tree_at(store, used, root, 0, limits),
{
    reveal(linked);
    reveal(apart);
}

/// What a tree needs of its buffer pool: it can always take a page in,
/// because no page stays pinned between the steps of the tree.
pub open spec fn pool_ok<D: DiskManager<IndexPage>, H: DiskManager<HeaderPage>,
    S: ReplacementStrategy>(
    pool: &BufferPool<IndexPage, D, H, S>,
) -> bool {
    pool.wf() && pool.unpinned() && pool.capacity() >= 1
}

/// The page ids that the free list of the pool marks as in use.
pub open spec fn used_ids<D: DiskManager<IndexPage>, H: DiskManager<HeaderPage>,
    S: ReplacementStrategy>(
    pool: &BufferPool<IndexPage, D, H, S>,
) -> Set<PageId> {
    Set::new(|p: PageId| pool.free_list().allocated(p as int))
}

/// Reads a copy of a page of the store.
fn load<D: DiskManager<IndexPage>, H: DiskManager<HeaderPage>, S: ReplacementStrategy>(
    pool: &mut BufferPool<IndexPage, D, H, S>,
    id: PageId,
) -> (page: IndexPage)
    requires
        pool_ok(old(pool)),
        old(pool).store().contains_key(id),
    ensures
        pool_ok(final(pool)),
        final(pool).store() == old(pool).store(),
        final(pool).free_list() == old(pool).free_list(),
        final(pool).capacity() == old(pool).capacity(),
        page@ == old(pool).store()[id],
        page@.storable(),
        page@.id == id,
{
    proof {
        if old(pool).len() > 0 {
            old(pool).lemma_unpinned_has_victim();
        }
    }
    match pool.fetch_page(id) {
        Ok(guard) => {
            let page = guard.read(&*pool).duplicate();
            guard.release(pool);
            page
        },
        Err(_) => {
            assert(false);
            IndexPage::new(id, IndexType::Leaf)
        },
    }
}

/// Puts a page in the place of the page of the store with its id.
fn save<D: DiskManager<IndexPage>, H: DiskManager<HeaderPage>, S: ReplacementStrategy>(
    pool: &mut BufferPool<IndexPage, D, H, S>,
    page: IndexPage,
)
    requires
        pool_ok(old(pool)),
        old(pool).store().contains_key(page@.id),
        page@.storable(),
    ensures
        pool_ok(final(pool)),
        final(pool).store() == old(pool).store().insert(page@.id, page@),
        final(pool).free_list() == old(pool).free_list(),
        final(pool).capacity() == old(pool).capacity(),
{
    proof {
        if old(pool).len() > 0 {
            old(pool).lemma_unpinned_has_victim();
        }
    }
    let id = page.id;
    match pool.fetch_page(id) {
        Ok(guard) => {
            let mut guard = guard;
            guard.write(pool, page);
            guard.release(pool);
        },
        Err(_) => {
            assert(false);
        },
    }
}

/// Takes a new page from the pool: an empty leaf under an id that was not
/// in use. The leaf is written to the page, so that a page of that id which
/// was in memory still does not show what it held.
fn create<D: DiskManager<IndexPage>, H: DiskManager<HeaderPage>, S: ReplacementStrategy>(
    pool: &mut BufferPool<IndexPage, D, H, S>,
) -> (id: PageId)
    requires
        pool_ok(old(pool)),
        can_grow(old(pool).free_list().head()),
    ensures
        pool_ok(final(pool)),
        final(pool).capacity() == old(pool).capacity(),
        !used_ids(old(pool)).contains(id),
        used_ids(final(pool)) == used_ids(old(pool)).insert(id),
        final(pool).store() == old(pool).store().insert(
            id,
            IndexPageView::empty(id, IndexType::Leaf),
        ),
        final(pool).free_list().head() <= old(pool).free_list().head() + 1,
        final(pool).free_list().head() >= old(pool).free_list().head(),
{
    proof {
        if old(pool).len() > 0 {
            old(pool).lemma_unpinned_has_victim();
        }
    }
    proof {
        assert(!old(pool).saturated());
    }
    match pool.create_page() {
        Ok(guard) => {
            let id = guard.get_page_id();
            let mut guard = guard;
            let ghost made = *pool;
            guard.write(pool, IndexPage::new(id, IndexType::Leaf));
            guard.release(pool);
            proof {
                assert(used_ids(pool) =~= used_ids(old(pool)).insert(id));
                assert(made.store().insert(id, IndexPageView::empty(id, IndexType::Leaf))
                    =~= old(pool).store().insert(id, IndexPageView::empty(id, IndexType::Leaf)));
            }
            id
        },
        Err(_) => {
            assert(false);
            0
        },
    }
}

/// The pages that a search for `key` from the node `id` at height `h` goes
/// through, from `id` down to the leaf.
pub open spec fn path_to(store: Store, id: PageId, h: nat, key: i64) -> Seq<PageId>
    decreases h,
{
    if h == 0 {
        seq![id]
    } else {
        seq![id] + path_to(
            store,
            store[id].children[first_above(store[id].keys, key, 0)],
            (h - 1) as nat,
            key,
        )
    }
}

/// An ordered index from keys to record ids: a B+ tree whose nodes are the
/// pages of a buffer pool.
pub struct BPlusTree<D: DiskManager<IndexPage>, H: DiskManager<HeaderPage>,
    S: ReplacementStrategy> {
    root: PageId,
    buffer_pool: BufferPool<IndexPage, D, H, S>,
    internal_max_keys: usize,
    leaf_max_keys: usize,
    internal_min_keys: usize,
    leaf_min_keys: usize,
    height: Ghost<nat>,
}

impl<D: DiskManager<IndexPage>, H: DiskManager<HeaderPage>,
    S: ReplacementStrategy> View for BPlusTree<
    D,
    H,
    S,
> {
    type V = Map<i64, RecordId>;

    /// The index as a map: a key is there if a search from the root comes
    /// to a record id.
    open spec fn view(&self) -> Map<i64, RecordId> {
        Map::new(
            |key: i64| lookup(self.store(), self.root(), self.height(), key) is Some,
            |key: i64| lookup(self.store(), self.root(), self.height(), key).unwrap(),
        )
    }
}

impl<D: DiskManager<IndexPage>, H: DiskManager<HeaderPage>, S: ReplacementStrategy> BPlusTree<
    D,
    H,
    S,
> {
    /// The id of the root page.
    pub closed spec fn root(&self) -> PageId {
        self.root
    }

    /// The buffer pool that holds the nodes.
    pub closed spec fn pool(&self) -> BufferPool<IndexPage, D, H, S> {
        self.buffer_pool
    }

    /// The number of levels below the root: 0 while the root is a leaf.
    pub closed spec fn height(&self) -> nat {
        self.height@
    }

    /// The fill bounds of the nodes.
    pub closed spec fn limits(&self) -> Limits {
        Limits {
            leaf_max: self.leaf_max_keys as int,
            leaf_min: self.leaf_min_keys as int,
            internal_max: self.internal_max_keys as int,
            internal_min: self.internal_min_keys as int,
        }
    }

    /// The pages of the pool by id.
    pub open spec fn store(&self) -> Store {
        self.pool().store()
    }

    /// The page ids in use.
    pub open spec fn used(&self) -> Set<PageId> {
        used_ids(&self.pool())
    }

    /// The invariant of the tree: its pool can always take a page in, its
    /// bounds are ones a tree can be made with, the pages from the root
    /// down form a B+ tree over all keys, the leaves are chained in key
    /// order, the last one with no next leaf, and no page is a node twice.
    pub open spec fn wf(&self) -> bool {
        &&& pool_ok(&self.pool())
        &&& self.limits().ok()
        &&& subtree_ok(
            self.store(),
            self.used(),
            self.root(),
            self.height(),
            None,
            None,
            self.limits(),
            true,
        )
        &&& linked(self.store(), self.root(), self.height(), None)
        &&& told_apart(self.limits(), self.store(), self.root(), self.height())
    }

    /// Makes the index over the tree that the pool holds from the page
    /// `root` down: an empty leaf for a new index, the root of the tree for
    /// one that is there already. No page is read or written.
    pub fn new(
        root: PageId,
        buffer_pool: BufferPool<IndexPage, D, H, S>,
        internal_max_keys: usize,
        leaf_max_keys: usize,
    ) -> (tree: Self)
        requires
            pool_ok(&buffer_pool),
            2 <= internal_max_keys < INTERNAL_CAPACITY,
            1 <= leaf_max_keys < LEAF_CAPACITY,
            exists|h: nat| #[trigger]
                tree_at(
                    buffer_pool.store(),
                    used_ids(&buffer_pool),
                    root,
                    h,
                    limits_of(internal_max_keys as int, leaf_max_keys as int),
                ),
        ensures
            tree.wf(),
            tree.root() == root,
            tree.pool() == buffer_pool,
            tree.limits() == limits_of(internal_max_keys as int, leaf_max_keys as int),
            buffer_pool.store()[root].page_type == IndexType::Leaf ==> tree.height() == 0,
            buffer_pool.store()[root].page_type == IndexType::Leaf
                && buffer_pool.store()[root].keys.len() == 0 ==> tree@ == Map::<
                i64,
                RecordId,
            >::empty(),
    {
        let ghost h = choose|h: nat| #[trigger]
            tree_at(
                buffer_pool.store(),
                used_ids(&buffer_pool),
                root,
                h,
                limits_of(internal_max_keys as int, leaf_max_keys as int),
            );
        let tree = BPlusTree {
            root,
            buffer_pool,
            internal_max_keys,
            leaf_max_keys,
            internal_min_keys: internal_max_keys / 2,
            leaf_min_keys: leaf_max_keys / 2,
            height: Ghost(h),
        };
        proof {
            if tree.store()[root].page_type == IndexType::Leaf
                && tree.store()[root].keys.len() == 0 {
                assert(tree@ =~= Map::<i64, RecordId>::empty());
            }
        }
        tree
    }

    /// The id of the root page.
    pub fn get_root(&self) -> (root: PageId)
        ensures
            root == self.root(),
    {
        self.root
    }

    /// The buffer pool that holds the nodes.
    pub fn get_pool(&self) -> (pool: &BufferPool<IndexPage, D, H, S>)
        ensures
            *pool == self.pool(),
    {
        &self.buffer_pool
    }

    /// Gives the root page id and the buffer pool back.
    pub fn into_parts(self) -> (parts: (PageId, BufferPool<IndexPage, D, H, S>))
        ensures
            parts.0 == self.root(),
            parts.1 == self.pool(),
    {
        (self.root, self.buffer_pool)
    }

    /// Returns the record id that the index holds for `key`.
    pub fn search(&mut self, key: &i64) -> (found: Option<RecordId>)
        requires
            old(self).wf(),
        ensures
            final(self).wf(),
            final(self)@ == old(self)@,
            final(self).store() == old(self).store(),
            final(self).root() == old(self).root(),
            final(self).height() == old(self).height(),
            final(self).limits() == old(self).limits(),
            final(self).used() == old(self).used(),
            final(self).pool().capacity() == old(self).pool().capacity(),
            final(self).pool().free_list().head() == old(self).pool().free_list().head(),
            found == (if old(self)@.contains_key(*key) {
                Some(old(self)@[*key])
            } else {
                None::<RecordId>
            }),
    {
        let mut curr_id: PageId = self.root;
        let ghost mut h: nat = self.height@;
        let ghost mut lo: Option<i64> = None;
        let ghost mut hi: Option<i64> = None;
        let ghost mut is_root: bool = true;
        loop
            invariant
                pool_ok(&self.pool()),
                self.store() == old(self).store(),
                self.used() == old(self).used(),
                self.root() == old(self).root(),
                self.height() == old(self).height(),
                self.limits() == old(self).limits(),
                self.pool().free_list() == old(self).pool().free_list(),
                self.pool().capacity() == old(self).pool().capacity(),
                old(self).wf(),
                subtree_ok(self.store(), self.used(), curr_id, h, lo, hi, self.limits(), is_root),
                lookup(self.store(), self.root(), self.height(), *key) == lookup(
                    self.store(),
                    curr_id,
                    h,
                    *key,
                ),
            decreases h,
        {
            let page = load(&mut self.buffer_pool, curr_id);
            match page.page_type {
                IndexType::Internal => {
                    proof {
                        lemma_first_above(page@.keys, *key, 0);
                    }
                    let ghost i = first_above(page@.keys, *key, 0);
                    match page.search_child(key) {
                        Some(child) => {
                            proof {
                                assert(child == self.store()[curr_id].children[i]);
                                lo = child_lo(page@, i, lo);
                                hi = child_hi(page@, i, hi);
                                h = (h - 1) as nat;
                                is_root = false;
                            }
                            curr_id = child;
                        },
                        None => {
                            assert(false);
                            return None;
                        },
                    }
                },
                IndexType::Leaf => {
                    proof {
                        lemma_first_equal(page@.keys, *key, 0);
                    }
                    return match page.search_rid(key) {
                        Some(rid) => Some(*rid),
                        None => None,
                    };
                },
            }
        }
    }

    /// Returns the pages that a search for `key` goes through, from the
    /// root down to the leaf.
    pub fn descend_to_leaf(&mut self, key: i64) -> (stack: Vec<PageId>)
        requires
            old(self).wf(),
        ensures
            final(self).wf(),
            final(self)@ == old(self)@,
            final(self).store() == old(self).store(),
            final(self).root() == old(self).root(),
            final(self).height() == old(self).height(),
            final(self).limits() == old(self).limits(),
            final(self).used() == old(self).used(),
            final(self).pool().capacity() == old(self).pool().capacity(),
            final(self).pool().free_list().head() == old(self).pool().free_list().head(),
            stack@ == path_to(old(self).store(), old(self).root(), old(self).height(), key),
    {
        let mut stack: Vec<PageId> = Vec::new();
        let mut curr_id: PageId = self.root;
        let ghost mut h: nat = self.height@;
        let ghost mut lo: Option<i64> = None;
        let ghost mut hi: Option<i64> = None;
        let ghost mut is_root: bool = true;
        loop
            invariant
                pool_ok(&self.pool()),
                self.store() == old(self).store(),
                self.used() == old(self).used(),
                self.root() == old(self).root(),
                self.height() == old(self).height(),
                self.limits() == old(self).limits(),
                self.pool().free_list() == old(self).pool().free_list(),
                self.pool().capacity() == old(self).pool().capacity(),
                old(self).wf(),
                subtree_ok(self.store(), self.used(), curr_id, h, lo, hi, self.limits(), is_root),
                path_to(self.store(), self.root(), self.height(), key) == stack@ + path_to(
                    self.store(),
                    curr_id,
                    h,
                    key,
                ),
            decreases h,
        {
            let page = load(&mut self.buffer_pool, curr_id);
            match page.page_type {
                IndexType::Internal => {
                    proof {
                        lemma_first_above(page@.keys, key, 0);
                    }
                    let ghost i = first_above(page@.keys, key, 0);
                    match page.search_child(&key) {
                        Some(child) => {
                            let ghost rest = path_to(self.store(), child, (h - 1) as nat, key);
                            proof {
                                assert(child == self.store()[curr_id].children[i]);
                                assert(stack@ + (seq![curr_id] + rest) =~= stack@.push(curr_id)
                                    + rest);
                                lo = child_lo(page@, i, lo);
                                hi = child_hi(page@, i, hi);
                                h = (h - 1) as nat;
                                is_root = false;
                            }
                            stack.push(curr_id);
                            curr_id = child;
                        },
                        None => {
                            assert(false);
                            return stack;
                        },
                    }
                },
                IndexType::Leaf => {
                    stack.push(curr_id);
                    return stack;
                },
            }
        }
    }
}

impl<D: DiskManager<IndexPage>, H: DiskManager<HeaderPage>, S: ReplacementStrategy> BPlusTree<
    D,
    H,
    S,
> {
    /// The new free list has room for `n` more header pages.
    pub open spec fn headroom(&self, n: nat) -> bool {
        self.pool().free_list().head() + n <= MAX_HEADER_PAGES
    }

    /// What every step leaves as it was: the bounds, the root and the
    /// height of the tree, and the capacity of its pool.
    pub open spec fn same_frame(&self, before: &Self) -> bool {
        &&& self.limits() == before.limits()
        &&& self.root() == before.root()
        &&& self.height() == before.height()
        &&& self.pool().capacity() == before.pool().capacity()
        &&& forall|x: PageId| before.used().contains(x) ==> self.used().contains(x)
    }

    /// Writes a node that is ready to its page. A node that holds one key
    /// more than its maximum is split first: its right half goes to a new
    /// page, which is returned with the key that separates the halves.
    #[verifier::spinoff_prover]
    fn settle(
        &mut self,
        page: IndexPage,
        Ghost(h): Ghost<nat>,
        Ghost(lo): Ghost<Option<i64>>,
        Ghost(hi): Ghost<Option<i64>>,
        Ghost(is_root): Ghost<bool>,
        Ghost(exit): Ghost<Option<PageId>>,
    ) -> (promoted: Option<(i64, PageId)>)
        requires
            pool_ok(&old(self).pool()),
            old(self).limits().ok(),
            ready(
                old(self).store(),
                old(self).used(),
                page@,
                page@.id,
                h,
                lo,
                hi,
                old(self).limits(),
                is_root,
            ),
            old(self).headroom(1),
            linked_from(old(self).store(), page@, h, exit),
            old(self).limits().leaf_min >= 1 || apart_from(old(self).store(), page@, h),
        ensures
            old(self).limits().leaf_min >= 1 || settled_apart(
                old(self).store(),
                old(self).used(),
                page@,
                h,
                final(self).store(),
                promoted,
            ),
            pool_ok(&final(self).pool()),
            final(self).same_frame(old(self)),
            first_leaf(final(self).store(), page@.id, h) == first_leaf_from(
                old(self).store(),
                page@,
                h,
            ),
            chain_after(final(self).store(), page@.id, h, exit, promoted),
            settle_done(
                old(self).store(),
                old(self).used(),
                page@,
                h,
                old(self).limits(),
                final(self).store(),
                final(self).used(),
                promoted,
            ),
            old(self).pool().free_list().head() <= final(self).pool().free_list().head()
                <= old(self).pool().free_list().head() + 1,
            forall|x: PageId|
                x != page@.id && old(self).used().contains(x) && old(self).store().contains_key(x)
                    ==> #[trigger] final(self).store().contains_key(x) && final(self).store()[x]
                    == old(self).store()[x],
            match promoted {
                None => {
                    &&& subtree_ok(
                        final(self).store(),
                        final(self).used(),
                        page@.id,
                        h,
                        lo,
                        hi,
                        final(self).limits(),
                        is_root,
                    )
                    &&& forall|k: i64|
                        #[trigger] lookup(final(self).store(), page@.id, h, k) == lookup_from(
                            old(self).store(),
                            page@,
                            h,
                            k,
                        )
                },
                Some((sep, sib)) => {
                    &&& in_range(sep, lo, hi)
                    &&& lo is Some ==> lo.unwrap() < sep
                    &&& !old(self).used().contains(sib)
                    &&& subtree_ok(
                        final(self).store(),
                        final(self).used(),
                        page@.id,
                        h,
                        lo,
                        Some(sep),
                        final(self).limits(),
                        false,
                    )
                    &&& subtree_ok(
                        final(self).store(),
                        final(self).used(),
                        sib,
                        h,
                        Some(sep),
                        hi,
                        final(self).limits(),
                        false,
                    )
                    &&& forall|k: i64|
                        k < sep ==> #[trigger] lookup(final(self).store(), page@.id, h, k)
                            == lookup_from(old(self).store(), page@, h, k)
                    &&& forall|k: i64|
                        k >= sep ==> #[trigger] lookup(final(self).store(), sib, h, k)
                            == lookup_from(old(self).store(), page@, h, k)
                },
            },
    {
        let max: usize = match page.page_type {
            IndexType::Leaf => self.leaf_max_keys,
            IndexType::Internal => self.internal_max_keys,
        };
        if page.keys.len() <= max {
            let ghost node = page@;
            proof {
                lemma_install(
                    self.store(),
                    self.used(),
                    page@,
                    page@.id,
                    h,
                    lo,
                    hi,
                    self.limits(),
                    is_root,
                );
            }
            save(&mut self.buffer_pool, page);
            proof {
                let s0 = old(self).store();
                assert(self.store() == s0.insert(node.id, node));
                assert(self.used() =~= old(self).used());
                if self.limits().leaf_min < 1 {
                    lemma_apart_install(
                        s0,
                        old(self).used(),
                        node,
                        node.id,
                        h,
                        lo,
                        hi,
                        self.limits(),
                        is_root,
                    );
                }
                assert(linked(s0.insert(node.id, node), node.id, h, exit) == linked_from(
                    s0,
                    node,
                    h,
                    exit,
                ));
            }
            None
        } else {
            let ghost node = page@;
            let new_id = create(&mut self.buffer_pool);
            proof {
                lemma_settle_split(
                    old(self).store(),
                    old(self).used(),
                    node,
                    node.id,
                    new_id,
                    h,
                    lo,
                    hi,
                    self.limits(),
                    is_root,
                );
                lemma_split_halves(node, new_id, h, lo, hi, self.limits());
            }
            let mut page = page;
            let (sep, sibling) = page.split(new_id);
            save(&mut self.buffer_pool, page);
            save(&mut self.buffer_pool, sibling);
            proof {
                assert(self.store() == store_after_split(old(self).store(), node, new_id));
                assert(self.used() == old(self).used().insert(new_id));
                assert(linked_from(old(self).store(), node, h, exit));
                if self.limits().leaf_min < 1 {
                    lemma_apart_split(
                        old(self).store(),
                        old(self).used(),
                        node,
                        node.id,
                        new_id,
                        h,
                        lo,
                        hi,
                        self.limits(),
                        is_root,
                    );
                }
            }
            Some((sep, new_id))
        }
    }

    /// Puts the entry `(key, rid)` into the B+ tree from the node `id` down.
    /// Where the node had to be split, returns the new right sibling with
    /// the key that separates the two.
    #[verifier::spinoff_prover]
    #[verifier::rlimit(50)]
    fn insert_into(
        &mut self,
        id: PageId,
        Ghost(h): Ghost<nat>,
        Ghost(lo): Ghost<Option<i64>>,
        Ghost(hi): Ghost<Option<i64>>,
        Ghost(is_root): Ghost<bool>,
        Ghost(exit): Ghost<Option<PageId>>,
        key: i64,
        rid: RecordId,
    ) -> (promoted: Option<(i64, PageId)>)
        requires
            pool_ok(&old(self).pool()),
            old(self).limits().ok(),
            subtree_ok(
                old(self).store(),
                old(self).used(),
                id,
                h,
                lo,
                hi,
                old(self).limits(),
                is_root,
            ),
            in_range(key, lo, hi),
            old(self).headroom(h + 1),
            linked(old(self).store(), id, h, exit),
            told_apart(old(self).limits(), old(self).store(), id, h),
        ensures
            old(self).limits().leaf_min >= 1 || grown_apart(
                old(self).store(),
                old(self).used(),
                final(self).store(),
                id,
                h,
                promoted,
            ),
            pool_ok(&final(self).pool()),
            final(self).same_frame(old(self)),
            first_leaf(final(self).store(), id, h) == first_leaf(old(self).store(), id, h),
            chain_after(final(self).store(), id, h, exit, promoted),
            exists|fresh: Seq<PageId>| #[trigger]
                grown(
                    old(self).store(),
                    old(self).used(),
                    final(self).store(),
                    final(self).used(),
                    id,
                    h,
                    key,
                    rid,
                    old(self).limits(),
                    promoted,
                    fresh,
                ),
            old(self).pool().free_list().head() <= final(self).pool().free_list().head()
                <= old(self).pool().free_list().head() + h + 1,
            forall|x: PageId|
                old(self).used().contains(x) && old(self).store().contains_key(x)
                    && #[trigger] absent(old(self).store(), id, h, x)
                        ==> final(self).store().contains_key(x)
                        && final(self).store()[x] == old(self).store()[x]
                    && final(self).used().contains(x),
            match promoted {
                None => {
                    &&& subtree_ok(
                        final(self).store(),
                        final(self).used(),
                        id,
                        h,
                        lo,
                        hi,
                        final(self).limits(),
                        is_root,
                    )
                    &&& forall|k: i64|
                        #[trigger] lookup(final(self).store(), id, h, k) == after_insert(
                            lookup(old(self).store(), id, h, k),
                            key,
                            rid,
                            k,
                        )
                },
                Some((sep, sib)) => {
                    &&& in_range(sep, lo, hi)
                    &&& lo is Some ==> lo.unwrap() < sep
                    &&& !old(self).used().contains(sib)
                    &&& subtree_ok(
                        final(self).store(),
                        final(self).used(),
                        id,
                        h,
                        lo,
                        Some(sep),
                        final(self).limits(),
                        false,
                    )
                    &&& subtree_ok(
                        final(self).store(),
                        final(self).used(),
                        sib,
                        h,
                        Some(sep),
                        hi,
                        final(self).limits(),
                        false,
                    )
                    &&& forall|k: i64|
                        k < sep ==> #[trigger] lookup(final(self).store(), id, h, k)
                            == after_insert(lookup(old(self).store(), id, h, k), key, rid, k)
                    &&& forall|k: i64|
                        k >= sep ==> #[trigger] lookup(final(self).store(), sib, h, k)
                            == after_insert(lookup(old(self).store(), id, h, k), key, rid, k)
                },
            },
        decreases h,
    {
        let mut page = load(&mut self.buffer_pool, id);
        let ghost node = page@;
        let ghost s0 = self.store();
        let ghost u0 = self.used();
        match page.page_type {
            IndexType::Leaf => {
                page.insert_record(key, rid);
                proof {
                    lemma_leaf_ready(s0, u0, id, lo, hi, self.limits(), is_root, key, rid, page@);
                    assert(linked_from(s0, page@, h, exit)) by {
                        reveal(linked);
                        reveal(linked_from);
                        assert(page@.next == node.next);
                    }
                    assert(apart_from(s0, page@, h)) by {
                        reveal(apart_from);
                    }
                }
                let ghost w = page@;
                let promoted = self.settle(
                    page,
                    Ghost(h),
                    Ghost(lo),
                    Ghost(hi),
                    Ghost(is_root),
                    Ghost(exit),
                );
                proof {
                    assert forall|x: PageId|
                        u0.contains(x) && s0.contains_key(x) && #[trigger] absent(
                            s0,
                            id,
                            h,
                            x,
                        ) implies self.store().contains_key(x) && self.store()[x] == s0[x]
                        && self.used().contains(x) by {
                        assert(x != id);
                        assert(self.store().contains_key(x));
                        assert(self.store()[x] == s0[x]);
                        assert(self.used().contains(x));
                    }
                    if self.limits().leaf_min < 1 {
                        lemma_grown_apart_settled(
                            s0,
                            u0,
                            s0,
                            u0,
                            self.store(),
                            id,
                            h,
                            w,
                            promoted,
                        );
                    }
                    lemma_grown_leaf(
                        s0,
                        u0,
                        self.store(),
                        self.used(),
                        id,
                        key,
                        rid,
                        self.limits(),
                        promoted,
                    );
                }
                promoted
            },
            IndexType::Internal => {
                proof {
                    lemma_first_above(node.keys, key, 0);
                }
                let ghost i = first_above(node.keys, key, 0);
                let ghost hc = (h - 1) as nat;
                let ghost clo = child_lo(node, i, lo);
                let ghost chi = child_hi(node, i, hi);
                let child: PageId = match page.search_child(&key) {
                    Some(child) => child,
                    None => {
                        assert(false);
                        return None;
                    },
                };
                let ghost cexit = exit_of(s0, node, i, h, exit);
                proof {
                    assert(child == node.children[i]);
                    assert(subtree_ok(s0, u0, child, hc, clo, chi, self.limits(), false));
                    if i > 0 {
                        assert(node.keys[i - 1] <= key);
                    }
                    lemma_linked_child(s0, id, h, exit, i);
                    lemma_told_child(self.limits(), s0, id, h, i);
                }
                let below = self.insert_into(
                    child,
                    Ghost(hc),
                    Ghost(clo),
                    Ghost(chi),
                    Ghost(false),
                    Ghost(cexit),
                    key,
                    rid,
                );
                let ghost s1 = self.store();
                let ghost u1 = self.used();
                let ghost fc = choose|f: Seq<PageId>|
                    grown(s0, u0, s1, u1, child, hc, key, rid, self.limits(), below, f);
                proof {
                    lemma_after_child(s0, u0, s1, u1, id, h, lo, hi, self.limits(), is_root, i);
                    assert forall|x: PageId|
                        u0.contains(x) && s0.contains_key(x) && #[trigger] absent(
                            s0,
                            id,
                            h,
                            x,
                        ) implies s1.contains_key(x) && s1[x] == s0[x] && u1.contains(x) by {
                        assert(absent(s0, node.children[i], hc, x));
                    }
                }
                match below {
                    None => {
                        proof {
                            lemma_internal_none(
                                s0,
                                u0,
                                s1,
                                u1,
                                id,
                                h,
                                lo,
                                hi,
                                self.limits(),
                                is_root,
                                key,
                                rid,
                            );
                            lemma_linked_after_child(
                                s0,
                                u0,
                                s1,
                                u1,
                                id,
                                h,
                                lo,
                                hi,
                                self.limits(),
                                is_root,
                                i,
                                exit,
                            );
                            lemma_grown_none(s0, u0, s1, u1, id, h, key, rid, self.limits(), fc);
                            if self.limits().leaf_min < 1 {
                                lemma_grown_apart_none(
                                    s0,
                                    u0,
                                    s1,
                                    u1,
                                    id,
                                    h,
                                    lo,
                                    hi,
                                    self.limits(),
                                    is_root,
                                    i,
                                );
                            }
                        }
                        None
                    },
                    Some((sep, sib)) => {
                        proof {
                            crate::storage::page::index_page::lemma_rank_is(node.keys, sep, i);
                            crate::storage::page::index_page::lemma_rank(node.keys, sep);
                        }
                        page.insert_child(sep, sib);
                        proof {
                            lemma_internal_some(
                                s0,
                                u0,
                                s1,
                                u1,
                                id,
                                h,
                                lo,
                                hi,
                                self.limits(),
                                is_root,
                                key,
                                rid,
                                sep,
                                sib,
                                page@,
                            );
                            lemma_linked_after_split(
                                s0,
                                u0,
                                s1,
                                u1,
                                id,
                                h,
                                lo,
                                hi,
                                self.limits(),
                                is_root,
                                i,
                                exit,
                                sep,
                                sib,
                                page@,
                            );
                        }
                        let ghost node2 = page@;
                        proof {
                            if self.limits().leaf_min < 1 {
                                lemma_grown_apart_some(
                                    s0,
                                    u0,
                                    s1,
                                    u1,
                                    id,
                                    h,
                                    lo,
                                    hi,
                                    self.limits(),
                                    is_root,
                                    i,
                                    (sep, sib),
                                    node2,
                                );
                            }
                        }
                        let promoted = self.settle(
                            page,
                            Ghost(h),
                            Ghost(lo),
                            Ghost(hi),
                            Ghost(is_root),
                            Ghost(exit),
                        );
                        proof {
                            assert forall|x: PageId|
                                u0.contains(x) && s0.contains_key(x) && #[trigger] absent(
                                    s0,
                                    id,
                                    h,
                                    x,
                                ) implies self.store().contains_key(x) && self.store()[x] == s0[x]
                                && self.used().contains(x) by {
                                assert(x != id);
                                assert(s1.contains_key(x) && s1[x] == s0[x] && u1.contains(x));
                                assert(self.store().contains_key(x));
                                assert(self.store()[x] == s1[x]);
                                assert(self.used().contains(x));
                            }
                            if self.limits().leaf_min < 1 {
                                lemma_grown_apart_settled(
                                    s0,
                                    u0,
                                    s1,
                                    u1,
                                    self.store(),
                                    id,
                                    h,
                                    node2,
                                    promoted,
                                );
                            }
                            lemma_grown_some(
                                s0,
                                u0,
                                s1,
                                u1,
                                self.store(),
                                self.used(),
                                id,
                                h,
                                key,
                                rid,
                                self.limits(),
                                fc,
                                (sep, sib),
                                promoted,
                            );
                        }
                        promoted
                    },
                }
            },
        }
    }

    /// Puts the entry `(key, rid)` into the index. If the key is there
    /// already, its record id is replaced.
    #[verifier::spinoff_prover]
    pub fn insert(&mut self, key: i64, rid: RecordId)
        requires
            old(self).wf(),
            old(self).headroom(old(self).height() + 2),
        ensures
            final(self).wf(),
            final(self)@ == old(self)@.insert(key, rid),
            final(self).height() == old(self).height() ==> final(self).root() == old(self).root(),
            final(self).height() != old(self).height() ==> {
                let top = final(self).store()[final(self).root()];
                &&& !old(self).used().contains(final(self).root())
                &&& top.page_type == IndexType::Internal
                &&& top.keys.len() == 1
                &&& top.children.len() == 2
                &&& top.children[0] == old(self).root()
                &&& !old(self).used().contains(top.children[1])
            },
            forall|x: PageId| old(self).used().contains(x) ==> final(self).used().contains(x),
            exists|fresh: Seq<PageId>| #[trigger]
                tree_grown(
                    old(self).store(),
                    old(self).used(),
                    old(self).root(),
                    old(self).height(),
                    final(self).store(),
                    final(self).used(),
                    final(self).root(),
                    final(self).height(),
                    key,
                    rid,
                    old(self).limits(),
                    fresh,
                ),
            final(self).limits() == old(self).limits(),
            old(self).height() <= final(self).height() <= old(self).height() + 1,
            final(self).pool().capacity() == old(self).pool().capacity(),
            final(self).pool().free_list().head()
                <= old(self).pool().free_list().head() + old(self).height() + 2,
    {
        let ghost h = self.height@;
        let root_id = self.root;
        let promoted = self.insert_into(
            root_id,
            Ghost(h),
            Ghost(None),
            Ghost(None),
            Ghost(true),
            Ghost(None),
            key,
            rid,
        );
        let ghost s1 = self.store();
        let ghost u1 = self.used();
        let ghost s0 = old(self).store();
        let ghost u0 = old(self).used();
        let ghost below = choose|f: Seq<PageId>|
            grown(s0, u0, s1, u1, root_id, h, key, rid, self.limits(), promoted, f);
        match promoted {
            None => {
                proof {
                    lemma_tree_grown(
                        s0,
                        u0,
                        s1,
                        u1,
                        s1,
                        u1,
                        root_id,
                        h,
                        key,
                        rid,
                        self.limits(),
                        below,
                        promoted,
                        root_id,
                    );
                    assert forall|k: i64|
                        #[trigger] lookup(self.store(), self.root(), self.height(), k)
                            == after_insert(lookup(old(self).store(), root_id, h, k), key, rid,
                                k) by {}
                    assert(self@ =~= old(self)@.insert(key, rid));
                }
            },
            Some((sep, sib)) => {
                let ghost s1 = self.store();
                let ghost u1 = self.used();
                let new_root = create(&mut self.buffer_pool);
                let mut page = IndexPage::new(new_root, IndexType::Internal);
                page.children.push(root_id);
                page.children.push(sib);
                page.keys.push(sep);
                proof {
                    let node = page@;
                    let s2 = self.store();
                    let u2 = self.used();
                    assert(node.keys =~= seq![sep]);
                    assert(node.children =~= seq![root_id, sib]);
                    lemma_fresh_absent(s1, u1, root_id, h, None, Some(sep), self.limits(), false,
                        new_root);
                    lemma_fresh_absent(s1, u1, sib, h, Some(sep), None, self.limits(), false,
                        new_root);
                    let empty = IndexPageView::empty(new_root, IndexType::Leaf);
                    lemma_keep(s1, u1, new_root, empty, u2, root_id, h, None, Some(sep),
                        self.limits(), false);
                    lemma_keep(s1, u1, new_root, empty, u2, sib, h, Some(sep), None, self.limits(),
                        false);
                    assert(children_ok(s2, u2, node, (h
                        + 1) as nat, None, None, self.limits())) by {
                        assert forall|m: int| 0 <= m <= node.keys.len() implies subtree_ok(
                            s2,
                            u2,
                            #[trigger] node.children[m],
                            h,
                            child_lo(node, m, None),
                            child_hi(node, m, None),
                            self.limits(),
                            false,
                        ) by {
                            if m == 0 {
                                assert(node.children[0] == root_id);
                            } else {
                                assert(node.children[1] == sib);
                            }
                        }
                    }
                    assert forall|m: int| 0 <= m <= node.keys.len() implies absent(
                        s2,
                        #[trigger] node.children[m],
                        h,
                        new_root,
                    ) by {
                        if m == 0 {
                            assert(node.children[0] == root_id);
                        } else {
                            assert(node.children[1] == sib);
                        }
                    }
                    assert(ready(s2, u2, node, new_root, (h
                        + 1) as nat, None, None, self.limits(), true));
                    lemma_install(s2, u2, node, new_root, (h
                        + 1) as nat, None, None, self.limits(), true);
                    assert(linked_from(s2, node, (h + 1) as nat, None)) by {
                        reveal(linked_from);
                        assert(first_leaf(s2, sib, h) == first_leaf(s1, sib, h));
                        assert forall|m: int| 0 <= m <= node.keys.len() implies linked(
                            s2,
                            #[trigger] node.children[m],
                            h,
                            exit_of(s2, node, m, (h + 1) as nat, None),
                        ) by {
                            if m == 0 {
                                assert(node.children[0] == root_id);
                                assert(node.children[1] == sib);
                                assert(linked(s1, root_id, h, Some(first_leaf(s1, sib, h))));
                            } else {
                                assert(node.children[1] == sib);
                                assert(linked(s1, sib, h, None));
                            }
                        }
                    }
                    assert(linked(s2.insert(new_root, node), new_root, (h + 1) as nat, None));
                    if self.limits().leaf_min < 1 {
                        lemma_apart_root(
                            s1,
                            u1,
                            u2,
                            root_id,
                            sib,
                            sep,
                            h,
                            self.limits(),
                            node,
                        );
                        assert(s2.insert(new_root, node) =~= s1.insert(new_root, node));
                    }
                    assert forall|k: i64|
                        #[trigger] lookup(s2.insert(new_root, node), new_root, (h + 1) as nat, k)
                            == after_insert(lookup(old(self).store(), root_id, h, k), key, rid,
                                k) by {
                        assert(lookup(s2.insert(new_root, node), new_root, (h + 1) as nat, k)
                            == lookup_from(s2, node, (h + 1) as nat, k));
                        if k < sep {
                            lemma_first_above_is(node.keys, k, 0);
                            assert(lookup(s2, root_id, h, k) == lookup(s1, root_id, h, k));
                        } else {
                            lemma_first_above_is(node.keys, k, 1);
                            assert(lookup(s2, sib, h, k) == lookup(s1, sib, h, k));
                        }
                    }
                }
                let ghost s2 = self.store();
                let ghost node = page@;
                save(&mut self.buffer_pool, page);
                self.root = new_root;
                self.height = Ghost((h + 1) as nat);
                proof {
                    assert(self.store() == s2.insert(new_root, node));
                    assert(node =~= root_over(new_root, root_id, sep, sib)) by {
                        assert(node.keys =~= seq![sep]);
                        assert(node.children =~= seq![root_id, sib]);
                        assert(node.rids =~= Seq::<RecordId>::empty());
                    }
                    assert(self.store() =~= s1.insert(new_root, node));
                    assert(self.used() =~= u1.insert(new_root));
                    lemma_tree_grown(
                        s0,
                        u0,
                        s1,
                        u1,
                        self.store(),
                        self.used(),
                        root_id,
                        h,
                        key,
                        rid,
                        self.limits(),
                        below,
                        promoted,
                        new_root,
                    );
                    assert(tree_grown(
                        s0,
                        u0,
                        root_id,
                        h,
                        self.store(),
                        self.used(),
                        new_root,
                        h + 1,
                        key,
                        rid,
                        self.limits(),
                        below.push(new_root),
                    ));
                    assert(u0.contains(sib) ==> u1.contains(sib));
                    assert forall|k: i64|
                        #[trigger] lookup(self.store(), self.root(), self.height(), k)
                            == after_insert(lookup(old(self).store(), root_id, h, k), key, rid,
                                k) by {
                        assert(lookup(s2.insert(new_root, node), new_root, (h + 1) as nat, k)
                            == after_insert(lookup(old(self).store(), root_id, h, k), key, rid, k));
                    }
                    assert(self@ =~= old(self)@.insert(key, rid));
                }
            },
        }
    }
}

/// What a deletion below the node `id` leaves of the chain of leaves: the
/// leaves below the node, or below the node `under` that is to take its
/// place, are chained up to `exit` and begin with the leaf `first`.
pub open spec fn chain_left(
    s: Store,
    id: PageId,
    h: nat,
    exit: Option<PageId>,
    under: Option<IndexPage>,
    first: PageId,
) -> bool {
    match under {
        None => linked(s, id, h, exit) && first_leaf(s, id, h) == first,
        Some(page) => linked_from(s, page@, h, exit) && first_leaf_from(s, page@, h) == first,
    }
}

/// The place of the child of an internal node that a search for `key`
/// goes to.
fn route(page: &IndexPage, key: i64) -> (i: usize)
    ensures
        i == first_above(page@.keys, key, 0),
        i <= page@.keys.len(),
{
    let n: usize = page.keys.len();
    let mut i: usize = 0;
    while i < n
        invariant
            n == page.keys@.len(),
            i <= n,
            first_above(page.keys@, key, 0) == first_above(page.keys@, key, i as int),
        decreases n - i,
    {
        if key < page.keys[i] {
            return i;
        }
        i += 1;
    }
    i
}

impl<D: DiskManager<IndexPage>, H: DiskManager<HeaderPage>, S: ReplacementStrategy> BPlusTree<
    D,
    H,
    S,
> {
    /// What a deletion leaves as it was but for pages that it gives back:
    /// the bounds, the root and the height of the tree, the capacity of its
    /// pool and the number of header pages of the free list.
    pub open spec fn same_basics(&self, before: &Self) -> bool {
        &&& self.limits() == before.limits()
        &&& self.root() == before.root()
        &&& self.height() == before.height()
        &&& self.pool().capacity() == before.pool().capacity()
        &&& self.pool().free_list().head() == before.pool().free_list().head()
        &&& forall|x: PageId| self.used().contains(x) ==> before.used().contains(x)
    }

    /// Moves one entry between two children side by side of the node
    /// `page`, from the left one to the right one or the other way, writes
    /// the two children and returns the node with the new key between them.
    #[verifier::spinoff_prover]
    fn rotate(
        &mut self,
        page: IndexPage,
        left: IndexPage,
        right: IndexPage,
        a: usize,
        from_left: bool,
        Ghost(h): Ghost<nat>,
        Ghost(lo): Ghost<Option<i64>>,
        Ghost(hi): Ghost<Option<i64>>,
        Ghost(is_root): Ghost<bool>,
        Ghost(exit): Ghost<Option<PageId>>,
    ) -> (page2: IndexPage)
        requires
            pair_chain(old(self).store(), page@, h, exit, a as int, left@, right@),
            pool_ok(&old(self).pool()),
            old(self).limits().ok(),
            pair_state(
                old(self).store(),
                old(self).used(),
                page@,
                page@.id,
                h,
                lo,
                hi,
                old(self).limits(),
                a as int,
                left@,
                right@,
            ),
            is_root || page@.keys.len() >= old(self).limits().internal_min,
            from_left ==> left@.keys.len() > min_keys(old(self).limits(), (h - 1) as nat)
                && right@.keys.len() == min_keys(old(self).limits(), (h - 1) as nat) - 1,
            !from_left ==> right@.keys.len() > min_keys(old(self).limits(), (h - 1) as nat)
                && left@.keys.len() == min_keys(old(self).limits(), (h - 1) as nat) - 1,
        ensures
            pool_ok(&final(self).pool()),
            final(self).same_basics(old(self)),
            final(self).used() == old(self).used(),
            linked_from(final(self).store(), page2@, h, exit),
            first_leaf_from(final(self).store(), page2@, h) == first_at(
                old(self).store(),
                page@,
                (h - 1) as nat,
                0,
                a as int,
                left@,
                right@,
            ),
            page2@.id == page@.id,
            final(self).store() == store_rotated(
                old(self).store(),
                page@,
                a as int,
                left@,
                right@,
                from_left,
            ),
            page2@ == node_rotated(page@, a as int, left@, right@, from_left),
            page2@.keys.len() <= final(self).limits().internal_max,
            ready(
                final(self).store(),
                final(self).used(),
                page2@,
                page@.id,
                h,
                lo,
                hi,
                final(self).limits(),
                is_root,
            ),
            forall|k: i64|
                #[trigger] lookup_from(final(self).store(), page2@, h, k) == lookup_around(
                    old(self).store(),
                    page@,
                    a as int,
                    left@,
                    right@,
                    h,
                    k,
                ),
            forall|x: PageId|
                x != left@.id && x != right@.id && old(self).store().contains_key(x)
                    ==> #[trigger] final(self).store().contains_key(x) && final(self).store()[x]
                    == old(self).store()[x],
    {
        let ghost s = self.store();
        let ghost u = self.used();
        let ghost node = page@;
        let ghost hc = (h - 1) as nat;
        let ghost llo = child_lo(node, a as int, lo);
        let ghost rhi = child_hi(node, a as int + 1, hi);
        let ghost sep = node.keys[a as int];
        let ghost l0 = left@;
        let ghost r0 = right@;
        proof {
            lemma_pair_absences(s, u, node, node.id, h, lo, hi, self.limits(), a as int, l0, r0);
            if from_left {
                lemma_borrow_from_left(s, u, l0, r0, sep, hc, llo, rhi, self.limits());
            } else {
                lemma_borrow_from_right(
                    s,
                    u,
                    l0,
                    r0,
                    sep,
                    hc,
                    llo,
                    rhi,
                    self.limits(),
                    if hc == 0 {
                        r0.keys[1]
                    } else {
                        r0.keys[0]
                    },
                );
            }
            lemma_kids_after_borrow(s, l0, r0, sep, from_left, hc, node.id);
            lemma_kids_after_borrow(s, l0, r0, sep, from_left, hc, l0.id);
            lemma_kids_after_borrow(s, l0, r0, sep, from_left, hc, r0.id);
        }
        let min: usize = match left.page_type {
            IndexType::Leaf => self.leaf_min_keys,
            IndexType::Internal => self.internal_min_keys,
        };
        let mut page = page;
        let mut left = left;
        let mut right = right;
        let old_sep: i64 = page.keys[a];
        let new_sep = if from_left {
            right.redistribute(&mut left, old_sep, true, min)
        } else {
            left.redistribute(&mut right, old_sep, false, min)
        };
        let sep2: i64 = match new_sep {
            Some(sep2) => sep2,
            None => {
                assert(false);
                old_sep
            },
        };
        proof {
            if from_left {
                assert(right@ == r0.borrowed(l0, sep, true));
                assert(left@ == l0.lent(true));
                assert(sep2 == l0.keys.last());
                assert forall|k: i64|
                    #[trigger] pair_lookup(s, left@, right@, sep2, hc, k) == pair_lookup(
                        s,
                        l0,
                        r0,
                        sep,
                        hc,
                        k,
                    ) by {
                    assert(pair_lookup(s, l0.lent(true), r0.borrowed(l0, sep, true),
                        l0.keys.last(), hc, k)
                        == pair_lookup(s, l0, r0, sep, hc, k));
                }
            } else {
                assert(left@ == l0.borrowed(r0, sep, false));
                assert(right@ == r0.lent(false));
                assert(sep2 == (if hc == 0 {
                    r0.keys[1]
                } else {
                    r0.keys[0]
                }));
                assert forall|k: i64|
                    #[trigger] pair_lookup(s, left@, right@, sep2, hc, k) == pair_lookup(
                        s,
                        l0,
                        r0,
                        sep,
                        hc,
                        k,
                    ) by {
                    assert(pair_lookup(s, l0.borrowed(r0, sep, false), r0.lent(false), sep2, hc, k)
                        == pair_lookup(s, l0, r0, sep, hc, k));
                }
            }
        }
        page.keys[a] = sep2;
        proof {
            lemma_store_borrow(
                s,
                u,
                node,
                node.id,
                h,
                lo,
                hi,
                self.limits(),
                is_root,
                a as int,
                l0,
                r0,
                left@,
                right@,
                sep2,
            );
            assert(page@ == (IndexPageView { keys: node.keys.update(a as int, sep2), ..node }));
            lemma_chain_borrow(
                s,
                store_after_borrow(s, left@, right@),
                node,
                h,
                exit,
                a as int,
                l0,
                r0,
                left@,
                right@,
                sep,
                sep2,
                from_left,
            );
        }
        save(&mut self.buffer_pool, left);
        save(&mut self.buffer_pool, right);
        proof {
            assert(self.store() == store_after_borrow(s, left@, right@));
        }
        page
    }

    /// Merges two children side by side of the node `page` into the left
    /// one, writes it, gives the page of the right one back and returns the
    /// node without the key between the two and without the right one.
    #[verifier::spinoff_prover]
    fn fuse(
        &mut self,
        page: IndexPage,
        left: IndexPage,
        right: IndexPage,
        a: usize,
        Ghost(h): Ghost<nat>,
        Ghost(lo): Ghost<Option<i64>>,
        Ghost(hi): Ghost<Option<i64>>,
        Ghost(exit): Ghost<Option<PageId>>,
    ) -> (page2: IndexPage)
        requires
            pair_chain(old(self).store(), page@, h, exit, a as int, left@, right@),
            pool_ok(&old(self).pool()),
            old(self).limits().ok(),
            pair_state(
                old(self).store(),
                old(self).used(),
                page@,
                page@.id,
                h,
                lo,
                hi,
                old(self).limits(),
                a as int,
                left@,
                right@,
            ),
            left@.keys.len() + right@.keys.len() == 2 * min_keys(
                old(self).limits(),
                (h - 1) as nat,
            ) - 1,
        ensures
            pool_ok(&final(self).pool()),
            final(self).same_basics(old(self)),
            linked_from(final(self).store(), page2@, h, exit),
            first_leaf_from(final(self).store(), page2@, h) == first_at(
                old(self).store(),
                page@,
                (h - 1) as nat,
                0,
                a as int,
                left@,
                right@,
            ),
            forall|x: PageId|
                #[trigger] final(self).used().contains(x) == (old(self).used().contains(x) && x
                    != right@.id),
            page2@.id == page@.id,
            page2@.keys.len() + 1 == page@.keys.len(),
            page2@ == node_fused(page@, a as int),
            agree(
                final(self).store(),
                old(self).store().insert(
                    left@.id,
                    merged_node(left@, right@, page@.keys[a as int], (h - 1) as nat),
                ),
                final(self).used(),
            ),
            loose(
                final(self).store(),
                final(self).used(),
                page2@,
                page@.id,
                h,
                lo,
                hi,
                final(self).limits(),
            ),
            final(self).store()[page@.id] == page@,
            depth(final(self).store(), page@.id, h),
            forall|k: i64|
                #[trigger] lookup_from(final(self).store(), page2@, h, k) == lookup_around(
                    old(self).store(),
                    page@,
                    a as int,
                    left@,
                    right@,
                    h,
                    k,
                ),
            forall|x: PageId|
                x != left@.id && x != right@.id && old(self).store().contains_key(x)
                    ==> #[trigger] final(self).store().contains_key(x) && final(self).store()[x]
                    == old(self).store()[x],
    {
        let ghost s = self.store();
        let ghost u = self.used();
        let ghost node = page@;
        let ghost hc = (h - 1) as nat;
        let ghost llo = child_lo(node, a as int, lo);
        let ghost rhi = child_hi(node, a as int + 1, hi);
        let ghost sep = node.keys[a as int];
        let ghost l0 = left@;
        let ghost r0 = right@;
        proof {
            lemma_pair_absences(s, u, node, node.id, h, lo, hi, self.limits(), a as int, l0, r0);
            lemma_merge(s, u, l0, r0, sep, hc, llo, rhi, self.limits());
            lemma_kids_after_merge(s, l0, r0, sep, hc, node.id);
            lemma_kids_after_merge(s, l0, r0, sep, hc, r0.id);
        }
        let mut page = page;
        let mut left = left;
        let mut right = right;
        let right_id: PageId = right.id;
        let sep_key: i64 = page.keys.remove(a);
        page.children.remove(a + 1);
        match left.page_type {
            IndexType::Internal => {
                left.keys.push(sep_key);
            },
            IndexType::Leaf => {},
        }
        left.merge(&mut right);
        proof {
            assert(left@ == merged_node(l0, r0, sep, hc));
        }
        let ghost merged = left@;
        save(&mut self.buffer_pool, left);
        let ghost saved = self.store();
        let freed = self.buffer_pool.free_page(right_id, FLUSH);
        proof {
            assert(freed is Ok);
            assert forall|x: PageId| self.pool().pin_count(x) == 0 by {
                self.pool().lemma_pinned_is_resident(x);
            }
            lemma_store_merge(
                s,
                u,
                node,
                node.id,
                h,
                lo,
                hi,
                self.limits(),
                a as int,
                l0,
                r0,
                merged,
                self.store(),
                self.used(),
            );
            lemma_chain_merge(s, self.store(), node, h, exit, a as int, l0, r0, sep);
            assert(page@ == node_fused(node, a as int));
            assert(saved == s.insert(l0.id, merged));
            assert forall|x: PageId| #[trigger] self.used().contains(x) implies self.store(
                ).contains_key(
                x,
            ) == saved.contains_key(x) && (self.store().contains_key(x) ==> self.store()[x]
                == saved[x]) by {
                assert(x != right_id);
                if saved.contains_key(x) {
                    assert(self.store().contains_key(x));
                } else {
                    assert(!self.store().contains_key(x));
                }
            }
        }
        page
    }

    /// Moves one entry between two children side by side of the node
    /// `page` and writes the two children and the node.
    #[verifier::spinoff_prover]
    fn rotate_and_save(
        &mut self,
        page: IndexPage,
        left: IndexPage,
        right: IndexPage,
        a: usize,
        from_left: bool,
        Ghost(h): Ghost<nat>,
        Ghost(lo): Ghost<Option<i64>>,
        Ghost(hi): Ghost<Option<i64>>,
        Ghost(is_root): Ghost<bool>,
        Ghost(exit): Ghost<Option<PageId>>,
    )
        requires
            pair_chain(old(self).store(), page@, h, exit, a as int, left@, right@),
            pool_ok(&old(self).pool()),
            old(self).limits().ok(),
            pair_state(
                old(self).store(),
                old(self).used(),
                page@,
                page@.id,
                h,
                lo,
                hi,
                old(self).limits(),
                a as int,
                left@,
                right@,
            ),
            is_root || page@.keys.len() >= old(self).limits().internal_min,
            from_left ==> left@.keys.len() > min_keys(old(self).limits(), (h - 1) as nat)
                && right@.keys.len() == min_keys(old(self).limits(), (h - 1) as nat) - 1,
            !from_left ==> right@.keys.len() > min_keys(old(self).limits(), (h - 1) as nat)
                && left@.keys.len() == min_keys(old(self).limits(), (h - 1) as nat) - 1,
        ensures
            pool_ok(&final(self).pool()),
            final(self).same_basics(old(self)),
            final(self).used() == old(self).used(),
            linked(final(self).store(), page@.id, h, exit),
            final(self).store() == rotated(
                old(self).store(),
                page@,
                a as int,
                left@,
                right@,
                from_left,
            ).store,
            first_leaf(final(self).store(), page@.id, h) == first_at(
                old(self).store(),
                page@,
                (h - 1) as nat,
                0,
                a as int,
                left@,
                right@,
            ),
            subtree_ok(
                final(self).store(),
                final(self).used(),
                page@.id,
                h,
                lo,
                hi,
                final(self).limits(),
                is_root,
            ),
            forall|k: i64|
                #[trigger] lookup(final(self).store(), page@.id, h, k) == lookup_around(
                    old(self).store(),
                    page@,
                    a as int,
                    left@,
                    right@,
                    h,
                    k,
                ),
            forall|x: PageId|
                x != left@.id && x != right@.id && x != page@.id && old(self).store().contains_key(
                    x,
                ) ==> #[trigger] final(self).store().contains_key(x) && final(self).store()[x]
                    == old(self).store()[x],
    {
        let ghost id = page@.id;
        let page2 = self.rotate(
            page,
            left,
            right,
            a,
            from_left,
            Ghost(h),
            Ghost(lo),
            Ghost(hi),
            Ghost(is_root),
            Ghost(exit),
        );
        let ghost s1 = self.store();
        let ghost node2 = page2@;
        proof {
            lemma_install(s1, self.used(), node2, id, h, lo, hi, self.limits(), is_root);
        }
        save(&mut self.buffer_pool, page2);
        proof {
            assert(self.store() == s1.insert(id, node2));
            assert(linked(s1.insert(id, node2), id, h, exit) == linked_from(s1, node2, h, exit));
            assert forall|x: PageId|
                x != left@.id && x != right@.id && x != page@.id && old(self).store().contains_key(
                    x,
                ) implies #[trigger] self.store().contains_key(x)
                    && self.store()[x] == old(self).store()[x] by {
                assert(s1.contains_key(x));
                assert(s1[x] == old(self).store()[x]);
            }
            assert forall|k: i64|
                #[trigger] lookup(self.store(), id, h, k) == lookup_around(
                    old(self).store(),
                    page@,
                    a as int,
                    left@,
                    right@,
                    h,
                    k,
                ) by {
                assert(lookup(s1.insert(id, node2), id, h, k) == lookup_from(s1, node2, h, k));
            }
        }
    }

    /// Merges two children side by side of the node `page` into the left
    /// one and writes the node, unless the node now lacks a key itself; it
    /// is returned then.
    #[verifier::spinoff_prover]
    fn fuse_and_settle(
        &mut self,
        page: IndexPage,
        left: IndexPage,
        right: IndexPage,
        a: usize,
        Ghost(h): Ghost<nat>,
        Ghost(lo): Ghost<Option<i64>>,
        Ghost(hi): Ghost<Option<i64>>,
        is_root: bool,
        Ghost(exit): Ghost<Option<PageId>>,
    ) -> (under: Option<IndexPage>)
        requires
            pair_chain(old(self).store(), page@, h, exit, a as int, left@, right@),
            pool_ok(&old(self).pool()),
            old(self).limits().ok(),
            pair_state(
                old(self).store(),
                old(self).used(),
                page@,
                page@.id,
                h,
                lo,
                hi,
                old(self).limits(),
                a as int,
                left@,
                right@,
            ),
            left@.keys.len() + right@.keys.len() == 2 * min_keys(
                old(self).limits(),
                (h - 1) as nat,
            ) - 1,
        ensures
            pool_ok(&final(self).pool()),
            final(self).same_basics(old(self)),
            cut_done(
                old(self).used(),
                final(self).store(),
                final(self).used(),
                under,
                fused(
                    old(self).store(),
                    page@,
                    a as int,
                    left@,
                    right@,
                    h,
                    old(self).limits(),
                    is_root,
                ),
            ),
            chain_left(final(self).store(), page@.id, h, exit, under, first_at(
                old(self).store(),
                page@,
                (h - 1) as nat,
                0,
                a as int,
                left@,
                right@,
            )),
            forall|x: PageId|
                #[trigger] final(self).used().contains(x) == (old(self).used().contains(x) && x
                    != right@.id),
            forall|x: PageId|
                x != left@.id && x != right@.id && x != page@.id && old(self).store().contains_key(
                    x,
                ) ==> #[trigger] final(self).store().contains_key(x) && final(self).store()[x]
                    == old(self).store()[x],
            match under {
                None => {
                    &&& subtree_ok(
                        final(self).store(),
                        final(self).used(),
                        page@.id,
                        h,
                        lo,
                        hi,
                        final(self).limits(),
                        is_root,
                    )
                    &&& forall|k: i64|
                        #[trigger] lookup(final(self).store(), page@.id, h, k) == lookup_around(
                            old(self).store(),
                            page@,
                            a as int,
                            left@,
                            right@,
                            h,
                            k,
                        )
                },
                Some(page2) => {
                    &&& loose(
                        final(self).store(),
                        final(self).used(),
                        page2@,
                        page@.id,
                        h,
                        lo,
                        hi,
                        final(self).limits(),
                    )
                    &&& page2@.keys.len() + 1 == page@.keys.len()
                    &&& page2@.keys.len() == 0 || (!is_root && page2@.keys.len()
                        < final(self).limits().internal_min)
                    &&& final(self).store()[page@.id] == page@
                    &&& depth(final(self).store(), page@.id, h)
                    &&& forall|k: i64|
                        #[trigger] lookup_from(final(self).store(), page2@, h, k) == lookup_around(
                            old(self).store(),
                            page@,
                            a as int,
                            left@,
                            right@,
                            h,
                            k,
                        )
                },
            },
    {
        let page2 = self.fuse(page, left, right, a, Ghost(h), Ghost(lo), Ghost(hi), Ghost(exit));
        let ghost mid = self.store();
        let ghost node2 = page2@;
        let under = self.settle_after_merge(page2, Ghost(h), Ghost(lo), Ghost(hi), is_root);
        proof {
            assert forall|x: PageId|
                x != left@.id && x != right@.id && x != page@.id && old(self).store().contains_key(
                    x,
                ) implies #[trigger] self.store().contains_key(x)
                    && self.store()[x] == old(self).store()[x] by {
                assert(mid.contains_key(x) && mid[x] == old(self).store()[x]);
            }
            if under is None {
                assert(linked(self.store(), node2.id, h, exit) == linked_from(mid, node2, h, exit));
            }
        }
        under
    }

    /// Makes up for the key that the child `i` of the node `page` lacks
    /// after a deletion below it: takes an entry from the left sibling of
    /// the child if that has one to spare, else from the right sibling,
    /// else merges the child with its left sibling, or with its right one
    /// where it has no left one. Writes the node, unless the node now lacks
    /// a key itself; it is returned then.
    #[verifier::spinoff_prover]
    #[verifier::rlimit(60)]
    fn rebalance(
        &mut self,
        page: IndexPage,
        child: IndexPage,
        i: usize,
        Ghost(h): Ghost<nat>,
        Ghost(lo): Ghost<Option<i64>>,
        Ghost(hi): Ghost<Option<i64>>,
        is_root: bool,
        Ghost(exit): Ghost<Option<PageId>>,
    ) -> (under: Option<IndexPage>)
        requires
            pending_chain(old(self).store(), page@, h, exit, i as int, child@),
            pool_ok(&old(self).pool()),
            old(self).limits().ok(),
            pending(
                old(self).store(),
                old(self).used(),
                page@,
                page@.id,
                h,
                lo,
                hi,
                old(self).limits(),
                i as int,
                child@,
            ),
            is_root || page@.keys.len() >= old(self).limits().internal_min,
        ensures
            pool_ok(&final(self).pool()),
            final(self).same_basics(old(self)),
            chain_left(
                final(self).store(),
                page@.id,
                h,
                exit,
                under,
                first_with(old(self).store(), page@, (h - 1) as nat, 0, i as int, child@),
            ),
            final(self).used().contains(page@.id),
            cut_done(
                old(self).used(),
                final(self).store(),
                final(self).used(),
                under,
                mended(
                    old(self).store(),
                    page@,
                    child@,
                    i as int,
                    h,
                    old(self).limits(),
                    is_root,
                ),
            ),
            forall|x: PageId|
                old(self).used().contains(x) && old(self).store().contains_key(x) && x != page@.id
                    && !page@.children.contains(x) ==> #[trigger] final(self).store().contains_key(
                    x,
                ) && final(self).store()[x] == old(self).store()[x] && final(self).used().contains(
                    x,
                ),
            match under {
                None => {
                    &&& subtree_ok(
                        final(self).store(),
                        final(self).used(),
                        page@.id,
                        h,
                        lo,
                        hi,
                        final(self).limits(),
                        is_root,
                    )
                    &&& forall|k: i64|
                        #[trigger] lookup(final(self).store(), page@.id, h, k) == lookup_with(
                            old(self).store(),
                            page@,
                            i as int,
                            child@,
                            h,
                            k,
                        )
                },
                Some(page2) => {
                    &&& loose(
                        final(self).store(),
                        final(self).used(),
                        page2@,
                        page@.id,
                        h,
                        lo,
                        hi,
                        final(self).limits(),
                    )
                    &&& page2@.keys.len() + 1 == page@.keys.len()
                    &&& page2@.keys.len() == 0 || (!is_root && page2@.keys.len()
                        < final(self).limits().internal_min)
                    &&& final(self).store()[page@.id] == page@
                    &&& depth(final(self).store(), page@.id, h)
                    &&& forall|k: i64|
                        #[trigger] lookup_from(final(self).store(), page2@, h, k) == lookup_with(
                            old(self).store(),
                            page@,
                            i as int,
                            child@,
                            h,
                            k,
                        )
                },
            },
    {
        let ghost s = self.store();
        let ghost u = self.used();
        let ghost node = page@;
        let n: usize = page.keys.len();
        let id: PageId = page.id;
        let min: usize = match child.page_type {
            IndexType::Leaf => self.leaf_min_keys,
            IndexType::Internal => self.internal_min_keys,
        };
        proof {
            assert(node.children.contains(node.children[i as int]));
            if i > 0 {
                lemma_pending_pair(s, u, node, id, h, lo, hi, self.limits(), i as int, child@,
                    true);
                lemma_chain_pair(s, node, h, exit, i as int, child@, true);
                assert(node.children.contains(node.children[i - 1]));
            }
            if i < n {
                lemma_pending_pair(s, u, node, id, h, lo, hi, self.limits(), i as int, child@,
                    false);
                lemma_chain_pair(s, node, h, exit, i as int, child@, false);
                assert(node.children.contains(node.children[i + 1]));
            }
        }
        if i > 0 {
            let left = load(&mut self.buffer_pool, page.children[i - 1]);
            assert(left@.id == node.children[i - 1] && child@.id == node.children[i as int]);
            if left.keys.len() > min {
                self.rotate_and_save(
                    page,
                    left,
                    child,
                    i - 1,
                    true,
                    Ghost(h),
                    Ghost(lo),
                    Ghost(hi),
                    Ghost(is_root),
                    Ghost(exit),
                );
                proof {
                    assert forall|x: PageId|
                        u.contains(x) && s.contains_key(x) && x != id && !node.children.contains(
                            x,
                        ) implies #[trigger] self.store().contains_key(x) && self.store()[x]
                        == s[x] && self.used().contains(x) by {
                        assert(x != node.children[i - 1]);
                        assert(x != node.children[i as int]);
                    }
                }
                return None;
            }
            if i == n {
                let under = self.fuse_and_settle(
                    page,
                    left,
                    child,
                    i - 1,
                    Ghost(h),
                    Ghost(lo),
                    Ghost(hi),
                    is_root,
                    Ghost(exit),
                );
                proof {
                    assert forall|x: PageId|
                        u.contains(x) && s.contains_key(x) && x != id && !node.children.contains(
                            x,
                        ) implies #[trigger] self.store().contains_key(x) && self.store()[x]
                        == s[x] && self.used().contains(x) by {
                        assert(x != node.children[i - 1]);
                        assert(x != node.children[i as int]);
                    }
                }
                return under;
            }
        }
        let right = load(&mut self.buffer_pool, page.children[i + 1]);
        assert(right@.id == node.children[i + 1] && child@.id == node.children[i as int]);
        if right.keys.len() > min {
            self.rotate_and_save(
                page,
                child,
                right,
                i,
                false,
                Ghost(h),
                Ghost(lo),
                Ghost(hi),
                Ghost(is_root),
                Ghost(exit),
            );
            proof {
                assert forall|x: PageId|
                    u.contains(x) && s.contains_key(x) && x != id && !node.children.contains(
                        x,
                    ) implies #[trigger] self.store().contains_key(x) && self.store()[x]
                    == s[x] && self.used().contains(x) by {
                    assert(x != node.children[i as int]);
                    assert(x != node.children[i + 1]);
                }
            }
            return None;
        }
        if i == 0 {
            let under = self.fuse_and_settle(
                page,
                child,
                right,
                0,
                Ghost(h),
                Ghost(lo),
                Ghost(hi),
                is_root,
                Ghost(exit),
            );
            proof {
                assert forall|x: PageId|
                    u.contains(x) && s.contains_key(x) && x != id && !node.children.contains(
                        x,
                    ) implies #[trigger] self.store().contains_key(x) && self.store()[x]
                    == s[x] && self.used().contains(x) by {
                    assert(x != node.children[0]);
                    assert(x != node.children[1]);
                }
            }
            return under;
        }
        let left = load(&mut self.buffer_pool, page.children[i - 1]);
        assert(left@.id == node.children[i - 1]);
        let under = self.fuse_and_settle(
            page,
            left,
            child,
            i - 1,
            Ghost(h),
            Ghost(lo),
            Ghost(hi),
            is_root,
            Ghost(exit),
        );
        proof {
            assert forall|x: PageId|
                u.contains(x) && s.contains_key(x) && x != id && !node.children.contains(
                    x,
                ) implies #[trigger] self.store().contains_key(x) && self.store()[x]
                == s[x] && self.used().contains(x) by {
                assert(x != node.children[i - 1]);
                assert(x != node.children[i as int]);
            }
        }
        under
    }

    /// Writes a node that lost a key by a merge of two of its children,
    /// unless it now lacks a key itself; it is returned then.
    #[verifier::spinoff_prover]
    fn settle_after_merge(
        &mut self,
        page: IndexPage,
        Ghost(h): Ghost<nat>,
        Ghost(lo): Ghost<Option<i64>>,
        Ghost(hi): Ghost<Option<i64>>,
        is_root: bool,
    ) -> (under: Option<IndexPage>)
        requires
            pool_ok(&old(self).pool()),
            old(self).limits().ok(),
            h > 0,
            loose(
                old(self).store(),
                old(self).used(),
                page@,
                page@.id,
                h,
                lo,
                hi,
                old(self).limits(),
            ),
        ensures
            pool_ok(&final(self).pool()),
            final(self).same_basics(old(self)),
            final(self).used() == old(self).used(),
            forall|x: PageId|
                x != page@.id && old(self).store().contains_key(x)
                    ==> #[trigger] final(self).store().contains_key(x)
                    && final(self).store()[x] == old(self).store()[x],
            match under {
                None => {
                    &&& node_installed(old(self).store(), final(self).store(), page@, h)
                    &&& final(self).store() == old(self).store().insert(page@.id, page@)
                    &&& !(page@.keys.len() == 0 || (!is_root && page@.keys.len()
                        < final(self).limits().internal_min))
                    &&& subtree_ok(
                        final(self).store(),
                        final(self).used(),
                        page@.id,
                        h,
                        lo,
                        hi,
                        final(self).limits(),
                        is_root,
                    )
                    &&& forall|k: i64|
                        #[trigger] lookup(final(self).store(), page@.id, h, k) == lookup_from(
                            old(self).store(),
                            page@,
                            h,
                            k,
                        )
                },
                Some(page2) => {
                    &&& page2@ == page@
                    &&& final(self).store() == old(self).store()
                    &&& page2@.keys.len() == 0 || (!is_root && page2@.keys.len()
                        < final(self).limits().internal_min)
                },
            },
    {
        if page.keys.len() == 0 || (!is_root && page.keys.len() < self.internal_min_keys) {
            Some(page)
        } else {
            proof {
                lemma_loose_ready(
                    self.store(),
                    self.used(),
                    page@,
                    page@.id,
                    h,
                    lo,
                    hi,
                    self.limits(),
                    is_root,
                );
                lemma_install(
                    self.store(),
                    self.used(),
                    page@,
                    page@.id,
                    h,
                    lo,
                    hi,
                    self.limits(),
                    is_root,
                );
            }
            let ghost node = page@;
            save(&mut self.buffer_pool, page);
            proof {
                assert(self.store() == old(self).store().insert(node.id, node));
            }
            None
        }
    }
}

impl<D: DiskManager<IndexPage>, H: DiskManager<HeaderPage>, S: ReplacementStrategy> BPlusTree<
    D,
    H,
    S,
> {
    /// Takes the entry of `key` out of the B+ tree from the node `id` down
    /// and tells whether there was one. A node that is left with fewer keys
    /// than its minimum, or an internal node without a key, is returned and
    /// not written: the caller makes up for the key or gives the node up.
    #[verifier::spinoff_prover]
    #[verifier::rlimit(50)]
    fn delete_from(
        &mut self,
        id: PageId,
        Ghost(h): Ghost<nat>,
        Ghost(lo): Ghost<Option<i64>>,
        Ghost(hi): Ghost<Option<i64>>,
        is_root: bool,
        Ghost(exit): Ghost<Option<PageId>>,
        key: i64,
    ) -> (res: (bool, Option<IndexPage>))
        requires
            linked(old(self).store(), id, h, exit),
            told_apart(old(self).limits(), old(self).store(), id, h),
            pool_ok(&old(self).pool()),
            old(self).limits().ok(),
            subtree_ok(
                old(self).store(),
                old(self).used(),
                id,
                h,
                lo,
                hi,
                old(self).limits(),
                is_root,
            ),
            in_range(key, lo, hi),
        ensures
            pool_ok(&final(self).pool()),
            final(self).same_basics(old(self)),
            final(self).used().contains(id),
            forall|x: PageId|
                old(self).used().contains(x) && old(self).store().contains_key(x)
                    && #[trigger] absent(old(self).store(), id, h, x)
                        ==> final(self).store().contains_key(x)
                        && final(self).store()[x] == old(self).store()[x]
                    && final(self).used().contains(x),
            res.0 == (lookup(old(self).store(), id, h, key) is Some),
            res.1 is Some ==> old(self).limits().leaf_min >= 1,
            old(self).limits().leaf_min >= 1 || grown_apart(
                old(self).store(),
                old(self).used(),
                final(self).store(),
                id,
                h,
                None,
            ),
            cut_done(
                old(self).used(),
                final(self).store(),
                final(self).used(),
                res.1,
                taken_below(old(self).store(), id, h, key, old(self).limits(), is_root),
            ),
            res.0 ==> chain_left(
                final(self).store(),
                id,
                h,
                exit,
                res.1,
                first_leaf(old(self).store(), id, h),
            ),
            !res.0 ==> res.1 is None && final(self).store() == old(self).store()
                && final(self).used() == old(self).used(),
            res.0 ==> match res.1 {
                None => {
                    &&& subtree_ok(
                        final(self).store(),
                        final(self).used(),
                        id,
                        h,
                        lo,
                        hi,
                        final(self).limits(),
                        is_root,
                    )
                    &&& forall|k: i64|
                        #[trigger] lookup(final(self).store(), id, h, k) == after_delete(
                            lookup(old(self).store(), id, h, k),
                            key,
                            k,
                        )
                },
                Some(page) => {
                    &&& loose(
                        final(self).store(),
                        final(self).used(),
                        page@,
                        id,
                        h,
                        lo,
                        hi,
                        final(self).limits(),
                    )
                    &&& page@.keys.len() + 1 == old(self).store()[id].keys.len()
                    &&& (h > 0 && page@.keys.len() == 0) || (!is_root
                        && page@.keys.len() < min_keys(
                        final(self).limits(),
                        h,
                    ))
                    &&& final(self).store()[id] == old(self).store()[id]
                    &&& depth(final(self).store(), id, h)
                    &&& forall|k: i64|
                        #[trigger] lookup_from(final(self).store(), page@, h, k) == after_delete(
                            lookup(old(self).store(), id, h, k),
                            key,
                            k,
                        )
                },
            },
        decreases h,
    {
        let mut page = load(&mut self.buffer_pool, id);
        let ghost node = page@;
        let ghost s0 = self.store();
        let ghost u0 = self.used();
        match page.page_type {
            IndexType::Leaf => {
                let found = page.remove_key(key);
                proof {
                    lemma_first_equal_is(node.keys, key);
                }
                if !found {
                    proof {
                        assert(self.limits().leaf_min >= 1 || grown_apart(
                            s0,
                            u0,
                            s0,
                            id,
                            h,
                            None,
                        ));
                    }
                    return (false, None);
                }
                proof {
                    crate::storage::page::index_page::lemma_rank(node.keys, key);
                    let pos = crate::storage::page::index_page::rank(node.keys, key);
                    assert forall|k: i64|
                        #[trigger] lookup_from(s0, page@, h, k) == after_delete(
                            lookup(s0, id, h, k),
                            key,
                            k,
                        ) by {
                        lemma_leaf_remove(node, page@, key, k);
                    }
                    lemma_leaf_remove(node, page@, key, key);
                    assert forall|i: int| 0 <= i < page@.keys.len() implies in_range(
                        #[trigger] page@.keys[i],
                        lo,
                        hi,
                    ) by {
                        if i < pos {
                            assert(in_range(node.keys[i], lo, hi));
                        } else {
                            assert(in_range(node.keys[i + 1], lo, hi));
                        }
                    }
                    assert(loose(s0, u0, page@, id, h, lo, hi, self.limits()));
                    assert(linked_from(s0, page@, h, exit)) by {
                        reveal(linked);
                        reveal(linked_from);
                        assert(page@.next == node.next);
                    }
                }
                if is_root || page.keys.len() >= self.leaf_min_keys {
                    let ghost w = page@;
                    proof {
                        lemma_loose_ready(s0, u0, w, id, h, lo, hi, self.limits(), is_root);
                        lemma_install(s0, u0, w, id, h, lo, hi, self.limits(), is_root);
                    }
                    save(&mut self.buffer_pool, page);
                    proof {
                        assert(self.store() == s0.insert(id, w));
                        assert(linked(s0.insert(id, w), id, h, exit)
                            == linked_from(s0, w, h, exit));
                        if self.limits().leaf_min < 1 {
                            assert(apart_from(s0, w, h)) by {
                                reveal(apart_from);
                            }
                            lemma_apart_install(s0, u0, w, id, h, lo, hi, self.limits(), is_root);
                            lemma_grown_apart_settled(
                                s0,
                                u0,
                                s0,
                                u0,
                                self.store(),
                                id,
                                h,
                                w,
                                None,
                            );
                        }
                        assert forall|k: i64|
                            #[trigger] lookup(self.store(), id, h, k) == after_delete(
                                lookup(s0, id, h, k),
                                key,
                                k,
                            ) by {
                            assert(lookup(s0.insert(id, w), id, h, k) == lookup_from(s0, w, h, k));
                        }
                    }
                    (true, None)
                } else {
                    (true, Some(page))
                }
            },
            IndexType::Internal => {
                let i = route(&page, key);
                let ghost hc = (h - 1) as nat;
                let ghost clo = child_lo(node, i as int, lo);
                let ghost chi = child_hi(node, i as int, hi);
                let child: PageId = page.children[i];
                let ghost cexit = exit_of(s0, node, i as int, h, exit);
                proof {
                    lemma_first_above(node.keys, key, 0);
                    assert(subtree_ok(s0, u0, child, hc, clo, chi, self.limits(), false));
                    if i > 0 {
                        assert(node.keys[i - 1] <= key);
                    }
                    lemma_linked_child(s0, id, h, exit, i as int);
                    lemma_told_child(self.limits(), s0, id, h, i as int);
                }
                let (found, under) = self.delete_from(
                    child,
                    Ghost(hc),
                    Ghost(clo),
                    Ghost(chi),
                    false,
                    Ghost(cexit),
                    key,
                );
                let ghost s1 = self.store();
                let ghost u1 = self.used();
                if !found {
                    proof {
                        lemma_cut_none(s0, u0, s1, u1, id, h, key, self.limits(), is_root);
                        assert(self.limits().leaf_min >= 1 || grown_apart(
                            s0,
                            u0,
                            s0,
                            id,
                            h,
                            None,
                        ));
                    }
                    return (false, None);
                }
                match under {
                    None => {
                        proof {
                            lemma_internal_kept(
                                s0,
                                u0,
                                s1,
                                u1,
                                id,
                                h,
                                lo,
                                hi,
                                self.limits(),
                                is_root,
                                key,
                            );
                            lemma_after_child(
                                s0,
                                u0,
                                s1,
                                u1,
                                id,
                                h,
                                lo,
                                hi,
                                self.limits(),
                                is_root,
                                i as int,
                            );
                            lemma_linked_after_child(
                                s0,
                                u0,
                                s1,
                                u1,
                                id,
                                h,
                                lo,
                                hi,
                                self.limits(),
                                is_root,
                                i as int,
                                exit,
                            );
                            lemma_cut_none(s0, u0, s1, u1, id, h, key, self.limits(), is_root);
                            if self.limits().leaf_min < 1 {
                                lemma_grown_apart_none(
                                    s0,
                                    u0,
                                    s1,
                                    u1,
                                    id,
                                    h,
                                    lo,
                                    hi,
                                    self.limits(),
                                    is_root,
                                    i as int,
                                );
                            }
                            assert forall|x: PageId|
                                u0.contains(x) && s0.contains_key(x) && #[trigger] absent(
                                    s0,
                                    id,
                                    h,
                                    x,
                                ) implies s1.contains_key(x) && s1[x] == s0[x]
                                    && u1.contains(x) by {
                                assert(absent(s0, node.children[i as int], hc, x));
                            }
                        }
                        (true, None)
                    },
                    Some(cpage) => {
                        proof {
                            lemma_internal_pending(
                                s0,
                                u0,
                                s1,
                                u1,
                                id,
                                h,
                                lo,
                                hi,
                                self.limits(),
                                is_root,
                                key,
                                cpage@,
                            );
                            lemma_chain_pending(
                                s0,
                                u0,
                                s1,
                                u1,
                                id,
                                h,
                                lo,
                                hi,
                                self.limits(),
                                is_root,
                                i as int,
                                exit,
                                cpage@,
                            );
                        }
                        let ghost cview = cpage;
                        let fixed = self.rebalance(
                            page,
                            cpage,
                            i,
                            Ghost(h),
                            Ghost(lo),
                            Ghost(hi),
                            is_root,
                            Ghost(exit),
                        );
                        proof {
                            assert forall|x: PageId|
                                u0.contains(x) && s0.contains_key(x) && #[trigger] absent(
                                    s0,
                                    id,
                                    h,
                                    x,
                                ) implies self.store().contains_key(x) && self.store()[x] == s0[x]
                                && self.used().contains(x) by {
                                assert(s1.contains_key(x) && s1[x] == s0[x] && u1.contains(x) && x
                                    != id && !node.children.contains(x));
                                assert(self.store().contains_key(x));
                                assert(self.store()[x] == s1[x]);
                                assert(self.used().contains(x));
                            }
                            lemma_cut_some(
                                s0,
                                u0,
                                s1,
                                u1,
                                self.store(),
                                self.used(),
                                id,
                                h,
                                key,
                                self.limits(),
                                is_root,
                                cview,
                                fixed,
                            );
                            if fixed is None {
                                assert forall|k: i64|
                                    #[trigger] lookup(self.store(), id, h, k) == after_delete(
                                        lookup(s0, id, h, k),
                                        key,
                                        k,
                                    ) by {
                                    assert(lookup_with(s1, node, i as int, cpage@, h, k)
                                        == after_delete(lookup(s0, id, h, k), key, k));
                                }
                            } else {
                                let p2 = fixed.unwrap()@;
                                assert forall|k: i64|
                                    #[trigger] lookup_from(self.store(), p2, h, k) == after_delete(
                                        lookup(s0, id, h, k),
                                        key,
                                        k,
                                    ) by {
                                    assert(lookup_with(s1, node, i as int, cpage@, h, k)
                                        == after_delete(lookup(s0, id, h, k), key, k));
                                }
                            }
                        }
                        (true, fixed)
                    },
                }
            },
        }
    }

    /// Takes the entry of `key` out of the index and tells whether there
    /// was one. Where the root is left as an internal node with one child,
    /// that child becomes the root and the page of the old root is given
    /// back.
    #[verifier::spinoff_prover]
    pub fn delete(&mut self, key: i64) -> (found: bool)
        requires
            old(self).wf(),
        ensures
            final(self).wf(),
            found == old(self)@.contains_key(key),
            final(self)@ == old(self)@.remove(key),
            final(self).limits() == old(self).limits(),
            old(self).height() - 1 <= final(self).height() <= old(self).height(),
            final(self).height() == old(self).height() ==> final(self).root() == old(self).root(),
            final(self).height() != old(self).height() ==> !final(self).used().contains(
                old(self).root(),
            ),
            forall|x: PageId| final(self).used().contains(x) ==> old(self).used().contains(x),
            tree_cut_done(
                old(self).used(),
                final(self).store(),
                final(self).used(),
                final(self).root(),
                final(self).height(),
                tree_cut(
                    old(self).store(),
                    old(self).root(),
                    old(self).height(),
                    key,
                    old(self).limits(),
                ),
            ),
            final(self).pool().capacity() == old(self).pool().capacity(),
            final(self).pool().free_list().head() == old(self).pool().free_list().head(),
            !found ==> final(self).store() == old(self).store()
                && final(self).root() == old(self).root()
                && final(self).height() == old(self).height()
                && final(self).used() == old(self).used(),
    {
        let ghost h = self.height@;
        let ghost s0 = self.store();
        let root_id = self.root;
        let (found, under) = self.delete_from(
            root_id,
            Ghost(h),
            Ghost(None),
            Ghost(None),
            true,
            Ghost(None),
            key,
        );
        match under {
            None => {
                proof {
                    if found {
                        assert forall|k: i64|
                            #[trigger] lookup(self.store(), self.root(), self.height(), k)
                                == after_delete(lookup(s0, root_id, h, k), key, k) by {}
                    }
                    assert(self@ =~= old(self)@.remove(key));
                }
            },
            Some(page) => {
                let ghost s1 = self.store();
                let ghost u1 = self.used();
                let ghost node = page@;
                let new_root: PageId = page.children[0];
                let freed = self.buffer_pool.free_page(root_id, FLUSH);
                self.root = new_root;
                self.height = Ghost((h - 1) as nat);
                proof {
                    assert(freed is Ok);
                    assert forall|x: PageId| self.pool().pin_count(x) == 0 by {
                        self.pool().lemma_pinned_is_resident(x);
                    }
                    lemma_collapse(s1, u1, node, root_id, h, self.limits(), self.store(),
                        self.used());
                    assert forall|x: PageId| #[trigger] self.used().contains(x) implies self.store(
                        ).contains_key(
                        x,
                    ) == s1.contains_key(x) && (self.store().contains_key(x) ==> self.store()[x]
                        == s1[x]) by {
                        assert(x != root_id);
                        if s1.contains_key(x) {
                            assert(self.store().contains_key(x));
                        } else {
                            assert(!self.store().contains_key(x));
                        }
                    }
                    let t = taken_below(s0, root_id, h, key, self.limits(), true);
                    let cut = tree_cut(s0, root_id, h, key, self.limits());
                    assert(t.under == Some(node));
                    assert(cut.1 == new_root && cut.2 == (h - 1) as nat);
                    assert(cut.0.store == t.store && cut.0.freed == t.freed.insert(root_id));
                    assert forall|x: PageId|
                        self.used().contains(x) == (old(self).used().contains(x)
                            && !cut.0.freed.contains(x)) by {
                        assert(self.used().contains(x) == (u1.contains(x) && x != root_id));
                        assert(u1.contains(x) == (old(self).used().contains(x)
                            && !t.freed.contains(x)));
                    }
                    assert(agree(self.store(), cut.0.store, self.used())) by {
                        assert forall|x: PageId| #[trigger] self.used().contains(
                            x) implies self.store().contains_key(
                            x,
                        ) == t.store.contains_key(x) && (self.store().contains_key(x)
                            ==> self.store()[x] == t.store[x]) by {
                            assert(u1.contains(x));
                        }
                    }
                    assert forall|k: i64|
                        #[trigger] lookup(self.store(), self.root(), self.height(), k)
                            == after_delete(lookup(s0, root_id, h, k), key, k) by {
                        assert(lookup(self.store(), new_root, (h - 1) as nat, k) == lookup_from(
                            s1,
                            node,
                            h,
                            k,
                        ));
                    }
                    assert(self@ =~= old(self)@.remove(key));
                }
            },
        }
        found
    }
}

} // verus!
