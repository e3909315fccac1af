use crate::storage::bplus_tree::BPlusTree;
use crate::storage::disk_manager::DiskManager;
use crate::storage::page::header_page::HeaderPage;
use crate::storage::page::index_page::{ascending, IndexPage, IndexType, RecordId};
use crate::storage::replacement_strategy::ReplacementStrategy;
use crate::storage::tree_model::{
    absent, child_hi, child_lo, in_range, lemma_member, subtree_ok, Limits, Store,
};
use crate::types::PageId;
use vstd::prelude::*;

verus! {

/// The page `x` is no node of the tree from `id` down, a tree of height
/// `h`, that stands `hx` levels above the leaves.
pub open spec fn not_at(s: Store, id: PageId, h: nat, x: PageId, hx: nat) -> bool
    decreases h,
{
    &&& !(x == id && hx == h)
    &&& h > 0 ==> forall|i: int|
        0 <= i < s[id].children.len() ==> not_at(
            s,
            #[trigger] s[id].children[i],
            (h - 1) as nat,
            x,
            hx,
        )
}

/// The page `x` is a node of the tree from `id` down, a tree of height `h`,
/// and stands `hx` levels above the leaves: it is `id` itself, at height
/// `h`, or a node of the tree of one of the children of `id`.
pub open spec fn node_at(s: Store, id: PageId, h: nat, x: PageId, hx: nat) -> bool {
    !not_at(s, id, h, x, hx)
}

/// Every node of a B+ tree is the root of a B+ tree itself, of the height
/// at which it stands; the range of its keys is returned.
pub proof fn lemma_node_is_tree(
    s: Store,
    u: Set<PageId>,
    id: PageId,
    h: nat,
    lo: Option<i64>,
    hi: Option<i64>,
    limits: Limits,
    is_root: bool,
    x: PageId,
    hx: nat,
) -> (range: (Option<i64>, Option<i64>))
    requires
        subtree_ok(s, u, id, h, lo, hi, limits, is_root),
        node_at(s, id, h, x, hx),
    ensures
        hx <= h,
        subtree_ok(s, u, x, hx, range.0, range.1, limits, is_root && hx == h),
        !absent(s, id, h, x),
    decreases h,
{
    if x == id && hx == h {
        (lo, hi)
    } else {
        let node = s[id];
        let i = choose|i: int|
            0 <= i < s[id].children.len() && !not_at(
                s,
                #[trigger] s[id].children[i],
                (h - 1) as nat,
                x,
                hx,
            );
        assert(node.children.len() == node.keys.len() + 1);
        assert(subtree_ok(
            s,
            u,
            node.children[i],
            (h - 1) as nat,
            child_lo(node, i, lo),
            child_hi(node, i, hi),
            limits,
            false,
        ));
        let range = lemma_node_is_tree(
            s,
            u,
            node.children[i],
            (h - 1) as nat,
            child_lo(node, i, lo),
            child_hi(node, i, hi),
            limits,
            false,
            x,
            hx,
        );
        if absent(s, id, h, x) {
            assert(absent(s, node.children[i], (h - 1) as nat, x));
        }
        range
    }
}

impl<D: DiskManager<IndexPage>, H: DiskManager<HeaderPage>, S: ReplacementStrategy> BPlusTree<
    D,
    H,
    S,
> {
    /// The page `x` is a node of the tree and stands `hx` levels above the
    /// leaves.
    pub open spec fn has_node(&self, x: PageId, hx: nat) -> bool {
        node_at(self.store(), self.root(), self.height(), x, hx)
    }

    /// Order: the keys of every node, leaf or internal, are strictly
    /// ascending.
    pub proof fn lemma_order(&self, x: PageId, hx: nat)
        requires
            self.wf(),
            self.has_node(x, hx),
        ensures
            ascending(self.store()[x].keys),
    {
        lemma_node_is_tree(
            self.store(),
            self.used(),
            self.root(),
            self.height(),
            None,
            None,
            self.limits(),
            true,
            x,
            hx,
        );
    }

    /// Separation: the keys of an internal node bound the keys below its
    /// children. Every key of every node `y` below child `i` of the node
    /// `x` is not less than the key left of the child, if there is one, and
    /// less than the key right of it, if there is one.
    pub proof fn lemma_separator(&self, x: PageId, hx: nat, i: int, y: PageId, hy: nat, j: int)
        requires
            self.wf(),
            self.has_node(x, hx),
            hx > 0,
            0 <= i <= self.store()[x].keys.len(),
            node_at(self.store(), self.store()[x].children[i], (hx - 1) as nat, y, hy),
            0 <= j < self.store()[y].keys.len(),
        ensures
            i > 0 ==> self.store()[x].keys[i - 1] <= self.store()[y].keys[j],
            i < self.store()[x].keys.len() ==> self.store()[y].keys[j] < self.store()[x].keys[i],
    {
        let s = self.store();
        let range = lemma_node_is_tree(
            s,
            self.used(),
            self.root(),
            self.height(),
            None,
            None,
            self.limits(),
            true,
            x,
            hx,
        );
        let node = s[x];
        let c = node.children[i];
        assert(subtree_ok(
            s,
            self.used(),
            c,
            (hx - 1) as nat,
            child_lo(node, i, range.0),
            child_hi(node, i, range.1),
            self.limits(),
            false,
        ));
        lemma_node_is_tree(
            s,
            self.used(),
            c,
            (hx - 1) as nat,
            child_lo(node, i, range.0),
            child_hi(node, i, range.1),
            self.limits(),
            false,
            y,
            hy,
        );
        lemma_member(
            s,
            self.used(),
            c,
            (hx - 1) as nat,
            child_lo(node, i, range.0),
            child_hi(node, i, range.1),
            self.limits(),
            false,
            y,
        );
        assert(in_range(s[y].keys[j], child_lo(node, i, range.0), child_hi(node, i, range.1)));
    }

    /// Balance: the leaves are the nodes that stand lowest, so that every
    /// leaf is as many levels below the root as the tree is high.
    pub proof fn lemma_balance(&self, x: PageId, hx: nat)
        requires
            self.wf(),
            self.has_node(x, hx),
        ensures
            hx <= self.height(),
            self.store()[x].page_type == IndexType::Leaf <==> hx == 0,
    {
        lemma_node_is_tree(
            self.store(),
            self.used(),
            self.root(),
            self.height(),
            None,
            None,
            self.limits(),
            true,
            x,
            hx,
        );
    }

    /// Fill: no node holds more keys than the maximum of its kind, and no
    /// node but the root fewer than the minimum, which is half the maximum.
    pub proof fn lemma_fill(&self, x: PageId, hx: nat)
        requires
            self.wf(),
            self.has_node(x, hx),
        ensures
            hx == 0 ==> self.store()[x].keys.len() <= self.limits().leaf_max,
            hx > 0 ==> self.store()[x].keys.len() <= self.limits().internal_max,
            hx < self.height() && hx == 0 ==> self.store()[x].keys.len() >= self.limits().leaf_min,
            hx < self.height() && hx > 0 ==> self.store()[x].keys.len()
                >= self.limits().internal_min,
            self.limits().leaf_min == self.limits().leaf_max / 2,
            self.limits().internal_min == self.limits().internal_max / 2,
    {
        lemma_node_is_tree(
            self.store(),
            self.used(),
            self.root(),
            self.height(),
            None,
            None,
            self.limits(),
            true,
            x,
            hx,
        );
    }
}

/// A search for a key that was inserted finds the record id that was
/// inserted with it.
pub proof fn lemma_insert_search(index: Map<i64, RecordId>, key: i64, rid: RecordId)
    ensures
        index.insert(key, rid).contains_key(key),
        index.insert(key, rid)[key] == rid,
{
}

/// Of two insertions of one key the second one counts.
pub proof fn lemma_insert_twice(index: Map<i64, RecordId>, key: i64, first: RecordId,
    second: RecordId)
    ensures
        index.insert(key, first).insert(key, second)[key] == second,
        index.insert(key, first).insert(key, second) == index.insert(key, second),
{
    assert(index.insert(key, first).insert(key, second) =~= index.insert(key, second));
}

/// A search for a key that was inserted and deleted finds nothing.
pub proof fn lemma_insert_delete(index: Map<i64, RecordId>, key: i64, rid: RecordId)
    ensures
        !index.insert(key, rid).remove(key).contains_key(key),
{
}

/// The deletion of a key that is not there changes nothing.
pub proof fn lemma_delete_absent(index: Map<i64, RecordId>, key: i64)
    requires
        !index.contains_key(key),
    ensures
        index.remove(key) == index,
{
    assert(index.remove(key) =~= index);
}

} // verus!
