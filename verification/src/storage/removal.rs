use crate::storage::page::index_page::{first_above, rank, IndexPage, IndexPageView};
use crate::storage::rebalance::{merged_node, min_keys, store_after_borrow};
use crate::storage::tree_model::{Limits, Store};
use crate::types::PageId;
use vstd::prelude::*;

verus! {

/// What a deletion makes of the pages below a node: the store, the node
/// that is to take the place of the node where it was left with too few
/// keys and not written, and the pages that were given back.
pub struct Taken {
    pub store: Store,
    pub under: Option<IndexPageView>,
    pub freed: Set<PageId>,
}

/// The two stores hold the same under every id of `on`.
pub open spec fn agree(a: Store, b: Store, on: Set<PageId>) -> bool {
    forall|x: PageId| #[trigger]
        on.contains(x) ==> a.contains_key(x) == b.contains_key(x) && (a.contains_key(x) ==> a[x]
            == b[x])
}

/// What a page that came back from a deletion holds, if one came back.
pub open spec fn view_of(under: Option<IndexPage>) -> Option<IndexPageView> {
    match under {
        None => None,
        Some(page) => Some(page@),
    }
}

/// What a leaf holds after the entry of `key` was taken out of it.
pub open spec fn leaf_cut(v: IndexPageView, key: i64) -> IndexPageView {
    let pos = rank(v.keys, key);
    IndexPageView { keys: v.keys.remove(pos), rids: v.rids.remove(pos), ..v }
}

/// The left one of two nodes side by side after one of them gave an entry
/// to the other; `sep` is the key that stood between them.
pub open spec fn left_after(left: IndexPageView, right: IndexPageView, sep: i64,
    from_left: bool) -> IndexPageView {
    if from_left {
        left.lent(true)
    } else {
        left.borrowed(right, sep, false)
    }
}

/// The right one of two nodes side by side after one of them gave an
/// entry to the other.
pub open spec fn right_after(left: IndexPageView, right: IndexPageView, sep: i64,
    from_left: bool) -> IndexPageView {
    if from_left {
        right.borrowed(left, sep, true)
    } else {
        right.lent(false)
    }
}

/// The key that stands between two nodes side by side after one of them
/// gave an entry to the other.
pub open spec fn sep_after(left: IndexPageView, right: IndexPageView, from_left: bool) -> i64 {
    if from_left {
        right.separator_after(left, true).unwrap()
    } else {
        left.separator_after(right, false).unwrap()
    }
}

/// The node `node` after its children `a` and `a + 1`, the nodes `left`
/// and `right`, exchanged an entry: the new key stands between the two.
pub open spec fn node_rotated(
    node: IndexPageView,
    a: int,
    left: IndexPageView,
    right: IndexPageView,
    from_left: bool,
) -> IndexPageView {
    IndexPageView { keys: node.keys.update(a, sep_after(left, right, from_left)), ..node }
}

/// The store after the children `a` and `a + 1` of `node` exchanged an
/// entry and were written to their pages.
pub open spec fn store_rotated(
    s: Store,
    node: IndexPageView,
    a: int,
    left: IndexPageView,
    right: IndexPageView,
    from_left: bool,
) -> Store {
    store_after_borrow(
        s,
        left_after(left, right, node.keys[a], from_left),
        right_after(left, right, node.keys[a], from_left),
    )
}

/// What an exchange of an entry between the children `a` and `a + 1` of
/// `node` leaves: the two children and the node on their pages.
pub open spec fn rotated(
    s: Store,
    node: IndexPageView,
    a: int,
    left: IndexPageView,
    right: IndexPageView,
    from_left: bool,
) -> Taken {
    Taken {
        store: store_rotated(s, node, a, left, right, from_left).insert(
            node.id,
            node_rotated(node, a, left, right, from_left),
        ),
        under: None,
        freed: Set::empty(),
    }
}

/// The node `node` without the key `a` and without the child `a + 1`.
pub open spec fn node_fused(node: IndexPageView, a: int) -> IndexPageView {
    IndexPageView { keys: node.keys.remove(a), children: node.children.remove(a + 1), ..node }
}

/// What a merge of the children `a` and `a + 1` of the node `node` of
/// height `h` leaves: the merged node on the page of the left child, the
/// page of the right child given back, and the node without the key
/// between the two on its page, or not written where it is left without a
/// key or, not being the root, with fewer keys than its minimum.
pub open spec fn fused(
    s: Store,
    node: IndexPageView,
    a: int,
    left: IndexPageView,
    right: IndexPageView,
    h: nat,
    limits: Limits,
    is_root: bool,
) -> Taken {
    let merged = merged_node(left, right, node.keys[a], (h - 1) as nat);
    let s2 = s.insert(left.id, merged);
    let node2 = node_fused(node, a);
    if node2.keys.len() == 0 || (!is_root && node2.keys.len() < limits.internal_min) {
        Taken { store: s2, under: Some(node2), freed: set![right.id] }
    } else {
        Taken { store: s2.insert(node2.id, node2), under: None, freed: set![right.id] }
    }
}

/// What making up for the key that the child `i` of the node `node`
/// lacks leaves, where the child came back as the node `child`: an entry
/// comes from the left sibling if that has one to spare, else from the
/// right sibling if that has; else the child is merged with its left
/// sibling, or with its right one where it has no left one.
pub open spec fn mended(
    s: Store,
    node: IndexPageView,
    child: IndexPageView,
    i: int,
    h: nat,
    limits: Limits,
    is_root: bool,
) -> Taken {
    let min = min_keys(limits, (h - 1) as nat);
    let n = node.keys.len() as int;
    if i > 0 && s[node.children[i - 1]].keys.len() > min {
        rotated(s, node, i - 1, s[node.children[i - 1]], child, true)
    } else if i > 0 && i == n {
        fused(s, node, i - 1, s[node.children[i - 1]], child, h, limits, is_root)
    } else if s[node.children[i + 1]].keys.len() > min {
        rotated(s, node, i, child, s[node.children[i + 1]], false)
    } else if i == 0 {
        fused(s, node, 0, child, s[node.children[1]], h, limits, is_root)
    } else {
        fused(s, node, i - 1, s[node.children[i - 1]], child, h, limits, is_root)
    }
}

/// What the deletion of the entry of `key` leaves of the tree from the
/// node `id` of height `h` down. Nothing changes where the leaf that a
/// search for the key comes to does not hold the key. Else the entry
/// leaves the leaf, and every node on the way that is left with fewer
/// keys than its minimum is made up for from its parent.
pub open spec fn taken_below(
    s: Store,
    id: PageId,
    h: nat,
    key: i64,
    limits: Limits,
    is_root: bool,
) -> Taken
    decreases h,
{
    let node = s[id];
    if h == 0 {
        if !node.keys.contains(key) {
            Taken { store: s, under: None, freed: Set::empty() }
        } else if is_root || leaf_cut(node, key).keys.len() >= limits.leaf_min {
            Taken { store: s.insert(id, leaf_cut(node, key)), under: None, freed: Set::empty() }
        } else {
            Taken { store: s, under: Some(leaf_cut(node, key)), freed: Set::empty() }
        }
    } else {
        let i = first_above(node.keys, key, 0);
        let below = taken_below(s, node.children[i], (h - 1) as nat, key, limits, false);
        match below.under {
            None => below,
            Some(child) => {
                let up = mended(below.store, node, child, i, h, limits, is_root);
                Taken { store: up.store, under: up.under, freed: below.freed.union(up.freed) }
            },
        }
    }
}

/// What the deletion of the entry of `key` leaves of a tree: the store
/// and the pages given back as from the root down; where the root is
/// left without a key, its one child is the root, the tree is one level
/// lower and the page of the old root is given back too.
pub open spec fn tree_cut(s: Store, root: PageId, h: nat, key: i64, limits: Limits) -> (
    Taken,
    PageId,
    nat,
) {
    let below = taken_below(s, root, h, key, limits, true);
    match below.under {
        None => (below, root, h),
        Some(top) => (
            Taken { store: below.store, under: None, freed: below.freed.insert(root) },
            top.children[0],
            (h - 1) as nat,
        ),
    }
}

/// What a deletion made of the pages below a node is what `taken` says:
/// the node that came back is the one it names, the pages in use are
/// those that were but for the pages given back, and every page in use
/// holds what the store of `taken` holds.
pub open spec fn cut_done(
    u0: Set<PageId>,
    s1: Store,
    u1: Set<PageId>,
    under: Option<IndexPage>,
    taken: Taken,
) -> bool {
    &&& view_of(under) == taken.under
    &&& forall|x: PageId| u1.contains(x) == (u0.contains(x) && !taken.freed.contains(x))
    &&& agree(s1, taken.store, u1)
}

/// Exchanges and merges between the children of a node leave the same in
/// two stores that hold the same under the ids in use, if the siblings of
/// the child are in use.
pub proof fn lemma_mended_agree(
    a: Store,
    b: Store,
    on: Set<PageId>,
    node: IndexPageView,
    child: IndexPageView,
    i: int,
    h: nat,
    limits: Limits,
    is_root: bool,
)
    requires
        agree(a, b, on),
        0 <= i <= node.keys.len(),
        node.keys.len() >= 1,
        i > 0 ==> on.contains(node.children[i - 1]) && a.contains_key(node.children[i - 1]),
        i < node.keys.len() ==> on.contains(node.children[i + 1]) && a.contains_key(
            node.children[i + 1],
        ),
    ensures
        mended(a, node, child, i, h, limits, is_root).under == mended(
            b,
            node,
            child,
            i,
            h,
            limits,
            is_root,
        ).under,
        mended(a, node, child, i, h, limits, is_root).freed == mended(
            b,
            node,
            child,
            i,
            h,
            limits,
            is_root,
        ).freed,
        agree(
            mended(a, node, child, i, h, limits, is_root).store,
            mended(b, node, child, i, h, limits, is_root).store,
            on,
        ),
{
    if i > 0 {
        assert(a[node.children[i - 1]] == b[node.children[i - 1]]);
    }
    if i < node.keys.len() {
        assert(a[node.children[i + 1]] == b[node.children[i + 1]]);
    }
}

/// What a deletion made of a tree is what `cut` says: the root and the
/// height are those it names, the pages in use are those that were but for
/// the pages given back, and every page in use holds what its store holds.
pub open spec fn tree_cut_done(
    u0: Set<PageId>,
    s1: Store,
    u1: Set<PageId>,
    root1: PageId,
    h1: nat,
    cut: (Taken, PageId, nat),
) -> bool {
    &&& root1 == cut.1
    &&& h1 == cut.2
    &&& forall|x: PageId| u1.contains(x) == (u0.contains(x) && !cut.0.freed.contains(x))
    &&& agree(s1, cut.0.store, u1)
}

/// What a deletion below an internal node left is what `taken_below`
/// says, where the child kept keys enough.
pub proof fn lemma_cut_none(
    s0: Store,
    u0: Set<PageId>,
    s1: Store,
    u1: Set<PageId>,
    id: PageId,
    h: nat,
    key: i64,
    limits: Limits,
    is_root: bool,
)
    requires
        h > 0,
        cut_done(
            u0,
            s1,
            u1,
            None,
            taken_below(
                s0,
                s0[id].children[first_above(s0[id].keys, key, 0)],
                (h - 1) as nat,
                key,
                limits,
                false,
            ),
        ),
    ensures
        cut_done(u0, s1, u1, None, taken_below(s0, id, h, key, limits, is_root)),
{
}

/// What a deletion below an internal node left is what `taken_below`
/// says, where the child came back with too few keys and was made up for.
pub proof fn lemma_cut_some(
    s0: Store,
    u0: Set<PageId>,
    s1: Store,
    u1: Set<PageId>,
    s2: Store,
    u2: Set<PageId>,
    id: PageId,
    h: nat,
    key: i64,
    limits: Limits,
    is_root: bool,
    child: IndexPage,
    under: Option<IndexPage>,
)
    requires
        h > 0,
        s0[id].keys.len() >= 1,
        0 <= first_above(s0[id].keys, key, 0) <= s0[id].keys.len(),
        cut_done(
            u0,
            s1,
            u1,
            Some(child),
            taken_below(
                s0,
                s0[id].children[first_above(s0[id].keys, key, 0)],
                (h - 1) as nat,
                key,
                limits,
                false,
            ),
        ),
        cut_done(
            u1,
            s2,
            u2,
            under,
            mended(s1, s0[id], child@, first_above(s0[id].keys, key, 0), h, limits, is_root),
        ),
        first_above(s0[id].keys, key, 0) > 0 ==> u1.contains(
            s0[id].children[first_above(s0[id].keys, key, 0) - 1],
        ) && s1.contains_key(s0[id].children[first_above(s0[id].keys, key, 0) - 1]),
        first_above(s0[id].keys, key, 0) < s0[id].keys.len() ==> u1.contains(
            s0[id].children[first_above(s0[id].keys, key, 0) + 1],
        ) && s1.contains_key(s0[id].children[first_above(s0[id].keys, key, 0) + 1]),
    ensures
        cut_done(u0, s2, u2, under, taken_below(s0, id, h, key, limits, is_root)),
{
    let node = s0[id];
    let i = first_above(node.keys, key, 0);
    let below = taken_below(s0, node.children[i], (h - 1) as nat, key, limits, false);
    lemma_mended_agree(s1, below.store, u1, node, child@, i, h, limits, is_root);
    let m1 = mended(s1, node, child@, i, h, limits, is_root);
    let m2 = mended(below.store, node, child@, i, h, limits, is_root);
    let t = taken_below(s0, id, h, key, limits, is_root);
    assert(t.store == m2.store && t.under == m2.under && t.freed == below.freed.union(m2.freed));
    assert forall|x: PageId| #[trigger] u2.contains(x) implies s2.contains_key(x)
        == t.store.contains_key(x) && (s2.contains_key(x) ==> s2[x] == t.store[x]) by {
        assert(u1.contains(x));
    }
}

} // verus!
