use crate::storage::page::index_page::{
    ascending, first_above, first_equal, lemma_first_above, lemma_first_equal, rank, IndexPageView,
    IndexType, RecordId,
};
use crate::storage::rebalance::max_keys;
use crate::storage::tree_model::{
    absent, child_hi, child_lo, children_ok, exit_of, first_leaf, first_leaf_from, in_range,
    leaf_get, lemma_absent_by_height, lemma_after_child, lemma_children_keep, lemma_first_above_is,
    lemma_first_equal_is, lemma_fresh_absent, lemma_install, lemma_keep, lemma_widen, linked,
    linked_from, lookup, lookup_from, ready, subtree_ok, told_apart, Limits, Store,
};
use crate::types::PageId;
use vstd::prelude::*;

verus! {

/// What a leaf holds after an entry was put into it: the new record id for
/// the key of the entry, and for every other key what it held before.
pub proof fn lemma_leaf_insert(v: IndexPageView, w: IndexPageView, key: i64, rid: RecordId, k: i64)
    requires
        v.wf(),
        v.page_type == IndexType::Leaf,
        w == ({
            let pos = crate::storage::page::index_page::rank(v.keys, key);
            if v.keys.contains(key) {
                IndexPageView { rids: v.rids.update(pos, rid), ..v }
            } else {
                IndexPageView {
                    keys: v.keys.insert(pos, key),
                    rids: v.rids.insert(pos, rid),
                    ..v
                }
            }
        }),
        w.wf(),
    ensures
        leaf_get(w, k) == (if k == key {
            Some(rid)
        } else {
            leaf_get(v, k)
        }),
{
    let pos = crate::storage::page::index_page::rank(v.keys, key);
    crate::storage::page::index_page::lemma_rank(v.keys, key);
    lemma_first_equal_is(v.keys, k);
    lemma_first_equal_is(w.keys, k);
    lemma_first_equal(v.keys, k, 0);
    lemma_first_equal(w.keys, k, 0);
    if v.keys.contains(key) {
        assert(w.keys == v.keys);
        if k == key {
            assert(v.keys[pos] == key);
        }
    } else {
        assert(w.keys[pos] == key);
        if k != key {
            match first_equal(v.keys, k, 0) {
                Some(j) => {
                    let j2 = if j < pos {
                        j
                    } else {
                        j + 1
                    };
                    assert(w.keys[j2] == k);
                    assert(w.rids[j2] == v.rids[j]);
                },
                None => {
                    if w.keys.contains(k) {
                        let j2 = choose|j2: int| 0 <= j2 < w.keys.len() && w.keys[j2] == k;
                        let j = if j2 < pos {
                            j2
                        } else {
                            j2 - 1
                        };
                        assert(v.keys[j] == k);
                    }
                },
            }
        }
    }
}

/// What the halves of a split leaf hold: the left one the entries below the
/// middle key, the right one the others.
pub proof fn lemma_leaf_split(v: IndexPageView, new_id: PageId, k: i64)
    requires
        v.wf(),
        v.page_type == IndexType::Leaf,
        v.keys.len() >= 1,
    ensures
        k < v.keys[v.keys.len() as int / 2] ==> leaf_get(v.split_left(new_id), k) == leaf_get(v, k),
        k >= v.keys[v.keys.len() as int / 2] ==> leaf_get(v.split_right(new_id), k) == leaf_get(
            v,
            k,
        ),
{
    let mid = v.keys.len() as int / 2;
    let left = v.split_left(new_id);
    let right = v.split_right(new_id);
    assert(ascending(left.keys));
    assert(ascending(right.keys));
    lemma_first_equal_is(v.keys, k);
    lemma_first_equal_is(left.keys, k);
    lemma_first_equal_is(right.keys, k);
    lemma_first_equal(v.keys, k, 0);
    lemma_first_equal(left.keys, k, 0);
    lemma_first_equal(right.keys, k, 0);
    match first_equal(v.keys, k, 0) {
        Some(j) => {
            if j < mid {
                assert(v.keys[j] < v.keys[mid]);
                assert(left.keys[j] == k);
            } else {
                if j > mid {
                    assert(v.keys[mid] < v.keys[j]);
                }
                assert(right.keys[j - mid] == k);
            }
        },
        None => {
            if left.keys.contains(k) {
                let j = choose|j: int| 0 <= j < left.keys.len() && left.keys[j] == k;
                assert(v.keys[j] == k);
            }
            if right.keys.contains(k) {
                let j = choose|j: int| 0 <= j < right.keys.len() && right.keys[j] == k;
                assert(v.keys[j + mid] == k);
            }
        },
    }
}

/// Where a search goes in an internal node after a key was put in at place
/// `i`, with its child right of it.
pub proof fn lemma_route_after_insert(keys: Seq<i64>, i: int, sep: i64, k: i64)
    requires
        ascending(keys),
        0 <= i <= keys.len(),
        i > 0 ==> keys[i - 1] < sep,
        i < keys.len() ==> sep < keys[i],
    ensures
        first_above(keys.insert(i, sep), k, 0) == ({
            let f = first_above(keys, k, 0);
            if f < i {
                f
            } else if f == i {
                if k < sep {
                    i
                } else {
                    i + 1
                }
            } else {
                f + 1
            }
        }),
        ascending(keys.insert(i, sep)),
{
    lemma_first_above(keys, k, 0);
    let f = first_above(keys, k, 0);
    let w = keys.insert(i, sep);
    assert forall|a: int, b: int| 0 <= a < b < w.len() implies w[a] < w[b] by {
        let a0 = if a < i {
            a
        } else {
            a - 1
        };
        let b0 = if b < i {
            b
        } else {
            b - 1
        };
        if a != i && b != i {
            assert(keys[a0] < keys[b0]);
        } else if a == i {
            if b0 > i {
                assert(keys[i] < keys[b0]);
            }
        } else {
            if a0 < i - 1 {
                assert(keys[a0] < keys[i - 1]);
            }
        }
    }
    let p = if f < i {
        f
    } else if f == i {
        if k < sep {
            i
        } else {
            i + 1
        }
    } else {
        f + 1
    };
    assert forall|j: int| 0 <= j < p implies #[trigger] w[j] <= k by {
        if j < i {
            if j < f {
                assert(keys[j] <= k);
            } else {
                // f <= j < i and j < p: impossible when f < i
                assert(f < i ==> p == f);
            }
        } else if j == i {
            assert(!(f < i));
            if f > i {
                assert(keys[i] <= k);
            }
        } else {
            assert(keys[j - 1] <= k);
        }
    }
    if p < w.len() {
        if f < i {
            assert(k < keys[f]);
        } else if f == i {
            if !(k < sep) {
                if i < keys.len() {
                    assert(k < keys[f]);
                }
            }
        } else {
            assert(k < keys[f]);
        }
    }
    lemma_first_above_is(w, k, p);
}

/// Where a search goes in the halves of a split internal node: for a key
/// below the middle key, in the left half to the child it went to before;
/// for any other key, in the right half.
pub proof fn lemma_route_after_split(v: IndexPageView, new_id: PageId, k: i64)
    requires
        v.wf(),
        v.page_type == IndexType::Internal,
        v.keys.len() >= 1,
    ensures
        ({
            let mid = v.keys.len() as int / 2;
            let left = v.split_left(new_id);
            let right = v.split_right(new_id);
            let f = first_above(v.keys, k, 0);
            &&& k < v.keys[mid] ==> first_above(left.keys, k, 0) == f && f <= mid
            &&& k >= v.keys[mid] ==> first_above(right.keys, k, 0) == f - (mid + 1) && f > mid
        }),
{
    let mid = v.keys.len() as int / 2;
    let left = v.split_left(new_id);
    let right = v.split_right(new_id);
    lemma_first_above(v.keys, k, 0);
    let f = first_above(v.keys, k, 0);
    if k < v.keys[mid] {
        if f > mid {
            assert(v.keys[mid] <= k);
        }
        assert forall|j: int| 0 <= j < f implies #[trigger] left.keys[j] <= k by {
            assert(v.keys[j] <= k);
        }
        lemma_first_above_is(left.keys, k, f);
    } else {
        if f <= mid {
            if f < mid {
                assert(v.keys[f] < v.keys[mid]);
            }
        }
        let p = f - (mid + 1);
        assert forall|j: int| 0 <= j < p implies #[trigger] right.keys[j] <= k by {
            assert(v.keys[j + mid + 1] <= k);
        }
        lemma_first_above_is(right.keys, k, p);
    }
}

/// What is left of the chain of leaves after a node was worked on: the
/// leaves below it are chained up to `exit`, or, where the node was split
/// and `promoted` names its new sibling, up to the first leaf below the
/// sibling, and those below the sibling up to `exit`.
pub open spec fn chain_after(
    s: Store,
    id: PageId,
    h: nat,
    exit: Option<PageId>,
    promoted: Option<(i64, PageId)>,
) -> bool {
    match promoted {
        None => linked(s, id, h, exit),
        Some(p) => linked(s, id, h, Some(first_leaf(s, p.1, h))) && linked(s, p.1, h, exit),
    }
}

/// The leaves below an internal node of a B+ tree are chained as before
/// after one of its children was split in two and the new sibling was put
/// into the node, if the leaves below the child still begin with the same
/// leaf and are chained up to those below the sibling, and these up to
/// where those below the child were.
pub proof fn lemma_linked_after_split(
    s0: Store,
    u0: Set<PageId>,
    s1: Store,
    u1: Set<PageId>,
    id: PageId,
    h: nat,
    lo: Option<i64>,
    hi: Option<i64>,
    limits: Limits,
    is_root: bool,
    i: int,
    exit: Option<PageId>,
    sep: i64,
    sib: PageId,
    node2: IndexPageView,
)
    requires
        subtree_ok(s0, u0, id, h, lo, hi, limits, is_root),
        h > 0,
        limits.ok(),
        told_apart(limits, s0, id, h),
        0 <= i <= s0[id].keys.len(),
        forall|x: PageId|
            u0.contains(x) && s0.contains_key(x) && #[trigger] absent(
                s0,
                s0[id].children[i],
                (h - 1) as nat,
                x,
            ) ==> s1.contains_key(x) && s1[x] == s0[x] && u1.contains(x),
        linked(s0, id, h, exit),
        first_leaf(s1, s0[id].children[i], (h - 1) as nat) == first_leaf(
            s0,
            s0[id].children[i],
            (h - 1) as nat,
        ),
        linked(
            s1,
            s0[id].children[i],
            (h - 1) as nat,
            Some(first_leaf(s1, sib, (h - 1) as nat)),
        ),
        linked(s1, sib, (h - 1) as nat, exit_of(s0, s0[id], i, h, exit)),
        node2 == (IndexPageView {
            keys: s0[id].keys.insert(i, sep),
            children: s0[id].children.insert(i + 1, sib),
            ..s0[id]
        }),
    ensures
        linked_from(s1, node2, h, exit),
        first_leaf_from(s1, node2, h) == first_leaf(s0, id, h),
{
    let node = s0[id];
    let hc = (h - 1) as nat;
    let n = node.keys.len() as int;
    lemma_after_child(s0, u0, s1, u1, id, h, lo, hi, limits, is_root, i);
    assert(node.children.len() == n + 1);
    assert(node2.children[0] == node.children[0]);
    assert(first_leaf(s1, node.children[0], hc) == first_leaf(s0, node.children[0], hc));
    reveal(linked);
    reveal(linked_from);
    assert forall|m: int| 0 <= m <= node2.keys.len() implies linked(
        s1,
        #[trigger] node2.children[m],
        hc,
        exit_of(s1, node2, m, h, exit),
    ) by {
        if m <= i {
            assert(node2.children[m] == node.children[m]);
            if m < i {
                assert(node2.children[m + 1] == node.children[m + 1]);
                assert(first_leaf(s1, node.children[m + 1], hc) == first_leaf(
                    s0,
                    node.children[m + 1],
                    hc,
                ));
                assert(exit_of(s1, node2, m, h, exit) == exit_of(s0, node, m, h, exit));
                assert(linked(s0, node.children[m], hc, exit_of(s0, node, m, h, exit)));
            } else {
                assert(node2.children[i + 1] == sib);
            }
        } else if m == i + 1 {
            assert(node2.children[m] == sib);
            if i < n {
                assert(node2.children[m + 1] == node.children[i + 1]);
                assert(first_leaf(s1, node.children[i + 1], hc) == first_leaf(
                    s0,
                    node.children[i + 1],
                    hc,
                ));
            }
            assert(exit_of(s1, node2, m, h, exit) == exit_of(s0, node, i, h, exit));
        } else {
            assert(node2.children[m] == node.children[m - 1]);
            if m - 1 < n {
                assert(node2.children[m + 1] == node.children[m]);
                assert(first_leaf(s1, node.children[m], hc)
                    == first_leaf(s0, node.children[m], hc));
            }
            assert(exit_of(s1, node2, m, h, exit) == exit_of(s0, node, m - 1, h, exit));
            assert(linked(s0, node.children[m - 1], hc, exit_of(s0, node, m - 1, h, exit)));
        }
    }
}

/// The children of an internal node are B+ trees again after one of them
/// was split in two and the key between the two was put into the node.
pub proof fn lemma_children_after_insert(
    s: Store,
    u: Set<PageId>,
    node: IndexPageView,
    node2: IndexPageView,
    h: nat,
    lo: Option<i64>,
    hi: Option<i64>,
    limits: Limits,
    i: int,
    sep: i64,
    sib: PageId,
)
    requires
        h > 0,
        node.wf(),
        node.page_type == IndexType::Internal,
        0 <= i <= node.keys.len(),
        node2 == (IndexPageView {
            keys: node.keys.insert(i, sep),
            children: node.children.insert(i + 1, sib),
            ..node
        }),
        i > 0 ==> node.keys[i - 1] < sep,
        i < node.keys.len() ==> sep < node.keys[i],
        forall|j: int|
            0 <= j <= node.keys.len() && j != i ==> subtree_ok(
                s,
                u,
                #[trigger] node.children[j],
                (h - 1) as nat,
                child_lo(node, j, lo),
                child_hi(node, j, hi),
                limits,
                false,
            ),
        subtree_ok(
            s,
            u,
            node.children[i],
            (h - 1) as nat,
            child_lo(node, i, lo),
            Some(sep),
            limits,
            false,
        ),
        subtree_ok(s, u, sib, (h - 1) as nat, Some(sep), child_hi(node, i, hi), limits, false),
    ensures
        children_ok(s, u, node2, h, lo, hi, limits),
{
    assert forall|m: int| 0 <= m <= node2.keys.len() implies subtree_ok(
        s,
        u,
        #[trigger] node2.children[m],
        (h - 1) as nat,
        child_lo(node2, m, lo),
        child_hi(node2, m, hi),
        limits,
        false,
    ) by {
        if m < i {
            assert(node2.children[m] == node.children[m]);
            assert(child_lo(node2, m, lo) == child_lo(node, m, lo));
            assert(child_hi(node2, m, hi) == child_hi(node, m, hi));
        } else if m == i {
            assert(node2.children[m] == node.children[i]);
            assert(child_lo(node2, m, lo) == child_lo(node, i, lo));
            assert(child_hi(node2, m, hi) == Some(sep));
        } else if m == i + 1 {
            assert(node2.children[m] == sib);
            assert(child_lo(node2, m, lo) == Some(sep));
            assert(child_hi(node2, m, hi) == child_hi(node, i, hi));
        } else {
            assert(node2.children[m] == node.children[m - 1]);
            assert(child_lo(node2, m, lo) == child_lo(node, m - 1, lo));
            assert(child_hi(node2, m, hi) == child_hi(node, m - 1, hi));
        }
    }
}

/// The children of the two halves of a split internal node are the
/// children of the node, over the same ranges; a search goes on from the
/// half on its side of the middle key as it did from the node.
pub proof fn lemma_children_split(
    s: Store,
    u: Set<PageId>,
    node: IndexPageView,
    new_id: PageId,
    h: nat,
    lo: Option<i64>,
    hi: Option<i64>,
    limits: Limits,
)
    requires
        h > 0,
        node.wf(),
        node.page_type == IndexType::Internal,
        node.keys.len() >= 1,
        children_ok(s, u, node, h, lo, hi, limits),
    ensures
        children_ok(
            s,
            u,
            node.split_left(new_id),
            h,
            lo,
            Some(node.keys[node.keys.len() as int / 2]),
            limits,
        ),
        children_ok(
            s,
            u,
            node.split_right(new_id),
            h,
            Some(node.keys[node.keys.len() as int / 2]),
            hi,
            limits,
        ),
        forall|k: i64|
            k < node.keys[node.keys.len() as int / 2] ==> #[trigger] lookup_from(
                s,
                node.split_left(new_id),
                h,
                k,
            ) == lookup_from(s, node, h, k),
        forall|k: i64|
            k >= node.keys[node.keys.len() as int / 2] ==> #[trigger] lookup_from(
                s,
                node.split_right(new_id),
                h,
                k,
            ) == lookup_from(s, node, h, k),
        first_leaf_from(s, node.split_left(new_id), h) == first_leaf_from(s, node, h),
        forall|e: Option<PageId>| #[trigger]
            linked_from(s, node, h, e) ==> linked_from(
                s,
                node.split_left(new_id),
                h,
                Some(first_leaf_from(s, node.split_right(new_id), h)),
            ) && linked_from(s, node.split_right(new_id), h, e),
{
    let mid = node.keys.len() as int / 2;
    let sep = node.keys[mid];
    let left = node.split_left(new_id);
    let right = node.split_right(new_id);
    assert forall|m: int| 0 <= m <= left.keys.len() implies subtree_ok(
        s,
        u,
        #[trigger] left.children[m],
        (h - 1) as nat,
        child_lo(left, m, lo),
        child_hi(left, m, Some(sep)),
        limits,
        false,
    ) by {
        assert(left.children[m] == node.children[m]);
        assert(child_lo(left, m, lo) == child_lo(node, m, lo));
        assert(child_hi(left, m, Some(sep)) == child_hi(node, m, hi));
    }
    assert forall|m: int| 0 <= m <= right.keys.len() implies subtree_ok(
        s,
        u,
        #[trigger] right.children[m],
        (h - 1) as nat,
        child_lo(right, m, Some(sep)),
        child_hi(right, m, hi),
        limits,
        false,
    ) by {
        let m0 = m + mid + 1;
        assert(right.children[m] == node.children[m0]);
        assert(child_lo(right, m, Some(sep)) == child_lo(node, m0, lo));
        assert(child_hi(right, m, hi) == child_hi(node, m0, hi));
    }
    assert forall|k: i64| k < sep implies #[trigger] lookup_from(s, left, h, k) == lookup_from(
        s,
        node,
        h,
        k,
    ) by {
        lemma_route_after_split(node, new_id, k);
        lemma_first_above(node.keys, k, 0);
        let f = first_above(node.keys, k, 0);
        assert(left.children[f] == node.children[f]);
    }
    assert forall|k: i64| k >= sep implies #[trigger] lookup_from(s, right, h, k) == lookup_from(
        s,
        node,
        h,
        k,
    ) by {
        lemma_route_after_split(node, new_id, k);
        lemma_first_above(node.keys, k, 0);
        let f = first_above(node.keys, k, 0);
        assert(right.children[f - (mid + 1)] == node.children[f]);
    }
    assert(left.children[0] == node.children[0]);
    assert forall|e: Option<PageId>| #[trigger] linked_from(s, node, h, e) implies linked_from(
        s,
        left,
        h,
        Some(first_leaf_from(s, right, h)),
    ) && linked_from(s, right, h, e) by {
        reveal(linked_from);
        let e1 = Some(first_leaf_from(s, right, h));
        assert(right.children[0] == node.children[mid + 1]);
        assert forall|m: int| 0 <= m <= left.keys.len() implies linked(
            s,
            #[trigger] left.children[m],
            (h - 1) as nat,
            exit_of(s, left, m, h, e1),
        ) by {
            assert(left.children[m] == node.children[m]);
            if m < left.keys.len() {
                assert(left.children[m + 1] == node.children[m + 1]);
            }
            assert(exit_of(s, left, m, h, e1) == exit_of(s, node, m, h, e));
        }
        assert forall|m: int| 0 <= m <= right.keys.len() implies linked(
            s,
            #[trigger] right.children[m],
            (h - 1) as nat,
            exit_of(s, right, m, h, e),
        ) by {
            let m0 = m + mid + 1;
            assert(right.children[m] == node.children[m0]);
            if m < right.keys.len() {
                assert(right.children[m + 1] == node.children[m0 + 1]);
            }
            assert(exit_of(s, right, m, h, e) == exit_of(s, node, m0, h, e));
        }
    }
}

/// The halves of a node that holds one key more than its maximum are nodes
/// that can be written out, each with a key, and neither with fewer keys
/// than the minimum or more than the maximum.
pub proof fn lemma_split_halves(
    node: IndexPageView,
    new_id: PageId,
    h: nat,
    lo: Option<i64>,
    hi: Option<i64>,
    limits: Limits,
)
    requires
        limits.ok(),
        node.wf(),
        forall|i: int| 0 <= i < node.keys.len() ==> in_range(#[trigger] node.keys[i], lo, hi),
        if h == 0 {
            &&& node.page_type == IndexType::Leaf
            &&& node.children.len() == 0
            &&& node.keys.len() == limits.leaf_max + 1
        } else {
            &&& node.page_type == IndexType::Internal
            &&& node.rids.len() == 0
            &&& node.next is None
            &&& node.keys.len() == limits.internal_max + 1
        },
    ensures
        ({
            let sep = node.keys[node.keys.len() as int / 2];
            let left = node.split_left(new_id);
            let right = node.split_right(new_id);
            &&& in_range(sep, lo, hi)
            &&& lo is Some ==> lo.unwrap() < sep
            &&& left.id == node.id
            &&& right.id == new_id
            &&& left.wf() && right.wf()
            &&& left.storable() && right.storable()
            &&& left.page_type == node.page_type && right.page_type == node.page_type
            &&& forall|i: int| 0 <= i < left.keys.len()
                ==> in_range(#[trigger] left.keys[i], lo, Some(sep))
            &&& forall|i: int|
                0 <= i < right.keys.len() ==> in_range(#[trigger] right.keys[i], Some(sep), hi)
            &&& if h == 0 {
                &&& limits.leaf_min <= left.keys.len() <= limits.leaf_max
                &&& limits.leaf_min <= right.keys.len() <= limits.leaf_max
                &&& 1 <= left.keys.len() && 1 <= right.keys.len()
            } else {
                &&& limits.internal_min <= left.keys.len() <= limits.internal_max
                &&& limits.internal_min <= right.keys.len() <= limits.internal_max
                &&& 1 <= left.keys.len() && 1 <= right.keys.len()
            }
        }),
{
    let n = node.keys.len() as int;
    let mid = n / 2;
    let sep = node.keys[mid];
    let left = node.split_left(new_id);
    let right = node.split_right(new_id);
    assert(mid >= 1);
    assert(in_range(node.keys[0], lo, hi));
    assert(node.keys[0] < node.keys[mid]);
    assert(in_range(node.keys[mid], lo, hi));
    assert forall|i: int| 0 <= i < left.keys.len() implies in_range(
        #[trigger] left.keys[i],
        lo,
        Some(sep),
    ) by {
        assert(left.keys[i] == node.keys[i]);
        assert(in_range(node.keys[i], lo, hi));
        assert(node.keys[i] < node.keys[mid]);
    }
    if h == 0 {
        assert forall|i: int| 0 <= i < right.keys.len() implies in_range(
            #[trigger] right.keys[i],
            Some(sep),
            hi,
        ) by {
            assert(right.keys[i] == node.keys[i + mid]);
            assert(in_range(node.keys[i + mid], lo, hi));
            if i > 0 {
                assert(node.keys[mid] < node.keys[i + mid]);
            }
        }
    } else {
        assert forall|i: int| 0 <= i < right.keys.len() implies in_range(
            #[trigger] right.keys[i],
            Some(sep),
            hi,
        ) by {
            assert(right.keys[i] == node.keys[i + mid + 1]);
            assert(in_range(node.keys[i + mid + 1], lo, hi));
            assert(node.keys[mid] < node.keys[i + mid + 1]);
        }
    }
    assert(ascending(left.keys));
    assert(ascending(right.keys));
}

/// The store after a node that holds one key more than its maximum was
/// split: a new page was taken, the left half was written to the page of
/// the node and the right half to the new page.
pub open spec fn store_after_split(s: Store, node: IndexPageView, new_id: PageId) -> Store {
    s.insert(new_id, IndexPageView::empty(new_id, IndexType::Leaf)).insert(
        node.id,
        node.split_left(new_id),
    ).insert(new_id, node.split_right(new_id))
}

/// What a leaf holds after the entry `(key, rid)` was put into it: the key
/// at its place among the keys, with `rid`; `rid` in the place of what the
/// key had if the key was there.
pub open spec fn leaf_put(v: IndexPageView, key: i64, rid: RecordId) -> IndexPageView {
    let pos = rank(v.keys, key);
    if v.keys.contains(key) {
        IndexPageView { rids: v.rids.update(pos, rid), ..v }
    } else {
        IndexPageView { keys: v.keys.insert(pos, key), rids: v.rids.insert(pos, rid), ..v }
    }
}

/// What an internal node holds after one of its children was split and
/// the key `sep` came up with the new sibling `sib`: the key at its place
/// among the keys, the sibling right of it.
pub open spec fn with_child(v: IndexPageView, sep: i64, sib: PageId) -> IndexPageView {
    let pos = rank(v.keys, sep);
    IndexPageView { keys: v.keys.insert(pos, sep), children: v.children.insert(pos + 1, sib), ..v }
}

/// The store after the node `node` of height `h` was written, and the key
/// and the sibling that go up to its parent: the node goes to its page if
/// it holds no more keys than its maximum; else it is split, its right half
/// goes to the page `new_id` and its middle key goes up.
pub open spec fn settled(
    s: Store,
    node: IndexPageView,
    h: nat,
    limits: Limits,
    new_id: PageId,
) -> (Store, Option<(i64, PageId)>) {
    if node.keys.len() <= max_keys(limits, h) {
        (s.insert(node.id, node), None)
    } else {
        (store_after_split(s, node, new_id), Some((node.keys[node.keys.len() as int / 2], new_id)))
    }
}

/// The store after the entry `(key, rid)` was put into the tree from the
/// node `id` down, and the key and the sibling that go up from the node if
/// it was split. The entry goes into the leaf that a search for the key
/// comes to; a node that comes to hold more keys than its maximum is
/// split, and `fresh[k]` is the page that the new sibling at height `k`
/// stands on.
pub open spec fn put_below(
    s: Store,
    id: PageId,
    h: nat,
    key: i64,
    rid: RecordId,
    limits: Limits,
    fresh: Seq<PageId>,
) -> (Store, Option<(i64, PageId)>)
    decreases h,
{
    if h == 0 {
        settled(s, leaf_put(s[id], key, rid), h, limits, fresh[0])
    } else {
        let node = s[id];
        let below = put_below(
            s,
            node.children[first_above(node.keys, key, 0)],
            (h - 1) as nat,
            key,
            rid,
            limits,
            fresh,
        );
        match below.1 {
            None => below,
            Some(up) => settled(below.0, with_child(node, up.0, up.1), h, limits, fresh[h as int]),
        }
    }
}

/// What `put_below` gives depends on the pages of the new siblings up to
/// the height of the node only.
pub proof fn lemma_put_prefix(
    s: Store,
    id: PageId,
    h: nat,
    key: i64,
    rid: RecordId,
    limits: Limits,
    f1: Seq<PageId>,
    f2: Seq<PageId>,
)
    requires
        forall|k: int| 0 <= k <= h ==> f1[k] == f2[k],
    ensures
        put_below(s, id, h, key, rid, limits, f1) == put_below(s, id, h, key, rid, limits, f2),
    decreases h,
{
    if h > 0 {
        let node = s[id];
        lemma_put_prefix(
            s,
            node.children[first_above(node.keys, key, 0)],
            (h - 1) as nat,
            key,
            rid,
            limits,
            f1,
            f2,
        );
    }
}

/// What an insertion below the node `id` of height `h` made of the store
/// `s0` and the ids in use `u0`: the store and what goes up are those of
/// `put_below` with the new pages `fresh`, one for each node that was split,
/// from the leaf up; the pages were not in use before and are in use now.
pub open spec fn grown(
    s0: Store,
    u0: Set<PageId>,
    s1: Store,
    u1: Set<PageId>,
    id: PageId,
    h: nat,
    key: i64,
    rid: RecordId,
    limits: Limits,
    promoted: Option<(i64, PageId)>,
    fresh: Seq<PageId>,
) -> bool {
    &&& put_below(s0, id, h, key, rid, limits, fresh).0 == s1
    &&& put_below(s0, id, h, key, rid, limits, fresh).1 == promoted
    &&& fresh.len() <= h + 1
    &&& (promoted is Some) == (fresh.len() == h + 1)
    &&& fresh.no_duplicates()
    &&& forall|x: PageId| u1.contains(x) == (u0.contains(x) || fresh.contains(x))
    &&& forall|k: int| 0 <= k < fresh.len() ==> !u0.contains(#[trigger] fresh[k])
}

/// What writing the node `node` of height `h` made of the store `s` and
/// the ids in use `u`: the node is on its page if it holds no more keys
/// than its maximum; else it was split, its right half is on a page that
/// was not in use, and its middle key goes up with that page.
pub open spec fn settle_done(
    s: Store,
    u: Set<PageId>,
    node: IndexPageView,
    h: nat,
    limits: Limits,
    s2: Store,
    u2: Set<PageId>,
    promoted: Option<(i64, PageId)>,
) -> bool {
    match promoted {
        None => node.keys.len() <= max_keys(limits, h) && s2 == s.insert(node.id, node) && u2 == u,
        Some(up) => {
            &&& node.keys.len() > max_keys(limits, h)
            &&& up.0 == node.keys[node.keys.len() as int / 2]
            &&& s2 == store_after_split(s, node, up.1)
            &&& u2 == u.insert(up.1)
            &&& !u.contains(up.1)
        },
    }
}

/// The new pages of an insertion that ended with the writing of a node:
/// those of the insertion below it, and the page of its new sibling if it
/// was split.
pub open spec fn fresh_with(below: Seq<PageId>, promoted: Option<(i64, PageId)>) -> Seq<PageId> {
    match promoted {
        None => below,
        Some(up) => below.push(up.1),
    }
}

/// What an insertion into a leaf made of the store is what `put_below` says.
pub proof fn lemma_grown_leaf(
    s0: Store,
    u0: Set<PageId>,
    s1: Store,
    u1: Set<PageId>,
    id: PageId,
    key: i64,
    rid: RecordId,
    limits: Limits,
    promoted: Option<(i64, PageId)>,
)
    requires
        settle_done(s0, u0, leaf_put(s0[id], key, rid), 0, limits, s1, u1, promoted),
    ensures
        grown(
            s0,
            u0,
            s1,
            u1,
            id,
            0,
            key,
            rid,
            limits,
            promoted,
            fresh_with(Seq::empty(), promoted),
        ),
{
    let fresh = fresh_with(Seq::<PageId>::empty(), promoted);
    if promoted is Some {
        let sib = promoted.unwrap().1;
        assert(fresh[0] == sib);
        assert forall|x: PageId| u1.contains(x) == (u0.contains(x) || fresh.contains(x)) by {
            if fresh.contains(x) {
                let k = choose|k: int| 0 <= k < fresh.len() && fresh[k] == x;
                assert(x == sib);
            }
            if x == sib {
                assert(fresh[0] == x);
            }
        }
    } else {
        assert forall|x: PageId| u1.contains(x) == (u0.contains(x) || fresh.contains(x)) by {}
    }
}

/// What an insertion below an internal node made of the store is what
/// `put_below` says, where the child took the entry without a split.
pub proof fn lemma_grown_none(
    s0: Store,
    u0: Set<PageId>,
    s1: Store,
    u1: Set<PageId>,
    id: PageId,
    h: nat,
    key: i64,
    rid: RecordId,
    limits: Limits,
    below: Seq<PageId>,
)
    requires
        h > 0,
        grown(
            s0,
            u0,
            s1,
            u1,
            s0[id].children[first_above(s0[id].keys, key, 0)],
            (h - 1) as nat,
            key,
            rid,
            limits,
            None,
            below,
        ),
    ensures
        grown(s0, u0, s1, u1, id, h, key, rid, limits, None, below),
{
}

/// What an insertion below an internal node made of the store is what
/// `put_below` says, where the child was split and the node was written
/// with the key and the sibling that came up.
pub proof fn lemma_grown_some(
    s0: Store,
    u0: Set<PageId>,
    s1: Store,
    u1: Set<PageId>,
    s2: Store,
    u2: Set<PageId>,
    id: PageId,
    h: nat,
    key: i64,
    rid: RecordId,
    limits: Limits,
    below: Seq<PageId>,
    up: (i64, PageId),
    promoted: Option<(i64, PageId)>,
)
    requires
        h > 0,
        grown(
            s0,
            u0,
            s1,
            u1,
            s0[id].children[first_above(s0[id].keys, key, 0)],
            (h - 1) as nat,
            key,
            rid,
            limits,
            Some(up),
            below,
        ),
        settle_done(s1, u1, with_child(s0[id], up.0, up.1), h, limits, s2, u2, promoted),
    ensures
        grown(s0, u0, s2, u2, id, h, key, rid, limits, promoted, fresh_with(below, promoted)),
{
    let child = s0[id].children[first_above(s0[id].keys, key, 0)];
    let fresh = fresh_with(below, promoted);
    assert(below.len() == h);
    if promoted is Some {
        let sib = promoted.unwrap().1;
        assert(fresh[h as int] == sib);
        assert forall|k: int| 0 <= k <= h - 1 implies below[k] == fresh[k] by {}
        lemma_put_prefix(s0, child, (h - 1) as nat, key, rid, limits, below, fresh);
        assert forall|x: PageId| fresh.contains(x) == (below.contains(x) || x == sib) by {
            if fresh.contains(x) {
                let k = choose|k: int| 0 <= k < fresh.len() && fresh[k] == x;
                if k < below.len() {
                    assert(below[k] == x);
                }
            }
            if below.contains(x) {
                let k = choose|k: int| 0 <= k < below.len() && below[k] == x;
                assert(fresh[k] == x);
            }
            if x == sib {
                assert(fresh[h as int] == x);
            }
        }
        assert(!below.contains(sib)) by {
            assert(u1.contains(sib) == (u0.contains(sib) || below.contains(sib)));
        }
        assert(fresh.no_duplicates()) by {
            assert forall|a: int, b: int| 0 <= a < fresh.len() && 0 <= b < fresh.len() && a
                != b implies fresh[a] != fresh[b] by {
                if a < h && b < h {
                    assert(below[a] != below[b]);
                } else if a < h {
                    assert(below.contains(below[a]));
                } else if b < h {
                    assert(below.contains(below[b]));
                }
            }
        }
        assert forall|k: int| 0 <= k < fresh.len() implies !u0.contains(#[trigger] fresh[k]) by {
            if k < h {
                assert(fresh[k] == below[k]);
            } else {
                assert(u1.contains(sib) == (u0.contains(sib) || below.contains(sib)));
            }
        }
        assert forall|x: PageId| u2.contains(x) == (u0.contains(x) || fresh.contains(x)) by {
            assert(u1.contains(x) == (u0.contains(x) || below.contains(x)));
        }
    }
}

/// The internal node on the page `id` with the one key `sep` between the
/// children `left` and `right`.
pub open spec fn root_over(id: PageId, left: PageId, sep: i64, right: PageId) -> IndexPageView {
    IndexPageView {
        id,
        page_type: IndexType::Internal,
        keys: seq![sep],
        rids: Seq::empty(),
        children: seq![left, right],
        next: None,
    }
}

/// The store, the root and the height of a tree after the entry
/// `(key, rid)` was put into it: as `put_below` gives them from the root;
/// where the root was split, a new root on the page after the last new
/// sibling, `fresh[h + 1]`, with the middle key of the old root between the
/// old root and its new sibling, and the tree is one level higher.
pub open spec fn tree_put(
    s: Store,
    root: PageId,
    h: nat,
    key: i64,
    rid: RecordId,
    limits: Limits,
    fresh: Seq<PageId>,
) -> (Store, PageId, nat) {
    let below = put_below(s, root, h, key, rid, limits, fresh);
    match below.1 {
        None => (below.0, root, h),
        Some(up) => {
            let top = fresh[h as int + 1];
            (below.0.insert(top, root_over(top, root, up.0, up.1)), top, h + 1)
        },
    }
}

/// What an insertion made of a tree: the store, the root and the height
/// are those of `tree_put` with the new pages `fresh`, one for each node
/// that was split, from the leaf up, and one for a new root; the pages
/// were not in use before and are in use now.
pub open spec fn tree_grown(
    s0: Store,
    u0: Set<PageId>,
    root0: PageId,
    h0: nat,
    s1: Store,
    u1: Set<PageId>,
    root1: PageId,
    h1: nat,
    key: i64,
    rid: RecordId,
    limits: Limits,
    fresh: Seq<PageId>,
) -> bool {
    &&& tree_put(s0, root0, h0, key, rid, limits, fresh).0 == s1
    &&& tree_put(s0, root0, h0, key, rid, limits, fresh).1 == root1
    &&& tree_put(s0, root0, h0, key, rid, limits, fresh).2 == h1
    &&& fresh.len() <= h0 + 2
    &&& (h1 == h0 + 1) == (fresh.len() == h0 + 2)
    &&& fresh.no_duplicates()
    &&& forall|x: PageId| u1.contains(x) == (u0.contains(x) || fresh.contains(x))
    &&& forall|k: int| 0 <= k < fresh.len() ==> !u0.contains(#[trigger] fresh[k])
}

/// What an insertion from the root down made of a tree is what `tree_put`
/// says, where a root that was split got a new root above it.
pub proof fn lemma_tree_grown(
    s0: Store,
    u0: Set<PageId>,
    s1: Store,
    u1: Set<PageId>,
    s2: Store,
    u2: Set<PageId>,
    root: PageId,
    h: nat,
    key: i64,
    rid: RecordId,
    limits: Limits,
    below: Seq<PageId>,
    promoted: Option<(i64, PageId)>,
    top: PageId,
)
    requires
        grown(s0, u0, s1, u1, root, h, key, rid, limits, promoted, below),
        match promoted {
            None => s2 == s1 && u2 == u1,
            Some(up) => s2 == s1.insert(top, root_over(top, root, up.0, up.1)) && u2 == u1.insert(
                top,
            ) && !u1.contains(top),
        },
    ensures
        tree_grown(
            s0,
            u0,
            root,
            h,
            s2,
            u2,
            match promoted {
                None => root,
                Some(up) => top,
            },
            match promoted {
                None => h,
                Some(up) => h + 1,
            },
            key,
            rid,
            limits,
            match promoted {
                None => below,
                Some(up) => below.push(top),
            },
        ),
{
    if promoted is Some {
        let fresh = below.push(top);
        assert(below.len() == h + 1);
        assert(fresh[h as int + 1] == top);
        assert forall|k: int| 0 <= k <= h implies below[k] == fresh[k] by {}
        lemma_put_prefix(s0, root, h, key, rid, limits, below, fresh);
        assert forall|x: PageId| fresh.contains(x) == (below.contains(x) || x == top) by {
            if fresh.contains(x) {
                let k = choose|k: int| 0 <= k < fresh.len() && fresh[k] == x;
                if k < below.len() {
                    assert(below[k] == x);
                }
            }
            if below.contains(x) {
                let k = choose|k: int| 0 <= k < below.len() && below[k] == x;
                assert(fresh[k] == x);
            }
            if x == top {
                assert(fresh[h as int + 1] == x);
            }
        }
        assert(!below.contains(top)) by {
            assert(u1.contains(top) == (u0.contains(top) || below.contains(top)));
        }
        assert(fresh.no_duplicates()) by {
            assert forall|a: int, b: int| 0 <= a < fresh.len() && 0 <= b < fresh.len() && a
                != b implies fresh[a] != fresh[b] by {
                if a <= h && b <= h {
                    assert(below[a] != below[b]);
                } else if a <= h {
                    assert(below.contains(below[a]));
                } else if b <= h {
                    assert(below.contains(below[b]));
                }
            }
        }
        assert forall|k: int| 0 <= k < fresh.len() implies !u0.contains(#[trigger] fresh[k]) by {
            if k <= h {
                assert(fresh[k] == below[k]);
            } else {
                assert(u1.contains(top) == (u0.contains(top) || below.contains(top)));
            }
        }
        assert forall|x: PageId| u2.contains(x) == (u0.contains(x) || fresh.contains(x)) by {
            assert(u1.contains(x) == (u0.contains(x) || below.contains(x)));
        }
    }
}

/// A node that is ready and holds one key more than its maximum makes two
/// B+ trees when it is split, one on each side of its middle key; a search
/// goes on in the one on its side as from the node.
pub proof fn lemma_settle_split(
    s: Store,
    u: Set<PageId>,
    node: IndexPageView,
    id: PageId,
    new_id: PageId,
    h: nat,
    lo: Option<i64>,
    hi: Option<i64>,
    limits: Limits,
    is_root: bool,
)
    requires
        ready(s, u, node, id, h, lo, hi, limits, is_root),
        limits.ok(),
        !u.contains(new_id),
        h == 0 ==> node.keys.len() == limits.leaf_max + 1,
        h > 0 ==> node.keys.len() == limits.internal_max + 1,
    ensures
        ({
            let sep = node.keys[node.keys.len() as int / 2];
            let s3 = store_after_split(s, node, new_id);
            let u1 = u.insert(new_id);
            &&& subtree_ok(s3, u1, id, h, lo, Some(sep), limits, false)
            &&& subtree_ok(s3, u1, new_id, h, Some(sep), hi, limits, false)
            &&& forall|k: i64| k < sep
                ==> #[trigger] lookup(s3, id, h, k) == lookup_from(s, node, h, k)
            &&& forall|k: i64|
                k >= sep ==> #[trigger] lookup(s3, new_id, h, k) == lookup_from(s, node, h, k)
            &&& first_leaf(s3, id, h) == first_leaf_from(s, node, h)
            &&& forall|e: Option<PageId>| #[trigger]
                linked_from(s, node, h, e) ==> linked(s3, id, h, Some(first_leaf(s3, new_id, h)))
                    && linked(s3, new_id, h, e)
        }),
{
    let sep = node.keys[node.keys.len() as int / 2];
    let left = node.split_left(new_id);
    let right = node.split_right(new_id);
    let empty = IndexPageView::empty(new_id, IndexType::Leaf);
    let s1 = s.insert(new_id, empty);
    let s2 = s1.insert(id, left);
    let s3 = s2.insert(new_id, right);
    let u1 = u.insert(new_id);
    assert(s3 == store_after_split(s, node, new_id));
    lemma_split_halves(node, new_id, h, lo, hi, limits);
    if h == 0 {
        assert(s3[id] == left);
        assert(s3[new_id] == right);
        assert forall|k: i64| k < sep implies #[trigger] lookup(s3, id, h, k) == lookup_from(
            s,
            node,
            h,
            k,
        ) by {
            lemma_leaf_split(node, new_id, k);
        }
        assert forall|k: i64| k >= sep implies #[trigger] lookup(s3, new_id, h, k) == lookup_from(
            s,
            node,
            h,
            k,
        ) by {
            lemma_leaf_split(node, new_id, k);
        }
        assert forall|e: Option<PageId>| #[trigger] linked_from(s, node, h, e) implies linked(
            s3,
            id,
            h,
            Some(first_leaf(s3, new_id, h)),
        ) && linked(s3, new_id, h, e) by {
            reveal(linked_from);
            reveal_with_fuel(linked, 1);
        }
    } else {
        let hc = (h - 1) as nat;
        // the new page is none of the nodes below the node
        assert forall|i: int| 0 <= i <= node.keys.len() implies absent(
            s,
            #[trigger] node.children[i],
            hc,
            new_id,
        ) by {
            lemma_fresh_absent(
                s,
                u,
                node.children[i],
                hc,
                child_lo(node, i, lo),
                child_hi(node, i, hi),
                limits,
                false,
                new_id,
            );
        }
        lemma_children_keep(s, u, new_id, empty, u1, node, h, lo, hi, limits);
        lemma_children_split(s1, u1, node, new_id, h, lo, hi, limits);
        // the left half, written to the page of the node
        assert forall|i: int| 0 <= i <= left.keys.len() implies absent(
            s1,
            #[trigger] left.children[i],
            hc,
            id,
        ) by {
            assert(left.children[i] == node.children[i]);
            assert(absent(s1, node.children[i], hc, id) == absent(s, node.children[i], hc, id));
        }
        assert(ready(s1, u1, left, id, h, lo, Some(sep), limits, false));
        lemma_install(s1, u1, left, id, h, lo, Some(sep), limits, false);
        // the right half, written to the new page
        let mid = node.keys.len() as int / 2;
        assert forall|i: int| 0 <= i <= right.keys.len() implies absent(
            s1,
            #[trigger] right.children[i],
            hc,
            id,
        ) && absent(s1, right.children[i], hc, new_id) by {
            assert(right.children[i] == node.children[i + mid + 1]);
            assert(absent(s1, node.children[i + mid + 1], hc, id) == absent(
                s,
                node.children[i + mid + 1],
                hc,
                id,
            ));
            assert(absent(s1, node.children[i + mid + 1], hc, new_id) == absent(
                s,
                node.children[i + mid + 1],
                hc,
                new_id,
            ));
        }
        lemma_children_keep(s1, u1, id, left, u1, right, h, Some(sep), hi, limits);
        assert forall|i: int| 0 <= i <= right.keys.len() implies absent(
            s2,
            #[trigger] right.children[i],
            hc,
            new_id,
        ) by {
            assert(absent(s2, right.children[i], hc, new_id) == absent(
                s1,
                right.children[i],
                hc,
                new_id,
            ));
        }
        assert(ready(s2, u1, right, new_id, h, Some(sep), hi, limits, false));
        lemma_install(s2, u1, right, new_id, h, Some(sep), hi, limits, false);
        // the left half is untouched by the second write
        assert(absent(s2, id, h, new_id)) by {
            assert(s2[id] == left);
            assert forall|i: int| 0 <= i < left.children.len() implies absent(
                s2,
                #[trigger] left.children[i],
                hc,
                new_id,
            ) by {
                assert(left.children[i] == node.children[i]);
                assert(absent(s1, node.children[i], hc, new_id) == absent(
                    s,
                    node.children[i],
                    hc,
                    new_id,
                ));
                lemma_keep(
                    s1,
                    u1,
                    id,
                    left,
                    u1,
                    left.children[i],
                    hc,
                    child_lo(left, i, lo),
                    child_hi(left, i, Some(sep)),
                    limits,
                    false,
                );
            }
        }
        lemma_keep(s2, u1, new_id, right, u1, id, h, lo, Some(sep), limits, false);
        assert forall|k: i64| k < sep implies #[trigger] lookup(s3, id, h, k) == lookup_from(
            s,
            node,
            h,
            k,
        ) by {
            assert(lookup(s3, id, h, k) == lookup(s2, id, h, k));
            assert(lookup(s2, id, h, k) == lookup_from(s1, left, h, k));
            assert(lookup_from(s1, left, h, k) == lookup_from(s1, node, h, k));
            assert(lookup_from(s1, node, h, k) == lookup_from(s, node, h, k));
        }
        assert forall|k: i64| k >= sep implies #[trigger] lookup(s3, new_id, h, k) == lookup_from(
            s,
            node,
            h,
            k,
        ) by {
            assert(lookup(s3, new_id, h, k) == lookup_from(s2, right, h, k));
            assert(lookup_from(s2, right, h, k) == lookup_from(s1, right, h, k));
            assert(lookup_from(s1, right, h, k) == lookup_from(s1, node, h, k));
            assert(lookup_from(s1, node, h, k) == lookup_from(s, node, h, k));
        }
        assert(first_leaf(s3, id, h) == first_leaf(s2, id, h));
        assert(first_leaf(s2, id, h) == first_leaf_from(s1, left, h));
        assert(first_leaf_from(s1, node, h) == first_leaf_from(s, node, h));
        assert(first_leaf(s3, new_id, h) == first_leaf_from(s2, right, h));
        assert(first_leaf_from(s2, right, h) == first_leaf_from(s1, right, h));
        assert forall|e: Option<PageId>| #[trigger] linked_from(s, node, h, e) implies linked(
            s3,
            id,
            h,
            Some(first_leaf(s3, new_id, h)),
        ) && linked(s3, new_id, h, e) by {
            let e1 = Some(first_leaf_from(s1, right, h));
            assert(linked_from(s1, node, h, e));
            assert(linked_from(s1, left, h, e1) && linked_from(s1, right, h, e));
            assert(linked(s2, id, h, e1) == linked_from(s1, left, h, e1));
            assert(linked_from(s2, right, h, e) == linked_from(s1, right, h, e));
            assert(linked(s3, new_id, h, e) == linked_from(s2, right, h, e));
            assert(linked(s3, id, h, e1) == linked(s2, id, h, e1));
        }
    }
}

/// What a search for `k` comes to after the entry `(key, rid)` was put in.
pub open spec fn after_insert(before: Option<RecordId>, key: i64, rid: RecordId, k: i64) -> Option<
    RecordId,
> {
    if k == key {
        Some(rid)
    } else {
        before
    }
}

/// An internal node of a B+ tree is the root of a B+ tree again after an
/// entry was put in below the child that a search for the key goes to, if
/// that child took the entry without a split.
pub proof fn lemma_internal_none(
    s0: Store,
    u0: Set<PageId>,
    s1: Store,
    u1: Set<PageId>,
    id: PageId,
    h: nat,
    lo: Option<i64>,
    hi: Option<i64>,
    limits: Limits,
    is_root: bool,
    key: i64,
    rid: RecordId,
)
    requires
        subtree_ok(s0, u0, id, h, lo, hi, limits, is_root),
        h > 0,
        limits.ok(),
        told_apart(limits, s0, id, h),
        ({
            let node = s0[id];
            let i = first_above(node.keys, key, 0);
            let c = node.children[i];
            let hc = (h - 1) as nat;
            &&& forall|x: PageId|
                u0.contains(x) && s0.contains_key(x) && #[trigger] absent(s0, c, hc, x)
                    ==> s1.contains_key(x) && s1[x] == s0[x] && u1.contains(x)
            &&& subtree_ok(
                s1,
                u1,
                c,
                hc,
                child_lo(node, i, lo),
                child_hi(node, i, hi),
                limits,
                false,
            )
            &&& forall|k: i64|
                #[trigger] lookup(s1, c, hc, k) == after_insert(lookup(s0, c, hc, k), key, rid, k)
        }),
    ensures
        subtree_ok(s1, u1, id, h, lo, hi, limits, is_root),
        forall|k: i64|
            #[trigger] lookup(s1, id, h, k) == after_insert(lookup(s0, id, h, k), key, rid, k),
{
    let node = s0[id];
    lemma_first_above(node.keys, key, 0);
    let i = first_above(node.keys, key, 0);
    let hc = (h - 1) as nat;
    lemma_after_child(s0, u0, s1, u1, id, h, lo, hi, limits, is_root, i);
    assert forall|j: int| 0 <= j <= node.keys.len() implies subtree_ok(
        s1,
        u1,
        #[trigger] node.children[j],
        hc,
        child_lo(node, j, lo),
        child_hi(node, j, hi),
        limits,
        false,
    ) by {}
    assert forall|k: i64|
        #[trigger] lookup(s1, id, h, k) == after_insert(lookup(s0, id, h, k), key, rid, k) by {
        lemma_first_above(node.keys, k, 0);
        let f = first_above(node.keys, k, 0);
        if f != i {
            assert(lookup(s1, node.children[f], hc, k) == lookup(s0, node.children[f], hc, k));
        }
    }
}

/// An internal node of a B+ tree is ready to be written again after the
/// child that a search for the key goes to was split in two and the key
/// between the two was put into the node.
pub proof fn lemma_internal_some(
    s0: Store,
    u0: Set<PageId>,
    s1: Store,
    u1: Set<PageId>,
    id: PageId,
    h: nat,
    lo: Option<i64>,
    hi: Option<i64>,
    limits: Limits,
    is_root: bool,
    key: i64,
    rid: RecordId,
    sep: i64,
    sib: PageId,
    node2: IndexPageView,
)
    requires
        subtree_ok(s0, u0, id, h, lo, hi, limits, is_root),
        h > 0,
        limits.ok(),
        told_apart(limits, s0, id, h),
        ({
            let node = s0[id];
            let i = first_above(node.keys, key, 0);
            let c = node.children[i];
            let hc = (h - 1) as nat;
            &&& forall|x: PageId|
                u0.contains(x) && s0.contains_key(x) && #[trigger] absent(s0, c, hc, x)
                    ==> s1.contains_key(x) && s1[x] == s0[x] && u1.contains(x)
            &&& in_range(sep, child_lo(node, i, lo), child_hi(node, i, hi))
            &&& child_lo(node, i, lo) is Some ==> child_lo(node, i, lo).unwrap() < sep
            &&& subtree_ok(s1, u1, c, hc, child_lo(node, i, lo), Some(sep), limits, false)
            &&& subtree_ok(s1, u1, sib, hc, Some(sep), child_hi(node, i, hi), limits, false)
            &&& forall|k: i64|
                k < sep ==> #[trigger] lookup(s1, c, hc, k) == after_insert(
                    lookup(s0, c, hc, k),
                    key,
                    rid,
                    k,
                )
            &&& forall|k: i64|
                k >= sep ==> #[trigger] lookup(s1, sib, hc, k) == after_insert(
                    lookup(s0, c, hc, k),
                    key,
                    rid,
                    k,
                )
            &&& node2 == (IndexPageView {
                keys: node.keys.insert(i, sep),
                children: node.children.insert(i + 1, sib),
                ..node
            })
        }),
    ensures
        ready(s1, u1, node2, id, h, lo, hi, limits, is_root),
        forall|k: i64|
            #[trigger] lookup_from(s1, node2, h, k) == after_insert(
                lookup(s0, id, h, k),
                key,
                rid,
                k,
            ),
{
    let node = s0[id];
    lemma_first_above(node.keys, key, 0);
    let i = first_above(node.keys, key, 0);
    let c = node.children[i];
    let hc = (h - 1) as nat;
    let clo = child_lo(node, i, lo);
    let chi = child_hi(node, i, hi);
    lemma_after_child(s0, u0, s1, u1, id, h, lo, hi, limits, is_root, i);
    lemma_route_after_insert(node.keys, i, sep, key);
    lemma_children_after_insert(s1, u1, node, node2, h, lo, hi, limits, i, sep, sib);
    // the node as it was is a B+ tree in the new store too, over its old range
    lemma_widen(s1, u1, c, hc, clo, Some(sep), clo, chi, limits, false);
    assert forall|j: int| 0 <= j <= node.keys.len() implies subtree_ok(
        s1,
        u1,
        #[trigger] node.children[j],
        hc,
        child_lo(node, j, lo),
        child_hi(node, j, hi),
        limits,
        false,
    ) by {}
    assert(subtree_ok(s1, u1, id, h, lo, hi, limits, is_root));
    assert forall|m: int| 0 <= m <= node2.keys.len() implies absent(
        s1,
        #[trigger] node2.children[m],
        hc,
        id,
    ) by {
        lemma_absent_by_height(
            s1,
            u1,
            node2.children[m],
            hc,
            child_lo(node2, m, lo),
            child_hi(node2, m, hi),
            false,
            id,
            h,
            lo,
            hi,
            is_root,
            limits,
        );
    }
    assert forall|m: int| 0 <= m < node2.keys.len() implies in_range(
        #[trigger] node2.keys[m],
        lo,
        hi,
    ) by {
        if m < i {
            assert(in_range(node.keys[m], lo, hi));
        } else if m > i {
            assert(in_range(node.keys[m - 1], lo, hi));
        } else {
            if i > 0 {
                assert(in_range(node.keys[i - 1], lo, hi));
            }
            if i < node.keys.len() {
                assert(in_range(node.keys[i], lo, hi));
            }
        }
    }
    assert forall|k: i64|
        #[trigger] lookup_from(s1, node2, h, k) == after_insert(
            lookup(s0, id, h, k),
            key,
            rid,
            k,
        ) by {
        lemma_route_after_insert(node.keys, i, sep, k);
        lemma_first_above(node.keys, k, 0);
        let f = first_above(node.keys, k, 0);
        if f < i {
            assert(node2.children[f] == node.children[f]);
            assert(lookup(s1, node.children[f], hc, k) == lookup(s0, node.children[f], hc, k));
        } else if f > i {
            assert(node2.children[f + 1] == node.children[f]);
            assert(lookup(s1, node.children[f], hc, k) == lookup(s0, node.children[f], hc, k));
        } else {
            assert(node2.children[i] == node.children[i]);
            assert(node2.children[i + 1] == sib);
        }
    }
}

/// A leaf of a B+ tree is ready to be written again after an entry with a
/// key of its range was put into it.
pub proof fn lemma_leaf_ready(
    s: Store,
    u: Set<PageId>,
    id: PageId,
    lo: Option<i64>,
    hi: Option<i64>,
    limits: Limits,
    is_root: bool,
    key: i64,
    rid: RecordId,
    w: IndexPageView,
)
    requires
        subtree_ok(s, u, id, 0, lo, hi, limits, is_root),
        limits.ok(),
        in_range(key, lo, hi),
        w.wf(),
        w == ({
            let v = s[id];
            let pos = crate::storage::page::index_page::rank(v.keys, key);
            if v.keys.contains(key) {
                IndexPageView { rids: v.rids.update(pos, rid), ..v }
            } else {
                IndexPageView {
                    keys: v.keys.insert(pos, key),
                    rids: v.rids.insert(pos, rid),
                    ..v
                }
            }
        }),
    ensures
        ready(s, u, w, id, 0, lo, hi, limits, is_root),
        forall|k: i64|
            #[trigger] lookup_from(s, w, 0, k) == after_insert(lookup(s, id, 0, k), key, rid, k),
{
    let v = s[id];
    let pos = crate::storage::page::index_page::rank(v.keys, key);
    crate::storage::page::index_page::lemma_rank(v.keys, key);
    assert forall|k: i64|
        #[trigger] lookup_from(s, w, 0, k) == after_insert(lookup(s, id, 0, k), key, rid, k) by {
        lemma_leaf_insert(v, w, key, rid, k);
    }
    assert forall|i: int| 0 <= i < w.keys.len() implies in_range(#[trigger] w.keys[i], lo, hi) by {
        if !v.keys.contains(key) {
            if i < pos {
                assert(in_range(v.keys[i], lo, hi));
            } else if i > pos {
                assert(in_range(v.keys[i - 1], lo, hi));
            }
        } else {
            assert(in_range(v.keys[i], lo, hi));
        }
    }
}

} // verus!
