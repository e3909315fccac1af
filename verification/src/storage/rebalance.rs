use crate::storage::leaf_chain::{node_installed, others_kept};
use crate::storage::page::index_page::{
    ascending, first_above, first_equal, lemma_first_above, lemma_first_equal, lemma_rank, rank,
    IndexPageView, IndexType, RecordId,
};
use crate::storage::tree_model::{
    absent, child_hi, child_lo, children_ok, exit_of, first_leaf, first_leaf_from, in_range,
    leaf_get, lemma_absent_by_height, lemma_after_child, lemma_agree, lemma_children_keep,
    lemma_first_above_is, lemma_first_equal_is, lemma_install, lemma_keep, lemma_member, linked,
    linked_from, lookup, lookup_from, ready, subtree_ok, told_apart, Limits, Store,
};
use crate::types::PageId;
use vstd::prelude::*;

verus! {

/// What a search for `k` comes to after the entry of `key` was taken out.
pub open spec fn after_delete(before: Option<RecordId>, key: i64, k: i64) -> Option<RecordId> {
    if k == key {
        None
    } else {
        before
    }
}

/// The page `x` has `d` levels below it, counted along its first children.
pub open spec fn depth(s: Store, x: PageId, d: nat) -> bool
    decreases d,
{
    if d == 0 {
        s[x].page_type == IndexType::Leaf
    } else {
        &&& s[x].page_type == IndexType::Internal
        &&& s[x].children.len() >= 1
        &&& depth(s, s[x].children[0], (d - 1) as nat)
    }
}

/// The root of a B+ tree of height `h` has `h` levels below it.
pub proof fn lemma_depth_of_subtree(
    s: Store,
    u: Set<PageId>,
    id: PageId,
    h: nat,
    lo: Option<i64>,
    hi: Option<i64>,
    limits: Limits,
    is_root: bool,
)
    requires
        subtree_ok(s, u, id, h, lo, hi, limits, is_root),
    ensures
        depth(s, id, h),
    decreases h,
{
    if h > 0 {
        let node = s[id];
        assert(subtree_ok(
            s,
            u,
            node.children[0],
            (h - 1) as nat,
            child_lo(node, 0, lo),
            child_hi(node, 0, hi),
            limits,
            false,
        ));
        lemma_depth_of_subtree(
            s,
            u,
            node.children[0],
            (h - 1) as nat,
            child_lo(node, 0, lo),
            child_hi(node, 0, hi),
            limits,
            false,
        );
    }
}

/// A page has one number of levels below it only.
pub proof fn lemma_depth_unique(s: Store, x: PageId, d1: nat, d2: nat)
    requires
        depth(s, x, d1),
        depth(s, x, d2),
    ensures
        d1 == d2,
    decreases d1,
{
    if d1 > 0 && d2 > 0 {
        lemma_depth_unique(s, s[x].children[0], (d1 - 1) as nat, (d2 - 1) as nat);
    }
}

/// A page with more levels below it than a B+ tree is high is none of the
/// nodes of the tree.
pub proof fn lemma_absent_by_depth(
    s: Store,
    u: Set<PageId>,
    id: PageId,
    h: nat,
    lo: Option<i64>,
    hi: Option<i64>,
    limits: Limits,
    is_root: bool,
    x: PageId,
    hx: nat,
)
    requires
        subtree_ok(s, u, id, h, lo, hi, limits, is_root),
        depth(s, x, hx),
        hx > h,
    ensures
        absent(s, id, h, x),
    decreases h,
{
    if x == id {
        lemma_depth_of_subtree(s, u, id, h, lo, hi, limits, is_root);
        lemma_depth_unique(s, x, h, hx);
    }
    if h > 0 {
        let node = s[id];
        assert forall|i: int| 0 <= i < node.children.len() implies absent(
            s,
            #[trigger] node.children[i],
            (h - 1) as nat,
            x,
        ) by {
            lemma_absent_by_depth(
                s,
                u,
                node.children[i],
                (h - 1) as nat,
                child_lo(node, i, lo),
                child_hi(node, i, hi),
                limits,
                false,
                x,
                hx,
            );
        }
    }
}

/// A page with a key outside the range of a B+ tree is none of the nodes of
/// the tree.
pub proof fn lemma_absent_by_key(
    s: Store,
    u: Set<PageId>,
    id: PageId,
    h: nat,
    lo: Option<i64>,
    hi: Option<i64>,
    limits: Limits,
    is_root: bool,
    x: PageId,
    j: int,
)
    requires
        subtree_ok(s, u, id, h, lo, hi, limits, is_root),
        limits.ok(),
        0 <= j < s[x].keys.len(),
        !in_range(s[x].keys[j], lo, hi),
    ensures
        absent(s, id, h, x),
{
    if !absent(s, id, h, x) {
        lemma_member(s, u, id, h, lo, hi, limits, is_root, x);
        assert(in_range(s[x].keys[j], lo, hi));
    }
}

/// The node `node` can take the place of the page `id` as the root of a B+
/// tree of height `h` over the range, but that it may hold fewer keys than
/// its minimum, an internal node even none.
pub open spec fn loose(
    s: Store,
    u: Set<PageId>,
    node: IndexPageView,
    id: PageId,
    h: nat,
    lo: Option<i64>,
    hi: Option<i64>,
    limits: Limits,
) -> bool {
    &&& s.contains_key(id)
    &&& u.contains(id)
    &&& node.id == id
    &&& node.wf()
    &&& forall|i: int| 0 <= i < node.keys.len() ==> in_range(#[trigger] node.keys[i], lo, hi)
    &&& if h == 0 {
        &&& node.page_type == IndexType::Leaf
        &&& node.children.len() == 0
        &&& node.keys.len() <= limits.leaf_max
    } else {
        &&& node.page_type == IndexType::Internal
        &&& node.rids.len() == 0
        &&& node.next is None
        &&& node.keys.len() <= limits.internal_max
        &&& children_ok(s, u, node, h, lo, hi, limits)
        &&& forall|i: int|
            0 <= i <= node.keys.len() ==> absent(s, #[trigger] node.children[i], (h - 1) as nat, id)
    }
}

/// The least number of keys of a node at height `h` that is not the root.
pub open spec fn min_keys(limits: Limits, h: nat) -> int {
    if h == 0 {
        limits.leaf_min
    } else {
        limits.internal_min
    }
}

/// The greatest number of keys of a node at height `h`.
pub open spec fn max_keys(limits: Limits, h: nat) -> int {
    if h == 0 {
        limits.leaf_max
    } else {
        limits.internal_max
    }
}

/// A loose node with keys enough is ready to be written.
pub proof fn lemma_loose_ready(
    s: Store,
    u: Set<PageId>,
    node: IndexPageView,
    id: PageId,
    h: nat,
    lo: Option<i64>,
    hi: Option<i64>,
    limits: Limits,
    is_root: bool,
)
    requires
        loose(s, u, node, id, h, lo, hi, limits),
        h > 0 ==> node.keys.len() >= 1,
        is_root || node.keys.len() >= min_keys(limits, h),
    ensures
        ready(s, u, node, id, h, lo, hi, limits, is_root),
        node.keys.len() <= max_keys(limits, h),
{
}

/// The root of a B+ tree, as the store holds it, is a loose node; a search
/// goes on from it as from its page.
pub proof fn lemma_loose_of_subtree(
    s: Store,
    u: Set<PageId>,
    id: PageId,
    h: nat,
    lo: Option<i64>,
    hi: Option<i64>,
    limits: Limits,
    is_root: bool,
)
    requires
        subtree_ok(s, u, id, h, lo, hi, limits, is_root),
    ensures
        loose(s, u, s[id], id, h, lo, hi, limits),
        forall|k: i64| #[trigger] lookup_from(s, s[id], h, k) == lookup(s, id, h, k),
        h > 0 ==> s[id].keys.len() >= 1,
        is_root || s[id].keys.len() >= min_keys(limits, h),
{
    let node = s[id];
    if h > 0 {
        assert forall|i: int| 0 <= i <= node.keys.len() implies absent(
            s,
            #[trigger] node.children[i],
            (h - 1) as nat,
            id,
        ) by {
            lemma_absent_by_height(
                s,
                u,
                node.children[i],
                (h - 1) as nat,
                child_lo(node, i, lo),
                child_hi(node, i, hi),
                false,
                id,
                h,
                lo,
                hi,
                is_root,
                limits,
            );
        }
    }
}

/// What a leaf holds after the entry of a key was taken out of it: nothing
/// for the key, and for every other key what it held before.
pub proof fn lemma_leaf_remove(v: IndexPageView, w: IndexPageView, key: i64, k: i64)
    requires
        v.wf(),
        v.page_type == IndexType::Leaf,
        v.keys.contains(key),
        w == (IndexPageView {
            keys: v.keys.remove(rank(v.keys, key)),
            rids: v.rids.remove(rank(v.keys, key)),
            ..v
        }),
    ensures
        w.wf(),
        leaf_get(w, k) == after_delete(leaf_get(v, k), key, k),
        leaf_get(v, key) is Some,
{
    let pos = rank(v.keys, key);
    lemma_rank(v.keys, key);
    assert forall|a: int, b: int| 0 <= a < b < w.keys.len() implies w.keys[a] < w.keys[b] by {
        let a0 = if a < pos {
            a
        } else {
            a + 1
        };
        let b0 = if b < pos {
            b
        } else {
            b + 1
        };
        assert(v.keys[a0] < v.keys[b0]);
    }
    lemma_first_equal_is(v.keys, k);
    lemma_first_equal_is(w.keys, k);
    lemma_first_equal_is(v.keys, key);
    lemma_first_equal(v.keys, k, 0);
    lemma_first_equal(w.keys, k, 0);
    assert(v.keys[pos] == key);
    if k == key {
        if w.keys.contains(k) {
            let j = choose|j: int| 0 <= j < w.keys.len() && w.keys[j] == k;
            let j0 = if j < pos {
                j
            } else {
                j + 1
            };
            assert(v.keys[j0] == k);
            if j0 < pos {
                assert(v.keys[j0] < v.keys[pos]);
            } else {
                assert(v.keys[pos] < v.keys[j0]);
            }
        }
    } else {
        match first_equal(v.keys, k, 0) {
            Some(j0) => {
                let j = if j0 < pos {
                    j0
                } else {
                    j0 - 1
                };
                assert(w.keys[j] == k);
                assert(w.rids[j] == v.rids[j0]);
            },
            None => {
                if w.keys.contains(k) {
                    let j = choose|j: int| 0 <= j < w.keys.len() && w.keys[j] == k;
                    let j0 = if j < pos {
                        j
                    } else {
                        j + 1
                    };
                    assert(v.keys[j0] == k);
                }
            },
        }
    }
}

/// The first key of a loose internal node lies above the lower bound of its
/// range: its first child has a key, and that key is in between.
pub proof fn lemma_first_key_above(
    s: Store,
    u: Set<PageId>,
    node: IndexPageView,
    h: nat,
    lo: Option<i64>,
    hi: Option<i64>,
    limits: Limits,
)
    requires
        h > 0,
        limits.ok(),
        limits.leaf_min >= 1,
        children_ok(s, u, node, h, lo, hi, limits),
        node.keys.len() >= 1,
        lo is Some,
    ensures
        lo.unwrap() < node.keys[0],
{
    let c = node.children[0];
    assert(subtree_ok(
        s,
        u,
        c,
        (h - 1) as nat,
        child_lo(node, 0, lo),
        child_hi(node, 0, hi),
        limits,
        false,
    ));
    assert(s[c].keys.len() >= 1);
    assert(in_range(s[c].keys[0], lo, Some(node.keys[0])));
}

/// The record id that a search for `k` comes to from two loose nodes side
/// by side, separated by `sep`.
pub open spec fn pair_lookup(
    s: Store,
    left: IndexPageView,
    right: IndexPageView,
    sep: i64,
    h: nat,
    k: i64,
) -> Option<RecordId> {
    if k < sep {
        lookup_from(s, left, h, k)
    } else {
        lookup_from(s, right, h, k)
    }
}

/// Two loose nodes side by side are loose nodes again after the right one
/// took an entry from the left one; a search comes to what it came to
/// before.
pub proof fn lemma_borrow_from_left(
    s: Store,
    u: Set<PageId>,
    left: IndexPageView,
    right: IndexPageView,
    sep: i64,
    h: nat,
    lo: Option<i64>,
    hi: Option<i64>,
    limits: Limits,
)
    requires
        limits.ok(),
        limits.leaf_min >= 1,
        loose(s, u, left, left.id, h, lo, Some(sep), limits),
        loose(s, u, right, right.id, h, Some(sep), hi, limits),
        in_range(sep, lo, hi),
        left.keys.len() >= 2,
        right.keys.len() < max_keys(limits, h),
        h > 0 ==> absent(s, left.children[left.keys.len() as int], (h - 1) as nat, right.id),
    ensures
        ({
            let sep2 = left.keys.last();
            let left2 = left.lent(true);
            let right2 = right.borrowed(left, sep, true);
            &&& right.separator_after(left, true) == Some(sep2)
            &&& in_range(sep2, lo, Some(sep))
            &&& lo is Some ==> lo.unwrap() < sep2
            &&& loose(s, u, left2, left.id, h, lo, Some(sep2), limits)
            &&& loose(s, u, right2, right.id, h, Some(sep2), hi, limits)
            &&& left2.keys.len() == left.keys.len() - 1
            &&& right2.keys.len() == right.keys.len() + 1
            &&& forall|k: i64|
                #[trigger] pair_lookup(s, left2, right2, sep2, h, k) == pair_lookup(
                    s,
                    left,
                    right,
                    sep,
                    h,
                    k,
                )
        }),
{
    let n = left.keys.len() as int;
    let sep2 = left.keys.last();
    let left2 = left.lent(true);
    let right2 = right.borrowed(left, sep, true);
    assert(in_range(left.keys[n - 1], lo, Some(sep)));
    assert(in_range(left.keys[0], lo, Some(sep)));
    assert(left.keys[0] < left.keys[n - 1]);
    assert forall|a: int, b: int| 0 <= a < b < left2.keys.len() implies left2.keys[a]
        < left2.keys[b] by {
        assert(left.keys[a] < left.keys[b]);
    }
    assert forall|i: int| 0 <= i < left2.keys.len() implies in_range(
        #[trigger] left2.keys[i],
        lo,
        Some(sep2),
    ) by {
        assert(in_range(left.keys[i], lo, Some(sep)));
        assert(left.keys[i] < left.keys[n - 1]);
    }
    if h > 0 && right.keys.len() > 0 {
        lemma_first_key_above(s, u, right, h, Some(sep), hi, limits);
    }
    assert forall|a: int, b: int| 0 <= a < b < right2.keys.len() implies right2.keys[a]
        < right2.keys[b] by {
        if a == 0 {
            assert(right2.keys[b] == right.keys[b - 1]);
            assert(in_range(right.keys[b - 1], Some(sep), hi));
            if b - 1 > 0 {
                assert(right.keys[0] < right.keys[b - 1]);
            }
        } else {
            assert(right.keys[a - 1] < right.keys[b - 1]);
        }
    }
    assert forall|i: int| 0 <= i < right2.keys.len() implies in_range(
        #[trigger] right2.keys[i],
        Some(sep2),
        hi,
    ) by {
        if i > 0 {
            assert(right2.keys[i] == right.keys[i - 1]);
            assert(in_range(right.keys[i - 1], Some(sep), hi));
        }
    }
    if h == 0 {
        assert forall|k: i64|
            #[trigger] pair_lookup(s, left2, right2, sep2, h, k) == pair_lookup(
                s,
                left,
                right,
                sep,
                h,
                k,
            ) by {
            lemma_first_equal_is(left.keys, k);
            lemma_first_equal_is(left2.keys, k);
            lemma_first_equal_is(right.keys, k);
            lemma_first_equal_is(right2.keys, k);
            lemma_first_equal(left.keys, k, 0);
            lemma_first_equal(left2.keys, k, 0);
            lemma_first_equal(right.keys, k, 0);
            lemma_first_equal(right2.keys, k, 0);
            if k < sep2 {
                match first_equal(left.keys, k, 0) {
                    Some(j) => {
                        assert(j < n - 1);
                        assert(left2.keys[j] == k);
                    },
                    None => {
                        if left2.keys.contains(k) {
                            let j = choose|j: int| 0 <= j < left2.keys.len() && left2.keys[j] == k;
                            assert(left.keys[j] == k);
                        }
                    },
                }
            } else if k < sep {
                if k == sep2 {
                    assert(right2.keys[0] == k);
                    assert(left.keys[n - 1] == k);
                } else {
                    if left.keys.contains(k) {
                        let j = choose|j: int| 0 <= j < left.keys.len() && left.keys[j] == k;
                        if j < n - 1 {
                            assert(left.keys[j] < left.keys[n - 1]);
                        }
                    }
                    if right2.keys.contains(k) {
                        let j = choose|j: int| 0 <= j < right2.keys.len() && right2.keys[j] == k;
                        assert(j > 0);
                        assert(in_range(right.keys[j - 1], Some(sep), hi));
                    }
                }
            } else {
                match first_equal(right.keys, k, 0) {
                    Some(j) => {
                        assert(right2.keys[j + 1] == k);
                        assert(right2.rids[j + 1] == right.rids[j]);
                    },
                    None => {
                        if right2.keys.contains(k) {
                            let j = choose|j: int|
                                0 <= j < right2.keys.len() && right2.keys[j] == k;
                            assert(j > 0);
                            assert(right.keys[j - 1] == k);
                        }
                    },
                }
            }
        }
    } else {
        let hc = (h - 1) as nat;
        assert forall|m: int| 0 <= m <= left2.keys.len() implies subtree_ok(
            s,
            u,
            #[trigger] left2.children[m],
            hc,
            child_lo(left2, m, lo),
            child_hi(left2, m, Some(sep2)),
            limits,
            false,
        ) && absent(s, left2.children[m], hc, left.id) by {
            assert(left2.children[m] == left.children[m]);
            assert(child_lo(left2, m, lo) == child_lo(left, m, lo));
            assert(child_hi(left2, m, Some(sep2)) == child_hi(left, m, Some(sep)));
        }
        assert forall|m: int| 0 <= m <= right2.keys.len() implies subtree_ok(
            s,
            u,
            #[trigger] right2.children[m],
            hc,
            child_lo(right2, m, Some(sep2)),
            child_hi(right2, m, hi),
            limits,
            false,
        ) && absent(s, right2.children[m], hc, right.id) by {
            if m == 0 {
                assert(right2.children[0] == left.children[n]);
                assert(child_lo(right2, 0, Some(sep2)) == child_lo(left, n, lo));
                assert(child_hi(right2, 0, hi) == child_hi(left, n, Some(sep)));
            } else {
                assert(right2.children[m] == right.children[m - 1]);
                assert(child_lo(right2, m, Some(sep2)) == child_lo(right, m - 1, Some(sep)));
                assert(child_hi(right2, m, hi) == child_hi(right, m - 1, hi));
            }
        }
        assert forall|k: i64|
            #[trigger] pair_lookup(s, left2, right2, sep2, h, k) == pair_lookup(
                s,
                left,
                right,
                sep,
                h,
                k,
            ) by {
            lemma_first_above(left.keys, k, 0);
            lemma_first_above(right.keys, k, 0);
            if k < sep2 {
                let f = first_above(left.keys, k, 0);
                if f == n {
                    assert(left.keys[n - 1] <= k);
                }
                assert forall|j: int| 0 <= j < f implies #[trigger] left2.keys[j] <= k by {
                    assert(left.keys[j] <= k);
                }
                lemma_first_above_is(left2.keys, k, f);
                assert(left2.children[f] == left.children[f]);
            } else if k < sep {
                assert forall|j: int| 0 <= j < n implies #[trigger] left.keys[j] <= k by {
                    if j < n - 1 {
                        assert(left.keys[j] < left.keys[n - 1]);
                    }
                }
                lemma_first_above_is(left.keys, k, n);
                lemma_first_above_is(right2.keys, k, 0);
            } else {
                let f = first_above(right.keys, k, 0);
                assert forall|j: int| 0 <= j < f + 1 implies #[trigger] right2.keys[j] <= k by {
                    if j > 0 {
                        assert(right.keys[j - 1] <= k);
                    }
                }
                lemma_first_above_is(right2.keys, k, f + 1);
                assert(right2.children[f + 1] == right.children[f]);
            }
        }
    }
}

/// Two loose nodes side by side are loose nodes again after the left one
/// took an entry from the right one; a search comes to what it came to
/// before.
pub proof fn lemma_borrow_from_right(
    s: Store,
    u: Set<PageId>,
    left: IndexPageView,
    right: IndexPageView,
    sep: i64,
    h: nat,
    lo: Option<i64>,
    hi: Option<i64>,
    limits: Limits,
    sep2: i64,
)
    requires
        limits.ok(),
        limits.leaf_min >= 1,
        right.keys.len() >= 2,
        sep2 == (if h == 0 {
            right.keys[1]
        } else {
            right.keys[0]
        }),
        loose(s, u, left, left.id, h, lo, Some(sep), limits),
        loose(s, u, right, right.id, h, Some(sep), hi, limits),
        in_range(sep, lo, hi),
        right.keys.len() >= 2,
        left.keys.len() < max_keys(limits, h),
        h > 0 ==> absent(s, right.children[0], (h - 1) as nat, left.id),
    ensures
        ({
            let left2 = left.borrowed(right, sep, false);
            let right2 = right.lent(false);
            &&& left.separator_after(right, false) == Some(sep2)
            &&& in_range(sep2, Some(sep), hi)
            &&& sep <= sep2
            &&& loose(s, u, left2, left.id, h, lo, Some(sep2), limits)
            &&& loose(s, u, right2, right.id, h, Some(sep2), hi, limits)
            &&& left2.keys.len() == left.keys.len() + 1
            &&& right2.keys.len() == right.keys.len() - 1
            &&& forall|k: i64|
                #[trigger] pair_lookup(s, left2, right2, sep2, h, k) == pair_lookup(
                    s,
                    left,
                    right,
                    sep,
                    h,
                    k,
                )
        }),
{
    let n = left.keys.len() as int;
    let left2 = left.borrowed(right, sep, false);
    let right2 = right.lent(false);
    assert(in_range(right.keys[0], Some(sep), hi));
    assert(in_range(right.keys[1], Some(sep), hi));
    assert(right.keys[0] < right.keys[1]);
    if h > 0 {
        lemma_first_key_above(s, u, right, h, Some(sep), hi, limits);
    }
    assert forall|a: int, b: int| 0 <= a < b < right2.keys.len() implies right2.keys[a]
        < right2.keys[b] by {
        assert(right.keys[a + 1] < right.keys[b + 1]);
    }
    assert forall|i: int| 0 <= i < right2.keys.len() implies in_range(
        #[trigger] right2.keys[i],
        Some(sep2),
        hi,
    ) by {
        assert(right2.keys[i] == right.keys[i + 1]);
        assert(in_range(right.keys[i + 1], Some(sep), hi));
        if i + 1 > 1 {
            assert(right.keys[1] < right.keys[i + 1]);
        }
        assert(right.keys[0] < right.keys[i + 1]);
    }
    assert forall|a: int, b: int| 0 <= a < b < left2.keys.len() implies left2.keys[a]
        < left2.keys[b] by {
        if b == n {
            assert(in_range(left.keys[a], lo, Some(sep)));
        } else {
            assert(left.keys[a] < left.keys[b]);
        }
    }
    assert forall|i: int| 0 <= i < left2.keys.len() implies in_range(
        #[trigger] left2.keys[i],
        lo,
        Some(sep2),
    ) by {
        if i < n {
            assert(left2.keys[i] == left.keys[i]);
            assert(in_range(left.keys[i], lo, Some(sep)));
        }
    }
    if h == 0 {
        assert forall|k: i64|
            #[trigger] pair_lookup(s, left2, right2, sep2, h, k) == pair_lookup(
                s,
                left,
                right,
                sep,
                h,
                k,
            ) by {
            lemma_first_equal_is(left.keys, k);
            lemma_first_equal_is(left2.keys, k);
            lemma_first_equal_is(right.keys, k);
            lemma_first_equal_is(right2.keys, k);
            lemma_first_equal(left.keys, k, 0);
            lemma_first_equal(left2.keys, k, 0);
            lemma_first_equal(right.keys, k, 0);
            lemma_first_equal(right2.keys, k, 0);
            if k < sep {
                match first_equal(left.keys, k, 0) {
                    Some(j) => {
                        assert(left2.keys[j] == k);
                        assert(left2.rids[j] == left.rids[j]);
                    },
                    None => {
                        if left2.keys.contains(k) {
                            let j = choose|j: int| 0 <= j < left2.keys.len() && left2.keys[j] == k;
                            if j < n {
                                assert(left.keys[j] == k);
                            }
                        }
                    },
                }
            } else if k < sep2 {
                if k == right.keys[0] {
                    assert(left2.keys[n] == k);
                    assert(left2.rids[n] == right.rids[0]);
                } else {
                    if right.keys.contains(k) {
                        let j = choose|j: int| 0 <= j < right.keys.len() && right.keys[j] == k;
                        if j > 1 {
                            assert(right.keys[1] < right.keys[j]);
                        }
                    }
                    if left2.keys.contains(k) {
                        let j = choose|j: int| 0 <= j < left2.keys.len() && left2.keys[j] == k;
                        if j < n {
                            assert(in_range(left.keys[j], lo, Some(sep)));
                        }
                    }
                }
            } else {
                match first_equal(right.keys, k, 0) {
                    Some(j) => {
                        if j == 0 {
                            assert(right.keys[0] < right.keys[1]);
                        }
                        assert(right2.keys[j - 1] == k);
                        assert(right2.rids[j - 1] == right.rids[j]);
                    },
                    None => {
                        if right2.keys.contains(k) {
                            let j = choose|j: int|
                                0 <= j < right2.keys.len() && right2.keys[j] == k;
                            assert(right.keys[j + 1] == k);
                        }
                    },
                }
            }
        }
    } else {
        let hc = (h - 1) as nat;
        assert forall|m: int| 0 <= m <= right2.keys.len() implies subtree_ok(
            s,
            u,
            #[trigger] right2.children[m],
            hc,
            child_lo(right2, m, Some(sep2)),
            child_hi(right2, m, hi),
            limits,
            false,
        ) && absent(s, right2.children[m], hc, right.id) by {
            assert(right2.children[m] == right.children[m + 1]);
            assert(child_lo(right2, m, Some(sep2)) == child_lo(right, m + 1, Some(sep)));
            assert(child_hi(right2, m, hi) == child_hi(right, m + 1, hi));
        }
        assert forall|m: int| 0 <= m <= left2.keys.len() implies subtree_ok(
            s,
            u,
            #[trigger] left2.children[m],
            hc,
            child_lo(left2, m, lo),
            child_hi(left2, m, Some(sep2)),
            limits,
            false,
        ) && absent(s, left2.children[m], hc, left.id) by {
            if m == n + 1 {
                assert(left2.children[m] == right.children[0]);
                assert(child_lo(left2, m, lo) == child_lo(right, 0, Some(sep)));
                assert(child_hi(left2, m, Some(sep2)) == child_hi(right, 0, hi));
            } else {
                assert(left2.children[m] == left.children[m]);
                assert(child_lo(left2, m, lo) == child_lo(left, m, lo));
                assert(child_hi(left2, m, Some(sep2)) == child_hi(left, m, Some(sep)));
            }
        }
        assert forall|k: i64|
            #[trigger] pair_lookup(s, left2, right2, sep2, h, k) == pair_lookup(
                s,
                left,
                right,
                sep,
                h,
                k,
            ) by {
            lemma_first_above(left.keys, k, 0);
            lemma_first_above(right.keys, k, 0);
            if k < sep {
                let f = first_above(left.keys, k, 0);
                assert forall|j: int| 0 <= j < f implies #[trigger] left2.keys[j] <= k by {
                    assert(left.keys[j] <= k);
                }
                if f < n {
                    assert(left2.keys[f] == left.keys[f]);
                }
                lemma_first_above_is(left2.keys, k, f);
                assert(left2.children[f] == left.children[f]);
            } else if k < sep2 {
                assert forall|j: int| 0 <= j < n + 1 implies #[trigger] left2.keys[j] <= k by {
                    if j < n {
                        assert(in_range(left.keys[j], lo, Some(sep)));
                    }
                }
                lemma_first_above_is(left2.keys, k, n + 1);
                lemma_first_above_is(right.keys, k, 0);
            } else {
                let f = first_above(right.keys, k, 0);
                assert(f >= 1);
                assert forall|j: int| 0 <= j < f - 1 implies #[trigger] right2.keys[j] <= k by {
                    assert(right.keys[j + 1] <= k);
                }
                lemma_first_above_is(right2.keys, k, f - 1);
                assert(right2.children[f - 1] == right.children[f]);
            }
        }
    }
}

/// The node that two loose nodes side by side are merged into: the left one
/// with the entries of the right one added, between internal nodes with the
/// key that separated them in the middle.
pub open spec fn merged_node(left: IndexPageView, right: IndexPageView, sep: i64,
    h: nat) -> IndexPageView {
    if h == 0 {
        left.merged(right)
    } else {
        (IndexPageView { keys: left.keys.push(sep), ..left }).merged(right)
    }
}

/// Two loose nodes side by side make one loose node when they are merged,
/// if their keys fit one node; a search comes to what it came to before.
pub proof fn lemma_merge(
    s: Store,
    u: Set<PageId>,
    left: IndexPageView,
    right: IndexPageView,
    sep: i64,
    h: nat,
    lo: Option<i64>,
    hi: Option<i64>,
    limits: Limits,
)
    requires
        limits.ok(),
        limits.leaf_min >= 1,
        loose(s, u, left, left.id, h, lo, Some(sep), limits),
        loose(s, u, right, right.id, h, Some(sep), hi, limits),
        in_range(sep, lo, hi),
        h == 0 ==> left.keys.len() + right.keys.len() <= limits.leaf_max,
        h > 0 ==> left.keys.len() + right.keys.len() + 1 <= limits.internal_max,
        h > 0 ==> forall|m: int|
            0 <= m <= right.keys.len() ==> absent(
                s,
                #[trigger] right.children[m],
                (h - 1) as nat,
                left.id,
            ),
    ensures
        loose(s, u, merged_node(left, right, sep, h), left.id, h, lo, hi, limits),
        forall|k: i64|
            #[trigger] lookup_from(s, merged_node(left, right, sep, h), h, k) == pair_lookup(
                s,
                left,
                right,
                sep,
                h,
                k,
            ),
        h > 0 ==> merged_node(left, right, sep, h).keys.len() == left.keys.len()
            + right.keys.len() + 1,
        h == 0 ==> merged_node(left, right, sep, h).keys.len() == left.keys.len()
            + right.keys.len(),
{
    let n = left.keys.len() as int;
    let node = merged_node(left, right, sep, h);
    if h == 0 {
        assert forall|a: int, b: int| 0 <= a < b < node.keys.len() implies node.keys[a]
            < node.keys[b] by {
            if b < n {
                assert(left.keys[a] < left.keys[b]);
            } else if a >= n {
                assert(right.keys[a - n] < right.keys[b - n]);
            } else {
                assert(in_range(left.keys[a], lo, Some(sep)));
                assert(in_range(right.keys[b - n], Some(sep), hi));
            }
        }
        assert forall|i: int| 0 <= i < node.keys.len() implies in_range(
            #[trigger] node.keys[i],
            lo,
            hi,
        ) by {
            if i < n {
                assert(in_range(left.keys[i], lo, Some(sep)));
            } else {
                assert(in_range(right.keys[i - n], Some(sep), hi));
            }
        }
        assert forall|k: i64|
            #[trigger] lookup_from(s, node, h, k) == pair_lookup(s, left, right, sep, h, k) by {
            lemma_first_equal_is(left.keys, k);
            lemma_first_equal_is(right.keys, k);
            lemma_first_equal_is(node.keys, k);
            lemma_first_equal(left.keys, k, 0);
            lemma_first_equal(right.keys, k, 0);
            lemma_first_equal(node.keys, k, 0);
            if k < sep {
                match first_equal(left.keys, k, 0) {
                    Some(j) => {
                        assert(node.keys[j] == k);
                        assert(node.rids[j] == left.rids[j]);
                    },
                    None => {
                        if node.keys.contains(k) {
                            let j = choose|j: int| 0 <= j < node.keys.len() && node.keys[j] == k;
                            if j < n {
                                assert(left.keys[j] == k);
                            } else {
                                assert(in_range(right.keys[j - n], Some(sep), hi));
                            }
                        }
                    },
                }
            } else {
                match first_equal(right.keys, k, 0) {
                    Some(j) => {
                        assert(node.keys[j + n] == k);
                        assert(node.rids[j + n] == right.rids[j]);
                    },
                    None => {
                        if node.keys.contains(k) {
                            let j = choose|j: int| 0 <= j < node.keys.len() && node.keys[j] == k;
                            if j < n {
                                assert(in_range(left.keys[j], lo, Some(sep)));
                            } else {
                                assert(right.keys[j - n] == k);
                            }
                        }
                    },
                }
            }
        }
    } else {
        let hc = (h - 1) as nat;
        if right.keys.len() > 0 {
            lemma_first_key_above(s, u, right, h, Some(sep), hi, limits);
        }
        assert forall|a: int, b: int| 0 <= a < b < node.keys.len() implies node.keys[a]
            < node.keys[b] by {
            if a < n {
                assert(in_range(left.keys[a], lo, Some(sep)));
            }
            if b > n {
                assert(in_range(right.keys[b - n - 1], Some(sep), hi));
                if b - n - 1 > 0 {
                    assert(right.keys[0] < right.keys[b - n - 1]);
                }
            }
            if b < n {
                assert(left.keys[a] < left.keys[b]);
            } else if a > n {
                assert(right.keys[a - n - 1] < right.keys[b - n - 1]);
            }
        }
        assert forall|i: int| 0 <= i < node.keys.len() implies in_range(
            #[trigger] node.keys[i],
            lo,
            hi,
        ) by {
            if i < n {
                assert(in_range(left.keys[i], lo, Some(sep)));
            } else if i > n {
                assert(in_range(right.keys[i - n - 1], Some(sep), hi));
            }
        }
        assert forall|m: int| 0 <= m <= node.keys.len() implies subtree_ok(
            s,
            u,
            #[trigger] node.children[m],
            hc,
            child_lo(node, m, lo),
            child_hi(node, m, hi),
            limits,
            false,
        ) && absent(s, node.children[m], hc, left.id) by {
            if m <= n {
                assert(node.children[m] == left.children[m]);
                assert(child_lo(node, m, lo) == child_lo(left, m, lo));
                assert(child_hi(node, m, hi) == child_hi(left, m, Some(sep)));
            } else {
                let m0 = m - n - 1;
                assert(node.children[m] == right.children[m0]);
                assert(child_lo(node, m, lo) == child_lo(right, m0, Some(sep)));
                assert(child_hi(node, m, hi) == child_hi(right, m0, hi));
            }
        }
        assert forall|k: i64|
            #[trigger] lookup_from(s, node, h, k) == pair_lookup(s, left, right, sep, h, k) by {
            lemma_first_above(left.keys, k, 0);
            lemma_first_above(right.keys, k, 0);
            if k < sep {
                let f = first_above(left.keys, k, 0);
                assert forall|j: int| 0 <= j < f implies #[trigger] node.keys[j] <= k by {
                    assert(left.keys[j] <= k);
                }
                if f < n {
                    assert(node.keys[f] == left.keys[f]);
                } else {
                    assert(node.keys[n] == sep);
                }
                lemma_first_above_is(node.keys, k, f);
                assert(node.children[f] == left.children[f]);
            } else {
                let f = first_above(right.keys, k, 0);
                assert forall|j: int| 0 <= j < f + n + 1 implies #[trigger] node.keys[j] <= k by {
                    if j < n {
                        assert(in_range(left.keys[j], lo, Some(sep)));
                    } else if j > n {
                        assert(right.keys[j - n - 1] <= k);
                    }
                }
                if f < right.keys.len() {
                    assert(node.keys[f + n + 1] == right.keys[f]);
                }
                lemma_first_above_is(node.keys, k, f + n + 1);
                assert(node.children[f + n + 1] == right.children[f]);
            }
        }
    }
}

/// The record id that a search for `k` comes to from the internal node
/// `node` when the child `i` of the node is searched as the loose node
/// `child`.
pub open spec fn lookup_with(
    s: Store,
    node: IndexPageView,
    i: int,
    child: IndexPageView,
    h: nat,
    k: i64,
) -> Option<RecordId> {
    let f = first_above(node.keys, k, 0);
    if f == i {
        lookup_from(s, child, (h - 1) as nat, k)
    } else {
        lookup(s, node.children[f], (h - 1) as nat, k)
    }
}

/// What is known of an internal node when its child `i` came back from a
/// deletion below it with one key less than the minimum, not yet written:
/// the node is as its page holds it, the child is the loose node `child`,
/// and all other children are B+ trees. What the page of the child holds
/// has a key and the levels of a child below it.
pub open spec fn pending(
    s: Store,
    u: Set<PageId>,
    node: IndexPageView,
    id: PageId,
    h: nat,
    lo: Option<i64>,
    hi: Option<i64>,
    limits: Limits,
    i: int,
    child: IndexPageView,
) -> bool {
    let hc = (h - 1) as nat;
    &&& h > 0
    &&& s.contains_key(id)
    &&& s[id] == node
    &&& u.contains(id)
    &&& node.id == id
    &&& node.wf()
    &&& node.page_type == IndexType::Internal
    &&& node.rids.len() == 0
    &&& node.next is None
    &&& 1 <= node.keys.len() <= limits.internal_max
    &&& forall|j: int| 0 <= j < node.keys.len() ==> in_range(#[trigger] node.keys[j], lo, hi)
    &&& 0 <= i <= node.keys.len()
    &&& child.id == node.children[i]
    &&& loose(s, u, child, child.id, hc, child_lo(node, i, lo), child_hi(node, i, hi), limits)
    &&& child.keys.len() == min_keys(limits, hc) - 1
    &&& forall|m: int|
        0 <= m <= node.keys.len() && m != i ==> subtree_ok(
            s,
            u,
            #[trigger] node.children[m],
            hc,
            child_lo(node, m, lo),
            child_hi(node, m, hi),
            limits,
            false,
        )
    &&& s[child.id].keys.len() >= 1
    &&& in_range(s[child.id].keys[0], child_lo(node, i, lo), child_hi(node, i, hi))
    &&& depth(s, child.id, hc)
    &&& limits.leaf_min >= 1
}

/// A child that came back from a deletion and its left or right sibling,
/// as the store holds it, make the state before a rebalance.
pub proof fn lemma_pending_pair(
    s: Store,
    u: Set<PageId>,
    node: IndexPageView,
    id: PageId,
    h: nat,
    lo: Option<i64>,
    hi: Option<i64>,
    limits: Limits,
    i: int,
    child: IndexPageView,
    with_left: bool,
)
    requires
        limits.ok(),
        pending(s, u, node, id, h, lo, hi, limits, i, child),
        with_left ==> i > 0,
        !with_left ==> i < node.keys.len(),
    ensures
        with_left ==> pair_state(
            s,
            u,
            node,
            id,
            h,
            lo,
            hi,
            limits,
            i - 1,
            s[node.children[i - 1]],
            child,
        ) && s[node.children[i - 1]].keys.len() >= min_keys(limits, (h - 1) as nat) && (forall|
            k: i64,
        |
            #[trigger] lookup_around(s, node, i - 1, s[node.children[i - 1]], child, h, k)
                == lookup_with(s, node, i, child, h, k)),
        !with_left ==> pair_state(
            s,
            u,
            node,
            id,
            h,
            lo,
            hi,
            limits,
            i,
            child,
            s[node.children[i + 1]],
        ) && s[node.children[i + 1]].keys.len() >= min_keys(limits, (h - 1) as nat) && (forall|
            k: i64,
        |
            #[trigger] lookup_around(s, node, i, child, s[node.children[i + 1]], h, k)
                == lookup_with(s, node, i, child, h, k)),
{
    let hc = (h - 1) as nat;
    let j = if with_left {
        i - 1
    } else {
        i + 1
    };
    let sib = node.children[j];
    assert(subtree_ok(s, u, sib, hc, child_lo(node, j, lo), child_hi(node, j, hi), limits, false));
    lemma_loose_of_subtree(s, u, sib, hc, child_lo(node, j, lo), child_hi(node, j, hi), limits,
        false);
    lemma_depth_of_subtree(s, u, sib, hc, child_lo(node, j, lo), child_hi(node, j, hi), limits,
        false);
    assert(s[sib].keys.len() >= 1);
    assert(in_range(s[sib].keys[0], child_lo(node, j, lo), child_hi(node, j, hi)));
    if with_left {
        assert forall|k: i64|
            #[trigger] lookup_around(s, node, i - 1, s[sib], child, h, k) == lookup_with(
                s,
                node,
                i,
                child,
                h,
                k,
            ) by {
            assert(lookup_from(s, s[sib], hc, k) == lookup(s, sib, hc, k));
        }
    } else {
        assert forall|k: i64|
            #[trigger] lookup_around(s, node, i, child, s[sib], h, k) == lookup_with(
                s,
                node,
                i,
                child,
                h,
                k,
            ) by {
            assert(lookup_from(s, s[sib], hc, k) == lookup(s, sib, hc, k));
        }
    }
}

/// The record id that a search for `k` comes to from the internal node
/// `node` when the children `a` and `a + 1` of the node are searched as
/// the loose nodes `left` and `right`.
pub open spec fn lookup_around(
    s: Store,
    node: IndexPageView,
    a: int,
    left: IndexPageView,
    right: IndexPageView,
    h: nat,
    k: i64,
) -> Option<RecordId> {
    let f = first_above(node.keys, k, 0);
    if f == a {
        lookup_from(s, left, (h - 1) as nat, k)
    } else if f == a + 1 {
        lookup_from(s, right, (h - 1) as nat, k)
    } else {
        lookup(s, node.children[f], (h - 1) as nat, k)
    }
}

/// What is known of an internal node when two of its children side by side
/// are about to be rebalanced: the node is as its page holds it, the two
/// children are the loose nodes `left` and `right` over their ranges, and
/// all other children are B+ trees. What the pages of the two children
/// hold has a key each and the levels of a child below it.
pub open spec fn pair_state(
    s: Store,
    u: Set<PageId>,
    node: IndexPageView,
    id: PageId,
    h: nat,
    lo: Option<i64>,
    hi: Option<i64>,
    limits: Limits,
    a: int,
    left: IndexPageView,
    right: IndexPageView,
) -> bool {
    let hc = (h - 1) as nat;
    &&& h > 0
    &&& s.contains_key(id)
    &&& s[id] == node
    &&& u.contains(id)
    &&& node.id == id
    &&& node.wf()
    &&& node.page_type == IndexType::Internal
    &&& node.rids.len() == 0
    &&& node.next is None
    &&& 1 <= node.keys.len() <= limits.internal_max
    &&& forall|i: int| 0 <= i < node.keys.len() ==> in_range(#[trigger] node.keys[i], lo, hi)
    &&& 0 <= a < node.keys.len()
    &&& left.id == node.children[a]
    &&& right.id == node.children[a + 1]
    &&& loose(s, u, left, left.id, hc, child_lo(node, a, lo), Some(node.keys[a]), limits)
    &&& loose(s, u, right, right.id, hc, Some(node.keys[a]), child_hi(node, a + 1, hi), limits)
    &&& forall|m: int|
        0 <= m <= node.keys.len() && m != a && m != a + 1 ==> subtree_ok(
            s,
            u,
            #[trigger] node.children[m],
            hc,
            child_lo(node, m, lo),
            child_hi(node, m, hi),
            limits,
            false,
        )
    &&& s[left.id].keys.len() >= 1
    &&& in_range(s[left.id].keys[0], child_lo(node, a, lo), Some(node.keys[a]))
    &&& s[right.id].keys.len() >= 1
    &&& in_range(s[right.id].keys[0], Some(node.keys[a]), child_hi(node, a + 1, hi))
    &&& depth(s, left.id, hc)
    &&& depth(s, right.id, hc)
    &&& limits.leaf_min >= 1
}

/// The children of `node`, a node at height `h`, have no node `x`.
pub open spec fn kids_absent(s: Store, node: IndexPageView, h: nat, x: PageId) -> bool {
    h > 0 ==> forall|m: int|
        0 <= m <= node.keys.len() ==> absent(s, #[trigger] node.children[m], (h - 1) as nat, x)
}

/// An internal node whose children `a` and `a + 1` were rebalanced, with
/// the new key between the two in the place of the old one, has B+ trees
/// for children again; a search goes to the same children but between the
/// two, where the new key decides.
pub proof fn lemma_parent_borrow(
    s: Store,
    u: Set<PageId>,
    node: IndexPageView,
    h: nat,
    lo: Option<i64>,
    hi: Option<i64>,
    limits: Limits,
    a: int,
    sep2: i64,
)
    requires
        h > 0,
        node.wf(),
        node.page_type == IndexType::Internal,
        0 <= a < node.keys.len(),
        forall|i: int| 0 <= i < node.keys.len() ==> in_range(#[trigger] node.keys[i], lo, hi),
        in_range(sep2, child_lo(node, a, lo), child_hi(node, a + 1, hi)),
        child_lo(node, a, lo) is Some ==> child_lo(node, a, lo).unwrap() < sep2,
        forall|m: int|
            0 <= m <= node.keys.len() && m != a && m != a + 1 ==> subtree_ok(
                s,
                u,
                #[trigger] node.children[m],
                (h - 1) as nat,
                child_lo(node, m, lo),
                child_hi(node, m, hi),
                limits,
                false,
            ),
        subtree_ok(
            s,
            u,
            node.children[a],
            (h - 1) as nat,
            child_lo(node, a, lo),
            Some(sep2),
            limits,
            false,
        ),
        subtree_ok(
            s,
            u,
            node.children[a + 1],
            (h - 1) as nat,
            Some(sep2),
            child_hi(node, a + 1, hi),
            limits,
            false,
        ),
    ensures
        ({
            let node2 = IndexPageView { keys: node.keys.update(a, sep2), ..node };
            &&& node2.wf()
            &&& forall|i: int| 0 <= i < node2.keys.len()
                ==> in_range(#[trigger] node2.keys[i], lo, hi)
            &&& children_ok(s, u, node2, h, lo, hi, limits)
            &&& forall|k: i64|
                #[trigger] lookup_from(s, node2, h, k) == ({
                    let f = first_above(node.keys, k, 0);
                    if f == a || f == a + 1 {
                        if k < sep2 {
                            lookup(s, node.children[a], (h - 1) as nat, k)
                        } else {
                            lookup(s, node.children[a + 1], (h - 1) as nat, k)
                        }
                    } else {
                        lookup(s, node.children[f], (h - 1) as nat, k)
                    }
                })
        }),
{
    let n = node.keys.len() as int;
    let node2 = IndexPageView { keys: node.keys.update(a, sep2), ..node };
    if a > 0 {
        assert(in_range(node.keys[a - 1], lo, hi));
    }
    if a + 1 < n {
        assert(in_range(node.keys[a + 1], lo, hi));
    }
    assert forall|x: int, y: int| 0 <= x < y < node2.keys.len() implies node2.keys[x]
        < node2.keys[y] by {
        if x != a && y != a {
            assert(node.keys[x] < node.keys[y]);
        } else if x == a {
            if y > a + 1 {
                assert(node.keys[a + 1] < node.keys[y]);
            }
        } else {
            if x < a - 1 {
                assert(node.keys[x] < node.keys[a - 1]);
            }
        }
    }
    assert forall|i: int| 0 <= i < node2.keys.len() implies in_range(
        #[trigger] node2.keys[i],
        lo,
        hi,
    ) by {
        if i != a {
            assert(in_range(node.keys[i], lo, hi));
        }
    }
    assert forall|m: int| 0 <= m <= node2.keys.len() implies subtree_ok(
        s,
        u,
        #[trigger] node2.children[m],
        (h - 1) as nat,
        child_lo(node2, m, lo),
        child_hi(node2, m, hi),
        limits,
        false,
    ) by {
        if m != a && m != a + 1 {
            assert(child_lo(node2, m, lo) == child_lo(node, m, lo));
            assert(child_hi(node2, m, hi) == child_hi(node, m, hi));
        } else if m == a {
            assert(child_lo(node2, m, lo) == child_lo(node, a, lo));
            assert(child_hi(node2, m, hi) == Some(sep2));
        } else {
            assert(child_lo(node2, m, lo) == Some(sep2));
            assert(child_hi(node2, m, hi) == child_hi(node, a + 1, hi));
        }
    }
    assert forall|k: i64|
        #[trigger] lookup_from(s, node2, h, k) == ({
            let f = first_above(node.keys, k, 0);
            if f == a || f == a + 1 {
                if k < sep2 {
                    lookup(s, node.children[a], (h - 1) as nat, k)
                } else {
                    lookup(s, node.children[a + 1], (h - 1) as nat, k)
                }
            } else {
                lookup(s, node.children[f], (h - 1) as nat, k)
            }
        }) by {
        lemma_first_above(node.keys, k, 0);
        let f = first_above(node.keys, k, 0);
        let f2 = if f == a || f == a + 1 {
            if k < sep2 {
                a
            } else {
                a + 1
            }
        } else {
            f
        };
        assert forall|j: int| 0 <= j < f2 implies #[trigger] node2.keys[j] <= k by {
            if j != a {
                if j < f {
                    assert(node.keys[j] <= k);
                } else {
                    // f <= j < f2 happens only for f == a, f2 == a + 1, j == a
                    assert(false);
                }
            } else {
                if f > a + 1 {
                    assert(node.keys[a + 1] <= k);
                }
            }
        }
        if f2 < node2.keys.len() {
            if f2 == a {
                assert(node2.keys[a] == sep2);
            } else if f2 == a + 1 {
                if f == a {
                    assert(k < node.keys[a]);
                    assert(node.keys[a] < node.keys[a + 1]);
                } else if f == a + 1 {
                    assert(k < node.keys[a + 1]);
                }
            } else {
                assert(k < node.keys[f]);
            }
        }
        lemma_first_above_is(node2.keys, k, f2);
    }
}

/// An internal node whose children `a` and `a + 1` were merged into the
/// child `a`, with the key between the two and the child `a + 1` taken
/// out, has B+ trees for children again; a search that went to one of the
/// two goes to the merged one, and any other search where it went before.
pub proof fn lemma_parent_merge(
    s: Store,
    u: Set<PageId>,
    node: IndexPageView,
    h: nat,
    lo: Option<i64>,
    hi: Option<i64>,
    limits: Limits,
    a: int,
)
    requires
        h > 0,
        node.wf(),
        node.page_type == IndexType::Internal,
        0 <= a < node.keys.len(),
        forall|i: int| 0 <= i < node.keys.len() ==> in_range(#[trigger] node.keys[i], lo, hi),
        forall|m: int|
            0 <= m <= node.keys.len() && m != a && m != a + 1 ==> subtree_ok(
                s,
                u,
                #[trigger] node.children[m],
                (h - 1) as nat,
                child_lo(node, m, lo),
                child_hi(node, m, hi),
                limits,
                false,
            ),
        subtree_ok(
            s,
            u,
            node.children[a],
            (h - 1) as nat,
            child_lo(node, a, lo),
            child_hi(node, a + 1, hi),
            limits,
            false,
        ),
    ensures
        ({
            let node2 = IndexPageView {
                keys: node.keys.remove(a),
                children: node.children.remove(a + 1),
                ..node
            };
            &&& node2.wf()
            &&& forall|i: int| 0 <= i < node2.keys.len()
                ==> in_range(#[trigger] node2.keys[i], lo, hi)
            &&& children_ok(s, u, node2, h, lo, hi, limits)
            &&& forall|k: i64|
                #[trigger] lookup_from(s, node2, h, k) == ({
                    let f = first_above(node.keys, k, 0);
                    if f == a || f == a + 1 {
                        lookup(s, node.children[a], (h - 1) as nat, k)
                    } else {
                        lookup(s, node.children[f], (h - 1) as nat, k)
                    }
                })
        }),
{
    let n = node.keys.len() as int;
    let node2 = IndexPageView {
        keys: node.keys.remove(a),
        children: node.children.remove(a + 1),
        ..node
    };
    assert forall|x: int, y: int| 0 <= x < y < node2.keys.len() implies node2.keys[x]
        < node2.keys[y] by {
        let x0 = if x < a {
            x
        } else {
            x + 1
        };
        let y0 = if y < a {
            y
        } else {
            y + 1
        };
        assert(node.keys[x0] < node.keys[y0]);
    }
    assert forall|i: int| 0 <= i < node2.keys.len() implies in_range(
        #[trigger] node2.keys[i],
        lo,
        hi,
    ) by {
        let i0 = if i < a {
            i
        } else {
            i + 1
        };
        assert(in_range(node.keys[i0], lo, hi));
    }
    assert forall|m: int| 0 <= m <= node2.keys.len() implies subtree_ok(
        s,
        u,
        #[trigger] node2.children[m],
        (h - 1) as nat,
        child_lo(node2, m, lo),
        child_hi(node2, m, hi),
        limits,
        false,
    ) by {
        if m < a {
            assert(node2.children[m] == node.children[m]);
            assert(child_lo(node2, m, lo) == child_lo(node, m, lo));
            assert(child_hi(node2, m, hi) == child_hi(node, m, hi));
        } else if m == a {
            assert(node2.children[m] == node.children[a]);
            assert(child_lo(node2, m, lo) == child_lo(node, a, lo));
            assert(child_hi(node2, m, hi) == child_hi(node, a + 1, hi));
        } else {
            assert(node2.children[m] == node.children[m + 1]);
            assert(child_lo(node2, m, lo) == child_lo(node, m + 1, lo));
            assert(child_hi(node2, m, hi) == child_hi(node, m + 1, hi));
        }
    }
    assert forall|k: i64|
        #[trigger] lookup_from(s, node2, h, k) == ({
            let f = first_above(node.keys, k, 0);
            if f == a || f == a + 1 {
                lookup(s, node.children[a], (h - 1) as nat, k)
            } else {
                lookup(s, node.children[f], (h - 1) as nat, k)
            }
        }) by {
        lemma_first_above(node.keys, k, 0);
        let f = first_above(node.keys, k, 0);
        let f2 = if f <= a {
            f
        } else {
            f - 1
        };
        assert forall|j: int| 0 <= j < f2 implies #[trigger] node2.keys[j] <= k by {
            let j0 = if j < a {
                j
            } else {
                j + 1
            };
            assert(node.keys[j0] <= k);
        }
        if f2 < node2.keys.len() {
            if f <= a {
                if f == a {
                    assert(k < node.keys[a]);
                    assert(node.keys[a] < node.keys[a + 1]);
                } else {
                    assert(k < node.keys[f]);
                }
            } else {
                assert(k < node.keys[f]);
            }
        }
        lemma_first_above_is(node2.keys, k, f2);
        if f < a {
            assert(node2.children[f2] == node.children[f]);
        } else if f == a || f == a + 1 {
            assert(node2.children[f2] == node.children[a]);
        } else {
            assert(node2.children[f2] == node.children[f]);
        }
    }
}

/// The bounds of the range of a child lie within the range of its node.
pub proof fn lemma_child_range(node: IndexPageView, lo: Option<i64>, hi: Option<i64>, m: int)
    requires
        ascending(node.keys),
        0 <= m <= node.keys.len(),
        forall|i: int| 0 <= i < node.keys.len() ==> in_range(#[trigger] node.keys[i], lo, hi),
    ensures
        forall|j: int|
            0 <= j < m ==> child_lo(node, m, lo) is Some && #[trigger] node.keys[j] <= child_lo(
                node,
                m,
                lo,
            ).unwrap(),
        forall|j: int|
            m <= j < node.keys.len() ==> child_hi(node, m, hi) is Some && child_hi(
                node,
                m,
                hi,
            ).unwrap() <= #[trigger] node.keys[j],
        lo is Some ==> child_lo(node, m, lo) is Some && lo.unwrap() <= child_lo(
            node,
            m,
            lo,
        ).unwrap(),
        hi is Some ==> child_hi(node, m, hi) is Some && child_hi(node, m, hi).unwrap()
            <= hi.unwrap(),
{
    assert forall|j: int| 0 <= j < m implies child_lo(node, m, lo) is Some
        && #[trigger] node.keys[j] <= child_lo(node, m, lo).unwrap() by {
        if j < m - 1 {
            assert(node.keys[j] < node.keys[m - 1]);
        }
    }
    assert forall|j: int| m <= j < node.keys.len() implies child_hi(node, m, hi) is Some
        && child_hi(node, m, hi).unwrap() <= #[trigger] node.keys[j] by {
        if m < j {
            assert(node.keys[m] < node.keys[j]);
        }
    }
    if m > 0 {
        assert(in_range(node.keys[m - 1], lo, hi));
    }
    if m < node.keys.len() {
        assert(in_range(node.keys[m], lo, hi));
    }
}

/// What follows from the state before a rebalance: the node and its two
/// children are three pages; none of them is a node below one of the two
/// children or a node of another child; the node has the levels of a node
/// of its height below it.
pub proof fn lemma_pair_absences(
    s: Store,
    u: Set<PageId>,
    node: IndexPageView,
    id: PageId,
    h: nat,
    lo: Option<i64>,
    hi: Option<i64>,
    limits: Limits,
    a: int,
    left: IndexPageView,
    right: IndexPageView,
)
    requires
        limits.ok(),
        pair_state(s, u, node, id, h, lo, hi, limits, a, left, right),
    ensures
        left.id != right.id,
        id != left.id,
        id != right.id,
        depth(s, id, h),
        in_range(node.keys[a], child_lo(node, a, lo), child_hi(node, a + 1, hi)),
        kids_absent(s, left, (h - 1) as nat, id),
        kids_absent(s, left, (h - 1) as nat, left.id),
        kids_absent(s, left, (h - 1) as nat, right.id),
        kids_absent(s, right, (h - 1) as nat, id),
        kids_absent(s, right, (h - 1) as nat, left.id),
        kids_absent(s, right, (h - 1) as nat, right.id),
        forall|m: int|
            0 <= m <= node.keys.len() && m != a && m != a + 1 ==> absent(
                s,
                #[trigger] node.children[m],
                (h - 1) as nat,
                id,
            ) && absent(s, node.children[m], (h - 1) as nat, left.id) && absent(
                s,
                node.children[m],
                (h - 1) as nat,
                right.id,
            ),
{
    let hc = (h - 1) as nat;
    let sep = node.keys[a];
    let llo = child_lo(node, a, lo);
    let rhi = child_hi(node, a + 1, hi);
    let n = node.keys.len() as int;
    lemma_child_range(node, lo, hi, a);
    lemma_child_range(node, lo, hi, a + 1);
    assert(in_range(node.keys[a], lo, hi));
    // the node has the levels of its height
    if a != 0 {
        assert(subtree_ok(
            s,
            u,
            node.children[0],
            hc,
            child_lo(node, 0, lo),
            child_hi(node, 0, hi),
            limits,
            false,
        ));
        lemma_depth_of_subtree(
            s,
            u,
            node.children[0],
            hc,
            child_lo(node, 0, lo),
            child_hi(node, 0, hi),
            limits,
            false,
        );
    }
    assert(depth(s, id, h));
    if id == left.id {
        lemma_depth_unique(s, id, h, hc);
    }
    if id == right.id {
        lemma_depth_unique(s, id, h, hc);
    }
    // the other children
    assert forall|m: int| 0 <= m <= node.keys.len() && m != a && m != a + 1 implies absent(
        s,
        #[trigger] node.children[m],
        hc,
        id,
    ) && absent(s, node.children[m], hc, left.id) && absent(s, node.children[m], hc, right.id) by {
        let c = node.children[m];
        let clo = child_lo(node, m, lo);
        let chi = child_hi(node, m, hi);
        lemma_child_range(node, lo, hi, m);
        lemma_absent_by_depth(s, u, c, hc, clo, chi, limits, false, id, h);
        if m < a {
            assert(chi.unwrap() <= node.keys[a - 1]);
        } else {
            assert(node.keys[a + 1] <= clo.unwrap());
            assert(node.keys[a] < node.keys[a + 1]);
        }
        lemma_absent_by_key(s, u, c, hc, clo, chi, limits, false, left.id, 0);
        lemma_absent_by_key(s, u, c, hc, clo, chi, limits, false, right.id, 0);
    }
    // the children of the two children
    if hc > 0 {
        let hg = (hc - 1) as nat;
        assert forall|m: int| 0 <= m <= left.keys.len() implies absent(
            s,
            #[trigger] left.children[m],
            hg,
            id,
        ) && absent(s, left.children[m], hg, right.id) by {
            let c = left.children[m];
            let clo = child_lo(left, m, llo);
            let chi = child_hi(left, m, Some(sep));
            assert(subtree_ok(s, u, c, hg, clo, chi, limits, false));
            lemma_child_range(left, llo, Some(sep), m);
            lemma_absent_by_depth(s, u, c, hg, clo, chi, limits, false, id, h);
            lemma_absent_by_key(s, u, c, hg, clo, chi, limits, false, right.id, 0);
        }
        assert forall|m: int| 0 <= m <= right.keys.len() implies absent(
            s,
            #[trigger] right.children[m],
            hg,
            id,
        ) && absent(s, right.children[m], hg, left.id) by {
            let c = right.children[m];
            let clo = child_lo(right, m, Some(sep));
            let chi = child_hi(right, m, rhi);
            assert(subtree_ok(s, u, c, hg, clo, chi, limits, false));
            lemma_child_range(right, Some(sep), rhi, m);
            lemma_absent_by_depth(s, u, c, hg, clo, chi, limits, false, id, h);
            lemma_absent_by_key(s, u, c, hg, clo, chi, limits, false, left.id, 0);
        }
    }
}

/// The children of two nodes that exchanged an entry are children of the
/// two nodes as they were: a page that was no node below these is none
/// below those.
pub proof fn lemma_kids_after_borrow(
    s: Store,
    left: IndexPageView,
    right: IndexPageView,
    sep: i64,
    from_left: bool,
    h: nat,
    x: PageId,
)
    requires
        left.aligned(),
        right.aligned(),
        left.page_type == right.page_type,
        h > 0 ==> left.page_type == IndexType::Internal,
        if from_left {
            left.keys.len() >= 1
        } else {
            right.keys.len() >= 1
        },
        kids_absent(s, left, h, x),
        kids_absent(s, right, h, x),
    ensures
        from_left ==> kids_absent(s, left.lent(true), h, x) && kids_absent(
            s,
            right.borrowed(left, sep, true),
            h,
            x,
        ),
        !from_left ==> kids_absent(s, left.borrowed(right, sep, false), h, x) && kids_absent(
            s,
            right.lent(false),
            h,
            x,
        ),
{
    if h > 0 {
        let hc = (h - 1) as nat;
        let n = left.keys.len() as int;
        if from_left {
            let left2 = left.lent(true);
            let right2 = right.borrowed(left, sep, true);
            assert forall|m: int| 0 <= m <= left2.keys.len() implies absent(
                s,
                #[trigger] left2.children[m],
                hc,
                x,
            ) by {
                assert(left2.children[m] == left.children[m]);
            }
            assert forall|m: int| 0 <= m <= right2.keys.len() implies absent(
                s,
                #[trigger] right2.children[m],
                hc,
                x,
            ) by {
                if m == 0 {
                    assert(right2.children[0] == left.children[n]);
                } else {
                    assert(right2.children[m] == right.children[m - 1]);
                }
            }
        } else {
            let left2 = left.borrowed(right, sep, false);
            let right2 = right.lent(false);
            assert forall|m: int| 0 <= m <= left2.keys.len() implies absent(
                s,
                #[trigger] left2.children[m],
                hc,
                x,
            ) by {
                if m == n + 1 {
                    assert(left2.children[m] == right.children[0]);
                } else {
                    assert(left2.children[m] == left.children[m]);
                }
            }
            assert forall|m: int| 0 <= m <= right2.keys.len() implies absent(
                s,
                #[trigger] right2.children[m],
                hc,
                x,
            ) by {
                assert(right2.children[m] == right.children[m + 1]);
            }
        }
    }
}

/// The children of a node that two nodes were merged into are children of
/// the two nodes: a page that was no node below these is none below that.
pub proof fn lemma_kids_after_merge(
    s: Store,
    left: IndexPageView,
    right: IndexPageView,
    sep: i64,
    h: nat,
    x: PageId,
)
    requires
        left.aligned(),
        right.aligned(),
        left.page_type == right.page_type,
        h > 0 ==> left.page_type == IndexType::Internal,
        kids_absent(s, left, h, x),
        kids_absent(s, right, h, x),
    ensures
        kids_absent(s, merged_node(left, right, sep, h), h, x),
{
    if h > 0 {
        let hc = (h - 1) as nat;
        let n = left.keys.len() as int;
        let node = merged_node(left, right, sep, h);
        assert forall|m: int| 0 <= m <= node.keys.len() implies absent(
            s,
            #[trigger] node.children[m],
            hc,
            x,
        ) by {
            if m <= n {
                assert(node.children[m] == left.children[m]);
            } else {
                assert(node.children[m] == right.children[m - n - 1]);
            }
        }
    }
}

/// A loose node stays one, with the same searches from it, when a page is
/// written that is not the page of the node and none of the nodes below it.
pub proof fn lemma_loose_keep(
    s: Store,
    u: Set<PageId>,
    y: PageId,
    v: IndexPageView,
    node: IndexPageView,
    id: PageId,
    h: nat,
    lo: Option<i64>,
    hi: Option<i64>,
    limits: Limits,
)
    requires
        limits.ok(),
        loose(s, u, node, id, h, lo, hi, limits),
        kids_absent(s, node, h, y),
    ensures
        loose(s.insert(y, v), u, node, id, h, lo, hi, limits),
        forall|k: i64| #[trigger] lookup_from(s.insert(y, v), node, h, k)
            == lookup_from(s, node, h, k),
        forall|x: PageId| kids_absent(s.insert(y, v), node, h, x) == kids_absent(s, node, h, x),
        first_leaf_from(s.insert(y, v), node, h) == first_leaf_from(s, node, h),
        forall|e: Option<PageId>|
            #[trigger] linked_from(s.insert(y, v), node, h, e) == linked_from(s, node, h, e),
{
    reveal(linked_from);
    if h > 0 {
        lemma_children_keep(s, u, y, v, u, node, h, lo, hi, limits);
        let s2 = s.insert(y, v);
        assert forall|x: PageId| kids_absent(s2, node, h, x) == kids_absent(s, node, h, x) by {
            assert forall|m: int| 0 <= m <= node.keys.len() implies absent(
                s2,
                #[trigger] node.children[m],
                (h - 1) as nat,
                x,
            ) == absent(s, node.children[m], (h - 1) as nat, x) by {}
        }
        assert(kids_absent(s2, node, h, id));
    }
}

/// The store after two children of a node that were rebalanced were
/// written to their pages.
pub open spec fn store_after_borrow(s: Store, left2: IndexPageView,
    right2: IndexPageView) -> Store {
    s.insert(left2.id, left2).insert(right2.id, right2)
}

/// An internal node is ready to be written again after two of its
/// children side by side exchanged an entry and were written to their
/// pages: with the new key between the two in the place of the old one,
/// its children are B+ trees, and a search comes to what it came to before.
pub proof fn lemma_store_borrow(
    s: Store,
    u: Set<PageId>,
    node: IndexPageView,
    id: PageId,
    h: nat,
    lo: Option<i64>,
    hi: Option<i64>,
    limits: Limits,
    is_root: bool,
    a: int,
    left: IndexPageView,
    right: IndexPageView,
    left2: IndexPageView,
    right2: IndexPageView,
    sep2: i64,
)
    requires
        limits.ok(),
        pair_state(s, u, node, id, h, lo, hi, limits, a, left, right),
        is_root || node.keys.len() >= limits.internal_min,
        left2.id == left.id,
        right2.id == right.id,
        loose(s, u, left2, left.id, (h - 1) as nat, child_lo(node, a, lo), Some(sep2), limits),
        loose(s, u, right2, right.id, (h - 1) as nat, Some(sep2), child_hi(node, a
            + 1, hi), limits),
        in_range(sep2, child_lo(node, a, lo), child_hi(node, a + 1, hi)),
        child_lo(node, a, lo) is Some ==> child_lo(node, a, lo).unwrap() < sep2,
        left2.keys.len() >= min_keys(limits, (h - 1) as nat),
        right2.keys.len() >= min_keys(limits, (h - 1) as nat),
        kids_absent(s, left2, (h - 1) as nat, id),
        kids_absent(s, left2, (h - 1) as nat, right.id),
        kids_absent(s, right2, (h - 1) as nat, id),
        kids_absent(s, right2, (h - 1) as nat, left.id),
        forall|k: i64|
            #[trigger] pair_lookup(s, left2, right2, sep2, (h - 1) as nat, k) == pair_lookup(
                s,
                left,
                right,
                node.keys[a],
                (h - 1) as nat,
                k,
            ),
    ensures
        ({
            let s3 = store_after_borrow(s, left2, right2);
            let node2 = IndexPageView { keys: node.keys.update(a, sep2), ..node };
            &&& left2.storable()
            &&& right2.storable()
            &&& ready(s3, u, node2, id, h, lo, hi, limits, is_root)
            &&& node2.keys.len() <= limits.internal_max
            &&& forall|k: i64|
                #[trigger] lookup_from(s3, node2, h, k) == lookup_around(
                    s,
                    node,
                    a,
                    left,
                    right,
                    h,
                    k,
                )
            &&& node_installed(s, s3, left2, (h - 1) as nat)
            &&& node_installed(s, s3, right2, (h - 1) as nat)
            &&& others_kept(s, s3, node, (h - 1) as nat, a)
        }),
{
    let hc = (h - 1) as nat;
    let sep = node.keys[a];
    let llo = child_lo(node, a, lo);
    let rhi = child_hi(node, a + 1, hi);
    let s2 = s.insert(left.id, left2);
    let s3 = s2.insert(right.id, right2);
    let node2 = IndexPageView { keys: node.keys.update(a, sep2), ..node };
    lemma_pair_absences(s, u, node, id, h, lo, hi, limits, a, left, right);
    // the left child
    lemma_loose_ready(s, u, left2, left.id, hc, llo, Some(sep2), limits, false);
    lemma_install(s, u, left2, left.id, hc, llo, Some(sep2), limits, false);
    lemma_loose_keep(s, u, left.id, left2, left2, left.id, hc, llo, Some(sep2), limits);
    // the right child
    lemma_loose_keep(s, u, left.id, left2, right2, right.id, hc, Some(sep2), rhi, limits);
    lemma_loose_ready(s2, u, right2, right.id, hc, Some(sep2), rhi, limits, false);
    lemma_install(s2, u, right2, right.id, hc, Some(sep2), rhi, limits, false);
    // the left child again
    assert(absent(s2, left.id, hc, right.id)) by {
        assert(s2[left.id] == left2);
        assert(kids_absent(s2, left2, hc, right.id));
    }
    lemma_keep(s2, u, right.id, right2, u, left.id, hc, llo, Some(sep2), limits, false);
    assert(first_leaf(s3, left.id, hc) == first_leaf_from(s, left2, hc)) by {
        assert(first_leaf(s3, left.id, hc) == first_leaf(s2, left.id, hc));
    }
    assert(first_leaf(s3, right.id, hc) == first_leaf_from(s, right2, hc)) by {
        assert(first_leaf(s3, right.id, hc) == first_leaf_from(s2, right2, hc));
    }
    assert forall|e: Option<PageId>| #[trigger]
        linked(s3, left.id, hc, e) == linked_from(s, left2, hc, e) by {
        assert(linked(s3, left.id, hc, e) == linked(s2, left.id, hc, e));
        assert(linked(s2, left.id, hc, e) == linked_from(s, left2, hc, e));
    }
    assert forall|e: Option<PageId>| #[trigger]
        linked(s3, right.id, hc, e) == linked_from(s, right2, hc, e) by {
        assert(linked(s3, right.id, hc, e) == linked_from(s2, right2, hc, e));
        assert(linked_from(s2, right2, hc, e) == linked_from(s, right2, hc, e));
    }
    // the other children
    assert forall|m: int| 0 <= m <= node.keys.len() && m != a && m != a + 1 implies subtree_ok(
        s3,
        u,
        #[trigger] node.children[m],
        hc,
        child_lo(node, m, lo),
        child_hi(node, m, hi),
        limits,
        false,
    ) && (forall|k: i64|
        #[trigger] lookup(s3, node.children[m], hc, k) == lookup(s, node.children[m], hc, k))
        && first_leaf(s3, node.children[m], hc) == first_leaf(s, node.children[m], hc) && (forall|
        e: Option<PageId>,
    |
        #[trigger] linked(s3, node.children[m], hc, e) == linked(s, node.children[m], hc, e)) by {
        let c = node.children[m];
        lemma_keep(
            s,
            u,
            left.id,
            left2,
            u,
            c,
            hc,
            child_lo(node, m, lo),
            child_hi(node, m, hi),
            limits,
            false,
        );
        lemma_keep(
            s2,
            u,
            right.id,
            right2,
            u,
            c,
            hc,
            child_lo(node, m, lo),
            child_hi(node, m, hi),
            limits,
            false,
        );
    }
    // the node
    lemma_parent_borrow(s3, u, node, h, lo, hi, limits, a, sep2);
    assert(s3[id] == node);
    assert(node2.children[0] == node.children[0]);
    assert(subtree_ok(
        s3,
        u,
        node2.children[0],
        hc,
        child_lo(node2, 0, lo),
        child_hi(node2, 0, hi),
        limits,
        false,
    ));
    lemma_depth_of_subtree(
        s3,
        u,
        node2.children[0],
        hc,
        child_lo(node2, 0, lo),
        child_hi(node2, 0, hi),
        limits,
        false,
    );
    assert(depth(s3, id, h));
    assert forall|m: int| 0 <= m <= node2.keys.len() implies absent(
        s3,
        #[trigger] node2.children[m],
        hc,
        id,
    ) by {
        lemma_absent_by_depth(
            s3,
            u,
            node2.children[m],
            hc,
            child_lo(node2, m, lo),
            child_hi(node2, m, hi),
            limits,
            false,
            id,
            h,
        );
    }
    assert forall|k: i64|
        #[trigger] lookup_from(s3, node2, h, k) == lookup_around(s, node, a, left, right, h, k) by {
        lemma_first_above(node.keys, k, 0);
        let f = first_above(node.keys, k, 0);
        assert(lookup(s3, left.id, hc, k) == lookup_from(s, left2, hc, k)) by {
            assert(lookup(s3, left.id, hc, k) == lookup(s2, left.id, hc, k));
        }
        assert(lookup(s3, right.id, hc, k) == lookup_from(s, right2, hc, k)) by {
            assert(lookup(s3, right.id, hc, k) == lookup_from(s2, right2, hc, k));
        }
        assert(pair_lookup(s, left2, right2, sep2, hc, k) == pair_lookup(
            s,
            left,
            right,
            sep,
            hc,
            k,
        ));
        if f == a {
            assert(k < sep);
        } else if f == a + 1 {
            assert(sep <= k);
        } else {
            assert(lookup(s3, node.children[f], hc, k) == lookup(s, node.children[f], hc, k));
        }
    }
}

/// An internal node is a loose node again after two of its children side
/// by side were merged into the left one, which was written to its page,
/// and the page of the right one was given back: without the key between
/// the two and without the right one, its children are B+ trees, and a
/// search comes to what it came to before.
pub proof fn lemma_store_merge(
    s: Store,
    u: Set<PageId>,
    node: IndexPageView,
    id: PageId,
    h: nat,
    lo: Option<i64>,
    hi: Option<i64>,
    limits: Limits,
    a: int,
    left: IndexPageView,
    right: IndexPageView,
    merged: IndexPageView,
    s2: Store,
    u2: Set<PageId>,
)
    requires
        limits.ok(),
        pair_state(s, u, node, id, h, lo, hi, limits, a, left, right),
        merged.id == left.id,
        loose(
            s,
            u,
            merged,
            left.id,
            (h - 1) as nat,
            child_lo(node, a, lo),
            child_hi(node, a + 1, hi),
            limits,
        ),
        merged.keys.len() >= min_keys(limits, (h - 1) as nat),
        h > 1 ==> merged.keys.len() >= 1,
        kids_absent(s, merged, (h - 1) as nat, id),
        kids_absent(s, merged, (h - 1) as nat, right.id),
        forall|k: i64|
            #[trigger] lookup_from(s, merged, (h - 1) as nat, k) == pair_lookup(
                s,
                left,
                right,
                node.keys[a],
                (h - 1) as nat,
                k,
            ),
        forall|x: PageId| #[trigger] u2.contains(x) == (u.contains(x) && x != right.id),
        forall|x: PageId|
            x != right.id ==> (#[trigger] s2.contains_key(x)) == s.insert(
                left.id,
                merged,
            ).contains_key(x),
        forall|x: PageId|
            x != right.id && s.insert(left.id, merged).contains_key(x) ==> #[trigger] s2[x]
                == s.insert(left.id, merged)[x],
    ensures
        ({
            let node2 = IndexPageView {
                keys: node.keys.remove(a),
                children: node.children.remove(a + 1),
                ..node
            };
            &&& merged.storable()
            &&& loose(s2, u2, node2, id, h, lo, hi, limits)
            &&& node2.keys.len() == node.keys.len() - 1
            &&& s2[id] == node
            &&& depth(s2, id, h)
            &&& forall|k: i64|
                #[trigger] lookup_from(s2, node2, h, k) == lookup_around(
                    s,
                    node,
                    a,
                    left,
                    right,
                    h,
                    k,
                )
            &&& node_installed(s, s2, merged, (h - 1) as nat)
            &&& others_kept(s, s2, node, (h - 1) as nat, a)
        }),
{
    let hc = (h - 1) as nat;
    let sep = node.keys[a];
    let llo = child_lo(node, a, lo);
    let rhi = child_hi(node, a + 1, hi);
    let s1 = s.insert(left.id, merged);
    let node2 = IndexPageView {
        keys: node.keys.remove(a),
        children: node.children.remove(a + 1),
        ..node
    };
    lemma_pair_absences(s, u, node, id, h, lo, hi, limits, a, left, right);
    // the merged child
    lemma_loose_ready(s, u, merged, left.id, hc, llo, rhi, limits, false);
    lemma_install(s, u, merged, left.id, hc, llo, rhi, limits, false);
    lemma_loose_keep(s, u, left.id, merged, merged, left.id, hc, llo, rhi, limits);
    assert(absent(s1, left.id, hc, right.id)) by {
        assert(s1[left.id] == merged);
        assert(kids_absent(s1, merged, hc, right.id));
    }
    assert forall|x: PageId| !(#[trigger] absent(s1, left.id, hc, x)) implies s2.contains_key(x)
        && s2[x] == s1[x] && u2.contains(x) by {
        lemma_member(s1, u, left.id, hc, llo, rhi, limits, false, x);
    }
    lemma_agree(s1, u, s2, u2, left.id, hc, llo, rhi, limits, false);
    assert(first_leaf(s2, left.id, hc) == first_leaf_from(s, merged, hc)) by {
        assert(first_leaf(s2, left.id, hc) == first_leaf(s1, left.id, hc));
    }
    assert forall|e: Option<PageId>| #[trigger]
        linked(s2, left.id, hc, e) == linked_from(s, merged, hc, e) by {
        assert(linked(s2, left.id, hc, e) == linked(s1, left.id, hc, e));
        assert(linked(s1, left.id, hc, e) == linked_from(s, merged, hc, e));
    }
    // the other children
    assert forall|m: int| 0 <= m <= node.keys.len() && m != a && m != a + 1 implies subtree_ok(
        s2,
        u2,
        #[trigger] node.children[m],
        hc,
        child_lo(node, m, lo),
        child_hi(node, m, hi),
        limits,
        false,
    ) && (forall|k: i64|
        #[trigger] lookup(s2, node.children[m], hc, k) == lookup(s, node.children[m], hc, k))
        && first_leaf(s2, node.children[m], hc) == first_leaf(s, node.children[m], hc) && (forall|
        e: Option<PageId>,
    |
        #[trigger] linked(s2, node.children[m], hc, e) == linked(s, node.children[m], hc, e)) by {
        let c = node.children[m];
        assert forall|x: PageId| !(#[trigger] absent(s, c, hc, x)) implies s2.contains_key(x)
            && s2[x] == s[x] && u2.contains(x) by {
            lemma_member(
                s,
                u,
                c,
                hc,
                child_lo(node, m, lo),
                child_hi(node, m, hi),
                limits,
                false,
                x,
            );
        }
        lemma_agree(
            s,
            u,
            s2,
            u2,
            c,
            hc,
            child_lo(node, m, lo),
            child_hi(node, m, hi),
            limits,
            false,
        );
    }
    // the node
    lemma_parent_merge(s2, u2, node, h, lo, hi, limits, a);
    assert(s2[id] == node);
    assert(node2.children[0] == node.children[0]);
    assert(subtree_ok(
        s2,
        u2,
        node2.children[0],
        hc,
        child_lo(node2, 0, lo),
        child_hi(node2, 0, hi),
        limits,
        false,
    ));
    lemma_depth_of_subtree(
        s2,
        u2,
        node2.children[0],
        hc,
        child_lo(node2, 0, lo),
        child_hi(node2, 0, hi),
        limits,
        false,
    );
    assert(depth(s2, id, h));
    assert forall|m: int| 0 <= m <= node2.keys.len() implies absent(
        s2,
        #[trigger] node2.children[m],
        hc,
        id,
    ) by {
        lemma_absent_by_depth(
            s2,
            u2,
            node2.children[m],
            hc,
            child_lo(node2, m, lo),
            child_hi(node2, m, hi),
            limits,
            false,
            id,
            h,
        );
    }
    assert forall|k: i64|
        #[trigger] lookup_from(s2, node2, h, k) == lookup_around(s, node, a, left, right, h, k) by {
        lemma_first_above(node.keys, k, 0);
        let f = first_above(node.keys, k, 0);
        assert(lookup(s2, left.id, hc, k) == lookup_from(s, merged, hc, k)) by {
            assert(lookup(s2, left.id, hc, k) == lookup(s1, left.id, hc, k));
        }
        if f == a {
            assert(k < sep);
        } else if f == a + 1 {
            assert(sep <= k);
        } else {
            assert(lookup(s2, node.children[f], hc, k) == lookup(s, node.children[f], hc, k));
        }
    }
}

/// An internal node of a B+ tree is the root of a B+ tree again after the
/// entry of a key was taken out below the child that a search for the key
/// goes to, if that child still has keys enough.
pub proof fn lemma_internal_kept(
    s0: Store,
    u0: Set<PageId>,
    s1: Store,
    u1: Set<PageId>,
    id: PageId,
    h: nat,
    lo: Option<i64>,
    hi: Option<i64>,
    limits: Limits,
    is_root: bool,
    key: i64,
)
    requires
        subtree_ok(s0, u0, id, h, lo, hi, limits, is_root),
        h > 0,
        limits.ok(),
        told_apart(limits, s0, id, h),
        ({
            let node = s0[id];
            let i = first_above(node.keys, key, 0);
            let c = node.children[i];
            let hc = (h - 1) as nat;
            &&& forall|x: PageId|
                u0.contains(x) && s0.contains_key(x) && #[trigger] absent(s0, c, hc, x)
                    ==> s1.contains_key(x) && s1[x] == s0[x] && u1.contains(x)
            &&& subtree_ok(
                s1,
                u1,
                c,
                hc,
                child_lo(node, i, lo),
                child_hi(node, i, hi),
                limits,
                false,
            )
            &&& forall|k: i64|
                #[trigger] lookup(s1, c, hc, k) == after_delete(lookup(s0, c, hc, k), key, k)
        }),
    ensures
        subtree_ok(s1, u1, id, h, lo, hi, limits, is_root),
        forall|k: i64| #[trigger] lookup(s1, id, h, k)
            == after_delete(lookup(s0, id, h, k), key, k),
{
    let node = s0[id];
    lemma_first_above(node.keys, key, 0);
    let i = first_above(node.keys, key, 0);
    let hc = (h - 1) as nat;
    lemma_after_child(s0, u0, s1, u1, id, h, lo, hi, limits, is_root, i);
    assert forall|j: int| 0 <= j <= node.keys.len() implies subtree_ok(
        s1,
        u1,
        #[trigger] node.children[j],
        hc,
        child_lo(node, j, lo),
        child_hi(node, j, hi),
        limits,
        false,
    ) by {}
    assert forall|k: i64|
        #[trigger] lookup(s1, id, h, k) == after_delete(lookup(s0, id, h, k), key, k) by {
        lemma_first_above(node.keys, k, 0);
        let f = first_above(node.keys, k, 0);
        if f != i {
            assert(lookup(s1, node.children[f], hc, k) == lookup(s0, node.children[f], hc, k));
        }
    }
}

/// What is known of an internal node of a B+ tree when the child that a
/// search for the key goes to came back from the deletion of the key with
/// one key less than the minimum: the node is pending, and a search from it
/// comes to what it came to before but for the key.
pub proof fn lemma_internal_pending(
    s0: Store,
    u0: Set<PageId>,
    s1: Store,
    u1: Set<PageId>,
    id: PageId,
    h: nat,
    lo: Option<i64>,
    hi: Option<i64>,
    limits: Limits,
    is_root: bool,
    key: i64,
    child: IndexPageView,
)
    requires
        subtree_ok(s0, u0, id, h, lo, hi, limits, is_root),
        h > 0,
        limits.ok(),
        told_apart(limits, s0, id, h),
        limits.leaf_min >= 1,
        ({
            let node = s0[id];
            let i = first_above(node.keys, key, 0);
            let c = node.children[i];
            let hc = (h - 1) as nat;
            &&& forall|x: PageId|
                u0.contains(x) && s0.contains_key(x) && #[trigger] absent(s0, c, hc, x)
                    ==> s1.contains_key(x) && s1[x] == s0[x] && u1.contains(x)
            &&& loose(s1, u1, child, c, hc, child_lo(node, i, lo), child_hi(node, i, hi), limits)
            &&& child.keys.len() + 1 == s0[c].keys.len()
            &&& (hc > 0 && child.keys.len() == 0) || child.keys.len() < min_keys(limits, hc)
            &&& s1[c] == s0[c]
            &&& depth(s1, c, hc)
            &&& forall|k: i64|
                #[trigger] lookup_from(s1, child, hc, k) == after_delete(
                    lookup(s0, c, hc, k),
                    key,
                    k,
                )
        }),
    ensures
        pending(s1, u1, s0[id], id, h, lo, hi, limits, first_above(s0[id].keys, key, 0), child),
        is_root || s0[id].keys.len() >= limits.internal_min,
        forall|k: i64|
            #[trigger] lookup_with(s1, s0[id], first_above(s0[id].keys, key, 0), child, h, k)
                == after_delete(lookup(s0, id, h, k), key, k),
        forall|x: PageId|
            u0.contains(x) && s0.contains_key(x) && #[trigger] absent(s0, id, h, x)
                ==> s1.contains_key(x) && s1[x] == s0[x] && u1.contains(x) && x != id
                && !s0[id].children.contains(x),
{
    let node = s0[id];
    lemma_first_above(node.keys, key, 0);
    let i = first_above(node.keys, key, 0);
    let c = node.children[i];
    let hc = (h - 1) as nat;
    lemma_after_child(s0, u0, s1, u1, id, h, lo, hi, limits, is_root, i);
    assert(subtree_ok(s0, u0, c, hc, child_lo(node, i, lo), child_hi(node, i, hi), limits, false));
    assert(s0[c].keys.len() >= 1);
    assert(in_range(s0[c].keys[0], child_lo(node, i, lo), child_hi(node, i, hi)));
    assert forall|k: i64|
        #[trigger] lookup_with(s1, node, i, child, h, k) == after_delete(
            lookup(s0, id, h, k),
            key,
            k,
        ) by {
        lemma_first_above(node.keys, k, 0);
        let f = first_above(node.keys, k, 0);
        if f != i {
            assert(lookup(s1, node.children[f], hc, k) == lookup(s0, node.children[f], hc, k));
        }
    }
    assert forall|x: PageId|
        u0.contains(x) && s0.contains_key(x)
            && #[trigger] absent(s0, id, h, x) implies s1.contains_key(
        x,
    ) && s1[x] == s0[x] && u1.contains(x) && x != id && !node.children.contains(x) by {
        assert(absent(s0, c, hc, x));
        if node.children.contains(x) {
            let m = choose|m: int| 0 <= m < node.children.len() && node.children[m] == x;
            assert(absent(s0, node.children[m], hc, x));
        }
    }
}

/// The only child of a loose root without a key is the root of a B+ tree
/// over all keys, also after the page of the root was given back; a search
/// from it comes to what it came to from the root.
pub proof fn lemma_collapse(
    s: Store,
    u: Set<PageId>,
    node: IndexPageView,
    id: PageId,
    h: nat,
    limits: Limits,
    s2: Store,
    u2: Set<PageId>,
)
    requires
        limits.ok(),
        h > 0,
        loose(s, u, node, id, h, None, None, limits),
        node.keys.len() == 0,
        forall|x: PageId| #[trigger] u2.contains(x) == (u.contains(x) && x != id),
        forall|x: PageId| x != id ==> (#[trigger] s2.contains_key(x)) == s.contains_key(x),
        forall|x: PageId| x != id && s.contains_key(x) ==> #[trigger] s2[x] == s[x],
    ensures
        subtree_ok(s2, u2, node.children[0], (h - 1) as nat, None, None, limits, true),
        forall|k: i64|
            #[trigger] lookup(s2, node.children[0], (h - 1) as nat, k)
                == lookup_from(s, node, h, k),
        first_leaf(s2, node.children[0], (h - 1) as nat) == first_leaf_from(s, node, h),
        forall|e: Option<PageId>|
            #[trigger] linked(s2, node.children[0], (h - 1) as nat, e)
                == linked_from(s, node, h, e),
{
    let c = node.children[0];
    let hc = (h - 1) as nat;
    assert(subtree_ok(s, u, c, hc, child_lo(node, 0, None), child_hi(node, 0, None), limits,
        false));
    assert(absent(s, c, hc, id));
    assert forall|x: PageId| !(#[trigger] absent(s, c, hc, x)) implies s2.contains_key(x) && s2[x]
        == s[x] && u2.contains(x) by {
        lemma_member(s, u, c, hc, None, None, limits, false, x);
    }
    lemma_agree(s, u, s2, u2, c, hc, None, None, limits, false);
    lemma_as_root(s2, u2, c, hc, None, None, limits);
    assert forall|e: Option<PageId>| #[trigger]
        linked(s2, c, hc, e) == linked_from(s, node, h, e) by {
        reveal(linked_from);
        assert(exit_of(s, node, 0, h, e) == e);
        assert(linked(s2, c, hc, e) == linked(s, c, hc, e));
    }
    assert forall|k: i64| #[trigger] lookup(s2, c, hc, k) == lookup_from(s, node, h, k) by {
        lemma_first_above_is(node.keys, k, 0);
    }
}

/// A B+ tree whose root has keys enough for any node is a B+ tree as a whole.
pub proof fn lemma_as_root(
    s: Store,
    u: Set<PageId>,
    id: PageId,
    h: nat,
    lo: Option<i64>,
    hi: Option<i64>,
    limits: Limits,
)
    requires
        subtree_ok(s, u, id, h, lo, hi, limits, false),
    ensures
        subtree_ok(s, u, id, h, lo, hi, limits, true),
{
}

} // verus!
