use crate::storage::page::index_page::{IndexPageView, IndexType};
use crate::storage::split::store_after_split;
use crate::storage::tree_model::{
    absent, apart, apart_from, child_hi, child_lo, kept_below, kids_gone, lemma_after_child,
    lemma_agree, lemma_children_keep, lemma_fresh_absent, lemma_member, ready, subtree_ok,
    two_apart, Limits, Store,
};
use crate::types::PageId;
use vstd::prelude::*;

verus! {

/// A tree whose nodes a store holds as another store does, in which no
/// page is a node below two children of one node, is such a tree in the
/// other store too.
pub proof fn lemma_apart_keep(
    s: Store,
    u: Set<PageId>,
    s2: Store,
    u2: Set<PageId>,
    id: PageId,
    h: nat,
    lo: Option<i64>,
    hi: Option<i64>,
    limits: Limits,
    is_root: bool,
)
    requires
        subtree_ok(s, u, id, h, lo, hi, limits, is_root),
        forall|x: PageId|
            !(#[trigger] absent(s, id, h, x)) ==> s2.contains_key(x) && s2[x] == s[x]
                && u2.contains(x),
        apart(s, id, h),
    ensures
        apart(s2, id, h),
    decreases h,
{
    reveal(apart);
    assert(!absent(s, id, h, id));
    if h > 0 {
        let node = s[id];
        let hc = (h - 1) as nat;
        assert(s2[id] == node);
        assert(node.children.len() == node.keys.len() + 1);
        assert forall|i: int| 0 <= i <= node.keys.len() implies apart(
            s2,
            #[trigger] node.children[i],
            hc,
        ) && (forall|x: PageId|
            #[trigger] absent(s2, node.children[i], hc, x)
                == absent(s, node.children[i], hc, x)) by {
            let c = node.children[i];
            assert(subtree_ok(s, u, c, hc, child_lo(node, i, lo), child_hi(node, i, hi), limits,
                false));
            assert forall|x: PageId| !(#[trigger] absent(s, c, hc, x)) implies s2.contains_key(x)
                && s2[x] == s[x] && u2.contains(x) by {
                if absent(s, id, h, x) {
                    assert(absent(s, node.children[i], hc, x));
                }
            }
            lemma_agree(s, u, s2, u2, c, hc, child_lo(node, i, lo), child_hi(node, i, hi), limits,
                false);
            lemma_apart_keep(
                s,
                u,
                s2,
                u2,
                c,
                hc,
                child_lo(node, i, lo),
                child_hi(node, i, hi),
                limits,
                false,
            );
        }
        assert forall|i: int, j: int| 0 <= i < j <= node.keys.len() implies #[trigger] two_apart(
            s2,
            node.children[i],
            node.children[j],
            hc,
        ) by {
            assert(two_apart(s, node.children[i], node.children[j], hc));
            let a = node.children[i];
            let b = node.children[j];
            assert forall|x: PageId| absent(s2, a, hc, x) || absent(s2, b, hc, x) by {
                assert(absent(s2, a, hc, x) == absent(s, a, hc, x));
                assert(absent(s2, b, hc, x) == absent(s, b, hc, x));
                assert(absent(s, a, hc, x) || absent(s, b, hc, x));
            }
        }
    }
}

/// Every node that the tree from `a` down has in the store `s1` and that
/// was in use before is a node that the tree from `b` down had in the
/// store `s0`.
pub open spec fn within(s0: Store, u0: Set<PageId>, s1: Store, a: PageId, b: PageId,
    h: nat) -> bool {
    forall|x: PageId| u0.contains(x) && !(#[trigger] absent(s1, a, h, x)) ==> !absent(s0, b, h, x)
}

/// Every node below a child of the node `node` in the store `s1` that was
/// in use before is a node that the tree from `b` down had in the store `s0`.
pub open spec fn within_kids(
    s0: Store,
    u0: Set<PageId>,
    s1: Store,
    node: IndexPageView,
    b: PageId,
    h: nat,
) -> bool {
    forall|x: PageId| u0.contains(x) && !(#[trigger] kids_gone(s1, node, h, x))
        ==> !absent(s0, b, h, x)
}

/// The page `x` is no node of what a node became: of the tree from `id`
/// down and, where the node was split, of the tree from its new sibling.
pub open spec fn gone_after(
    s: Store,
    id: PageId,
    h: nat,
    promoted: Option<(i64, PageId)>,
    x: PageId,
) -> bool {
    absent(s, id, h, x) && (promoted is Some ==> absent(s, promoted.unwrap().1, h, x))
}

/// No page is a node below two children of one node in what a node
/// became, nor a node of both the node and its new sibling.
pub open spec fn apart_after(s: Store, id: PageId, h: nat, promoted: Option<(i64,
    PageId)>) -> bool {
    &&& apart(s, id, h)
    &&& promoted is Some ==> apart(s, promoted.unwrap().1, h) && two_apart(
        s,
        id,
        promoted.unwrap().1,
        h,
    )
}

/// What an insertion below the node `id` leaves of the distinctness of
/// the nodes: no page is a node twice, and every node that was in use
/// before was a node of the tree from `id` down.
pub open spec fn grown_apart(
    s0: Store,
    u0: Set<PageId>,
    s1: Store,
    id: PageId,
    h: nat,
    promoted: Option<(i64, PageId)>,
) -> bool {
    &&& apart_after(s1, id, h, promoted)
    &&& forall|x: PageId|
        u0.contains(x) && !(#[trigger] gone_after(s1, id, h, promoted, x)) ==> !absent(s0, id, h, x)
}

/// What the writing of the node `node` leaves of the distinctness of the
/// nodes: no page is a node twice, and every node that was in use before
/// is the node or was a node below one of its children.
pub open spec fn settled_apart(
    s: Store,
    u: Set<PageId>,
    node: IndexPageView,
    h: nat,
    s2: Store,
    promoted: Option<(i64, PageId)>,
) -> bool {
    &&& apart_after(s2, node.id, h, promoted)
    &&& forall|x: PageId|
        u.contains(x) && !(#[trigger] gone_after(s2, node.id, h, promoted, x)) ==> x == node.id
            || !kids_gone(s, node, h, x)
}

/// A page that is in use and is no node below a child of a node that is
/// ready is the same below every child after a page that is no such node
/// was written.
pub proof fn lemma_kids_after_write(
    s: Store,
    u: Set<PageId>,
    node: IndexPageView,
    id: PageId,
    h: nat,
    lo: Option<i64>,
    hi: Option<i64>,
    limits: Limits,
    is_root: bool,
    y: PageId,
    v: IndexPageView,
)
    requires
        limits.ok(),
        h > 0,
        ready(s, u, node, id, h, lo, hi, limits, is_root),
        kids_gone(s, node, h, y),
        apart_from(s, node, h),
    ensures
        apart_from(s.insert(y, v), node, h),
        forall|m: int, x: PageId|
            0 <= m <= node.keys.len() ==> #[trigger] absent(
                s.insert(y, v),
                node.children[m],
                (h - 1) as nat,
                x,
            ) == absent(s, node.children[m], (h - 1) as nat, x),
{
    let s2 = s.insert(y, v);
    let hc = (h - 1) as nat;
    reveal(apart_from);
    lemma_children_keep(s, u, y, v, u, node, h, lo, hi, limits);
    assert forall|m: int| 0 <= m
        <= node.keys.len() implies apart(s2, #[trigger] node.children[m], hc) by {
        let c = node.children[m];
        assert(subtree_ok(s, u, c, hc, child_lo(node, m, lo), child_hi(node, m, hi), limits,
            false));
        assert forall|x: PageId| !(#[trigger] absent(s, c, hc, x)) implies s2.contains_key(x)
            && s2[x] == s[x] && u.contains(x) by {
            lemma_member(s, u, c, hc, child_lo(node, m, lo), child_hi(node, m, hi), limits, false,
                x);
            assert(absent(s, node.children[m], hc, y));
        }
        lemma_apart_keep(
            s,
            u,
            s2,
            u,
            c,
            hc,
            child_lo(node, m, lo),
            child_hi(node, m, hi),
            limits,
            false,
        );
    }
    assert forall|i: int, j: int| 0 <= i < j <= node.keys.len() implies #[trigger] two_apart(
        s2,
        node.children[i],
        node.children[j],
        hc,
    ) by {
        assert(two_apart(s, node.children[i], node.children[j], hc));
        let a = node.children[i];
        let b = node.children[j];
        assert forall|x: PageId| absent(s2, a, hc, x) || absent(s2, b, hc, x) by {
            assert(absent(s2, node.children[i], hc, x) == absent(s, node.children[i], hc, x));
            assert(absent(s2, node.children[j], hc, x) == absent(s, node.children[j], hc, x));
            assert(absent(s, a, hc, x) || absent(s, b, hc, x));
        }
    }
}

/// A node that is ready and holds no more keys than its maximum leaves,
/// written to its page, no page a node twice where none was below its
/// children; its nodes are itself and those below its children.
pub proof fn lemma_apart_install(
    s: Store,
    u: Set<PageId>,
    node: IndexPageView,
    id: PageId,
    h: nat,
    lo: Option<i64>,
    hi: Option<i64>,
    limits: Limits,
    is_root: bool,
)
    requires
        limits.ok(),
        ready(s, u, node, id, h, lo, hi, limits, is_root),
        apart_from(s, node, h),
    ensures
        settled_apart(s, u, node, h, s.insert(id, node), None),
{
    let s2 = s.insert(id, node);
    reveal(apart);
    reveal(apart_from);
    if h > 0 {
        lemma_kids_after_write(s, u, node, id, h, lo, hi, limits, is_root, id, node);
        assert(node.children.len() == node.keys.len() + 1);
        assert forall|x: PageId|
            u.contains(x) && !(#[trigger] gone_after(s2, node.id, h, None, x)) implies x == node.id
            || !kids_gone(s, node, h, x) by {
            if x != id && kids_gone(s, node, h, x) {
                assert forall|m: int| 0 <= m < s2[id].children.len() implies absent(
                    s2,
                    #[trigger] s2[id].children[m],
                    (h - 1) as nat,
                    x,
                ) by {
                    assert(absent(s2, node.children[m], (h - 1) as nat, x) == absent(
                        s,
                        node.children[m],
                        (h - 1) as nat,
                        x,
                    ));
                }
                assert(absent(s2, id, h, x));
            }
        }
    }
}

/// A node that is ready and holds one key more than its maximum leaves,
/// split in two, no page a node twice where none was below its children,
/// and no page a node of both halves; the nodes of the halves are the
/// node, the new page and those below the children.
pub proof fn lemma_apart_split(
    s: Store,
    u: Set<PageId>,
    node: IndexPageView,
    id: PageId,
    new_id: PageId,
    h: nat,
    lo: Option<i64>,
    hi: Option<i64>,
    limits: Limits,
    is_root: bool,
)
    requires
        limits.ok(),
        ready(s, u, node, id, h, lo, hi, limits, is_root),
        node.keys.len() >= 1,
        !u.contains(new_id),
        apart_from(s, node, h),
    ensures
        settled_apart(
            s,
            u,
            node,
            h,
            store_after_split(s, node, new_id),
            Some((node.keys[node.keys.len() as int / 2], new_id)),
        ),
{
    let empty = IndexPageView::empty(new_id, IndexType::Leaf);
    let left = node.split_left(new_id);
    let right = node.split_right(new_id);
    let s1 = s.insert(new_id, empty);
    let s2 = s1.insert(id, left);
    let s3 = s2.insert(new_id, right);
    let promoted = Some((node.keys[node.keys.len() as int / 2], new_id));
    assert(s3 == store_after_split(s, node, new_id));
    assert(id != new_id);
    reveal(apart);
    reveal(apart_from);
    if h > 0 {
        let hc = (h - 1) as nat;
        let mid = node.keys.len() as int / 2;
        assert(node.children.len() == node.keys.len() + 1);
        // the children hold what they held, in every store on the way
        assert forall|m: int| 0 <= m <= node.keys.len() implies apart(
            s3,
            #[trigger] node.children[m],
            hc,
        ) && (forall|x: PageId|
            #[trigger] absent(s3, node.children[m], hc, x)
                == absent(s, node.children[m], hc, x)) by {
            let c = node.children[m];
            assert(subtree_ok(s, u, c, hc, child_lo(node, m, lo), child_hi(node, m, hi), limits,
                false));
            lemma_fresh_absent(
                s,
                u,
                c,
                hc,
                child_lo(node, m, lo),
                child_hi(node, m, hi),
                limits,
                false,
                new_id,
            );
            assert(absent(s, node.children[m], hc, id));
            assert forall|x: PageId| !(#[trigger] absent(s, c, hc, x)) implies s3.contains_key(x)
                && s3[x] == s[x] && u.contains(x) by {
                lemma_member(s, u, c, hc, child_lo(node, m, lo), child_hi(node, m, hi), limits,
                    false, x);
            }
            lemma_agree(s, u, s3, u, c, hc, child_lo(node, m, lo), child_hi(node, m, hi), limits,
                false);
            lemma_apart_keep(s, u, s3, u, c, hc, child_lo(node, m, lo), child_hi(node, m, hi),
                limits, false);
        }
        assert(s3[id] == left);
        assert(s3[new_id] == right);
        assert forall|m: int| 0 <= m <= left.keys.len() implies left.children[m]
            == node.children[m] by {}
        assert forall|m: int| 0 <= m <= right.keys.len() implies right.children[m]
            == node.children[m + mid + 1] by {}
        assert(apart(s3, id, h)) by {
            assert forall|i: int, j: int| 0 <= i < j
                <= left.keys.len() implies #[trigger] two_apart(
                s3,
                left.children[i],
                left.children[j],
                hc,
            ) by {
                assert(two_apart(s, node.children[i], node.children[j], hc));
                assert forall|x: PageId| absent(s3, left.children[i], hc, x) || absent(
                    s3,
                    left.children[j],
                    hc,
                    x,
                ) by {
                    assert(absent(s3, node.children[i], hc, x)
                        == absent(s, node.children[i], hc, x));
                    assert(absent(s3, node.children[j], hc, x)
                        == absent(s, node.children[j], hc, x));
                    assert(absent(s, node.children[i], hc, x)
                        || absent(s, node.children[j], hc, x));
                }
            }
            assert forall|i: int| 0 <= i <= left.keys.len() implies apart(
                s3,
                #[trigger] left.children[i],
                hc,
            ) by {
                assert(apart(s3, node.children[i], hc));
            }
        }
        assert(apart(s3, new_id, h)) by {
            assert forall|i: int, j: int| 0 <= i < j
                <= right.keys.len() implies #[trigger] two_apart(
                s3,
                right.children[i],
                right.children[j],
                hc,
            ) by {
                let a = i + mid + 1;
                let b = j + mid + 1;
                assert(two_apart(s, node.children[a], node.children[b], hc));
                assert forall|x: PageId| absent(s3, right.children[i], hc, x) || absent(
                    s3,
                    right.children[j],
                    hc,
                    x,
                ) by {
                    assert(absent(s3, node.children[a], hc, x)
                        == absent(s, node.children[a], hc, x));
                    assert(absent(s3, node.children[b], hc, x)
                        == absent(s, node.children[b], hc, x));
                    assert(absent(s, node.children[a], hc, x)
                        || absent(s, node.children[b], hc, x));
                }
            }
            assert forall|i: int| 0 <= i <= right.keys.len() implies apart(
                s3,
                #[trigger] right.children[i],
                hc,
            ) by {
                assert(apart(s3, node.children[i + mid + 1], hc));
            }
        }
        assert forall|x: PageId| absent(s3, id, h, x) == (x != id && forall|m: int|
            0 <= m <= mid ==> absent(s, #[trigger] node.children[m], hc, x)) by {
            if x != id && forall|m: int| 0 <= m <= mid
                ==> absent(s, #[trigger] node.children[m], hc, x) {
                assert forall|m: int| 0 <= m < left.children.len() implies absent(
                    s3,
                    #[trigger] left.children[m],
                    hc,
                    x,
                ) by {
                    assert(absent(s3, node.children[m], hc, x)
                        == absent(s, node.children[m], hc, x));
                }
            }
            if absent(s3, id, h, x) {
                assert forall|m: int| 0 <= m
                    <= mid implies absent(s, #[trigger] node.children[m], hc, x) by {
                    assert(absent(s3, left.children[m], hc, x));
                    assert(absent(s3, node.children[m], hc, x)
                        == absent(s, node.children[m], hc, x));
                }
            }
        }
        assert forall|x: PageId| absent(s3, new_id, h, x) == (x != new_id && forall|m: int|
            mid < m <= node.keys.len() ==> absent(s, #[trigger] node.children[m], hc, x)) by {
            if x != new_id && forall|m: int|
                mid < m <= node.keys.len() ==> absent(s, #[trigger] node.children[m], hc, x) {
                assert forall|m: int| 0 <= m < right.children.len() implies absent(
                    s3,
                    #[trigger] right.children[m],
                    hc,
                    x,
                ) by {
                    let a = m + mid + 1;
                    assert(absent(s3, node.children[a], hc, x)
                        == absent(s, node.children[a], hc, x));
                }
            }
            if absent(s3, new_id, h, x) {
                assert forall|m: int| mid < m <= node.keys.len() implies absent(
                    s,
                    #[trigger] node.children[m],
                    hc,
                    x,
                ) by {
                    assert(absent(s3, right.children[m - mid - 1], hc, x));
                    assert(absent(s3, node.children[m], hc, x)
                        == absent(s, node.children[m], hc, x));
                }
            }
        }
        assert(two_apart(s3, id, new_id, h)) by {
            assert forall|x: PageId| absent(s3, id, h, x) || absent(s3, new_id, h, x) by {
                if !absent(s3, id, h, x) && !absent(s3, new_id, h, x) {
                    if x == id {
                        assert forall|m: int| mid < m <= node.keys.len() implies absent(
                            s,
                            #[trigger] node.children[m],
                            hc,
                            x,
                        ) by {}
                    } else if x == new_id {
                        assert forall|m: int| 0 <= m <= mid implies absent(
                            s,
                            #[trigger] node.children[m],
                            hc,
                            x,
                        ) by {
                            lemma_fresh_absent(
                                s,
                                u,
                                node.children[m],
                                hc,
                                child_lo(node, m, lo),
                                child_hi(node, m, hi),
                                limits,
                                false,
                                new_id,
                            );
                        }
                    } else {
                        let a = choose|m: int| 0 <= m <= mid
                            && !absent(s, #[trigger] node.children[m], hc, x);
                        let b = choose|m: int|
                            mid < m <= node.keys.len()
                                && !absent(s, #[trigger] node.children[m], hc, x);
                        assert(two_apart(s, node.children[a], node.children[b], hc));
                    }
                }
            }
        }
        assert forall|x: PageId|
            u.contains(x) && !(#[trigger] gone_after(s3, node.id, h, promoted, x)) implies x
            == node.id || !kids_gone(s, node, h, x) by {
            if x != id && kids_gone(s, node, h, x) {
                assert(x != new_id);
                assert forall|m: int| 0 <= m <= node.keys.len() implies absent(
                    s,
                    #[trigger] node.children[m],
                    hc,
                    x,
                ) by {}
                assert(absent(s3, id, h, x));
                assert(absent(s3, new_id, h, x));
            }
        }
    }
}

/// What an insertion or a deletion below a child of a node left of the
/// distinctness of the nodes holds of the node too, where the child was
/// not split.
pub proof fn lemma_grown_apart_none(
    s0: Store,
    u0: Set<PageId>,
    s1: Store,
    u1: Set<PageId>,
    id: PageId,
    h: nat,
    lo: Option<i64>,
    hi: Option<i64>,
    limits: Limits,
    is_root: bool,
    i: int,
)
    requires
        subtree_ok(s0, u0, id, h, lo, hi, limits, is_root),
        h > 0,
        limits.ok(),
        0 <= i <= s0[id].keys.len(),
        forall|x: PageId|
            u0.contains(x) && s0.contains_key(x) && #[trigger] absent(
                s0,
                s0[id].children[i],
                (h - 1) as nat,
                x,
            ) ==> s1.contains_key(x) && s1[x] == s0[x] && u1.contains(x),
        apart(s0, id, h),
        grown_apart(s0, u0, s1, s0[id].children[i], (h - 1) as nat, None),
    ensures
        grown_apart(s0, u0, s1, id, h, None),
{
    let node = s0[id];
    let hc = (h - 1) as nat;
    let ci = node.children[i];
    lemma_after_child(s0, u0, s1, u1, id, h, lo, hi, limits, is_root, i);
    reveal(apart);
    assert(node.children.len() == node.keys.len() + 1);
    assert forall|j: int| 0 <= j <= node.keys.len() && j != i implies apart(
        s1,
        #[trigger] node.children[j],
        hc,
    ) && (forall|x: PageId|
        #[trigger] absent(s1, node.children[j], hc, x) == absent(s0, node.children[j], hc, x)) by {
        let c = node.children[j];
        assert(kept_below(s0, u0, s1, u1, node.children[j], ci, hc));
        assert(subtree_ok(s0, u0, c, hc, child_lo(node, j, lo), child_hi(node, j, hi), limits,
            false));
        lemma_agree(s0, u0, s1, u1, c, hc, child_lo(node, j, lo), child_hi(node, j, hi), limits,
            false);
        lemma_apart_keep(s0, u0, s1, u1, c, hc, child_lo(node, j, lo), child_hi(node, j, hi),
            limits, false);
    }
    assert forall|a: int, b: int| 0 <= a < b <= node.keys.len() implies #[trigger] two_apart(
        s1,
        node.children[a],
        node.children[b],
        hc,
    ) by {
        assert(two_apart(s0, node.children[a], node.children[b], hc));
        assert forall|x: PageId| absent(s1, node.children[a], hc, x) || absent(
            s1,
            node.children[b],
            hc,
            x,
        ) by {
            if a != i && b != i {
                assert(absent(s1, node.children[a], hc, x) == absent(s0, node.children[a], hc, x));
                assert(absent(s1, node.children[b], hc, x) == absent(s0, node.children[b], hc, x));
                assert(absent(s0, node.children[a], hc, x) || absent(s0, node.children[b], hc, x));
            } else {
                let j = if a == i {
                    b
                } else {
                    a
                };
                assert(kept_below(s0, u0, s1, u1, node.children[j], ci, hc));
                if !absent(s1, node.children[j], hc, x) && !absent(s1, ci, hc, x) {
                    assert(absent(s1, node.children[j], hc, x)
                        == absent(s0, node.children[j], hc, x));
                    assert(!absent(s0, node.children[j], hc, x));
                    assert(u0.contains(x) && absent(s0, ci, hc, x));
                    assert(!gone_after(s1, ci, hc, None, x));
                }
            }
        }
    }
    assert(s1[id] == node);
    assert(apart(s1, id, h));
    assert forall|x: PageId|
        u0.contains(x)
            && !(#[trigger] gone_after(s1, id, h, None, x)) implies !absent(s0, id, h, x) by {
        if x != id {
            let m = choose|m: int|
                0 <= m < s1[id].children.len() && !absent(s1, #[trigger] s1[id].children[m], hc, x);
            if m == i {
                assert(!gone_after(s1, ci, hc, None, x));
                assert(!absent(s0, node.children[i], hc, x));
            } else {
                assert(absent(s1, node.children[m], hc, x) == absent(s0, node.children[m], hc, x));
                assert(!absent(s0, node.children[m], hc, x));
            }
        }
    }
}

/// What an insertion below a child of an internal node left of the
/// distinctness of the nodes holds of the node with the new sibling of
/// the child put into it, where the child was split.
pub proof fn lemma_grown_apart_some(
    s0: Store,
    u0: Set<PageId>,
    s1: Store,
    u1: Set<PageId>,
    id: PageId,
    h: nat,
    lo: Option<i64>,
    hi: Option<i64>,
    limits: Limits,
    is_root: bool,
    i: int,
    up: (i64, PageId),
    node2: IndexPageView,
)
    requires
        subtree_ok(s0, u0, id, h, lo, hi, limits, is_root),
        h > 0,
        limits.ok(),
        0 <= i <= s0[id].keys.len(),
        forall|x: PageId|
            u0.contains(x) && s0.contains_key(x) && #[trigger] absent(
                s0,
                s0[id].children[i],
                (h - 1) as nat,
                x,
            ) ==> s1.contains_key(x) && s1[x] == s0[x] && u1.contains(x),
        apart(s0, id, h),
        grown_apart(s0, u0, s1, s0[id].children[i], (h - 1) as nat, Some(up)),
        node2 == (IndexPageView {
            keys: s0[id].keys.insert(i, up.0),
            children: s0[id].children.insert(i + 1, up.1),
            ..s0[id]
        }),
    ensures
        apart_from(s1, node2, h),
        within_kids(s0, u0, s1, node2, id, h),
{
    let node = s0[id];
    let hc = (h - 1) as nat;
    let ci = node.children[i];
    let sib = up.1;
    let n = node.keys.len() as int;
    lemma_after_child(s0, u0, s1, u1, id, h, lo, hi, limits, is_root, i);
    reveal(apart);
    reveal(apart_from);
    assert(node.children.len() == n + 1);
    // where the child `m` of the new node comes from
    assert forall|m: int| 0 <= m <= node2.keys.len() implies #[trigger] node2.children[m] == (if m
        <= i {
        node.children[m]
    } else if m == i + 1 {
        sib
    } else {
        node.children[m - 1]
    }) by {}
    assert forall|j: int| 0 <= j <= n && j != i implies apart(s1, #[trigger] node.children[j], hc)
        && (forall|x: PageId|
        #[trigger] absent(s1, node.children[j], hc, x) == absent(s0, node.children[j], hc, x)) by {
        let c = node.children[j];
        assert(kept_below(s0, u0, s1, u1, node.children[j], ci, hc));
        assert(subtree_ok(s0, u0, c, hc, child_lo(node, j, lo), child_hi(node, j, hi), limits,
            false));
        lemma_agree(s0, u0, s1, u1, c, hc, child_lo(node, j, lo), child_hi(node, j, hi), limits,
            false);
        lemma_apart_keep(s0, u0, s1, u1, c, hc, child_lo(node, j, lo), child_hi(node, j, hi),
            limits, false);
    }
    // a node below the child or its sibling is no node below another child
    assert forall|j: int, x: PageId|
        0 <= j <= n && j != i
            && !absent(s1, #[trigger] node.children[j], hc, x) implies #[trigger] gone_after(
        s1,
        ci,
        hc,
        Some(up),
        x,
    ) by {
        assert(kept_below(s0, u0, s1, u1, node.children[j], ci, hc));
        assert(absent(s1, node.children[j], hc, x) == absent(s0, node.children[j], hc, x));
        assert(!absent(s0, node.children[j], hc, x));
        assert(u0.contains(x) && absent(s0, ci, hc, x));
    }
    assert forall|m: int| 0 <= m
        <= node2.keys.len() implies apart(s1, #[trigger] node2.children[m], hc) by {
        if m <= i {
            assert(node2.children[m] == node.children[m]);
        } else if m == i + 1 {
            assert(node2.children[m] == sib);
        } else {
            assert(node2.children[m] == node.children[m - 1]);
            assert(apart(s1, node.children[m - 1], hc));
        }
    }
    assert forall|a: int, b: int| 0 <= a < b <= node2.keys.len() implies #[trigger] two_apart(
        s1,
        node2.children[a],
        node2.children[b],
        hc,
    ) by {
        let a0 = if a <= i {
            a
        } else {
            a - 1
        };
        let b0 = if b <= i {
            b
        } else {
            b - 1
        };
        assert forall|x: PageId| absent(s1, node2.children[a], hc, x) || absent(
            s1,
            node2.children[b],
            hc,
            x,
        ) by {
            if !absent(s1, node2.children[a], hc, x) && !absent(s1, node2.children[b], hc, x) {
                let a_new = a == i || a == i + 1;
                let b_new = b == i || b == i + 1;
                if a_new && b_new {
                    assert(node2.children[a] == ci && node2.children[b] == sib);
                    assert(two_apart(s1, ci, sib, hc));
                } else if a_new {
                    assert(node2.children[b] == node.children[b0]);
                    assert(b0 != i);
                    assert(gone_after(s1, ci, hc, Some(up), x));
                } else if b_new {
                    assert(node2.children[a] == node.children[a0]);
                    assert(a0 != i);
                    assert(gone_after(s1, ci, hc, Some(up), x));
                } else {
                    assert(node2.children[a] == node.children[a0]);
                    assert(node2.children[b] == node.children[b0]);
                    assert(a0 < b0);
                    assert(two_apart(s0, node.children[a0], node.children[b0], hc));
                    assert(absent(s1, node.children[a0], hc, x)
                        == absent(s0, node.children[a0], hc, x));
                    assert(absent(s1, node.children[b0], hc, x)
                        == absent(s0, node.children[b0], hc, x));
                }
            }
        }
    }
    assert forall|x: PageId|
        u0.contains(x)
            && !(#[trigger] kids_gone(s1, node2, h, x)) implies !absent(s0, id, h, x) by {
        let m = choose|m: int| 0 <= m <= node2.keys.len()
            && !absent(s1, #[trigger] node2.children[m], hc, x);
        if m == i || m == i + 1 {
            assert(node2.children[i] == ci && node2.children[i + 1] == sib);
            assert(!gone_after(s1, ci, hc, Some(up), x));
            assert(!absent(s0, node.children[i], hc, x));
        } else {
            let m0 = if m <= i {
                m
            } else {
                m - 1
            };
            assert(node2.children[m] == node.children[m0]);
            assert(absent(s1, node.children[m0], hc, x) == absent(s0, node.children[m0], hc, x));
            assert(!absent(s0, node.children[m0], hc, x));
        }
    }
}

/// What the writing of a node left of the distinctness of the nodes is
/// what the insertion left of it, where the nodes below the children of the
/// node were nodes of the tree before.
pub proof fn lemma_grown_apart_settled(
    s0: Store,
    u0: Set<PageId>,
    s1: Store,
    u1: Set<PageId>,
    s2: Store,
    id: PageId,
    h: nat,
    node: IndexPageView,
    promoted: Option<(i64, PageId)>,
)
    requires
        node.id == id,
        forall|x: PageId| u0.contains(x) ==> u1.contains(x),
        within_kids(s0, u0, s1, node, id, h),
        settled_apart(s1, u1, node, h, s2, promoted),
    ensures
        grown_apart(s0, u0, s2, id, h, promoted),
{
    assert forall|x: PageId|
        u0.contains(x) && !(#[trigger] gone_after(s2, id, h, promoted, x)) implies !absent(
        s0,
        id,
        h,
        x,
    ) by {
        assert(u1.contains(x));
        if x != id {
            assert(!kids_gone(s1, node, h, x));
        }
    }
}

/// A new root over a root that was split and its new sibling leaves no
/// page a node twice, where none was in the two and none was a node of both.
pub proof fn lemma_apart_root(
    s1: Store,
    u1: Set<PageId>,
    u2: Set<PageId>,
    root: PageId,
    sib: PageId,
    sep: i64,
    h: nat,
    limits: Limits,
    top: IndexPageView,
)
    requires
        limits.ok(),
        subtree_ok(s1, u1, root, h, None, Some(sep), limits, false),
        subtree_ok(s1, u1, sib, h, Some(sep), None, limits, false),
        !u1.contains(top.id),
        forall|x: PageId| u1.contains(x) ==> u2.contains(x),
        top.keys.len() == 1,
        top.children == seq![root, sib],
        apart_after(s1, root, h, Some((sep, sib))),
    ensures
        apart(s1.insert(top.id, top), top.id, h + 1),
{
    let s3 = s1.insert(top.id, top);
    reveal(apart);
    lemma_fresh_absent(s1, u1, root, h, None, Some(sep), limits, false, top.id);
    lemma_fresh_absent(s1, u1, sib, h, Some(sep), None, limits, false, top.id);
    assert forall|x: PageId| !(#[trigger] absent(s1, root, h, x)) implies s3.contains_key(x)
        && s3[x] == s1[x] && u2.contains(x) by {
        lemma_member(s1, u1, root, h, None, Some(sep), limits, false, x);
    }
    assert forall|x: PageId| !(#[trigger] absent(s1, sib, h, x)) implies s3.contains_key(x)
        && s3[x] == s1[x] && u2.contains(x) by {
        lemma_member(s1, u1, sib, h, Some(sep), None, limits, false, x);
    }
    lemma_agree(s1, u1, s3, u2, root, h, None, Some(sep), limits, false);
    lemma_agree(s1, u1, s3, u2, sib, h, Some(sep), None, limits, false);
    lemma_apart_keep(s1, u1, s3, u2, root, h, None, Some(sep), limits, false);
    lemma_apart_keep(s1, u1, s3, u2, sib, h, Some(sep), None, limits, false);
    assert(s3[top.id] == top);
    assert(top.children[0] == root && top.children[1] == sib);
    assert forall|i: int| 0 <= i
        <= top.keys.len() implies apart(s3, #[trigger] top.children[i], h) by {
        if i == 0 {
        } else {
            assert(i == 1);
        }
    }
    assert forall|a: int, b: int| 0 <= a < b <= top.keys.len() implies #[trigger] two_apart(
        s3,
        top.children[a],
        top.children[b],
        h,
    ) by {
        assert(a == 0 && b == 1);
        assert(two_apart(s1, root, sib, h));
        assert forall|x: PageId| absent(s3, root, h, x) || absent(s3, sib, h, x) by {
            assert(absent(s3, root, h, x) == absent(s1, root, h, x));
            assert(absent(s3, sib, h, x) == absent(s1, sib, h, x));
            assert(absent(s1, root, h, x) || absent(s1, sib, h, x));
        }
    }
}

} // verus!
