use crate::storage::page::index_page::{IndexPageView, IndexType};
use crate::storage::rebalance::merged_node;
use crate::storage::tree_model::{
    absent, exit_of, first_leaf, first_leaf_from, lemma_after_child, linked, linked_from,
    subtree_ok, told_apart, Limits, Store,
};
use crate::types::PageId;
use vstd::prelude::*;

verus! {

/// The node `v`, written to its page, has below it in the store `s2` the
/// leaves that it had below it in the store `s`, chained in the same way.
pub open spec fn node_installed(s: Store, s2: Store, v: IndexPageView, h: nat) -> bool {
    &&& first_leaf(s2, v.id, h) == first_leaf_from(s, v, h)
    &&& forall|e: Option<PageId>| #[trigger] linked(s2, v.id, h, e) == linked_from(s, v, h, e)
}

/// The children of `node` other than `a` and `a + 1` have below them in
/// the store `s2` the leaves that they had below them in the store `s`,
/// chained in the same way.
pub open spec fn others_kept(s: Store, s2: Store, node: IndexPageView, hc: nat, a: int) -> bool {
    &&& forall|m: int|
        0 <= m <= node.keys.len() && m != a && m != a + 1 ==> #[trigger] first_leaf(
            s2,
            node.children[m],
            hc,
        ) == first_leaf(s, node.children[m], hc)
    &&& forall|m: int, e: Option<PageId>|
        0 <= m <= node.keys.len() && m != a && m != a + 1 ==> #[trigger] linked(
            s2,
            node.children[m],
            hc,
            e,
        ) == linked(s, node.children[m], hc, e)
}

/// The first leaf below child `m` of `node`, where the children `a` and
/// `a + 1` are the nodes `left` and `right`, not yet in the store.
pub open spec fn first_at(
    s: Store,
    node: IndexPageView,
    hc: nat,
    m: int,
    a: int,
    left: IndexPageView,
    right: IndexPageView,
) -> PageId {
    if m == a {
        first_leaf_from(s, left, hc)
    } else if m == a + 1 {
        first_leaf_from(s, right, hc)
    } else {
        first_leaf(s, node.children[m], hc)
    }
}

/// Where the last leaf below child `m` of `node` points to, where the
/// children `a` and `a + 1` are the nodes `left` and `right`.
pub open spec fn exit_at(
    s: Store,
    node: IndexPageView,
    hc: nat,
    m: int,
    a: int,
    left: IndexPageView,
    right: IndexPageView,
    exit: Option<PageId>,
) -> Option<PageId> {
    if m == node.keys.len() {
        exit
    } else {
        Some(first_at(s, node, hc, m + 1, a, left, right))
    }
}

/// The leaves below a node of height `h` are chained up to `exit`, where
/// its children `a` and `a + 1` are the nodes `left` and `right`, not yet
/// in the store.
#[verifier::opaque]
pub open spec fn pair_chain(
    s: Store,
    node: IndexPageView,
    h: nat,
    exit: Option<PageId>,
    a: int,
    left: IndexPageView,
    right: IndexPageView,
) -> bool {
    let hc = (h - 1) as nat;
    &&& forall|m: int|
        0 <= m <= node.keys.len() && m != a && m != a + 1 ==> linked(
            s,
            #[trigger] node.children[m],
            hc,
            exit_at(s, node, hc, m, a, left, right, exit),
        )
    &&& linked_from(s, left, hc, exit_at(s, node, hc, a, a, left, right, exit))
    &&& linked_from(s, right, hc, exit_at(s, node, hc, a + 1, a, left, right, exit))
}

/// The first leaf below child `m` of `node`, where the child `i` is the
/// node `child`, not yet in the store.
pub open spec fn first_with(
    s: Store,
    node: IndexPageView,
    hc: nat,
    m: int,
    i: int,
    child: IndexPageView,
) -> PageId {
    if m == i {
        first_leaf_from(s, child, hc)
    } else {
        first_leaf(s, node.children[m], hc)
    }
}

/// Where the last leaf below child `m` of `node` points to, where the
/// child `i` is the node `child`.
pub open spec fn exit_with(
    s: Store,
    node: IndexPageView,
    hc: nat,
    m: int,
    i: int,
    child: IndexPageView,
    exit: Option<PageId>,
) -> Option<PageId> {
    if m == node.keys.len() {
        exit
    } else {
        Some(first_with(s, node, hc, m + 1, i, child))
    }
}

/// The leaves below a node of height `h` are chained up to `exit`, where
/// its child `i` is the node `child`, not yet in the store.
#[verifier::opaque]
pub open spec fn pending_chain(
    s: Store,
    node: IndexPageView,
    h: nat,
    exit: Option<PageId>,
    i: int,
    child: IndexPageView,
) -> bool {
    let hc = (h - 1) as nat;
    &&& forall|m: int|
        0 <= m <= node.keys.len() && m != i ==> linked(
            s,
            #[trigger] node.children[m],
            hc,
            exit_with(s, node, hc, m, i, child, exit),
        )
    &&& linked_from(s, child, hc, exit_with(s, node, hc, i, i, child, exit))
}

/// After a deletion below child `i` of a node of a B+ tree that left the
/// child as the node `child`, not yet written, the leaves below the node
/// are chained as before, if those below the child are and still begin
/// with the same leaf.
pub proof fn lemma_chain_pending(
    s0: Store,
    u0: Set<PageId>,
    s1: Store,
    u1: Set<PageId>,
    id: PageId,
    h: nat,
    lo: Option<i64>,
    hi: Option<i64>,
    limits: Limits,
    is_root: bool,
    i: int,
    exit: Option<PageId>,
    child: IndexPageView,
)
    requires
        subtree_ok(s0, u0, id, h, lo, hi, limits, is_root),
        h > 0,
        limits.ok(),
        told_apart(limits, s0, id, h),
        0 <= i <= s0[id].keys.len(),
        forall|x: PageId|
            u0.contains(x) && s0.contains_key(x) && #[trigger] absent(
                s0,
                s0[id].children[i],
                (h - 1) as nat,
                x,
            ) ==> s1.contains_key(x) && s1[x] == s0[x] && u1.contains(x),
        linked(s0, id, h, exit),
        first_leaf_from(s1, child, (h - 1) as nat) == first_leaf(
            s0,
            s0[id].children[i],
            (h - 1) as nat,
        ),
        linked_from(s1, child, (h - 1) as nat, exit_of(s0, s0[id], i, h, exit)),
    ensures
        pending_chain(s1, s0[id], h, exit, i, child),
        first_with(s1, s0[id], (h - 1) as nat, 0, i, child) == first_leaf(s0, id, h),
{
    let node = s0[id];
    let hc = (h - 1) as nat;
    lemma_after_child(s0, u0, s1, u1, id, h, lo, hi, limits, is_root, i);
    reveal(linked);
    reveal(pending_chain);
    assert forall|m: int| 0 <= m <= node.keys.len() implies exit_with(
        s1,
        node,
        hc,
        m,
        i,
        child,
        exit,
    ) == exit_of(s0, node, m, h, exit) by {
        if m < node.keys.len() && m + 1 != i {
            assert(first_leaf(s1, node.children[m + 1], hc) == first_leaf(
                s0,
                node.children[m + 1],
                hc,
            ));
        }
    }
    assert forall|m: int| 0 <= m <= node.keys.len() && m != i implies linked(
        s1,
        #[trigger] node.children[m],
        hc,
        exit_with(s1, node, hc, m, i, child, exit),
    ) by {
        assert(linked(s0, node.children[m], hc, exit_of(s0, node, m, h, exit)));
    }
    if i != 0 {
        assert(first_leaf(s1, node.children[0], hc) == first_leaf(s0, node.children[0], hc));
    }
}

/// The state of the chain before a rebalance: the child that came back
/// from a deletion and its left or right sibling, as the store holds it.
pub proof fn lemma_chain_pair(
    s: Store,
    node: IndexPageView,
    h: nat,
    exit: Option<PageId>,
    i: int,
    child: IndexPageView,
    with_left: bool,
)
    requires
        h > 0,
        0 <= i <= node.keys.len(),
        pending_chain(s, node, h, exit, i, child),
        with_left ==> i > 0 && s[node.children[i - 1]].id == node.children[i - 1],
        !with_left ==> i < node.keys.len() && s[node.children[i + 1]].id == node.children[i + 1],
    ensures
        with_left ==> pair_chain(s, node, h, exit, i - 1, s[node.children[i - 1]], child)
            && first_at(s, node, (h - 1) as nat, 0, i - 1, s[node.children[i - 1]], child)
            == first_with(s, node, (h - 1) as nat, 0, i, child),
        !with_left ==> pair_chain(s, node, h, exit, i, child, s[node.children[i + 1]]) && first_at(
            s,
            node,
            (h - 1) as nat,
            0,
            i,
            child,
            s[node.children[i + 1]],
        ) == first_with(s, node, (h - 1) as nat, 0, i, child),
{
    let hc = (h - 1) as nat;
    reveal(linked);
    reveal(linked_from);
    reveal(pending_chain);
    reveal(pair_chain);
    if with_left {
        let c = node.children[i - 1];
        let left = s[c];
        assert(first_leaf_from(s, left, hc) == first_leaf(s, c, hc));
        assert forall|m: int| 0 <= m <= node.keys.len() implies exit_at(
            s,
            node,
            hc,
            m,
            i - 1,
            left,
            child,
            exit,
        ) == exit_with(s, node, hc, m, i, child, exit) by {}
        assert(linked(s, node.children[i - 1], hc, exit_with(s, node, hc, i - 1, i, child, exit)));
        assert(linked_from(s, left, hc, exit_with(s, node, hc, i - 1, i, child, exit)));
    } else {
        let c = node.children[i + 1];
        let right = s[c];
        assert(first_leaf_from(s, right, hc) == first_leaf(s, c, hc));
        assert forall|m: int| 0 <= m <= node.keys.len() implies exit_at(
            s,
            node,
            hc,
            m,
            i,
            child,
            right,
            exit,
        ) == exit_with(s, node, hc, m, i, child, exit) by {}
        assert(linked(s, node.children[i + 1], hc, exit_with(s, node, hc, i + 1, i, child, exit)));
        assert(linked_from(s, right, hc, exit_with(s, node, hc, i + 1, i, child, exit)));
    }
}

/// The leaves below two nodes side by side are chained as before after
/// one of the two gave an entry to the other, and begin with the same leaf.
pub proof fn lemma_chain_exchange(
    s: Store,
    left: IndexPageView,
    right: IndexPageView,
    sep: i64,
    from_left: bool,
    hc: nat,
    exit: Option<PageId>,
)
    requires
        left.aligned(),
        right.aligned(),
        left.page_type == right.page_type,
        hc > 0 ==> left.page_type == IndexType::Internal,
        hc == 0 ==> left.page_type == IndexType::Leaf,
        if from_left {
            left.keys.len() >= 1
        } else {
            right.keys.len() >= 1
        },
        linked_from(s, left, hc, Some(first_leaf_from(s, right, hc))),
        linked_from(s, right, hc, exit),
    ensures
        ({
            let left2 = if from_left {
                left.lent(true)
            } else {
                left.borrowed(right, sep, false)
            };
            let right2 = if from_left {
                right.borrowed(left, sep, true)
            } else {
                right.lent(false)
            };
            &&& first_leaf_from(s, left2, hc) == first_leaf_from(s, left, hc)
            &&& linked_from(s, left2, hc, Some(first_leaf_from(s, right2, hc)))
            &&& linked_from(s, right2, hc, exit)
        }),
{
    reveal(linked_from);
    let left2 = if from_left {
        left.lent(true)
    } else {
        left.borrowed(right, sep, false)
    };
    let right2 = if from_left {
        right.borrowed(left, sep, true)
    } else {
        right.lent(false)
    };
    if hc > 0 {
        let hg = (hc - 1) as nat;
        let p = left.keys.len() as int;
        let q = right.keys.len() as int;
        let e0 = Some(first_leaf_from(s, right, hc));
        let e2 = Some(first_leaf_from(s, right2, hc));
        assert(left.children.len() == p + 1);
        assert(right.children.len() == q + 1);
        assert(left2.children[0] == left.children[0]);
        if from_left {
            assert(right2.children[0] == left.children[p]);
            assert forall|j: int| 0 <= j <= left2.keys.len() implies linked(
                s,
                #[trigger] left2.children[j],
                hg,
                exit_of(s, left2, j, hc, e2),
            ) by {
                assert(left2.children[j] == left.children[j]);
                if j < left2.keys.len() {
                    assert(left2.children[j + 1] == left.children[j + 1]);
                }
                assert(exit_of(s, left2, j, hc, e2) == exit_of(s, left, j, hc, e0));
            }
            assert forall|j: int| 0 <= j <= right2.keys.len() implies linked(
                s,
                #[trigger] right2.children[j],
                hg,
                exit_of(s, right2, j, hc, exit),
            ) by {
                if j == 0 {
                    assert(right2.children[1] == right.children[0]);
                    assert(exit_of(s, right2, 0, hc, exit) == exit_of(s, left, p, hc, e0));
                    assert(linked(s, left.children[p], hg, exit_of(s, left, p, hc, e0)));
                } else {
                    assert(right2.children[j] == right.children[j - 1]);
                    if j < right2.keys.len() {
                        assert(right2.children[j + 1] == right.children[j]);
                    }
                    assert(exit_of(s, right2, j, hc, exit) == exit_of(s, right, j - 1, hc, exit));
                    assert(linked(s, right.children[j - 1], hg, exit_of(s, right, j
                        - 1, hc, exit)));
                }
            }
        } else {
            assert(right2.children[0] == right.children[1]);
            assert forall|j: int| 0 <= j <= left2.keys.len() implies linked(
                s,
                #[trigger] left2.children[j],
                hg,
                exit_of(s, left2, j, hc, e2),
            ) by {
                if j <= p {
                    assert(left2.children[j] == left.children[j]);
                    if j < p {
                        assert(left2.children[j + 1] == left.children[j + 1]);
                    } else {
                        assert(left2.children[p + 1] == right.children[0]);
                    }
                    assert(exit_of(s, left2, j, hc, e2) == exit_of(s, left, j, hc, e0));
                    assert(linked(s, left.children[j], hg, exit_of(s, left, j, hc, e0)));
                } else {
                    assert(left2.children[j] == right.children[0]);
                    assert(exit_of(s, left2, j, hc, e2) == exit_of(s, right, 0, hc, exit));
                    assert(linked(s, right.children[0], hg, exit_of(s, right, 0, hc, exit)));
                }
            }
            assert forall|j: int| 0 <= j <= right2.keys.len() implies linked(
                s,
                #[trigger] right2.children[j],
                hg,
                exit_of(s, right2, j, hc, exit),
            ) by {
                assert(right2.children[j] == right.children[j + 1]);
                if j < right2.keys.len() {
                    assert(right2.children[j + 1] == right.children[j + 2]);
                }
                assert(exit_of(s, right2, j, hc, exit) == exit_of(s, right, j + 1, hc, exit));
                assert(linked(s, right.children[j + 1], hg, exit_of(s, right, j + 1, hc, exit)));
            }
        }
    }
}

/// The leaves below the node that two nodes side by side are merged into
/// are chained as those below the two were, and begin with the same leaf.
pub proof fn lemma_chain_merged(
    s: Store,
    left: IndexPageView,
    right: IndexPageView,
    sep: i64,
    hc: nat,
    exit: Option<PageId>,
)
    requires
        left.aligned(),
        right.aligned(),
        left.page_type == right.page_type,
        hc > 0 ==> left.page_type == IndexType::Internal,
        hc == 0 ==> left.page_type == IndexType::Leaf,
        linked_from(s, left, hc, Some(first_leaf_from(s, right, hc))),
        linked_from(s, right, hc, exit),
    ensures
        first_leaf_from(s, merged_node(left, right, sep, hc), hc) == first_leaf_from(s, left, hc),
        linked_from(s, merged_node(left, right, sep, hc), hc, exit),
{
    reveal(linked_from);
    let merged = merged_node(left, right, sep, hc);
    if hc > 0 {
        let hg = (hc - 1) as nat;
        let p = left.keys.len() as int;
        let q = right.keys.len() as int;
        let e0 = Some(first_leaf_from(s, right, hc));
        assert(left.children.len() == p + 1);
        assert(right.children.len() == q + 1);
        assert(merged.keys.len() == p + 1 + q);
        assert(merged.children[0] == left.children[0]);
        assert forall|j: int| 0 <= j <= merged.keys.len() implies linked(
            s,
            #[trigger] merged.children[j],
            hg,
            exit_of(s, merged, j, hc, exit),
        ) by {
            if j <= p {
                assert(merged.children[j] == left.children[j]);
                if j < p {
                    assert(merged.children[j + 1] == left.children[j + 1]);
                } else {
                    assert(merged.children[p + 1] == right.children[0]);
                }
                assert(exit_of(s, merged, j, hc, exit) == exit_of(s, left, j, hc, e0));
                assert(linked(s, left.children[j], hg, exit_of(s, left, j, hc, e0)));
            } else {
                let r = j - p - 1;
                assert(merged.children[j] == right.children[r]);
                if r < q {
                    assert(merged.children[j + 1] == right.children[r + 1]);
                }
                assert(exit_of(s, merged, j, hc, exit) == exit_of(s, right, r, hc, exit));
                assert(linked(s, right.children[r], hg, exit_of(s, right, r, hc, exit)));
            }
        }
    }
}

/// The leaves below an internal node are chained as before after two of
/// its children side by side exchanged an entry and were written to their
/// pages, with the new key between the two in the place of the old one.
pub proof fn lemma_chain_borrow(
    s: Store,
    s3: Store,
    node: IndexPageView,
    h: nat,
    exit: Option<PageId>,
    a: int,
    left: IndexPageView,
    right: IndexPageView,
    left2: IndexPageView,
    right2: IndexPageView,
    sep: i64,
    sep2: i64,
    from_left: bool,
)
    requires
        h > 0,
        node.children.len() == node.keys.len() + 1,
        0 <= a < node.keys.len(),
        pair_chain(s, node, h, exit, a, left, right),
        left.id == node.children[a],
        right.id == node.children[a + 1],
        left.aligned(),
        right.aligned(),
        left.page_type == right.page_type,
        h > 1 ==> left.page_type == IndexType::Internal,
        h == 1 ==> left.page_type == IndexType::Leaf,
        if from_left {
            left.keys.len() >= 1
        } else {
            right.keys.len() >= 1
        },
        left2 == (if from_left {
            left.lent(true)
        } else {
            left.borrowed(right, sep, false)
        }),
        right2 == (if from_left {
            right.borrowed(left, sep, true)
        } else {
            right.lent(false)
        }),
        node_installed(s, s3, left2, (h - 1) as nat),
        node_installed(s, s3, right2, (h - 1) as nat),
        others_kept(s, s3, node, (h - 1) as nat, a),
    ensures
        linked_from(s3, (IndexPageView { keys: node.keys.update(a, sep2), ..node }), h, exit),
        first_leaf_from(s3, (IndexPageView { keys: node.keys.update(a, sep2), ..node }), h)
            == first_at(s, node, (h - 1) as nat, 0, a, left, right),
{
    let hc = (h - 1) as nat;
    let n = node.keys.len() as int;
    let node2 = IndexPageView { keys: node.keys.update(a, sep2), ..node };
    let er = exit_at(s, node, hc, a + 1, a, left, right, exit);
    reveal(pair_chain);
    lemma_chain_exchange(s, left, right, sep, from_left, hc, er);
    assert(left2.id == left.id && right2.id == right.id);
    reveal(linked_from);
    assert forall|m: int| 0 <= m <= node2.keys.len() implies linked(
        s3,
        #[trigger] node2.children[m],
        hc,
        exit_of(s3, node2, m, h, exit),
    ) by {
        if m == a {
            assert(exit_of(s3, node2, m, h, exit) == Some(first_leaf_from(s, right2, hc)));
            assert(linked(s3, left2.id, hc, Some(first_leaf_from(s, right2, hc))) == linked_from(
                s,
                left2,
                hc,
                Some(first_leaf_from(s, right2, hc)),
            ));
        } else if m == a + 1 {
            if m < n {
                assert(first_leaf(s3, node.children[m + 1], hc) == first_leaf(
                    s,
                    node.children[m + 1],
                    hc,
                ));
            }
            assert(exit_of(s3, node2, m, h, exit) == er);
            assert(linked(s3, right2.id, hc, er) == linked_from(s, right2, hc, er));
        } else {
            if m < n && m + 1 != a {
                assert(first_leaf(s3, node.children[m + 1], hc) == first_leaf(
                    s,
                    node.children[m + 1],
                    hc,
                ));
            }
            let e = exit_at(s, node, hc, m, a, left, right, exit);
            assert(exit_of(s3, node2, m, h, exit) == e);
            assert(linked(s, node.children[m], hc, e));
            assert(linked(s3, node.children[m], hc, e) == linked(s, node.children[m], hc, e));
        }
    }
    if a != 0 {
        assert(first_leaf(s3, node.children[0], hc) == first_leaf(s, node.children[0], hc));
    }
}

/// The leaves below an internal node are chained as before after two of
/// its children side by side were merged into the left one, which was
/// written to its page, and the node lost the key between the two and the
/// right one.
pub proof fn lemma_chain_merge(
    s: Store,
    s2: Store,
    node: IndexPageView,
    h: nat,
    exit: Option<PageId>,
    a: int,
    left: IndexPageView,
    right: IndexPageView,
    sep: i64,
)
    requires
        h > 0,
        node.children.len() == node.keys.len() + 1,
        0 <= a < node.keys.len(),
        pair_chain(s, node, h, exit, a, left, right),
        left.id == node.children[a],
        left.aligned(),
        right.aligned(),
        left.page_type == right.page_type,
        h > 1 ==> left.page_type == IndexType::Internal,
        h == 1 ==> left.page_type == IndexType::Leaf,
        node_installed(s, s2, merged_node(left, right, sep, (h - 1) as nat), (h - 1) as nat),
        others_kept(s, s2, node, (h - 1) as nat, a),
    ensures
        linked_from(
            s2,
            (IndexPageView {
                keys: node.keys.remove(a),
                children: node.children.remove(a + 1),
                ..node
            }),
            h,
            exit,
        ),
        first_leaf_from(
            s2,
            (IndexPageView {
                keys: node.keys.remove(a),
                children: node.children.remove(a + 1),
                ..node
            }),
            h,
        ) == first_at(s, node, (h - 1) as nat, 0, a, left, right),
{
    let hc = (h - 1) as nat;
    let n = node.keys.len() as int;
    let node2 = IndexPageView {
        keys: node.keys.remove(a),
        children: node.children.remove(a + 1),
        ..node
    };
    let merged = merged_node(left, right, sep, hc);
    let er = exit_at(s, node, hc, a + 1, a, left, right, exit);
    reveal(pair_chain);
    lemma_chain_merged(s, left, right, sep, hc, er);
    assert(merged.id == left.id);
    assert(node2.children[0] == node.children[0]);
    reveal(linked_from);
    assert forall|m: int| 0 <= m <= node2.keys.len() implies linked(
        s2,
        #[trigger] node2.children[m],
        hc,
        exit_of(s2, node2, m, h, exit),
    ) by {
        if m < a {
            assert(node2.children[m] == node.children[m]);
            assert(node2.children[m + 1] == node.children[m + 1]);
            if m + 1 != a {
                assert(first_leaf(s2, node.children[m + 1], hc) == first_leaf(
                    s,
                    node.children[m + 1],
                    hc,
                ));
            }
            let e = exit_at(s, node, hc, m, a, left, right, exit);
            assert(exit_of(s2, node2, m, h, exit) == e);
            assert(linked(s, node.children[m], hc, e));
            assert(linked(s2, node.children[m], hc, e) == linked(s, node.children[m], hc, e));
        } else if m == a {
            assert(node2.children[m] == left.id);
            if a + 1 < n {
                assert(node2.children[m + 1] == node.children[a + 2]);
                assert(first_leaf(s2, node.children[a + 2], hc) == first_leaf(
                    s,
                    node.children[a + 2],
                    hc,
                ));
            }
            assert(exit_of(s2, node2, m, h, exit) == er);
            assert(linked(s2, merged.id, hc, er) == linked_from(s, merged, hc, er));
        } else {
            assert(node2.children[m] == node.children[m + 1]);
            if m + 1 < n {
                assert(node2.children[m + 1] == node.children[m + 2]);
                assert(first_leaf(s2, node.children[m + 2], hc) == first_leaf(
                    s,
                    node.children[m + 2],
                    hc,
                ));
            }
            let e = exit_at(s, node, hc, m + 1, a, left, right, exit);
            assert(exit_of(s2, node2, m, h, exit) == e);
            assert(linked(s, node.children[m + 1], hc, e));
            assert(linked(s2, node.children[m + 1], hc, e)
                == linked(s, node.children[m + 1], hc, e));
        }
    }
    if a != 0 {
        assert(first_leaf(s2, node.children[0], hc) == first_leaf(s, node.children[0], hc));
    }
}

} // verus!
