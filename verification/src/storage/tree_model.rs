use crate::storage::page::index_page::{
    ascending, first_above, first_equal, lemma_first_above, lemma_first_equal, INTERNAL_CAPACITY,
    IndexPageView, IndexType, LEAF_CAPACITY, RecordId,
};
use crate::types::PageId;
use vstd::prelude::*;

verus! {

/// The pages of an index by id, as the buffer pool shows them.
pub type Store = Map<PageId, IndexPageView>;

/// The fill bounds of the nodes of a tree.
pub struct Limits {
    pub leaf_max: int,
    pub leaf_min: int,
    pub internal_max: int,
    pub internal_min: int,
}

impl Limits {
    /// The bounds that a tree can be made with: a node may take one key
    /// more than its maximum before it is split and must still fit its
    /// page; the minimum is half the maximum. An internal node with room
    /// for one key only could not be split into two nodes with a key each.
    pub open spec fn ok(self) -> bool {
        &&& 1 <= self.leaf_max < LEAF_CAPACITY
        &&& 2 <= self.internal_max < INTERNAL_CAPACITY
        &&& self.leaf_min == self.leaf_max / 2
        &&& self.internal_min == self.internal_max / 2
    }
}

/// `key` lies in the range from `lo` on and below `hi`; a bound that is
/// `None` is no bound.
pub open spec fn in_range(key: i64, lo: Option<i64>, hi: Option<i64>) -> bool {
    (lo is None || lo.unwrap() <= key) && (hi is None || key < hi.unwrap())
}

/// The lower bound of the keys below child `i` of a node whose own keys
/// start at `lo`.
pub open spec fn child_lo(node: IndexPageView, i: int, lo: Option<i64>) -> Option<i64> {
    if i == 0 {
        lo
    } else {
        Some(node.keys[i - 1])
    }
}

/// The upper bound of the keys below child `i` of a node whose own keys
/// end below `hi`.
pub open spec fn child_hi(node: IndexPageView, i: int, hi: Option<i64>) -> Option<i64> {
    if i == node.keys.len() {
        hi
    } else {
        Some(node.keys[i])
    }
}

/// The pages from `id` down form a B+ tree of height `h` over the keys from
/// `lo` on and below `hi`: every node is in use, carries its id, can be
/// written out and has strictly ascending keys within the range; a node at
/// height 0 is a leaf, the others are internal nodes whose keys separate
/// their children; no node holds more keys than its maximum, and none but
/// the root fewer than its minimum.
pub open spec fn subtree_ok(
    store: Store,
    used: Set<PageId>,
    id: PageId,
    h: nat,
    lo: Option<i64>,
    hi: Option<i64>,
    limits: Limits,
    is_root: bool,
) -> bool
    decreases h,
{
    &&& store.contains_key(id)
    &&& used.contains(id)
    &&& store[id].id == id
    &&& store[id].storable()
    &&& ascending(store[id].keys)
    &&& forall|i: int| 0 <= i < store[id].keys.len()
        ==> in_range(#[trigger] store[id].keys[i], lo, hi)
    &&& if h == 0 {
        &&& store[id].page_type == IndexType::Leaf
        &&& store[id].keys.len() <= limits.leaf_max
        &&& is_root || store[id].keys.len() >= limits.leaf_min
    } else {
        &&& store[id].page_type == IndexType::Internal
        &&& 1 <= store[id].keys.len() <= limits.internal_max
        &&& is_root || store[id].keys.len() >= limits.internal_min
        &&& forall|i: int|
            0 <= i <= store[id].keys.len() ==> subtree_ok(
                store,
                used,
                #[trigger] store[id].children[i],
                (h - 1) as nat,
                child_lo(store[id], i, lo),
                child_hi(store[id], i, hi),
                limits,
                false,
            )
    }
}

/// The record id that a leaf holds for `key`.
pub open spec fn leaf_get(node: IndexPageView, key: i64) -> Option<RecordId> {
    match first_equal(node.keys, key, 0) {
        Some(i) => Some(node.rids[i]),
        None => None,
    }
}

/// The record id that a search for `key` from the node `id` at height `h`
/// comes to: at each internal node it goes to the child at the place of
/// the first key that is greater than `key`.
pub open spec fn lookup(store: Store, id: PageId, h: nat, key: i64) -> Option<RecordId>
    decreases h,
{
    if h == 0 {
        leaf_get(store[id], key)
    } else {
        lookup(
            store,
            store[id].children[first_above(store[id].keys, key, 0)],
            (h - 1) as nat,
            key,
        )
    }
}

/// The page `x` is none of the nodes from `id` down.
pub open spec fn absent(store: Store, id: PageId, h: nat, x: PageId) -> bool
    decreases h,
{
    &&& x != id
    &&& h > 0 ==> forall|i: int|
        0 <= i < store[id].children.len() ==> absent(
            store,
            #[trigger] store[id].children[i],
            (h - 1) as nat,
            x,
        )
}

/// The leaf that the keys of the tree from `id` down begin in: the one
/// that the first children lead to.
pub open spec fn first_leaf(store: Store, id: PageId, h: nat) -> PageId
    decreases h,
{
    if h == 0 {
        id
    } else {
        first_leaf(store, store[id].children[0], (h - 1) as nat)
    }
}

/// The leaf that the keys below a node begin in, for a node of height `h`
/// that is not yet in the store.
pub open spec fn first_leaf_from(store: Store, node: IndexPageView, h: nat) -> PageId {
    if h == 0 {
        node.id
    } else {
        first_leaf(store, node.children[0], (h - 1) as nat)
    }
}

/// Where the last leaf below child `i` of a node of height `h` points to:
/// the first leaf below the next child, or, after the last child, where
/// the last leaf below the node itself points to.
pub open spec fn exit_of(
    store: Store,
    node: IndexPageView,
    i: int,
    h: nat,
    exit: Option<PageId>,
) -> Option<PageId> {
    if i == node.keys.len() {
        exit
    } else {
        Some(first_leaf(store, node.children[i + 1], (h - 1) as nat))
    }
}

/// The leaves of the tree from `id` down are chained in key order: each
/// names the next one as its next leaf, and the last one names `exit`.
#[verifier::opaque]
pub open spec fn linked(store: Store, id: PageId, h: nat, exit: Option<PageId>) -> bool
    decreases h,
{
    if h == 0 {
        store[id].next == exit
    } else {
        forall|i: int|
            0 <= i <= store[id].keys.len() ==> linked(
                store,
                #[trigger] store[id].children[i],
                (h - 1) as nat,
                exit_of(store, store[id], i, h, exit),
            )
    }
}

/// The leaves below a node of height `h` that is not yet in the store are
/// chained in key order, and the last one names `exit`.
#[verifier::opaque]
pub open spec fn linked_from(store: Store, node: IndexPageView, h: nat,
    exit: Option<PageId>) -> bool {
    if h == 0 {
        node.next == exit
    } else {
        forall|i: int|
            0 <= i <= node.keys.len() ==> linked(
                store,
                #[trigger] node.children[i],
                (h - 1) as nat,
                exit_of(store, node, i, h, exit),
            )
    }
}

/// The page `x` is no node below a child of the node `node` of height `h`.
pub open spec fn kids_gone(store: Store, node: IndexPageView, h: nat, x: PageId) -> bool {
    h > 0 ==> forall|m: int|
        0 <= m <= node.keys.len() ==> absent(store, #[trigger] node.children[m], (h - 1) as nat, x)
}

/// Every node of the tree from `c` down is a page in use that is no node
/// of the tree from `other` down and that the store `s1` holds as the
/// store `s0` does.
pub open spec fn kept_below(
    s0: Store,
    u0: Set<PageId>,
    s1: Store,
    u1: Set<PageId>,
    c: PageId,
    other: PageId,
    h: nat,
) -> bool {
    forall|x: PageId|
        !(#[trigger] absent(s0, c, h, x)) ==> {
            &&& u0.contains(x)
            &&& absent(s0, other, h, x)
            &&& s1.contains_key(x)
            &&& s1[x] == s0[x]
            &&& u1.contains(x)
        }
}

/// No page is a node of both trees of height `h`, from `a` and from `b` down.
pub open spec fn two_apart(store: Store, a: PageId, b: PageId, h: nat) -> bool {
    forall|x: PageId|
        #![trigger absent(store, a, h, x)]
        #![trigger absent(store, b, h, x)]
        absent(store, a, h, x) || absent(store, b, h, x)
}

/// No page is a node below two children of the node `node` of height `h`.
pub open spec fn kids_apart(store: Store, node: IndexPageView, h: nat) -> bool {
    forall|i: int, j: int|
        0 <= i < j <= node.keys.len() ==> #[trigger] two_apart(
            store,
            node.children[i],
            node.children[j],
            (h - 1) as nat,
        )
}

/// No page is a node below two children of one node, from `id` down.
#[verifier::opaque]
pub open spec fn apart(store: Store, id: PageId, h: nat) -> bool
    decreases h,
{
    h > 0 ==> {
        &&& forall|i: int|
            0 <= i <= store[id].keys.len() ==> apart(
                store,
                #[trigger] store[id].children[i],
                (h - 1) as nat,
            )
        &&& kids_apart(store, store[id], h)
    }
}

/// No page is a node below two children of one node, from the children
/// of the node `node` of height `h` down; the node is not yet in the store.
#[verifier::opaque]
pub open spec fn apart_from(store: Store, node: IndexPageView, h: nat) -> bool {
    h > 0 ==> {
        &&& forall|i: int|
            0 <= i <= node.keys.len() ==> apart(store, #[trigger] node.children[i], (h - 1) as nat)
        &&& kids_apart(store, node, h)
    }
}

/// The nodes of the tree from `id` down can be told apart: by their keys
/// where every node but the root has one, else because no page is a node
/// below two children of one node.
pub open spec fn told_apart(limits: Limits, store: Store, id: PageId, h: nat) -> bool {
    limits.leaf_min >= 1 || apart(store, id, h)
}

/// The children of a node whose nodes can be told apart are such nodes.
pub proof fn lemma_told_child(limits: Limits, store: Store, id: PageId, h: nat, i: int)
    requires
        h > 0,
        told_apart(limits, store, id, h),
        0 <= i <= store[id].keys.len(),
    ensures
        told_apart(limits, store, store[id].children[i], (h - 1) as nat),
{
    reveal(apart);
}

/// A subtree is the same in every store that holds its nodes as they are:
/// it is a B+ tree there too, with the same record ids and the same nodes.
pub proof fn lemma_agree(
    s: Store,
    u: Set<PageId>,
    s2: Store,
    u2: Set<PageId>,
    id: PageId,
    h: nat,
    lo: Option<i64>,
    hi: Option<i64>,
    limits: Limits,
    is_root: bool,
)
    requires
        subtree_ok(s, u, id, h, lo, hi, limits, is_root),
        forall|x: PageId|
            !(#[trigger] absent(s, id, h, x)) ==> s2.contains_key(x) && s2[x] == s[x]
                && u2.contains(x),
    ensures
        subtree_ok(s2, u2, id, h, lo, hi, limits, is_root),
        forall|k: i64| lookup(s2, id, h, k) == lookup(s, id, h, k),
        forall|x: PageId| absent(s2, id, h, x) == absent(s, id, h, x),
        first_leaf(s2, id, h) == first_leaf(s, id, h),
        forall|e: Option<PageId>| #[trigger] linked(s2, id, h, e) == linked(s, id, h, e),
    decreases h,
{
    assert(!absent(s, id, h, id));
    reveal_with_fuel(linked, 2);
    if h > 0 {
        let node = s[id];
        assert forall|i: int| 0 <= i <= node.keys.len() implies subtree_ok(
            s2,
            u2,
            #[trigger] node.children[i],
            (h - 1) as nat,
            child_lo(node, i, lo),
            child_hi(node, i, hi),
            limits,
            false,
        ) && (forall|k: i64|
            #[trigger] lookup(s2, node.children[i], (h - 1) as nat, k) == lookup(
                s,
                node.children[i],
                (h - 1) as nat,
                k,
            )) && (forall|x: PageId|
            #[trigger] absent(s2, node.children[i], (h - 1) as nat, x) == absent(
                s,
                node.children[i],
                (h - 1) as nat,
                x,
            )) && first_leaf(s2, node.children[i], (h - 1) as nat) == first_leaf(
            s,
            node.children[i],
            (h - 1) as nat,
        ) && (forall|e: Option<PageId>|
            #[trigger] linked(s2, node.children[i], (h - 1) as nat, e) == linked(
                s,
                node.children[i],
                (h - 1) as nat,
                e,
            )) by {
            assert(node.children.len() == node.keys.len() + 1);
            assert forall|x: PageId|
                !(#[trigger] absent(s, node.children[i], (h
                    - 1) as nat, x)) implies s2.contains_key(
                x,
            ) && s2[x] == s[x] && u2.contains(x) by {
                if absent(s, id, h, x) {
                    assert(absent(s, node.children[i], (h - 1) as nat, x));
                }
                assert(!absent(s, id, h, x));
            }
            lemma_agree(
                s,
                u,
                s2,
                u2,
                node.children[i],
                (h - 1) as nat,
                child_lo(node, i, lo),
                child_hi(node, i, hi),
                limits,
                false,
            );
        }
        assert forall|k: i64| lookup(s2, id, h, k) == lookup(s, id, h, k) by {
            lemma_first_above(node.keys, k, 0);
            let i = first_above(node.keys, k, 0);
            assert(lookup(s2, node.children[i], (h - 1) as nat, k) == lookup(
                s,
                node.children[i],
                (h - 1) as nat,
                k,
            ));
        }
        assert forall|x: PageId| absent(s2, id, h, x) == absent(s, id, h, x) by {
            assert forall|i: int| 0 <= i < node.children.len() implies absent(
                s2,
                #[trigger] node.children[i],
                (h - 1) as nat,
                x,
            ) == absent(s, node.children[i], (h - 1) as nat, x) by {}
        }
        assert(first_leaf(s2, node.children[0], (h - 1) as nat) == first_leaf(
            s,
            node.children[0],
            (h - 1) as nat,
        ));
        assert forall|e: Option<PageId>| #[trigger] linked(s2, id, h, e) == linked(s, id, h, e) by {
            assert forall|i: int| 0 <= i <= node.keys.len() implies linked(
                s2,
                #[trigger] node.children[i],
                (h - 1) as nat,
                exit_of(s2, node, i, h, e),
            ) == linked(s, node.children[i], (h - 1) as nat, exit_of(s, node, i, h, e)) by {
                if i < node.keys.len() {
                    assert(first_leaf(s2, node.children[i + 1], (h - 1) as nat) == first_leaf(
                        s,
                        node.children[i + 1],
                        (h - 1) as nat,
                    ));
                }
            }
        }
    }
}

/// A node is the root of a B+ tree of one height only.
pub proof fn lemma_height_unique(
    s: Store,
    u: Set<PageId>,
    id: PageId,
    h1: nat,
    lo1: Option<i64>,
    hi1: Option<i64>,
    r1: bool,
    h2: nat,
    lo2: Option<i64>,
    hi2: Option<i64>,
    r2: bool,
    limits: Limits,
)
    requires
        subtree_ok(s, u, id, h1, lo1, hi1, limits, r1),
        subtree_ok(s, u, id, h2, lo2, hi2, limits, r2),
    ensures
        h1 == h2,
    decreases h1,
{
    if h1 > 0 && h2 > 0 {
        let node = s[id];
        assert(subtree_ok(
            s,
            u,
            node.children[0],
            (h1 - 1) as nat,
            child_lo(node, 0, lo1),
            child_hi(node, 0, hi1),
            limits,
            false,
        ));
        assert(subtree_ok(
            s,
            u,
            node.children[0],
            (h2 - 1) as nat,
            child_lo(node, 0, lo2),
            child_hi(node, 0, hi2),
            limits,
            false,
        ));
        lemma_height_unique(
            s,
            u,
            node.children[0],
            (h1 - 1) as nat,
            child_lo(node, 0, lo1),
            child_hi(node, 0, hi1),
            false,
            (h2 - 1) as nat,
            child_lo(node, 0, lo2),
            child_hi(node, 0, hi2),
            false,
            limits,
        );
    }
}

/// The root of a higher tree is no node of a lower one.
pub proof fn lemma_absent_by_height(
    s: Store,
    u: Set<PageId>,
    id: PageId,
    h: nat,
    lo: Option<i64>,
    hi: Option<i64>,
    r: bool,
    x: PageId,
    hx: nat,
    lox: Option<i64>,
    hix: Option<i64>,
    rx: bool,
    limits: Limits,
)
    requires
        subtree_ok(s, u, id, h, lo, hi, limits, r),
        subtree_ok(s, u, x, hx, lox, hix, limits, rx),
        hx > h,
    ensures
        absent(s, id, h, x),
    decreases h,
{
    if x == id {
        lemma_height_unique(s, u, id, h, lo, hi, r, hx, lox, hix, rx, limits);
    }
    if h > 0 {
        let node = s[id];
        assert forall|i: int| 0 <= i < node.children.len() implies absent(
            s,
            #[trigger] node.children[i],
            (h - 1) as nat,
            x,
        ) by {
            lemma_absent_by_height(
                s,
                u,
                node.children[i],
                (h - 1) as nat,
                child_lo(node, i, lo),
                child_hi(node, i, hi),
                false,
                x,
                hx,
                lox,
                hix,
                rx,
                limits,
            );
        }
    }
}

/// Every node of a B+ tree is a page in use whose keys lie in the range of
/// the tree, and every node but a root has a key.
pub proof fn lemma_member(
    s: Store,
    u: Set<PageId>,
    id: PageId,
    h: nat,
    lo: Option<i64>,
    hi: Option<i64>,
    limits: Limits,
    is_root: bool,
    x: PageId,
)
    requires
        subtree_ok(s, u, id, h, lo, hi, limits, is_root),
        limits.ok(),
        !absent(s, id, h, x),
    ensures
        s.contains_key(x),
        u.contains(x),
        limits.leaf_min >= 1 && (x != id || !is_root) ==> s[x].keys.len() >= 1,
        forall|i: int| 0 <= i < s[x].keys.len() ==> in_range(#[trigger] s[x].keys[i], lo, hi),
    decreases h,
{
    if x != id {
        let node = s[id];
        let i = choose|i: int|
            0 <= i < node.children.len() && !absent(
                s,
                #[trigger] node.children[i],
                (h - 1) as nat,
                x,
            );
        assert(node.children.len() == node.keys.len() + 1);
        lemma_member(
            s,
            u,
            node.children[i],
            (h - 1) as nat,
            child_lo(node, i, lo),
            child_hi(node, i, hi),
            limits,
            false,
            x,
        );
        assert forall|j: int| 0 <= j < s[x].keys.len() implies in_range(
            #[trigger] s[x].keys[j],
            lo,
            hi,
        ) by {
            assert(in_range(s[x].keys[j], child_lo(node, i, lo), child_hi(node, i, hi)));
            if i > 0 {
                assert(in_range(node.keys[i - 1], lo, hi));
            }
            if i < node.keys.len() {
                assert(in_range(node.keys[i], lo, hi));
            }
        }
    }
}

/// B+ trees over ranges that do not meet have no node in common.
pub proof fn lemma_disjoint(
    s: Store,
    u: Set<PageId>,
    a: PageId,
    ha: nat,
    lo_a: Option<i64>,
    hi_a: Option<i64>,
    b: PageId,
    hb: nat,
    lo_b: Option<i64>,
    hi_b: Option<i64>,
    limits: Limits,
    x: PageId,
)
    requires
        subtree_ok(s, u, a, ha, lo_a, hi_a, limits, false),
        subtree_ok(s, u, b, hb, lo_b, hi_b, limits, false),
        limits.ok(),
        limits.leaf_min >= 1,
        (hi_a is Some && lo_b is Some && hi_a.unwrap() <= lo_b.unwrap()) || (hi_b is Some && lo_a
            is Some && hi_b.unwrap() <= lo_a.unwrap()),
    ensures
        absent(s, a, ha, x) || absent(s, b, hb, x),
{
    if !absent(s, a, ha, x) && !absent(s, b, hb, x) {
        lemma_member(s, u, a, ha, lo_a, hi_a, limits, false, x);
        lemma_member(s, u, b, hb, lo_b, hi_b, limits, false, x);
        assert(in_range(s[x].keys[0], lo_a, hi_a));
        assert(in_range(s[x].keys[0], lo_b, hi_b));
    }
}

/// A B+ tree over a range is one over every wider range.
pub proof fn lemma_widen(
    s: Store,
    u: Set<PageId>,
    id: PageId,
    h: nat,
    lo: Option<i64>,
    hi: Option<i64>,
    lo2: Option<i64>,
    hi2: Option<i64>,
    limits: Limits,
    is_root: bool,
)
    requires
        subtree_ok(s, u, id, h, lo, hi, limits, is_root),
        lo2 is None || (lo is Some && lo2.unwrap() <= lo.unwrap()),
        hi2 is None || (hi is Some && hi.unwrap() <= hi2.unwrap()),
    ensures
        subtree_ok(s, u, id, h, lo2, hi2, limits, is_root),
    decreases h,
{
    let node = s[id];
    assert forall|i: int| 0 <= i < node.keys.len() implies in_range(
        #[trigger] node.keys[i],
        lo2,
        hi2,
    ) by {
        assert(in_range(node.keys[i], lo, hi));
    }
    if h > 0 {
        assert forall|i: int| 0 <= i <= node.keys.len() implies subtree_ok(
            s,
            u,
            #[trigger] node.children[i],
            (h - 1) as nat,
            child_lo(node, i, lo2),
            child_hi(node, i, hi2),
            limits,
            false,
        ) by {
            assert(subtree_ok(
                s,
                u,
                node.children[i],
                (h - 1) as nat,
                child_lo(node, i, lo),
                child_hi(node, i, hi),
                limits,
                false,
            ));
            lemma_widen(
                s,
                u,
                node.children[i],
                (h - 1) as nat,
                child_lo(node, i, lo),
                child_hi(node, i, hi),
                child_lo(node, i, lo2),
                child_hi(node, i, hi2),
                limits,
                false,
            );
        }
    }
}

/// The place is that of the first key greater than `key`, if the keys
/// before it are not greater and the key at it is.
pub proof fn lemma_first_above_is(keys: Seq<i64>, key: i64, p: int)
    requires
        0 <= p <= keys.len(),
        forall|j: int| 0 <= j < p ==> #[trigger] keys[j] <= key,
        p < keys.len() ==> key < keys[p],
    ensures
        first_above(keys, key, 0) == p,
{
    lemma_first_above(keys, key, 0);
    let r = first_above(keys, key, 0);
    if r < p {
        assert(keys[r] <= key);
    }
    if p < r {
        assert(keys[p] <= key);
    }
}

/// In ascending keys, a key is found at its place and nowhere else.
pub proof fn lemma_first_equal_is(keys: Seq<i64>, key: i64)
    requires
        ascending(keys),
    ensures
        forall|i: int|
            0 <= i < keys.len() && #[trigger] keys[i] == key ==> first_equal(keys, key, 0) == Some(
                i,
            ),
        !keys.contains(key) ==> first_equal(keys, key, 0) is None,
        first_equal(keys, key, 0) is Some ==> keys.contains(key),
{
    lemma_first_equal(keys, key, 0);
    assert forall|i: int| 0 <= i < keys.len() && #[trigger] keys[i] == key implies first_equal(
        keys,
        key,
        0,
    ) == Some(i) by {
        match first_equal(keys, key, 0) {
            Some(j) => {
                if j < i {
                    assert(keys[j] < keys[i]);
                }
            },
            None => {},
        }
    }
}

/// The children of `node`, a node at height `h`, are B+ trees over the
/// ranges that the keys of `node` give them.
pub open spec fn children_ok(
    s: Store,
    u: Set<PageId>,
    node: IndexPageView,
    h: nat,
    lo: Option<i64>,
    hi: Option<i64>,
    limits: Limits,
) -> bool {
    forall|i: int|
        0 <= i <= node.keys.len() ==> subtree_ok(
            s,
            u,
            #[trigger] node.children[i],
            (h - 1) as nat,
            child_lo(node, i, lo),
            child_hi(node, i, hi),
            limits,
            false,
        )
}

/// The record id that a search for `key` comes to from a node that is not
/// yet in the store, the root of a tree of height `h`.
pub open spec fn lookup_from(s: Store, node: IndexPageView, h: nat, key: i64) -> Option<RecordId> {
    if h == 0 {
        leaf_get(node, key)
    } else {
        lookup(s, node.children[first_above(node.keys, key, 0)], (h - 1) as nat, key)
    }
}

/// The node `node` can take the place of the page `id` as the root of a
/// B+ tree of height `h` over the range, but that it may hold one key more
/// than the maximum: its children, as the store holds them, are B+ trees
/// over the ranges that its keys give them, and `id` is none of their nodes.
pub open spec fn ready(
    s: Store,
    u: Set<PageId>,
    node: IndexPageView,
    id: PageId,
    h: nat,
    lo: Option<i64>,
    hi: Option<i64>,
    limits: Limits,
    is_root: bool,
) -> bool {
    &&& s.contains_key(id)
    &&& u.contains(id)
    &&& node.id == id
    &&& node.wf()
    &&& forall|i: int| 0 <= i < node.keys.len() ==> in_range(#[trigger] node.keys[i], lo, hi)
    &&& if h == 0 {
        &&& node.page_type == IndexType::Leaf
        &&& node.children.len() == 0
        &&& node.keys.len() <= limits.leaf_max + 1
        &&& is_root || node.keys.len() >= limits.leaf_min
    } else {
        &&& node.page_type == IndexType::Internal
        &&& node.rids.len() == 0
        &&& node.next is None
        &&& 1 <= node.keys.len() <= limits.internal_max + 1
        &&& is_root || node.keys.len() >= limits.internal_min
        &&& children_ok(s, u, node, h, lo, hi, limits)
        &&& forall|i: int|
            0 <= i <= node.keys.len() ==> absent(s, #[trigger] node.children[i], (h - 1) as nat, id)
    }
}

/// A page that is not in use is no node of a B+ tree.
pub proof fn lemma_fresh_absent(
    s: Store,
    u: Set<PageId>,
    id: PageId,
    h: nat,
    lo: Option<i64>,
    hi: Option<i64>,
    limits: Limits,
    is_root: bool,
    x: PageId,
)
    requires
        subtree_ok(s, u, id, h, lo, hi, limits, is_root),
        limits.ok(),
        !u.contains(x),
    ensures
        absent(s, id, h, x),
{
    if !absent(s, id, h, x) {
        lemma_member(s, u, id, h, lo, hi, limits, is_root, x);
    }
}

/// A B+ tree stays what it is when a page that is none of its nodes is
/// written and pages come into use.
pub proof fn lemma_keep(
    s: Store,
    u: Set<PageId>,
    y: PageId,
    v: IndexPageView,
    u2: Set<PageId>,
    id: PageId,
    h: nat,
    lo: Option<i64>,
    hi: Option<i64>,
    limits: Limits,
    is_root: bool,
)
    requires
        subtree_ok(s, u, id, h, lo, hi, limits, is_root),
        limits.ok(),
        absent(s, id, h, y),
        forall|x: PageId| u.contains(x) ==> u2.contains(x),
    ensures
        subtree_ok(s.insert(y, v), u2, id, h, lo, hi, limits, is_root),
        forall|k: i64| lookup(s.insert(y, v), id, h, k) == lookup(s, id, h, k),
        forall|x: PageId| absent(s.insert(y, v), id, h, x) == absent(s, id, h, x),
        first_leaf(s.insert(y, v), id, h) == first_leaf(s, id, h),
        forall|e: Option<PageId>| #[trigger] linked(s.insert(y, v), id, h, e)
            == linked(s, id, h, e),
{
    assert forall|x: PageId| !(#[trigger] absent(s, id, h, x)) implies s.insert(y, v).contains_key(
        x,
    ) && s.insert(y, v)[x] == s[x] && u2.contains(x) by {
        lemma_member(s, u, id, h, lo, hi, limits, is_root, x);
    }
    lemma_agree(s, u, s.insert(y, v), u2, id, h, lo, hi, limits, is_root);
}

/// The children of a node stay B+ trees when a page that is none of their
/// nodes is written and pages come into use.
pub proof fn lemma_children_keep(
    s: Store,
    u: Set<PageId>,
    y: PageId,
    v: IndexPageView,
    u2: Set<PageId>,
    node: IndexPageView,
    h: nat,
    lo: Option<i64>,
    hi: Option<i64>,
    limits: Limits,
)
    requires
        h > 0,
        children_ok(s, u, node, h, lo, hi, limits),
        limits.ok(),
        forall|i: int|
            0 <= i <= node.keys.len() ==> absent(s, #[trigger] node.children[i], (h - 1) as nat, y),
        forall|x: PageId| u.contains(x) ==> u2.contains(x),
    ensures
        children_ok(s.insert(y, v), u2, node, h, lo, hi, limits),
        forall|k: i64| lookup_from(s.insert(y, v), node, h, k) == lookup_from(s, node, h, k),
        forall|i: int, x: PageId|
            0 <= i <= node.keys.len() ==> #[trigger] absent(
                s.insert(y, v),
                node.children[i],
                (h - 1) as nat,
                x,
            ) == absent(s, node.children[i], (h - 1) as nat, x),
        first_leaf_from(s.insert(y, v), node, h) == first_leaf_from(s, node, h),
        forall|e: Option<PageId>|
            #[trigger] linked_from(s.insert(y, v), node, h, e) == linked_from(s, node, h, e),
{
    let s2 = s.insert(y, v);
    assert forall|i: int| 0 <= i <= node.keys.len() implies subtree_ok(
        s2,
        u2,
        #[trigger] node.children[i],
        (h - 1) as nat,
        child_lo(node, i, lo),
        child_hi(node, i, hi),
        limits,
        false,
    ) && (forall|k: i64|
        #[trigger] lookup(s2, node.children[i], (h - 1) as nat, k) == lookup(
            s,
            node.children[i],
            (h - 1) as nat,
            k,
        )) && (forall|x: PageId|
        #[trigger] absent(s2, node.children[i], (h - 1) as nat, x) == absent(
            s,
            node.children[i],
            (h - 1) as nat,
            x,
        )) && first_leaf(s2, node.children[i], (h - 1) as nat) == first_leaf(
        s,
        node.children[i],
        (h - 1) as nat,
    ) && (forall|e: Option<PageId>|
        #[trigger] linked(s2, node.children[i], (h - 1) as nat, e) == linked(
            s,
            node.children[i],
            (h - 1) as nat,
            e,
        )) by {
        lemma_keep(
            s,
            u,
            y,
            v,
            u2,
            node.children[i],
            (h - 1) as nat,
            child_lo(node, i, lo),
            child_hi(node, i, hi),
            limits,
            false,
        );
    }
    assert forall|k: i64| lookup_from(s2, node, h, k) == lookup_from(s, node, h, k) by {
        lemma_first_above(node.keys, k, 0);
        let f = first_above(node.keys, k, 0);
        assert(lookup(s2, node.children[f], (h - 1) as nat, k) == lookup(
            s,
            node.children[f],
            (h - 1) as nat,
            k,
        ));
    }
    assert(first_leaf(s2, node.children[0], (h - 1) as nat) == first_leaf(
        s,
        node.children[0],
        (h - 1) as nat,
    ));
    assert forall|e: Option<PageId>|
        #[trigger] linked_from(s2, node, h, e) == linked_from(s, node, h, e) by {
        reveal(linked_from);
        assert forall|i: int| 0 <= i <= node.keys.len() implies linked(
            s2,
            #[trigger] node.children[i],
            (h - 1) as nat,
            exit_of(s2, node, i, h, e),
        ) == linked(s, node.children[i], (h - 1) as nat, exit_of(s, node, i, h, e)) by {
            if i < node.keys.len() {
                assert(first_leaf(s2, node.children[i + 1], (h - 1) as nat) == first_leaf(
                    s,
                    node.children[i + 1],
                    (h - 1) as nat,
                ));
            }
        }
    }
}

/// A node that is ready and holds no more keys than the maximum makes,
/// written to its page, a B+ tree; a search in it goes on as from the node.
pub proof fn lemma_install(
    s: Store,
    u: Set<PageId>,
    node: IndexPageView,
    id: PageId,
    h: nat,
    lo: Option<i64>,
    hi: Option<i64>,
    limits: Limits,
    is_root: bool,
)
    requires
        ready(s, u, node, id, h, lo, hi, limits, is_root),
        limits.ok(),
        h == 0 ==> node.keys.len() <= limits.leaf_max,
        h > 0 ==> node.keys.len() <= limits.internal_max,
    ensures
        subtree_ok(s.insert(id, node), u, id, h, lo, hi, limits, is_root),
        forall|k: i64| lookup(s.insert(id, node), id, h, k) == lookup_from(s, node, h, k),
        first_leaf(s.insert(id, node), id, h) == first_leaf_from(s, node, h),
        forall|e: Option<PageId>|
            #[trigger] linked(s.insert(id, node), id, h, e) == linked_from(s, node, h, e),
{
    let s2 = s.insert(id, node);
    if h > 0 {
        lemma_children_keep(s, u, id, node, u, node, h, lo, hi, limits);
        assert forall|k: i64| lookup(s2, id, h, k) == lookup_from(s, node, h, k) by {
            assert(lookup_from(s2, node, h, k) == lookup_from(s, node, h, k));
        }
    }
    assert forall|e: Option<PageId>|
        #[trigger] linked(s2, id, h, e) == linked_from(s, node, h, e) by {
        reveal(linked_from);
        reveal_with_fuel(linked, 1);
        assert(linked(s2, id, h, e) == linked_from(s2, node, h, e));
        if h > 0 {
            assert(linked_from(s2, node, h, e) == linked_from(s, node, h, e));
        }
    }
}

/// What is known of a node of a B+ tree after one of its children was
/// worked on: the node itself is untouched, and so are its other children.
pub proof fn lemma_after_child(
    s0: Store,
    u0: Set<PageId>,
    s1: Store,
    u1: Set<PageId>,
    id: PageId,
    h: nat,
    lo: Option<i64>,
    hi: Option<i64>,
    limits: Limits,
    is_root: bool,
    i: int,
)
    requires
        subtree_ok(s0, u0, id, h, lo, hi, limits, is_root),
        h > 0,
        limits.ok(),
        0 <= i <= s0[id].keys.len(),
        forall|x: PageId|
            u0.contains(x) && s0.contains_key(x) && #[trigger] absent(
                s0,
                s0[id].children[i],
                (h - 1) as nat,
                x,
            ) ==> s1.contains_key(x) && s1[x] == s0[x] && u1.contains(x),
        told_apart(limits, s0, id, h),
    ensures
        s1.contains_key(id),
        s1[id] == s0[id],
        u1.contains(id),
        forall|j: int|
            0 <= j <= s0[id].keys.len() && j != i ==> #[trigger] kept_below(
                s0,
                u0,
                s1,
                u1,
                s0[id].children[j],
                s0[id].children[i],
                (h - 1) as nat,
            ),
        forall|j: int|
            0 <= j <= s0[id].keys.len() && j != i ==> subtree_ok(
                s1,
                u1,
                #[trigger] s0[id].children[j],
                (h - 1) as nat,
                child_lo(s0[id], j, lo),
                child_hi(s0[id], j, hi),
                limits,
                false,
            ),
        forall|j: int, k: i64|
            0 <= j <= s0[id].keys.len() && j != i ==> #[trigger] lookup(
                s1,
                s0[id].children[j],
                (h - 1) as nat,
                k,
            ) == lookup(s0, s0[id].children[j], (h - 1) as nat, k),
        forall|j: int|
            0 <= j <= s0[id].keys.len() && j != i ==> #[trigger] first_leaf(
                s1,
                s0[id].children[j],
                (h - 1) as nat,
            ) == first_leaf(s0, s0[id].children[j], (h - 1) as nat),
        forall|j: int, e: Option<PageId>|
            0 <= j <= s0[id].keys.len() && j != i ==> #[trigger] linked(
                s1,
                s0[id].children[j],
                (h - 1) as nat,
                e,
            ) == linked(s0, s0[id].children[j], (h - 1) as nat, e),
{
    let node = s0[id];
    let ci = node.children[i];
    assert(subtree_ok(
        s0,
        u0,
        ci,
        (h - 1) as nat,
        child_lo(node, i, lo),
        child_hi(node, i, hi),
        limits,
        false,
    ));
    lemma_absent_by_height(
        s0,
        u0,
        ci,
        (h - 1) as nat,
        child_lo(node, i, lo),
        child_hi(node, i, hi),
        false,
        id,
        h,
        lo,
        hi,
        is_root,
        limits,
    );
    assert forall|j: int| 0 <= j <= node.keys.len() && j != i implies subtree_ok(
        s1,
        u1,
        #[trigger] node.children[j],
        (h - 1) as nat,
        child_lo(node, j, lo),
        child_hi(node, j, hi),
        limits,
        false,
    ) && (forall|k: i64|
        #[trigger] lookup(s1, node.children[j], (h - 1) as nat, k) == lookup(
            s0,
            node.children[j],
            (h - 1) as nat,
            k,
        )) && first_leaf(s1, node.children[j], (h - 1) as nat) == first_leaf(
        s0,
        node.children[j],
        (h - 1) as nat,
    ) && (forall|e: Option<PageId>|
        #[trigger] linked(s1, node.children[j], (h - 1) as nat, e) == linked(
            s0,
            node.children[j],
            (h - 1) as nat,
            e,
        )) && kept_below(s0, u0, s1, u1, node.children[j], ci, (h - 1) as nat) by {
        let cj = node.children[j];
        assert(subtree_ok(
            s0,
            u0,
            cj,
            (h - 1) as nat,
            child_lo(node, j, lo),
            child_hi(node, j, hi),
            limits,
            false,
        ));
        assert forall|x: PageId| !(#[trigger] absent(s0, cj, (h
            - 1) as nat, x)) implies s1.contains_key(
            x,
        ) && s1[x] == s0[x] && u1.contains(x) && u0.contains(x) && absent(
            s0,
            ci,
            (h - 1) as nat,
            x,
        ) by {
            lemma_member(
                s0,
                u0,
                cj,
                (h - 1) as nat,
                child_lo(node, j, lo),
                child_hi(node, j, hi),
                limits,
                false,
                x,
            );
            if j < i {
                assert(j < node.keys.len());
                if j < i - 1 {
                    assert(node.keys[j] < node.keys[i - 1]);
                }
            } else {
                assert(i < node.keys.len());
                if i < j - 1 {
                    assert(node.keys[i] < node.keys[j - 1]);
                }
            }
            if limits.leaf_min >= 1 {
                lemma_disjoint(
                    s0,
                    u0,
                    cj,
                    (h - 1) as nat,
                    child_lo(node, j, lo),
                    child_hi(node, j, hi),
                    ci,
                    (h - 1) as nat,
                    child_lo(node, i, lo),
                    child_hi(node, i, hi),
                    limits,
                    x,
                );
            } else {
                reveal(apart);
                assert(kids_apart(s0, node, h));
                if j < i {
                    assert(two_apart(s0, node.children[j], node.children[i], (h - 1) as nat));
                } else {
                    assert(two_apart(s0, node.children[i], node.children[j], (h - 1) as nat));
                }
            }
            assert(absent(s0, ci, (h - 1) as nat, x));
        }
        lemma_agree(
            s0,
            u0,
            s1,
            u1,
            cj,
            (h - 1) as nat,
            child_lo(node, j, lo),
            child_hi(node, j, hi),
            limits,
            false,
        );
    }
}

/// The leaves below each child of a node are chained where those below
/// the node are.
pub proof fn lemma_linked_child(s: Store, id: PageId, h: nat, exit: Option<PageId>, i: int)
    requires
        h > 0,
        linked(s, id, h, exit),
        0 <= i <= s[id].keys.len(),
    ensures
        linked(s, s[id].children[i], (h - 1) as nat, exit_of(s, s[id], i, h, exit)),
{
    reveal(linked);
}

/// The leaves below a node of a B+ tree are chained as before after one
/// of its children was worked on, if the leaves below that child still
/// begin with the same leaf and are chained as before.
pub proof fn lemma_linked_after_child(
    s0: Store,
    u0: Set<PageId>,
    s1: Store,
    u1: Set<PageId>,
    id: PageId,
    h: nat,
    lo: Option<i64>,
    hi: Option<i64>,
    limits: Limits,
    is_root: bool,
    i: int,
    exit: Option<PageId>,
)
    requires
        subtree_ok(s0, u0, id, h, lo, hi, limits, is_root),
        h > 0,
        limits.ok(),
        0 <= i <= s0[id].keys.len(),
        forall|x: PageId|
            u0.contains(x) && s0.contains_key(x) && #[trigger] absent(
                s0,
                s0[id].children[i],
                (h - 1) as nat,
                x,
            ) ==> s1.contains_key(x) && s1[x] == s0[x] && u1.contains(x),
        told_apart(limits, s0, id, h),
        linked(s0, id, h, exit),
        first_leaf(s1, s0[id].children[i], (h - 1) as nat) == first_leaf(
            s0,
            s0[id].children[i],
            (h - 1) as nat,
        ),
        linked(s1, s0[id].children[i], (h - 1) as nat, exit_of(s0, s0[id], i, h, exit)),
    ensures
        linked(s1, id, h, exit),
        first_leaf(s1, id, h) == first_leaf(s0, id, h),
{
    let node = s0[id];
    let hc = (h - 1) as nat;
    lemma_after_child(s0, u0, s1, u1, id, h, lo, hi, limits, is_root, i);
    assert(first_leaf(s1, node.children[0], hc) == first_leaf(s0, node.children[0], hc));
    reveal(linked);
    assert forall|m: int| 0 <= m <= node.keys.len() implies linked(
        s1,
        #[trigger] node.children[m],
        hc,
        exit_of(s1, node, m, h, exit),
    ) by {
        if m < node.keys.len() {
            assert(first_leaf(s1, node.children[m + 1], hc) == first_leaf(
                s0,
                node.children[m + 1],
                hc,
            ));
        }
        assert(exit_of(s1, node, m, h, exit) == exit_of(s0, node, m, h, exit));
        assert(linked(s0, node.children[m], hc, exit_of(s0, node, m, h, exit)));
    }
}

} // verus!
