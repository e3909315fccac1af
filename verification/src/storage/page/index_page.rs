use crate::codec::{
    i64_at, prefix_kept, read_i64, read_u16, read_u32, u16_at, u32_at, write_i64, write_u16,
    write_u32, write_u8, zero_bytes,
};
use crate::storage::page::page::Page;
use crate::types::{PageId, SlotId, PAGE_SIZE};
use vstd::prelude::*;

verus! {

/// Bytes of a page id in a page image.
pub const PAGE_ID_SIZE: usize = 4;

/// Bytes of a slot id in a page image.
pub const SLOT_ID_SIZE: usize = 1;

/// Bytes of the number of keys in a page image.
pub const KEYS_LEN: usize = 2;

/// Bytes of a key in a page image.
pub const KEY_SIZE: usize = 8;

/// Bytes at the start of every index page: id, kind and number of keys.
pub const INDEX_HEADER_SIZE: usize = 7;

/// Bytes that one entry of a leaf takes: key and record id.
pub const LEAF_ENTRY_SIZE: usize = 13;

/// Bytes that one entry of an internal node takes: key and child.
pub const INTERNAL_ENTRY_SIZE: usize = 12;

/// Position of the first entry in the image of a leaf.
pub const LEAF_ENTRIES_AT: usize = 12;

/// Greatest number of entries that the image of a leaf can hold.
pub const LEAF_CAPACITY: usize = 314;

/// Greatest number of keys that the image of an internal node can hold.
pub const INTERNAL_CAPACITY: usize = 340;

/// Position of entry `i` in the image of a leaf.
pub open spec fn leaf_entry_at(i: int) -> int {
    12 + 13 * i
}

/// Position of key `i` in the image of an internal node; the child left of
/// the key follows it.
pub open spec fn internal_entry_at(i: int) -> int {
    7 + 12 * i
}

/// Size of what precedes the entries in an index page's image.
pub fn get_page_header_size() -> (size: usize)
    ensures
        size == INDEX_HEADER_SIZE,
{
    PAGE_ID_SIZE + 1 + KEYS_LEN
}

/// Position of entry `i` in the image of a leaf; an entry before the last
/// place ends within the page.
fn leaf_entry_offset(i: usize) -> (at: usize)
    requires
        i <= LEAF_CAPACITY,
    ensures
        at == leaf_entry_at(i as int),
        at + LEAF_ENTRY_SIZE <= PAGE_SIZE || i == LEAF_CAPACITY,
{
    LEAF_ENTRIES_AT + 13 * i
}

/// Position of key `i` in the image of an internal node; a key before the
/// last place ends within the page, with the child after it.
fn internal_entry_offset(i: usize) -> (at: usize)
    requires
        i <= INTERNAL_CAPACITY,
    ensures
        at == internal_entry_at(i as int),
        at + INTERNAL_ENTRY_SIZE + PAGE_ID_SIZE <= PAGE_SIZE || i == INTERNAL_CAPACITY,
        at + PAGE_ID_SIZE <= PAGE_SIZE,
{
    INDEX_HEADER_SIZE + 12 * i
}

/// Greatest number of entries that a leaf can hold.
pub fn get_leaf_capacity() -> (capacity: usize)
    ensures
        capacity == LEAF_CAPACITY,
        leaf_entry_at(capacity as int) <= PAGE_SIZE < leaf_entry_at(capacity + 1),
{
    LEAF_CAPACITY
}

/// Greatest number of keys that an internal node can hold.
pub fn get_internal_capacity() -> (capacity: usize)
    ensures
        capacity == INTERNAL_CAPACITY,
        internal_entry_at(capacity as int) + PAGE_ID_SIZE <= PAGE_SIZE < internal_entry_at(
            capacity + 1,
        ) + PAGE_ID_SIZE,
{
    INTERNAL_CAPACITY
}

/// Names a record of a table heap: a data page and a slot in it.
#[derive(Debug, Clone, Copy, PartialEq, Eq, Structural)]
pub struct RecordId {
    pub page_id: PageId,
    pub slot_id: SlotId,
}

/// The two kinds of B+ tree node.
#[derive(Copy, Clone, Debug, Eq, PartialEq, Structural)]
pub enum IndexType {
    Leaf,
    Internal,
}

impl IndexType {
    /// The byte that stands for the kind in a page image.
    pub open spec fn spec_byte(self) -> u8 {
        match self {
            IndexType::Leaf => 0,
            IndexType::Internal => 1,
        }
    }

    /// The kind that a byte of a page image stands for.
    pub open spec fn spec_from_byte(b: u8) -> Option<IndexType> {
        if b == 0 {
            Some(IndexType::Leaf)
        } else if b == 1 {
            Some(IndexType::Internal)
        } else {
            None
        }
    }

    /// The kind that a byte of a page image stands for, if it stands for one.
    pub fn from_byte(b: u8) -> (kind: Option<Self>)
        ensures
            kind == Self::spec_from_byte(b),
    {
        match b {
            0 => Some(IndexType::Leaf),
            1 => Some(IndexType::Internal),
            _ => None,
        }
    }

    /// The byte that stands for the kind in a page image.
    pub fn to_byte(self) -> (b: u8)
        ensures
            b == self.spec_byte(),
    {
        match self {
            IndexType::Leaf => 0,
            IndexType::Internal => 1,
        }
    }
}

/// A node of the B+ tree. A leaf pairs each key with a record id and names
/// the next leaf; an internal node separates its children by its keys.
#[derive(Clone, Debug)]
pub struct IndexPage {
    pub id: PageId,
    pub page_type: IndexType,
    pub keys: Vec<i64>,
    /// Only of a leaf.
    pub rids: Vec<RecordId>,
    /// Only of an internal node.
    pub children: Vec<PageId>,
    /// Only of a leaf.
    pub next: Option<PageId>,
}

/// The mathematical content of an index page.
pub struct IndexPageView {
    pub id: PageId,
    pub page_type: IndexType,
    pub keys: Seq<i64>,
    /// Of a leaf: the record id of each key, by position.
    pub rids: Seq<RecordId>,
    /// Of an internal node: the children, one more than keys.
    pub children: Seq<PageId>,
    /// Of a leaf: the next leaf in key order.
    pub next: Option<PageId>,
}

/// The keys are strictly ascending.
pub open spec fn ascending(keys: Seq<i64>) -> bool {
    forall|i: int, j: int| 0 <= i < j < keys.len() ==> keys[i] < keys[j]
}

/// The number of keys that are less than `key`: in ascending keys, the
/// position at which `key` stands or would be put.
pub open spec fn rank(keys: Seq<i64>, key: i64) -> int
    decreases keys.len(),
{
    if keys.len() == 0 {
        0
    } else {
        rank(keys.drop_last(), key) + if keys.last() < key {
            1int
        } else {
            0int
        }
    }
}

/// The first position from `from` on whose key is greater than `key`, or the
/// number of keys if there is none.
pub open spec fn first_above(keys: Seq<i64>, key: i64, from: int) -> int
    decreases keys.len() - from,
{
    if from < 0 || from >= keys.len() || key < keys[from] {
        from
    } else {
        first_above(keys, key, from + 1)
    }
}

/// The first position from `from` on whose key equals `key`, if there is one.
pub open spec fn first_equal(keys: Seq<i64>, key: i64, from: int) -> Option<int>
    decreases keys.len() - from,
{
    if from < 0 || from >= keys.len() {
        None
    } else if keys[from] == key {
        Some(from)
    } else {
        first_equal(keys, key, from + 1)
    }
}

/// The record ids of the entries below `upto` whose key lies in `start ..= end`.
pub open spec fn rids_in_range(
    keys: Seq<i64>,
    rids: Seq<RecordId>,
    start: i64,
    end: i64,
    upto: int,
) -> Seq<RecordId>
    decreases upto,
{
    if upto <= 0 {
        Seq::empty()
    } else {
        let before = rids_in_range(keys, rids, start, end, upto - 1);
        if start <= keys[upto - 1] <= end {
            before.push(rids[upto - 1])
        } else {
            before
        }
    }
}

impl IndexPageView {
    /// The lengths of the parts of the node fit its kind.
    pub open spec fn aligned(self) -> bool {
        match self.page_type {
            IndexType::Leaf => self.rids.len() == self.keys.len(),
            IndexType::Internal => self.children.len() == self.keys.len() + 1,
        }
    }

    /// The node is aligned and its keys are strictly ascending.
    pub open spec fn wf(self) -> bool {
        self.aligned() && ascending(self.keys)
    }

    /// Greatest number of keys that an image of a node of this kind can hold.
    pub open spec fn capacity(self) -> int {
        match self.page_type {
            IndexType::Leaf => LEAF_CAPACITY as int,
            IndexType::Internal => INTERNAL_CAPACITY as int,
        }
    }

    /// The node can be written to a page image and read back unchanged: it
    /// holds the parts of its kind only, and no more keys than fit. An
    /// internal node with no key can be written only if it has no child.
    pub open spec fn storable(self) -> bool {
        &&& self.keys.len() <= self.capacity()
        &&& match self.page_type {
            IndexType::Leaf => self.rids.len() == self.keys.len() && self.children.len() == 0,
            IndexType::Internal => {
                &&& self.rids.len() == 0
                &&& self.next is None
                &&& if self.keys.len() == 0 {
                    self.children.len() == 0
                } else {
                    self.children.len() == self.keys.len() + 1
                }
            },
        }
    }

    /// The node of the given kind with no entries.
    pub open spec fn empty(id: PageId, page_type: IndexType) -> IndexPageView {
        IndexPageView {
            id,
            page_type,
            keys: Seq::empty(),
            rids: Seq::empty(),
            children: Seq::empty(),
            next: None,
        }
    }

    /// What a split leaves in the node: see `IndexPage::split`.
    pub open spec fn split_left(self, new_id: PageId) -> IndexPageView {
        let mid = self.keys.len() as int / 2;
        match self.page_type {
            IndexType::Internal => IndexPageView {
                keys: self.keys.take(mid),
                children: self.children.take(mid + 1),
                ..self
            },
            IndexType::Leaf => IndexPageView {
                keys: self.keys.take(mid),
                rids: self.rids.take(mid),
                next: Some(new_id),
                ..self
            },
        }
    }

    /// The sibling that a split makes: see `IndexPage::split`.
    pub open spec fn split_right(self, new_id: PageId) -> IndexPageView {
        let mid = self.keys.len() as int / 2;
        match self.page_type {
            IndexType::Internal => IndexPageView {
                keys: self.keys.skip(mid + 1),
                children: self.children.skip(mid + 1),
                ..IndexPageView::empty(new_id, IndexType::Internal)
            },
            IndexType::Leaf => IndexPageView {
                keys: self.keys.skip(mid),
                rids: self.rids.skip(mid),
                next: self.next,
                ..IndexPageView::empty(new_id, IndexType::Leaf)
            },
        }
    }

    /// The node after the entries of its right sibling were added to it.
    pub open spec fn merged(self, sibling: IndexPageView) -> IndexPageView {
        match self.page_type {
            IndexType::Internal => IndexPageView {
                keys: self.keys + sibling.keys,
                children: self.children + sibling.children,
                ..self
            },
            IndexType::Leaf => IndexPageView {
                keys: self.keys + sibling.keys,
                rids: self.rids + sibling.rids,
                next: sibling.next,
                ..self
            },
        }
    }

    /// The node after a merge took its entries away.
    pub open spec fn drained(self) -> IndexPageView {
        match self.page_type {
            IndexType::Internal => IndexPageView {
                keys: Seq::empty(),
                children: Seq::empty(),
                ..self
            },
            IndexType::Leaf => IndexPageView {
                keys: Seq::empty(),
                rids: Seq::empty(),
                next: None,
                ..self
            },
        }
    }

    /// The node after it took one entry from `sibling`: see `IndexPage::redistribute`.
    pub open spec fn borrowed(self, sibling: IndexPageView, old_sep: i64,
        from_left: bool) -> IndexPageView {
        match self.page_type {
            IndexType::Internal => if from_left {
                IndexPageView {
                    keys: seq![old_sep] + self.keys,
                    children: seq![sibling.children.last()] + self.children,
                    ..self
                }
            } else {
                IndexPageView {
                    keys: self.keys.push(old_sep),
                    children: self.children.push(sibling.children.first()),
                    ..self
                }
            },
            IndexType::Leaf => if from_left {
                IndexPageView {
                    keys: seq![sibling.keys.last()] + self.keys,
                    rids: seq![sibling.rids.last()] + self.rids,
                    ..self
                }
            } else {
                IndexPageView {
                    keys: self.keys.push(sibling.keys.first()),
                    rids: self.rids.push(sibling.rids.first()),
                    ..self
                }
            },
        }
    }

    /// The node after it gave one entry to a sibling: its last one to a
    /// right sibling (`to_right`), its first one to a left sibling.
    pub open spec fn lent(self, to_right: bool) -> IndexPageView {
        match self.page_type {
            IndexType::Internal => if to_right {
                IndexPageView {
                    keys: self.keys.drop_last(),
                    children: self.children.drop_last(),
                    ..self
                }
            } else {
                IndexPageView {
                    keys: self.keys.drop_first(),
                    children: self.children.drop_first(),
                    ..self
                }
            },
            IndexType::Leaf => if to_right {
                IndexPageView { keys: self.keys.drop_last(), rids: self.rids.drop_last(), ..self }
            } else {
                IndexPageView { keys: self.keys.drop_first(), rids: self.rids.drop_first(), ..self }
            },
        }
    }

    /// The key that separates the node from `sibling` after it took one
    /// entry from it: see `IndexPage::redistribute`.
    pub open spec fn separator_after(self, sibling: IndexPageView, from_left: bool) -> Option<i64> {
        match self.page_type {
            IndexType::Internal => if from_left {
                Some(sibling.keys.last())
            } else {
                Some(sibling.keys.first())
            },
            IndexType::Leaf => if from_left {
                Some(sibling.keys.last())
            } else if sibling.keys.len() > 1 {
                Some(sibling.keys[1])
            } else {
                None
            },
        }
    }

    /// The leaf whose fields a page image holds, read off by position:
    /// after the common header a flag and the next leaf, then the entries,
    /// each a key, a page id and a slot id.
    pub open spec fn leaf_from_image(bytes: Seq<u8>) -> IndexPageView {
        let n = u16_at(bytes, 5) as nat;
        IndexPageView {
            id: u32_at(bytes, 0),
            page_type: IndexType::Leaf,
            keys: Seq::new(n, |i: int| i64_at(bytes, leaf_entry_at(i as int))),
            rids: Seq::new(
                n,
                |i: int|
                    RecordId {
                        page_id: u32_at(bytes, leaf_entry_at(i) + 8),
                        slot_id: bytes[leaf_entry_at(i) + 12],
                    },
            ),
            children: Seq::empty(),
            next: if bytes[7] == 1 {
                Some(u32_at(bytes, 8))
            } else {
                None
            },
        }
    }

    /// The internal node whose fields a page image holds, read off by
    /// position: after the common header each key with the child left of
    /// it, then the last child, which is there only if there is a key.
    pub open spec fn internal_from_image(bytes: Seq<u8>) -> IndexPageView {
        let n = u16_at(bytes, 5) as nat;
        IndexPageView {
            id: u32_at(bytes, 0),
            page_type: IndexType::Internal,
            keys: Seq::new(n, |i: int| i64_at(bytes, internal_entry_at(i as int))),
            rids: Seq::empty(),
            children: if n == 0 {
                Seq::empty()
            } else {
                Seq::new(
                    n + 1,
                    |i: int|
                        if i < n {
                            u32_at(bytes, internal_entry_at(i) + 8)
                        } else {
                            u32_at(bytes, internal_entry_at(n as int))
                        },
                )
            },
            next: None,
        }
    }

    /// The bytes that the image of the node uses.
    pub open spec fn used(self) -> int {
        match self.page_type {
            IndexType::Leaf => leaf_entry_at(self.keys.len() as int),
            IndexType::Internal => internal_entry_at(self.keys.len() as int) + PAGE_ID_SIZE,
        }
    }
}

impl View for IndexPage {
    type V = IndexPageView;

    open spec fn view(&self) -> IndexPageView {
        IndexPageView {
            id: self.id,
            page_type: self.page_type,
            keys: self.keys@,
            rids: self.rids@,
            children: self.children@,
            next: self.next,
        }
    }
}

/// In ascending keys, the keys before position `rank` are less than `key`
/// and the keys from it on are not.
pub proof fn lemma_rank(keys: Seq<i64>, key: i64)
    requires
        ascending(keys),
    ensures
        0 <= rank(keys, key) <= keys.len(),
        forall|j: int| 0 <= j < rank(keys, key) ==> keys[j] < key,
        forall|j: int| rank(keys, key) <= j < keys.len() ==> keys[j] >= key,
        keys.contains(key) <==> (rank(keys, key) < keys.len() && keys[rank(keys, key)] == key),
    decreases keys.len(),
{
    if keys.len() > 0 {
        let front = keys.drop_last();
        let n = keys.len() - 1;
        assert forall|i: int, j: int| 0 <= i < j < front.len() implies front[i] < front[j] by {
            assert(front[i] == keys[i] && front[j] == keys[j]);
        }
        lemma_rank(front, key);
        let r0 = rank(front, key);
        if keys.last() < key {
            if r0 < n {
                assert(front[r0] >= key);
                assert(keys[r0] < keys[n]);
            }
            assert(r0 == n);
            assert forall|j: int| 0 <= j < rank(keys, key) implies keys[j] < key by {
                if j < n {
                    assert(keys[j] < keys[n]);
                }
            }
        } else {
            assert forall|j: int| 0 <= j < rank(keys, key) implies keys[j] < key by {
                assert(front[j] == keys[j]);
            }
            assert forall|j: int| rank(keys, key) <= j < keys.len() implies keys[j] >= key by {
                if j < n {
                    assert(front[j] == keys[j]);
                }
            }
        }
    }
    let r = rank(keys, key);
    if keys.contains(key) {
        let i = choose|i: int| 0 <= i < keys.len() && keys[i] == key;
        if i > r {
            assert(keys[r] < keys[i]);
        }
    }
}

/// The position is the rank of `key`, if the keys before it are less than
/// `key` and those from it on are not.
pub proof fn lemma_rank_is(keys: Seq<i64>, key: i64, p: int)
    requires
        ascending(keys),
        0 <= p <= keys.len(),
        forall|j: int| 0 <= j < p ==> keys[j] < key,
        forall|j: int| p <= j < keys.len() ==> keys[j] >= key,
    ensures
        rank(keys, key) == p,
{
    lemma_rank(keys, key);
    let r = rank(keys, key);
    if r < p {
        assert(keys[r] < key);
    }
    if p < r {
        assert(keys[p] < key);
    }
}

/// The keys before `first_above` are not greater than `key`, and the key at
/// it is.
pub proof fn lemma_first_above(keys: Seq<i64>, key: i64, from: int)
    requires
        0 <= from <= keys.len(),
    ensures
        from <= first_above(keys, key, from) <= keys.len(),
        forall|j: int| from <= j < first_above(keys, key, from) ==> keys[j] <= key,
        first_above(keys, key, from) < keys.len() ==> key < keys[first_above(keys, key, from)],
    decreases keys.len() - from,
{
    if from < keys.len() && !(key < keys[from]) {
        lemma_first_above(keys, key, from + 1);
    }
}

/// The key at `first_equal` equals `key`, and no key before it does.
pub proof fn lemma_first_equal(keys: Seq<i64>, key: i64, from: int)
    requires
        0 <= from <= keys.len(),
    ensures
        match first_equal(keys, key, from) {
            Some(i) => from <= i < keys.len() && keys[i] == key && forall|j: int|
                from <= j < i ==> keys[j] != key,
            None => forall|j: int| from <= j < keys.len() ==> keys[j] != key,
        },
    decreases keys.len() - from,
{
    if from < keys.len() && keys[from] != key {
        lemma_first_equal(keys, key, from + 1);
    }
}

/// Returns the number of keys that are less than `key`.
pub fn lower_bound(keys: &Vec<i64>, key: i64) -> (pos: usize)
    requires
        ascending(keys@),
    ensures
        pos == rank(keys@, key),
        pos <= keys@.len(),
{
    let mut lo: usize = 0;
    let mut hi: usize = keys.len();
    while lo < hi
        invariant
            0 <= lo <= hi <= keys@.len(),
            ascending(keys@),
            forall|j: int| 0 <= j < lo ==> keys@[j] < key,
            forall|j: int| hi <= j < keys@.len() ==> keys@[j] >= key,
        decreases hi - lo,
    {
        let mid: usize = lo + (hi - lo) / 2;
        if keys[mid] < key {
            assert forall|j: int| 0 <= j < mid + 1 implies keys@[j] < key by {
                if j < mid {
                    assert(keys@[j] < keys@[mid as int]);
                }
            }
            lo = mid + 1;
        } else {
            assert forall|j: int| mid <= j < keys@.len() implies keys@[j] >= key by {
                if j > mid {
                    assert(keys@[mid as int] < keys@[j]);
                }
            }
            hi = mid;
        }
    }
    proof {
        lemma_rank_is(keys@, key, lo as int);
    }
    lo
}

/// The keys of two nodes side by side lie on their sides of the key `sep`
/// that stands between them in their parent: those of the left node
/// below it, those of the right node not below it, and above it where the
/// nodes are internal nodes.
pub open spec fn sides(left: IndexPageView, sep: i64, right: IndexPageView) -> bool {
    &&& forall|i: int| 0 <= i < left.keys.len() ==> #[trigger] left.keys[i] < sep
    &&& forall|i: int| 0 <= i < right.keys.len() ==> sep <= #[trigger] right.keys[i]
    &&& left.page_type == IndexType::Internal ==> forall|i: int|
        0 <= i < right.keys.len() ==> sep < #[trigger] right.keys[i]
}

/// Two nodes side by side stay well formed when one takes an entry from
/// the other through `redistribute`: each has the parts of its kind in
/// step and its keys strictly ascending, the one has one key more and the
/// other one key less, and between leaves the entries of the two are
/// those that they had, in the same order.
pub proof fn lemma_redistribute(
    own: IndexPageView,
    sibling: IndexPageView,
    old_sep: i64,
    from_left: bool,
)
    requires
        own.wf(),
        sibling.wf(),
        own.page_type == sibling.page_type,
        sibling.keys.len() >= 1,
        from_left ==> sides(sibling, old_sep, own),
        !from_left ==> sides(own, old_sep, sibling),
    ensures
        own.borrowed(sibling, old_sep, from_left).wf(),
        sibling.lent(from_left).wf(),
        own.borrowed(sibling, old_sep, from_left).keys.len() == own.keys.len() + 1,
        sibling.lent(from_left).keys.len() == sibling.keys.len() - 1,
        own.page_type == IndexType::Leaf && from_left ==> sibling.lent(from_left).keys
            + own.borrowed(sibling, old_sep, from_left).keys == sibling.keys + own.keys,
        own.page_type == IndexType::Leaf && !from_left ==> own.borrowed(
            sibling,
            old_sep,
            from_left,
        ).keys + sibling.lent(from_left).keys == own.keys + sibling.keys,
{
    let a = own.borrowed(sibling, old_sep, from_left);
    let b = sibling.lent(from_left);
    let n = sibling.keys.len() as int;
    assert(ascending(b.keys)) by {
        assert forall|i: int, j: int| 0 <= i < j < b.keys.len() implies b.keys[i] < b.keys[j] by {
            if from_left {
                assert(b.keys[i] == sibling.keys[i] && b.keys[j] == sibling.keys[j]);
            } else {
                assert(b.keys[i] == sibling.keys[i + 1] && b.keys[j] == sibling.keys[j + 1]);
            }
        }
    }
    assert(ascending(a.keys)) by {
        assert forall|i: int, j: int| 0 <= i < j < a.keys.len() implies a.keys[i] < a.keys[j] by {
            if from_left {
                if i == 0 {
                    assert(a.keys[j] == own.keys[j - 1]);
                    match own.page_type {
                        IndexType::Internal => {
                            assert(a.keys[0] == old_sep);
                        },
                        IndexType::Leaf => {
                            assert(a.keys[0] == sibling.keys[n - 1]);
                        },
                    }
                } else {
                    assert(a.keys[i] == own.keys[i - 1] && a.keys[j] == own.keys[j - 1]);
                }
            } else {
                if j == own.keys.len() {
                    assert(a.keys[i] == own.keys[i]);
                    match own.page_type {
                        IndexType::Internal => {
                            assert(a.keys[j] == old_sep);
                        },
                        IndexType::Leaf => {
                            assert(a.keys[j] == sibling.keys[0]);
                        },
                    }
                } else {
                    assert(a.keys[i] == own.keys[i] && a.keys[j] == own.keys[j]);
                }
            }
        }
    }
    if own.page_type == IndexType::Leaf {
        if from_left {
            assert(b.keys + a.keys =~= sibling.keys + own.keys);
        } else {
            assert(a.keys + b.keys =~= own.keys + sibling.keys);
        }
    }
}

impl IndexPage {
    /// Creates an empty node of the given kind.
    pub fn new(id: PageId, page_type: IndexType) -> (page: Self)
        ensures
            page@ == IndexPageView::empty(id, page_type),
    {
        Self {
            id,
            page_type,
            keys: Vec::new(),
            rids: Vec::new(),
            children: Vec::new(),
            next: None,
        }
    }

    /// A copy of the node.
    pub fn duplicate(&self) -> (copy: Self)
        ensures
            copy@ == self@,
    {
        let copy = IndexPage {
            id: self.id,
            page_type: self.page_type,
            keys: self.keys.clone(),
            rids: self.rids.clone(),
            children: self.children.clone(),
            next: self.next,
        };
        assert(copy.keys@ =~= self.keys@);
        assert(copy.rids@ =~= self.rids@);
        assert(copy.children@ =~= self.children@);
        copy
    }

    /// Of a leaf: the record ids, by position of their keys.
    #[inline]
    pub fn get_rids(&self) -> (rids: &Vec<RecordId>)
        ensures
            rids@ == self@.rids,
    {
        &self.rids
    }

    /// Of an internal node: the children.
    #[inline]
    pub fn get_children(&self) -> (children: &Vec<PageId>)
        ensures
            children@ == self@.children,
    {
        &self.children
    }

    /// Of an internal node: the children, to change them.
    #[inline]
    pub fn get_children_mut(&mut self) -> (children: &mut Vec<PageId>)
        ensures
            children@ == old(self)@.children,
            final(self)@ == (IndexPageView { children: final(children)@, ..old(self)@ }),
    {
        &mut self.children
    }

    /// Of an internal node: the child to descend to for `key`: the one at the
    /// position of the first key that is greater than `key`, the last child
    /// if no key is. `None` if the node has no child there.
    pub fn search_child(&self, key: &i64) -> (child: Option<PageId>)
        ensures
            child == ({
                let i = first_above(self@.keys, *key, 0);
                if i < self@.keys.len() {
                    if i < self@.children.len() {
                        Some(self@.children[i])
                    } else {
                        None
                    }
                } else if self@.children.len() > 0 {
                    Some(self@.children.last())
                } else {
                    None
                }
            }),
    {
        let n: usize = self.keys.len();
        let mut i: usize = 0;
        while i < n
            invariant
                n == self.keys@.len(),
                i <= n,
                first_above(self.keys@, *key, 0) == first_above(self.keys@, *key, i as int),
            decreases n - i,
        {
            if *key < self.keys[i] {
                if i < self.children.len() {
                    return Some(self.children[i]);
                } else {
                    return None;
                }
            }
            i += 1;
        }
        let m: usize = self.children.len();
        if m > 0 {
            Some(self.children[m - 1])
        } else {
            None
        }
    }

    /// Of a leaf: the record id of the first entry whose key equals `key`.
    pub fn search_rid(&self, key: &i64) -> (rid: Option<&RecordId>)
        ensures
            match first_equal(self@.keys, *key, 0) {
                Some(i) => if i < self@.rids.len() {
                    rid == Some(&self@.rids[i])
                } else {
                    rid is None
                },
                None => rid is None,
            },
    {
        let n: usize = self.keys.len();
        let mut i: usize = 0;
        while i < n
            invariant
                n == self.keys@.len(),
                i <= n,
                first_equal(self.keys@, *key, 0) == first_equal(self.keys@, *key, i as int),
            decreases n - i,
        {
            if self.keys[i] == *key {
                if i < self.rids.len() {
                    return Some(&self.rids[i]);
                } else {
                    return None;
                }
            }
            i += 1;
        }
        None
    }

    /// Of a leaf: puts the entry `(key, record)` at its place among the
    /// ascending keys. If the key is there already, its record id is replaced.
    pub fn insert_record(&mut self, key: i64, record: RecordId)
        requires
            old(self)@.page_type == IndexType::Leaf,
            old(self)@.wf(),
        ensures
            final(self)@.wf(),
            final(self)@ == ({
                let v = old(self)@;
                let pos = rank(v.keys, key);
                if v.keys.contains(key) {
                    IndexPageView { rids: v.rids.update(pos, record), ..v }
                } else {
                    IndexPageView {
                        keys: v.keys.insert(pos, key),
                        rids: v.rids.insert(pos, record),
                        ..v
                    }
                }
            }),
    {
        proof {
            lemma_rank(self.keys@, key);
        }
        let index = lower_bound(&self.keys, key);
        if index < self.keys.len() && self.keys[index] == key {
            self.rids[index] = record;
        } else {
            self.keys.insert(index, key);
            self.rids.insert(index, record);
        }
    }

    /// Of an internal node: puts `key` at its place among the ascending keys
    /// and `child` just right of it. The keys stay strictly ascending if
    /// `key` was not among them.
    pub fn insert_child(&mut self, key: i64, child: PageId)
        requires
            old(self)@.page_type == IndexType::Internal,
            old(self)@.wf(),
        ensures
            final(self)@.aligned(),
            !old(self)@.keys.contains(key) ==> final(self)@.wf(),
            final(self)@ == ({
                let v = old(self)@;
                let pos = rank(v.keys, key);
                IndexPageView {
                    keys: v.keys.insert(pos, key),
                    children: v.children.insert(pos + 1, child),
                    ..v
                }
            }),
    {
        proof {
            lemma_rank(self.keys@, key);
        }
        let index = lower_bound(&self.keys, key);
        let m: usize = self.children.len();
        assert(index < m);
        let right: usize = index + 1;
        self.keys.insert(index, key);
        self.children.insert(right, child);
    }

    /// Removes `key` with what belongs to it: in a leaf its record id, in an
    /// internal node the child left of it. Returns whether the key was there.
    pub fn remove_key(&mut self, key: i64) -> (found: bool)
        requires
            old(self)@.wf(),
        ensures
            final(self)@.wf(),
            found == old(self)@.keys.contains(key),
            final(self)@ == ({
                let v = old(self)@;
                let pos = rank(v.keys, key);
                if !v.keys.contains(key) {
                    v
                } else {
                    match v.page_type {
                        IndexType::Internal => IndexPageView {
                            keys: v.keys.remove(pos),
                            children: v.children.remove(pos),
                            ..v
                        },
                        IndexType::Leaf => IndexPageView {
                            keys: v.keys.remove(pos),
                            rids: v.rids.remove(pos),
                            ..v
                        },
                    }
                }
            }),
    {
        proof {
            lemma_rank(self.keys@, key);
        }
        let index = lower_bound(&self.keys, key);
        if index < self.keys.len() && self.keys[index] == key {
            self.keys.remove(index);
            match self.page_type {
                IndexType::Internal => {
                    self.children.remove(index);
                },
                IndexType::Leaf => {
                    self.rids.remove(index);
                },
            }
            true
        } else {
            false
        }
    }

    /// Of a leaf: the record ids of the entries of this page whose key lies
    /// in `start ..= end`, in the order of the entries.
    pub fn search_range(&self, start: &i64, end: &i64) -> (found: Vec<&RecordId>)
        requires
            self@.rids.len() == self@.keys.len(),
        ensures
            found@.len() == rids_in_range(
                self@.keys,
                self@.rids,
                *start,
                *end,
                self@.keys.len() as int,
            ).len(),
            forall|k: int|
                0 <= k < found@.len() ==> *(#[trigger] found@[k]) == rids_in_range(
                    self@.keys,
                    self@.rids,
                    *start,
                    *end,
                    self@.keys.len() as int,
                )[k],
    {
        let mut found: Vec<&RecordId> = Vec::new();
        let n: usize = self.keys.len();
        let mut i: usize = 0;
        while i < n
            invariant
                n == self.keys@.len(),
                n == self.rids@.len(),
                i <= n,
                found@.len() == rids_in_range(self@.keys, self@.rids, *start, *end, i as int).len(),
                forall|k: int|
                    0 <= k < found@.len() ==> *(#[trigger] found@[k]) == rids_in_range(
                        self@.keys,
                        self@.rids,
                        *start,
                        *end,
                        i as int,
                    )[k],
            decreases n - i,
        {
            if self.keys[i] >= *start && self.keys[i] <= *end {
                found.push(&self.rids[i]);
            }
            i += 1;
        }
        found
    }

    /// Splits the node at the middle key and returns that key, to be put
    /// into the parent, with the new right sibling. A leaf keeps the entries
    /// before the middle key, hands the others to the sibling and names the
    /// sibling as its next leaf; the sibling names what the leaf named before.
    /// An internal node keeps the keys before the middle key and hands on
    /// those after it: the middle key stays in neither.
    pub fn split(&mut self, new_id: PageId) -> (res: (i64, Self))
        requires
            old(self)@.aligned(),
            old(self)@.keys.len() >= 1,
        ensures
            res.0 == old(self)@.keys[old(self)@.keys.len() as int / 2],
            final(self)@ == old(self)@.split_left(new_id),
            res.1@ == old(self)@.split_right(new_id),
            final(self)@.aligned(),
            res.1@.aligned(),
            old(self)@.wf() ==> final(self)@.wf() && res.1@.wf(),
    {
        let mid: usize = self.keys.len() / 2;
        let promoted_key: i64 = self.keys[mid];
        match self.page_type {
            IndexType::Internal => {
                let sibling_keys = self.keys.split_off(mid + 1);
                let sibling_children = self.children.split_off(mid + 1);
                self.keys.pop();
                let mut sibling = IndexPage::new(new_id, IndexType::Internal);
                sibling.keys = sibling_keys;
                sibling.children = sibling_children;
                proof {
                    let v = old(self)@;
                    assert(self@.keys =~= v.keys.take(mid as int));
                    assert(self@.children =~= v.children.take(mid + 1));
                    assert(sibling@.keys =~= v.keys.skip(mid + 1));
                    assert(sibling@.children =~= v.children.skip(mid + 1));
                }
                (promoted_key, sibling)
            },
            IndexType::Leaf => {
                let sibling_keys = self.keys.split_off(mid);
                let sibling_rids = self.rids.split_off(mid);
                let mut sibling = IndexPage::new(new_id, IndexType::Leaf);
                sibling.keys = sibling_keys;
                sibling.rids = sibling_rids;
                sibling.next = self.next;
                self.next = Some(new_id);
                proof {
                    let v = old(self)@;
                    assert(self@.keys =~= v.keys.take(mid as int));
                    assert(self@.rids =~= v.rids.take(mid as int));
                    assert(sibling@.keys =~= v.keys.skip(mid as int));
                    assert(sibling@.rids =~= v.rids.skip(mid as int));
                }
                (promoted_key, sibling)
            },
        }
    }

    /// Moves all entries of the right sibling to the end of this node and
    /// leaves the sibling empty. A leaf takes over the sibling's next leaf.
    /// For internal nodes the caller puts the parent's separator at the end
    /// of this node's keys first, so that it comes to stand between the keys
    /// of the two.
    pub fn merge(&mut self, sibling: &mut Self)
        requires
            old(self)@.page_type == old(sibling)@.page_type,
        ensures
            final(self)@ == old(self)@.merged(old(sibling)@),
            final(sibling)@ == old(sibling)@.drained(),
    {
        match self.page_type {
            IndexType::Internal => {
                self.keys.append(&mut sibling.keys);
                self.children.append(&mut sibling.children);
            },
            IndexType::Leaf => {
                self.keys.append(&mut sibling.keys);
                self.rids.append(&mut sibling.rids);
                self.next = sibling.next;
                sibling.next = None;
            },
        }
    }

    /// Moves one entry from a sibling into this node, if the sibling has more
    /// than `min_keys` keys, and returns the key that separates the two
    /// nodes from then on; returns `None`, and changes nothing, if the
    /// sibling has none to spare. `old_sep` is the key that separated the
    /// two nodes in their parent so far.
    ///
    /// Between leaves the sibling's nearest entry moves over; the new
    /// separator is the first key of the right one of the two nodes (`None`
    /// if the right sibling gave its only entry). Between internal nodes the
    /// entry goes through the parent: `old_sep` comes down into this node,
    /// together with the sibling's nearest child, and the sibling's nearest
    /// key goes up as the new separator.
    pub fn redistribute(
        &mut self,
        sibling: &mut Self,
        old_sep: i64,
        borrow_from_left: bool,
        min_keys: usize,
    ) -> (new_sep: Option<i64>)
        requires
            old(self)@.page_type == old(sibling)@.page_type,
            old(self)@.aligned(),
            old(sibling)@.aligned(),
        ensures
            final(self)@.aligned(),
            final(sibling)@.aligned(),
            old(sibling)@.keys.len() <= min_keys ==> new_sep is None && final(self)@ == old(self)@
                && final(sibling)@ == old(sibling)@,
            old(sibling)@.keys.len() > min_keys ==> {
                &&& final(self)@ == old(self)@.borrowed(old(sibling)@, old_sep, borrow_from_left)
                &&& final(sibling)@ == old(sibling)@.lent(borrow_from_left)
                &&& new_sep == old(self)@.separator_after(old(sibling)@, borrow_from_left)
                &&& final(self)@.keys.len() == old(self)@.keys.len() + 1
                &&& final(sibling)@.keys.len() == old(sibling)@.keys.len() - 1
            },
            min_keys >= 1 ==> (new_sep is None <==> old(sibling)@.keys.len() <= min_keys),
    {
        if sibling.keys.len() <= min_keys {
            return None;
        }
        match self.page_type {
            IndexType::Internal => {
                if borrow_from_left {
                    let key = sibling.keys.pop().unwrap();
                    let child = sibling.children.pop().unwrap();
                    self.keys.insert(0, old_sep);
                    self.children.insert(0, child);
                    proof {
                        let a = old(self)@;
                        let b = old(sibling)@;
                        assert(self@.keys =~= seq![old_sep] + a.keys);
                        assert(self@.children =~= seq![b.children.last()] + a.children);
                        assert(sibling@.keys =~= b.keys.drop_last());
                        assert(sibling@.children =~= b.children.drop_last());
                    }
                    Some(key)
                } else {
                    let key = sibling.keys.remove(0);
                    let child = sibling.children.remove(0);
                    self.keys.push(old_sep);
                    self.children.push(child);
                    proof {
                        let b = old(sibling)@;
                        assert(sibling@.keys =~= b.keys.drop_first());
                        assert(sibling@.children =~= b.children.drop_first());
                    }
                    Some(key)
                }
            },
            IndexType::Leaf => {
                if borrow_from_left {
                    let key = sibling.keys.pop().unwrap();
                    let rid = sibling.rids.pop().unwrap();
                    self.keys.insert(0, key);
                    self.rids.insert(0, rid);
                    proof {
                        let a = old(self)@;
                        let b = old(sibling)@;
                        assert(self@.keys =~= seq![b.keys.last()] + a.keys);
                        assert(self@.rids =~= seq![b.rids.last()] + a.rids);
                        assert(sibling@.keys =~= b.keys.drop_last());
                        assert(sibling@.rids =~= b.rids.drop_last());
                    }
                    Some(key)
                } else {
                    let key = sibling.keys.remove(0);
                    let rid = sibling.rids.remove(0);
                    self.keys.push(key);
                    self.rids.push(rid);
                    proof {
                        let b = old(sibling)@;
                        assert(sibling@.keys =~= b.keys.drop_first());
                        assert(sibling@.rids =~= b.rids.drop_first());
                    }
                    if sibling.keys.len() > 0 {
                        Some(sibling.keys[0])
                    } else {
                        None
                    }
                }
            },
        }
    }

    /// Of a leaf: names the next leaf.
    pub fn set_next(&mut self, next: PageId)
        ensures
            final(self)@ == (IndexPageView { next: Some(next), ..old(self)@ }),
    {
        self.next = Some(next);
    }

    /// Of a leaf: the next leaf, if one was named.
    pub fn get_next(&self) -> (next: Option<PageId>)
        ensures
            next == self@.next,
    {
        self.next
    }

    /// The first key, if there is one.
    pub fn min_key(&self) -> (key: Option<i64>)
        ensures
            key == (if self@.keys.len() > 0 {
                Some(self@.keys.first())
            } else {
                None::<i64>
            }),
    {
        if self.keys.len() > 0 {
            Some(self.keys[0])
        } else {
            None
        }
    }

    /// The last key, if there is one.
    pub fn max_key(&self) -> (key: Option<i64>)
        ensures
            key == (if self@.keys.len() > 0 {
                Some(self@.keys.last())
            } else {
                None::<i64>
            }),
    {
        let n: usize = self.keys.len();
        if n > 0 {
            Some(self.keys[n - 1])
        } else {
            None
        }
    }
}

impl Page for IndexPage {
    /// What the pages of a buffer pool must meet: they can be written out.
    open spec fn wf(&self) -> bool {
        self@.storable()
    }

    open spec fn id_of(view: IndexPageView) -> PageId {
        view.id
    }

    /// An image stands for a node if its kind byte names a kind and its
    /// number of keys is one that fits a page of that kind.
    open spec fn decode(bytes: Seq<u8>) -> Option<IndexPageView> {
        if bytes.len() != PAGE_SIZE {
            None
        } else {
            match IndexType::spec_from_byte(bytes[4]) {
                Some(IndexType::Leaf) => if u16_at(bytes, 5) <= LEAF_CAPACITY {
                    Some(IndexPageView::leaf_from_image(bytes))
                } else {
                    None
                },
                Some(IndexType::Internal) => if u16_at(bytes, 5) <= INTERNAL_CAPACITY {
                    Some(IndexPageView::internal_from_image(bytes))
                } else {
                    None
                },
                None => None,
            }
        }
    }

    /// A new page is an empty leaf.
    open spec fn spec_new(id: PageId) -> IndexPageView {
        IndexPageView::empty(id, IndexType::Leaf)
    }

    fn new(id: PageId) -> (page: Self) {
        IndexPage::new(id, IndexType::Leaf)
    }

    /// Layout: id (4), kind (1), number of keys (2); then, of an internal
    /// node, each key (8) with the child left of it (4) and the last child
    /// (4); of a leaf, a flag (1) and the next leaf (4), then each key (8)
    /// with its record's page id (4) and slot id (1). The rest is zero.
    fn serialize(&self) -> (buf: [u8; PAGE_SIZE])
        ensures
            forall|i: int| self@.used() <= i < PAGE_SIZE ==> buf@[i] == 0,
            self@.page_type == IndexType::Leaf ==> buf@[7] == (if self@.next is Some {
                1u8
            } else {
                0u8
            }),
            self@.page_type == IndexType::Leaf && self@.next is None ==> forall|i: int|
                8 <= i < 12 ==> buf@[i] == 0,
            self@.page_type == IndexType::Internal && self@.keys.len() == 0 ==> forall|i: int|
                7 <= i < PAGE_SIZE ==> buf@[i] == 0,
    {
        let mut buf: [u8; PAGE_SIZE] = zero_bytes();
        let n: usize = self.keys.len();
        write_u32(&mut buf, 0, self.id);
        write_u8(&mut buf, 4, self.page_type.to_byte());
        assert(n <= INTERNAL_CAPACITY);
        write_u16(&mut buf, 5, n as u16);
        match self.page_type {
            IndexType::Internal => {
                let mut i: usize = 0;
                while i < n
                    invariant
                        i <= n,
                        n == self.keys@.len(),
                        n <= INTERNAL_CAPACITY,
                        n > 0 ==> self.children@.len() == n + 1,
                        u32_at(buf@, 0) == self.id,
                        buf@[4] == 1,
                        u16_at(buf@, 5) == n,
                        forall|k: int|
                            internal_entry_at(i as int) <= k < PAGE_SIZE ==> buf@[k]
                                == 0,
                        forall|j: int|
                            0 <= j < i ==> i64_at(buf@, internal_entry_at(j))
                                == #[trigger] self.keys@[j],
                        forall|j: int|
                            0 <= j < i ==> u32_at(buf@, internal_entry_at(j) + 8)
                                == #[trigger] self.children@[j],
                    decreases n - i,
                {
                    let at: usize = internal_entry_offset(i);
                    write_i64(&mut buf, at, self.keys[i]);
                    write_u32(&mut buf, at + 8, self.children[i]);
                    i += 1;
                }
                if n > 0 {
                    write_u32(&mut buf, internal_entry_offset(n), self.children[n]);
                }
                proof {
                    let img = IndexPageView::internal_from_image(buf@);
                    assert(img.keys =~= self@.keys);
                    assert(img.children =~= self@.children);
                    assert(img.rids =~= self@.rids);
                }
            },
            IndexType::Leaf => {
                match self.next {
                    Some(next) => {
                        write_u8(&mut buf, 7, 1);
                        write_u32(&mut buf, 8, next);
                    },
                    None => {},
                }
                let mut i: usize = 0;
                while i < n
                    invariant
                        i <= n,
                        n == self.keys@.len(),
                        n == self.rids@.len(),
                        n <= LEAF_CAPACITY,
                        u32_at(buf@, 0) == self.id,
                        buf@[4] == 0,
                        u16_at(buf@, 5) == n,
                        match self.next {
                            Some(next) => buf@[7] == 1 && u32_at(buf@, 8) == next,
                            None => forall|k: int| 7 <= k < 12 ==> buf@[k] == 0,
                        },
                        forall|k: int|
                            leaf_entry_at(i as int) <= k < PAGE_SIZE ==> buf@[k] == 0,
                        forall|j: int|
                            0 <= j < i
                                ==> i64_at(buf@, leaf_entry_at(j)) == #[trigger] self.keys@[j],
                        forall|j: int|
                            0 <= j < i ==> u32_at(buf@, leaf_entry_at(j) + 8) == (
                            #[trigger] self.rids@[j]).page_id,
                        forall|j: int|
                            0 <= j < i ==> buf@[leaf_entry_at(j) + 12] == (
                            #[trigger] self.rids@[j]).slot_id,
                    decreases n - i,
                {
                    let at: usize = leaf_entry_offset(i);
                    write_i64(&mut buf, at, self.keys[i]);
                    write_u32(&mut buf, at + 8, self.rids[i].page_id);
                    write_u8(&mut buf, at + 12, self.rids[i].slot_id);
                    i += 1;
                }
                proof {
                    let img = IndexPageView::leaf_from_image(buf@);
                    assert(img.keys =~= self@.keys);
                    assert(img.rids =~= self@.rids);
                    assert(img.children =~= self@.children);
                }
            },
        }
        buf
    }

    fn deserialize(buf: &[u8; PAGE_SIZE]) -> (page: Option<Self>) {
        let id = read_u32(buf, 0);
        let page_type = match IndexType::from_byte(buf[4]) {
            Some(kind) => kind,
            None => {
                return None;
            },
        };
        let n: usize = read_u16(buf, 5) as usize;
        let mut keys: Vec<i64> = Vec::new();
        let mut rids: Vec<RecordId> = Vec::new();
        let mut children: Vec<PageId> = Vec::new();
        let mut next: Option<PageId> = None;
        match page_type {
            IndexType::Internal => {
                if n > INTERNAL_CAPACITY {
                    return None;
                }
                let mut i: usize = 0;
                while i < n
                    invariant
                        i <= n,
                        n <= INTERNAL_CAPACITY,
                        keys@.len() == i,
                        children@.len() == i,
                        forall|j: int|
                            0 <= j < i ==> #[trigger] keys@[j] == i64_at(
                                buf@,
                                internal_entry_at(j),
                            ),
                        forall|j: int|
                            0 <= j < i ==> #[trigger] children@[j] == u32_at(
                                buf@,
                                internal_entry_at(j) + 8,
                            ),
                    decreases n - i,
                {
                    let at: usize = internal_entry_offset(i);
                    keys.push(read_i64(buf, at));
                    children.push(read_u32(buf, at + 8));
                    i += 1;
                }
                if n > 0 {
                    children.push(read_u32(buf, internal_entry_offset(n)));
                }
                let page = IndexPage { id, page_type, keys, rids, children, next };
                proof {
                    let img = IndexPageView::internal_from_image(buf@);
                    assert(page@.keys =~= img.keys);
                    assert(page@.children =~= img.children);
                    assert(page@.rids =~= img.rids);
                }
                Some(page)
            },
            IndexType::Leaf => {
                if n > LEAF_CAPACITY {
                    return None;
                }
                if buf[7] == 1 {
                    next = Some(read_u32(buf, 8));
                }
                let mut i: usize = 0;
                while i < n
                    invariant
                        i <= n,
                        n <= LEAF_CAPACITY,
                        keys@.len() == i,
                        rids@.len() == i,
                        forall|j: int|
                            0 <= j < i ==> #[trigger] keys@[j] == i64_at(
                                buf@,
                                leaf_entry_at(j),
                            ),
                        forall|j: int|
                            0 <= j < i ==> #[trigger] rids@[j] == (RecordId {
                                page_id: u32_at(buf@, leaf_entry_at(j) + 8),
                                slot_id: buf@[leaf_entry_at(j) + 12],
                            }),
                    decreases n - i,
                {
                    let at: usize = leaf_entry_offset(i);
                    let key = read_i64(buf, at);
                    let page_id = read_u32(buf, at + 8);
                    let slot_id = buf[at + 12];
                    keys.push(key);
                    rids.push(RecordId { page_id, slot_id });
                    i += 1;
                }
                let page = IndexPage { id, page_type, keys, rids, children, next };
                proof {
                    let img = IndexPageView::leaf_from_image(buf@);
                    assert(page@.keys =~= img.keys);
                    assert(page@.rids =~= img.rids);
                    assert(page@.children =~= img.children);
                }
                Some(page)
            },
        }
    }

    fn is_valid(&self) -> (ok: bool) {
        match self.page_type {
            IndexType::Leaf => self.keys.len() <= LEAF_CAPACITY && self.rids.len()
                == self.keys.len() && self.children.len() == 0,
            IndexType::Internal => self.keys.len() <= INTERNAL_CAPACITY && self.rids.len() == 0
                && self.next.is_none() && (if self.keys.len() == 0 {
                self.children.len() == 0
            } else {
                self.children.len() == self.keys.len() + 1
            }),
        }
    }

    #[inline]
    fn get_id(&self) -> (id: PageId) {
        self.id
    }

    /// The bytes of the page image that the node does not use.
    fn get_free_space(&self) -> (space: usize)
        ensures
            space == PAGE_SIZE - self@.used(),
    {
        let mut used: usize = get_page_header_size();
        match self.page_type {
            IndexType::Leaf => {
                used += self.keys.len() * 13;
                used += PAGE_ID_SIZE + 1;
            },
            IndexType::Internal => {
                used += self.keys.len() * 12;
                used += PAGE_ID_SIZE;
            },
        }
        PAGE_SIZE - used
    }

    #[inline]
    fn is_empty(&self) -> (empty: bool)
        ensures
            empty == (self@.keys.len() == 0),
    {
        self.keys.len() == 0
    }

    fn clear(&mut self) {
        self.page_type = IndexType::Leaf;
        self.keys.clear();
        self.rids.clear();
        self.children.clear();
        self.next = None;
    }
}

} // verus!
