use raincloud_db::storage::bplus_tree::BPlusTree;
use raincloud_db::storage::bufferpool::BufferPool;
use raincloud_db::storage::disk_manager::MemoryDiskManager;
use raincloud_db::storage::free_list::FreeList;
use raincloud_db::storage::page::index_page::{IndexPage, IndexType, RecordId};
use raincloud_db::storage::page::page::Page;
use raincloud_db::storage::replacement_strategy::{
    replacement_strategy_factory, LRUReplacementStrategy, ReplacementStrategyType,
};
use raincloud_db::types::{PageId, SlotId};

type Pool = BufferPool<IndexPage, MemoryDiskManager, MemoryDiskManager, LRUReplacementStrategy>;
type Tree = BPlusTree<MemoryDiskManager, MemoryDiskManager, LRUReplacementStrategy>;

fn create_pool(capacity: usize) -> Pool {
    let disk_manager = MemoryDiskManager::new();
    let header_disk_manager = MemoryDiskManager::new();
    let free_list = FreeList::new(header_disk_manager, 0);
    BufferPool::new(
        capacity,
        replacement_strategy_factory(ReplacementStrategyType::LRU),
        disk_manager,
        free_list,
    )
}

fn create_tree_in(capacity: usize, internal_max_keys: usize, leaf_max_keys: usize) -> Tree {
    let mut buffer_pool = create_pool(capacity);
    let root_page = buffer_pool.create_page().unwrap();
    let root_id = root_page.read(&buffer_pool).get_id();
    root_page.release(&mut buffer_pool);
    BPlusTree::new(root_id, buffer_pool, internal_max_keys, leaf_max_keys)
}

// Helper function to create a test B+ tree with small capacities for easier testing
fn create_test_tree() -> Tree {
    create_tree_in(100, 3, 3)
}

// Helper function to insert multiple keys for setup
fn insert_keys(tree: &mut Tree, keys: &[i64]) {
    for &key in keys {
        tree.insert(key, RecordId { page_id: key as PageId, slot_id: key as SlotId });
    }
}

// Helper function to verify search results
fn verify_searches(tree: &mut Tree, expected_keys: &[i64], expected_missing: &[i64]) {
    for &key in expected_keys {
        assert!(tree.search(&key).is_some(), "Key {} should exist", key);
    }
    for &key in expected_missing {
        assert!(tree.search(&key).is_none(), "Key {} should not exist", key);
    }
}

/// Reads a copy of a page of the pool.
fn page_of(pool: &mut Pool, id: PageId) -> IndexPage {
    let guard = pool.fetch_page(id).unwrap();
    let page = guard.read(pool).duplicate();
    guard.release(pool);
    page
}

/// The depths of the leaves below a node, the keys of the leaves in order,
/// and a check of order, separation and fill of every node on the way.
fn walk(
    pool: &mut Pool,
    id: PageId,
    lo: Option<i64>,
    hi: Option<i64>,
    depth: usize,
    is_root: bool,
    max: usize,
    leaf_depths: &mut Vec<usize>,
    keys: &mut Vec<i64>,
) {
    let page = page_of(pool, id);
    assert!(page.keys.windows(2).all(|w| w[0] < w[1]), "keys of {} ascend", id);
    for k in &page.keys {
        assert!(lo.map_or(true, |lo| lo <= *k) && hi.map_or(true, |hi| *k < hi));
    }
    assert!(page.keys.len() <= max);
    if !is_root {
        assert!(page.keys.len() >= max / 2);
    }
    match page.page_type {
        IndexType::Leaf => {
            assert_eq!(page.rids.len(), page.keys.len());
            leaf_depths.push(depth);
            keys.extend(&page.keys);
        }
        IndexType::Internal => {
            assert_eq!(page.children.len(), page.keys.len() + 1);
            for (i, child) in page.children.iter().enumerate() {
                let child_lo = if i == 0 { lo } else { Some(page.keys[i - 1]) };
                let child_hi = if i == page.keys.len() { hi } else { Some(page.keys[i]) };
                walk(pool, *child, child_lo, child_hi, depth + 1, false, max, leaf_depths, keys);
            }
        }
    }
}

/// The leaves below a node in key order, each with the leaf it names as
/// its next one.
fn leaf_links(pool: &mut Pool, id: PageId, links: &mut Vec<(PageId, Option<PageId>)>) {
    let page = page_of(pool, id);
    match page.page_type {
        IndexType::Leaf => links.push((id, page.get_next())),
        IndexType::Internal => {
            for child in &page.children {
                leaf_links(pool, *child, links);
            }
        }
    }
}

/// Checks the shape of the whole tree and returns the keys it holds.
fn check_shape(tree: Tree, max: usize) -> (Vec<i64>, PageId, Pool) {
    let (root, mut pool) = tree.into_parts();
    let mut leaf_depths = Vec::new();
    let mut keys = Vec::new();
    walk(&mut pool, root, None, None, 0, true, max, &mut leaf_depths, &mut keys);
    assert!(leaf_depths.windows(2).all(|w| w[0] == w[1]), "leaves at one depth");
    assert!(keys.windows(2).all(|w| w[0] < w[1]), "keys ascend over the leaves");
    let mut links = Vec::new();
    leaf_links(&mut pool, root, &mut links);
    assert!(links.windows(2).all(|w| w[0].1 == Some(w[1].0)), "each leaf names the next one");
    assert_eq!(links.last().unwrap().1, None, "the last leaf names none");
    (keys, root, pool)
}

#[test]
fn test_empty_tree_operations() {
    let mut tree = create_test_tree();

    // Search in empty tree
    assert!(tree.search(&1).is_none());

    // Delete from empty tree
    assert!(!tree.delete(1));

    // Insert first key
    tree.insert(10, RecordId { page_id: 10, slot_id: 10 });
    assert!(tree.search(&10).is_some());
}

#[test]
fn test_basic_insert_search_delete() {
    let mut tree = create_test_tree();

    // Insert some keys
    let keys = vec![10, 20, 30, 5, 15, 25];
    insert_keys(&mut tree, &keys);

    // Verify all keys exist
    verify_searches(&mut tree, &keys, &[]);

    // Delete some keys
    assert!(tree.delete(15));
    assert!(tree.delete(25));
    assert!(!tree.delete(100)); // non-existent key

    // Verify remaining keys
    verify_searches(&mut tree, &[10, 20, 30, 5], &[15, 25, 100]);
}

#[test]
fn test_leaf_right_split() {
    let mut tree = create_test_tree();

    // Insert keys in ascending order to test right split
    // With max_keys = 3, the 4th key should cause a split
    insert_keys(&mut tree, &[1, 2, 3, 4]);

    // Verify all keys are searchable after split
    verify_searches(&mut tree, &[1, 2, 3, 4], &[]);

    // Insert more to test multiple splits
    insert_keys(&mut tree, &[5, 6, 7, 8]);
    verify_searches(&mut tree, &[1, 2, 3, 4, 5, 6, 7, 8], &[]);
}

#[test]
fn test_leaf_left_split() {
    let mut tree = create_test_tree();

    // Insert keys in descending order to test splits on the left
    insert_keys(&mut tree, &[8, 7, 6, 5]);
    verify_searches(&mut tree, &[8, 7, 6, 5], &[]);

    // Continue inserting to trigger more splits
    insert_keys(&mut tree, &[4, 3, 2, 1]);
    verify_searches(&mut tree, &[1, 2, 3, 4, 5, 6, 7, 8], &[]);
}

#[test]
fn test_internal_node_split() {
    let mut tree = create_test_tree();

    // Insert enough keys to create internal nodes and trigger internal splits
    // This should create multiple leaf pages and eventually split internal nodes
    let keys: Vec<i64> = (1..=20).collect();
    insert_keys(&mut tree, &keys);

    // Verify all keys are still searchable
    verify_searches(&mut tree, &keys, &[]);

    // Test that tree structure is maintained with more insertions
    let more_keys: Vec<i64> = (21..=30).collect();
    insert_keys(&mut tree, &more_keys);

    let all_keys: Vec<i64> = (1..=30).collect();
    verify_searches(&mut tree, &all_keys, &[]);
}

#[test]
fn test_root_split_and_height_increase() {
    let mut tree = create_test_tree();

    // Insert enough keys to force root split
    let keys: Vec<i64> = (1..=15).collect();
    insert_keys(&mut tree, &keys);

    // Verify tree maintains correctness after root split
    verify_searches(&mut tree, &keys, &[]);

    // Continue inserting to test multiple levels
    let more_keys: Vec<i64> = (16..=25).collect();
    insert_keys(&mut tree, &more_keys);

    let all_keys: Vec<i64> = (1..=25).collect();
    verify_searches(&mut tree, &all_keys, &[]);
}

#[test]
fn test_left_redistribution() {
    let mut tree = create_test_tree();

    // Build a tree where redistribution from the left is needed
    // Insert keys to create specific tree structure
    insert_keys(&mut tree, &[10, 20, 30, 40, 50, 60]);

    // Delete keys to trigger underflow and left redistribution
    assert!(tree.delete(50));
    assert!(tree.delete(60));

    // Verify remaining keys are still accessible
    verify_searches(&mut tree, &[10, 20, 30, 40], &[50, 60]);

    // Test that we can still insert and search
    tree.insert(15, RecordId { page_id: 15, slot_id: 15 });
    verify_searches(&mut tree, &[10, 15, 20, 30, 40], &[50, 60]);
}

#[test]
fn test_right_redistribution() {
    let mut tree = create_test_tree();

    // Build a tree for redistribution from the right
    insert_keys(&mut tree, &[5, 10, 15, 20, 25, 30]);

    // Delete keys to trigger right redistribution
    assert!(tree.delete(5));
    assert!(tree.delete(10));

    // Verify remaining keys
    verify_searches(&mut tree, &[15, 20, 25, 30], &[5, 10]);

    // Test continued operations
    tree.insert(12, RecordId { page_id: 12, slot_id: 12 });
    verify_searches(&mut tree, &[12, 15, 20, 25, 30], &[5, 10]);
}

#[test]
fn test_left_merge() {
    let mut tree = create_test_tree();

    // Build tree structure that will require left merge
    insert_keys(&mut tree, &[1, 2, 3, 4, 5, 6, 7, 8, 9, 10]);

    // Delete keys to trigger merge with left sibling
    for key in [10, 9, 8, 7, 6] {
        assert!(tree.delete(key));
    }

    // Verify remaining keys
    verify_searches(&mut tree, &[1, 2, 3, 4, 5], &[6, 7, 8, 9, 10]);

    // Test tree is still functional
    tree.insert(11, RecordId { page_id: 11, slot_id: 11 });
    verify_searches(&mut tree, &[1, 2, 3, 4, 5, 11], &[6, 7, 8, 9, 10]);
}

#[test]
fn test_right_merge() {
    let mut tree = create_test_tree();

    // Build a tree for a merge with the right sibling
    insert_keys(&mut tree, &[10, 20, 30, 40, 50, 60, 70, 80, 90, 100]);

    // Delete keys to trigger merge with right sibling
    for key in [10, 20, 30, 40, 50] {
        assert!(tree.delete(key));
    }

    // Verify remaining keys
    verify_searches(&mut tree, &[60, 70, 80, 90, 100], &[10, 20, 30, 40, 50]);

    // Test continued functionality
    tree.insert(55, RecordId { page_id: 55, slot_id: 55 });
    verify_searches(&mut tree, &[55, 60, 70, 80, 90, 100], &[10, 20, 30, 40, 50]);
}

#[test]
fn test_root_collapse() {
    let mut tree = create_test_tree();

    // Build a tree with multiple levels
    let keys: Vec<i64> = (1..=15).collect();
    insert_keys(&mut tree, &keys);

    // Delete most keys to trigger root collapse
    for key in 6..=15 {
        assert!(tree.delete(key));
    }

    // Verify remaining keys are still accessible
    verify_searches(&mut tree, &[1, 2, 3, 4, 5], &(6..=15).collect::<Vec<_>>());

    // Delete more to potentially trigger further collapses
    for key in [3, 4, 5] {
        assert!(tree.delete(key));
    }

    verify_searches(&mut tree, &[1, 2], &(3..=15).collect::<Vec<_>>());

    // Test that single remaining keys work
    assert!(tree.delete(2));
    verify_searches(&mut tree, &[1], &(2..=15).collect::<Vec<_>>());

    // Test final deletion
    assert!(tree.delete(1));
    verify_searches(&mut tree, &[], &(1..=15).collect::<Vec<_>>());
}

#[test]
fn test_complex_mixed_operations() {
    let mut tree = create_test_tree();

    // Complex sequence of operations
    insert_keys(&mut tree, &[50, 25, 75, 10, 30, 60, 80, 5, 15, 20, 35]);

    // Verify initial state
    verify_searches(&mut tree, &[50, 25, 75, 10, 30, 60, 80, 5, 15, 20, 35], &[]);

    // Delete some keys
    for key in [5, 15, 35, 80] {
        assert!(tree.delete(key));
    }

    // Insert new keys
    insert_keys(&mut tree, &[12, 27, 65, 90]);

    // Verify final state
    verify_searches(
        &mut tree,
        &[50, 25, 75, 10, 30, 60, 20, 12, 27, 65, 90],
        &[5, 15, 35, 80],
    );

    // More complex deletions to trigger merges and redistributions
    for key in [10, 20, 12, 27] {
        assert!(tree.delete(key));
    }

    verify_searches(&mut tree, &[50, 25, 75, 30, 60, 65, 90], &[5, 10, 12, 15, 20, 27, 35, 80]);
}

#[test]
fn test_duplicate_key_handling() {
    let mut tree = create_test_tree();

    // Insert key
    tree.insert(10, RecordId { page_id: 10, slot_id: 1 });
    assert!(tree.search(&10).is_some());

    // Insert same key again (should update or handle appropriately)
    tree.insert(10, RecordId { page_id: 10, slot_id: 2 });
    assert!(tree.search(&10).is_some());

    // Delete should work
    assert!(tree.delete(10));
    assert!(tree.search(&10).is_none());

    // Delete again should fail
    assert!(!tree.delete(10));
}

#[test]
fn test_large_scale_operations() {
    let mut tree = create_test_tree();

    // Insert large number of keys
    let keys: Vec<i64> = (1..=100).collect();
    insert_keys(&mut tree, &keys);

    // Verify all keys
    verify_searches(&mut tree, &keys, &[]);

    // Delete every other key
    for key in keys.iter().step_by(2) {
        assert!(tree.delete(*key));
    }

    // Verify remaining keys
    let remaining: Vec<i64> = keys.iter().skip(1).step_by(2).copied().collect();
    let deleted: Vec<i64> = keys.iter().step_by(2).copied().collect();
    verify_searches(&mut tree, &remaining, &deleted);

    // Delete remaining keys in reverse order
    for key in remaining.iter().rev() {
        assert!(tree.delete(*key));
    }

    // Verify empty tree
    verify_searches(&mut tree, &[], &keys);
}

#[test]
fn test_boundary_conditions() {
    let mut tree = create_test_tree();

    // Test with minimum and maximum i64 values
    let extreme_keys = vec![i64::MIN, i64::MAX, 0, -1, 1];
    insert_keys(&mut tree, &extreme_keys);
    verify_searches(&mut tree, &extreme_keys, &[]);

    // Test deletion of extreme values
    assert!(tree.delete(i64::MIN));
    assert!(tree.delete(i64::MAX));
    verify_searches(&mut tree, &[0, -1, 1], &[i64::MIN, i64::MAX]);

    // Test that tree handles negative numbers correctly
    insert_keys(&mut tree, &[-100, -50, -25, -10, -5]);
    verify_searches(&mut tree, &[0, -1, 1, -100, -50, -25, -10, -5], &[]);
}

#[test]
fn bplus_tree_finds_twenty_keys_after_inserting_them() {
    let mut tree = create_test_tree();
    for k in 1..=20i64 {
        tree.insert(k, RecordId { page_id: k as PageId, slot_id: (k % 256) as SlotId });
    }
    for k in 1..=20i64 {
        assert_eq!(
            tree.search(&k),
            Some(RecordId { page_id: k as PageId, slot_id: (k % 256) as SlotId })
        );
    }
    assert_eq!(tree.search(&21), None);
    let (keys, _, _) = check_shape(tree, 3);
    assert_eq!(keys, (1..=20).collect::<Vec<i64>>());
}

#[test]
fn bplus_tree_delete_merges_leaves_and_keeps_the_rest() {
    let mut tree = create_test_tree();
    for k in 1..=20i64 {
        tree.insert(k, RecordId { page_id: k as PageId, slot_id: (k % 256) as SlotId });
    }
    for k in (6..=20i64).rev() {
        assert!(tree.delete(k));
    }
    for k in 1..=5i64 {
        assert_eq!(
            tree.search(&k),
            Some(RecordId { page_id: k as PageId, slot_id: (k % 256) as SlotId })
        );
    }
    for k in 6..=20i64 {
        assert_eq!(tree.search(&k), None);
    }
    let (keys, root, mut pool) = check_shape(tree, 3);
    assert_eq!(keys, vec![1, 2, 3, 4, 5]);
    let _ = (root, &mut pool);
}

#[test]
fn bplus_tree_second_insert_of_a_key_replaces_the_record_id() {
    let mut tree = create_test_tree();
    insert_keys(&mut tree, &[1, 2, 3, 4, 5, 6, 7]);
    tree.insert(4, RecordId { page_id: 400, slot_id: 44 });
    assert_eq!(tree.search(&4), Some(RecordId { page_id: 400, slot_id: 44 }));
    assert_eq!(tree.search(&5), Some(RecordId { page_id: 5, slot_id: 5 }));
    let (keys, _, _) = check_shape(tree, 3);
    assert_eq!(keys, vec![1, 2, 3, 4, 5, 6, 7]);
}

#[test]
fn bplus_tree_delete_of_an_absent_key_changes_nothing() {
    let mut tree = create_test_tree();
    insert_keys(&mut tree, &[10, 20, 30, 40, 50, 60, 70]);
    let root_before = tree.get_root();
    assert!(!tree.delete(35));
    assert_eq!(tree.get_root(), root_before);
    verify_searches(&mut tree, &[10, 20, 30, 40, 50, 60, 70], &[35]);
    let (keys, _, _) = check_shape(tree, 3);
    assert_eq!(keys, vec![10, 20, 30, 40, 50, 60, 70]);
}

#[test]
fn bplus_tree_one_key_too_many_splits_the_leaf_once() {
    let mut tree = create_test_tree();
    insert_keys(&mut tree, &[10, 20, 30]);
    let old_root = tree.get_root();
    insert_keys(&mut tree, &[40]);
    let (root, mut pool) = tree.into_parts();
    assert_ne!(root, old_root);
    let root_page = page_of(&mut pool, root);
    assert_eq!(root_page.page_type, IndexType::Internal);
    assert_eq!(root_page.keys, vec![30]);
    assert_eq!(root_page.children.len(), 2);
    assert_eq!(root_page.children[0], old_root);
    let left = page_of(&mut pool, root_page.children[0]);
    let right = page_of(&mut pool, root_page.children[1]);
    assert_eq!(left.page_type, IndexType::Leaf);
    assert_eq!(right.page_type, IndexType::Leaf);
    assert_eq!(left.keys, vec![10, 20]);
    assert_eq!(right.keys, vec![30, 40]);
    assert_eq!(left.get_next(), Some(root_page.children[1]));
    assert_eq!(right.get_next(), None);
    // three pages were taken: the first root, the sibling and the new root
    assert!(pool.get_free_list().get_head() == 1);
}

#[test]
fn bplus_tree_root_collapses_when_it_is_left_with_one_child() {
    let mut tree = create_test_tree();
    insert_keys(&mut tree, &[10, 20, 30, 40]);
    let two_level_root = tree.get_root();
    assert!(tree.delete(40));
    // the right leaf has one key left, its minimum: nothing to repair
    assert_eq!(tree.get_root(), two_level_root);
    assert!(tree.delete(30));
    // the right leaf took an entry from the left one
    assert_eq!(tree.get_root(), two_level_root);
    verify_searches(&mut tree, &[10, 20], &[30, 40]);
    assert!(tree.delete(20));
    // the left leaf has none to spare: the leaves were merged
    let new_root = tree.get_root();
    assert_ne!(new_root, two_level_root);
    verify_searches(&mut tree, &[10], &[20, 30, 40]);
    let (root, mut pool) = tree.into_parts();
    let root_page = page_of(&mut pool, root);
    assert_eq!(root_page.page_type, IndexType::Leaf);
    assert_eq!(root_page.keys, vec![10]);
    assert_eq!(root_page.get_next(), None);
    // the pages of the old root and of the right leaf were given back
    let mut taken = Vec::new();
    let guard = pool.create_page().unwrap();
    taken.push(guard.get_page_id());
    guard.release(&mut pool);
    let guard = pool.create_page().unwrap();
    taken.push(guard.get_page_id());
    guard.release(&mut pool);
    taken.sort();
    assert_eq!(taken, vec![2, 3]);
}

#[test]
fn bplus_tree_leaves_exchange_an_entry_before_they_merge() {
    let mut tree = create_test_tree();
    insert_keys(&mut tree, &[10, 20, 30, 40]);
    assert!(tree.delete(40));
    assert!(tree.delete(30));
    let (root, mut pool) = tree.into_parts();
    let root_page = page_of(&mut pool, root);
    assert_eq!(root_page.page_type, IndexType::Internal);
    assert_eq!(root_page.keys, vec![20]);
    let left = page_of(&mut pool, root_page.children[0]);
    let right = page_of(&mut pool, root_page.children[1]);
    assert_eq!(left.keys, vec![10]);
    assert_eq!(right.keys, vec![20]);
    assert_eq!(right.rids, vec![RecordId { page_id: 20, slot_id: 20 }]);
}

#[test]
fn bplus_tree_works_with_a_pool_of_one_page() {
    let mut tree = create_tree_in(1, 3, 3);
    let keys: Vec<i64> = (1..=60).collect();
    insert_keys(&mut tree, &keys);
    verify_searches(&mut tree, &keys, &[0, 61]);
    for k in (1..=60i64).filter(|k| k % 3 != 0) {
        assert!(tree.delete(k));
        assert!(tree.get_pool().current_size() <= 1);
    }
    let (keys_left, _, _) = check_shape(tree, 3);
    assert_eq!(keys_left, (1..=60i64).filter(|k| k % 3 == 0).collect::<Vec<_>>());
}

#[test]
fn bplus_tree_keeps_its_shape_with_other_bounds() {
    let mut tree = create_tree_in(8, 2, 4);
    let mut keys: Vec<i64> = (0..200).map(|i| (i * 37) % 211).collect();
    for &k in &keys {
        tree.insert(k, RecordId { page_id: k as PageId, slot_id: 0 });
    }
    for &k in keys.iter().step_by(3) {
        assert!(tree.delete(k));
    }
    let gone: Vec<i64> = keys.iter().step_by(3).copied().collect();
    keys.retain(|k| !gone.contains(k));
    verify_searches(&mut tree, &keys, &gone);
    let path = tree.descend_to_leaf(keys[0]);
    assert_eq!(path[0], tree.get_root());
    let (root, mut pool) = tree.into_parts();
    let leaf = page_of(&mut pool, *path.last().unwrap());
    assert_eq!(leaf.page_type, IndexType::Leaf);
    assert!(leaf.keys.contains(&keys[0]));
    let mut leaf_depths = Vec::new();
    let mut in_order = Vec::new();
    // internal and leaf bounds differ: check the leaves' keys only
    collect(&mut pool, root, 0, &mut leaf_depths, &mut in_order);
    assert!(leaf_depths.windows(2).all(|w| w[0] == w[1]));
    keys.sort();
    assert_eq!(in_order, keys);
}

fn collect(pool: &mut Pool, id: PageId, depth: usize, depths: &mut Vec<usize>, keys: &mut Vec<i64>) {
    let page = page_of(pool, id);
    match page.page_type {
        IndexType::Leaf => {
            assert!(page.keys.len() <= 4);
            depths.push(depth);
            keys.extend(&page.keys);
        }
        IndexType::Internal => {
            assert!(page.keys.len() >= 1 && page.keys.len() <= 2);
            for child in &page.children {
                collect(pool, *child, depth + 1, depths, keys);
            }
        }
    }
}

#[test]
fn bplus_tree_leaves_stay_chained_through_splits_and_merges() {
    let mut tree = create_tree_in(4, 3, 3);
    let keys: Vec<i64> = (0..60).map(|i| (i * 37) % 61).collect();
    insert_keys(&mut tree, &keys);
    for k in keys.iter().filter(|k| *k % 3 != 0) {
        assert!(tree.delete(*k));
    }
    let mut left: Vec<i64> = keys.iter().copied().filter(|k| k % 3 == 0).collect();
    left.sort();
    let (found, _, _) = check_shape(tree, 3);
    assert_eq!(found, left);
}

#[test]
fn bplus_tree_is_taken_up_again_from_its_root() {
    let mut tree = create_test_tree();
    let keys: Vec<i64> = (1..=30).collect();
    insert_keys(&mut tree, &keys);
    let (root, pool) = tree.into_parts();
    let mut again: Tree = BPlusTree::new(root, pool, 3, 3);
    assert_eq!(again.get_root(), root);
    verify_searches(&mut again, &keys, &[0, 31]);
    again.insert(31, RecordId { page_id: 31, slot_id: 31 });
    assert!(again.delete(1));
    verify_searches(&mut again, &[2, 31], &[1]);
    let (found, _, _) = check_shape(again, 3);
    assert_eq!(found, (2..=31).collect::<Vec<i64>>());
}

#[test]
fn bplus_tree_delete_gives_back_the_merged_leaf_and_the_old_root() {
    let mut tree = create_test_tree();
    for k in 1..=4i64 {
        tree.insert(k, RecordId { page_id: k as PageId, slot_id: k as SlotId });
    }
    let top = tree.get_root();
    assert!(tree.delete(1));
    assert!(tree.delete(4));
    assert_eq!(tree.get_root(), top);
    assert!(tree.delete(2));
    assert_ne!(tree.get_root(), top);
    assert_eq!(tree.search(&3), Some(RecordId { page_id: 3, slot_id: 3 }));
    assert_eq!(tree.search(&2), None);
    let (root, mut pool) = tree.into_parts();
    let root_page = page_of(&mut pool, root);
    assert_eq!(root_page.page_type, IndexType::Leaf);
    assert_eq!(root_page.keys, vec![3]);
    // the sibling leaf and the old root are free again
    let mut taken = Vec::new();
    for _ in 0..2 {
        let guard = pool.create_page().unwrap();
        taken.push(guard.get_page_id());
        guard.release(&mut pool);
    }
    taken.sort();
    let mut freed = vec![top, if root == 1 { 2 } else { 1 }];
    freed.sort();
    assert_eq!(taken, freed);
}

#[test]
fn bplus_tree_with_one_key_to_a_leaf_keeps_empty_leaves() {
    // a leaf splits at its second key and has no least number of keys
    let mut tree = create_tree_in(8, 3, 1);
    let keys: Vec<i64> = (1..=40).map(|i| (i * 17) % 41).collect();
    insert_keys(&mut tree, &keys);
    verify_searches(&mut tree, &keys, &[0, 41]);
    for k in keys.iter().filter(|k| *k % 2 == 0) {
        assert!(tree.delete(*k));
        assert!(!tree.delete(*k));
    }
    let mut left: Vec<i64> = keys.iter().copied().filter(|k| k % 2 != 0).collect();
    left.sort();
    let gone: Vec<i64> = keys.iter().copied().filter(|k| k % 2 == 0).collect();
    verify_searches(&mut tree, &left, &gone);
    // a key that was taken out goes into the leaf that it left
    tree.insert(2, RecordId { page_id: 2, slot_id: 2 });
    assert_eq!(tree.search(&2), Some(RecordId { page_id: 2, slot_id: 2 }));
    verify_searches(&mut tree, &left, &[4, 6, 40]);
    // the leaves are still chained in key order
    let (root, mut pool) = tree.into_parts();
    let mut links = Vec::new();
    leaf_links(&mut pool, root, &mut links);
    assert!(links.windows(2).all(|w| w[0].1 == Some(w[1].0)));
    assert_eq!(links.last().unwrap().1, None);
    let mut held = Vec::new();
    for (id, _) in &links {
        held.extend(page_of(&mut pool, *id).keys);
    }
    let mut expected = left.clone();
    expected.push(2);
    expected.sort();
    assert_eq!(held, expected);
}
