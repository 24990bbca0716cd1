use rdbms::btree::branch::Branch;
use rdbms::btree::leaf::Leaf;
use rdbms::btree::meta::Meta;
use rdbms::btree::node::{Node, NODE_TYPE_BRANCH, NODE_TYPE_LEAF};
use rdbms::btree::{BTree, Error, SearchMode};
use rdbms::buffer::BufferPoolManager;
use rdbms::disk::PageId;

fn scan(tree: &BTree, bufmgr: &mut BufferPoolManager, mode: SearchMode) -> Vec<(Vec<u8>, Vec<u8>)> {
    let mut iter = tree.search(bufmgr, mode).unwrap();
    let mut out = Vec::new();
    while let Some(pair) = iter.next(bufmgr).unwrap() {
        out.push(pair);
    }
    assert_eq!(iter.next(bufmgr).unwrap(), None);
    out
}

fn root_page_id(tree: &BTree, bufmgr: &mut BufferPoolManager) -> PageId {
    let meta = bufmgr.fetch_page(tree.meta_page_id).unwrap();
    Meta::new(&meta.page).header.root_page_id
}

fn node_type(bufmgr: &mut BufferPoolManager, page_id: PageId) -> u64 {
    let buffer = bufmgr.fetch_page(page_id).unwrap();
    Node::new(&buffer.page).header.node_type
}

fn height(tree: &BTree, bufmgr: &mut BufferPoolManager) -> usize {
    let mut page_id = root_page_id(tree, bufmgr);
    let mut levels = 0;
    loop {
        let buffer = bufmgr.fetch_page(page_id).unwrap();
        let node = Node::new(&buffer.page);
        if node.header.node_type == NODE_TYPE_LEAF {
            return levels;
        }
        assert_eq!(node.header.node_type, NODE_TYPE_BRANCH);
        page_id = Branch::new(&node.body).child_at(0);
        levels += 1;
    }
}

fn key_of(i: u32) -> Vec<u8> {
    format!("key-{:08}", i).into_bytes()
}

fn value_of(i: u32, len: usize) -> Vec<u8> {
    let mut value = format!("value-{}-", i).into_bytes();
    while value.len() < len {
        value.push(b'a' + (i % 26) as u8);
    }
    value
}

fn collect_keys_below(bufmgr: &mut BufferPoolManager, page_id: PageId, out: &mut Vec<Vec<u8>>) {
    let buffer = bufmgr.fetch_page(page_id).unwrap();
    let node = Node::new(&buffer.page);
    if node.header.node_type == NODE_TYPE_LEAF {
        let leaf = Leaf::new(&node.body);
        for i in 0..leaf.num_pairs() {
            out.push(leaf.pair_at(i).key.to_vec());
        }
    } else {
        let branch = Branch::new(&node.body);
        for i in 0..=branch.num_pairs() {
            collect_keys_below(bufmgr, branch.child_at(i), out);
        }
    }
}

fn check_routing(bufmgr: &mut BufferPoolManager, page_id: PageId) {
    let buffer = bufmgr.fetch_page(page_id).unwrap();
    let node = Node::new(&buffer.page);
    if node.header.node_type == NODE_TYPE_LEAF {
        let leaf = Leaf::new(&node.body);
        for i in 1..leaf.num_pairs() {
            assert!(leaf.pair_at(i - 1).key < leaf.pair_at(i).key);
        }
        return;
    }
    let branch = Branch::new(&node.body);
    let count = branch.num_pairs();
    for i in 1..count {
        assert!(branch.pair_at(i - 1).key < branch.pair_at(i).key);
    }
    for i in 0..=count {
        let mut keys = Vec::new();
        collect_keys_below(bufmgr, branch.child_at(i), &mut keys);
        assert!(!keys.is_empty());
        for key in &keys {
            if i < count {
                assert!(key.as_slice() < branch.pair_at(i).key);
            }
            if i > 0 {
                assert!(key.as_slice() >= branch.pair_at(i - 1).key);
            }
        }
        check_routing(bufmgr, branch.child_at(i));
    }
}

fn leftmost_leaf(tree: &BTree, bufmgr: &mut BufferPoolManager) -> PageId {
    let mut page_id = root_page_id(tree, bufmgr);
    loop {
        let buffer = bufmgr.fetch_page(page_id).unwrap();
        let node = Node::new(&buffer.page);
        if node.header.node_type == NODE_TYPE_LEAF {
            return page_id;
        }
        page_id = Branch::new(&node.body).child_at(0);
    }
}

fn check_leaf_chain(tree: &BTree, bufmgr: &mut BufferPoolManager) -> usize {
    let mut page_id = leftmost_leaf(tree, bufmgr);
    let mut prev: Option<PageId> = None;
    let mut last_key: Option<Vec<u8>> = None;
    let mut leaves = 0;
    loop {
        let buffer = bufmgr.fetch_page(page_id).unwrap();
        let node = Node::new(&buffer.page);
        assert_eq!(node.header.node_type, NODE_TYPE_LEAF);
        let leaf = Leaf::new(&node.body);
        assert_eq!(leaf.prev_page_id(), prev);
        leaves += 1;
        if leaf.num_pairs() > 0 {
            let first = leaf.pair_at(0).key.to_vec();
            if let Some(last) = &last_key {
                assert!(last < &first);
            }
            last_key = Some(leaf.pair_at(leaf.num_pairs() - 1).key.to_vec());
        }
        match leaf.next_page_id() {
            Some(next) => {
                prev = Some(page_id);
                page_id = next;
            }
            None => return leaves,
        }
    }
}

#[test]
fn empty_tree_scan_is_empty() {
    let mut bufmgr = BufferPoolManager::new(8);
    let tree = BTree::create(&mut bufmgr).unwrap();
    let mut iter = tree.search(&mut bufmgr, SearchMode::Start).unwrap();
    assert_eq!(iter.next(&mut bufmgr).unwrap(), None);
    assert_eq!(iter.next(&mut bufmgr).unwrap(), None);
    assert_eq!(height(&tree, &mut bufmgr), 0);
    assert_eq!(bufmgr.num_pages(), 2);
}

#[test]
fn empty_tree_keyed_search_is_empty() {
    let mut bufmgr = BufferPoolManager::new(8);
    let tree = BTree::create(&mut bufmgr).unwrap();
    let mut iter = tree.search(&mut bufmgr, SearchMode::Key(b"k".to_vec())).unwrap();
    assert_eq!(iter.next(&mut bufmgr).unwrap(), None);
}

#[test]
fn scan_yields_pairs_in_key_order() {
    let mut bufmgr = BufferPoolManager::new(8);
    let tree = BTree::create(&mut bufmgr).unwrap();
    tree.insert(&mut bufmgr, b"a", b"1").unwrap();
    tree.insert(&mut bufmgr, b"c", b"3").unwrap();
    tree.insert(&mut bufmgr, b"b", b"2").unwrap();
    assert_eq!(
        scan(&tree, &mut bufmgr, SearchMode::Start),
        vec![
            (b"a".to_vec(), b"1".to_vec()),
            (b"b".to_vec(), b"2".to_vec()),
            (b"c".to_vec(), b"3".to_vec()),
        ]
    );
}

#[test]
fn inserted_pair_is_found_by_key() {
    let mut bufmgr = BufferPoolManager::new(8);
    let tree = BTree::create(&mut bufmgr).unwrap();
    tree.insert(&mut bufmgr, b"melon", b"green").unwrap();
    tree.insert(&mut bufmgr, b"apple", b"red").unwrap();
    tree.insert(&mut bufmgr, b"plum", b"blue").unwrap();
    let mut iter = tree.search(&mut bufmgr, SearchMode::Key(b"melon".to_vec())).unwrap();
    assert_eq!(iter.next(&mut bufmgr).unwrap(), Some((b"melon".to_vec(), b"green".to_vec())));
    assert_eq!(iter.next(&mut bufmgr).unwrap(), Some((b"plum".to_vec(), b"blue".to_vec())));
    assert_eq!(iter.next(&mut bufmgr).unwrap(), None);
}

#[test]
fn keyed_search_lands_on_next_greater_key() {
    let mut bufmgr = BufferPoolManager::new(8);
    let tree = BTree::create(&mut bufmgr).unwrap();
    tree.insert(&mut bufmgr, b"b", b"2").unwrap();
    tree.insert(&mut bufmgr, b"d", b"4").unwrap();
    assert_eq!(
        scan(&tree, &mut bufmgr, SearchMode::Key(b"a".to_vec())),
        vec![(b"b".to_vec(), b"2".to_vec()), (b"d".to_vec(), b"4".to_vec())]
    );
    assert_eq!(
        scan(&tree, &mut bufmgr, SearchMode::Key(b"c".to_vec())),
        vec![(b"d".to_vec(), b"4".to_vec())]
    );
    assert_eq!(scan(&tree, &mut bufmgr, SearchMode::Key(b"e".to_vec())), vec![]);
    assert_eq!(
        scan(&tree, &mut bufmgr, SearchMode::Key(Vec::new())),
        vec![(b"b".to_vec(), b"2".to_vec()), (b"d".to_vec(), b"4".to_vec())]
    );
}

#[test]
fn prefix_sorts_before_longer_key() {
    let mut bufmgr = BufferPoolManager::new(8);
    let tree = BTree::create(&mut bufmgr).unwrap();
    tree.insert(&mut bufmgr, b"ab", b"2").unwrap();
    tree.insert(&mut bufmgr, b"a", b"1").unwrap();
    tree.insert(&mut bufmgr, b"", b"0").unwrap();
    assert_eq!(
        scan(&tree, &mut bufmgr, SearchMode::Start),
        vec![
            (b"".to_vec(), b"0".to_vec()),
            (b"a".to_vec(), b"1".to_vec()),
            (b"ab".to_vec(), b"2".to_vec()),
        ]
    );
}

#[test]
fn duplicate_key_is_refused() {
    let mut bufmgr = BufferPoolManager::new(8);
    let tree = BTree::create(&mut bufmgr).unwrap();
    assert_eq!(tree.insert(&mut bufmgr, b"x", b"1"), Ok(()));
    let pages = bufmgr.num_pages();
    assert_eq!(tree.insert(&mut bufmgr, b"x", b"1"), Err(Error::DuplicateKey));
    assert_eq!(tree.insert(&mut bufmgr, b"x", b"2"), Err(Error::DuplicateKey));
    assert_eq!(bufmgr.num_pages(), pages);
    let mut iter = tree.search(&mut bufmgr, SearchMode::Key(b"x".to_vec())).unwrap();
    assert_eq!(iter.next(&mut bufmgr).unwrap(), Some((b"x".to_vec(), b"1".to_vec())));
    assert_eq!(iter.next(&mut bufmgr).unwrap(), None);
}

#[test]
fn root_splits_when_a_page_is_full() {
    let mut bufmgr = BufferPoolManager::new(64);
    let tree = BTree::create(&mut bufmgr).unwrap();
    let old_root = root_page_id(&tree, &mut bufmgr);
    assert_eq!(node_type(&mut bufmgr, old_root), NODE_TYPE_LEAF);
    let mut count: u32 = 0;
    while height(&tree, &mut bufmgr) == 0 {
        tree.insert(&mut bufmgr, &key_of(count), &value_of(count, 100)).unwrap();
        count += 1;
        assert!(count < 1000);
    }
    assert!(count > 2);
    assert_eq!(height(&tree, &mut bufmgr), 1);
    let new_root = root_page_id(&tree, &mut bufmgr);
    assert_ne!(new_root, old_root);
    assert_eq!(node_type(&mut bufmgr, new_root), NODE_TYPE_BRANCH);
    assert_eq!(bufmgr.num_pages(), 4);
    for i in 0..count {
        let mut iter = tree.search(&mut bufmgr, SearchMode::Key(key_of(i))).unwrap();
        assert_eq!(iter.next(&mut bufmgr).unwrap(), Some((key_of(i), value_of(i, 100))));
    }
    assert_eq!(check_leaf_chain(&tree, &mut bufmgr), 2);
}

#[test]
fn many_inserts_keep_order_links_and_routing() {
    let mut bufmgr = BufferPoolManager::new(4096);
    let tree = BTree::create(&mut bufmgr).unwrap();
    let n: u32 = 3000;
    let mut i: u32 = 0;
    let mut inserted = Vec::new();
    for _ in 0..n {
        i = (i + 7919) % n;
        let len = 20 + (i as usize % 7) * 90;
        tree.insert(&mut bufmgr, &key_of(i), &value_of(i, len)).unwrap();
        inserted.push(i);
    }
    assert!(height(&tree, &mut bufmgr) >= 2);
    let all = scan(&tree, &mut bufmgr, SearchMode::Start);
    assert_eq!(all.len(), n as usize);
    for (j, pair) in all.iter().enumerate() {
        let len = 20 + (j % 7) * 90;
        assert_eq!(pair.0, key_of(j as u32));
        assert_eq!(pair.1, value_of(j as u32, len));
    }
    for i in inserted.iter().step_by(97) {
        let mut iter = tree.search(&mut bufmgr, SearchMode::Key(key_of(*i))).unwrap();
        assert_eq!(iter.next(&mut bufmgr).unwrap().unwrap().0, key_of(*i));
    }
    let leaves = check_leaf_chain(&tree, &mut bufmgr);
    assert!(leaves > 10);
    let root = root_page_id(&tree, &mut bufmgr);
    check_routing(&mut bufmgr, root);
    assert_eq!(tree.insert(&mut bufmgr, &key_of(5), b"again"), Err(Error::DuplicateKey));
}

#[test]
fn descending_inserts_split_the_leftmost_leaf() {
    let mut bufmgr = BufferPoolManager::new(512);
    let tree = BTree::create(&mut bufmgr).unwrap();
    for i in (0..400u32).rev() {
        tree.insert(&mut bufmgr, &key_of(i), &value_of(i, 200)).unwrap();
    }
    let all = scan(&tree, &mut bufmgr, SearchMode::Start);
    assert_eq!(all.len(), 400);
    for (j, pair) in all.iter().enumerate() {
        assert_eq!(pair.0, key_of(j as u32));
    }
    check_leaf_chain(&tree, &mut bufmgr);
    let root = root_page_id(&tree, &mut bufmgr);
    check_routing(&mut bufmgr, root);
}

#[test]
fn largest_records_fit() {
    let mut bufmgr = BufferPoolManager::new(64);
    let tree = BTree::create(&mut bufmgr).unwrap();
    // key 1000 bytes (3 + 1000), value 1022 bytes (3 + 1022): 2028 bytes encoded
    for i in 0..6u8 {
        let key = vec![b'a' + i; 1000];
        let value = vec![i; 1022];
        tree.insert(&mut bufmgr, &key, &value).unwrap();
    }
    let all = scan(&tree, &mut bufmgr, SearchMode::Start);
    assert_eq!(all.len(), 6);
    for (i, pair) in all.iter().enumerate() {
        assert_eq!(pair.0, vec![b'a' + i as u8; 1000]);
        assert_eq!(pair.1, vec![i as u8; 1022]);
    }
    check_leaf_chain(&tree, &mut bufmgr);
}

#[test]
fn create_needs_two_free_pages() {
    let mut bufmgr = BufferPoolManager::new(1);
    assert!(matches!(
        BTree::create(&mut bufmgr),
        Err(Error::Buffer(rdbms::buffer::Error::NoFreeBuffer))
    ));
    assert_eq!(bufmgr.num_pages(), 0);
    let mut bufmgr = BufferPoolManager::new(2);
    assert!(BTree::create(&mut bufmgr).is_ok());
    assert_eq!(bufmgr.num_pages(), 2);
}

#[test]
fn insert_into_a_leaf_with_room_takes_no_page() {
    let mut bufmgr = BufferPoolManager::new(2);
    let tree = BTree::create(&mut bufmgr).unwrap();
    assert_eq!(bufmgr.free_pages(), 0);
    assert_eq!(tree.insert(&mut bufmgr, b"a", b"1"), Ok(()));
    assert_eq!(tree.insert(&mut bufmgr, b"b", b"2"), Ok(()));
    assert_eq!(bufmgr.num_pages(), 2);
    assert_eq!(
        scan(&tree, &mut bufmgr, SearchMode::Start),
        vec![(b"a".to_vec(), b"1".to_vec()), (b"b".to_vec(), b"2".to_vec())]
    );
}

#[test]
fn split_needs_a_reserve_of_free_pages() {
    // a split of the root leaf takes two pages: one is not enough
    let mut bufmgr = BufferPoolManager::new(3);
    let tree = BTree::create(&mut bufmgr).unwrap();
    let mut count: u32 = 0;
    let refused = loop {
        match tree.insert(&mut bufmgr, &key_of(count), &value_of(count, 500)) {
            Ok(()) => count += 1,
            Err(error) => break error,
        }
        assert!(count < 100);
    };
    assert_eq!(refused, Error::Buffer(rdbms::buffer::Error::NoFreeBuffer));
    assert_eq!(count, 7);
    assert_eq!(bufmgr.num_pages(), 2);
    assert_eq!(height(&tree, &mut bufmgr), 0);
    let all = scan(&tree, &mut bufmgr, SearchMode::Start);
    assert_eq!(all.len(), 7);
    for (i, pair) in all.iter().enumerate() {
        assert_eq!(pair.0, key_of(i as u32));
        assert_eq!(pair.1, value_of(i as u32, 500));
    }
    // a smaller record still fits into the leaf
    assert_eq!(tree.insert(&mut bufmgr, b"small", b"x"), Ok(()));
    assert_eq!(bufmgr.num_pages(), 2);
    // with two free pages the same insertion splits the root
    let mut bufmgr = BufferPoolManager::new(4);
    let tree = BTree::create(&mut bufmgr).unwrap();
    for i in 0..8u32 {
        assert_eq!(tree.insert(&mut bufmgr, &key_of(i), &value_of(i, 500)), Ok(()));
    }
    assert_eq!(bufmgr.num_pages(), 4);
    assert_eq!(height(&tree, &mut bufmgr), 1);
}

#[test]
fn handle_can_be_rebuilt_from_the_meta_page() {
    let mut bufmgr = BufferPoolManager::new(8);
    let tree = BTree::create(&mut bufmgr).unwrap();
    tree.insert(&mut bufmgr, b"k", b"v").unwrap();
    let again = BTree::new(tree.meta_page_id);
    assert_eq!(again.meta_page_id, PageId(0));
    assert_eq!(scan(&again, &mut bufmgr, SearchMode::Start), vec![(b"k".to_vec(), b"v".to_vec())]);
}

#[test]
fn search_mode_picks_child_and_slot() {
    let mut bufmgr = BufferPoolManager::new(64);
    let tree = BTree::create(&mut bufmgr).unwrap();
    let mut count: u32 = 0;
    while height(&tree, &mut bufmgr) == 0 {
        tree.insert(&mut bufmgr, &key_of(count), &value_of(count, 300)).unwrap();
        count += 1;
    }
    let root = root_page_id(&tree, &mut bufmgr);
    let buffer = bufmgr.fetch_page(root).unwrap();
    let node = Node::new(&buffer.page);
    let branch = Branch::new(&node.body);
    assert_eq!(branch.num_pairs(), 1);
    let separator = branch.pair_at(0).key.to_vec();
    assert_eq!(SearchMode::Start.child_page_id(&branch), branch.child_at(0));
    assert_eq!(SearchMode::Key(key_of(0)).child_page_id(&branch), branch.child_at(0));
    assert_eq!(SearchMode::Key(separator.clone()).child_page_id(&branch), branch.child_at(1));
    assert_eq!(SearchMode::Key(key_of(count)).child_page_id(&branch), branch.child_at(1));
    let left = bufmgr.fetch_page(branch.child_at(0)).unwrap();
    let left_node = Node::new(&left.page);
    let leaf = Leaf::new(&left_node.body);
    assert_eq!(SearchMode::Start.tuple_slot_id(&leaf), Err(0));
    assert_eq!(SearchMode::Key(key_of(1)).tuple_slot_id(&leaf), Ok(1));
    assert_eq!(SearchMode::Key(separator).tuple_slot_id(&leaf), Err(leaf.num_pairs()));
}

#[test]
fn storable_records_are_told_from_too_large_ones() {
    assert!(BTree::accepts(b"k", b"v"));
    assert!(BTree::accepts(b"", b""));
    assert!(BTree::accepts(&vec![0u8; 1000], &vec![0u8; 1022]));
    assert!(!BTree::accepts(&vec![0u8; 1000], &vec![0u8; 1023]));
    assert!(BTree::accepts(&vec![0u8; 250], &vec![0u8; 1774]));
    assert!(!BTree::accepts(&vec![0u8; 250], &vec![0u8; 1775]));
    assert!(BTree::accepts(&vec![0u8; 2020], b"1234"));
    assert!(BTree::accepts(&vec![0u8; 2020], b""));
    assert!(!BTree::accepts(&vec![0u8; 2021], b""));
    assert!(!BTree::accepts(&vec![0u8; 5000], b""));
    assert!(!BTree::accepts(b"", &vec![0u8; 5000]));
}

#[test]
fn keyed_search_crosses_to_the_next_leaf() {
    let mut bufmgr = BufferPoolManager::new(64);
    let tree = BTree::create(&mut bufmgr).unwrap();
    let mut count: u32 = 0;
    while height(&tree, &mut bufmgr) == 0 {
        tree.insert(&mut bufmgr, &key_of(2 * count), &value_of(count, 300)).unwrap();
        count += 1;
    }
    let root = root_page_id(&tree, &mut bufmgr);
    let buffer = bufmgr.fetch_page(root).unwrap();
    let node = Node::new(&buffer.page);
    let branch = Branch::new(&node.body);
    let separator = branch.pair_at(0).key.to_vec();
    let left = bufmgr.fetch_page(branch.child_at(0)).unwrap();
    let left_node = Node::new(&left.page);
    let leaf = Leaf::new(&left_node.body);
    let last = leaf.pair_at(leaf.num_pairs() - 1).key.to_vec();
    // a key between the last key of the left leaf and the separator
    let mut between = last.clone();
    between.push(b'!');
    assert!(last < between && between < separator);
    let mut iter = tree.search(&mut bufmgr, SearchMode::Key(between)).unwrap();
    assert_eq!(iter.next(&mut bufmgr).unwrap().unwrap().0, separator);
    let mut iter = tree.search(&mut bufmgr, SearchMode::Key(last.clone())).unwrap();
    assert_eq!(iter.next(&mut bufmgr).unwrap().unwrap().0, last);
    assert_eq!(iter.next(&mut bufmgr).unwrap().unwrap().0, separator);
}

#[test]
fn pool_errors_become_tree_errors() {
    assert_eq!(
        Error::from(rdbms::buffer::Error::NoFreeBuffer),
        Error::Buffer(rdbms::buffer::Error::NoFreeBuffer)
    );
    assert_eq!(
        Error::from(rdbms::buffer::Error::PageNotFound),
        Error::Buffer(rdbms::buffer::Error::PageNotFound)
    );
    assert_ne!(Error::from(rdbms::buffer::Error::PageNotFound), Error::DuplicateKey);
}
