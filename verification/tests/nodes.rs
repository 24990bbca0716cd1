use rdbms::btree::branch::Branch;
use rdbms::btree::leaf::{DuplicateKey, Leaf};
use rdbms::btree::meta::Meta;
use rdbms::btree::node::{Body, Node, NODE_TYPE_BRANCH, NODE_TYPE_LEAF};
use rdbms::btree::pair::Pair;
use rdbms::btree::records;
use rdbms::bytes::{get_u16, get_u64, put_range, put_u16, put_u64};
use rdbms::disk::{PageId, INVALID_PAGE_ID, PAGE_SIZE};
use rdbms::order::{compare, Rank};
use rdbms::slotted::Slotted;

fn empty_leaf() -> Leaf {
    let mut leaf = Leaf::new(&vec![0u8; PAGE_SIZE - 8]);
    leaf.initialize();
    leaf
}

#[test]
fn pair_encoding_is_length_prefixed() {
    let pair = Pair { key: b"a", value: b"1" };
    assert_eq!(pair.to_bytes(), vec![1, b'a', 1, b'1']);
    let pair = Pair { key: b"", value: b"" };
    assert_eq!(pair.to_bytes(), vec![0, 0]);
    let pair = Pair { key: b"key", value: b"value" };
    assert_eq!(pair.to_bytes(), b"\x03key\x05value".to_vec());
}

#[test]
fn pair_encoding_of_long_strings_uses_wider_lengths() {
    let key = vec![7u8; 250];
    let value = vec![9u8; 300];
    let bytes = (Pair { key: &key, value: &value }).to_bytes();
    assert_eq!(bytes.len(), 1 + 250 + 3 + 300);
    assert_eq!(bytes[0], 250);
    assert_eq!(&bytes[251..254], &[251, 0x2c, 0x01]);
    let key = vec![7u8; 251];
    let bytes = (Pair { key: &key, value: b"" }).to_bytes();
    assert_eq!(&bytes[0..3], &[251, 251, 0]);
    assert_eq!(bytes.len(), 3 + 251 + 1);
}

#[test]
fn pair_decoding_gives_the_pair_back() {
    let key = vec![1u8; 700];
    let value = vec![2u8; 20];
    let bytes = (Pair { key: &key, value: &value }).to_bytes();
    let pair = Pair::from_bytes(&bytes);
    assert_eq!(pair.key, key.as_slice());
    assert_eq!(pair.value, value.as_slice());
    let bytes = vec![2, b'h', b'i', 0];
    let pair = Pair::from_bytes(&bytes);
    assert_eq!(pair.key, b"hi");
    assert_eq!(pair.value, b"");
}

#[test]
fn integers_are_little_endian() {
    let mut out = Vec::new();
    put_u64(&mut out, 0x0102_0304_0506_0708);
    put_u16(&mut out, 0x0a0b);
    put_range(&mut out, &[1, 2, 3, 4, 5], 1, 3);
    assert_eq!(out, vec![8, 7, 6, 5, 4, 3, 2, 1, 0x0b, 0x0a, 2, 3]);
    assert_eq!(get_u64(&out, 0), 0x0102_0304_0506_0708);
    assert_eq!(get_u64(&out, 1), 0x0b01_0203_0405_0607);
    assert_eq!(get_u16(&out, 8), 0x0a0b);
    assert_eq!(get_u16(&out, 10), 0x0302);
}

#[test]
fn keys_compare_lexicographically() {
    assert_eq!(compare(b"a", b"b"), Rank::Less);
    assert_eq!(compare(b"b", b"a"), Rank::Greater);
    assert_eq!(compare(b"abc", b"abc"), Rank::Equal);
    assert_eq!(compare(b"ab", b"abc"), Rank::Less);
    assert_eq!(compare(b"abc", b"ab"), Rank::Greater);
    assert_eq!(compare(b"", b""), Rank::Equal);
    assert_eq!(compare(b"", b"\x00"), Rank::Less);
    assert_eq!(compare(b"\xff", b"\x00\xff"), Rank::Greater);
}

#[test]
fn page_id_marks_no_page() {
    assert_eq!(PageId(3).valid(), Some(PageId(3)));
    assert_eq!(PageId(INVALID_PAGE_ID).valid(), None);
    assert_eq!(PageId::invalid().valid(), None);
    assert_eq!(PageId::from_link(None), PageId(u64::MAX));
    assert_eq!(PageId::from_link(Some(PageId(9))), PageId(9));
    assert_eq!(PageId(12).to_u64(), 12);
}

#[test]
fn slotted_page_stores_records_by_slot() {
    let mut page = Slotted::new(&vec![0xaau8; 64]);
    page.initialize();
    assert_eq!(page.capacity(), 56);
    assert_eq!(page.num_slots(), 0);
    assert_eq!(page.free_space(), 56);
    assert_eq!(page.insert(0, b"world"), Some(()));
    assert_eq!(page.insert(0, b"hello"), Some(()));
    assert_eq!(page.insert(1, b", "), Some(()));
    assert_eq!(page.num_slots(), 3);
    assert_eq!(page.free_space(), 56 - 3 * 4 - 12);
    assert_eq!(page.slot(0), b"hello");
    assert_eq!(page.slot(1), b", ");
    assert_eq!(page.slot(2), b"world");
    assert_eq!(page.records(), vec![b"hello".to_vec(), b", ".to_vec(), b"world".to_vec()]);
    assert_eq!(page.as_bytes().len(), 64);
    let copy = Slotted::new(page.as_bytes());
    assert_eq!(copy.slot(2), b"world");
}

#[test]
fn slotted_page_refuses_what_does_not_fit() {
    let mut page = Slotted::new(&vec![0u8; 8 + 20]);
    page.initialize();
    assert_eq!(page.insert(0, &[1u8; 17]), None);
    assert_eq!(page.num_slots(), 0);
    assert_eq!(page.insert(0, &[1u8; 16]), Some(()));
    assert_eq!(page.free_space(), 0);
    assert_eq!(page.insert(1, b""), None);
    assert_eq!(page.slot(0), &[1u8; 16]);
}

#[test]
fn slotted_page_is_refilled_from_a_list() {
    let mut page = Slotted::new(&vec![0u8; 8 + 40]);
    page.initialize();
    page.insert(0, b"old").unwrap();
    let records = vec![b"aa".to_vec(), b"bbbb".to_vec(), b"c".to_vec(), vec![0u8; 30]];
    assert!(page.fits(&records, 0, 3));
    assert!(!page.fits(&records, 0, 4));
    assert!(page.fits(&records, 3, 4));
    assert!(page.fits(&records, 2, 2));
    page.assign(&records, 1, 3);
    assert_eq!(page.records(), vec![b"bbbb".to_vec(), b"c".to_vec()]);
    assert_eq!(page.free_space(), 40 - 2 * 4 - 5);
}

#[test]
fn leaf_keeps_records_sorted() {
    let mut leaf = empty_leaf();
    assert_eq!(leaf.num_pairs(), 0);
    assert_eq!(leaf.max_pair_size(), 2028);
    assert_eq!(leaf.free_space(), 4064);
    assert_eq!(leaf.prev_page_id(), None);
    assert_eq!(leaf.next_page_id(), None);
    assert_eq!(leaf.insert(b"m", b"13"), Ok(true));
    assert_eq!(leaf.insert(b"a", b"1"), Ok(true));
    assert_eq!(leaf.insert(b"z", b"26"), Ok(true));
    assert_eq!(leaf.insert(b"m", b"again"), Err(DuplicateKey));
    assert_eq!(leaf.num_pairs(), 3);
    assert_eq!(leaf.pair_at(0).key, b"a");
    assert_eq!(leaf.pair_at(1).key, b"m");
    assert_eq!(leaf.pair_at(1).value, b"13");
    assert_eq!(leaf.pair_at(2).key, b"z");
    assert_eq!(leaf.search_slot_id(b"m"), Ok(1));
    assert_eq!(leaf.search_slot_id(b"a"), Ok(0));
    assert_eq!(leaf.search_slot_id(b"b"), Err(1));
    assert_eq!(leaf.search_slot_id(b""), Err(0));
    assert_eq!(leaf.search_slot_id(b"zz"), Err(3));
    assert_eq!(leaf.free_space(), 4064 - 3 * 4 - (5 + 4 + 5));
}

#[test]
fn leaf_refuses_records_that_are_too_large_or_do_not_fit() {
    let mut leaf = empty_leaf();
    let key = vec![1u8; 1000];
    assert_eq!(leaf.insert(&key, &vec![0u8; 1023]), Ok(false));
    assert_eq!(leaf.num_pairs(), 0);
    assert_eq!(leaf.insert(&key, &vec![0u8; 1022]), Ok(true));
    assert_eq!(leaf.insert(&vec![2u8; 1000], &vec![0u8; 1022]), Ok(true));
    assert_eq!(leaf.free_space(), 0);
    assert_eq!(leaf.insert(b"k", b""), Ok(false));
    assert_eq!(leaf.num_pairs(), 2);
}

#[test]
fn leaf_links_survive_serialization() {
    let mut leaf = empty_leaf();
    leaf.set_prev_page_id(Some(PageId(5)));
    leaf.set_next_page_id(Some(PageId(7)));
    leaf.insert(b"k", b"v").unwrap();
    let bytes = leaf.to_bytes();
    assert_eq!(bytes.len(), PAGE_SIZE - 8);
    assert_eq!(&bytes[0..16], &[5, 0, 0, 0, 0, 0, 0, 0, 7, 0, 0, 0, 0, 0, 0, 0]);
    let again = Leaf::new(&bytes);
    assert_eq!(again.prev_page_id(), Some(PageId(5)));
    assert_eq!(again.next_page_id(), Some(PageId(7)));
    assert_eq!(again.pair_at(0).value, b"v");
    leaf.set_next_page_id(None);
    assert_eq!(leaf.next_page_id(), None);
    assert_eq!(leaf.prev_page_id(), Some(PageId(5)));
}

#[test]
fn leaf_split_divides_the_records() {
    let mut leaf = empty_leaf();
    for i in 0..10u8 {
        assert_eq!(leaf.insert(&[b'a' + 2 * i], &vec![i; 395]), Ok(true));
    }
    assert_eq!(leaf.insert(b"d", &vec![0u8; 395]), Ok(false));
    let mut right = empty_leaf();
    let separator = leaf.split_insert(&mut right, b"d", &vec![0u8; 395]);
    assert_eq!(leaf.num_pairs() + right.num_pairs(), 11);
    assert!(leaf.num_pairs() > 0);
    assert!(right.num_pairs() > 0);
    assert_eq!(right.pair_at(0).key, separator.as_slice());
    let mut keys = Vec::new();
    for i in 0..leaf.num_pairs() {
        keys.push(leaf.pair_at(i).key.to_vec());
    }
    for i in 0..right.num_pairs() {
        keys.push(right.pair_at(i).key.to_vec());
    }
    let expected: Vec<Vec<u8>> =
        b"acdegikmoqs".iter().map(|k| vec![*k]).collect();
    assert_eq!(keys, expected);
    assert_eq!(leaf.num_pairs(), 6);
    assert_eq!(separator, b"k".to_vec());
}

fn sample_branch() -> Branch {
    let mut branch = Branch::new(&vec![0u8; PAGE_SIZE - 8]);
    branch.initialize(b"m", PageId(1), PageId(2));
    branch
}

#[test]
fn branch_routes_keys_to_children() {
    let mut branch = sample_branch();
    assert_eq!(branch.max_pair_size(), 2032);
    assert_eq!(branch.num_pairs(), 1);
    assert_eq!(branch.child_at(0), PageId(1));
    assert_eq!(branch.child_at(1), PageId(2));
    assert!(branch.insert(1, b"t", PageId(3)));
    assert!(branch.insert(0, b"f", PageId(4)));
    // children: 1 | f | 4 | m | 2 | t | 3
    assert_eq!(branch.num_pairs(), 3);
    assert_eq!(branch.pair_at(0).key, b"f");
    assert_eq!(branch.pair_at(1).key, b"m");
    assert_eq!(branch.pair_at(2).key, b"t");
    assert_eq!(branch.pair_at(1).value, &[4, 0, 0, 0, 0, 0, 0, 0]);
    assert_eq!(branch.child_at(0), PageId(1));
    assert_eq!(branch.child_at(1), PageId(4));
    assert_eq!(branch.child_at(2), PageId(2));
    assert_eq!(branch.child_at(3), PageId(3));
    assert_eq!(branch.search_slot_id(b"m"), Ok(1));
    assert_eq!(branch.search_slot_id(b"n"), Err(2));
    assert_eq!(branch.search_child_idx(b"a"), 0);
    assert_eq!(branch.search_child_idx(b"f"), 1);
    assert_eq!(branch.search_child_idx(b"g"), 1);
    assert_eq!(branch.search_child_idx(b"m"), 2);
    assert_eq!(branch.search_child_idx(b"t"), 3);
    assert_eq!(branch.search_child_idx(b"z"), 3);
    assert_eq!(branch.search_child(b"a"), PageId(1));
    assert_eq!(branch.search_child(b"m"), PageId(2));
    assert_eq!(branch.search_child(b"zz"), PageId(3));
    let again = Branch::new(&branch.to_bytes());
    assert_eq!(again.child_at(3), PageId(3));
    assert_eq!(again.search_child(b"g"), PageId(4));
}

#[test]
fn branch_split_takes_one_separator_out() {
    let mut branch = Branch::new(&vec![0u8; PAGE_SIZE - 8]);
    let key = |i: u8| vec![b'a' + i; 500];
    branch.initialize(&key(0), PageId(100), PageId(101));
    for i in 1..7u8 {
        assert!(branch.insert(i as usize, &key(i), PageId(101 + i as u64)));
    }
    assert_eq!(branch.num_pairs(), 7);
    assert!(!branch.insert(7, &key(7), PageId(108)));
    assert_eq!(branch.num_pairs(), 7);
    let mut right = Branch::new(&vec![0u8; PAGE_SIZE - 8]);
    let promoted = branch.split_insert(&mut right, 7, &key(7), PageId(108));
    let left_count = branch.num_pairs();
    assert_eq!(left_count + 1 + right.num_pairs(), 8);
    assert_eq!(promoted, key(left_count as u8));
    assert_eq!(left_count, 3);
    for i in 0..left_count {
        assert_eq!(branch.pair_at(i).key, key(i as u8).as_slice());
    }
    for i in 0..right.num_pairs() {
        assert_eq!(right.pair_at(i).key, key((left_count + 1 + i) as u8).as_slice());
    }
    let mut children = Vec::new();
    for i in 0..=left_count {
        children.push(branch.child_at(i).0);
    }
    for i in 0..=right.num_pairs() {
        children.push(right.child_at(i).0);
    }
    assert_eq!(children, (100..=108).collect::<Vec<u64>>());
}

#[test]
fn node_tag_tells_leaf_from_branch() {
    assert_eq!(NODE_TYPE_LEAF.to_le_bytes(), *b"LEAF    ");
    assert_eq!(NODE_TYPE_BRANCH.to_le_bytes(), *b"BRANCH  ");
    let leaf = empty_leaf();
    let page = Node::assemble(NODE_TYPE_LEAF, &leaf.to_bytes());
    assert_eq!(page.len(), PAGE_SIZE);
    assert_eq!(&page[0..8], b"LEAF    ");
    let mut node = Node::new(&page);
    assert_eq!(node.header.node_type, NODE_TYPE_LEAF);
    assert!(matches!(Body::new(node.header.node_type, &node.body), Body::Leaf(_)));
    node.initialize_as_branch();
    assert_eq!(node.header.node_type, NODE_TYPE_BRANCH);
    node.initialize_as_leaf();
    assert_eq!(node.header.node_type, NODE_TYPE_LEAF);
    let branch = sample_branch();
    let page = Node::assemble(NODE_TYPE_BRANCH, &branch.to_bytes());
    let node = Node::new(&page);
    match Body::new(node.header.node_type, &node.body) {
        Body::Branch(branch) => assert_eq!(branch.child_at(1), PageId(2)),
        Body::Leaf(_) => panic!("a branch was read as a leaf"),
    }
}

#[test]
fn meta_page_names_the_root() {
    let meta = Meta::new(&vec![0u8; PAGE_SIZE]);
    assert_eq!(meta.header.root_page_id, PageId(0));
    let meta = meta.with_root(PageId(0x0102));
    let bytes = meta.to_bytes();
    assert_eq!(bytes.len(), PAGE_SIZE);
    assert_eq!(&bytes[0..8], &[2, 1, 0, 0, 0, 0, 0, 0]);
    assert_eq!(Meta::new(&bytes).header.root_page_id, PageId(0x0102));
}

#[test]
fn records_are_searched_by_key() {
    let mut page = Slotted::new(&vec![0u8; 200]);
    page.initialize();
    page.insert(0, &(Pair { key: b"b", value: b"2" }).to_bytes()).unwrap();
    page.insert(1, &(Pair { key: b"d", value: b"4" }).to_bytes()).unwrap();
    page.insert(2, &(Pair { key: b"f", value: b"6" }).to_bytes()).unwrap();
    assert_eq!(records::search(&page, b"a"), Err(0));
    assert_eq!(records::search(&page, b"b"), Ok(0));
    assert_eq!(records::search(&page, b"c"), Err(1));
    assert_eq!(records::search(&page, b"d"), Ok(1));
    assert_eq!(records::search(&page, b"f"), Ok(2));
    assert_eq!(records::search(&page, b"g"), Err(3));
    assert_eq!(records::record_at(&page, 2).value, b"6");
}
