//! The B+Tree: pages, nodes and the operations on the whole tree.

pub mod pair;
pub mod meta;
pub mod node;
pub mod records;
pub mod leaf;
pub mod branch;
pub mod model;
pub mod growth;
pub mod whole;
pub mod laws;

use std::rc::Rc;
use vstd::prelude::*;
use crate::buffer::{Buffer, BufferPoolManager};
use crate::disk::{PageId, PAGE_SIZE};
use crate::order::{compare, lemma_contains_at_lower_bound, lemma_search_result, Rank};
use crate::slotted::lemma_used_by_slots;
use branch::Branch;
use growth::{
    branch_absorbed, branch_same, branch_split, grown, leaf_fit, leaf_split,
    lemma_branch_absorbed, lemma_branch_same, lemma_branch_split, lemma_leaf_fit,
    lemma_leaf_split, lemma_widened, Growth,
};
use leaf::Leaf;
use model::{
    descent, flat, in_range, index_for, leaf_stored, leaves_between, lemma_child_absent,
    lemma_descend, lemma_descent_child, lemma_descent_node, lemma_flat_index, lemma_flat_one,
    lemma_leaves_stored, lemma_prefix_len_add, lemma_prefix_len_last, lemma_stored_unique,
    lemma_wf_leaves, lemma_wf_pairs, link_ok, linked, lower, position_for, prefix_len, stepped,
    storable, takes, upper, yielded, LeafEntry, Tree,
};
use node::{body_of, Body, Node, NODE_TYPE_BRANCH, NODE_TYPE_LEAF};
use pair::lemma_pair_encoding_len;
use records::{keys_of, Record};
use whole::{
    lemma_grown_facts, lemma_grown_pairs, lemma_new_tree_linked, lemma_new_tree_stored,
    lemma_new_tree_wf, lemma_next_leaf_kept, new_tree, relink_done, rooted, same_node,
};

pub use pair::Pair;

verus! {

/// Why an operation on the tree failed.
#[derive(Clone, Copy, Debug, PartialEq, Eq, Structural)]
pub enum Error {
    /// The key to insert is already in the tree.
    DuplicateKey,
    /// The page pool could not provide a page.
    Buffer(crate::buffer::Error),
}

impl From<crate::buffer::Error> for Error {
    fn from(error: crate::buffer::Error) -> (r: Error) {
        Error::Buffer(error)
    }
}

impl vstd::std_specs::convert::FromSpecImpl<crate::buffer::Error> for Error {
    open spec fn obeys_from_spec() -> bool {
        true
    }

    open spec fn from_spec(error: crate::buffer::Error) -> Error {
        Error::Buffer(error)
    }
}

/// Where a search starts.
#[derive(Debug, Clone)]
pub enum SearchMode {
    /// At the first record of the tree.
    Start,
    /// At the first record whose key is not less than the given key.
    Key(Vec<u8>),
}

impl SearchMode {
    /// The key searched for, if there is one.
    pub open spec fn target(&self) -> Option<Seq<u8>> {
        match self {
            SearchMode::Start => None,
            SearchMode::Key(key) => Some(key@),
        }
    }

    /// Index of the child that the search descends into, in a branch with
    /// separators `keys`.
    pub open spec fn child_index(&self, keys: Seq<Seq<u8>>) -> int {
        index_for(self.target(), keys)
    }

    /// Where the search lands among `pairs`.
    pub open spec fn position(&self, pairs: Seq<Record>) -> int {
        position_for(self.target(), pairs)
    }

    /// The child of `branch` that the search descends into: the leftmost
    /// one for `Start`, else the one whose bounds take in the key.
    pub fn child_page_id(&self, branch: &Branch) -> (r: PageId)
        requires
            branch::wf(branch@),
        ensures
            r == branch::children_of(branch@)[self.child_index(branch::separators_of(branch@))],
    {
        match self {
            SearchMode::Start => branch.child_at(0),
            SearchMode::Key(key) => branch.search_child(key.as_slice()),
        }
    }

    /// The slot of `leaf` that the search lands on: `Err(0)` for `Start`,
    /// else the outcome of the search for the key.
    pub fn tuple_slot_id(&self, leaf: &Leaf) -> (r: Result<usize, usize>)
        requires
            leaf::wf(leaf@),
        ensures
            match self {
                SearchMode::Start => r == Err::<usize, usize>(0),
                SearchMode::Key(key) => r == crate::order::search_result(
                    keys_of(leaf::pairs_of(leaf@)),
                    key@,
                ),
            },
    {
        match self {
            SearchMode::Start => Err(0),
            SearchMode::Key(key) => leaf.search_slot_id(key.as_slice()),
        }
    }
}

/// A handle on a tree: the page that says where its root is.
pub struct BTree {
    pub meta_page_id: PageId,
}

/// A cursor over the records of a tree, in key order.
pub struct Iter {
    buffer: Rc<Buffer>,
    slot_id: usize,
    meta: Ghost<PageId>,
    leaf: Ghost<int>,
}

/// What an insertion below a node hands up to the node above.
struct Grown {
    /// When the node was split: the separator and the page of the new
    /// node to its right.
    overflow: Option<(Vec<u8>, PageId)>,
    /// When a leaf was split: the page of the new leaf and the leaf that
    /// now follows it.
    relink: Option<(PageId, Option<PageId>)>,
    growth: Ghost<Growth>,
}

impl Grown {
    /// What is handed up agrees with the growth `self.growth` of a
    /// subtree that was stored in `s0`.
    spec fn handed_up(&self, s0: Seq<Seq<u8>>) -> bool {
        let g = self.growth@;
        &&& self.overflow is Some <==> g.right is Some
        &&& self.overflow matches Some(up) ==> up.0@ == (g.right->0).0 && up.1 == (g.right->0).1.id()
        &&& self.relink is Some <==> g.entries.len() == 2
        &&& self.relink matches Some(link) ==> link.0 == g.entries[1].0 && link.1 == leaf::next_of(
            body_of(s0[g.entries[0].0.0 as int]),
        )
    }
}

/// Replaces the bytes of a page that the pool holds.
fn put_page(bufmgr: &mut BufferPoolManager, page_id: PageId, page: Vec<u8>)
    requires
        old(bufmgr).wf(),
        page_id.0 < old(bufmgr)@.len(),
        page@.len() == PAGE_SIZE,
    ensures
        final(bufmgr).wf(),
        final(bufmgr).spec_pool_size() == old(bufmgr).spec_pool_size(),
        final(bufmgr)@ == old(bufmgr)@.update(page_id.0 as int, page@),
{
    match bufmgr.write_page(page_id, page) {
        Ok(_) => {},
        Err(_) => vstd::pervasive::unreached(),
    }
}

/// The record that an owned key/value pair stands for.
pub open spec fn record_of(pair: Option<(Vec<u8>, Vec<u8>)>) -> Option<Record> {
    match pair {
        Some(kv) => Some((kv.0@, kv.1@)),
        None => None,
    }
}

impl BTree {
    /// The pages of `store` hold tree `t` under this handle: the meta page
    /// names the root of `t`, `t` is stored and is a consistent tree for
    /// all keys, and its leaves are linked in key order.
    pub open spec fn holds(&self, t: Tree, store: Seq<Seq<u8>>) -> bool {
        &&& self.meta_page_id.0 < store.len()
        &&& store[self.meta_page_id.0 as int].len() == PAGE_SIZE
        &&& meta::root_of(store[self.meta_page_id.0 as int]) == t.id()
        &&& !t.has_page(self.meta_page_id)
        &&& t.stored_in(store)
        &&& t.wf(Seq::<u8>::empty(), None, t.height())
        &&& linked(store, t.leaves())
    }

    /// The pool holds a tree under this handle.
    pub open spec fn wf(&self, bufmgr: &BufferPoolManager) -> bool {
        bufmgr.wf() && exists|t: Tree| self.holds(t, bufmgr@)
    }

    /// The tree that the pool holds under this handle.
    pub open spec fn tree(&self, bufmgr: &BufferPoolManager) -> Tree {
        choose|t: Tree| self.holds(t, bufmgr@)
    }

    /// The records of the tree, in key order.
    pub open spec fn pairs(&self, bufmgr: &BufferPoolManager) -> Seq<Record> {
        self.tree(bufmgr).pairs()
    }

    /// The handle for the tree whose meta page is `meta_page_id`.
    pub fn new(meta_page_id: PageId) -> (r: BTree)
        ensures
            r.meta_page_id == meta_page_id,
    {
        BTree { meta_page_id }
    }

    /// Number of branch levels of the tree.
    pub open spec fn height(&self, bufmgr: &BufferPoolManager) -> nat {
        self.tree(bufmgr).height()
    }

    /// The leaf that the record `(key, value)` belongs to has room for it.
    pub open spec fn has_room(
        &self,
        bufmgr: &BufferPoolManager,
        key: Seq<u8>,
        value: Seq<u8>,
    ) -> bool {
        takes(bufmgr@, self.tree(bufmgr), key, value)
    }

    /// The tree that the pool holds under this handle is the only one.
    pub proof fn lemma_tree_unique(&self, t: Tree, bufmgr: &BufferPoolManager)
        requires
            self.holds(t, bufmgr@),
        ensures
            self.tree(bufmgr) == t,
    {
        lemma_stored_unique(self.tree(bufmgr), t, bufmgr@);
    }

    /// Makes an empty tree: a meta page and, as its root, an empty leaf.
    ///
    /// Needs two free pages.  Without them it fails with `NoFreeBuffer`
    /// and leaves the pool as it is.  The pages that the pool held before
    /// do not change.
    pub fn create(bufmgr: &mut BufferPoolManager) -> (r: Result<BTree, Error>)
        requires
            old(bufmgr).wf(),
        ensures
            final(bufmgr).wf(),
            final(bufmgr).spec_pool_size() == old(bufmgr).spec_pool_size(),
            old(bufmgr).spec_free_pages() < 2 ==> r == Err::<BTree, Error>(
                Error::Buffer(crate::buffer::Error::NoFreeBuffer),
            ) && final(bufmgr)@ == old(bufmgr)@,
            old(bufmgr).spec_free_pages() >= 2 ==> r is Ok && r->Ok_0.meta_page_id.0 == old(
                bufmgr,
            )@.len() && r->Ok_0.wf(final(bufmgr)) && r->Ok_0.pairs(final(bufmgr)) == Seq::<
                Record,
            >::empty() && r->Ok_0.height(final(bufmgr)) == 0 && final(bufmgr)@.len() == old(
                bufmgr,
            )@.len() + 2 && final(bufmgr)@.subrange(0, old(bufmgr)@.len() as int) == old(bufmgr)@,
    {
        if bufmgr.free_pages() < 2 {
            return Err(Error::Buffer(crate::buffer::Error::NoFreeBuffer));
        }
        let meta_buffer = match bufmgr.create_page() {
            Ok(buffer) => buffer,
            Err(e) => {
                return Err(Error::Buffer(e));
            },
        };
        let root_buffer = match bufmgr.create_page() {
            Ok(buffer) => buffer,
            Err(e) => {
                return Err(Error::Buffer(e));
            },
        };
        let mut root = Node::new(root_buffer.page.as_slice());
        root.initialize_as_leaf();
        let mut leaf = Leaf::new(root.body.as_slice());
        leaf.initialize();
        let body = leaf.to_bytes();
        let page = Node::assemble(root.header.node_type, body.as_slice());
        put_page(bufmgr, root_buffer.page_id, page);
        let meta = meta::Meta::new(meta_buffer.page.as_slice()).with_root(root_buffer.page_id);
        put_page(bufmgr, meta_buffer.page_id, meta.to_bytes());
        let tree = Self::new(meta_buffer.page_id);
        proof {
            let t = Tree::Leaf { id: root_buffer.page_id, pairs: Seq::<Record>::empty() };
            assert(t.leaves() =~= seq![(root_buffer.page_id, Seq::<Record>::empty())]);
            assert(link_ok(bufmgr@, t.leaves(), 0));
            assert(tree.holds(t, bufmgr@));
            tree.lemma_tree_unique(t, bufmgr);
            lemma_flat_one((root_buffer.page_id, Seq::<Record>::empty()));
            assert(bufmgr@.subrange(0, old(bufmgr)@.len() as int) =~= old(bufmgr)@);
        }
        Ok(tree)
    }

    /// Reads the meta page and fetches the root page it names.
    fn fetch_root_page(&self, bufmgr: &mut BufferPoolManager) -> (r: Result<Rc<Buffer>, Error>)
        requires
            self.wf(old(bufmgr)),
        ensures
            final(bufmgr)@ == old(bufmgr)@,
            final(bufmgr).wf(),
            final(bufmgr).spec_pool_size() == old(bufmgr).spec_pool_size(),
            r is Ok,
            r->Ok_0.page_id == self.tree(old(bufmgr)).id(),
            r->Ok_0.page@ == old(bufmgr)@[r->Ok_0.page_id.0 as int],
    {
        let ghost t = self.tree(bufmgr);
        let root_page_id = match bufmgr.fetch_page(self.meta_page_id) {
            Ok(meta_buffer) => {
                let meta = meta::Meta::new(meta_buffer.page.as_slice());
                meta.header.root_page_id
            },
            Err(e) => {
                return Err(Error::Buffer(e));
            },
        };
        match bufmgr.fetch_page(root_page_id) {
            Ok(root_buffer) => Ok(root_buffer),
            Err(e) => Err(Error::Buffer(e)),
        }
    }

    /// Descends from the node in `node_buffer` to the leaf that the search
    /// lands on and returns a cursor there.
    fn search_internal(
        &self,
        bufmgr: &mut BufferPoolManager,
        node_buffer: Rc<Buffer>,
        search_mode: SearchMode,
        Ghost(t): Ghost<Tree>,
        Ghost(lo): Ghost<Seq<u8>>,
        Ghost(hi): Ghost<Option<Seq<u8>>>,
        Ghost(h): Ghost<nat>,
        Ghost(all): Ghost<Seq<LeafEntry>>,
        Ghost(off): Ghost<int>,
    ) -> (r: Result<Iter, Error>)
        requires
            old(bufmgr).wf(),
            descent(old(bufmgr)@, t, lo, hi, h, all, off),
            node_buffer.page_id == t.id(),
            node_buffer.page@ == old(bufmgr)@[t.id().0 as int],
            search_mode.target() matches Some(key) ==> in_range(key, lo, hi),
            linked(old(bufmgr)@, all),
            forall|j: int| 0 <= j < all.len() ==> leaf_stored(old(bufmgr)@, #[trigger] all[j]),
            all.len() > 1 ==> forall|j: int| 0 <= j < all.len() ==> (#[trigger] all[j]).1.len() > 0,
        ensures
            final(bufmgr)@ == old(bufmgr)@,
            final(bufmgr).wf(),
            final(bufmgr).spec_pool_size() == old(bufmgr).spec_pool_size(),
            r is Ok,
            r->Ok_0.meta@ == self.meta_page_id,
            r->Ok_0.at(all, old(bufmgr)@),
            r->Ok_0.place(all) == prefix_len(all, off) + position_for(
                search_mode.target(),
                t.pairs(),
            ),
        decreases h,
    {
        proof {
            bufmgr.lemma_wf();
            lemma_descent_node(bufmgr@, t, lo, hi, h, all, off);
        }
        let node = Node::new(node_buffer.page.as_slice());
        match Body::new(node.header.node_type, node.body.as_slice()) {
            Body::Leaf(leaf) => {
                proof {
                    if search_mode.target() is Some {
                        lemma_search_result(
                            keys_of(leaf::pairs_of(leaf@)),
                            search_mode.target()->0,
                        );
                    }
                }
                let slot_id = match search_mode.tuple_slot_id(&leaf) {
                    Ok(slot_id) => slot_id,
                    Err(slot_id) => slot_id,
                };
                let is_right_most = leaf.num_pairs() == slot_id;
                let mut iter = Iter {
                    buffer: node_buffer,
                    slot_id,
                    meta: Ghost(self.meta_page_id),
                    leaf: Ghost(off),
                };
                if is_right_most {
                    match iter.advance(bufmgr, Ghost(all)) {
                        Ok(_) => {},
                        Err(e) => {
                            return Err(e);
                        },
                    }
                }
                Ok(iter)
            },
            Body::Branch(branch) => {
                let child_page_id = search_mode.child_page_id(&branch);
                let ghost keys = t->Branch_keys;
                let ghost children = t->Branch_children;
                let ghost i = index_for(search_mode.target(), keys);
                proof {
                    lemma_descent_child(bufmgr@, t, lo, hi, h, all, off, search_mode.target());
                }
                match bufmgr.fetch_page(child_page_id) {
                    Ok(child_node_page) => self.search_internal(
                        bufmgr,
                        child_node_page,
                        search_mode,
                        Ghost(children[i]),
                        Ghost(lower(keys, lo, i)),
                        Ghost(upper(keys, hi, i)),
                        Ghost((h - 1) as nat),
                        Ghost(all),
                        Ghost(off + leaves_between(children, 0, i).len()),
                    ),
                    Err(e) => Err(Error::Buffer(e)),
                }
            },
        }
    }

    /// Adds the record to the leaf in page `page_id`, splitting the leaf
    /// into itself and a new page when it has no room.
    fn grow_leaf(
        bufmgr: &mut BufferPoolManager,
        page_id: PageId,
        leaf: Leaf,
        key: &[u8],
        value: &[u8],
        Ghost(t): Ghost<Tree>,
        Ghost(lo): Ghost<Seq<u8>>,
        Ghost(hi): Ghost<Option<Seq<u8>>>,
    ) -> (r: Grown)
        requires
            old(bufmgr).wf(),
            t is Leaf,
            t.stored_in(old(bufmgr)@),
            t.wf(lo, hi, 0),
            t.id() == page_id,
            leaf@ == body_of(old(bufmgr)@[page_id.0 as int]),
            in_range(key@, lo, hi),
            storable(key@, value@),
            !keys_of(t.pairs()).contains(key@),
            takes(old(bufmgr)@, t, key@, value@) || old(bufmgr).spec_free_pages() >= 1,
        ensures
            final(bufmgr).wf(),
            final(bufmgr).spec_pool_size() == old(bufmgr).spec_pool_size(),
            grown(r.growth@, old(bufmgr)@, final(bufmgr)@, t, lo, hi, 0, key@, value@),
            r.handed_up(old(bufmgr)@),
            takes(old(bufmgr)@, t, key@, value@) ==> r.overflow is None && final(bufmgr)@.len()
                == old(bufmgr)@.len(),
    {
        let ghost s0 = bufmgr@;
        let mut leaf = leaf;
        proof {
            bufmgr.lemma_wf();
            lemma_flat_one((t.id(), t->Leaf_pairs));
            lemma_pair_encoding_len(key@, value@);
            lemma_used_by_slots(leaf::block_of(leaf@));
        }
        match leaf.insert(key, value) {
            Ok(true) => {
                let body = leaf.to_bytes();
                let page = Node::assemble(NODE_TYPE_LEAF, body.as_slice());
                put_page(bufmgr, page_id, page);
                proof {
                    lemma_leaf_fit(s0, bufmgr@, t, lo, hi, key@, value@);
                }
                Grown {
                    overflow: None,
                    relink: None,
                    growth: Ghost(
                        leaf_fit(page_id, leaf::pairs_of(body_of(bufmgr@[page_id.0 as int]))),
                    ),
                }
            },
            _ => {
                match bufmgr.create_page() {
                    Ok(new_buffer) => {
                        let new_id = new_buffer.page_id;
                        let new_node = Node::new(new_buffer.page.as_slice());
                        let mut new_leaf = Leaf::new(new_node.body.as_slice());
                        new_leaf.initialize();
                        let separator = leaf.split_insert(&mut new_leaf, key, value);
                        let next = leaf.next_page_id();
                        new_leaf.set_prev_page_id(Some(page_id));
                        new_leaf.set_next_page_id(next);
                        leaf.set_next_page_id(Some(new_id));
                        let body = leaf.to_bytes();
                        let page = Node::assemble(NODE_TYPE_LEAF, body.as_slice());
                        put_page(bufmgr, page_id, page);
                        let new_body = new_leaf.to_bytes();
                        let new_page = Node::assemble(NODE_TYPE_LEAF, new_body.as_slice());
                        put_page(bufmgr, new_id, new_page);
                        proof {
                            lemma_leaf_split(s0, bufmgr@, t, lo, hi, key@, value@, new_id);
                        }
                        Grown {
                            overflow: Some((separator, new_id)),
                            relink: Some((new_id, next)),
                            growth: Ghost(
                                leaf_split(
                                    page_id,
                                    leaf::pairs_of(body_of(bufmgr@[page_id.0 as int])),
                                    new_id,
                                    leaf::pairs_of(body_of(bufmgr@[new_id.0 as int])),
                                ),
                            ),
                        }
                    },
                    Err(_) => vstd::pervasive::unreached(),
                }
            },
        }
    }

    /// Takes what came up from child `child_idx` into the branch in page
    /// `page_id`, splitting the branch into itself and a new page when it
    /// has no room.
    fn grow_branch(
        bufmgr: &mut BufferPoolManager,
        page_id: PageId,
        branch: Branch,
        child_idx: usize,
        child: Grown,
        Ghost(s0): Ghost<Seq<Seq<u8>>>,
        Ghost(t): Ghost<Tree>,
        Ghost(lo): Ghost<Seq<u8>>,
        Ghost(hi): Ghost<Option<Seq<u8>>>,
        Ghost(h): Ghost<nat>,
        Ghost(key): Ghost<Seq<u8>>,
        Ghost(value): Ghost<Seq<u8>>,
    ) -> (r: Grown)
        requires
            old(bufmgr).wf(),
            t is Branch,
            t.stored_in(s0),
            t.wf(lo, hi, h),
            t.id() == page_id,
            branch@ == body_of(s0[page_id.0 as int]),
            child_idx < t->Branch_children.len(),
            grown(
                child.growth@,
                s0,
                old(bufmgr)@,
                t->Branch_children[child_idx as int],
                lower(t->Branch_keys, lo, child_idx as int),
                upper(t->Branch_keys, hi, child_idx as int),
                (h - 1) as nat,
                key,
                value,
            ),
            child.handed_up(s0),
            child.overflow is Some ==> old(bufmgr).spec_free_pages() >= 1,
        ensures
            final(bufmgr).wf(),
            final(bufmgr).spec_pool_size() == old(bufmgr).spec_pool_size(),
            grown(r.growth@, s0, final(bufmgr)@, t, lo, hi, h, key, value),
            r.handed_up(s0),
            child.overflow is None ==> r.overflow is None && final(bufmgr)@ == old(bufmgr)@,
    {
        let ghost sc = bufmgr@;
        let ghost i = child_idx as int;
        let ghost gc = child.growth@;
        let mut branch = branch;
        proof {
            bufmgr.lemma_wf();
            lemma_widened(s0, sc, t, lo, hi, h, i, gc, key, value);
            assert(t.has_page(page_id));
        }
        match child.overflow {
            None => {
                proof {
                    lemma_branch_same(s0, sc, t, lo, hi, h, i, gc, key, value);
                }
                Grown { overflow: None, relink: child.relink, growth: Ghost(branch_same(t, i, gc)) }
            },
            Some((separator, new_child)) => {
                if branch.insert(child_idx, separator.as_slice(), new_child) {
                    let body = branch.to_bytes();
                    let page = Node::assemble(NODE_TYPE_BRANCH, body.as_slice());
                    put_page(bufmgr, page_id, page);
                    proof {
                        lemma_branch_absorbed(s0, sc, bufmgr@, t, lo, hi, h, i, gc, key, value);
                    }
                    Grown {
                        overflow: None,
                        relink: child.relink,
                        growth: Ghost(branch_absorbed(t, i, gc)),
                    }
                } else {
                    match bufmgr.create_page() {
                        Ok(new_buffer) => {
                            let new_id = new_buffer.page_id;
                            let new_node = Node::new(new_buffer.page.as_slice());
                            let mut new_branch = Branch::new(new_node.body.as_slice());
                            let promoted = branch.split_insert(
                                &mut new_branch,
                                child_idx,
                                separator.as_slice(),
                                new_child,
                            );
                            let body = branch.to_bytes();
                            let page = Node::assemble(NODE_TYPE_BRANCH, body.as_slice());
                            put_page(bufmgr, page_id, page);
                            let new_body = new_branch.to_bytes();
                            let new_page = Node::assemble(NODE_TYPE_BRANCH, new_body.as_slice());
                            put_page(bufmgr, new_id, new_page);
                            let ghost m = branch::separators_of(
                                body_of(bufmgr@[page_id.0 as int]),
                            ).len() as int;
                            proof {
                                bufmgr.lemma_wf();
                                lemma_branch_split(
                                    s0,
                                    sc,
                                    bufmgr@,
                                    t,
                                    lo,
                                    hi,
                                    h,
                                    i,
                                    gc,
                                    key,
                                    value,
                                    new_id,
                                    promoted@,
                                );
                            }
                            Grown {
                                overflow: Some((promoted, new_id)),
                                relink: child.relink,
                                growth: Ghost(branch_split(t, i, gc, m, new_id)),
                            }
                        },
                        Err(_) => vstd::pervasive::unreached(),
                    }
                }
            },
        }
    }

    /// Adds the record below the node in `buffer` and returns what the
    /// node above has to take in.
    fn insert_internal(
        &self,
        bufmgr: &mut BufferPoolManager,
        buffer: Rc<Buffer>,
        key: &[u8],
        value: &[u8],
        Ghost(t): Ghost<Tree>,
        Ghost(lo): Ghost<Seq<u8>>,
        Ghost(hi): Ghost<Option<Seq<u8>>>,
        Ghost(h): Ghost<nat>,
    ) -> (r: Grown)
        requires
            old(bufmgr).wf(),
            t.stored_in(old(bufmgr)@),
            t.wf(lo, hi, h),
            buffer.page_id == t.id(),
            buffer.page@ == old(bufmgr)@[t.id().0 as int],
            in_range(key@, lo, hi),
            storable(key@, value@),
            !keys_of(t.pairs()).contains(key@),
            takes(old(bufmgr)@, t, key@, value@) || old(bufmgr).spec_free_pages() >= h + 1,
        ensures
            final(bufmgr).wf(),
            final(bufmgr).spec_pool_size() == old(bufmgr).spec_pool_size(),
            grown(r.growth@, old(bufmgr)@, final(bufmgr)@, t, lo, hi, h, key@, value@),
            r.handed_up(old(bufmgr)@),
            takes(old(bufmgr)@, t, key@, value@) ==> r.overflow is None && final(bufmgr)@.len()
                == old(bufmgr)@.len(),
        decreases h,
    {
        let ghost s0 = bufmgr@;
        proof {
            bufmgr.lemma_wf();
            lemma_wf_leaves(t, lo, hi, h);
        }
        let node = Node::new(buffer.page.as_slice());
        match Body::new(node.header.node_type, node.body.as_slice()) {
            Body::Leaf(leaf) => Self::grow_leaf(
                bufmgr,
                buffer.page_id,
                leaf,
                key,
                value,
                Ghost(t),
                Ghost(lo),
                Ghost(hi),
            ),
            Body::Branch(branch) => {
                let child_idx = branch.search_child_idx(key);
                let child_page_id = branch.child_at(child_idx);
                let ghost keys = t->Branch_keys;
                let ghost children = t->Branch_children;
                let ghost i = child_idx as int;
                proof {
                    lemma_descend(keys, children, lo, hi, h, key@);
                    lemma_child_absent(children, i, key@);
                    assert(children[i].stored_in(s0));
                }
                match bufmgr.fetch_page(child_page_id) {
                    Ok(child_buffer) => {
                        let child = self.insert_internal(
                            bufmgr,
                            child_buffer,
                            key,
                            value,
                            Ghost(children[i]),
                            Ghost(lower(keys, lo, i)),
                            Ghost(upper(keys, hi, i)),
                            Ghost((h - 1) as nat),
                        );
                        proof {
                            reveal(crate::btree::growth::kept);
                        }
                        Self::grow_branch(
                            bufmgr,
                            buffer.page_id,
                            branch,
                            child_idx,
                            child,
                            Ghost(s0),
                            Ghost(t),
                            Ghost(lo),
                            Ghost(hi),
                            Ghost(h),
                            Ghost(key@),
                            Ghost(value@),
                        )
                    },
                    Err(_) => vstd::pervasive::unreached(),
                }
            },
        }
    }

    /// Whether `free` pages are enough for `needed` pages and one more
    /// for every level below the node in `buffer`.
    fn reserve_below(
        bufmgr: &mut BufferPoolManager,
        buffer: Rc<Buffer>,
        needed: usize,
        free: usize,
        Ghost(t): Ghost<Tree>,
        Ghost(lo): Ghost<Seq<u8>>,
        Ghost(hi): Ghost<Option<Seq<u8>>>,
        Ghost(h): Ghost<nat>,
    ) -> (r: bool)
        requires
            old(bufmgr).wf(),
            t.stored_in(old(bufmgr)@),
            t.wf(lo, hi, h),
            buffer.page_id == t.id(),
            buffer.page@ == old(bufmgr)@[t.id().0 as int],
        ensures
            final(bufmgr)@ == old(bufmgr)@,
            final(bufmgr).wf(),
            final(bufmgr).spec_pool_size() == old(bufmgr).spec_pool_size(),
            r == (free >= needed + h),
        decreases h,
    {
        proof {
            bufmgr.lemma_wf();
            lemma_wf_leaves(t, lo, hi, h);
        }
        let node = Node::new(buffer.page.as_slice());
        match Body::new(node.header.node_type, node.body.as_slice()) {
            Body::Leaf(_) => needed <= free,
            Body::Branch(branch) => {
                if needed >= free {
                    return false;
                }
                let child_page_id = branch.child_at(0);
                let ghost keys = t->Branch_keys;
                let ghost children = t->Branch_children;
                proof {
                    assert(children[0].stored_in(bufmgr@));
                }
                match bufmgr.fetch_page(child_page_id) {
                    Ok(child_buffer) => Self::reserve_below(
                        bufmgr,
                        child_buffer,
                        needed + 1,
                        free,
                        Ghost(children[0]),
                        Ghost(lower(keys, lo, 0)),
                        Ghost(upper(keys, hi, 0)),
                        Ghost((h - 1) as nat),
                    ),
                    Err(_) => vstd::pervasive::unreached(),
                }
            },
        }
    }

    /// Puts a new root above the old root and the node that was split off
    /// it, and names the new root in the meta page.
    fn grow_root(
        &self,
        bufmgr: &mut BufferPoolManager,
        root_page_id: PageId,
        separator: &[u8],
        new_child: PageId,
    ) -> (new_root: PageId)
        requires
            old(bufmgr).wf(),
            old(bufmgr).spec_free_pages() >= 1,
            self.meta_page_id.0 < old(bufmgr)@.len(),
            model::separator_fits(separator@),
        ensures
            final(bufmgr).wf(),
            final(bufmgr).spec_pool_size() == old(bufmgr).spec_pool_size(),
            new_root.0 == old(bufmgr)@.len(),
            final(bufmgr)@.len() == old(bufmgr)@.len() + 1,
            forall|p: int|
                0 <= p < old(bufmgr)@.len() && p != self.meta_page_id.0
                    ==> #[trigger] final(bufmgr)@[p] == old(bufmgr)@[p],
            final(bufmgr)@[self.meta_page_id.0 as int].len() == PAGE_SIZE,
            meta::root_of(final(bufmgr)@[self.meta_page_id.0 as int]) == new_root,
            final(bufmgr)@[new_root.0 as int].len() == PAGE_SIZE,
            node::is_branch(final(bufmgr)@[new_root.0 as int]),
            branch::wf(body_of(final(bufmgr)@[new_root.0 as int])),
            branch::separators_of(body_of(final(bufmgr)@[new_root.0 as int])) == seq![separator@],
            branch::children_of(body_of(final(bufmgr)@[new_root.0 as int])) == seq![
                root_page_id,
                new_child,
            ],
    {
        proof {
            bufmgr.lemma_wf();
        }
        match bufmgr.create_page() {
            Ok(buffer) => {
                let new_root = buffer.page_id;
                let node = Node::new(buffer.page.as_slice());
                let mut branch = Branch::new(node.body.as_slice());
                branch.initialize(separator, root_page_id, new_child);
                let body = branch.to_bytes();
                let page = Node::assemble(NODE_TYPE_BRANCH, body.as_slice());
                put_page(bufmgr, new_root, page);
                match bufmgr.fetch_page(self.meta_page_id) {
                    Ok(meta_buffer) => {
                        let meta = meta::Meta::new(meta_buffer.page.as_slice()).with_root(new_root);
                        put_page(bufmgr, self.meta_page_id, meta.to_bytes());
                    },
                    Err(_) => vstd::pervasive::unreached(),
                }
                new_root
            },
            Err(_) => vstd::pervasive::unreached(),
        }
    }

    /// Makes the leaf in page `next` point back to the leaf in page
    /// `new_leaf`.
    fn relink(bufmgr: &mut BufferPoolManager, next: PageId, new_leaf: PageId)
        requires
            old(bufmgr).wf(),
            next.0 < old(bufmgr)@.len(),
            new_leaf.0 < old(bufmgr)@.len(),
            node::is_leaf(old(bufmgr)@[next.0 as int]),
            leaf::wf(body_of(old(bufmgr)@[next.0 as int])),
        ensures
            final(bufmgr).wf(),
            final(bufmgr).spec_pool_size() == old(bufmgr).spec_pool_size(),
            final(bufmgr)@.len() == old(bufmgr)@.len(),
            forall|p: int|
                0 <= p < old(bufmgr)@.len() && p != next.0
                    ==> #[trigger] final(bufmgr)@[p] == old(bufmgr)@[p],
            same_node(old(bufmgr)@[next.0 as int], final(bufmgr)@[next.0 as int]),
            final(bufmgr)@[next.0 as int].len() == old(bufmgr)@[next.0 as int].len(),
            leaf::next_of(body_of(final(bufmgr)@[next.0 as int])) == leaf::next_of(
                body_of(old(bufmgr)@[next.0 as int]),
            ),
            leaf::prev_of(body_of(final(bufmgr)@[next.0 as int])) == Some(new_leaf),
    {
        proof {
            bufmgr.lemma_wf();
        }
        match bufmgr.fetch_page(next) {
            Ok(buffer) => {
                let node = Node::new(buffer.page.as_slice());
                let mut leaf = Leaf::new(node.body.as_slice());
                leaf.set_prev_page_id(Some(new_leaf));
                let body = leaf.to_bytes();
                let page = Node::assemble(NODE_TYPE_LEAF, body.as_slice());
                put_page(bufmgr, next, page);
            },
            Err(_) => vstd::pervasive::unreached(),
        }
    }

    /// What `insert` leaves behind is the tree with the record added.
    proof fn lemma_inserted(
        &self,
        t: Tree,
        g: Growth,
        new_root: PageId,
        s0: Seq<Seq<u8>>,
        s1: Seq<Seq<u8>>,
        s2: Seq<Seq<u8>>,
        s3: Seq<Seq<u8>>,
        key: Seq<u8>,
        value: Seq<u8>,
    )
        requires
            self.holds(t, s0),
            grown(g, s0, s1, t, Seq::<u8>::empty(), None, t.height(), key, value),
            s3.len() <= usize::MAX,
            g.right is None ==> s2 == s1 && new_root == t.id(),
            g.right is Some ==> rooted(s1, s2, self.meta_page_id, new_root, g) && meta::root_of(
                s2[self.meta_page_id.0 as int],
            ) == new_root && s2[self.meta_page_id.0 as int].len() == PAGE_SIZE,
            relink_done(s0, s2, s3, g),
        ensures
            self.holds(new_tree(g, new_root), s3),
            new_tree(g, new_root).pairs() == t.pairs().insert(
                position_for(Some(key), t.pairs()),
                (key, value),
            ),
            new_tree(g, new_root).height() == (if g.right is Some {
                t.height() + 1
            } else {
                t.height()
            }),
            s0.len() <= s3.len() <= s0.len() + t.height() + 2,
            forall|p: PageId|
                p.0 < s0.len() && p != self.meta_page_id && !(#[trigger] t.has_page(p)) ==> s3[p.0 as int]
                    == s0[p.0 as int],
    {
        let lo = Seq::<u8>::empty();
        let h = t.height();
        let meta_id = self.meta_page_id;
        assert(s1.len() <= s2.len() == s3.len());
        lemma_grown_facts(g, s0, s1, t, lo, None, h, key, value);
        lemma_new_tree_wf(g, new_root, s1, h);
        lemma_new_tree_stored(g, new_root, meta_id, t, s0, s1, s2, s3, h);
        lemma_new_tree_linked(g, new_root, meta_id, t, s0, s1, s2, s3, h, key, value);
        let t1 = new_tree(g, new_root);
        lemma_wf_pairs(t1, lo, None, t1.height());
        lemma_grown_pairs(g.leaves(), g.entries, g.leaf, s0, s1, t.leaves(), key, value);
        lemma_leaves_stored(t, s0);
        assert(leaf_stored(s0, t.leaves()[g.leaf]));
        assert(t.has_page(g.entries[0].0));
        assert(link_ok(s0, t.leaves(), g.leaf));
        let next = leaf::next_of(body_of(s0[g.entries[0].0.0 as int]));
        if next is Some {
            assert(t.has_page(next->0)) by {
                assert(leaf_stored(s0, t.leaves()[g.leaf + 1]));
            }
        }
        assert(s3[meta_id.0 as int] == s2[meta_id.0 as int]);
        assert(s1[meta_id.0 as int] == s0[meta_id.0 as int]);
        assert forall|p: PageId|
            p.0 < s0.len() && p != meta_id && !(#[trigger] t.has_page(p)) implies s3[p.0 as int]
            == s0[p.0 as int] by {
            assert(s1[p.0 as int] == s0[p.0 as int]);
            assert(s2[p.0 as int] == s1[p.0 as int]);
        }
    }

    /// The leaf that has to be linked back to a new leaf is still a leaf
    /// in its old page.
    proof fn lemma_relink_ready(
        &self,
        t: Tree,
        g: Growth,
        s0: Seq<Seq<u8>>,
        s1: Seq<Seq<u8>>,
        s2: Seq<Seq<u8>>,
        key: Seq<u8>,
        value: Seq<u8>,
    )
        requires
            self.holds(t, s0),
            grown(g, s0, s1, t, Seq::<u8>::empty(), None, t.height(), key, value),
            s1.len() <= s2.len() <= usize::MAX,
            forall|p: int|
                0 <= p < s1.len() && p != self.meta_page_id.0 ==> #[trigger] s2[p] == s1[p],
            g.entries.len() == 2,
            leaf::next_of(body_of(s0[g.entries[0].0.0 as int])) is Some,
        ensures
            ({
                let next = leaf::next_of(body_of(s0[g.entries[0].0.0 as int]))->0;
                &&& next.0 < s2.len()
                &&& node::is_leaf(s2[next.0 as int])
                &&& leaf::wf(body_of(s2[next.0 as int]))
                &&& g.entries[1].0.0 < s2.len()
            }),
    {
        let lo = Seq::<u8>::empty();
        lemma_grown_facts(g, s0, s1, t, lo, None, t.height(), key, value);
        lemma_leaves_stored(t, s0);
        assert(link_ok(s0, t.leaves(), g.leaf));
        assert(leaf_stored(s0, t.leaves()[g.leaf + 1]));
        lemma_next_leaf_kept(g, s0, s1, t, key, value);
        let next = t.leaves()[g.leaf + 1].0;
        assert(t.has_page(next));
    }

    /// Whether the tree can store the record `(key, value)`: encoded, it
    /// is no larger than the largest record of a leaf, and its key is short
    /// enough to separate two children of a branch.
    pub fn accepts(key: &[u8], value: &[u8]) -> (r: bool)
        ensures
            r == storable(key@, value@),
    {
        if key.len() > model::LEAF_MAX_PAIR_SIZE || value.len() > model::LEAF_MAX_PAIR_SIZE {
            return false;
        }
        let key_prefix: usize = if key.len() < 251 {
            1
        } else {
            3
        };
        let value_prefix: usize = if value.len() < 251 {
            1
        } else {
            3
        };
        key_prefix + key.len() + value_prefix + value.len() <= model::LEAF_MAX_PAIR_SIZE
            && key_prefix + key.len() + 9 <= model::BRANCH_MAX_PAIR_SIZE
    }

    /// Whether `key` is the key of a record of the tree.
    fn contains_key(&self, bufmgr: &mut BufferPoolManager, key: &[u8]) -> (r: bool)
        requires
            self.wf(old(bufmgr)),
        ensures
            final(bufmgr)@ == old(bufmgr)@,
            final(bufmgr).wf(),
            final(bufmgr).spec_pool_size() == old(bufmgr).spec_pool_size(),
            r == keys_of(self.pairs(old(bufmgr))).contains(key@),
    {
        let ghost t = self.tree(bufmgr);
        let ghost pairs = self.pairs(bufmgr);
        proof {
            lemma_wf_pairs(t, Seq::<u8>::empty(), None, t.height());
            lemma_contains_at_lower_bound(keys_of(pairs), key@);
        }
        let target = vstd::slice::slice_to_vec(key);
        match self.search(bufmgr, SearchMode::Key(target)) {
            Ok(iter) => {
                let mut iter = iter;
                let ghost at = iter.position(bufmgr);
                proof {
                    iter.lemma_position(bufmgr);
                }
                match iter.next(bufmgr) {
                    Ok(Some(pair)) => {
                        assert(pair.0@ == pairs[at].0);
                        assert(keys_of(pairs)[at] == pairs[at].0);
                        match compare(pair.0.as_slice(), key) {
                            Rank::Equal => true,
                            _ => {
                                proof {
                                    if crate::order::key_lt(pair.0@, key@) {
                                        crate::order::lemma_key_lt_asymmetric(pair.0@, key@);
                                    }
                                }
                                false
                            },
                        }
                    },
                    _ => false,
                }
            },
            Err(_) => vstd::pervasive::unreached(),
        }
    }

    /// Whether the leaf below the node in `buffer` that the record
    /// belongs to has room for it.
    fn room_below(
        bufmgr: &mut BufferPoolManager,
        buffer: Rc<Buffer>,
        key: &[u8],
        value: &[u8],
        Ghost(t): Ghost<Tree>,
        Ghost(lo): Ghost<Seq<u8>>,
        Ghost(hi): Ghost<Option<Seq<u8>>>,
        Ghost(h): Ghost<nat>,
    ) -> (r: bool)
        requires
            old(bufmgr).wf(),
            t.stored_in(old(bufmgr)@),
            t.wf(lo, hi, h),
            buffer.page_id == t.id(),
            buffer.page@ == old(bufmgr)@[t.id().0 as int],
            in_range(key@, lo, hi),
            storable(key@, value@),
        ensures
            final(bufmgr)@ == old(bufmgr)@,
            final(bufmgr).wf(),
            final(bufmgr).spec_pool_size() == old(bufmgr).spec_pool_size(),
            r == takes(old(bufmgr)@, t, key@, value@),
        decreases h,
    {
        proof {
            bufmgr.lemma_wf();
            lemma_wf_leaves(t, lo, hi, h);
            lemma_pair_encoding_len(key@, value@);
        }
        let node = Node::new(buffer.page.as_slice());
        match Body::new(node.header.node_type, node.body.as_slice()) {
            Body::Leaf(leaf) => {
                let size = (Pair { key, value }).to_bytes().len();
                size <= leaf.max_pair_size() && leaf.free_space() >= size
                    && leaf.free_space() - size >= crate::slotted::POINTER_SIZE
            },
            Body::Branch(branch) => {
                let child_page_id = branch.search_child(key);
                let ghost keys = t->Branch_keys;
                let ghost children = t->Branch_children;
                let ghost i = crate::order::child_index_of(keys, key@) as int;
                proof {
                    lemma_descend(keys, children, lo, hi, h, key@);
                    assert(children[i].stored_in(bufmgr@));
                }
                match bufmgr.fetch_page(child_page_id) {
                    Ok(child_buffer) => Self::room_below(
                        bufmgr,
                        child_buffer,
                        key,
                        value,
                        Ghost(children[i]),
                        Ghost(lower(keys, lo, i)),
                        Ghost(upper(keys, hi, i)),
                        Ghost((h - 1) as nat),
                    ),
                    Err(_) => vstd::pervasive::unreached(),
                }
            },
        }
    }

    /// Whether the leaf that the record belongs to has room for it.
    fn finds_room(&self, bufmgr: &mut BufferPoolManager, key: &[u8], value: &[u8]) -> (r: bool)
        requires
            self.wf(old(bufmgr)),
            storable(key@, value@),
        ensures
            final(bufmgr)@ == old(bufmgr)@,
            final(bufmgr).wf(),
            final(bufmgr).spec_pool_size() == old(bufmgr).spec_pool_size(),
            r == self.has_room(old(bufmgr), key@, value@),
    {
        let ghost t = self.tree(bufmgr);
        proof {
            crate::order::lemma_empty_is_least(key@);
        }
        match self.fetch_root_page(bufmgr) {
            Ok(root) => Self::room_below(
                bufmgr,
                root,
                key,
                value,
                Ghost(t),
                Ghost(Seq::<u8>::empty()),
                Ghost(None),
                Ghost(t.height()),
            ),
            Err(_) => vstd::pervasive::unreached(),
        }
    }

    /// Whether the pool has a free page for every level of the tree and
    /// two more.
    fn has_reserve(&self, bufmgr: &mut BufferPoolManager) -> (r: bool)
        requires
            self.wf(old(bufmgr)),
        ensures
            final(bufmgr)@ == old(bufmgr)@,
            final(bufmgr).wf(),
            final(bufmgr).spec_pool_size() == old(bufmgr).spec_pool_size(),
            r == (old(bufmgr).spec_free_pages() >= self.height(old(bufmgr)) + 2),
    {
        let ghost t = self.tree(bufmgr);
        let free = bufmgr.free_pages();
        match self.fetch_root_page(bufmgr) {
            Ok(root) => Self::reserve_below(
                bufmgr,
                root,
                2,
                free,
                Ghost(t),
                Ghost(Seq::<u8>::empty()),
                Ghost(None),
                Ghost(t.height()),
            ),
            Err(_) => vstd::pervasive::unreached(),
        }
    }

    /// Adds a record whose key is not in the tree, given the pages that
    /// this may take.
    fn grow(&self, bufmgr: &mut BufferPoolManager, key: &[u8], value: &[u8])
        requires
            self.wf(old(bufmgr)),
            storable(key@, value@),
            !keys_of(self.pairs(old(bufmgr))).contains(key@),
            self.has_room(old(bufmgr), key@, value@) || old(bufmgr).spec_free_pages()
                >= self.height(old(bufmgr)) + 2,
        ensures
            final(bufmgr).wf(),
            final(bufmgr).spec_pool_size() == old(bufmgr).spec_pool_size(),
            self.wf(final(bufmgr)),
            self.has_room(old(bufmgr), key@, value@) ==> final(bufmgr)@.len() == old(bufmgr)@.len()
                && self.height(final(bufmgr)) == self.height(old(bufmgr)),
            self.pairs(final(bufmgr)) == self.pairs(old(bufmgr)).insert(
                position_for(Some(key@), self.pairs(old(bufmgr))),
                (key@, value@),
            ),
            old(bufmgr)@.len() <= final(bufmgr)@.len() <= old(bufmgr)@.len() + self.height(
                old(bufmgr),
            ) + 2,
            self.height(old(bufmgr)) <= self.height(final(bufmgr)) <= self.height(old(bufmgr)) + 1,
            forall|p: PageId|
                p.0 < old(bufmgr)@.len() && p != self.meta_page_id
                    && !(#[trigger] self.tree(old(bufmgr)).has_page(p))
                    ==> final(bufmgr)@[p.0 as int] == old(bufmgr)@[p.0 as int],
    {
        let ghost t = self.tree(bufmgr);
        let ghost s0 = bufmgr@;
        let ghost lo = Seq::<u8>::empty();
        let ghost h = t.height();
        proof {
            bufmgr.lemma_wf();
            crate::order::lemma_empty_is_least(key@);
        }
        let root = match self.fetch_root_page(bufmgr) {
            Ok(root) => root,
            Err(_) => vstd::pervasive::unreached(),
        };
        let root_page_id = root.page_id;
        let grown = self.insert_internal(
            bufmgr,
            root,
            key,
            value,
            Ghost(t),
            Ghost(lo),
            Ghost(None),
            Ghost(h),
        );
        let ghost g = grown.growth@;
        let ghost s1 = bufmgr@;
        proof {
            bufmgr.lemma_wf();
            lemma_grown_facts(g, s0, s1, t, lo, None, h, key@, value@);
        }
        let ghost mut new_root = root_page_id;
        match grown.overflow {
            Some((separator, new_child)) => {
                let id = self.grow_root(bufmgr, root_page_id, separator.as_slice(), new_child);
                proof {
                    new_root = id;
                }
            },
            None => {},
        }
        let ghost s2 = bufmgr@;
        proof {
            bufmgr.lemma_wf();
        }
        match grown.relink {
            Some((new_leaf, Some(next))) => {
                proof {
                    self.lemma_relink_ready(t, g, s0, s1, s2, key@, value@);
                }
                Self::relink(bufmgr, next, new_leaf);
            },
            _ => {},
        }
        proof {
            bufmgr.lemma_wf();
            self.lemma_inserted(t, g, new_root, s0, s1, s2, bufmgr@, key@, value@);
            self.lemma_tree_unique(new_tree(g, new_root), bufmgr);
        }
    }

    /// Adds the record `(key, value)` to the tree.
    ///
    /// A key that is already in the tree is refused with `DuplicateKey`.
    /// A record that goes to a leaf with room for it is added without
    /// taking a page from the pool.  When the leaf has to be split, the
    /// insertion first makes sure that the pool has a free page for every
    /// level of the tree and two more, which is what splitting every node
    /// on the way up and growing a new root would take; without them it
    /// fails with `NoFreeBuffer`.  A failed insertion changes no page.  A
    /// successful one adds the record at its place in key order and leaves
    /// pages that are neither the meta page nor pages of the tree as they
    /// are.
    pub fn insert(&self, bufmgr: &mut BufferPoolManager, key: &[u8], value: &[u8]) -> (r: Result<
        (),
        Error,
    >)
        requires
            self.wf(old(bufmgr)),
            storable(key@, value@),
        ensures
            final(bufmgr).wf(),
            final(bufmgr).spec_pool_size() == old(bufmgr).spec_pool_size(),
            self.wf(final(bufmgr)),
            keys_of(self.pairs(old(bufmgr))).contains(key@) ==> r == Err::<(), Error>(
                Error::DuplicateKey,
            ),
            !keys_of(self.pairs(old(bufmgr))).contains(key@) && !self.has_room(
                old(bufmgr),
                key@,
                value@,
            ) && old(bufmgr).spec_free_pages() < self.height(old(bufmgr)) + 2 ==> r == Err::<
                (),
                Error,
            >(Error::Buffer(crate::buffer::Error::NoFreeBuffer)),
            !keys_of(self.pairs(old(bufmgr))).contains(key@) && (self.has_room(
                old(bufmgr),
                key@,
                value@,
            ) || old(bufmgr).spec_free_pages() >= self.height(old(bufmgr)) + 2) ==> r is Ok,
            r is Err ==> final(bufmgr)@ == old(bufmgr)@,
            r is Ok && self.has_room(old(bufmgr), key@, value@) ==> final(bufmgr)@.len() == old(
                bufmgr,
            )@.len() && self.height(final(bufmgr)) == self.height(old(bufmgr)),
            r is Ok ==> {
                &&& self.pairs(final(bufmgr)) == self.pairs(old(bufmgr)).insert(
                    position_for(Some(key@), self.pairs(old(bufmgr))),
                    (key@, value@),
                )
                &&& old(bufmgr)@.len() <= final(bufmgr)@.len() <= old(bufmgr)@.len() + self.height(
                    old(bufmgr),
                ) + 2
                &&& self.height(old(bufmgr)) <= self.height(final(bufmgr)) <= self.height(
                    old(bufmgr),
                ) + 1
                &&& forall|p: PageId|
                    p.0 < old(bufmgr)@.len() && p != self.meta_page_id
                        && !(#[trigger] self.tree(old(bufmgr)).has_page(p))
                        ==> final(bufmgr)@[p.0 as int] == old(bufmgr)@[p.0 as int]
            },
    {
        if self.contains_key(bufmgr, key) {
            return Err(Error::DuplicateKey);
        }
        if !self.finds_room(bufmgr, key, value) && !self.has_reserve(bufmgr) {
            return Err(Error::Buffer(crate::buffer::Error::NoFreeBuffer));
        }
        self.grow(bufmgr, key, value);
        Ok(())
    }

    /// Positions a cursor: at the first record for `Start`, at the first
    /// record whose key is not less than the key for `Key`.  When no such
    /// record exists the cursor is at the end.  The pool does not change.
    pub fn search(&self, bufmgr: &mut BufferPoolManager, search_mode: SearchMode) -> (r: Result<
        Iter,
        Error,
    >)
        requires
            self.wf(old(bufmgr)),
        ensures
            final(bufmgr)@ == old(bufmgr)@,
            final(bufmgr).wf(),
            final(bufmgr).spec_pool_size() == old(bufmgr).spec_pool_size(),
            r is Ok,
            r->Ok_0.tree() == *self,
            r->Ok_0.wf(final(bufmgr)),
            r->Ok_0.position(final(bufmgr)) == search_mode.position(self.pairs(old(bufmgr))),
    {
        let ghost t = self.tree(bufmgr);
        let ghost all = t.leaves();
        proof {
            lemma_leaves_stored(t, bufmgr@);
            lemma_wf_leaves(t, Seq::<u8>::empty(), None, t.height());
            assert(all.subrange(0, all.len() as int) =~= all);
            assert(all.subrange(0, 0) =~= Seq::<LeafEntry>::empty());
            if search_mode.target() is Some {
                crate::order::lemma_empty_is_least(search_mode.target()->0);
            }
            reveal(descent);
        }
        match self.fetch_root_page(bufmgr) {
            Ok(root_page) => {
                let r = self.search_internal(
                    bufmgr,
                    root_page,
                    search_mode,
                    Ghost(t),
                    Ghost(Seq::<u8>::empty()),
                    Ghost(None),
                    Ghost(t.height()),
                    Ghost(all),
                    Ghost(0),
                );
                r
            },
            Err(e) => Err(e),
        }
    }
}

impl Iter {
    /// The tree that the cursor walks over.
    pub closed spec fn tree(&self) -> BTree {
        BTree { meta_page_id: self.meta@ }
    }

    /// The cursor is on leaf `self.leaf` of `all`, holding that leaf's page
    /// as `store` has it, on one of its records or, on the last leaf only,
    /// behind them.
    pub closed spec fn at(&self, all: Seq<LeafEntry>, store: Seq<Seq<u8>>) -> bool {
        &&& self.on(all, store)
        &&& self.slot_id < all[self.leaf@].1.len() || self.leaf@ == all.len() - 1
    }

    /// As `at`, but the cursor may be behind the records of any leaf.
    pub closed spec fn on(&self, all: Seq<LeafEntry>, store: Seq<Seq<u8>>) -> bool {
        &&& 0 <= self.leaf@ < all.len()
        &&& all[self.leaf@].0 == self.buffer.page_id
        &&& self.buffer.page@ == store[all[self.leaf@].0.0 as int]
        &&& self.slot_id <= all[self.leaf@].1.len()
    }

    /// Number of records of `all` before the cursor.
    pub closed spec fn place(&self, all: Seq<LeafEntry>) -> int {
        prefix_len(all, self.leaf@) + self.slot_id
    }

    /// The cursor is a cursor over the tree that the pool holds.
    pub closed spec fn wf(&self, bufmgr: &BufferPoolManager) -> bool {
        &&& self.tree().wf(bufmgr)
        &&& self.at(self.tree().tree(bufmgr).leaves(), bufmgr@)
    }

    /// Number of records before the cursor: the index, among the records
    /// of the tree, of the record that `next` returns.
    pub closed spec fn position(&self, bufmgr: &BufferPoolManager) -> int {
        self.place(self.tree().tree(bufmgr).leaves())
    }

    /// The position of a cursor is never past the end.
    pub proof fn lemma_position(&self, bufmgr: &BufferPoolManager)
        requires
            self.wf(bufmgr),
        ensures
            0 <= self.position(bufmgr) <= self.tree().pairs(bufmgr).len(),
    {
        let all = self.tree().tree(bufmgr).leaves();
        let j = self.leaf@;
        lemma_prefix_len_add(all, j, 1);
        assert(all.subrange(j, j + 1) =~= seq![all[j]]);
        lemma_flat_one(all[j]);
        lemma_prefix_len_add(all, j + 1, all.len() - j - 1);
        assert(all.subrange(0, all.len() as int) =~= all);
    }

    /// The record under the cursor, or `None` behind the last record.
    fn get(&self, Ghost(all): Ghost<Seq<LeafEntry>>, Ghost(store): Ghost<Seq<Seq<u8>>>) -> (r:
        Option<(Vec<u8>, Vec<u8>)>)
        requires
            self.at(all, store),
            forall|j: int| 0 <= j < all.len() ==> leaf_stored(store, #[trigger] all[j]),
        ensures
            self.place(all) <= flat(all).len(),
            self.place(all) < flat(all).len() ==> record_of(r) == Some(flat(all)[self.place(all)]),
            self.place(all) == flat(all).len() ==> r is None,
            r is Some <==> self.slot_id < all[self.leaf@].1.len(),
    {
        proof {
            assert(leaf_stored(store, all[self.leaf@]));
            if self.slot_id < all[self.leaf@].1.len() {
                lemma_flat_index(all, self.leaf@, self.slot_id as int);
            } else {
                lemma_prefix_len_last(all);
            }
        }
        let leaf_node = Node::new(self.buffer.page.as_slice());
        let leaf = Leaf::new(leaf_node.body.as_slice());
        if self.slot_id < leaf.num_pairs() {
            let pair = leaf.pair_at(self.slot_id);
            Some((vstd::slice::slice_to_vec(pair.key), vstd::slice::slice_to_vec(pair.value)))
        } else {
            None
        }
    }

    /// Moves the cursor one record on, crossing to the next leaf when the
    /// records of this one are used up.
    fn advance(&mut self, bufmgr: &mut BufferPoolManager, Ghost(all): Ghost<Seq<LeafEntry>>) -> (r:
        Result<(), Error>)
        requires
            old(bufmgr).wf(),
            old(self).on(all, old(bufmgr)@),
            linked(old(bufmgr)@, all),
            forall|j: int| 0 <= j < all.len() ==> leaf_stored(old(bufmgr)@, #[trigger] all[j]),
            all.len() > 1 ==> forall|j: int| 0 <= j < all.len() ==> (#[trigger] all[j]).1.len() > 0,
        ensures
            final(bufmgr)@ == old(bufmgr)@,
            final(bufmgr).wf(),
            final(bufmgr).spec_pool_size() == old(bufmgr).spec_pool_size(),
            r is Ok,
            final(self).meta == old(self).meta,
            final(self).at(all, old(bufmgr)@),
            final(self).place(all) == (if old(self).slot_id < all[old(self).leaf@].1.len() {
                old(self).place(all) + 1
            } else {
                old(self).place(all)
            }),
    {
        let ghost j = self.leaf@;
        proof {
            assert(leaf_stored(bufmgr@, all[j]));
            assert(model::link_ok(bufmgr@, all, j));
            lemma_prefix_len_add(all, j, 1);
            assert(all.subrange(j, j + 1) =~= seq![all[j]]);
            lemma_flat_one(all[j]);
        }
        let next_page_id = {
            let leaf_node = Node::new(self.buffer.page.as_slice());
            let leaf = Leaf::new(leaf_node.body.as_slice());
            let num_pairs = leaf.num_pairs();
            if self.slot_id < num_pairs {
                self.slot_id = self.slot_id + 1;
            }
            if self.slot_id < num_pairs {
                return Ok(());
            }
            leaf.next_page_id()
        };
        match next_page_id {
            Some(next_page_id) => {
                proof {
                    assert(leaf_stored(bufmgr@, all[j + 1]));
                }
                match bufmgr.fetch_page(next_page_id) {
                    Ok(buffer) => {
                        self.buffer = buffer;
                        self.slot_id = 0;
                        self.leaf = Ghost(j + 1);
                        Ok(())
                    },
                    Err(e) => Err(Error::Buffer(e)),
                }
            },
            None => Ok(()),
        }
    }

    /// Returns the record under the cursor and moves the cursor one record
    /// on; returns `None`, and leaves the cursor where it is, behind the
    /// last record.  The pool does not change.
    pub fn next(&mut self, bufmgr: &mut BufferPoolManager) -> (r: Result<
        Option<(Vec<u8>, Vec<u8>)>,
        Error,
    >)
        requires
            old(self).wf(old(bufmgr)),
        ensures
            final(bufmgr)@ == old(bufmgr)@,
            final(bufmgr).wf(),
            final(bufmgr).spec_pool_size() == old(bufmgr).spec_pool_size(),
            final(self).tree() == old(self).tree(),
            final(self).wf(final(bufmgr)),
            r is Ok,
            record_of(r->Ok_0) == yielded(
                old(self).tree().pairs(old(bufmgr)),
                old(self).position(old(bufmgr)),
            ),
            final(self).position(final(bufmgr)) == stepped(
                old(self).tree().pairs(old(bufmgr)),
                old(self).position(old(bufmgr)),
            ),
    {
        let ghost t = self.tree().tree(bufmgr);
        let ghost all = t.leaves();
        proof {
            lemma_leaves_stored(t, bufmgr@);
            lemma_wf_leaves(t, Seq::<u8>::empty(), None, t.height());
        }
        proof {
            self.lemma_position(bufmgr);
        }
        let value = self.get(Ghost(all), Ghost(bufmgr@));
        match self.advance(bufmgr, Ghost(all)) {
            Ok(_) => Ok(value),
            Err(e) => Err(e),
        }
    }
}

} // verus!
