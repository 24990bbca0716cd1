//! Laws of the tree: what holds of every tree that a pool holds, stated
//! over the pages of the pool and over the records that search, iteration
//! and insertion speak of.

use vstd::prelude::*;
use crate::btree::branch;
use crate::btree::leaf;
use crate::btree::model::{
    leaf_stored, lemma_flat_index, lemma_leaves_stored, lemma_wf_leaves, lemma_wf_pairs, link_ok, lower, position_for, position_of, stepped, stepped_by, upper, yielded, Tree,
};
use crate::btree::node::{body_of, is_branch, is_leaf};
use crate::btree::records::{keys_of, Record};
use crate::btree::BTree;
use crate::buffer::BufferPoolManager;
use crate::disk::PageId;
use crate::order::{
    key_le, key_lt, lemma_lower_bound, lemma_lower_bound_unique, lemma_sorted_insert, sorted,
};

verus! {

proof fn lemma_page_node(t: Tree, store: Seq<Seq<u8>>, p: PageId)
    requires
        t.stored_in(store),
        t.has_page(p),
    ensures
        p.0 < store.len(),
        (is_leaf(store[p.0 as int]) && leaf::wf(body_of(store[p.0 as int]))) || (is_branch(
            store[p.0 as int],
        ) && branch::wf(body_of(store[p.0 as int]))),
    decreases t,
{
    match t {
        Tree::Leaf { .. } => {},
        Tree::Branch { id, children, .. } => {
            if id != p {
                let i = choose|i: int| 0 <= i < children.len() && (#[trigger] children[i]).has_page(p);
                lemma_page_node(children[i], store, p);
            }
        },
    }
}

/// Every page of the tree is a leaf whose keys ascend strictly from slot
/// to slot, or a branch whose separators do.
pub proof fn lemma_nodes_sorted(tree: &BTree, bufmgr: &BufferPoolManager, p: PageId)
    requires
        tree.wf(bufmgr),
        tree.tree(bufmgr).has_page(p),
    ensures
        p.0 < bufmgr@.len(),
        is_leaf(bufmgr@[p.0 as int]) || is_branch(bufmgr@[p.0 as int]),
        is_leaf(bufmgr@[p.0 as int]) ==> sorted(
            keys_of(leaf::pairs_of(body_of(bufmgr@[p.0 as int]))),
        ),
        is_branch(bufmgr@[p.0 as int]) ==> sorted(
            branch::separators_of(body_of(bufmgr@[p.0 as int])),
        ),
{
    lemma_page_node(tree.tree(bufmgr), bufmgr@, p);
}

/// The records of the tree are in strictly ascending key order: no key
/// occurs twice.
pub proof fn lemma_pairs_sorted(tree: &BTree, bufmgr: &BufferPoolManager)
    requires
        tree.wf(bufmgr),
    ensures
        sorted(keys_of(tree.pairs(bufmgr))),
{
    let t = tree.tree(bufmgr);
    lemma_wf_pairs(t, Seq::<u8>::empty(), None, t.height());
}

/// A search for the key of any record of the tree lands on that record,
/// so the `next` that follows returns it.
pub proof fn lemma_search_finds(tree: &BTree, bufmgr: &BufferPoolManager, i: int)
    requires
        tree.wf(bufmgr),
        0 <= i < tree.pairs(bufmgr).len(),
    ensures
        position_for(Some(tree.pairs(bufmgr)[i].0), tree.pairs(bufmgr)) == i,
        yielded(tree.pairs(bufmgr), i) == Some(tree.pairs(bufmgr)[i]),
{
    lemma_pairs_sorted(tree, bufmgr);
    let pairs = tree.pairs(bufmgr);
    lemma_at_own_position(pairs, i);
}

/// In sorted records, every record stands at the position of its key.
pub proof fn lemma_at_own_position(pairs: Seq<Record>, i: int)
    requires
        sorted(keys_of(pairs)),
        0 <= i < pairs.len(),
    ensures
        position_of(pairs, pairs[i].0) == i,
{
    let keys = keys_of(pairs);
    assert(keys[i] == pairs[i].0);
    assert forall|j: int| i <= j < keys.len() implies key_le(keys[i], #[trigger] keys[j]) by {}
    lemma_lower_bound_unique(keys, keys[i], i);
}

/// After a record was added, a search for its key lands on it, and every
/// record that was there before is still found under its key.
pub proof fn lemma_inserted_is_found(pairs: Seq<Record>, key: Seq<u8>, value: Seq<u8>, i: int)
    requires
        sorted(keys_of(pairs)),
        !keys_of(pairs).contains(key),
        0 <= i < pairs.len(),
    ensures
        ({
            let at = position_of(pairs, key);
            let out = pairs.insert(at, (key, value));
            &&& sorted(keys_of(out))
            &&& out.len() == pairs.len() + 1
            &&& yielded(out, position_for(Some(key), out)) == Some((key, value))
            &&& yielded(out, position_for(Some(pairs[i].0), out)) == Some(pairs[i])
        }),
{
    let at = position_of(pairs, key);
    let out = pairs.insert(at, (key, value));
    lemma_lower_bound(keys_of(pairs), key);
    lemma_sorted_insert(keys_of(pairs), key);
    assert(keys_of(out) =~= keys_of(pairs).insert(at, key));
    lemma_at_own_position(out, at);
    let moved = if i < at {
        i
    } else {
        i + 1
    };
    assert(out[moved] == pairs[i]);
    lemma_at_own_position(out, moved);
}

/// A cursor that starts at the first record and is stepped `n` times is
/// on record `n`: a full scan returns every record once, in ascending key
/// order, and nothing from then on.
pub proof fn lemma_full_scan(pairs: Seq<Record>, n: nat)
    ensures
        stepped_by(pairs, 0, n) == (if n <= pairs.len() {
            n as int
        } else {
            pairs.len() as int
        }),
        yielded(pairs, stepped_by(pairs, 0, n)) == (if n < pairs.len() {
            Some(pairs[n as int])
        } else {
            None
        }),
    decreases n,
{
    if n > 0 {
        lemma_full_scan(pairs, (n - 1) as nat);
    }
}

/// A leaf that points to a next leaf is followed by that leaf in key
/// order: the next leaf points back to it, and every key of the next leaf
/// is greater than every key of this one.
pub proof fn lemma_leaf_chain(tree: &BTree, bufmgr: &BufferPoolManager, j: int)
    requires
        tree.wf(bufmgr),
        0 <= j < tree.tree(bufmgr).leaves().len(),
        leaf::next_of(body_of(bufmgr@[tree.tree(bufmgr).leaves()[j].0.0 as int])) is Some,
    ensures
        ({
            let all = tree.tree(bufmgr).leaves();
            &&& j + 1 < all.len()
            &&& leaf_stored(bufmgr@, all[j])
            &&& leaf_stored(bufmgr@, all[j + 1])
            &&& leaf::next_of(body_of(bufmgr@[all[j].0.0 as int])) == Some(all[j + 1].0)
            &&& leaf::prev_of(body_of(bufmgr@[all[j + 1].0.0 as int])) == Some(all[j].0)
            &&& all[j].1.len() > 0
            &&& all[j + 1].1.len() > 0
            &&& key_lt(all[j].1.last().0, all[j + 1].1[0].0)
        }),
{
    let t = tree.tree(bufmgr);
    let all = t.leaves();
    let lo = Seq::<u8>::empty();
    lemma_leaves_stored(t, bufmgr@);
    lemma_wf_leaves(t, lo, None, t.height());
    lemma_wf_pairs(t, lo, None, t.height());
    assert(link_ok(bufmgr@, all, j));
    assert(link_ok(bufmgr@, all, j + 1));
    assert(all[j].1.len() > 0);
    assert(all[j + 1].1.len() > 0);
    let last = all[j].1.len() - 1;
    lemma_flat_index(all, j, last);
    lemma_flat_index(all, j + 1, 0);
    let pairs = t.pairs();
    let a = crate::btree::model::prefix_len(all, j) + last;
    assert(keys_of(pairs)[a] == pairs[a].0);
    assert(keys_of(pairs)[a + 1] == pairs[a + 1].0);
}

/// A node of a consistent tree is itself consistent, for some bounds.
pub proof fn lemma_node_bounds(t: Tree, lo: Seq<u8>, hi: Option<Seq<u8>>, h: nat, node: Tree) -> (r:
    (Seq<u8>, Option<Seq<u8>>, nat))
    requires
        t.wf(lo, hi, h),
        t.has_node(node),
    ensures
        node.wf(r.0, r.1, r.2),
    decreases t,
{
    if t == node {
        (lo, hi, h)
    } else {
        let keys = t->Branch_keys;
        let children = t->Branch_children;
        let i = choose|i: int| 0 <= i < children.len() && (#[trigger] children[i]).has_node(node);
        lemma_node_bounds(
            children[i],
            lower(keys, lo, i),
            upper(keys, hi, i),
            (h - 1) as nat,
            node,
        )
    }
}

/// A node of a stored tree is itself stored.
pub proof fn lemma_node_stored(t: Tree, store: Seq<Seq<u8>>, node: Tree)
    requires
        t.stored_in(store),
        t.has_node(node),
    ensures
        node.stored_in(store),
    decreases t,
{
    if t != node {
        let children = t->Branch_children;
        let i = choose|i: int| 0 <= i < children.len() && (#[trigger] children[i]).has_node(node);
        lemma_node_stored(children[i], store, node);
    }
}

/// In every branch of the tree, every key below child `i` is less than
/// separator `i`, where there is one, and not less than separator
/// `i - 1`, where there is one.
pub proof fn lemma_branch_routing(
    tree: &BTree,
    bufmgr: &BufferPoolManager,
    node: Tree,
    i: int,
    q: int,
)
    requires
        tree.wf(bufmgr),
        tree.tree(bufmgr).has_node(node),
        node is Branch,
        0 <= i < node->Branch_children.len(),
        0 <= q < node->Branch_children[i].pairs().len(),
    ensures
        node.stored_in(bufmgr@),
        node->Branch_children.len() == node->Branch_keys.len() + 1,
        i < node->Branch_keys.len() ==> key_lt(
            node->Branch_children[i].pairs()[q].0,
            node->Branch_keys[i],
        ),
        i > 0 ==> key_le(node->Branch_keys[i - 1], node->Branch_children[i].pairs()[q].0),
{
    let t = tree.tree(bufmgr);
    let bounds = lemma_node_bounds(t, Seq::<u8>::empty(), None, t.height(), node);
    lemma_node_stored(t, bufmgr@, node);
    let keys = node->Branch_keys;
    let children = node->Branch_children;
    lemma_wf_pairs(
        children[i],
        lower(keys, bounds.0, i),
        upper(keys, bounds.1, i),
        (bounds.2 - 1) as nat,
    );
}

} // verus!
