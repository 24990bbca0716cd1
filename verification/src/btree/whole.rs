//! The tree as a whole: how the result of adding a record below the root
//! becomes the new tree, with its leaves linked and its records in order.

use vstd::prelude::*;
use crate::btree::branch;
use crate::btree::growth::{
    grown, ids_of, kept, lemma_branch_packed, relinked, shaped, Growth,
};
use crate::btree::leaf;
use crate::btree::meta;
use crate::btree::model::{
    children_ok, disjoint, flat, leaf_stored, leaves_between, lemma_flat_concat, lemma_flat_one, lemma_leaves_one, lemma_leaves_split, lemma_leaves_stored, lemma_pages_exist, lemma_stored_frame, leaf_not_empty, separator_fits, below, lemma_wf_leaves, link_ok, linked, lower, position_of, upper, LeafEntry, Tree,
};
use crate::btree::node::{body_of, is_branch, is_leaf};
use crate::btree::records::{keys_of, Record};
use crate::disk::{PageId, PAGE_SIZE};
use crate::order::{
    key_le, key_lt, lemma_lower_bound_unique, sorted,
};

verus! {

/// No two of the leaves `all` live in the same page.
pub open spec fn distinct_ids(all: Seq<LeafEntry>) -> bool {
    forall|a: int, b: int|
        0 <= a < b < all.len() ==> (#[trigger] all[a]).0 != (#[trigger] all[b]).0
}

/// Page `p` belongs to one of the first `b` children.
pub open spec fn owned_below(children: Seq<Tree>, b: int, p: PageId) -> bool {
    exists|x: int| 0 <= x < b && x < children.len() && (#[trigger] children[x]).has_page(p)
}

/// The leaves of a stored consistent tree live in different pages.
pub proof fn lemma_leaf_ids_distinct(
    t: Tree,
    store: Seq<Seq<u8>>,
    lo: Seq<u8>,
    hi: Option<Seq<u8>>,
    h: nat,
)
    requires
        t.stored_in(store),
        t.wf(lo, hi, h),
    ensures
        distinct_ids(t.leaves()),
    decreases h, 1nat, 0int,
{
    match t {
        Tree::Leaf { .. } => {},
        Tree::Branch { children, .. } => {
            lemma_children_leaf_ids(t, store, lo, hi, h, children.len() as int);
        },
    }
}

/// The leaves under the first `b` children of a stored consistent branch
/// live in different pages, each in a page of one of those children.
pub proof fn lemma_children_leaf_ids(
    t: Tree,
    store: Seq<Seq<u8>>,
    lo: Seq<u8>,
    hi: Option<Seq<u8>>,
    h: nat,
    b: int,
)
    requires
        t is Branch,
        t.stored_in(store),
        t.wf(lo, hi, h),
        0 <= b <= t->Branch_children.len(),
    ensures
        distinct_ids(leaves_between(t->Branch_children, 0, b)),
        forall|q: int|
            0 <= q < leaves_between(t->Branch_children, 0, b).len() ==> owned_below(
                t->Branch_children,
                b,
                (#[trigger] leaves_between(t->Branch_children, 0, b)[q]).0,
            ),
    decreases h, 0nat, b,
{
    let keys = t->Branch_keys;
    let children = t->Branch_children;
    if b > 0 {
        let child = children[b - 1];
        lemma_children_leaf_ids(t, store, lo, hi, h, b - 1);
        lemma_leaf_ids_distinct(
            child,
            store,
            lower(keys, lo, b - 1),
            upper(keys, hi, b - 1),
            (h - 1) as nat,
        );
        lemma_leaves_stored(child, store);
        let front = leaves_between(children, 0, b - 1);
        let back = child.leaves();
        let all = leaves_between(children, 0, b);
        assert(all == front + back);
        assert forall|q: int| 0 <= q < all.len() implies owned_below(
            children,
            b,
            (#[trigger] all[q]).0,
        ) by {
            if q < front.len() {
                assert(all[q] == front[q]);
                assert(owned_below(children, b - 1, front[q].0));
            } else {
                assert(all[q] == back[q - front.len()]);
                assert(children[b - 1].has_page(all[q].0));
            }
        }
        assert forall|x: int, y: int| 0 <= x < y < all.len() implies (#[trigger] all[x]).0 != (
        #[trigger] all[y]).0 by {
            if y < front.len() {
                assert(all[x] == front[x] && all[y] == front[y]);
            } else if x >= front.len() {
                assert(all[x] == back[x - front.len()] && all[y] == back[y - front.len()]);
            } else {
                assert(all[x] == front[x]);
                assert(all[y] == back[y - front.len()]);
                assert(owned_below(children, b - 1, front[x].0));
                let c = choose|c: int|
                    0 <= c < b - 1 && c < children.len() && (#[trigger] children[c]).has_page(
                        front[x].0,
                    );
                assert(disjoint(children[c], children[b - 1]));
                assert(child.has_page(all[y].0));
            }
        }
    }
}

/// Page `b` holds the same node as page `a`: the same bytes, or a leaf
/// with the same records.
pub open spec fn same_node(a: Seq<u8>, b: Seq<u8>) -> bool {
    a == b || (a.len() == b.len() && is_leaf(a) && is_leaf(b) && leaf::wf(body_of(b))
        && leaf::pairs_of(body_of(b)) == leaf::pairs_of(body_of(a)))
}

/// A tree stays stored when its pages keep holding the same nodes.
pub proof fn lemma_stored_same(t: Tree, s0: Seq<Seq<u8>>, s1: Seq<Seq<u8>>)
    requires
        t.stored_in(s0),
        s0.len() <= s1.len(),
        forall|p: PageId| #[trigger] t.has_page(p) ==> same_node(s0[p.0 as int], s1[p.0 as int]),
    ensures
        t.stored_in(s1),
    decreases t,
{
    assert(t.has_page(t.id()));
    match t {
        Tree::Leaf { .. } => {},
        Tree::Branch { id, children, .. } => {
            assert forall|i: int| 0 <= i < children.len() implies (#[trigger] children[i]).stored_in(
                s1,
            ) by {
                assert forall|p: PageId| #[trigger] children[i].has_page(p) implies same_node(
                    s0[p.0 as int],
                    s1[p.0 as int],
                ) by {
                    assert(t.has_page(p));
                }
                lemma_stored_same(children[i], s0, s1);
            }
        },
    }
}

/// The tree after a record was added below the root: what the root
/// became, or a new root over the two halves of the old one.
pub open spec fn new_tree(g: Growth, root: PageId) -> Tree {
    match g.right {
        None => g.left,
        Some(sr) => Tree::Branch { id: root, keys: seq![sr.0], children: seq![g.left, sr.1] },
    }
}

/// A sorted run into which a key was put stays sorted only if the key
/// went to its lower bound.
pub proof fn lemma_insert_position(pairs: Seq<Record>, at: int, key: Seq<u8>, value: Seq<u8>)
    requires
        0 <= at <= pairs.len(),
        sorted(keys_of(pairs.insert(at, (key, value)))),
    ensures
        sorted(keys_of(pairs)),
        position_of(pairs, key) == at,
{
    let out = pairs.insert(at, (key, value));
    let keys = keys_of(pairs);
    let all = keys_of(out);
    assert forall|a: int, b: int| 0 <= a < b < keys.len() implies key_lt(
        #[trigger] keys[a],
        #[trigger] keys[b],
    ) by {
        let a1 = if a < at { a } else { a + 1 };
        let b1 = if b < at { b } else { b + 1 };
        assert(all[a1] == out[a1].0 && all[b1] == out[b1].0);
        assert(out[a1] == pairs[a] && out[b1] == pairs[b]);
    }
    assert(all[at] == key);
    assert forall|j: int| 0 <= j < at implies key_lt(#[trigger] keys[j], key) by {
        assert(all[j] == out[j].0 && out[j] == pairs[j]);
    }
    assert forall|j: int| at <= j < keys.len() implies key_le(key, #[trigger] keys[j]) by {
        assert(all[j + 1] == out[j + 1].0 && out[j + 1] == pairs[j]);
    }
    lemma_lower_bound_unique(keys, key, at);
}

/// The records of the leaves after leaf `j` took a record are the records
/// before with the record put in at its place.
pub proof fn lemma_grown_pairs(
    now: Seq<LeafEntry>,
    entries: Seq<LeafEntry>,
    j: int,
    s0: Seq<Seq<u8>>,
    s1: Seq<Seq<u8>>,
    all: Seq<LeafEntry>,
    key: Seq<u8>,
    value: Seq<u8>,
)
    requires
        relinked(now, entries, j, s0, s1, all, key, value),
        sorted(keys_of(flat(now))),
    ensures
        flat(now) == flat(all).insert(position_of(flat(all), key), (key, value)),
{
    reveal(relinked);
    let before = all.subrange(0, j);
    let after = all.subrange(j + 1, all.len() as int);
    let at = position_of(all[j].1, key);
    crate::order::lemma_lower_bound_range(keys_of(all[j].1), key);
    lemma_flat_concat(before + entries, after);
    lemma_flat_concat(before, entries);
    assert(all =~= (before + seq![all[j]]) + after);
    lemma_flat_concat(before + seq![all[j]], after);
    lemma_flat_concat(before, seq![all[j]]);
    lemma_flat_one(all[j]);
    let a = flat(before);
    let m = all[j].1;
    let z = flat(after);
    assert(flat(all) == (a + m) + z);
    assert(flat(now) == (a + m.insert(at, (key, value))) + z);
    assert((a + m.insert(at, (key, value))) + z =~= ((a + m) + z).insert(
        a.len() + at,
        (key, value),
    ));
    lemma_insert_position(flat(all), a.len() + at, key, value);
}

/// Leaf `q` of `now` has, in `s3`, the links it has in `s1`, except that
/// the old right neighbour of a leaf that was split points back to the
/// new leaf.
pub open spec fn settled(
    s1: Seq<Seq<u8>>,
    s3: Seq<Seq<u8>>,
    now: Seq<LeafEntry>,
    q: int,
    entries: Seq<LeafEntry>,
    j: int,
    all: Seq<LeafEntry>,
) -> bool {
    &&& leaf::next_of(body_of(s3[now[q].0.0 as int])) == leaf::next_of(
        body_of(s1[now[q].0.0 as int]),
    )
    &&& leaf::prev_of(body_of(s3[now[q].0.0 as int])) == (if entries.len() == 2 && j + 1
        < all.len() && now[q].0 == all[j + 1].0 {
        Some(entries[1].0)
    } else {
        leaf::prev_of(body_of(s1[now[q].0.0 as int]))
    })
}

/// Which leaf stands at each place after leaf `j` was replaced.
proof fn lemma_replaced_index(
    now: Seq<LeafEntry>,
    entries: Seq<LeafEntry>,
    j: int,
    all: Seq<LeafEntry>,
    q: int,
)
    requires
        0 <= j < all.len(),
        now == all.subrange(0, j) + entries + all.subrange(j + 1, all.len() as int),
        0 <= q < now.len(),
    ensures
        now.len() == all.len() - 1 + entries.len(),
        q < j ==> now[q] == all[q],
        j <= q < j + entries.len() ==> now[q] == entries[q - j],
        j + entries.len() <= q ==> now[q] == all[q - entries.len() + 1],
{
}

/// An old leaf other than the one that took the record keeps its page as
/// it was.
proof fn lemma_chain_old(
    now: Seq<LeafEntry>,
    entries: Seq<LeafEntry>,
    j: int,
    s0: Seq<Seq<u8>>,
    s1: Seq<Seq<u8>>,
    all: Seq<LeafEntry>,
    key: Seq<u8>,
    value: Seq<u8>,
    q0: int,
)
    requires
        relinked(now, entries, j, s0, s1, all, key, value),
        distinct_ids(all),
        leaf_stored(s0, all[q0]),
        0 <= q0 < all.len(),
        0 <= j < all.len(),
        q0 != j,
    ensures
        s1[all[q0].0.0 as int] == s0[all[q0].0.0 as int],
        all[q0].0 != all[j].0,
{
    reveal(relinked);
    if q0 < j {
        assert(all[q0].0 != all[j].0);
    } else {
        assert(all[j].0 != all[q0].0);
    }
}

/// What `relinked` says about the links of the leaf that took the record
/// and of the new leaf after it.
proof fn lemma_chain_new(
    now: Seq<LeafEntry>,
    entries: Seq<LeafEntry>,
    j: int,
    s0: Seq<Seq<u8>>,
    s1: Seq<Seq<u8>>,
    all: Seq<LeafEntry>,
    key: Seq<u8>,
    value: Seq<u8>,
)
    requires
        relinked(now, entries, j, s0, s1, all, key, value),
    ensures
        0 <= j < all.len(),
        1 <= entries.len() <= 2,
        now == all.subrange(0, j) + entries + all.subrange(j + 1, all.len() as int),
        entries[0].0 == all[j].0,
        leaf::prev_of(body_of(s1[all[j].0.0 as int])) == leaf::prev_of(
            body_of(s0[all[j].0.0 as int]),
        ),
        entries.len() == 1 ==> leaf::next_of(body_of(s1[all[j].0.0 as int])) == leaf::next_of(
            body_of(s0[all[j].0.0 as int]),
        ),
        entries.len() == 2 ==> leaf::next_of(body_of(s1[all[j].0.0 as int])) == Some(
            entries[1].0,
        ) && leaf::prev_of(body_of(s1[entries[1].0.0 as int])) == Some(all[j].0) && leaf::next_of(
            body_of(s1[entries[1].0.0 as int]),
        ) == leaf::next_of(body_of(s0[all[j].0.0 as int])) && entries[1].0.0 >= s0.len(),
{
    reveal(relinked);
}

/// Leaf `q` of the leaves as they are now is linked to its neighbours.
proof fn lemma_chain_at(
    now: Seq<LeafEntry>,
    entries: Seq<LeafEntry>,
    j: int,
    s0: Seq<Seq<u8>>,
    s1: Seq<Seq<u8>>,
    s3: Seq<Seq<u8>>,
    all: Seq<LeafEntry>,
    key: Seq<u8>,
    value: Seq<u8>,
    q: int,
)
    requires
        relinked(now, entries, j, s0, s1, all, key, value),
        linked(s0, all),
        distinct_ids(all),
        forall|x: int| 0 <= x < all.len() ==> leaf_stored(s0, #[trigger] all[x]),
        0 <= q < now.len(),
        settled(s1, s3, now, q, entries, j, all),
    ensures
        link_ok(s3, now, q),
{
    lemma_chain_new(now, entries, j, s0, s1, all, key, value);
    let e = entries.len() as int;
    lemma_replaced_index(now, entries, j, all, q);
    if q > 0 {
        lemma_replaced_index(now, entries, j, all, q - 1);
    }
    if q + 1 < now.len() {
        lemma_replaced_index(now, entries, j, all, q + 1);
    }
    assert(link_ok(s0, all, j));
    if j + 1 < all.len() {
        assert(leaf_stored(s0, all[j + 1]));
        assert(all[j].0 != all[j + 1].0);
    }
    if q < j {
        lemma_chain_old(now, entries, j, s0, s1, all, key, value, q);
        assert(link_ok(s0, all, q));
        if j + 1 < all.len() {
            assert(all[q].0 != all[j + 1].0);
        }
    } else if q == j {
    } else if q == j + 1 && e == 2 {
        if j + 1 < all.len() {
            assert(all[j + 1].0.0 < s0.len());
        }
    } else {
        let q0 = q - e + 1;
        lemma_chain_old(now, entries, j, s0, s1, all, key, value, q0);
        assert(link_ok(s0, all, q0));
        if q0 != j + 1 {
            assert(all[j + 1].0 != all[q0].0);
        }
    }
}

/// The leaves are linked again once the leaf after a new leaf points back
/// to it.
pub proof fn lemma_chain(
    now: Seq<LeafEntry>,
    entries: Seq<LeafEntry>,
    j: int,
    s0: Seq<Seq<u8>>,
    s1: Seq<Seq<u8>>,
    s3: Seq<Seq<u8>>,
    all: Seq<LeafEntry>,
    key: Seq<u8>,
    value: Seq<u8>,
)
    requires
        relinked(now, entries, j, s0, s1, all, key, value),
        linked(s0, all),
        distinct_ids(all),
        forall|x: int| 0 <= x < all.len() ==> leaf_stored(s0, #[trigger] all[x]),
        forall|q: int| 0 <= q < now.len() ==> #[trigger] settled(s1, s3, now, q, entries, j, all),
    ensures
        linked(s3, now),
{
    assert forall|q: int| 0 <= q < now.len() implies #[trigger] link_ok(s3, now, q) by {
        lemma_chain_at(now, entries, j, s0, s1, s3, all, key, value, q);
    }
}

/// A new root page was added to `s1`, giving `s2`: it holds the
/// separator between the two halves of the old root, and the meta page,
/// the only other page that changed, names it.
pub open spec fn rooted(
    s1: Seq<Seq<u8>>,
    s2: Seq<Seq<u8>>,
    meta_id: PageId,
    new_root: PageId,
    g: Growth,
) -> bool {
    &&& new_root.0 == s1.len()
    &&& s2.len() == s1.len() + 1
    &&& forall|p: int| 0 <= p < s1.len() && p != meta_id.0 ==> #[trigger] s2[p] == s1[p]
    &&& s2[new_root.0 as int].len() == PAGE_SIZE
    &&& is_branch(s2[new_root.0 as int])
    &&& branch::wf(body_of(s2[new_root.0 as int]))
    &&& branch::separators_of(body_of(s2[new_root.0 as int])) == seq![(g.right->0).0]
    &&& branch::children_of(body_of(s2[new_root.0 as int])) == seq![
        g.left.id(),
        (g.right->0).1.id(),
    ]
}

/// The leaf that followed a leaf that was split points back to the new
/// leaf in `s3`; nothing else differs between `s2` and `s3`.
pub open spec fn relink_done(
    s0: Seq<Seq<u8>>,
    s2: Seq<Seq<u8>>,
    s3: Seq<Seq<u8>>,
    g: Growth,
) -> bool {
    let next = leaf::next_of(body_of(s0[g.entries[0].0.0 as int]));
    if g.entries.len() == 2 && next is Some {
        let at = (next->0).0 as int;
        &&& s3.len() == s2.len()
        &&& at < s2.len()
        &&& forall|p: int| 0 <= p < s2.len() && p != at ==> #[trigger] s3[p] == s2[p]
        &&& same_node(s2[at], s3[at])
        &&& s3[at].len() == s2[at].len()
        &&& leaf::next_of(body_of(s3[at])) == leaf::next_of(body_of(s2[at]))
        &&& leaf::prev_of(body_of(s3[at])) == Some(g.entries[1].0)
    } else {
        s3 == s2
    }
}

/// What `grown` says about pages, in a form that needs no unfolding.
pub proof fn lemma_grown_facts(
    g: Growth,
    s0: Seq<Seq<u8>>,
    s1: Seq<Seq<u8>>,
    t: Tree,
    lo: Seq<u8>,
    hi: Option<Seq<u8>>,
    h: nat,
    key: Seq<u8>,
    value: Seq<u8>,
)
    requires
        grown(g, s0, s1, t, lo, hi, h, key, value),
        s1.len() <= usize::MAX,
    ensures
        s0.len() <= s1.len() <= s0.len() + h + 1,
        g.left.id() == t.id(),
        g.left.stored_in(s1),
        g.right is Some ==> (g.right->0).1.stored_in(s1),
        g.right is None ==> g.left.wf(lo, hi, h),
        g.right matches Some(sr) ==> g.left.wf(lo, Some(sr.0), h) && sr.1.wf(sr.0, hi, h)
            && disjoint(g.left, sr.1) && key_lt(lo, sr.0) && below(sr.0, hi) && separator_fits(sr.0)
            && leaf_not_empty(g.left) && leaf_not_empty(sr.1),
        forall|p: PageId|
            #[trigger] g.has_page(p) ==> (t.has_page(p) || p.0 >= s0.len()) && p.0 < s1.len(),
        forall|p: PageId|
            p.0 < s0.len() && !(#[trigger] t.has_page(p)) ==> s1[p.0 as int] == s0[p.0 as int],
        relinked(g.leaves(), g.entries, g.leaf, s0, s1, t.leaves(), key, value),
        0 <= g.leaf < t.leaves().len(),
        1 <= g.entries.len() <= 2,
        g.entries[0].0 == t.leaves()[g.leaf].0,
        g.entries.len() == 2 ==> s0.len() <= g.entries[1].0.0 < s1.len(),
{
    reveal(shaped);
    reveal(kept);
    reveal(relinked);
    assert forall|p: PageId| #[trigger] g.has_page(p) implies (t.has_page(p) || p.0 >= s0.len())
        && p.0 < s1.len() by {
        if g.left.has_page(p) {
            lemma_pages_exist(g.left, s1, p);
        } else {
            lemma_pages_exist((g.right->0).1, s1, p);
        }
    }
}

/// The new tree is consistent, and its leaves are the leaves of what the
/// old root became.
pub proof fn lemma_new_tree_wf(g: Growth, new_root: PageId, s1: Seq<Seq<u8>>, h: nat)
    requires
        g.right is None ==> g.left.wf(Seq::<u8>::empty(), None, h),
        g.right matches Some(sr) ==> g.left.wf(Seq::<u8>::empty(), Some(sr.0), h) && sr.1.wf(
            sr.0,
            None,
            h,
        ) && disjoint(g.left, sr.1) && key_lt(Seq::<u8>::empty(), sr.0) && separator_fits(sr.0)
            && leaf_not_empty(g.left) && leaf_not_empty(sr.1),
        forall|p: PageId| #[trigger] g.has_page(p) ==> p.0 < s1.len(),
        g.right is Some ==> new_root.0 >= s1.len(),
    ensures
        new_tree(g, new_root).wf(Seq::<u8>::empty(), None, new_tree(g, new_root).height()),
        new_tree(g, new_root).leaves() == g.leaves(),
        new_tree(g, new_root).height() == (if g.right is Some {
            h + 1
        } else {
            h
        }),
        g.right matches Some(sr) ==> children_ok(
            seq![sr.0],
            seq![g.left, sr.1],
            Seq::<u8>::empty(),
            None,
            h + 1,
        ),
{
    let lo = Seq::<u8>::empty();
    match g.right {
        None => {
            lemma_wf_leaves(g.left, lo, None, h);
        },
        Some(sr) => {
            let keys = seq![sr.0];
            let children = seq![g.left, sr.1];
            lemma_wf_leaves(g.left, lo, Some(sr.0), h);
            assert forall|i: int| 0 <= i < children.len() implies (#[trigger] children[i]).wf(
                lower(keys, lo, i),
                upper(keys, None, i),
                h,
            ) && leaf_not_empty(children[i]) by {
                if i == 0 {
                    assert(children[0] == g.left);
                } else {
                    assert(children[1] == sr.1);
                }
            }
            assert forall|a: int, b: int| 0 <= a < b < children.len() implies disjoint(
                #[trigger] children[a],
                #[trigger] children[b],
            ) by {
                assert(a == 0 && b == 1);
            }
            assert(children_ok(keys, children, lo, None, h + 1));
            let t1 = new_tree(g, new_root);
            assert forall|i: int| 0 <= i < children.len() implies !(#[trigger] children[i]).has_page(
                new_root,
            ) by {
                if children[i].has_page(new_root) {
                    assert(g.has_page(new_root));
                }
            }
            assert(t1.wf(lo, None, h + 1));
            lemma_wf_leaves(t1, lo, None, h + 1);
            lemma_leaves_split(children, 0, 1, 2);
            lemma_leaves_one(children, 0);
            lemma_leaves_one(children, 1);
        },
    }
}

/// The new tree is stored once the new root, if any, was written and the
/// leaf after a new leaf points back to it.
pub proof fn lemma_new_tree_stored(
    g: Growth,
    new_root: PageId,
    meta_id: PageId,
    t: Tree,
    s0: Seq<Seq<u8>>,
    s1: Seq<Seq<u8>>,
    s2: Seq<Seq<u8>>,
    s3: Seq<Seq<u8>>,
    h: nat,
)
    requires
        meta_id.0 < s0.len() <= s1.len(),
        s2.len() <= usize::MAX,
        !t.has_page(meta_id),
        g.left.stored_in(s1),
        g.right is Some ==> (g.right->0).1.stored_in(s1),
        forall|p: PageId|
            #[trigger] g.has_page(p) ==> (t.has_page(p) || p.0 >= s0.len()) && p.0 < s1.len(),
        g.right is None ==> s2 == s1,
        g.right is Some ==> rooted(s1, s2, meta_id, new_root, g),
        g.right matches Some(sr) ==> children_ok(
            seq![sr.0],
            seq![g.left, sr.1],
            Seq::<u8>::empty(),
            None,
            h + 1,
        ),
        relink_done(s0, s2, s3, g),
    ensures
        new_tree(g, new_root).stored_in(s3),
        !new_tree(g, new_root).has_page(meta_id),
        forall|p: PageId|
            #[trigger] new_tree(g, new_root).has_page(p) ==> g.has_page(p) || (g.right is Some && p
                == new_root),
{
    let t1 = new_tree(g, new_root);
    assert forall|p: PageId| #[trigger] t1.has_page(p) implies g.has_page(p) || (g.right is Some
        && p == new_root) by {
        if g.right is Some && p != new_root {
            let children = seq![g.left, (g.right->0).1];
            let x = choose|x: int| 0 <= x < children.len() && (#[trigger] children[x]).has_page(p);
            if x == 0 {
                assert(children[0] == g.left);
            } else {
                assert(children[1] == (g.right->0).1);
            }
        }
    }
    assert(!g.has_page(meta_id));
    match g.right {
        None => {},
        Some(sr) => {
            let children = seq![g.left, sr.1];
            assert forall|p: PageId| #[trigger] g.left.has_page(p) implies s2[p.0 as int]
                == s1[p.0 as int] by {
                assert(g.has_page(p));
            }
            lemma_stored_frame(g.left, s1, s2);
            assert forall|p: PageId| #[trigger] sr.1.has_page(p) implies s2[p.0 as int]
                == s1[p.0 as int] by {
                assert(g.has_page(p));
            }
            lemma_stored_frame(sr.1, s1, s2);
            assert(ids_of(children) =~= seq![g.left.id(), sr.1.id()]);
            assert forall|x: int| 0 <= x < children.len() implies (#[trigger] children[x]).stored_in(
                s2,
            ) && !children[x].has_page(new_root) by {
                if x == 0 {
                    assert(children[0] == g.left);
                } else {
                    assert(children[1] == sr.1);
                }
                if children[x].has_page(new_root) {
                    assert(g.has_page(new_root));
                }
            }
            lemma_branch_packed(s2, new_root, seq![sr.0], children, Seq::<u8>::empty(), None, h + 1);
        },
    }
    assert(t1.stored_in(s2));
    assert forall|p: PageId| #[trigger] t1.has_page(p) implies same_node(
        s2[p.0 as int],
        s3[p.0 as int],
    ) by {
        lemma_pages_exist(t1, s2, p);
    }
    lemma_stored_same(t1, s2, s3);
}

/// The leaves of the new tree are linked in key order.
pub proof fn lemma_new_tree_linked(
    g: Growth,
    new_root: PageId,
    meta_id: PageId,
    t: Tree,
    s0: Seq<Seq<u8>>,
    s1: Seq<Seq<u8>>,
    s2: Seq<Seq<u8>>,
    s3: Seq<Seq<u8>>,
    h: nat,
    key: Seq<u8>,
    value: Seq<u8>,
)
    requires
        meta_id.0 < s0.len() <= s1.len(),
        s1.len() <= usize::MAX,
        !t.has_page(meta_id),
        t.stored_in(s0),
        t.wf(Seq::<u8>::empty(), None, h),
        linked(s0, t.leaves()),
        g.left.stored_in(s1),
        g.right is Some ==> (g.right->0).1.stored_in(s1),
        forall|p: PageId|
            #[trigger] g.has_page(p) ==> (t.has_page(p) || p.0 >= s0.len()) && p.0 < s1.len(),
        relinked(g.leaves(), g.entries, g.leaf, s0, s1, t.leaves(), key, value),
        0 <= g.leaf < t.leaves().len(),
        g.entries[0].0 == t.leaves()[g.leaf].0,
        g.right is None ==> s2 == s1,
        g.right is Some ==> rooted(s1, s2, meta_id, new_root, g),
        relink_done(s0, s2, s3, g),
    ensures
        linked(s3, g.leaves()),
{
    let all = t.leaves();
    let now = g.leaves();
    let j = g.leaf;
    lemma_leaves_stored(t, s0);
    lemma_leaf_ids_distinct(t, s0, Seq::<u8>::empty(), None, h);
    lemma_leaves_stored(g.left, s1);
    if g.right is Some {
        lemma_leaves_stored((g.right->0).1, s1);
    }
    assert(link_ok(s0, all, j));
    assert forall|q: int| 0 <= q < now.len() implies #[trigger] settled(
        s1,
        s3,
        now,
        q,
        g.entries,
        j,
        all,
    ) by {
        let p = now[q].0;
        assert(g.has_page(p)) by {
            if g.right is Some {
                let l = g.left.leaves();
                if q < l.len() {
                    assert(now[q] == l[q]);
                } else {
                    assert(now[q] == (g.right->0).1.leaves()[q - l.len()]);
                }
            }
        }
        assert(p != meta_id);
        assert(s2[p.0 as int] == s1[p.0 as int]);
    }
    lemma_chain(now, g.entries, j, s0, s1, s3, all, key, value);
}

/// The leaf that followed the leaf that took the record is still the
/// page it was.
pub proof fn lemma_next_leaf_kept(
    g: Growth,
    s0: Seq<Seq<u8>>,
    s1: Seq<Seq<u8>>,
    t: Tree,
    key: Seq<u8>,
    value: Seq<u8>,
)
    requires
        relinked(g.leaves(), g.entries, g.leaf, s0, s1, t.leaves(), key, value),
        0 <= g.leaf,
        g.leaf + 1 < t.leaves().len(),
        t.stored_in(s0),
        t.wf(Seq::<u8>::empty(), None, t.height()),
    ensures
        s1[t.leaves()[g.leaf + 1].0.0 as int] == s0[t.leaves()[g.leaf + 1].0.0 as int],
{
    reveal(relinked);
    lemma_leaves_stored(t, s0);
    lemma_leaf_ids_distinct(t, s0, Seq::<u8>::empty(), None, t.height());
    let all = t.leaves();
    assert(leaf_stored(s0, all[g.leaf + 1]));
    assert(all[g.leaf].0 != all[g.leaf + 1].0);
}

} // verus!
