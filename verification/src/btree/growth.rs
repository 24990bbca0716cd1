//! How a tree changes when a record is added: what takes the place of a
//! subtree, which pages change, and how the leaves are linked afterwards.

use vstd::prelude::*;
use crate::btree::branch;
use crate::btree::leaf;
use crate::btree::model::{
    below, children_ok, disjoint, flat, in_range, leaf_not_empty, leaves_between, lemma_children_insert, lemma_children_split, lemma_children_update, lemma_flat_concat, lemma_flat_one, lemma_leaves_one, lemma_leaves_shift, lemma_leaves_split, lemma_leaves_stored, lemma_pages_exist, lemma_stored_frame, lower, position_of, separator_fits, storable, upper, LeafEntry, Tree,
};
use crate::btree::node::{body_of, is_branch, is_leaf};
use crate::btree::records::{keys_of, Record};
use crate::disk::{PageId, PAGE_SIZE};
use crate::order::{
    key_lt, lemma_key_le_lt, lemma_lower_bound, lemma_sorted_insert, lemma_sorted_insert_at, sorted,
};

verus! {

/// What takes the place of a subtree after a record was added below it.
pub struct Growth {
    /// The tree in the page of the old subtree.
    pub left: Tree,
    /// When the top node was split: the separator and the new tree to the
    /// right of it.
    pub right: Option<(Seq<u8>, Tree)>,
    /// Index, among the leaves of the old subtree, of the leaf that the
    /// record went to.
    pub leaf: int,
    /// What that leaf became: itself, or itself and a new leaf after it.
    pub entries: Seq<LeafEntry>,
}

impl Growth {
    /// The leaves after the change, left to right.
    pub open spec fn leaves(self) -> Seq<LeafEntry> {
        match self.right {
            None => self.left.leaves(),
            Some(sr) => self.left.leaves() + sr.1.leaves(),
        }
    }

    /// Page `p` holds a node after the change.
    pub open spec fn has_page(self, p: PageId) -> bool {
        self.left.has_page(p) || (self.right is Some && (self.right->0).1.has_page(p))
    }
}

/// `g` is consistent where `t` was: it keeps the page and the bounds of
/// `t`, and every page it adds is numbered from `fresh` on.
#[verifier::opaque]
pub open spec fn shaped(
    g: Growth,
    t: Tree,
    lo: Seq<u8>,
    hi: Option<Seq<u8>>,
    h: nat,
    fresh: int,
) -> bool {
    &&& g.left.id() == t.id()
    &&& leaf_not_empty(g.left)
    &&& match g.right {
        None => g.left.wf(lo, hi, h),
        Some(sr) => {
            &&& g.left.wf(lo, Some(sr.0), h)
            &&& sr.1.wf(sr.0, hi, h)
            &&& leaf_not_empty(sr.1)
            &&& disjoint(g.left, sr.1)
            &&& key_lt(lo, sr.0)
            &&& below(sr.0, hi)
            &&& separator_fits(sr.0)
            &&& sr.1.id().0 >= fresh
        },
    }
    &&& forall|p: PageId| #[trigger] g.has_page(p) ==> t.has_page(p) || p.0 >= fresh
}

/// `g` is stored in `s1`, which differs from `s0` only in the pages of
/// `t` and in at most `h + 1` pages added at the end.
#[verifier::opaque]
pub open spec fn kept(g: Growth, s0: Seq<Seq<u8>>, s1: Seq<Seq<u8>>, t: Tree, h: nat) -> bool {
    &&& s0.len() <= s1.len() <= s0.len() + h + 1
    &&& g.left.stored_in(s1)
    &&& g.right matches Some(sr) ==> sr.1.stored_in(s1)
    &&& forall|p: PageId|
        p.0 < s0.len() && !(#[trigger] t.has_page(p)) ==> s1[p.0 as int] == s0[p.0 as int]
}

/// The leaves `now` are the leaves `all` with leaf `j` replaced by
/// `entries`, which hold its records and the new one.  In the store only
/// that leaf changed among the old leaves; it keeps its link to the left,
/// and where a new leaf follows it the two are linked to each other and
/// the new leaf points on to the old right neighbour.
#[verifier::opaque]
pub open spec fn relinked(
    now: Seq<LeafEntry>,
    entries: Seq<LeafEntry>,
    j: int,
    s0: Seq<Seq<u8>>,
    s1: Seq<Seq<u8>>,
    all: Seq<LeafEntry>,
    key: Seq<u8>,
    value: Seq<u8>,
) -> bool {
    &&& 0 <= j < all.len()
    &&& now == all.subrange(0, j) + entries + all.subrange(j + 1, all.len() as int)
    &&& flat(entries) == all[j].1.insert(position_of(all[j].1, key), (key, value))
    &&& 1 <= entries.len() <= 2
    &&& entries[0].0 == all[j].0
    &&& all[j].0.0 < s0.len()
    &&& forall|p: PageId|
        p.0 < s0.len() && p != all[j].0 && is_leaf(s0[p.0 as int]) ==> #[trigger] s1[p.0 as int]
            == s0[p.0 as int]
    &&& leaf::prev_of(body_of(s1[all[j].0.0 as int])) == leaf::prev_of(
        body_of(s0[all[j].0.0 as int]),
    )
    &&& entries.len() == 1 ==> leaf::next_of(body_of(s1[all[j].0.0 as int])) == leaf::next_of(
        body_of(s0[all[j].0.0 as int]),
    )
    &&& entries.len() == 2 ==> {
        &&& s0.len() <= entries[1].0.0 < s1.len()
        &&& entries[0].1.len() > 0
        &&& entries[1].1.len() > 0
        &&& leaf::next_of(body_of(s1[all[j].0.0 as int])) == Some(entries[1].0)
        &&& leaf::prev_of(body_of(s1[entries[1].0.0 as int])) == Some(all[j].0)
        &&& leaf::next_of(body_of(s1[entries[1].0.0 as int])) == leaf::next_of(
            body_of(s0[all[j].0.0 as int]),
        )
    }
}

/// Adding the record `(key, value)` below `t`, stored in `s0`, gave `g`,
/// stored in `s1`.
pub open spec fn grown(
    g: Growth,
    s0: Seq<Seq<u8>>,
    s1: Seq<Seq<u8>>,
    t: Tree,
    lo: Seq<u8>,
    hi: Option<Seq<u8>>,
    h: nat,
    key: Seq<u8>,
    value: Seq<u8>,
) -> bool {
    &&& shaped(g, t, lo, hi, h, s0.len() as int)
    &&& kept(g, s0, s1, t, h)
    &&& relinked(g.leaves(), g.entries, g.leaf, s0, s1, t.leaves(), key, value)
}

/// A leaf that took the record without splitting.
pub open spec fn leaf_fit(id: PageId, pairs: Seq<Record>) -> Growth {
    Growth { left: Tree::Leaf { id, pairs }, right: None, leaf: 0, entries: seq![(id, pairs)] }
}

/// A leaf that was split into itself and a new leaf.
pub open spec fn leaf_split(
    id: PageId,
    low: Seq<Record>,
    new_id: PageId,
    high: Seq<Record>,
) -> Growth {
    Growth {
        left: Tree::Leaf { id, pairs: low },
        right: Some((high[0].0, Tree::Leaf { id: new_id, pairs: high })),
        leaf: 0,
        entries: seq![(id, low), (new_id, high)],
    }
}

/// The records of a consistent leaf with one more storable record put in
/// at its place are sorted, inside the bounds and storable.
proof fn lemma_leaf_records(
    pairs: Seq<Record>,
    lo: Seq<u8>,
    hi: Option<Seq<u8>>,
    key: Seq<u8>,
    value: Seq<u8>,
    id: PageId,
)
    requires
        (Tree::Leaf { id, pairs }).wf(lo, hi, 0),
        in_range(key, lo, hi),
        storable(key, value),
        !keys_of(pairs).contains(key),
    ensures
        ({
            let out = pairs.insert(position_of(pairs, key), (key, value));
            &&& sorted(keys_of(out))
            &&& out.len() == pairs.len() + 1
            &&& forall|i: int|
                0 <= i < out.len() ==> in_range((#[trigger] out[i]).0, lo, hi) && storable(
                    out[i].0,
                    out[i].1,
                )
        }),
{
    let at = position_of(pairs, key);
    let out = pairs.insert(at, (key, value));
    lemma_lower_bound(keys_of(pairs), key);
    lemma_sorted_insert(keys_of(pairs), key);
    assert(keys_of(out) =~= keys_of(pairs).insert(at, key));
    assert forall|i: int| 0 <= i < out.len() implies in_range((#[trigger] out[i]).0, lo, hi)
        && storable(out[i].0, out[i].1) by {
        if i < at {
            assert(out[i] == pairs[i]);
        } else if i > at {
            assert(out[i] == pairs[i - 1]);
        }
    }
}

/// A leaf page rewritten with one more record is a growth of the leaf.
pub proof fn lemma_leaf_fit(
    s0: Seq<Seq<u8>>,
    s1: Seq<Seq<u8>>,
    t: Tree,
    lo: Seq<u8>,
    hi: Option<Seq<u8>>,
    key: Seq<u8>,
    value: Seq<u8>,
)
    requires
        t is Leaf,
        t.stored_in(s0),
        t.wf(lo, hi, 0),
        in_range(key, lo, hi),
        storable(key, value),
        !keys_of(t.pairs()).contains(key),
        s1 == s0.update(t.id().0 as int, s1[t.id().0 as int]),
        s1[t.id().0 as int].len() == PAGE_SIZE,
        is_leaf(s1[t.id().0 as int]),
        leaf::wf(body_of(s1[t.id().0 as int])),
        leaf::pairs_of(body_of(s1[t.id().0 as int])) == t.pairs().insert(
            position_of(t.pairs(), key),
            (key, value),
        ),
        leaf::prev_of(body_of(s1[t.id().0 as int])) == leaf::prev_of(
            body_of(s0[t.id().0 as int]),
        ),
        leaf::next_of(body_of(s1[t.id().0 as int])) == leaf::next_of(
            body_of(s0[t.id().0 as int]),
        ),
    ensures
        grown(
            leaf_fit(t.id(), leaf::pairs_of(body_of(s1[t.id().0 as int]))),
            s0,
            s1,
            t,
            lo,
            hi,
            0,
            key,
            value,
        ),
{
    let id = t.id();
    let pairs = t->Leaf_pairs;
    let out = leaf::pairs_of(body_of(s1[id.0 as int]));
    let g = leaf_fit(id, out);
    lemma_flat_one((id, pairs));
    lemma_flat_one((id, out));
    assert(t.leaves() =~= seq![(id, pairs)]);
    lemma_leaf_records(pairs, lo, hi, key, value, id);
    assert(shaped(g, t, lo, hi, 0, s0.len() as int)) by {
        reveal(shaped);
    }
    assert(kept(g, s0, s1, t, 0)) by {
        reveal(kept);
    }
    assert(relinked(g.leaves(), g.entries, g.leaf, s0, s1, t.leaves(), key, value)) by {
        reveal(relinked);
        let all = t.leaves();
        assert(g.leaves() =~= all.subrange(0, 0) + g.entries + all.subrange(1, all.len() as int));
    }
}

/// A leaf page split into itself and a new page is a growth of the leaf.
pub proof fn lemma_leaf_split(
    s0: Seq<Seq<u8>>,
    s1: Seq<Seq<u8>>,
    t: Tree,
    lo: Seq<u8>,
    hi: Option<Seq<u8>>,
    key: Seq<u8>,
    value: Seq<u8>,
    new_id: PageId,
)
    requires
        t is Leaf,
        t.stored_in(s0),
        t.wf(lo, hi, 0),
        in_range(key, lo, hi),
        storable(key, value),
        !keys_of(t.pairs()).contains(key),
        new_id.0 == s0.len(),
        s1.len() == s0.len() + 1,
        forall|p: int| 0 <= p < s0.len() && p != t.id().0 ==> #[trigger] s1[p] == s0[p],
        s1[t.id().0 as int].len() == PAGE_SIZE,
        s1[new_id.0 as int].len() == PAGE_SIZE,
        is_leaf(s1[t.id().0 as int]),
        is_leaf(s1[new_id.0 as int]),
        leaf::wf(body_of(s1[t.id().0 as int])),
        leaf::wf(body_of(s1[new_id.0 as int])),
        leaf::pairs_of(body_of(s1[t.id().0 as int])).len() > 0,
        leaf::pairs_of(body_of(s1[new_id.0 as int])).len() > 0,
        leaf::pairs_of(body_of(s1[t.id().0 as int])) + leaf::pairs_of(
            body_of(s1[new_id.0 as int]),
        ) == t.pairs().insert(position_of(t.pairs(), key), (key, value)),
        leaf::prev_of(body_of(s1[t.id().0 as int])) == leaf::prev_of(
            body_of(s0[t.id().0 as int]),
        ),
        leaf::next_of(body_of(s1[t.id().0 as int])) == Some(new_id),
        leaf::prev_of(body_of(s1[new_id.0 as int])) == Some(t.id()),
        leaf::next_of(body_of(s1[new_id.0 as int])) == leaf::next_of(
            body_of(s0[t.id().0 as int]),
        ),
    ensures
        grown(
            leaf_split(
                t.id(),
                leaf::pairs_of(body_of(s1[t.id().0 as int])),
                new_id,
                leaf::pairs_of(body_of(s1[new_id.0 as int])),
            ),
            s0,
            s1,
            t,
            lo,
            hi,
            0,
            key,
            value,
        ),
{
    let id = t.id();
    let pairs = t->Leaf_pairs;
    let low = leaf::pairs_of(body_of(s1[id.0 as int]));
    let high = leaf::pairs_of(body_of(s1[new_id.0 as int]));
    let g = leaf_split(id, low, new_id, high);
    let sep = high[0].0;
    let out = pairs.insert(position_of(pairs, key), (key, value));
    lemma_flat_one((id, pairs));
    lemma_flat_one((id, low));
    lemma_flat_one((new_id, high));
    lemma_flat_concat(seq![(id, low)], seq![(new_id, high)]);
    assert(seq![(id, low)] + seq![(new_id, high)] =~= g.entries);
    assert(t.leaves() =~= seq![(id, pairs)]);
    lemma_leaf_records(pairs, lo, hi, key, value, id);
    assert forall|i: int| 0 <= i < low.len() implies in_range(
        (#[trigger] low[i]).0,
        lo,
        Some(sep),
    ) && storable(low[i].0, low[i].1) by {
        assert(low[i] == out[i]);
        assert(high[0] == out[low.len() as int]);
        assert(keys_of(out)[i] == out[i].0);
        assert(keys_of(out)[low.len() as int] == out[low.len() as int].0);
    }
    assert forall|i: int| 0 <= i < high.len() implies in_range((#[trigger] high[i]).0, sep, hi)
        && storable(high[i].0, high[i].1) by {
        assert(high[i] == out[low.len() + i]);
        assert(high[0] == out[low.len() as int]);
        assert(keys_of(out)[low.len() + i] == out[low.len() + i].0);
        assert(keys_of(out)[low.len() as int] == out[low.len() as int].0);
    }
    assert(in_range(low[0].0, lo, Some(sep)));
    lemma_key_le_lt(lo, low[0].0, sep);
    assert(in_range(high[0].0, sep, hi));
    assert(shaped(g, t, lo, hi, 0, s0.len() as int)) by {
        reveal(shaped);
    }
    assert(kept(g, s0, s1, t, 0)) by {
        reveal(kept);
    }
    assert(relinked(g.leaves(), g.entries, g.leaf, s0, s1, t.leaves(), key, value)) by {
        reveal(relinked);
        let all = t.leaves();
        assert(g.leaves() =~= all.subrange(0, 0) + g.entries + all.subrange(1, all.len() as int));
    }
}

/// The pages of the children, left to right.
pub open spec fn ids_of(children: Seq<Tree>) -> Seq<PageId> {
    Seq::new(children.len(), |x: int| children[x].id())
}

/// The separators of a branch after child `i` became `gc`.
pub open spec fn widened_keys(keys: Seq<Seq<u8>>, i: int, gc: Growth) -> Seq<Seq<u8>> {
    match gc.right {
        None => keys,
        Some(sr) => keys.insert(i, sr.0),
    }
}

/// The children of a branch after child `i` became `gc`.
pub open spec fn widened_children(children: Seq<Tree>, i: int, gc: Growth) -> Seq<Tree> {
    match gc.right {
        None => children.update(i, gc.left),
        Some(sr) => children.update(i, gc.left).insert(i + 1, sr.1),
    }
}

/// Every page of `c` is a page of `t` or numbered from `fresh` on, and
/// lies below `limit`.
pub open spec fn pages_within(c: Tree, t: Tree, fresh: int, limit: int) -> bool {
    forall|p: PageId| #[trigger] c.has_page(p) ==> (t.has_page(p) || p.0 >= fresh) && p.0 < limit
}

/// A branch whose child `i` grew without splitting.
pub open spec fn branch_same(t: Tree, i: int, gc: Growth) -> Growth {
    Growth {
        left: Tree::Branch {
            id: t.id(),
            keys: t->Branch_keys,
            children: widened_children(t->Branch_children, i, gc),
        },
        right: None,
        leaf: leaves_between(t->Branch_children, 0, i).len() + gc.leaf,
        entries: gc.entries,
    }
}

/// A branch that took in the separator and the new child that came up
/// from its child `i`.
pub open spec fn branch_absorbed(t: Tree, i: int, gc: Growth) -> Growth {
    Growth {
        left: Tree::Branch {
            id: t.id(),
            keys: widened_keys(t->Branch_keys, i, gc),
            children: widened_children(t->Branch_children, i, gc),
        },
        right: None,
        leaf: leaves_between(t->Branch_children, 0, i).len() + gc.leaf,
        entries: gc.entries,
    }
}

/// A branch that was split at separator `m` while taking in what came up
/// from its child `i`.
pub open spec fn branch_split(t: Tree, i: int, gc: Growth, m: int, new_id: PageId) -> Growth {
    let keys = widened_keys(t->Branch_keys, i, gc);
    let children = widened_children(t->Branch_children, i, gc);
    Growth {
        left: Tree::Branch {
            id: t.id(),
            keys: keys.subrange(0, m),
            children: children.subrange(0, m + 1),
        },
        right: Some(
            (
                keys[m],
                Tree::Branch {
                    id: new_id,
                    keys: keys.subrange(m + 1, keys.len() as int),
                    children: children.subrange(m + 1, children.len() as int),
                },
            ),
        ),
        leaf: leaves_between(t->Branch_children, 0, i).len() + gc.leaf,
        entries: gc.entries,
    }
}

/// The children of a consistent branch share no pages.
pub open spec fn apart(children: Seq<Tree>) -> bool {
    forall|a: int, b: int|
        0 <= a < b < children.len() ==> disjoint(#[trigger] children[a], #[trigger] children[b])
}

/// `gc` shares no page with the children other than child `i`.
pub open spec fn clear_of(gc: Growth, children: Seq<Tree>, i: int) -> bool {
    forall|x: int|
        0 <= x < children.len() && x != i ==> disjoint(gc.left, #[trigger] children[x]) && (
        gc.right is Some ==> disjoint((gc.right->0).1, children[x]))
}

/// Every page of `gc` is a page of `child` or numbered from `fresh` on,
/// and lies below `limit`.
pub open spec fn growth_within(gc: Growth, child: Tree, fresh: int, limit: int) -> bool {
    forall|p: PageId|
        #[trigger] gc.has_page(p) ==> (child.has_page(p) || p.0 >= fresh) && p.0 < limit
}

/// Where the pages of a grown subtree lie.
proof fn lemma_growth_pages(
    gc: Growth,
    child: Tree,
    lo: Seq<u8>,
    hi: Option<Seq<u8>>,
    h: nat,
    s0: Seq<Seq<u8>>,
    sc: Seq<Seq<u8>>,
)
    requires
        shaped(gc, child, lo, hi, h, s0.len() as int),
        kept(gc, s0, sc, child, h),
        sc.len() <= usize::MAX,
    ensures
        growth_within(gc, child, s0.len() as int, sc.len() as int),
        gc.left.stored_in(sc),
        gc.right is Some ==> (gc.right->0).1.stored_in(sc),
        gc.left.id() == child.id(),
        s0.len() <= sc.len() <= s0.len() + h + 1,
{
    reveal(shaped);
    reveal(kept);
    assert forall|p: PageId| #[trigger] gc.has_page(p) implies (child.has_page(p) || p.0
        >= s0.len()) && p.0 < sc.len() by {
        if gc.left.has_page(p) {
            lemma_pages_exist(gc.left, sc, p);
        } else {
            lemma_pages_exist((gc.right->0).1, sc, p);
        }
    }
}

/// A grown child shares no page with its siblings, and the siblings stay
/// stored.
proof fn lemma_siblings(
    t: Tree,
    s0: Seq<Seq<u8>>,
    sc: Seq<Seq<u8>>,
    i: int,
    gc: Growth,
    hc: nat,
)
    requires
        t is Branch,
        t.stored_in(s0),
        apart(t->Branch_children),
        0 <= i < t->Branch_children.len(),
        s0.len() <= sc.len() <= usize::MAX,
        growth_within(gc, t->Branch_children[i], s0.len() as int, sc.len() as int),
        kept(gc, s0, sc, t->Branch_children[i], hc),
    ensures
        clear_of(gc, t->Branch_children, i),
        forall|x: int|
            0 <= x < t->Branch_children.len() && x != i ==> (#[trigger] t->Branch_children[x]).stored_in(
                sc,
            ) && pages_within(t->Branch_children[x], t, s0.len() as int, sc.len() as int),
        pages_within(gc.left, t, s0.len() as int, sc.len() as int),
        gc.right is Some ==> pages_within((gc.right->0).1, t, s0.len() as int, sc.len() as int),
{
    reveal(kept);
    let children = t->Branch_children;
    let child = children[i];
    assert forall|x: int| 0 <= x < children.len() && x != i implies disjoint(
        gc.left,
        #[trigger] children[x],
    ) && (gc.right is Some ==> disjoint((gc.right->0).1, children[x])) && children[x].stored_in(sc)
        && pages_within(children[x], t, s0.len() as int, sc.len() as int) by {
        let other = children[x];
        assert(other.stored_in(s0));
        if x < i {
            assert(disjoint(children[x], children[i]));
        } else {
            assert(disjoint(children[i], children[x]));
        }
        assert forall|p: PageId| #[trigger] other.has_page(p) implies !gc.has_page(p) && sc[p.0 as int]
            == s0[p.0 as int] && p.0 < s0.len() && t.has_page(p) by {
            lemma_pages_exist(other, s0, p);
            assert(!child.has_page(p));
        }
        lemma_stored_frame(other, s0, sc);
        assert forall|p: PageId|
            !(#[trigger] gc.left.has_page(p) && #[trigger] other.has_page(p)) by {
            if other.has_page(p) {
                assert(!gc.has_page(p));
            }
        }
        if gc.right is Some {
            let gr = (gc.right->0).1;
            assert forall|p: PageId| !(#[trigger] gr.has_page(p) && #[trigger] other.has_page(p)) by {
                if other.has_page(p) {
                    assert(!gc.has_page(p));
                }
            }
        }
    }
    assert forall|p: PageId| #[trigger] gc.left.has_page(p) implies (t.has_page(p) || p.0
        >= s0.len()) && p.0 < sc.len() by {
        assert(gc.has_page(p));
    }
    if gc.right is Some {
        let gr = (gc.right->0).1;
        assert forall|p: PageId| #[trigger] gr.has_page(p) implies (t.has_page(p) || p.0
            >= s0.len()) && p.0 < sc.len() by {
            assert(gc.has_page(p));
        }
    }
}

/// The separators and children as they will be are in order.
proof fn lemma_widened_ok(
    keys: Seq<Seq<u8>>,
    children: Seq<Tree>,
    lo: Seq<u8>,
    hi: Option<Seq<u8>>,
    h: nat,
    i: int,
    gc: Growth,
    fresh: int,
)
    requires
        children_ok(keys, children, lo, hi, h),
        0 <= i < children.len(),
        shaped(gc, children[i], lower(keys, lo, i), upper(keys, hi, i), (h - 1) as nat, fresh),
        clear_of(gc, children, i),
    ensures
        children_ok(widened_keys(keys, i, gc), widened_children(children, i, gc), lo, hi, h),
        gc.right matches Some(sr) ==> sorted(keys.insert(i, sr.0)) && separator_fits(sr.0)
            && sr.1.id().0 >= fresh,
{
    reveal(shaped);
    match gc.right {
        None => {
            lemma_children_update(keys, children, lo, hi, h, i, gc.left);
        },
        Some(sr) => {
            lemma_children_insert(keys, children, lo, hi, h, i, sr.0, gc.left, sr.1);
            lemma_sorted_insert_at(keys, i, sr.0);
        },
    }
}

/// The children as they will be are stored and lie within the branch or
/// in fresh pages.
proof fn lemma_widened_stored(
    t: Tree,
    s0: Seq<Seq<u8>>,
    sc: Seq<Seq<u8>>,
    i: int,
    gc: Growth,
)
    requires
        t is Branch,
        t.id().0 < s0.len(),
        0 <= i < t->Branch_children.len(),
        forall|x: int|
            0 <= x < t->Branch_children.len() ==> !(#[trigger] t->Branch_children[x]).has_page(
                t.id(),
            ),
        forall|x: int|
            0 <= x < t->Branch_children.len() && x != i ==> (#[trigger] t->Branch_children[x]).stored_in(
                sc,
            ) && pages_within(t->Branch_children[x], t, s0.len() as int, sc.len() as int),
        growth_within(gc, t->Branch_children[i], s0.len() as int, sc.len() as int),
        pages_within(gc.left, t, s0.len() as int, sc.len() as int),
        gc.right is Some ==> pages_within((gc.right->0).1, t, s0.len() as int, sc.len() as int),
        gc.left.stored_in(sc),
        gc.right is Some ==> (gc.right->0).1.stored_in(sc),
        gc.left.id() == t->Branch_children[i].id(),
    ensures
        forall|x: int|
            0 <= x < widened_children(t->Branch_children, i, gc).len() ==> (#[trigger] widened_children(
                t->Branch_children,
                i,
                gc,
            )[x]).stored_in(sc) && !widened_children(t->Branch_children, i, gc)[x].has_page(t.id())
                && pages_within(
                widened_children(t->Branch_children, i, gc)[x],
                t,
                s0.len() as int,
                sc.len() as int,
            ),
        ids_of(widened_children(t->Branch_children, i, gc)) == (match gc.right {
            None => ids_of(t->Branch_children),
            Some(sr) => ids_of(t->Branch_children).insert(i + 1, sr.1.id()),
        }),
{
    let children = t->Branch_children;
    let c = widened_children(children, i, gc);
    let child = children[i];
    assert(!child.has_page(t.id()));
    assert(!gc.has_page(t.id()));
    match gc.right {
        None => {
            assert forall|x: int| 0 <= x < c.len() implies (#[trigger] c[x]).stored_in(sc)
                && !c[x].has_page(t.id()) && pages_within(
                c[x],
                t,
                s0.len() as int,
                sc.len() as int,
            ) by {
                if x != i {
                    assert(c[x] == children[x]);
                } else {
                    assert(c[x] == gc.left);
                    assert(!gc.left.has_page(t.id()));
                }
            }
            assert(ids_of(c) =~= ids_of(children));
        },
        Some(sr) => {
            let gr = sr.1;
            assert forall|x: int| 0 <= x < c.len() implies (#[trigger] c[x]).stored_in(sc)
                && !c[x].has_page(t.id()) && pages_within(
                c[x],
                t,
                s0.len() as int,
                sc.len() as int,
            ) && ids_of(c)[x] == ids_of(children).insert(i + 1, gr.id())[x] by {
                if x < i {
                    assert(c[x] == children[x]);
                } else if x > i + 1 {
                    assert(c[x] == children[x - 1]);
                } else if x == i {
                    assert(c[x] == gc.left);
                    assert(!gc.left.has_page(t.id()));
                } else {
                    assert(c[x] == gr);
                    assert(!gr.has_page(t.id()));
                }
            }
            assert(ids_of(c) =~= ids_of(children).insert(i + 1, gr.id()));
        },
    }
}

/// The leaves of the children as they will be are the leaves of the
/// branch with the grown leaf replaced.
proof fn lemma_widened_leaves(
    children: Seq<Tree>,
    i: int,
    gc: Growth,
    s0: Seq<Seq<u8>>,
    sc: Seq<Seq<u8>>,
    key: Seq<u8>,
    value: Seq<u8>,
)
    requires
        0 <= i < children.len(),
        relinked(gc.leaves(), gc.entries, gc.leaf, s0, sc, children[i].leaves(), key, value),
    ensures
        relinked(
            leaves_between(
                widened_children(children, i, gc),
                0,
                widened_children(children, i, gc).len() as int,
            ),
            gc.entries,
            leaves_between(children, 0, i).len() + gc.leaf,
            s0,
            sc,
            leaves_between(children, 0, children.len() as int),
            key,
            value,
        ),
{
    let n = children.len() as int;
    let c = widened_children(children, i, gc);
    reveal(relinked);
    match gc.right {
        None => {
            lemma_leaves_split(c, 0, i, n);
            lemma_leaves_split(c, i, i + 1, n);
            lemma_leaves_one(c, i);
            lemma_leaves_shift(c, 0, children, 0, i);
            lemma_leaves_shift(c, i + 1, children, i + 1, n - i - 1);
        },
        Some(sr) => {
            lemma_leaves_split(c, 0, i, n + 1);
            lemma_leaves_split(c, i, i + 1, n + 1);
            lemma_leaves_split(c, i + 1, i + 2, n + 1);
            lemma_leaves_one(c, i);
            lemma_leaves_one(c, i + 1);
            lemma_leaves_shift(c, 0, children, 0, i);
            lemma_leaves_shift(c, i + 2, children, i + 1, n - i - 1);
        },
    }
    let before = leaves_between(children, 0, i);
    let after = leaves_between(children, i + 1, n);
    let inside = children[i].leaves();
    let all = leaves_between(children, 0, n);
    let now = leaves_between(c, 0, c.len() as int);
    lemma_leaves_split(children, 0, i, n);
    lemma_leaves_split(children, i, i + 1, n);
    lemma_leaves_one(children, i);
    assert(all == before + (inside + after));
    assert(now == before + (gc.leaves() + after));
    lemma_replace_inside(before, inside, after, gc.leaves(), gc.entries, gc.leaf);
}

/// Replacing leaf `j` of the middle part replaces leaf `before.len() + j`
/// of the whole.
proof fn lemma_replace_inside(
    before: Seq<LeafEntry>,
    inside: Seq<LeafEntry>,
    after: Seq<LeafEntry>,
    grown_inside: Seq<LeafEntry>,
    entries: Seq<LeafEntry>,
    j: int,
)
    requires
        0 <= j < inside.len(),
        grown_inside == inside.subrange(0, j) + entries + inside.subrange(
            j + 1,
            inside.len() as int,
        ),
    ensures
        ({
            let all = before + (inside + after);
            let k = before.len() + j;
            &&& all[k] == inside[j]
            &&& 0 <= k < all.len()
            &&& before + (grown_inside + after) == all.subrange(0, k) + entries + all.subrange(
                k + 1,
                all.len() as int,
            )
        }),
{
    let all = before + (inside + after);
    let k = before.len() + j;
    assert(all.subrange(0, k) =~= before + inside.subrange(0, j));
    assert(all.subrange(k + 1, all.len() as int) =~= inside.subrange(j + 1, inside.len() as int)
        + after);
    assert(before + (grown_inside + after) =~= all.subrange(0, k) + entries + all.subrange(
        k + 1,
        all.len() as int,
    ));
}

/// After child `i` of a stored branch grew, the separators and children
/// as they will be are in order, stored, and have the leaves of the
/// branch with the grown leaf replaced.
pub proof fn lemma_widened(
    s0: Seq<Seq<u8>>,
    sc: Seq<Seq<u8>>,
    t: Tree,
    lo: Seq<u8>,
    hi: Option<Seq<u8>>,
    h: nat,
    i: int,
    gc: Growth,
    key: Seq<u8>,
    value: Seq<u8>,
)
    requires
        t is Branch,
        t.stored_in(s0),
        t.wf(lo, hi, h),
        0 <= i < t->Branch_children.len(),
        sc.len() <= usize::MAX,
        grown(
            gc,
            s0,
            sc,
            t->Branch_children[i],
            lower(t->Branch_keys, lo, i),
            upper(t->Branch_keys, hi, i),
            (h - 1) as nat,
            key,
            value,
        ),
    ensures
        ({
            let k = widened_keys(t->Branch_keys, i, gc);
            let c = widened_children(t->Branch_children, i, gc);
            &&& children_ok(k, c, lo, hi, h)
            &&& forall|x: int|
                0 <= x < c.len() ==> (#[trigger] c[x]).stored_in(sc) && !c[x].has_page(t.id())
                    && pages_within(c[x], t, s0.len() as int, sc.len() as int)
            &&& relinked(
                leaves_between(c, 0, c.len() as int),
                gc.entries,
                leaves_between(t->Branch_children, 0, i).len() + gc.leaf,
                s0,
                sc,
                t.leaves(),
                key,
                value,
            )
            &&& sc[t.id().0 as int] == s0[t.id().0 as int]
            &&& s0.len() <= sc.len() <= s0.len() + h
            &&& forall|p: PageId|
                p.0 < s0.len() && !(#[trigger] t.has_page(p)) ==> sc[p.0 as int] == s0[p.0 as int]
            &&& ids_of(c) == (match gc.right {
                None => ids_of(t->Branch_children),
                Some(sr) => ids_of(t->Branch_children).insert(i + 1, sr.1.id()),
            })
            &&& branch::children_of(body_of(s0[t.id().0 as int])) == ids_of(t->Branch_children)
            &&& is_branch(s0[t.id().0 as int])
            &&& gc.right matches Some(sr) ==> sorted(t->Branch_keys.insert(i, sr.0))
                && separator_fits(sr.0) && sr.1.id().0 >= s0.len()
        }),
{
    let keys = t->Branch_keys;
    let children = t->Branch_children;
    let child = children[i];
    let hc = (h - 1) as nat;
    assert(t.has_page(t.id()));
    assert(child.stored_in(s0));
    lemma_growth_pages(gc, child, lower(keys, lo, i), upper(keys, hi, i), hc, s0, sc);
    assert(apart(children));
    lemma_siblings(t, s0, sc, i, gc, hc);
    lemma_widened_ok(keys, children, lo, hi, h, i, gc, s0.len() as int);
    lemma_widened_stored(t, s0, sc, i, gc);
    lemma_widened_leaves(children, i, gc, s0, sc, key, value);
    assert(ids_of(children) =~= branch::children_of(body_of(s0[t.id().0 as int])));
    assert(!child.has_page(t.id()));
    assert forall|p: PageId| p.0 < s0.len() && !(#[trigger] t.has_page(p)) implies sc[p.0 as int]
        == s0[p.0 as int] by {
        reveal(kept);
        assert(!child.has_page(p));
    }
    assert(sc[t.id().0 as int] == s0[t.id().0 as int]) by {
        reveal(kept);
    }
}

/// A branch page that holds separators and children in order, over
/// stored children, is a stored consistent branch.
pub proof fn lemma_branch_packed(
    s1: Seq<Seq<u8>>,
    id: PageId,
    keys: Seq<Seq<u8>>,
    children: Seq<Tree>,
    lo: Seq<u8>,
    hi: Option<Seq<u8>>,
    h: nat,
)
    requires
        children_ok(keys, children, lo, hi, h),
        id.0 < s1.len(),
        s1[id.0 as int].len() == PAGE_SIZE,
        is_branch(s1[id.0 as int]),
        branch::wf(body_of(s1[id.0 as int])),
        branch::separators_of(body_of(s1[id.0 as int])) == keys,
        branch::children_of(body_of(s1[id.0 as int])) == ids_of(children),
        forall|x: int|
            0 <= x < children.len() ==> (#[trigger] children[x]).stored_in(s1)
                && !children[x].has_page(id),
    ensures
        (Tree::Branch { id, keys, children }).wf(lo, hi, h),
        (Tree::Branch { id, keys, children }).stored_in(s1),
{
    let t = Tree::Branch { id, keys, children };
    assert forall|x: int| 0 <= x < children.len() implies branch::children_of(
        body_of(s1[id.0 as int]),
    )[x] == (#[trigger] children[x]).id() by {
        assert(ids_of(children)[x] == children[x].id());
    }
}

/// A branch whose child grew without splitting has grown.
pub proof fn lemma_branch_same(
    s0: Seq<Seq<u8>>,
    sc: Seq<Seq<u8>>,
    t: Tree,
    lo: Seq<u8>,
    hi: Option<Seq<u8>>,
    h: nat,
    i: int,
    gc: Growth,
    key: Seq<u8>,
    value: Seq<u8>,
)
    requires
        t is Branch,
        t.stored_in(s0),
        t.wf(lo, hi, h),
        0 <= i < t->Branch_children.len(),
        sc.len() <= usize::MAX,
        grown(
            gc,
            s0,
            sc,
            t->Branch_children[i],
            lower(t->Branch_keys, lo, i),
            upper(t->Branch_keys, hi, i),
            (h - 1) as nat,
            key,
            value,
        ),
        gc.right is None,
    ensures
        grown(branch_same(t, i, gc), s0, sc, t, lo, hi, h, key, value),
{
    lemma_widened(s0, sc, t, lo, hi, h, i, gc, key, value);
    let g = branch_same(t, i, gc);
    let c = widened_children(t->Branch_children, i, gc);
    lemma_branch_packed(sc, t.id(), t->Branch_keys, c, lo, hi, h);
    lemma_packed_pages(g.left, t, s0.len() as int, sc.len() as int);
    assert(shaped(g, t, lo, hi, h, s0.len() as int)) by {
        reveal(shaped);
    }
    assert(kept(g, s0, sc, t, h)) by {
        reveal(kept);
    }
}

/// The pages of a branch built over children whose pages lie within `t`
/// or are fresh lie within `t` or are fresh, when its own page does.
pub proof fn lemma_packed_pages(b: Tree, t: Tree, fresh: int, limit: int)
    requires
        b is Branch,
        t.has_page(b.id()) || b.id().0 >= fresh,
        forall|x: int|
            0 <= x < b->Branch_children.len() ==> pages_within(
                #[trigger] b->Branch_children[x],
                t,
                fresh,
                limit,
            ),
    ensures
        forall|p: PageId| #[trigger] b.has_page(p) ==> t.has_page(p) || p.0 >= fresh,
{
    let children = b->Branch_children;
    assert forall|p: PageId| #[trigger] b.has_page(p) implies t.has_page(p) || p.0 >= fresh by {
        if p != b.id() {
            let x = choose|x: int| 0 <= x < children.len() && (#[trigger] children[x]).has_page(p);
            assert(pages_within(children[x], t, fresh, limit));
        }
    }
}

/// A branch rewritten with the separator and child that came up from
/// below has grown.
pub proof fn lemma_branch_absorbed(
    s0: Seq<Seq<u8>>,
    sc: Seq<Seq<u8>>,
    s1: Seq<Seq<u8>>,
    t: Tree,
    lo: Seq<u8>,
    hi: Option<Seq<u8>>,
    h: nat,
    i: int,
    gc: Growth,
    key: Seq<u8>,
    value: Seq<u8>,
)
    requires
        t is Branch,
        t.stored_in(s0),
        t.wf(lo, hi, h),
        0 <= i < t->Branch_children.len(),
        sc.len() <= usize::MAX,
        grown(
            gc,
            s0,
            sc,
            t->Branch_children[i],
            lower(t->Branch_keys, lo, i),
            upper(t->Branch_keys, hi, i),
            (h - 1) as nat,
            key,
            value,
        ),
        gc.right is Some,
        s1 == sc.update(t.id().0 as int, s1[t.id().0 as int]),
        s1[t.id().0 as int].len() == PAGE_SIZE,
        is_branch(s1[t.id().0 as int]),
        branch::wf(body_of(s1[t.id().0 as int])),
        branch::separators_of(body_of(s1[t.id().0 as int])) == t->Branch_keys.insert(
            i,
            (gc.right->0).0,
        ),
        branch::children_of(body_of(s1[t.id().0 as int])) == ids_of(t->Branch_children).insert(
            i + 1,
            (gc.right->0).1.id(),
        ),
    ensures
        grown(branch_absorbed(t, i, gc), s0, s1, t, lo, hi, h, key, value),
{
    lemma_widened(s0, sc, t, lo, hi, h, i, gc, key, value);
    let g = branch_absorbed(t, i, gc);
    let k = widened_keys(t->Branch_keys, i, gc);
    let c = widened_children(t->Branch_children, i, gc);
    let id = t.id();
    assert(t.has_page(id));
    assert(is_branch(s0[id.0 as int]));
    assert forall|x: int| 0 <= x < c.len() implies (#[trigger] c[x]).stored_in(s1) by {
        assert(pages_within(c[x], t, s0.len() as int, sc.len() as int));
        assert forall|p: PageId| #[trigger] c[x].has_page(p) implies s1[p.0 as int] == sc[p.0 as int] by {
        }
        lemma_stored_frame(c[x], sc, s1);
    }
    lemma_branch_packed(s1, id, k, c, lo, hi, h);
    lemma_packed_pages(g.left, t, s0.len() as int, sc.len() as int);
    assert(shaped(g, t, lo, hi, h, s0.len() as int)) by {
        reveal(shaped);
    }
    assert(kept(g, s0, s1, t, h)) by {
        reveal(kept);
    }
    lemma_leaves_stored(t, s0);
    lemma_relinked_frame(g.leaves(), g.entries, g.leaf, s0, sc, s1, t.leaves(), key, value, id);
}

/// A branch split into itself and a new page while taking in what came up
/// from below has grown.
pub proof fn lemma_branch_split(
    s0: Seq<Seq<u8>>,
    sc: Seq<Seq<u8>>,
    s1: Seq<Seq<u8>>,
    t: Tree,
    lo: Seq<u8>,
    hi: Option<Seq<u8>>,
    h: nat,
    i: int,
    gc: Growth,
    key: Seq<u8>,
    value: Seq<u8>,
    new_id: PageId,
    promoted: Seq<u8>,
)
    requires
        t is Branch,
        t.stored_in(s0),
        t.wf(lo, hi, h),
        0 <= i < t->Branch_children.len(),
        s1.len() <= usize::MAX,
        grown(
            gc,
            s0,
            sc,
            t->Branch_children[i],
            lower(t->Branch_keys, lo, i),
            upper(t->Branch_keys, hi, i),
            (h - 1) as nat,
            key,
            value,
        ),
        gc.right is Some,
        new_id.0 == sc.len(),
        s1.len() == sc.len() + 1,
        forall|p: int| 0 <= p < sc.len() && p != t.id().0 ==> #[trigger] s1[p] == sc[p],
        s1[t.id().0 as int].len() == PAGE_SIZE,
        s1[new_id.0 as int].len() == PAGE_SIZE,
        is_branch(s1[t.id().0 as int]),
        is_branch(s1[new_id.0 as int]),
        branch::wf(body_of(s1[t.id().0 as int])),
        branch::wf(body_of(s1[new_id.0 as int])),
        branch::separators_of(body_of(s1[t.id().0 as int])) + seq![promoted]
            + branch::separators_of(body_of(s1[new_id.0 as int])) == t->Branch_keys.insert(
            i,
            (gc.right->0).0,
        ),
        branch::children_of(body_of(s1[t.id().0 as int])) + branch::children_of(
            body_of(s1[new_id.0 as int]),
        ) == ids_of(t->Branch_children).insert(i + 1, (gc.right->0).1.id()),
    ensures
        grown(
            branch_split(
                t,
                i,
                gc,
                branch::separators_of(body_of(s1[t.id().0 as int])).len() as int,
                new_id,
            ),
            s0,
            s1,
            t,
            lo,
            hi,
            h,
            key,
            value,
        ),
        promoted == widened_keys(t->Branch_keys, i, gc)[branch::separators_of(
            body_of(s1[t.id().0 as int]),
        ).len() as int],
{
    lemma_widened(s0, sc, t, lo, hi, h, i, gc, key, value);
    let id = t.id();
    let page_l = body_of(s1[id.0 as int]);
    let page_r = body_of(s1[new_id.0 as int]);
    let m = branch::separators_of(page_l).len() as int;
    let g = branch_split(t, i, gc, m, new_id);
    let k = widened_keys(t->Branch_keys, i, gc);
    let c = widened_children(t->Branch_children, i, gc);
    let k1 = k.subrange(0, m);
    let k2 = k.subrange(m + 1, k.len() as int);
    let c1 = c.subrange(0, m + 1);
    let c2 = c.subrange(m + 1, c.len() as int);
    assert(t.has_page(id));
    lemma_split_parts(
        k,
        ids_of(c),
        branch::separators_of(page_l),
        promoted,
        branch::separators_of(page_r),
        branch::children_of(page_l),
        branch::children_of(page_r),
    );
    assert(ids_of(c1) =~= ids_of(c).subrange(0, m + 1));
    assert(ids_of(c2) =~= ids_of(c).subrange(m + 1, c.len() as int));
    lemma_children_split(k, c, lo, hi, h, m);
    lemma_split_stored(c, sc, s1, t, id, new_id, m, s0.len() as int);
    lemma_branch_packed(s1, id, k1, c1, lo, Some(k[m]), h);
    lemma_branch_packed(s1, new_id, k2, c2, k[m], hi, h);
    let left = g.left;
    let right = (g.right->0).1;
    lemma_packed_pages(left, t, s0.len() as int, sc.len() as int);
    lemma_packed_pages(right, t, s0.len() as int, sc.len() as int);
    assert forall|x: int, p: PageId| 0 <= x < c.len() && (#[trigger] c[x]).has_page(p) implies #[trigger] below_limit(
        p,
        sc.len() as int,
    ) by {
        assert(pages_within(c[x], t, s0.len() as int, sc.len() as int));
    }
    lemma_split_disjoint(c, id, new_id, m, sc.len() as int, k1, k2);
    assert(shaped(g, t, lo, hi, h, s0.len() as int)) by {
        reveal(shaped);
    }
    assert(kept(g, s0, s1, t, h)) by {
        reveal(kept);
    }
    lemma_leaves_split(c, 0, m + 1, c.len() as int);
    lemma_leaves_shift(c1, 0, c, 0, m + 1);
    lemma_leaves_shift(c2, 0, c, m + 1, c.len() - m - 1);
    assert(g.leaves() == leaves_between(c, 0, c.len() as int));
    lemma_leaves_stored(t, s0);
    lemma_relinked_frame(g.leaves(), g.entries, g.leaf, s0, sc, s1, t.leaves(), key, value, id);
}

/// The two pages of a split branch hold the two sides of the separators
/// and children as they were to be.
proof fn lemma_split_parts(
    k: Seq<Seq<u8>>,
    ids: Seq<PageId>,
    low: Seq<Seq<u8>>,
    promoted: Seq<u8>,
    high: Seq<Seq<u8>>,
    low_ids: Seq<PageId>,
    high_ids: Seq<PageId>,
)
    requires
        low + seq![promoted] + high == k,
        low_ids + high_ids == ids,
        low_ids.len() == low.len() as int + 1,
    ensures
        k[low.len() as int] == promoted,
        k.subrange(0, low.len() as int) == low,
        k.subrange(low.len() as int + 1, k.len() as int) == high,
        ids.subrange(0, low.len() as int + 1) == low_ids,
        ids.subrange(low.len() as int + 1, ids.len() as int) == high_ids,
        0 <= low.len() < k.len(),
{
    assert(k.subrange(0, low.len() as int) =~= low);
    assert(k.subrange(low.len() as int + 1, k.len() as int) =~= high);
    assert(ids.subrange(0, low.len() as int + 1) =~= low_ids);
    assert(ids.subrange(low.len() as int + 1, ids.len() as int) =~= high_ids);
}

/// The children on both sides of a split stay stored when only the page
/// of the branch changes and a page is added.
proof fn lemma_split_stored(
    c: Seq<Tree>,
    sc: Seq<Seq<u8>>,
    s1: Seq<Seq<u8>>,
    t: Tree,
    id: PageId,
    new_id: PageId,
    m: int,
    fresh: int,
)
    requires
        0 <= m < c.len(),
        new_id.0 == sc.len(),
        s1.len() == sc.len() + 1,
        forall|p: int| 0 <= p < sc.len() && p != id.0 ==> #[trigger] s1[p] == sc[p],
        forall|x: int|
            0 <= x < c.len() ==> (#[trigger] c[x]).stored_in(sc) && !c[x].has_page(id)
                && pages_within(c[x], t, fresh, sc.len() as int),
    ensures
        forall|x: int|
            0 <= x < m + 1 ==> (#[trigger] c.subrange(0, m + 1)[x]).stored_in(s1) && !c.subrange(
                0,
                m + 1,
            )[x].has_page(id) && pages_within(c.subrange(0, m + 1)[x], t, fresh, sc.len() as int),
        forall|x: int|
            0 <= x < c.len() - m - 1 ==> (#[trigger] c.subrange(m + 1, c.len() as int)[x]).stored_in(
                s1,
            ) && !c.subrange(m + 1, c.len() as int)[x].has_page(new_id) && pages_within(
                c.subrange(m + 1, c.len() as int)[x],
                t,
                fresh,
                sc.len() as int,
            ),
{
    assert forall|x: int| 0 <= x < c.len() implies (#[trigger] c[x]).stored_in(s1) && !c[x].has_page(
        new_id,
    ) by {
        assert(pages_within(c[x], t, fresh, sc.len() as int));
        assert forall|p: PageId| #[trigger] c[x].has_page(p) implies s1[p.0 as int] == sc[p.0 as int] by {
        }
        lemma_stored_frame(c[x], sc, s1);
    }
    let c1 = c.subrange(0, m + 1);
    let c2 = c.subrange(m + 1, c.len() as int);
    assert forall|x: int| 0 <= x < m + 1 implies (#[trigger] c1[x]).stored_in(s1) && !c1[x].has_page(
        id,
    ) && pages_within(c1[x], t, fresh, sc.len() as int) by {
        assert(c1[x] == c[x]);
    }
    assert forall|x: int| 0 <= x < c.len() - m - 1 implies (#[trigger] c2[x]).stored_in(s1)
        && !c2[x].has_page(new_id) && pages_within(c2[x], t, fresh, sc.len() as int) by {
        assert(c2[x] == c[x + m + 1]);
    }
}

/// The two sides of a split branch share no page.
proof fn lemma_split_disjoint(
    c: Seq<Tree>,
    id: PageId,
    new_id: PageId,
    m: int,
    limit: int,
    k1: Seq<Seq<u8>>,
    k2: Seq<Seq<u8>>,
)
    requires
        0 <= m < c.len(),
        id != new_id,
        new_id.0 >= limit,
        forall|x: int| 0 <= x < c.len() ==> !(#[trigger] c[x]).has_page(id),
        forall|x: int, p: PageId|
            0 <= x < c.len() && (#[trigger] c[x]).has_page(p) ==> #[trigger] below_limit(p, limit),
        forall|a: int, b: int|
            0 <= a <= m < b < c.len() ==> disjoint(#[trigger] c[a], #[trigger] c[b]),
    ensures
        disjoint(
            Tree::Branch { id, keys: k1, children: c.subrange(0, m + 1) },
            Tree::Branch { id: new_id, keys: k2, children: c.subrange(m + 1, c.len() as int) },
        ),
{
    let c1 = c.subrange(0, m + 1);
    let c2 = c.subrange(m + 1, c.len() as int);
    {
        let left = Tree::Branch { id, keys: k1, children: c1 };
        let right = Tree::Branch { id: new_id, keys: k2, children: c2 };
        assert forall|p: PageId| !(#[trigger] left.has_page(p) && #[trigger] right.has_page(p)) by {
            if left.has_page(p) && right.has_page(p) {
                if p == id {
                    let y = choose|y: int| 0 <= y < c2.len() && (#[trigger] c2[y]).has_page(p);
                    assert(c2[y] == c[y + m + 1]);
                } else if p == new_id {
                    let x = choose|x: int| 0 <= x < c1.len() && (#[trigger] c1[x]).has_page(p);
                    assert(c1[x] == c[x]);
                    assert(below_limit(p, limit));
                } else {
                    let x = choose|x: int| 0 <= x < c1.len() && (#[trigger] c1[x]).has_page(p);
                    let y = choose|y: int| 0 <= y < c2.len() && (#[trigger] c2[y]).has_page(p);
                    assert(c1[x] == c[x]);
                    assert(c2[y] == c[y + m + 1]);
                    assert(disjoint(c[x], c[y + m + 1]));
                }
            }
        }
    }
}

/// Page `p` lies below `limit`.
pub open spec fn below_limit(p: PageId, limit: int) -> bool {
    p.0 < limit
}

/// The links between the leaves stay as they are when afterwards only a
/// page that was a branch is rewritten and pages are added.
proof fn lemma_relinked_frame(
    now: Seq<LeafEntry>,
    entries: Seq<LeafEntry>,
    j: int,
    s0: Seq<Seq<u8>>,
    sc: Seq<Seq<u8>>,
    s1: Seq<Seq<u8>>,
    all: Seq<LeafEntry>,
    key: Seq<u8>,
    value: Seq<u8>,
    id: PageId,
)
    requires
        relinked(now, entries, j, s0, sc, all, key, value),
        forall|q: int| 0 <= q < all.len() ==> crate::btree::model::leaf_stored(s0, #[trigger] all[q]),
        id.0 < s0.len(),
        is_branch(s0[id.0 as int]),
        s0.len() <= sc.len() <= s1.len(),
        forall|p: int| 0 <= p < sc.len() && p != id.0 ==> #[trigger] s1[p] == sc[p],
    ensures
        relinked(now, entries, j, s0, s1, all, key, value),
{
    reveal(relinked);
    let a = all[j].0;
    assert(crate::btree::model::leaf_stored(s0, all[j]));
    assert(a != id);
}

} // verus!
