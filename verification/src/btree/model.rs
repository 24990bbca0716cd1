//! What a tree of pages means: its shape, the pages it occupies, and the
//! sorted sequence of records it holds.

use vstd::prelude::*;
use crate::btree::branch;
use crate::btree::leaf;
use crate::btree::node::{body_of, is_branch, is_leaf};
use crate::btree::pair::pair_size;
use crate::btree::records::{keys_of, Record};
use crate::disk::{PageId, INVALID_PAGE_ID, PAGE_SIZE};
use crate::order::{
    child_index_of, key_le, key_lt, lemma_key_le_transitive, lemma_key_lt_le, lemma_key_lt_transitive, lemma_lower_bound, lemma_lower_bound_unique, lemma_search_result, lemma_sorted_insert_at, lower_bound, search_result, sorted,
};

verus! {

/// The largest encoded record a leaf page accepts.
pub const LEAF_MAX_PAIR_SIZE: usize = 2028;

/// The largest encoded entry a branch page accepts.
pub const BRANCH_MAX_PAIR_SIZE: usize = 2032;

/// A tree of pages: each node with the page it lives in and what that
/// page holds.
pub enum Tree {
    Leaf { id: PageId, pairs: Seq<Record> },
    Branch { id: PageId, keys: Seq<Seq<u8>>, children: Seq<Tree> },
}

/// A leaf as it appears in a left-to-right walk: its page and records.
pub type LeafEntry = (PageId, Seq<Record>);

/// `lo <= key`, and `key < hi` where there is an upper bound.
pub open spec fn in_range(key: Seq<u8>, lo: Seq<u8>, hi: Option<Seq<u8>>) -> bool {
    key_le(lo, key) && (hi matches Some(h) ==> key_lt(key, h))
}

/// `a < hi` where there is an upper bound.
pub open spec fn below(a: Seq<u8>, hi: Option<Seq<u8>>) -> bool {
    hi matches Some(h) ==> key_lt(a, h)
}

/// The lower bound of child `i` of a branch with separators `keys` and
/// lower bound `lo`.
pub open spec fn lower(keys: Seq<Seq<u8>>, lo: Seq<u8>, i: int) -> Seq<u8> {
    if i <= 0 {
        lo
    } else {
        keys[i - 1]
    }
}

/// The upper bound of child `i` of a branch with separators `keys` and
/// upper bound `hi`.
pub open spec fn upper(keys: Seq<Seq<u8>>, hi: Option<Seq<u8>>, i: int) -> Option<Seq<u8>> {
    if i >= keys.len() {
        hi
    } else {
        Some(keys[i])
    }
}

/// A key short enough to serve as a separator in a branch.
pub open spec fn separator_fits(key: Seq<u8>) -> bool {
    pair_size(key.len(), 8) <= BRANCH_MAX_PAIR_SIZE
}

/// A record that the tree can store: it fits into a leaf, and its key
/// fits into a branch.
pub open spec fn storable(key: Seq<u8>, value: Seq<u8>) -> bool {
    pair_size(key.len(), value.len()) <= LEAF_MAX_PAIR_SIZE && separator_fits(key)
}

/// The leaf of `t` that the record `(key, value)` belongs to has, in
/// `store`, room for it.
pub open spec fn takes(store: Seq<Seq<u8>>, t: Tree, key: Seq<u8>, value: Seq<u8>) -> bool {
    leaf::has_room(
        body_of(store[t.leaf_for(key).0 as int]),
        pair_size(key.len(), value.len()) as int,
    )
}

/// The leaves of `children[a..b]`, left to right.
pub open spec fn leaves_between(children: Seq<Tree>, a: int, b: int) -> Seq<LeafEntry>
    decreases children, b - a,
{
    if a < 0 || b > children.len() || b <= a {
        Seq::empty()
    } else {
        leaves_between(children, a, b - 1) + children[b - 1].leaves()
    }
}

/// The records of the leaves `entries`, one after the other.
pub open spec fn flat(entries: Seq<LeafEntry>) -> Seq<Record>
    decreases entries.len(),
{
    if entries.len() == 0 {
        Seq::empty()
    } else {
        flat(entries.drop_last()) + entries.last().1
    }
}

/// No page belongs to both `a` and `b`.
pub open spec fn disjoint(a: Tree, b: Tree) -> bool {
    forall|p: PageId| !(#[trigger] a.has_page(p) && #[trigger] b.has_page(p))
}

/// The children of a branch with bounds `lo` and `hi` at height `h` are
/// in order: separators ascend strictly inside the bounds, child `i` is a
/// consistent tree of height `h - 1` between the separators next to it,
/// no two children share a page, and no leaf among them is empty.
pub open spec fn children_ok(
    keys: Seq<Seq<u8>>,
    children: Seq<Tree>,
    lo: Seq<u8>,
    hi: Option<Seq<u8>>,
    h: nat,
) -> bool
    decreases h, 0nat,
{
    &&& h > 0
    &&& children.len() == keys.len() + 1
    &&& sorted(keys)
    &&& forall|j: int|
        0 <= j < keys.len() ==> key_lt(lo, #[trigger] keys[j]) && below(keys[j], hi)
            && separator_fits(keys[j])
    &&& forall|i: int|
        0 <= i < children.len() ==> (#[trigger] children[i]).wf(
            lower(keys, lo, i),
            upper(keys, hi, i),
            (h - 1) as nat,
        )
    &&& forall|i: int| 0 <= i < children.len() ==> leaf_not_empty(#[trigger] children[i])
    &&& forall|i: int, j: int|
        0 <= i < j < children.len() ==> disjoint(#[trigger] children[i], #[trigger] children[j])
}

impl Tree {
    /// The page of the node at the top.
    pub open spec fn id(self) -> PageId {
        match self {
            Tree::Leaf { id, .. } => id,
            Tree::Branch { id, .. } => id,
        }
    }

    /// Page `p` holds a node of the tree.
    pub open spec fn has_page(self, p: PageId) -> bool
        decreases self,
    {
        match self {
            Tree::Leaf { id, .. } => id == p,
            Tree::Branch { id, children, .. } => id == p || exists|i: int|
                0 <= i < children.len() && (#[trigger] children[i]).has_page(p),
        }
    }

    /// The leaves, left to right.
    pub open spec fn leaves(self) -> Seq<LeafEntry>
        decreases self, 0nat,
    {
        match self {
            Tree::Leaf { id, pairs } => seq![(id, pairs)],
            Tree::Branch { children, .. } => leaves_between(children, 0, children.len() as int),
        }
    }

    /// All records, in the order of a left-to-right walk over the leaves.
    pub open spec fn pairs(self) -> Seq<Record> {
        flat(self.leaves())
    }

    /// `node` is this tree or one of the trees below it.
    pub open spec fn has_node(self, node: Tree) -> bool
        decreases self,
    {
        self == node || match self {
            Tree::Leaf { .. } => false,
            Tree::Branch { children, .. } => exists|i: int|
                0 <= i < children.len() && (#[trigger] children[i]).has_node(node),
        }
    }

    /// The page of the leaf that a search for `key` descends to.
    pub open spec fn leaf_for(self, key: Seq<u8>) -> PageId
        decreases self,
    {
        match self {
            Tree::Leaf { id, .. } => id,
            Tree::Branch { id, keys, children } => {
                let i = child_index_of(keys, key) as int;
                if 0 <= i < children.len() {
                    children[i].leaf_for(key)
                } else {
                    id
                }
            },
        }
    }

    /// Number of branch levels above the leaves.
    pub open spec fn height(self) -> nat
        decreases self,
    {
        match self {
            Tree::Leaf { .. } => 0,
            Tree::Branch { children, .. } => if children.len() > 0 {
                children[0].height() + 1
            } else {
                1
            },
        }
    }

    /// The tree is a B+Tree of height `h` for the keys from `lo` up to,
    /// but not including, `hi`: every leaf is at depth `h` and holds
    /// storable records in strictly ascending key order inside the bounds,
    /// every branch has its children in order, and no page occurs twice.
    pub open spec fn wf(self, lo: Seq<u8>, hi: Option<Seq<u8>>, h: nat) -> bool
        decreases h, 1nat,
    {
        match self {
            Tree::Leaf { pairs, .. } => {
                &&& h == 0
                &&& sorted(keys_of(pairs))
                &&& forall|i: int|
                    0 <= i < pairs.len() ==> in_range((#[trigger] pairs[i]).0, lo, hi) && storable(
                        pairs[i].0,
                        pairs[i].1,
                    )
            },
            Tree::Branch { id, keys, children } => {
                &&& children_ok(keys, children, lo, hi, h)
                &&& forall|i: int|
                    0 <= i < children.len() ==> !(#[trigger] children[i]).has_page(id)
            },
        }
    }

    /// The pages of `store` hold this tree: the page of every node exists,
    /// has the size of a page, carries the right tag and a consistent
    /// body, and that body holds the node's records, or its separators and
    /// the pages of its children.
    pub open spec fn stored_in(self, store: Seq<Seq<u8>>) -> bool
        decreases self,
    {
        match self {
            Tree::Leaf { id, pairs } => {
                &&& id.0 < store.len()
                &&& store[id.0 as int].len() == PAGE_SIZE
                &&& is_leaf(store[id.0 as int])
                &&& leaf::wf(body_of(store[id.0 as int]))
                &&& leaf::pairs_of(body_of(store[id.0 as int])) == pairs
            },
            Tree::Branch { id, keys, children } => {
                &&& id.0 < store.len()
                &&& store[id.0 as int].len() == PAGE_SIZE
                &&& is_branch(store[id.0 as int])
                &&& branch::wf(body_of(store[id.0 as int]))
                &&& branch::separators_of(body_of(store[id.0 as int])) == keys
                &&& branch::children_of(body_of(store[id.0 as int])).len() == children.len()
                &&& forall|i: int|
                    0 <= i < children.len() ==> branch::children_of(body_of(store[id.0 as int]))[i]
                        == (#[trigger] children[i]).id() && children[i].stored_in(store)
            },
        }
    }
}

/// The leaves of `children[a..b]` are those of `children[a..m]` followed
/// by those of `children[m..b]`.
pub proof fn lemma_leaves_split(children: Seq<Tree>, a: int, m: int, b: int)
    requires
        0 <= a <= m <= b <= children.len(),
    ensures
        leaves_between(children, a, b) == leaves_between(children, a, m) + leaves_between(
            children,
            m,
            b,
        ),
    decreases b - m,
{
    if m == b {
        assert(leaves_between(children, a, m) + Seq::<LeafEntry>::empty() =~= leaves_between(
            children,
            a,
            m,
        ));
    } else {
        lemma_leaves_split(children, a, m, b - 1);
        assert((leaves_between(children, a, m) + leaves_between(children, m, b - 1)) + children[b
            - 1].leaves() =~= leaves_between(children, a, m) + (leaves_between(children, m, b - 1)
            + children[b - 1].leaves()));
    }
}

/// The leaves of a stretch of children depend on those children only.
pub proof fn lemma_leaves_shift(c1: Seq<Tree>, a1: int, c2: Seq<Tree>, a2: int, n: int)
    requires
        0 <= n,
        0 <= a1,
        a1 + n <= c1.len(),
        0 <= a2,
        a2 + n <= c2.len(),
        forall|k: int| a1 <= k < a1 + n ==> #[trigger] c1[k] == c2[k - a1 + a2],
    ensures
        leaves_between(c1, a1, a1 + n) == leaves_between(c2, a2, a2 + n),
    decreases n,
{
    if n > 0 {
        lemma_leaves_shift(c1, a1, c2, a2, n - 1);
        assert(c1[a1 + n - 1] == c2[a1 + n - 1 - a1 + a2]);
    }
}

/// The leaves of a single child.
pub proof fn lemma_leaves_one(children: Seq<Tree>, i: int)
    requires
        0 <= i < children.len(),
    ensures
        leaves_between(children, i, i + 1) == children[i].leaves(),
{
    assert(leaves_between(children, i, i) =~= Seq::<LeafEntry>::empty());
    assert(Seq::<LeafEntry>::empty() + children[i].leaves() =~= children[i].leaves());
}

/// `flat` goes through concatenation.
pub proof fn lemma_flat_concat(a: Seq<LeafEntry>, b: Seq<LeafEntry>)
    ensures
        flat(a + b) == flat(a) + flat(b),
    decreases b.len(),
{
    if b.len() == 0 {
        assert(a + b =~= a);
        assert(flat(a) + flat(b) =~= flat(a));
    } else {
        assert((a + b).drop_last() =~= a + b.drop_last());
        lemma_flat_concat(a, b.drop_last());
        assert((flat(a) + flat(b.drop_last())) + b.last().1 =~= flat(a) + (flat(b.drop_last())
            + b.last().1));
    }
}

/// `flat` of a single leaf is its records.
pub proof fn lemma_flat_one(entry: LeafEntry)
    ensures
        flat(seq![entry]) == entry.1,
{
    assert(seq![entry].drop_last() =~= Seq::<LeafEntry>::empty());
    assert(seq![entry].last() == entry);
    assert(flat(Seq::<LeafEntry>::empty()) =~= Seq::<Record>::empty());
    assert(Seq::<Record>::empty() + entry.1 =~= entry.1);
}

/// Every page of a stored tree exists in the store and is no "no page"
/// value.
pub proof fn lemma_pages_exist(t: Tree, store: Seq<Seq<u8>>, p: PageId)
    requires
        t.stored_in(store),
        t.has_page(p),
        store.len() <= usize::MAX,
    ensures
        p.0 < store.len(),
        p.0 != INVALID_PAGE_ID,
    decreases t,
{
    match t {
        Tree::Leaf { .. } => {},
        Tree::Branch { id, children, .. } => {
            if id != p {
                let i = choose|i: int| 0 <= i < children.len() && (#[trigger] children[i]).has_page(p);
                lemma_pages_exist(children[i], store, p);
            }
        },
    }
}

/// A tree stays stored when only pages outside it change.
pub proof fn lemma_stored_frame(t: Tree, s0: Seq<Seq<u8>>, s1: Seq<Seq<u8>>)
    requires
        t.stored_in(s0),
        s0.len() <= s1.len(),
        forall|p: PageId| #[trigger] t.has_page(p) ==> s1[p.0 as int] == s0[p.0 as int],
    ensures
        t.stored_in(s1),
    decreases t,
{
    assert(t.has_page(t.id()));
    match t {
        Tree::Leaf { .. } => {},
        Tree::Branch { id, children, .. } => {
            assert forall|i: int| 0 <= i < children.len() implies (#[trigger] children[i]).stored_in(
                s1,
            ) by {
                assert forall|p: PageId| #[trigger] children[i].has_page(p) implies s1[p.0 as int]
                    == s0[p.0 as int] by {
                    assert(t.has_page(p));
                }
                lemma_stored_frame(children[i], s0, s1);
            }
        },
    }
}

/// A store holds at most one tree under a given root page.
pub proof fn lemma_stored_unique(t1: Tree, t2: Tree, store: Seq<Seq<u8>>)
    requires
        t1.stored_in(store),
        t2.stored_in(store),
        t1.id() == t2.id(),
    ensures
        t1 == t2,
    decreases t1,
{
    match t1 {
        Tree::Leaf { .. } => {},
        Tree::Branch { id, keys, children } => {
            let other = t2->Branch_children;
            assert forall|i: int| 0 <= i < children.len() implies children[i] == other[i] by {
                assert(children[i].id() == other[i].id());
                lemma_stored_unique(children[i], other[i], store);
            }
            assert(children =~= other);
        },
    }
}

/// Leaf `entry` is what its page in `store` holds.
pub open spec fn leaf_stored(store: Seq<Seq<u8>>, entry: LeafEntry) -> bool {
    &&& entry.0.0 < store.len()
    &&& store[entry.0.0 as int].len() == PAGE_SIZE
    &&& is_leaf(store[entry.0.0 as int])
    &&& leaf::wf(body_of(store[entry.0.0 as int]))
    &&& leaf::pairs_of(body_of(store[entry.0.0 as int])) == entry.1
}

/// Leaf `j` of `all` points, in `store`, to the leaves before and after
/// it in `all`, or to no page at the ends.
pub open spec fn link_ok(store: Seq<Seq<u8>>, all: Seq<LeafEntry>, j: int) -> bool {
    &&& leaf::prev_of(body_of(store[all[j].0.0 as int])) == (if j == 0 {
        None
    } else {
        Some(all[j - 1].0)
    })
    &&& leaf::next_of(body_of(store[all[j].0.0 as int])) == (if j == all.len() - 1 {
        None
    } else {
        Some(all[j + 1].0)
    })
}

/// The leaves `all` form a doubly linked list in `store`, in this order.
pub open spec fn linked(store: Seq<Seq<u8>>, all: Seq<LeafEntry>) -> bool {
    forall|j: int| 0 <= j < all.len() ==> #[trigger] link_ok(store, all, j)
}

/// Number of records in the leaves before leaf `j`.
pub open spec fn prefix_len(all: Seq<LeafEntry>, j: int) -> int {
    flat(all.subrange(0, j)).len() as int
}

/// Where a search for `key` lands among `pairs`.
pub open spec fn position_of(pairs: Seq<Record>, key: Seq<u8>) -> int {
    lower_bound(keys_of(pairs), key)
}

/// What a cursor at position `at` of `pairs` returns: the record there,
/// or nothing behind the last record.
pub open spec fn yielded(pairs: Seq<Record>, at: int) -> Option<Record> {
    if 0 <= at < pairs.len() {
        Some(pairs[at])
    } else {
        None
    }
}

/// Where a cursor at position `at` of `pairs` stands after it returned
/// what it was on: one record on, or where it was behind the last record.
pub open spec fn stepped(pairs: Seq<Record>, at: int) -> int {
    if at < pairs.len() {
        at + 1
    } else {
        at
    }
}

/// Where a cursor that started at position `at` stands after `n` steps.
pub open spec fn stepped_by(pairs: Seq<Record>, at: int, n: nat) -> int
    decreases n,
{
    if n == 0 {
        at
    } else {
        stepped(pairs, stepped_by(pairs, at, (n - 1) as nat))
    }
}

/// Two sorted runs of records, the first below `mid` and the second not,
/// make one sorted run.
pub proof fn lemma_sorted_concat(a: Seq<Record>, b: Seq<Record>, mid: Seq<u8>)
    requires
        sorted(keys_of(a)),
        sorted(keys_of(b)),
        forall|i: int| 0 <= i < a.len() ==> key_lt((#[trigger] a[i]).0, mid),
        forall|i: int| 0 <= i < b.len() ==> key_le(mid, (#[trigger] b[i]).0),
    ensures
        sorted(keys_of(a + b)),
{
    let k = keys_of(a + b);
    assert forall|i: int, j: int| 0 <= i < j < k.len() implies key_lt(
        #[trigger] k[i],
        #[trigger] k[j],
    ) by {
        if j < a.len() {
            assert(k[i] == keys_of(a)[i] && k[j] == keys_of(a)[j]);
        } else if i >= a.len() {
            assert(k[i] == keys_of(b)[i - a.len()] && k[j] == keys_of(b)[j - a.len()]);
        } else {
            assert(k[i] == a[i].0);
            assert(k[j] == b[j - a.len()].0);
            lemma_key_lt_le(k[i], mid, k[j]);
        }
    }
}

/// The records of a consistent tree are sorted, inside its bounds, and
/// storable.
pub proof fn lemma_wf_pairs(t: Tree, lo: Seq<u8>, hi: Option<Seq<u8>>, h: nat)
    requires
        t.wf(lo, hi, h),
    ensures
        sorted(keys_of(t.pairs())),
        forall|i: int|
            0 <= i < t.pairs().len() ==> in_range((#[trigger] t.pairs()[i]).0, lo, hi) && storable(
                t.pairs()[i].0,
                t.pairs()[i].1,
            ),
    decreases h, 1nat,
{
    match t {
        Tree::Leaf { id, pairs } => {
            lemma_flat_one((id, pairs));
        },
        Tree::Branch { keys, children, .. } => {
            lemma_children_pairs(keys, children, lo, hi, h, 0, children.len() as int);
            let p = t.pairs();
            assert forall|i: int| 0 <= i < p.len() implies in_range((#[trigger] p[i]).0, lo, hi) by {
            }
        },
    }
}

/// The records under `children[a..b]` of a consistent branch are sorted
/// and lie between the lower bound of child `a` and the upper bound of
/// child `b - 1`.
pub proof fn lemma_children_pairs(
    keys: Seq<Seq<u8>>,
    children: Seq<Tree>,
    lo: Seq<u8>,
    hi: Option<Seq<u8>>,
    h: nat,
    a: int,
    b: int,
)
    requires
        children_ok(keys, children, lo, hi, h),
        0 <= a <= b <= children.len(),
    ensures
        sorted(keys_of(flat(leaves_between(children, a, b)))),
        forall|i: int|
            0 <= i < flat(leaves_between(children, a, b)).len() ==> in_range(
                (#[trigger] flat(leaves_between(children, a, b))[i]).0,
                lower(keys, lo, a),
                upper(keys, hi, b - 1),
            ) && storable(
                flat(leaves_between(children, a, b))[i].0,
                flat(leaves_between(children, a, b))[i].1,
            ),
    decreases h, 0nat, b - a,
{
    let p = flat(leaves_between(children, a, b));
    if a == b {
        assert(p =~= Seq::<Record>::empty());
    } else {
        let front = flat(leaves_between(children, a, b - 1));
        let child = children[b - 1];
        let back = child.pairs();
        lemma_children_pairs(keys, children, lo, hi, h, a, b - 1);
        lemma_wf_pairs(child, lower(keys, lo, b - 1), upper(keys, hi, b - 1), (h - 1) as nat);
        lemma_flat_concat(leaves_between(children, a, b - 1), child.leaves());
        assert(p == front + back);
        let mid = lower(keys, lo, b - 1);
        assert forall|i: int| 0 <= i < front.len() implies key_lt((#[trigger] front[i]).0, mid)
            && in_range(front[i].0, lower(keys, lo, a), upper(keys, hi, b - 1)) by {
            assert(in_range(front[i].0, lower(keys, lo, a), upper(keys, hi, b - 2)));
            assert(b - 1 > a);
            assert(upper(keys, hi, b - 2) == Some(keys[b - 2]));
            if b - 1 < keys.len() {
                lemma_key_lt_transitive(front[i].0, keys[b - 2], keys[b - 1]);
            } else {
                assert(below(keys[b - 2], hi));
                if hi is Some {
                    lemma_key_lt_transitive(front[i].0, keys[b - 2], hi->0);
                }
            }
        }
        assert forall|i: int| 0 <= i < back.len() implies key_le(mid, (#[trigger] back[i]).0)
            && in_range(back[i].0, lower(keys, lo, a), upper(keys, hi, b - 1)) by {
            assert(in_range(back[i].0, mid, upper(keys, hi, b - 1)));
            if a < b - 1 {
                if a > 0 {
                    assert(keys[a - 1] == keys[b - 2] || key_lt(keys[a - 1], keys[b - 2]));
                    lemma_key_le_transitive(keys[a - 1], keys[b - 2], back[i].0);
                } else {
                    assert(key_lt(lo, keys[b - 2]));
                    lemma_key_le_transitive(lo, keys[b - 2], back[i].0);
                }
            }
        }
        lemma_sorted_concat(front, back, mid);
        assert forall|i: int| 0 <= i < p.len() implies in_range(
            (#[trigger] p[i]).0,
            lower(keys, lo, a),
            upper(keys, hi, b - 1),
        ) && storable(p[i].0, p[i].1) by {
            if i < front.len() {
                assert(p[i] == front[i]);
            } else {
                assert(p[i] == back[i - front.len()]);
            }
        }
    }
}

/// The leaves of a stored tree are what their pages hold.
pub proof fn lemma_leaves_stored(t: Tree, store: Seq<Seq<u8>>)
    requires
        t.stored_in(store),
    ensures
        t.leaves().len() >= 1 || t is Branch,
        forall|j: int| 0 <= j < t.leaves().len() ==> leaf_stored(store, #[trigger] t.leaves()[j]),
        forall|j: int| 0 <= j < t.leaves().len() ==> t.has_page((#[trigger] t.leaves()[j]).0),
    decreases t, 1nat, 0int,
{
    match t {
        Tree::Leaf { id, pairs } => {
            assert(t.leaves() =~= seq![(id, pairs)]);
            assert(leaf_stored(store, (id, pairs)));
            assert(t.has_page(id));
            assert forall|j: int| 0 <= j < t.leaves().len() implies leaf_stored(
                store,
                #[trigger] t.leaves()[j],
            ) && t.has_page(t.leaves()[j].0) by {
                assert(t.leaves()[j] == (id, pairs));
            }
        },
        Tree::Branch { children, .. } => {
            lemma_children_leaves_stored(t, store, children.len() as int);
            assert(t.leaves() == leaves_between(children, 0, children.len() as int));
        },
    }
}

/// The leaves under the first `b` children of a stored branch are what
/// their pages hold.
pub proof fn lemma_children_leaves_stored(t: Tree, store: Seq<Seq<u8>>, b: int)
    requires
        t is Branch,
        t.stored_in(store),
        0 <= b <= t->Branch_children.len(),
    ensures
        forall|j: int|
            0 <= j < leaves_between(t->Branch_children, 0, b).len() ==> leaf_stored(
                store,
                #[trigger] leaves_between(t->Branch_children, 0, b)[j],
            ),
        forall|j: int|
            0 <= j < leaves_between(t->Branch_children, 0, b).len() ==> t.has_page(
                (#[trigger] leaves_between(t->Branch_children, 0, b)[j]).0,
            ),
    decreases t, 0nat, b,
{
    let children = t->Branch_children;
    if b > 0 {
        lemma_children_leaves_stored(t, store, b - 1);
        lemma_leaves_stored(children[b - 1], store);
        let front = leaves_between(children, 0, b - 1);
        let all = leaves_between(children, 0, b);
        assert forall|j: int| 0 <= j < all.len() implies leaf_stored(store, #[trigger] all[j])
            && t.has_page(all[j].0) by {
            if j < front.len() {
                assert(all[j] == front[j]);
            } else {
                assert(all[j] == children[b - 1].leaves()[j - front.len()]);
                assert(children[b - 1].has_page(all[j].0));
            }
        }
    }
}

/// A consistent tree has at least one leaf, and below a branch no leaf is
/// empty.  Its height is the height it is consistent for.
pub proof fn lemma_wf_leaves(t: Tree, lo: Seq<u8>, hi: Option<Seq<u8>>, h: nat)
    requires
        t.wf(lo, hi, h),
    ensures
        t.leaves().len() >= 1,
        t.height() == h,
        h > 0 ==> forall|j: int| 0 <= j < t.leaves().len() ==> (#[trigger] t.leaves()[j]).1.len() > 0,
        h == 0 ==> t is Leaf,
        h > 0 ==> t is Branch,
    decreases h, 1nat,
{
    match t {
        Tree::Leaf { .. } => {},
        Tree::Branch { keys, children, .. } => {
            lemma_children_leaves(keys, children, lo, hi, h, children.len() as int);
            lemma_wf_leaves(children[0], lower(keys, lo, 0), upper(keys, hi, 0), (h - 1) as nat);
        },
    }
}

/// The first `b` children of a consistent branch have at least `b` leaves
/// between them, none of them empty.
pub proof fn lemma_children_leaves(
    keys: Seq<Seq<u8>>,
    children: Seq<Tree>,
    lo: Seq<u8>,
    hi: Option<Seq<u8>>,
    h: nat,
    b: int,
)
    requires
        children_ok(keys, children, lo, hi, h),
        0 <= b <= children.len(),
    ensures
        leaves_between(children, 0, b).len() >= b,
        forall|j: int|
            0 <= j < leaves_between(children, 0, b).len() ==> (#[trigger] leaves_between(
                children,
                0,
                b,
            )[j]).1.len() > 0,
    decreases h, 0nat, b,
{
    if b > 0 {
        let child = children[b - 1];
        lemma_children_leaves(keys, children, lo, hi, h, b - 1);
        lemma_wf_leaves(child, lower(keys, lo, b - 1), upper(keys, hi, b - 1), (h - 1) as nat);
        let front = leaves_between(children, 0, b - 1);
        let all = leaves_between(children, 0, b);
        assert forall|j: int| 0 <= j < all.len() implies (#[trigger] all[j]).1.len() > 0 by {
            if j < front.len() {
                assert(all[j] == front[j]);
            } else {
                assert(all[j] == child.leaves()[j - front.len()]);
            }
        }
    }
}

/// The records before leaf `j + m` are those before leaf `j` and those of
/// the `m` leaves from `j` on.
pub proof fn lemma_prefix_len_add(all: Seq<LeafEntry>, j: int, m: int)
    requires
        0 <= j,
        0 <= m,
        j + m <= all.len(),
    ensures
        prefix_len(all, j + m) == prefix_len(all, j) + flat(all.subrange(j, j + m)).len(),
{
    assert(all.subrange(0, j + m) =~= all.subrange(0, j) + all.subrange(j, j + m));
    lemma_flat_concat(all.subrange(0, j), all.subrange(j, j + m));
}

/// Record `s` of leaf `j` is record `prefix_len(all, j) + s` overall.
pub proof fn lemma_flat_index(all: Seq<LeafEntry>, j: int, s: int)
    requires
        0 <= j < all.len(),
        0 <= s < all[j].1.len(),
    ensures
        prefix_len(all, j) + s < flat(all).len(),
        flat(all)[prefix_len(all, j) + s] == all[j].1[s],
        prefix_len(all, j + 1) == prefix_len(all, j) + all[j].1.len(),
{
    lemma_prefix_len_add(all, j, 1);
    assert(all.subrange(j, j + 1) =~= seq![all[j]]);
    lemma_flat_one(all[j]);
    lemma_prefix_len_add(all, j + 1, all.len() - j - 1);
    assert(all.subrange(0, all.len() as int) =~= all);
    assert(all.subrange(0, j + 1) =~= all.subrange(0, j) + seq![all[j]]);
    lemma_flat_concat(all.subrange(0, j), seq![all[j]]);
    assert(all =~= all.subrange(0, j + 1) + all.subrange(j + 1, all.len() as int));
    lemma_flat_concat(all.subrange(0, j + 1), all.subrange(j + 1, all.len() as int));
}

/// The records before the end of the last leaf are all records.
pub proof fn lemma_prefix_len_last(all: Seq<LeafEntry>)
    requires
        all.len() > 0,
    ensures
        prefix_len(all, all.len() - 1) + all.last().1.len() == flat(all).len(),
{
    assert(all.subrange(0, all.len() - 1) =~= all.drop_last());
}

/// In a consistent branch, the child that a search for `key` descends
/// into has `key` inside its bounds, and the place of `key` among all
/// records of the branch is its place among the records of that child,
/// after the records of the children to its left.
pub proof fn lemma_descend(
    keys: Seq<Seq<u8>>,
    children: Seq<Tree>,
    lo: Seq<u8>,
    hi: Option<Seq<u8>>,
    h: nat,
    key: Seq<u8>,
)
    requires
        children_ok(keys, children, lo, hi, h),
        in_range(key, lo, hi),
        keys.len() < usize::MAX,
    ensures
        ({
            let i = child_index_of(keys, key) as int;
            &&& 0 <= i < children.len()
            &&& in_range(key, lower(keys, lo, i), upper(keys, hi, i))
            &&& position_of(flat(leaves_between(children, 0, children.len() as int)), key) == flat(
                leaves_between(children, 0, i),
            ).len() + position_of(children[i].pairs(), key)
        }),
{
    let n = children.len() as int;
    let i = child_index_of(keys, key) as int;
    lemma_search_result(keys, key);
    lemma_lower_bound(keys, key);
    assert(0 <= i < n);
    assert(in_range(key, lower(keys, lo, i), upper(keys, hi, i))) by {
        match search_result(keys, key) {
            Ok(j) => {
                assert(i == j + 1);
            },
            Err(j) => {
                if i < keys.len() {
                    assert(key_le(key, keys[i]));
                    assert(!keys.contains(key));
                    assert(keys.contains(keys[i]));
                }
            },
        }
    }
    let child = children[i];
    let before = flat(leaves_between(children, 0, i));
    let inside = child.pairs();
    let after = flat(leaves_between(children, i + 1, n));
    let whole = flat(leaves_between(children, 0, n));
    lemma_leaves_split(children, 0, i, n);
    lemma_leaves_split(children, i, i + 1, n);
    lemma_leaves_one(children, i);
    lemma_flat_concat(leaves_between(children, 0, i), leaves_between(children, i, n));
    lemma_flat_concat(child.leaves(), leaves_between(children, i + 1, n));
    assert(whole == before + (inside + after));
    lemma_children_pairs(keys, children, lo, hi, h, 0, n);
    lemma_children_pairs(keys, children, lo, hi, h, 0, i);
    lemma_children_pairs(keys, children, lo, hi, h, i + 1, n);
    lemma_wf_pairs(child, lower(keys, lo, i), upper(keys, hi, i), (h - 1) as nat);
    lemma_lower_bound(keys_of(inside), key);
    let at = position_of(inside, key);
    let all_keys = keys_of(whole);
    assert forall|j: int| 0 <= j < before.len() + at implies key_lt(#[trigger] all_keys[j], key) by {
        if j < before.len() {
            assert(all_keys[j] == before[j].0);
            assert(in_range(before[j].0, lower(keys, lo, 0), upper(keys, hi, i - 1)));
            assert(upper(keys, hi, i - 1) == Some(keys[i - 1]));
            lemma_key_lt_le(before[j].0, keys[i - 1], key);
        } else {
            assert(all_keys[j] == keys_of(inside)[j - before.len()]);
        }
    }
    assert forall|j: int| before.len() + at <= j < all_keys.len() implies key_le(
        key,
        #[trigger] all_keys[j],
    ) by {
        if j < before.len() + inside.len() {
            assert(all_keys[j] == keys_of(inside)[j - before.len()]);
        } else {
            let x = after[j - before.len() - inside.len()];
            assert(all_keys[j] == x.0);
            assert(in_range(x.0, lower(keys, lo, i + 1), upper(keys, hi, n - 1)));
            assert(lower(keys, lo, i + 1) == keys[i]);
            assert(key_lt(key, keys[i]));
            lemma_key_lt_le(key, keys[i], x.0);
        }
    }
    lemma_lower_bound_unique(all_keys, key, before.len() + at);
}

/// Index of the child that a search descends into, in a branch with
/// separators `keys`: the leftmost child without a key, else the child
/// whose bounds take in the key.
pub open spec fn index_for(target: Option<Seq<u8>>, keys: Seq<Seq<u8>>) -> int {
    match target {
        None => 0,
        Some(key) => child_index_of(keys, key) as int,
    }
}

/// Where a search lands among `pairs`: at the start without a key, else
/// at the first record whose key is not less than the key.
pub open spec fn position_for(target: Option<Seq<u8>>, pairs: Seq<Record>) -> int {
    match target {
        None => 0,
        Some(key) => position_of(pairs, key),
    }
}

/// Tree `t`, consistent between `lo` and `hi` at height `h`, is stored in
/// `store`, and its leaves are the leaves `all[off..]`.
#[verifier::opaque]
pub open spec fn descent(
    store: Seq<Seq<u8>>,
    t: Tree,
    lo: Seq<u8>,
    hi: Option<Seq<u8>>,
    h: nat,
    all: Seq<LeafEntry>,
    off: int,
) -> bool {
    &&& t.stored_in(store)
    &&& t.wf(lo, hi, h)
    &&& 0 <= off
    &&& off + t.leaves().len() <= all.len()
    &&& all.subrange(off, off + t.leaves().len()) == t.leaves()
}

/// What the page at the top of a descent holds.
pub proof fn lemma_descent_node(
    store: Seq<Seq<u8>>,
    t: Tree,
    lo: Seq<u8>,
    hi: Option<Seq<u8>>,
    h: nat,
    all: Seq<LeafEntry>,
    off: int,
)
    requires
        descent(store, t, lo, hi, h, all, off),
    ensures
        t.id().0 < store.len(),
        store[t.id().0 as int].len() == PAGE_SIZE,
        h == 0 ==> is_leaf(store[t.id().0 as int]) && leaf::wf(body_of(store[t.id().0 as int]))
            && leaf::pairs_of(body_of(store[t.id().0 as int])) == t.pairs() && 0 <= off < all.len()
            && all[off] == (t.id(), t.pairs()),
        h > 0 ==> is_branch(store[t.id().0 as int]) && branch::wf(body_of(store[t.id().0 as int]))
            && t is Branch && branch::separators_of(body_of(store[t.id().0 as int]))
            == t->Branch_keys,
{
    reveal(descent);
    lemma_wf_leaves(t, lo, hi, h);
    if h == 0 {
        lemma_flat_one(t.leaves()[0]);
        assert(t.leaves()[0] == all.subrange(off, off + t.leaves().len())[0]);
    }
}

/// One step down: the child that the search descends into is itself the
/// top of a descent, and the search lands at the same place.
pub proof fn lemma_descent_child(
    store: Seq<Seq<u8>>,
    t: Tree,
    lo: Seq<u8>,
    hi: Option<Seq<u8>>,
    h: nat,
    all: Seq<LeafEntry>,
    off: int,
    target: Option<Seq<u8>>,
)
    requires
        descent(store, t, lo, hi, h, all, off),
        h > 0,
        target matches Some(key) ==> in_range(key, lo, hi),
        store.len() <= usize::MAX,
    ensures
        t is Branch,
        ({
            let keys = t->Branch_keys;
            let children = t->Branch_children;
            let i = index_for(target, keys);
            let below = leaves_between(children, 0, i).len() as int;
            &&& 0 <= i < children.len()
            &&& branch::children_of(body_of(store[t.id().0 as int]))[i] == children[i].id()
            &&& children[i].id().0 < store.len()
            &&& descent(
                store,
                children[i],
                lower(keys, lo, i),
                upper(keys, hi, i),
                (h - 1) as nat,
                all,
                off + below,
            )
            &&& target matches Some(key) ==> in_range(key, lower(keys, lo, i), upper(keys, hi, i))
            &&& prefix_len(all, off + below) + position_for(target, children[i].pairs())
                == prefix_len(all, off) + position_for(target, t.pairs())
        }),
{
    reveal(descent);
    lemma_wf_leaves(t, lo, hi, h);
    let keys = t->Branch_keys;
    let children = t->Branch_children;
    let i = index_for(target, keys);
    let n = children.len() as int;
    let page = body_of(store[t.id().0 as int]);
    assert(keys.len() < usize::MAX) by {
        assert(branch::pairs_of(page).len() == crate::slotted::num_slots_of(
            branch::block_of(page),
        ));
    }
    if target is Some {
        lemma_descend(keys, children, lo, hi, h, target->0);
    } else {
        assert(leaves_between(children, 0, 0) =~= Seq::<LeafEntry>::empty());
    }
    lemma_leaves_split(children, 0, i, n);
    lemma_leaves_split(children, i, i + 1, n);
    lemma_leaves_one(children, i);
    let before = leaves_between(children, 0, i);
    let inside = children[i].leaves();
    let rest = leaves_between(children, i + 1, n);
    let whole = t.leaves();
    let window = all.subrange(off, off + whole.len());
    assert(whole == before + (inside + rest));
    assert forall|k: int| 0 <= k < before.len() implies all[off + k] == before[k] by {
        assert(window[k] == whole[k]);
    }
    assert forall|k: int| 0 <= k < inside.len() implies all[off + before.len() + k] == inside[k] by {
        assert(window[before.len() + k] == whole[before.len() + k]);
        assert(whole[before.len() + k] == (inside + rest)[k]);
    }
    assert(all.subrange(off, off + before.len()) =~= before);
    assert(all.subrange(off + before.len(), off + before.len() + inside.len()) =~= inside);
    lemma_prefix_len_add(all, off, before.len() as int);
    assert(children[i].stored_in(store));
}

/// A leaf at the top of `t` is not empty.
pub open spec fn leaf_not_empty(t: Tree) -> bool {
    t matches Tree::Leaf { pairs, .. } ==> pairs.len() > 0
}

/// Replacing one child of a consistent branch by a consistent tree for
/// the same bounds that shares no page with the other children keeps the
/// branch consistent.
pub proof fn lemma_children_update(
    keys: Seq<Seq<u8>>,
    children: Seq<Tree>,
    lo: Seq<u8>,
    hi: Option<Seq<u8>>,
    h: nat,
    i: int,
    c: Tree,
)
    requires
        children_ok(keys, children, lo, hi, h),
        0 <= i < children.len(),
        c.wf(lower(keys, lo, i), upper(keys, hi, i), (h - 1) as nat),
        leaf_not_empty(c),
        forall|j: int| 0 <= j < children.len() && j != i ==> disjoint(c, #[trigger] children[j]),
    ensures
        children_ok(keys, children.update(i, c), lo, hi, h),
{
    let out = children.update(i, c);
    assert forall|j: int| 0 <= j < out.len() implies (#[trigger] out[j]).wf(
        lower(keys, lo, j),
        upper(keys, hi, j),
        (h - 1) as nat,
    ) && leaf_not_empty(out[j]) by {
        if j != i {
            assert(out[j] == children[j]);
        }
    }
    assert forall|a: int, b: int| 0 <= a < b < out.len() implies disjoint(
        #[trigger] out[a],
        #[trigger] out[b],
    ) by {
        if a == i {
            assert(disjoint(c, children[b]));
        } else if b == i {
            assert(disjoint(c, children[a]));
        } else {
            assert(disjoint(children[a], children[b]));
        }
    }
}

/// Replacing child `i` of a consistent branch by two consistent trees
/// with a separator between them keeps the branch consistent.
pub proof fn lemma_children_insert(
    keys: Seq<Seq<u8>>,
    children: Seq<Tree>,
    lo: Seq<u8>,
    hi: Option<Seq<u8>>,
    h: nat,
    i: int,
    sep: Seq<u8>,
    c1: Tree,
    c2: Tree,
)
    requires
        children_ok(keys, children, lo, hi, h),
        0 <= i < children.len(),
        key_lt(lower(keys, lo, i), sep),
        below(sep, upper(keys, hi, i)),
        separator_fits(sep),
        c1.wf(lower(keys, lo, i), Some(sep), (h - 1) as nat),
        c2.wf(sep, upper(keys, hi, i), (h - 1) as nat),
        leaf_not_empty(c1),
        leaf_not_empty(c2),
        disjoint(c1, c2),
        forall|j: int|
            0 <= j < children.len() && j != i ==> disjoint(c1, #[trigger] children[j]) && disjoint(
                c2,
                children[j],
            ),
    ensures
        children_ok(keys.insert(i, sep), children.update(i, c1).insert(i + 1, c2), lo, hi, h),
{
    let k = keys.insert(i, sep);
    let out = children.update(i, c1).insert(i + 1, c2);
    lemma_sorted_insert_at(keys, i, sep);
    assert forall|j: int| 0 <= j < k.len() implies key_lt(lo, #[trigger] k[j]) && below(k[j], hi)
        && separator_fits(k[j]) by {
        if j < i {
            assert(k[j] == keys[j]);
        } else if j > i {
            assert(k[j] == keys[j - 1]);
        } else {
            if i > 0 {
                lemma_key_lt_transitive(lo, keys[i - 1], sep);
            }
            if i < keys.len() {
                assert(below(keys[i], hi));
                if hi is Some {
                    lemma_key_lt_transitive(sep, keys[i], hi->0);
                }
            }
        }
    }
    assert forall|j: int| 0 <= j < out.len() implies (#[trigger] out[j]).wf(
        lower(k, lo, j),
        upper(k, hi, j),
        (h - 1) as nat,
    ) && leaf_not_empty(out[j]) by {
        if j < i {
            assert(out[j] == children[j]);
            assert(lower(k, lo, j) == lower(keys, lo, j));
            assert(upper(k, hi, j) == upper(keys, hi, j));
        } else if j == i {
            assert(out[j] == c1);
            assert(lower(k, lo, j) == lower(keys, lo, j));
        } else if j == i + 1 {
            assert(out[j] == c2);
            assert(upper(k, hi, j) == upper(keys, hi, i));
        } else {
            assert(out[j] == children[j - 1]);
            assert(lower(k, lo, j) == lower(keys, lo, j - 1));
            assert(upper(k, hi, j) == upper(keys, hi, j - 1));
        }
    }
    assert forall|a: int, b: int| 0 <= a < b < out.len() implies disjoint(
        #[trigger] out[a],
        #[trigger] out[b],
    ) by {
        let a0 = if a <= i { a } else { a - 1 };
        let b0 = if b <= i { b } else { b - 1 };
        if a == i && b == i + 1 {
        } else if a == i || a == i + 1 {
            assert(out[b] == children[b0]);
            assert(disjoint(c1, children[b0]) && disjoint(c2, children[b0]));
        } else if b == i || b == i + 1 {
            assert(out[a] == children[a0]);
            assert(disjoint(c1, children[a0]) && disjoint(c2, children[a0]));
        } else {
            assert(out[a] == children[a0]);
            assert(out[b] == children[b0]);
            assert(disjoint(children[a0], children[b0]));
        }
    }
}

/// Taking separator `m` out of a consistent branch leaves two consistent
/// branches, one on each side of it, that share no page.
pub proof fn lemma_children_split(
    keys: Seq<Seq<u8>>,
    children: Seq<Tree>,
    lo: Seq<u8>,
    hi: Option<Seq<u8>>,
    h: nat,
    m: int,
)
    requires
        children_ok(keys, children, lo, hi, h),
        0 <= m < keys.len(),
    ensures
        children_ok(keys.subrange(0, m), children.subrange(0, m + 1), lo, Some(keys[m]), h),
        children_ok(
            keys.subrange(m + 1, keys.len() as int),
            children.subrange(m + 1, children.len() as int),
            keys[m],
            hi,
            h,
        ),
        forall|a: int, b: int|
            0 <= a <= m < b < children.len() ==> disjoint(
                #[trigger] children[a],
                #[trigger] children[b],
            ),
{
    let k1 = keys.subrange(0, m);
    let c1 = children.subrange(0, m + 1);
    let k2 = keys.subrange(m + 1, keys.len() as int);
    let c2 = children.subrange(m + 1, children.len() as int);
    assert forall|j: int| 0 <= j < k1.len() implies key_lt(lo, #[trigger] k1[j]) && below(
        k1[j],
        Some(keys[m]),
    ) && separator_fits(k1[j]) by {
        assert(k1[j] == keys[j]);
    }
    assert forall|j: int| 0 <= j < k2.len() implies key_lt(keys[m], #[trigger] k2[j]) && below(
        k2[j],
        hi,
    ) && separator_fits(k2[j]) by {
        assert(k2[j] == keys[j + m + 1]);
    }
    assert forall|a: int, b: int| 0 <= a < b < k1.len() implies key_lt(
        #[trigger] k1[a],
        #[trigger] k1[b],
    ) by {
        assert(k1[a] == keys[a] && k1[b] == keys[b]);
    }
    assert forall|a: int, b: int| 0 <= a < b < k2.len() implies key_lt(
        #[trigger] k2[a],
        #[trigger] k2[b],
    ) by {
        assert(k2[a] == keys[a + m + 1] && k2[b] == keys[b + m + 1]);
    }
    assert forall|j: int| 0 <= j < c1.len() implies (#[trigger] c1[j]).wf(
        lower(k1, lo, j),
        upper(k1, Some(keys[m]), j),
        (h - 1) as nat,
    ) && leaf_not_empty(c1[j]) by {
        assert(c1[j] == children[j]);
        assert(lower(k1, lo, j) == lower(keys, lo, j));
        assert(upper(k1, Some(keys[m]), j) == upper(keys, hi, j));
    }
    assert forall|j: int| 0 <= j < c2.len() implies (#[trigger] c2[j]).wf(
        lower(k2, keys[m], j),
        upper(k2, hi, j),
        (h - 1) as nat,
    ) && leaf_not_empty(c2[j]) by {
        assert(c2[j] == children[j + m + 1]);
        assert(lower(k2, keys[m], j) == lower(keys, lo, j + m + 1));
        assert(upper(k2, hi, j) == upper(keys, hi, j + m + 1));
    }
    assert forall|a: int, b: int| 0 <= a < b < c1.len() implies disjoint(
        #[trigger] c1[a],
        #[trigger] c1[b],
    ) by {
        assert(disjoint(children[a], children[b]));
    }
    assert forall|a: int, b: int| 0 <= a < b < c2.len() implies disjoint(
        #[trigger] c2[a],
        #[trigger] c2[b],
    ) by {
        assert(disjoint(children[a + m + 1], children[b + m + 1]));
    }
}

/// A key that is not among the records of a branch is not among the
/// records of any of its children.
pub proof fn lemma_child_absent(children: Seq<Tree>, i: int, key: Seq<u8>)
    requires
        0 <= i < children.len(),
        !keys_of(flat(leaves_between(children, 0, children.len() as int))).contains(key),
    ensures
        !keys_of(children[i].pairs()).contains(key),
{
    let n = children.len() as int;
    let before = flat(leaves_between(children, 0, i));
    let inside = children[i].pairs();
    let after = flat(leaves_between(children, i + 1, n));
    let whole = flat(leaves_between(children, 0, n));
    lemma_leaves_split(children, 0, i, n);
    lemma_leaves_split(children, i, i + 1, n);
    lemma_leaves_one(children, i);
    lemma_flat_concat(leaves_between(children, 0, i), leaves_between(children, i, n));
    lemma_flat_concat(children[i].leaves(), leaves_between(children, i + 1, n));
    assert(whole == before + (inside + after));
    if keys_of(inside).contains(key) {
        let q = choose|q: int| 0 <= q < keys_of(inside).len() && keys_of(inside)[q] == key;
        assert(keys_of(whole)[before.len() + q] == whole[before.len() + q].0);
        assert(whole[before.len() + q] == inside[q]);
        assert(keys_of(whole).contains(key));
    }
}

} // verus!
