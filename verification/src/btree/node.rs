//! The tag at the start of every node page, which tells leaves from
//! branches.

use vstd::prelude::*;
use vstd::bytes::{
    lemma_auto_spec_u64_to_from_le_bytes, spec_u64_from_le_bytes, spec_u64_to_le_bytes,
};
use crate::btree::branch::Branch;
use crate::btree::leaf::Leaf;
use crate::bytes::{get_u64, put_range, put_u64};

verus! {

/// Bytes taken by the tag.
pub const HEADER_SIZE: usize = 8;

/// The tag of a leaf: the bytes `LEAF` and four spaces.
pub const NODE_TYPE_LEAF: u64 = 0x2020_2020_4641_454c;

/// The tag of a branch: the bytes `BRANCH` and two spaces.
pub const NODE_TYPE_BRANCH: u64 = 0x2020_4843_4e41_5242;

/// The tag written at the start of page `page`.
pub open spec fn node_type_of(page: Seq<u8>) -> u64 {
    spec_u64_from_le_bytes(page.subrange(0, 8))
}

/// What follows the tag in page `page`.
pub open spec fn body_of(page: Seq<u8>) -> Seq<u8> {
    page.subrange(8, page.len() as int)
}

/// Page `page` carries the tag of a leaf.
pub open spec fn is_leaf(page: Seq<u8>) -> bool {
    page.len() >= 8 && node_type_of(page) == NODE_TYPE_LEAF
}

/// Page `page` carries the tag of a branch.
pub open spec fn is_branch(page: Seq<u8>) -> bool {
    page.len() >= 8 && node_type_of(page) == NODE_TYPE_BRANCH
}

/// The tag of a node page.
pub struct Header {
    pub node_type: u64,
}

/// A node page split into tag and body.  Its view is the page.
pub struct Node {
    pub header: Header,
    pub body: Vec<u8>,
}

impl View for Node {
    type V = Seq<u8>;

    open spec fn view(&self) -> Seq<u8> {
        spec_u64_to_le_bytes(self.header.node_type) + self.body@
    }
}

impl Node {
    /// Splits a page into tag and body.
    pub fn new(bytes: &[u8]) -> (r: Node)
        requires
            bytes@.len() >= 8,
        ensures
            r@ == bytes@,
            r.header.node_type == node_type_of(bytes@),
            r.body@ == body_of(bytes@),
    {
        let node_type = get_u64(bytes, 0);
        let mut body: Vec<u8> = Vec::new();
        put_range(&mut body, bytes, HEADER_SIZE, bytes.len());
        let r = Node { header: Header { node_type }, body };
        proof {
            lemma_auto_spec_u64_to_from_le_bytes();
            assert(bytes@.subrange(0, 8).len() == 8);
            assert(r@ =~= bytes@);
        }
        r
    }

    /// Puts a tag in front of a body.
    pub fn assemble(node_type: u64, body: &[u8]) -> (r: Vec<u8>)
        ensures
            r@.len() == body@.len() + 8,
            node_type_of(r@) == node_type,
            body_of(r@) == body@,
    {
        let mut out: Vec<u8> = Vec::new();
        put_u64(&mut out, node_type);
        put_range(&mut out, body, 0, body.len());
        proof {
            lemma_auto_spec_u64_to_from_le_bytes();
            assert(out@.subrange(0, 8) =~= spec_u64_to_le_bytes(node_type));
            assert(body_of(out@) =~= body@);
        }
        out
    }

    /// Marks the page as a leaf.
    pub fn initialize_as_leaf(&mut self)
        ensures
            final(self).header.node_type == NODE_TYPE_LEAF,
            final(self).body == old(self).body,
    {
        self.header.node_type = NODE_TYPE_LEAF;
    }

    /// Marks the page as a branch.
    pub fn initialize_as_branch(&mut self)
        ensures
            final(self).header.node_type == NODE_TYPE_BRANCH,
            final(self).body == old(self).body,
    {
        self.header.node_type = NODE_TYPE_BRANCH;
    }
}

/// The body of a node page, read as the kind of node its tag names.
pub enum Body {
    Leaf(Leaf),
    Branch(Branch),
}

impl Body {
    /// Reads `bytes` as a leaf or as a branch, as `node_type` says.  Any
    /// other tag means the page is not a node of a tree.
    pub fn new(node_type: u64, bytes: &[u8]) -> (r: Body)
        requires
            node_type == NODE_TYPE_LEAF || node_type == NODE_TYPE_BRANCH,
            bytes@.len() >= 16,
        ensures
            node_type == NODE_TYPE_LEAF ==> (r matches Body::Leaf(leaf) && leaf@ == bytes@),
            node_type == NODE_TYPE_BRANCH ==> (r matches Body::Branch(branch) && branch@ == bytes@),
    {
        if node_type == NODE_TYPE_LEAF {
            Body::Leaf(Leaf::new(bytes))
        } else {
            Body::Branch(Branch::new(bytes))
        }
    }
}

} // verus!
