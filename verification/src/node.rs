//! The three kinds of node a page can hold, and their mathematical views.

use vstd::prelude::*;
use crate::config::DEGREE;
use crate::record::Record;

verus! {

/// What a page holds, as plain mathematical data.
pub enum NodeView {
    Leaf { keys: Seq<i32>, values: Seq<Record>, next: Option<usize> },
    Internal { keys: Seq<i32>, children: Seq<usize> },
    Header { root: usize },
}

/// A page of the index.
#[derive(Debug, Clone, PartialEq, Eq)]
pub enum Node {
    Leaf(LeafNode),
    Internal(InternalNode),
    Header(HeaderNode),
}

/// The distinguished first page; it names the page of the root.
#[derive(Debug, Clone, PartialEq, Eq)]
pub struct HeaderNode {
    pub root: usize,
}

/// A leaf: keys in ascending order, one record per key, and the page of the
/// leaf that follows in key order.
#[derive(Debug, Clone, PartialEq, Eq)]
pub struct LeafNode {
    pub keys: Vec<i32>,
    pub values: Vec<Record>,
    pub next: Option<usize>,
}

/// A routing node: separator keys in ascending order and one more child page
/// than there are keys.
#[derive(Debug, Clone, PartialEq, Eq)]
pub struct InternalNode {
    pub keys: Vec<i32>,
    pub children: Vec<usize>,
}

/// A fresh vector holding `v[lo..hi]`.
pub fn copy_range<T: Copy>(v: &Vec<T>, lo: usize, hi: usize) -> (r: Vec<T>)
    requires
        lo <= hi <= v.len(),
    ensures
        r@ == v@.subrange(lo as int, hi as int),
{
    let mut r: Vec<T> = Vec::new();
    let mut i: usize = lo;
    while i < hi
        invariant
            lo <= i <= hi <= v.len(),
            r@ == v@.subrange(lo as int, i as int),
        decreases hi - i,
    {
        r.push(v[i]);
        i += 1;
        assert(r@ =~= v@.subrange(lo as int, i as int));
    }
    r
}

impl View for HeaderNode {
    type V = NodeView;

    open spec fn view(&self) -> NodeView {
        NodeView::Header { root: self.root }
    }
}

impl View for LeafNode {
    type V = NodeView;

    open spec fn view(&self) -> NodeView {
        NodeView::Leaf { keys: self.keys@, values: self.values@, next: self.next }
    }
}

impl View for InternalNode {
    type V = NodeView;

    open spec fn view(&self) -> NodeView {
        NodeView::Internal { keys: self.keys@, children: self.children@ }
    }
}

impl View for Node {
    type V = NodeView;

    open spec fn view(&self) -> NodeView {
        match self {
            Node::Leaf(n) => n@,
            Node::Internal(n) => n@,
            Node::Header(n) => n@,
        }
    }
}

/// The view of what a read handed back: the node's view, or nothing.
pub open spec fn view_of(n: Option<Node>) -> Option<NodeView> {
    match n {
        Some(n) => Some(n@),
        None => None,
    }
}

impl HeaderNode {
    /// A copy with the same view.
    pub fn duplicate(&self) -> (r: Self)
        ensures
            r@ == self@,
            r.root == self.root,
    {
        HeaderNode { root: self.root }
    }
}

impl LeafNode {
    /// An empty leaf with no successor.
    pub fn new() -> (r: Self)
        ensures
            r@ == (NodeView::Leaf { keys: Seq::empty(), values: Seq::empty(), next: None }),
    {
        Self {
            keys: Vec::with_capacity(DEGREE * 2),
            values: Vec::with_capacity(DEGREE * 2),
            next: None,
        }
    }

    /// A copy with the same view.
    pub fn duplicate(&self) -> (r: Self)
        ensures
            r@ == self@,
    {
        let keys = copy_range(&self.keys, 0, self.keys.len());
        let values = copy_range(&self.values, 0, self.values.len());
        assert(keys@ =~= self.keys@ && values@ =~= self.values@);
        LeafNode { keys, values, next: self.next }
    }
}

impl InternalNode {
    /// A copy with the same view.
    pub fn duplicate(&self) -> (r: Self)
        ensures
            r@ == self@,
    {
        let keys = copy_range(&self.keys, 0, self.keys.len());
        let children = copy_range(&self.children, 0, self.children.len());
        assert(keys@ =~= self.keys@ && children@ =~= self.children@);
        InternalNode { keys, children }
    }
}

impl Node {
    /// A copy with the same view.
    pub fn duplicate(&self) -> (r: Self)
        ensures
            r@ == self@,
    {
        match self {
            Node::Leaf(n) => Node::Leaf(n.duplicate()),
            Node::Internal(n) => Node::Internal(n.duplicate()),
            Node::Header(n) => Node::Header(n.duplicate()),
        }
    }
}

} // verus!
