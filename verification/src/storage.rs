//! The page store contract, and a store that keeps its pages in memory.

use vstd::prelude::*;
use crate::config::MAX_PAGES;
use crate::node::{Node, NodeView, view_of};
use crate::page::node_fits;

verus! {

/// The pages after writing `node` at `loc`: the store grows to hold `loc`
/// if it must, the pages it gains in between are empty, and only page `loc`
/// changes.
pub open spec fn pages_after_write(
    pages: Seq<Option<NodeView>>,
    loc: int,
    node: NodeView,
) -> Seq<Option<NodeView>> {
    Seq::new(
        if loc < pages.len() {
            pages.len()
        } else {
            (loc + 1) as nat
        },
        |i: int|
            if i == loc {
                Some(node)
            } else if i < pages.len() {
                pages[i]
            } else {
                None
            },
    )
}

/// What the page at `loc` decodes to; nothing past the end of the store.
pub open spec fn page_at(pages: Seq<Option<NodeView>>, loc: int) -> Option<NodeView> {
    if 0 <= loc < pages.len() {
        pages[loc]
    } else {
        None
    }
}

/// An indexed array of pages, each holding one node or nothing.
pub trait Storage {
    /// The pages of the store: for each index what that page decodes to.
    spec fn pages(&self) -> Seq<Option<NodeView>>;

    /// Reads the node at page `loc`; nothing if the page was never written.
    /// The pages are left as they were.
    fn read_node(&mut self, loc: usize) -> (r: Option<Node>)
        ensures
            final(self).pages() == old(self).pages(),
            view_of(r) == page_at(old(self).pages(), loc as int),
    ;

    /// Writes `node` at page `loc`, growing the store if `loc` is past its
    /// end. No other page changes. The page must be one whose byte offset
    /// the machine can address, and the node one that fits a page.
    fn write_node(&mut self, loc: usize, node: &Node)
        requires
            loc < MAX_PAGES,
            node_fits(node@),
        ensures
            final(self).pages() == pages_after_write(old(self).pages(), loc as int, node@),
    ;

    /// The number of pages in the store.
    fn total_nodes(&self) -> (n: usize)
        ensures
            n == self.pages().len(),
    ;
}

/// A store that keeps decoded nodes in a vector, one slot per page.
pub struct InMemoryStorage {
    pub nodes: Vec<Option<Node>>,
}

impl InMemoryStorage {
    /// An empty store.
    pub fn new() -> (s: Self)
        ensures
            s.pages() == Seq::<Option<NodeView>>::empty(),
    {
        let s = Self { nodes: Vec::new() };
        assert(s.pages() =~= Seq::<Option<NodeView>>::empty());
        s
    }
}

impl Storage for InMemoryStorage {
    /// The view of each slot.
    open spec fn pages(&self) -> Seq<Option<NodeView>> {
        Seq::new(self.nodes@.len(), |i: int| view_of(self.nodes@[i]))
    }

    /// A copy of the node in slot `loc`.
    fn read_node(&mut self, loc: usize) -> (r: Option<Node>) {
        if loc < self.nodes.len() {
            match &self.nodes[loc] {
                Some(n) => Some(n.duplicate()),
                None => None,
            }
        } else {
            None
        }
    }

    /// Puts a copy of `node` in slot `loc`, after adding empty slots up to
    /// it where it lies past the end.
    fn write_node(&mut self, loc: usize, node: &Node) {
        let ghost before = self.pages();
        while self.nodes.len() <= loc
            invariant
                loc < MAX_PAGES,
                self.nodes@.len() >= before.len(),
                self.nodes@.len() <= loc + 1 || self.nodes@.len() == before.len(),
                forall|i: int| 0 <= i < before.len() ==> view_of(#[trigger] self.nodes@[i]) == before[i],
                forall|i: int| before.len() <= i < self.nodes@.len() ==> (#[trigger] self.nodes@[i]) is None,
            decreases loc + 1 - self.nodes.len(),
        {
            self.nodes.push(None);
        }
        self.nodes[loc] = Some(node.duplicate());
        assert(self.pages() =~= pages_after_write(before, loc as int, node@));
    }

    /// The number of slots.
    fn total_nodes(&self) -> (n: usize) {
        self.nodes.len()
    }
}

} // verus!
