//! A page store over a flat image of bytes: page `i` is the `PAGE_SIZE`
//! bytes from offset `i * PAGE_SIZE`. This is the layout of a backing file.

use vstd::prelude::*;
use crate::config::{MAX_PAGES, PAGE_SIZE, bump, bumped};
use crate::node::{Node, NodeView, copy_range};
use crate::page::{
    decode_node, decode_spec, encode_node, lemma_round_trip, lemma_zero_page_is_empty, node_fits,
    page_of, zero_page,
};
use crate::storage::{Storage, pages_after_write};

verus! {

/// The bytes of page `i` of an image.
pub open spec fn page_bytes(image: Seq<u8>, i: int) -> Seq<u8> {
    image.subrange(i * PAGE_SIZE, i * PAGE_SIZE + PAGE_SIZE)
}

/// The pages of an image: as many as fit whole in it, each decoded.
pub open spec fn pages_of_image(image: Seq<u8>) -> Seq<Option<NodeView>> {
    Seq::new((image.len() / PAGE_SIZE as nat) as nat, |i: int| decode_spec(page_bytes(image, i)))
}

/// A page store that keeps the byte image of its pages and counts the
/// pages it read and wrote.
pub struct NodeStorage {
    pub bytes: Vec<u8>,
    pub page_reads: usize,
    pub page_writes: usize,
}

impl NodeStorage {
    /// An empty store.
    pub fn new() -> (s: Self)
        ensures
            s.bytes@ == Seq::<u8>::empty(),
            s.pages() == Seq::<Option<NodeView>>::empty(),
            s.page_reads == 0,
            s.page_writes == 0,
    {
        let s = NodeStorage { bytes: Vec::new(), page_reads: 0, page_writes: 0 };
        assert(s.pages() =~= Seq::<Option<NodeView>>::empty());
        s
    }

    /// A store over an existing image, such as the content of a file.
    pub fn from_bytes(bytes: Vec<u8>) -> (s: Self)
        ensures
            s.bytes@ == bytes@,
            s.page_reads == 0,
            s.page_writes == 0,
    {
        NodeStorage { bytes, page_reads: 0, page_writes: 0 }
    }

    /// Gives the image back.
    pub fn into_bytes(self) -> (bytes: Vec<u8>)
        ensures
            bytes@ == self.bytes@,
    {
        self.bytes
    }

    /// The image of the store.
    pub fn as_bytes(&self) -> (bytes: &Vec<u8>)
        ensures
            bytes@ == self.bytes@,
    {
        &self.bytes
    }

    /// The number of pages in the store.
    pub fn num_nodes(&self) -> (n: usize)
        ensures
            n == self.pages().len(),
    {
        self.bytes.len() / PAGE_SIZE
    }

    /// Writes `node` to a new page at the end of the store and returns the
    /// index of that page.
    pub fn append_node(&mut self, node: &Node) -> (index: usize)
        requires
            old(self).pages().len() < MAX_PAGES,
            node_fits(node@),
        ensures
            index == old(self).pages().len(),
            final(self).pages() == old(self).pages().push(Some(node@)),
            final(self).page_reads == old(self).page_reads,
            final(self).page_writes == bumped(old(self).page_writes),
    {
        let index = self.num_nodes();
        self.write_node(index, node);
        assert(self.pages() =~= old(self).pages().push(Some(node@)));
        index
    }
}

/// Page `i` of an image that agrees with another on the bytes of that page
/// decodes alike in both.
proof fn lemma_same_page(a: Seq<u8>, b: Seq<u8>, i: int)
    requires
        0 <= i,
        i * PAGE_SIZE + PAGE_SIZE <= a.len(),
        i * PAGE_SIZE + PAGE_SIZE <= b.len(),
        forall|t: int| i * PAGE_SIZE <= t < i * PAGE_SIZE + PAGE_SIZE ==> a[t] == b[t],
    ensures
        page_bytes(a, i) == page_bytes(b, i),
{
    assert(page_bytes(a, i) =~= page_bytes(b, i));
}

/// An image in which page `loc` was overwritten with the page of `n`, after
/// it was cut back to whole pages and filled up with zeros where `loc` lay
/// past its end, has the pages it had but for page `loc`, which holds `n`,
/// and the pages gained before it, which are empty.
proof fn lemma_image_written(before: Seq<u8>, after: Seq<u8>, loc: int, n: NodeView)
    requires
        node_fits(n),
        0 <= loc < MAX_PAGES,
        after.len() == (if loc < before.len() / PAGE_SIZE as nat {
            before.len() as int
        } else {
            (loc + 1) * PAGE_SIZE
        }),
        forall|t: int|
            loc * PAGE_SIZE <= t < loc * PAGE_SIZE + PAGE_SIZE ==> #[trigger] after[t] == page_of(
                n,
            )[t - loc * PAGE_SIZE],
        forall|t: int|
            0 <= t < after.len() && !(loc * PAGE_SIZE <= t < loc * PAGE_SIZE + PAGE_SIZE)
                ==> #[trigger] after[t] == (if t < (before.len() / PAGE_SIZE as nat) * PAGE_SIZE
                || loc < before.len() / PAGE_SIZE as nat {
                before[t]
            } else {
                0u8
            }),
    ensures
        pages_of_image(after) == pages_after_write(pages_of_image(before), loc, n),
{
    let total = (before.len() / PAGE_SIZE as nat) as int;
    let want = pages_after_write(pages_of_image(before), loc, n);
    assert(pages_of_image(after).len() == want.len());
    assert forall|i: int| 0 <= i < want.len() implies #[trigger] pages_of_image(after)[i]
        == want[i] by {
        if i == loc {
            lemma_round_trip(n);
            assert(page_bytes(after, loc) =~= page_of(n));
        } else if i < total {
            lemma_same_page(after, before, i);
        } else {
            lemma_zero_page_is_empty();
            assert(page_bytes(after, i) =~= zero_page());
        }
    }
    assert(pages_of_image(after) =~= want);
}

impl Storage for NodeStorage {
    /// What each whole page of the image decodes to.
    open spec fn pages(&self) -> Seq<Option<NodeView>> {
        pages_of_image(self.bytes@)
    }

    /// Decodes page `loc` of the image; nothing for a page past the end.
    /// Every read is counted, whatever it finds.
    fn read_node(&mut self, loc: usize) -> (r: Option<Node>)
        ensures
            final(self).bytes@ == old(self).bytes@,
            final(self).page_writes == old(self).page_writes,
            final(self).page_reads == bumped(old(self).page_reads),
    {
        self.page_reads = bump(self.page_reads);
        let total = self.bytes.len() / PAGE_SIZE;
        if loc >= total {
            return None;
        }
        let off = loc * PAGE_SIZE;
        let page = copy_range(&self.bytes, off, off + PAGE_SIZE);
        decode_node(page.as_slice())
    }

    /// Encodes `node` into page `loc` of the image. Where `loc` lies past
    /// the end, the image is cut back to whole pages and filled up with
    /// zeros first. The write is counted.
    fn write_node(&mut self, loc: usize, node: &Node)
        ensures
            final(self).page_reads == old(self).page_reads,
            final(self).page_writes == bumped(old(self).page_writes),
    {
        let ghost before = self.bytes@;
        let total = self.bytes.len() / PAGE_SIZE;
        let off = loc * PAGE_SIZE;
        match encode_node(node) {
            Some(page) => {
                if loc >= total {
                    self.bytes.truncate(total * PAGE_SIZE);
                    while self.bytes.len() < off + PAGE_SIZE
                        invariant
                            off == loc * PAGE_SIZE,
                            loc < MAX_PAGES,
                            total * PAGE_SIZE <= self.bytes@.len() <= off + PAGE_SIZE,
                            total * PAGE_SIZE <= before.len(),
                            self.page_reads == old(self).page_reads,
                            self.page_writes == old(self).page_writes,
                            forall|t: int|
                                0 <= t < total * PAGE_SIZE ==> #[trigger] self.bytes@[t] == before[t],
                            forall|t: int|
                                total * PAGE_SIZE <= t < self.bytes@.len() ==> #[trigger] self.bytes@[t]
                                    == 0,
                        decreases off + PAGE_SIZE - self.bytes@.len(),
                    {
                        self.bytes.push(0);
                    }
                }
                let ghost grown = self.bytes@;
                let mut t: usize = 0;
                while t < PAGE_SIZE
                    invariant
                        t <= PAGE_SIZE,
                        off == loc * PAGE_SIZE,
                        page@.len() == PAGE_SIZE,
                        self.bytes@.len() == grown.len(),
                        off + PAGE_SIZE <= grown.len(),
                        forall|u: int|
                            0 <= u < grown.len() && !(off <= u < off + t) ==> #[trigger] self.bytes@[u]
                                == grown[u],
                        forall|u: int| off <= u < off + t ==> #[trigger] self.bytes@[u] == page@[u - off],
                        self.page_reads == old(self).page_reads,
                        self.page_writes == old(self).page_writes,
                    decreases PAGE_SIZE - t,
                {
                    self.bytes.set(off + t, page[t]);
                    t += 1;
                }
                self.page_writes = bump(self.page_writes);
                proof {
                    lemma_image_written(before, self.bytes@, loc as int, node@);
                }
            },
            None => {
                assert(false);
            },
        }
    }

    /// The number of whole pages in the image.
    fn total_nodes(&self) -> (n: usize) {
        self.bytes.len() / PAGE_SIZE
    }
}

} // verus!
