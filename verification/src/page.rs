//! The byte encoding of one node in one page.
//!
//! A page starts with a tag byte: 1 for a header, 2 for a leaf, 3 for an
//! internal node; any other tag is an empty page. Integers are little
//! endian; keys and record components take four bytes, page indices eight,
//! and every list is preceded by its length in four bytes. What follows
//! the encoding is zero.

use vstd::prelude::*;
use crate::config::PAGE_SIZE;
use crate::node::{HeaderNode, InternalNode, LeafNode, Node, NodeView, view_of};
use crate::record::{Record, lemma_record_of_fields, record_of};

verus! {

/// The number of bytes the encoding of `n` takes.
pub open spec fn encoded_len(n: NodeView) -> nat {
    match n {
        NodeView::Header { root } => 9,
        NodeView::Leaf { keys, values, next } => 18 + 4 * keys.len() + 28 * values.len(),
        NodeView::Internal { keys, children } => 9 + 4 * keys.len() + 8 * children.len(),
    }
}

/// A node is legal for the store when its encoding fits in one page.
pub open spec fn node_fits(n: NodeView) -> bool {
    encoded_len(n) <= PAGE_SIZE
}

/// Byte `r` (of four, least significant first) of `x`.
pub open spec fn u32_byte(x: int, r: int) -> u8 {
    if r == 0 {
        (x % 0x100) as u8
    } else if r == 1 {
        (x / 0x100 % 0x100) as u8
    } else if r == 2 {
        (x / 0x1_0000 % 0x100) as u8
    } else {
        (x / 0x100_0000 % 0x100) as u8
    }
}

/// Byte `r` (of eight, least significant first) of `x`.
pub open spec fn u64_byte(x: int, r: int) -> u8 {
    if r < 4 {
        u32_byte(x % 0x1_0000_0000, r)
    } else {
        u32_byte(x / 0x1_0000_0000, r - 4)
    }
}

/// The two's complement bit pattern of `x`, as a number below 2^32.
pub open spec fn i32_bits(x: i32) -> int {
    if x < 0 {
        x + 0x1_0000_0000
    } else {
        x as int
    }
}

/// The signed integer with bit pattern `u`.
pub open spec fn bits_i32(u: int) -> i32 {
    if u >= 0x8000_0000 {
        (u - 0x1_0000_0000) as i32
    } else {
        u as i32
    }
}

/// The number in the four bytes of `s` from `at`.
pub open spec fn read_u32(s: Seq<u8>, at: int) -> int {
    s[at] + 0x100 * s[at + 1] + 0x1_0000 * s[at + 2] + 0x100_0000 * s[at + 3]
}

/// The signed integer in the four bytes of `s` from `at`.
pub open spec fn read_i32(s: Seq<u8>, at: int) -> i32 {
    bits_i32(read_u32(s, at))
}

/// The number in the eight bytes of `s` from `at`.
pub open spec fn read_u64(s: Seq<u8>, at: int) -> int {
    read_u32(s, at) + 0x1_0000_0000 * read_u32(s, at + 4)
}

/// The record in the 28 bytes of `s` from `at`.
pub open spec fn read_record(s: Seq<u8>, at: int) -> Record {
    record_of(Seq::new(7, |j: int| read_i32(s, at + 4 * j)))
}

/// The `n` keys in the bytes of `s` from `at`.
pub open spec fn read_keys(s: Seq<u8>, at: int, n: int) -> Seq<i32> {
    Seq::new(n as nat, |j: int| read_i32(s, at + 4 * j))
}

/// The `n` records in the bytes of `s` from `at`.
pub open spec fn read_values(s: Seq<u8>, at: int, n: int) -> Seq<Record> {
    Seq::new(n as nat, |j: int| read_record(s, at + 28 * j))
}

/// The `n` page indices in the bytes of `s` from `at`.
pub open spec fn read_children(s: Seq<u8>, at: int, n: int) -> Seq<usize> {
    Seq::new(n as nat, |j: int| read_u64(s, at + 8 * j) as usize)
}

/// Every one of the `n` page indices from `at` fits a `usize`.
pub open spec fn children_fit(s: Seq<u8>, at: int, n: int) -> bool {
    forall|j: int| 0 <= j < n ==> #[trigger] read_u64(s, at + 8 * j) <= usize::MAX
}

/// Byte `t` of the encoding of the successor of a leaf: a flag, then the page.
pub open spec fn next_byte(next: Option<usize>, t: int) -> u8 {
    match next {
        Some(p) => if t == 0 {
            1u8
        } else {
            u64_byte(p as int, t - 1)
        },
        None => 0u8,
    }
}

/// Byte `t` of the page that holds `n`.
pub open spec fn node_byte(n: NodeView, t: int) -> u8 {
    match n {
        NodeView::Header { root } => if t == 0 {
            1u8
        } else if t < 9 {
            u64_byte(root as int, t - 1)
        } else {
            0u8
        },
        NodeView::Leaf { keys, values, next } => {
            let a = 5 + 4 * keys.len();
            let b = a + 4 + 28 * values.len();
            if t == 0 {
                2u8
            } else if t < 5 {
                u32_byte(keys.len() as int, t - 1)
            } else if t < a {
                u32_byte(i32_bits(keys[(t - 5) / 4]), (t - 5) % 4)
            } else if t < a + 4 {
                u32_byte(values.len() as int, t - a)
            } else if t < b {
                u32_byte(
                    i32_bits(values[(t - a - 4) / 28].fields()[(t - a - 4) % 28 / 4]),
                    (t - a - 4) % 4,
                )
            } else if t < b + 9 {
                next_byte(next, t - b)
            } else {
                0u8
            }
        },
        NodeView::Internal { keys, children } => {
            let a = 5 + 4 * keys.len();
            let b = a + 4 + 8 * children.len();
            if t == 0 {
                3u8
            } else if t < 5 {
                u32_byte(keys.len() as int, t - 1)
            } else if t < a {
                u32_byte(i32_bits(keys[(t - 5) / 4]), (t - 5) % 4)
            } else if t < a + 4 {
                u32_byte(children.len() as int, t - a)
            } else if t < b {
                u64_byte(children[(t - a - 4) / 8] as int, (t - a - 4) % 8)
            } else {
                0u8
            }
        },
    }
}

/// The page that holds `n`: its encoding, then zeros.
pub open spec fn page_of(n: NodeView) -> Seq<u8> {
    Seq::new(PAGE_SIZE as nat, |t: int| node_byte(n, t))
}

/// A page of zeros.
pub open spec fn zero_page() -> Seq<u8> {
    Seq::new(PAGE_SIZE as nat, |t: int| 0u8)
}

/// What a block of bytes that starts with the tag of a leaf decodes to.
pub open spec fn decode_leaf(s: Seq<u8>) -> Option<NodeView> {
    let nk = read_u32(s, 1);
    if 9 + 4 * nk > s.len() {
        None
    } else {
        let nv = read_u32(s, 5 + 4 * nk);
        let at = 9 + 4 * nk + 28 * nv;
        if at + 9 > s.len() {
            None
        } else if s[at] == 0 {
            Some(
                NodeView::Leaf {
                    keys: read_keys(s, 5, nk),
                    values: read_values(s, 9 + 4 * nk, nv),
                    next: None,
                },
            )
        } else if s[at] == 1 && read_u64(s, at + 1) <= usize::MAX {
            Some(
                NodeView::Leaf {
                    keys: read_keys(s, 5, nk),
                    values: read_values(s, 9 + 4 * nk, nv),
                    next: Some(read_u64(s, at + 1) as usize),
                },
            )
        } else {
            None
        }
    }
}

/// What a block of bytes that starts with the tag of an internal node
/// decodes to.
pub open spec fn decode_internal(s: Seq<u8>) -> Option<NodeView> {
    let nk = read_u32(s, 1);
    if 9 + 4 * nk > s.len() {
        None
    } else {
        let nc = read_u32(s, 5 + 4 * nk);
        if 9 + 4 * nk + 8 * nc > s.len() || !children_fit(s, 9 + 4 * nk, nc) {
            None
        } else {
            Some(
                NodeView::Internal {
                    keys: read_keys(s, 5, nk),
                    children: read_children(s, 9 + 4 * nk, nc),
                },
            )
        }
    }
}

/// What a block of bytes decodes to: a node, or nothing where the tag is
/// not that of a node or the block is too short for what it announces.
pub open spec fn decode_spec(s: Seq<u8>) -> Option<NodeView> {
    if s.len() < 9 {
        None
    } else if s[0] == 1 {
        if read_u64(s, 1) <= usize::MAX {
            Some(NodeView::Header { root: read_u64(s, 1) as usize })
        } else {
            None
        }
    } else if s[0] == 2 {
        decode_leaf(s)
    } else if s[0] == 3 {
        decode_internal(s)
    } else {
        None
    }
}

/// Four bytes read back give the number they were made from.
pub proof fn lemma_read_u32(s: Seq<u8>, at: int, x: int)
    requires
        0 <= x < 0x1_0000_0000,
        0 <= at,
        at + 4 <= s.len(),
        forall|r: int| 0 <= r < 4 ==> s[at + r] == #[trigger] u32_byte(x, r),
    ensures
        read_u32(s, at) == x,
{
    assert(s[at + 0] == u32_byte(x, 0));
    assert(s[at + 1] == u32_byte(x, 1));
    assert(s[at + 2] == u32_byte(x, 2));
    assert(s[at + 3] == u32_byte(x, 3));
}

/// Eight bytes read back give the number they were made from.
pub proof fn lemma_read_u64(s: Seq<u8>, at: int, x: int)
    requires
        0 <= x < 0x1_0000_0000_0000_0000,
        0 <= at,
        at + 8 <= s.len(),
        forall|r: int| 0 <= r < 8 ==> s[at + r] == #[trigger] u64_byte(x, r),
    ensures
        read_u64(s, at) == x,
{
    assert forall|r: int| 0 <= r < 4 implies s[at + r] == #[trigger] u32_byte(
        x % 0x1_0000_0000,
        r,
    ) by {
        assert(s[at + r] == u64_byte(x, r));
    }
    lemma_read_u32(s, at, x % 0x1_0000_0000);
    assert forall|r: int| 0 <= r < 4 implies s[at + 4 + r] == #[trigger] u32_byte(
        x / 0x1_0000_0000,
        r,
    ) by {
        assert(s[at + (4 + r)] == u64_byte(x, 4 + r));
    }
    lemma_read_u32(s, at + 4, x / 0x1_0000_0000);
}

/// Four bytes read back give the signed integer they were made from.
pub proof fn lemma_read_i32(s: Seq<u8>, at: int, x: i32)
    requires
        0 <= at,
        at + 4 <= s.len(),
        forall|r: int| 0 <= r < 4 ==> s[at + r] == #[trigger] u32_byte(i32_bits(x), r),
    ensures
        read_i32(s, at) == x,
{
    lemma_read_u32(s, at, i32_bits(x));
}

/// The keys of a leaf or an internal node are read back from its page.
proof fn lemma_keys_round_trip(n: NodeView, keys: Seq<i32>)
    requires
        node_fits(n),
        n is Leaf && n->Leaf_keys == keys || n is Internal && n->Internal_keys == keys,
    ensures
        read_u32(page_of(n), 1) == keys.len(),
        read_keys(page_of(n), 5, keys.len() as int) == keys,
{
    let s = page_of(n);
    assert forall|r: int| 0 <= r < 4 implies s[1 + r] == #[trigger] u32_byte(keys.len() as int, r) by {
        assert(s[1 + r] == node_byte(n, 1 + r));
    }
    lemma_read_u32(s, 1, keys.len() as int);
    assert forall|j: int| 0 <= j < keys.len() implies read_i32(s, 5 + 4 * j) == keys[j] by {
        assert forall|r: int| 0 <= r < 4 implies s[5 + 4 * j + r] == #[trigger] u32_byte(
            i32_bits(keys[j]),
            r,
        ) by {
            assert(s[5 + 4 * j + r] == node_byte(n, 5 + 4 * j + r));
            assert((4 * j + r) / 4 == j && (4 * j + r) % 4 == r);
        }
        lemma_read_i32(s, 5 + 4 * j, keys[j]);
    }
    assert(read_keys(s, 5, keys.len() as int) =~= keys);
}

/// The records of a leaf are read back from its page.
proof fn lemma_values_round_trip(n: NodeView)
    requires
        node_fits(n),
        n is Leaf,
    ensures
        read_u32(page_of(n), 5 + 4 * (n->Leaf_keys.len() as int)) == n->Leaf_values.len(),
        read_values(page_of(n), 9 + 4 * (n->Leaf_keys.len() as int), n->Leaf_values.len() as int)
            == n->Leaf_values,
{
    let s = page_of(n);
    let values = n->Leaf_values;
    let a: int = 5 + 4 * (n->Leaf_keys.len() as int);
    assert forall|r: int| 0 <= r < 4 implies s[a + r] == #[trigger] u32_byte(values.len() as int, r) by {
        assert(s[a + r] == node_byte(n, a + r));
    }
    lemma_read_u32(s, a, values.len() as int);
    assert forall|j: int| 0 <= j < values.len() implies read_record(s, a + 4 + 28 * j)
        == values[j] by {
        let f = Seq::new(7, |u: int| read_i32(s, a + 4 + 28 * j + 4 * u));
        assert forall|u: int| 0 <= u < 7 implies read_i32(s, a + 4 + 28 * j + 4 * u)
            == values[j].fields()[u] by {
            assert forall|r: int| 0 <= r < 4 implies s[a + 4 + 28 * j + 4 * u + r]
                == #[trigger] u32_byte(i32_bits(values[j].fields()[u]), r) by {
                let t = a + 4 + 28 * j + 4 * u + r;
                let d = 28 * j + 4 * u + r;
                assert(s[t] == node_byte(n, t));
                assert(d / 28 == j && d % 28 == 4 * u + r);
                assert((4 * u + r) / 4 == u);
                assert(d % 4 == r);
            }
            lemma_read_i32(s, a + 4 + 28 * j + 4 * u, values[j].fields()[u]);
        }
        assert(f =~= values[j].fields());
        lemma_record_of_fields(values[j]);
    }
    assert(read_values(s, a + 4, values.len() as int) =~= values);
}

/// Child `j` of an internal node is read back from its page.
proof fn lemma_child_round_trip(n: NodeView, j: int)
    requires
        node_fits(n),
        n is Internal,
        0 <= j < n->Internal_children.len(),
    ensures
        read_u64(page_of(n), 9 + 4 * (n->Internal_keys.len() as int) + 8 * j)
            == n->Internal_children[j],
{
    let s = page_of(n);
    let children = n->Internal_children;
    let a: int = 5 + 4 * (n->Internal_keys.len() as int);
    let at = a + 4 + 8 * j;
    assert forall|r: int| 0 <= r < 8 implies s[at + r] == #[trigger] u64_byte(children[j] as int, r) by {
        let t = at + r;
        assert(0 <= t < PAGE_SIZE);
        assert(s[t] == node_byte(n, t));
        assert(t - a - 4 == 8 * j + r);
        assert((8 * j + r) / 8 == j);
        assert((8 * j + r) % 8 == r);
    }
    lemma_read_u64(s, at, children[j] as int);
}

/// The children of an internal node are read back from its page.
proof fn lemma_children_round_trip(n: NodeView)
    requires
        node_fits(n),
        n is Internal,
    ensures
        read_u32(page_of(n), 5 + 4 * (n->Internal_keys.len() as int)) == n->Internal_children.len(),
        children_fit(page_of(n), 9 + 4 * (n->Internal_keys.len() as int), n->Internal_children.len() as int),
        read_children(
            page_of(n),
            9 + 4 * (n->Internal_keys.len() as int),
            n->Internal_children.len() as int,
        ) == n->Internal_children,
{
    let s = page_of(n);
    let children = n->Internal_children;
    let a: int = 5 + 4 * (n->Internal_keys.len() as int);
    assert forall|r: int| 0 <= r < 4 implies s[a + r] == #[trigger] u32_byte(
        children.len() as int,
        r,
    ) by {
        assert(s[a + r] == node_byte(n, a + r));
    }
    lemma_read_u32(s, a, children.len() as int);
    assert forall|j: int| 0 <= j < children.len() implies #[trigger] read_u64(s, a + 4 + 8 * j)
        == children[j] by {
        lemma_child_round_trip(n, j);
    }
    assert(read_children(s, a + 4, children.len() as int) =~= children);
}

/// Decoding the page of a node that fits gives the node back.
pub proof fn lemma_round_trip(n: NodeView)
    requires
        node_fits(n),
    ensures
        decode_spec(page_of(n)) == Some(n),
{
    let s = page_of(n);
    match n {
        NodeView::Header { root } => {
            assert forall|r: int| 0 <= r < 8 implies s[1 + r] == #[trigger] u64_byte(root as int, r) by {
                assert(s[1 + r] == node_byte(n, 1 + r));
            }
            lemma_read_u64(s, 1, root as int);
        },
        NodeView::Leaf { keys, values, next } => {
            lemma_keys_round_trip(n, keys);
            lemma_values_round_trip(n);
            let at: int = 9 + 4 * (keys.len() as int) + 28 * (values.len() as int);
            assert(s[at] == node_byte(n, at));
            match next {
                Some(p) => {
                    assert forall|r: int| 0 <= r < 8 implies s[at + 1 + r] == #[trigger] u64_byte(
                        p as int,
                        r,
                    ) by {
                        assert(s[at + 1 + r] == node_byte(n, at + 1 + r));
                    }
                    lemma_read_u64(s, at + 1, p as int);
                },
                None => {},
            }
        },
        NodeView::Internal { keys, children } => {
            lemma_keys_round_trip(n, keys);
            lemma_children_round_trip(n);
        },
    }
}

/// A page of zeros holds no node.
pub proof fn lemma_zero_page_is_empty()
    ensures
        decode_spec(zero_page()) is None,
{
}

/// Byte `r` of the four bytes of `x`.
fn byte_of_u32(x: u32, r: usize) -> (b: u8)
    requires
        r < 4,
    ensures
        b == u32_byte(x as int, r as int),
{
    if r == 0 {
        (x % 0x100) as u8
    } else if r == 1 {
        (x / 0x100 % 0x100) as u8
    } else if r == 2 {
        (x / 0x1_0000 % 0x100) as u8
    } else {
        (x / 0x100_0000 % 0x100) as u8
    }
}

/// Byte `r` of the eight bytes of `x`.
fn byte_of_u64(x: u64, r: usize) -> (b: u8)
    requires
        r < 8,
    ensures
        b == u64_byte(x as int, r as int),
{
    if r < 4 {
        byte_of_u32((x % 0x1_0000_0000) as u32, r)
    } else {
        byte_of_u32((x / 0x1_0000_0000) as u32, r - 4)
    }
}

/// Byte `r` of the four bytes of the bit pattern of `x`.
fn byte_of_i32(x: i32, r: usize) -> (b: u8)
    requires
        r < 4,
    ensures
        b == u32_byte(i32_bits(x), r as int),
{
    let bits: u32 = if x < 0 {
        (x as i64 + 0x1_0000_0000) as u32
    } else {
        x as u32
    };
    byte_of_u32(bits, r)
}

/// Byte `t` of the page that holds `node`.
fn byte_at(node: &Node, t: usize) -> (b: u8)
    requires
        node_fits(node@),
        t < PAGE_SIZE,
    ensures
        b == node_byte(node@, t as int),
{
    match node {
        Node::Header(h) => {
            if t == 0 {
                1
            } else if t < 9 {
                byte_of_u64(h.root as u64, t - 1)
            } else {
                0
            }
        },
        Node::Leaf(l) => {
            let a = 5 + 4 * l.keys.len();
            let b = a + 4 + 28 * l.values.len();
            if t == 0 {
                2
            } else if t < 5 {
                byte_of_u32(l.keys.len() as u32, t - 1)
            } else if t < a {
                byte_of_i32(l.keys[(t - 5) / 4], (t - 5) % 4)
            } else if t < a + 4 {
                byte_of_u32(l.values.len() as u32, t - a)
            } else if t < b {
                let d = t - a - 4;
                let f = l.values[d / 28].to_fields();
                byte_of_i32(f[d % 28 / 4], d % 4)
            } else if t < b + 9 {
                match l.next {
                    Some(p) => if t == b {
                        1
                    } else {
                        byte_of_u64(p as u64, t - b - 1)
                    },
                    None => 0,
                }
            } else {
                0
            }
        },
        Node::Internal(n) => {
            let a = 5 + 4 * n.keys.len();
            let b = a + 4 + 8 * n.children.len();
            if t == 0 {
                3
            } else if t < 5 {
                byte_of_u32(n.keys.len() as u32, t - 1)
            } else if t < a {
                byte_of_i32(n.keys[(t - 5) / 4], (t - 5) % 4)
            } else if t < a + 4 {
                byte_of_u32(n.children.len() as u32, t - a)
            } else if t < b {
                let d = t - a - 4;
                byte_of_u64(n.children[d / 8] as u64, d % 8)
            } else {
                0
            }
        },
    }
}

/// Whether the encoding of `node` fits in one page.
pub fn fits_page(node: &Node) -> (r: bool)
    ensures
        r == node_fits(node@),
{
    match node {
        Node::Header(_) => true,
        Node::Leaf(l) => l.keys.len() <= PAGE_SIZE && l.values.len() <= PAGE_SIZE && 18 + 4
            * l.keys.len() + 28 * l.values.len() <= PAGE_SIZE,
        Node::Internal(n) => n.keys.len() <= PAGE_SIZE && n.children.len() <= PAGE_SIZE && 9 + 4
            * n.keys.len() + 8 * n.children.len() <= PAGE_SIZE,
    }
}

/// Encodes `node` into a page. A node whose encoding would not fit in one
/// page is refused.
pub fn encode_node(node: &Node) -> (r: Option<Vec<u8>>)
    ensures
        r is Some <==> node_fits(node@),
        r matches Some(p) ==> p@ == page_of(node@),
{
    if !fits_page(node) {
        return None;
    }
    let mut page: Vec<u8> = Vec::with_capacity(PAGE_SIZE);
    let mut t: usize = 0;
    while t < PAGE_SIZE
        invariant
            node_fits(node@),
            t <= PAGE_SIZE,
            page@.len() == t,
            forall|u: int| 0 <= u < t ==> #[trigger] page@[u] == node_byte(node@, u),
        decreases PAGE_SIZE - t,
    {
        page.push(byte_at(node, t));
        t += 1;
    }
    assert(page@ =~= page_of(node@));
    Some(page)
}

/// The number in the four bytes of `s` from `at`.
fn get_u32(s: &[u8], at: usize) -> (x: u32)
    requires
        at + 4 <= s@.len(),
    ensures
        x == read_u32(s@, at as int),
{
    s[at] as u32 + 0x100 * (s[at + 1] as u32) + 0x1_0000 * (s[at + 2] as u32) + 0x100_0000 * (s[at
        + 3] as u32)
}

/// The signed integer in the four bytes of `s` from `at`.
fn get_i32(s: &[u8], at: usize) -> (x: i32)
    requires
        at + 4 <= s@.len(),
    ensures
        x == read_i32(s@, at as int),
{
    let u = get_u32(s, at);
    if u >= 0x8000_0000 {
        (u as i64 - 0x1_0000_0000) as i32
    } else {
        u as i32
    }
}

/// The number in the eight bytes of `s` from `at`.
fn get_u64(s: &[u8], at: usize) -> (x: u64)
    requires
        at + 8 <= s@.len(),
    ensures
        x == read_u64(s@, at as int),
{
    let _ = s.len();
    get_u32(s, at) as u64 + 0x1_0000_0000 * (get_u32(s, at + 4) as u64)
}

/// The record in the 28 bytes of `s` from `at`.
fn get_record(s: &[u8], at: usize) -> (r: Record)
    requires
        at + 28 <= s@.len(),
    ensures
        r == read_record(s@, at as int),
{
    let _ = s.len();
    let f = [
        get_i32(s, at),
        get_i32(s, at + 4),
        get_i32(s, at + 8),
        get_i32(s, at + 12),
        get_i32(s, at + 16),
        get_i32(s, at + 20),
        get_i32(s, at + 24),
    ];
    let r = Record::from_fields(f);
    proof {
        assert(f@ =~= Seq::new(7, |j: int| read_i32(s@, at + 4 * j)));
        lemma_record_of_fields(r);
    }
    r
}

/// The `n` keys in the bytes of `s` from `at`.
fn get_keys(s: &[u8], at: usize, n: usize) -> (keys: Vec<i32>)
    requires
        at + 4 * n <= s@.len(),
    ensures
        keys@ == read_keys(s@, at as int, n as int),
{
    let _ = s.len();
    let mut keys: Vec<i32> = Vec::new();
    let mut i: usize = 0;
    while i < n
        invariant
            i <= n,
            at + 4 * n <= s@.len() <= usize::MAX,
            keys@ == read_keys(s@, at as int, i as int),
        decreases n - i,
    {
        keys.push(get_i32(s, at + 4 * i));
        i += 1;
        assert(keys@ =~= read_keys(s@, at as int, i as int));
    }
    keys
}

/// Decodes the leaf in a block that starts with the tag of a leaf.
fn decode_leaf_node(s: &[u8]) -> (r: Option<Node>)
    requires
        s@.len() >= 9,
    ensures
        view_of(r) == decode_leaf(s@),
{
    let len = s.len() as u64;
    let nk = get_u32(s, 1) as u64;
    if 9 + 4 * nk > len {
        return None;
    }
    let nv = get_u32(s, 5 + 4 * (nk as usize)) as u64;
    if 18 + 4 * nk + 28 * nv > len {
        return None;
    }
    let n_keys = nk as usize;
    let n_values = nv as usize;
    let vals_at = 9 + 4 * n_keys;
    let at = vals_at + 28 * n_values;
    let keys = get_keys(s, 5, n_keys);
    let mut values: Vec<Record> = Vec::new();
    let mut i: usize = 0;
    while i < n_values
        invariant
            i <= n_values,
            vals_at + 28 * n_values <= s@.len() <= usize::MAX,
            values@ == read_values(s@, vals_at as int, i as int),
        decreases n_values - i,
    {
        values.push(get_record(s, vals_at + 28 * i));
        i += 1;
        assert(values@ =~= read_values(s@, vals_at as int, i as int));
    }
    if s[at] == 0 {
        Some(Node::Leaf(LeafNode { keys, values, next: None }))
    } else if s[at] == 1 {
        let p = get_u64(s, at + 1);
        if p > usize::MAX as u64 {
            None
        } else {
            Some(Node::Leaf(LeafNode { keys, values, next: Some(p as usize) }))
        }
    } else {
        None
    }
}

/// Decodes the internal node in a block that starts with the tag of one.
fn decode_internal_node(s: &[u8]) -> (r: Option<Node>)
    requires
        s@.len() >= 9,
    ensures
        view_of(r) == decode_internal(s@),
{
    let len = s.len() as u64;
    let nk = get_u32(s, 1) as u64;
    if 9 + 4 * nk > len {
        return None;
    }
    let nc = get_u32(s, 5 + 4 * (nk as usize)) as u64;
    if 9 + 4 * nk + 8 * nc > len {
        return None;
    }
    let n_keys = nk as usize;
    let n_children = nc as usize;
    let at = 9 + 4 * n_keys;
    let keys = get_keys(s, 5, n_keys);
    let mut children: Vec<usize> = Vec::new();
    let mut i: usize = 0;
    while i < n_children
        invariant
            i <= n_children,
            at + 8 * n_children <= s@.len() <= usize::MAX,
            n_keys == read_u32(s@, 1),
            n_children == read_u32(s@, 5 + 4 * n_keys),
            at == 9 + 4 * n_keys,
            children@ == read_children(s@, at as int, i as int),
            children_fit(s@, at as int, i as int),
        decreases n_children - i,
    {
        let p = get_u64(s, at + 8 * i);
        if p > usize::MAX as u64 {
            assert(!children_fit(s@, at as int, n_children as int)) by {
                assert(read_u64(s@, at as int + 8 * (i as int)) > usize::MAX);
            }
            return None;
        }
        children.push(p as usize);
        i += 1;
        assert(children@ =~= read_children(s@, at as int, i as int));
    }
    Some(Node::Internal(InternalNode { keys, children }))
}

/// Decodes a block of bytes: the node it holds, or nothing for an empty or
/// malformed block.
pub fn decode_node(s: &[u8]) -> (r: Option<Node>)
    ensures
        view_of(r) == decode_spec(s@),
{
    if s.len() < 9 {
        None
    } else if s[0] == 1 {
        let root = get_u64(s, 1);
        if root > usize::MAX as u64 {
            None
        } else {
            Some(Node::Header(HeaderNode { root: root as usize }))
        }
    } else if s[0] == 2 {
        decode_leaf_node(s)
    } else if s[0] == 3 {
        decode_internal_node(s)
    } else {
        None
    }
}

} // verus!
