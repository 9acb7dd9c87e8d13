//! The shape of a B+-tree laid out over pages: what it means for the pages
//! below a root to be well formed, and which record they hold for a key.

use vstd::prelude::*;
use crate::config::{MAX_ORDER, MAX_PAGES};
use crate::node::NodeView;
use crate::record::Record;
use crate::storage::page_at;

verus! {

/// The pages of a store: for each index what that page decodes to.
pub type Pages = Seq<Option<NodeView>>;

/// The least key, as a lower bound that every key meets.
pub open spec fn key_floor() -> int {
    -0x8000_0000
}

/// One past the greatest key, as an upper bound that every key stays under.
pub open spec fn key_ceiling() -> int {
    0x8000_0000
}

/// Walks right from slot `i` while `key` is at least the key in the slot.
pub open spec fn route_from(keys: Seq<i32>, key: i32, i: int) -> int
    decreases keys.len() - i,
{
    if 0 <= i < keys.len() && key >= keys[i] {
        route_from(keys, key, i + 1)
    } else {
        i
    }
}

/// The routing index of `key` among separator `keys`: the first slot whose
/// key is greater than `key`, or the number of keys if there is none.
pub open spec fn route(keys: Seq<i32>, key: i32) -> int {
    route_from(keys, key, 0)
}

/// `r` is the first slot of `keys` whose key is greater than `key`.
pub open spec fn is_route(keys: Seq<i32>, key: i32, r: int) -> bool {
    &&& 0 <= r <= keys.len()
    &&& forall|j: int| 0 <= j < r ==> #[trigger] keys[j] <= key
    &&& r < keys.len() ==> key < keys[r]
}

/// Keys are strictly ascending.
pub open spec fn keys_sorted(keys: Seq<i32>) -> bool {
    forall|i: int, j: int| 0 <= i < j < keys.len() ==> keys[i] < keys[j]
}

/// Every key lies in the half-open range from `lo` to `hi`.
pub open spec fn keys_within(keys: Seq<i32>, lo: int, hi: int) -> bool {
    forall|i: int| 0 <= i < keys.len() ==> lo <= #[trigger] keys[i] < hi
}

/// Lower bound of the keys below child `i` of a node with separators `keys`.
pub open spec fn child_lo(keys: Seq<i32>, lo: int, i: int) -> int {
    if i <= 0 {
        lo
    } else {
        keys[i - 1] as int
    }
}

/// Upper bound of the keys below child `i` of a node with separators `keys`.
pub open spec fn child_hi(keys: Seq<i32>, hi: int, i: int) -> int {
    if i >= keys.len() {
        hi
    } else {
        keys[i] as int
    }
}

/// The record a leaf holds for `key`, if any.
pub open spec fn leaf_get(keys: Seq<i32>, values: Seq<Record>, key: i32) -> Option<Record> {
    if exists|i: int| 0 <= i < keys.len() && #[trigger] keys[i] == key {
        Some(values[choose|i: int| 0 <= i < keys.len() && #[trigger] keys[i] == key])
    } else {
        None
    }
}

/// The leftmost leaf page below `loc`, `h` levels down.
#[verifier::opaque]
pub open spec fn first_leaf(pages: Pages, loc: usize, h: nat) -> usize
    decreases h,
{
    if h == 0 {
        loc
    } else {
        match page_at(pages, loc as int) {
            Some(NodeView::Internal { keys, children }) => if children.len() > 0 {
                first_leaf(pages, children[0], (h - 1) as nat)
            } else {
                loc
            },
            _ => loc,
        }
    }
}

/// The successor that the rightmost leaf below child `i` must name: the
/// leftmost leaf of the next child, or what follows the whole node.
#[verifier::opaque]
pub open spec fn child_next(
    pages: Pages,
    children: Seq<usize>,
    h: nat,
    nxt: Option<usize>,
    i: int,
) -> Option<usize> {
    if i + 1 < children.len() {
        Some(first_leaf(pages, children[i + 1], h))
    } else {
        nxt
    }
}

/// Page `p` belongs to the subtree of height `h` rooted at page `loc`.
#[verifier::opaque]
pub open spec fn in_subtree(pages: Pages, loc: usize, h: nat, p: usize) -> bool
    decreases h,
{
    p == loc || (h > 0 && match page_at(pages, loc as int) {
        Some(NodeView::Internal { keys, children }) => exists|i: int|
            0 <= i < children.len() && in_subtree(pages, #[trigger] children[i], (h - 1) as nat, p),
        _ => false,
    })
}

/// Each child is the top of a well-formed subtree of height `h` whose keys
/// lie between the separators around it and whose last leaf is followed by
/// the first leaf of the next child.
pub open spec fn children_wf(
    pages: Pages,
    b: nat,
    keys: Seq<i32>,
    children: Seq<usize>,
    h: nat,
    lo: int,
    hi: int,
    nxt: Option<usize>,
) -> bool
    decreases h, 2nat,
{
    forall|i: int|
        0 <= i < children.len() ==> subtree_wf(
            pages,
            b,
            #[trigger] children[i],
            h,
            child_lo(keys, lo, i),
            child_hi(keys, hi, i),
            child_next(pages, children, h, nxt, i),
        )
}

/// No child's subtree holds page `loc`.
pub open spec fn children_exclude(pages: Pages, children: Seq<usize>, h: nat, loc: usize) -> bool {
    forall|i: int| 0 <= i < children.len() ==> !in_subtree(pages, #[trigger] children[i], h, loc)
}

/// No page belongs to the subtrees of two children.
pub open spec fn children_disjoint(pages: Pages, children: Seq<usize>, h: nat) -> bool {
    forall|i: int, j: int, p: usize|
        0 <= i < j < children.len() && #[trigger] in_subtree(pages, children[i], h, p)
            ==> !#[trigger] in_subtree(pages, children[j], h, p)
}

/// `node`, standing at page `loc`, is a legal top of a subtree of height `h`
/// with at most `cap` keys of its own, whose keys lie in `lo..hi` and whose
/// last leaf is followed by `nxt`; everything below it is well formed for
/// capacity `b`.
pub open spec fn node_ok(
    pages: Pages,
    b: nat,
    cap: nat,
    node: NodeView,
    loc: usize,
    h: nat,
    lo: int,
    hi: int,
    nxt: Option<usize>,
) -> bool
    decreases h, 0nat,
{
    match node {
        NodeView::Leaf { keys, values, next } => {
            &&& h == 0
            &&& keys.len() == values.len()
            &&& keys.len() <= cap
            &&& keys_sorted(keys)
            &&& keys_within(keys, lo, hi)
            &&& forall|i: int| 0 <= i < keys.len() ==> (#[trigger] values[i]).key == keys[i]
            &&& next == nxt
        },
        NodeView::Internal { keys, children } => {
            &&& h > 0
            &&& children.len() == keys.len() + 1
            &&& keys.len() <= cap
            &&& keys_sorted(keys)
            &&& keys_within(keys, lo, hi)
            &&& children_wf(pages, b, keys, children, (h - 1) as nat, lo, hi, nxt)
            &&& children_exclude(pages, children, (h - 1) as nat, loc)
            &&& children_disjoint(pages, children, (h - 1) as nat)
        },
        NodeView::Header { .. } => false,
    }
}

/// The pages below `loc` form a well-formed subtree of height `h` for node
/// capacity `b`: keys ascend, arities agree, every key below child `i` lies
/// between the separators around it, all leaves sit `h` levels down, no page
/// is reached twice, and the leaves are chained in key order up to `nxt`.
#[verifier::opaque]
pub open spec fn subtree_wf(
    pages: Pages,
    b: nat,
    loc: usize,
    h: nat,
    lo: int,
    hi: int,
    nxt: Option<usize>,
) -> bool
    decreases h, 1nat,
{
    &&& loc < pages.len()
    &&& pages[loc as int] is Some
    &&& node_ok(pages, b, b, pages[loc as int]->0, loc, h, lo, hi, nxt)
}

/// The record that a lookup of `key` finds when it starts at `node` and
/// descends `h` levels by the routing rule.
pub open spec fn node_get(pages: Pages, node: NodeView, h: nat, key: i32) -> Option<Record>
    decreases h, 0nat,
{
    match node {
        NodeView::Leaf { keys, values, next } => leaf_get(keys, values, key),
        NodeView::Internal { keys, children } => if h > 0 && route(keys, key) < children.len() {
            subtree_get(pages, children[route(keys, key)], (h - 1) as nat, key)
        } else {
            None
        },
        NodeView::Header { .. } => None,
    }
}

/// The record that a lookup of `key` finds below page `loc`.
#[verifier::opaque]
pub open spec fn subtree_get(pages: Pages, loc: usize, h: nat, key: i32) -> Option<Record>
    decreases h, 1nat,
{
    match page_at(pages, loc as int) {
        Some(node) => node_get(pages, node, h, key),
        None => None,
    }
}

/// A whole tree: the subtree below `root` spans every key and its last leaf
/// has no successor.
pub open spec fn tree_wf(pages: Pages, b: nat, root: usize, h: nat) -> bool {
    subtree_wf(pages, b, root, h, key_floor(), key_ceiling(), None)
}

/// The key-to-record map that the tree below `root` holds.
pub open spec fn tree_map(pages: Pages, root: usize, h: nat) -> Map<i32, Record> {
    Map::new(
        |k: i32| subtree_get(pages, root, h, k) is Some,
        |k: i32| subtree_get(pages, root, h, k)->0,
    )
}

/// The pages of a store hold a tree for node capacity `b`: page 0 is the
/// header naming `root`, and the pages below `root` are a well-formed tree
/// of some height.
pub open spec fn store_wf(pages: Pages, b: nat, root: usize) -> bool {
    &&& 1 <= b <= MAX_ORDER
    &&& 0 < pages.len() <= MAX_PAGES
    &&& pages[0] == Some(NodeView::Header { root })
    &&& exists|h: nat| tree_wf(pages, b, root, h)
}

/// What a map holds for `k`, if anything.
pub open spec fn lookup(m: Map<i32, Record>, k: i32) -> Option<Record> {
    if m.contains_key(k) {
        Some(m[k])
    } else {
        None
    }
}

/// What a lookup of `k` finds after `rec` was stored under `key`, given what
/// it found before.
pub open spec fn updated(before: Option<Record>, k: i32, key: i32, rec: Record) -> Option<Record> {
    if k == key {
        Some(rec)
    } else {
        before
    }
}

} // verus!
