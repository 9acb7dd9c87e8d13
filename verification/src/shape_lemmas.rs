//! Facts about well-formed subtrees that hold whatever the tree does next.

use vstd::prelude::*;
use crate::node::NodeView;
use crate::shape::{
    Pages, child_hi, child_lo, child_next, children_wf, first_leaf, in_subtree, is_route,
    keys_sorted, leaf_get, node_get, node_ok, route, route_from, subtree_get, subtree_wf,
};
use crate::record::Record;
use crate::storage::page_at;

verus! {

/// Walking right from a slot that every earlier key lets pass ends at the
/// routing index.
pub proof fn lemma_route_from(keys: Seq<i32>, key: i32, i: int)
    requires
        0 <= i <= keys.len(),
        forall|j: int| 0 <= j < i ==> #[trigger] keys[j] <= key,
    ensures
        is_route(keys, key, route_from(keys, key, i)),
    decreases keys.len() - i,
{
    if i < keys.len() && key >= keys[i] {
        lemma_route_from(keys, key, i + 1);
    }
}

/// The routing index is the first slot whose key exceeds `key`.
pub proof fn lemma_route(keys: Seq<i32>, key: i32)
    ensures
        is_route(keys, key, route(keys, key)),
{
    lemma_route_from(keys, key, 0);
}

/// Only one slot is the first whose key exceeds `key`.
pub proof fn lemma_route_unique(keys: Seq<i32>, key: i32, r: int)
    requires
        is_route(keys, key, r),
    ensures
        r == route(keys, key),
{
    lemma_route(keys, key);
    let q = route(keys, key);
    if r < q {
        assert(keys[r] <= key);
    } else if q < r {
        assert(keys[q] <= key);
    }
}

/// Every page of a well-formed subtree lies in the store and holds a leaf
/// or an internal node.
pub proof fn lemma_subtree_pages(
    pages: Pages,
    b: nat,
    loc: usize,
    h: nat,
    lo: int,
    hi: int,
    nxt: Option<usize>,
    p: usize,
)
    requires
        subtree_wf(pages, b, loc, h, lo, hi, nxt),
        in_subtree(pages, loc, h, p),
    ensures
        p < pages.len(),
        pages[p as int] is Some,
        !(pages[p as int]->0 is Header),
    decreases h,
{
    reveal(subtree_wf);
    reveal(in_subtree);
    reveal(subtree_get);
    reveal(first_leaf);
    if p != loc {
        match pages[loc as int]->0 {
            NodeView::Internal { keys, children } => {
                let i = choose|i: int|
                    0 <= i < children.len() && in_subtree(
                        pages,
                        #[trigger] children[i],
                        (h - 1) as nat,
                        p,
                    );
                lemma_subtree_pages(
                    pages,
                    b,
                    children[i],
                    (h - 1) as nat,
                    child_lo(keys, lo, i),
                    child_hi(keys, hi, i),
                    child_next(pages, children, (h - 1) as nat, nxt, i),
                    p,
                );
            },
            _ => {},
        }
    }
}

/// The pages `q` agrees with `pages` on every page of the subtree at `loc`.
pub open spec fn same_below(pages: Pages, q: Pages, loc: usize, h: nat) -> bool {
    forall|p: usize| #[trigger]
        in_subtree(pages, loc, h, p) ==> p < q.len() && q[p as int] == pages[p as int]
}

/// A well-formed subtree is untouched by changes to pages outside it: it
/// stays well formed, spans the same pages, starts at the same leaf and
/// finds the same records.
pub proof fn lemma_frame(
    pages: Pages,
    q: Pages,
    b: nat,
    loc: usize,
    h: nat,
    lo: int,
    hi: int,
    nxt: Option<usize>,
)
    requires
        subtree_wf(pages, b, loc, h, lo, hi, nxt),
        same_below(pages, q, loc, h),
    ensures
        subtree_wf(q, b, loc, h, lo, hi, nxt),
        forall|p: usize| in_subtree(q, loc, h, p) == in_subtree(pages, loc, h, p),
        first_leaf(q, loc, h) == first_leaf(pages, loc, h),
        forall|k: i32| subtree_get(q, loc, h, k) == subtree_get(pages, loc, h, k),
    decreases h,
{
    reveal(subtree_wf);
    reveal(in_subtree);
    reveal(subtree_get);
    reveal(first_leaf);
    assert(in_subtree(pages, loc, h, loc));
    assert(q[loc as int] == pages[loc as int]);
    match pages[loc as int]->0 {
        NodeView::Internal { keys, children } => {
            let hc = (h - 1) as nat;
            assert forall|i: int| 0 <= i < children.len() implies {
                &&& subtree_wf(
                    q,
                    b,
                    #[trigger] children[i],
                    hc,
                    child_lo(keys, lo, i),
                    child_hi(keys, hi, i),
                    child_next(pages, children, hc, nxt, i),
                )
                &&& forall|p: usize| in_subtree(q, children[i], hc, p) == in_subtree(pages, children[i], hc, p)
                &&& first_leaf(q, children[i], hc) == first_leaf(pages, children[i], hc)
                &&& forall|k: i32| subtree_get(q, children[i], hc, k) == subtree_get(pages, children[i], hc, k)
            } by {
                assert forall|p: usize| #[trigger] in_subtree(pages, children[i], hc, p) implies p
                    < q.len() && q[p as int] == pages[p as int] by {
                    assert(in_subtree(pages, loc, h, p));
                }
                lemma_frame(
                    pages,
                    q,
                    b,
                    children[i],
                    hc,
                    child_lo(keys, lo, i),
                    child_hi(keys, hi, i),
                    child_next(pages, children, hc, nxt, i),
                );
            }
            assert forall|i: int| 0 <= i < children.len() implies child_next(
                q,
                children,
                hc,
                nxt,
                i,
            ) == child_next(pages, children, hc, nxt, i) by {
                lemma_child_next(q, children, hc, nxt, i);
                lemma_child_next(pages, children, hc, nxt, i);
                if i + 1 < children.len() {
                    assert(first_leaf(q, children[i + 1], hc) == first_leaf(pages, children[i + 1], hc));
                }
            }
            assert forall|p: usize| in_subtree(q, loc, h, p) == in_subtree(pages, loc, h, p) by {
                if p != loc {
                    if in_subtree(pages, loc, h, p) {
                        let i = choose|i: int|
                            0 <= i < children.len() && in_subtree(pages, #[trigger] children[i], hc, p);
                        assert(in_subtree(q, children[i], hc, p));
                    }
                    if in_subtree(q, loc, h, p) {
                        let i = choose|i: int|
                            0 <= i < children.len() && in_subtree(q, #[trigger] children[i], hc, p);
                        assert(in_subtree(pages, children[i], hc, p));
                    }
                }
            }
            assert(first_leaf(q, children[0], hc) == first_leaf(pages, children[0], hc));
            assert forall|k: i32| subtree_get(q, loc, h, k) == subtree_get(pages, loc, h, k) by {
                lemma_route(keys, k);
                let r = route(keys, k);
                assert(subtree_get(q, children[r], hc, k) == subtree_get(pages, children[r], hc, k));
            }
            assert(node_ok(q, b, b, q[loc as int]->0, loc, h, lo, hi, nxt));
        },
        _ => {},
    }
}

/// A page is the root of well-formed subtrees of one height only.
pub proof fn lemma_height_unique(
    pages: Pages,
    b: nat,
    loc: usize,
    h1: nat,
    h2: nat,
    lo1: int,
    hi1: int,
    nxt1: Option<usize>,
    lo2: int,
    hi2: int,
    nxt2: Option<usize>,
)
    requires
        subtree_wf(pages, b, loc, h1, lo1, hi1, nxt1),
        subtree_wf(pages, b, loc, h2, lo2, hi2, nxt2),
    ensures
        h1 == h2,
    decreases h1,
{
    reveal(subtree_wf);
    reveal(in_subtree);
    reveal(subtree_get);
    reveal(first_leaf);
    match pages[loc as int]->0 {
        NodeView::Internal { keys, children } => {
            lemma_height_unique(
                pages,
                b,
                children[0],
                (h1 - 1) as nat,
                (h2 - 1) as nat,
                child_lo(keys, lo1, 0),
                child_hi(keys, hi1, 0),
                child_next(pages, children, (h1 - 1) as nat, nxt1, 0),
                child_lo(keys, lo2, 0),
                child_hi(keys, hi2, 0),
                child_next(pages, children, (h2 - 1) as nat, nxt2, 0),
            );
        },
        _ => {},
    }
}

/// The successor owed to child `i`: the leftmost leaf of child `i + 1`, or
/// what follows the node when `i` is the last child.
pub proof fn lemma_child_next(pages: Pages, children: Seq<usize>, h: nat, nxt: Option<usize>, i: int)
    ensures
        child_next(pages, children, h, nxt, i) == (if i + 1 < children.len() {
            Some(first_leaf(pages, children[i + 1], h))
        } else {
            nxt
        }),
{
    reveal(child_next);
}

/// What it means for the children of a node to be well formed.
pub proof fn lemma_children_wf_unfold(
    pages: Pages,
    b: nat,
    keys: Seq<i32>,
    children: Seq<usize>,
    h: nat,
    lo: int,
    hi: int,
    nxt: Option<usize>,
)
    ensures
        children_wf(pages, b, keys, children, h, lo, hi, nxt) == (forall|i: int|
            0 <= i < children.len() ==> subtree_wf(
                pages,
                b,
                #[trigger] children[i],
                h,
                child_lo(keys, lo, i),
                child_hi(keys, hi, i),
                child_next(pages, children, h, nxt, i),
            )),
{
    reveal(subtree_wf);
}

/// A lookup that starts at an internal node goes on below the child that
/// the key routes to.
pub proof fn lemma_node_get_internal(
    pages: Pages,
    keys: Seq<i32>,
    children: Seq<usize>,
    h: nat,
    k: i32,
)
    ensures
        node_get(pages, NodeView::Internal { keys, children }, h, k) == (if h > 0 && route(keys, k)
            < children.len() {
            subtree_get(pages, children[route(keys, k)], (h - 1) as nat, k)
        } else {
            None::<Record>
        }),
{
    reveal(subtree_get);
}

/// A subtree is well formed when its top page holds a legal node.
pub proof fn lemma_wf_unfold(
    pages: Pages,
    b: nat,
    loc: usize,
    h: nat,
    lo: int,
    hi: int,
    nxt: Option<usize>,
)
    ensures
        subtree_wf(pages, b, loc, h, lo, hi, nxt) == (loc < pages.len() && pages[loc as int] is Some
            && node_ok(pages, b, b, pages[loc as int]->0, loc, h, lo, hi, nxt)),
{
    reveal(subtree_wf);
}

/// A page belongs to a subtree when it is its top or belongs to a child's.
pub proof fn lemma_in_subtree_unfold(pages: Pages, loc: usize, h: nat, p: usize)
    ensures
        in_subtree(pages, loc, h, p) == (p == loc || (h > 0 && match page_at(pages, loc as int) {
            Some(NodeView::Internal { keys, children }) => exists|i: int|
                0 <= i < children.len() && in_subtree(pages, #[trigger] children[i], (h - 1) as nat, p),
            _ => false,
        })),
{
    reveal(in_subtree);
}

/// A lookup below a page is the lookup that starts at the node it holds.
pub proof fn lemma_get_unfold(pages: Pages, loc: usize, h: nat, k: i32)
    ensures
        subtree_get(pages, loc, h, k) == (match page_at(pages, loc as int) {
            Some(node) => node_get(pages, node, h, k),
            None => None::<Record>,
        }),
{
    reveal(subtree_get);
}

/// The leftmost leaf below an internal node is that below its first child.
pub proof fn lemma_first_leaf_unfold(pages: Pages, loc: usize, h: nat)
    ensures
        first_leaf(pages, loc, h) == (if h == 0 {
            loc
        } else {
            match page_at(pages, loc as int) {
                Some(NodeView::Internal { keys, children }) => if children.len() > 0 {
                    first_leaf(pages, children[0], (h - 1) as nat)
                } else {
                    loc
                },
                _ => loc,
            }
        }),
{
    reveal(first_leaf);
}

/// A leaf with ascending keys holds for `key` the record beside the slot
/// with that key.
pub proof fn lemma_leaf_get_at(keys: Seq<i32>, values: Seq<Record>, key: i32, i: int)
    requires
        0 <= i < keys.len(),
        keys[i] == key,
        keys_sorted(keys),
    ensures
        leaf_get(keys, values, key) == Some(values[i]),
{
}

/// A leaf that has no slot with `key` holds nothing for it.
pub proof fn lemma_leaf_get_none(keys: Seq<i32>, values: Seq<Record>, key: i32)
    requires
        forall|j: int| 0 <= j < keys.len() ==> #[trigger] keys[j] != key,
    ensures
        leaf_get(keys, values, key) is None,
{
}

} // verus!
