//! How one insertion changes the pages: what must hold of the subtree that
//! was touched, level by level, for the whole tree to hold the new record.

use vstd::prelude::*;
use crate::node::NodeView;
use crate::record::Record;
use crate::shape::{
    Pages, child_hi, child_lo, child_next, children_disjoint, children_exclude, children_wf,
    first_leaf, in_subtree, is_route, keys_sorted, keys_within, node_get, node_ok, route,
    subtree_get, subtree_wf, updated,
};
use crate::shape_lemmas::{
    lemma_child_next, lemma_children_wf_unfold, lemma_first_leaf_unfold, lemma_frame,
    lemma_get_unfold, lemma_in_subtree_unfold, lemma_node_get_internal, lemma_route,
    lemma_route_unique, lemma_subtree_pages, lemma_wf_unfold,
};

verus! {

/// Every page of the old store outside the subtree at `loc` is unchanged in `q`.
pub open spec fn frame_outside(pages: Pages, q: Pages, loc: usize, h: nat) -> bool {
    &&& pages.len() <= q.len()
    &&& forall|p: usize|
        p < pages.len() && !in_subtree(pages, loc, h, p) ==> #[trigger] q[p as int] == pages[p as int]
}

/// Every page below `top` in `q` was a page below `loc` in the old store or
/// did not exist then.
pub open spec fn covers(pages: Pages, q: Pages, loc: usize, h: nat, top: usize) -> bool {
    forall|p: usize| #[trigger]
        in_subtree(q, top, h, p) ==> in_subtree(pages, loc, h, p) || p >= pages.len()
}

/// The subtree at `loc` was rewritten in place: in `q` it is well formed
/// below a top node of at most `cap` keys, spans only its old pages and new
/// ones, starts at the same leaf, holds `rec` under `key` and otherwise what
/// it held; no page outside it changed.
pub open spec fn updated_ok(
    pages: Pages,
    q: Pages,
    b: nat,
    cap: nat,
    loc: usize,
    h: nat,
    lo: int,
    hi: int,
    nxt: Option<usize>,
    key: i32,
    rec: Record,
) -> bool {
    &&& frame_outside(pages, q, loc, h)
    &&& loc < q.len()
    &&& q[loc as int] is Some
    &&& node_ok(q, b, cap, q[loc as int]->0, loc, h, lo, hi, nxt)
    &&& covers(pages, q, loc, h, loc)
    &&& first_leaf(q, loc, h) == first_leaf(pages, loc, h)
    &&& forall|k: i32| #[trigger]
        subtree_get(q, loc, h, k) == updated(subtree_get(pages, loc, h, k), k, key, rec)
}

/// The subtree at `loc` was split in two: in `q` the keys below `sep` stand
/// under `loc`, the others under the new page `right`; together they hold
/// `rec` under `key` and otherwise what the subtree held.
pub open spec fn split_ok(
    pages: Pages,
    q: Pages,
    b: nat,
    loc: usize,
    h: nat,
    lo: int,
    hi: int,
    nxt: Option<usize>,
    key: i32,
    rec: Record,
    sep: i32,
    right: usize,
) -> bool {
    &&& frame_outside(pages, q, loc, h)
    &&& lo < sep < hi
    &&& right >= pages.len()
    &&& subtree_wf(q, b, loc, h, lo, sep as int, Some(first_leaf(q, right, h)))
    &&& subtree_wf(q, b, right, h, sep as int, hi, nxt)
    &&& covers(pages, q, loc, h, loc)
    &&& covers(pages, q, loc, h, right)
    &&& forall|p: usize| #[trigger] in_subtree(q, loc, h, p) ==> !in_subtree(q, right, h, p)
    &&& first_leaf(q, loc, h) == first_leaf(pages, loc, h)
    &&& forall|k: i32|
        (if k < sep {
            #[trigger] subtree_get(q, loc, h, k)
        } else {
            subtree_get(q, right, h, k)
        }) == updated(subtree_get(pages, loc, h, k), k, key, rec)
}

/// A child's pages are pages of its parent.
pub proof fn lemma_child_in_parent(pages: Pages, ploc: usize, h: nat, i: int, p: usize)
    requires
        h > 0,
        ploc < pages.len(),
        pages[ploc as int] matches Some(NodeView::Internal { keys, children }) && 0 <= i
            < children.len() && in_subtree(pages, children[i], (h - 1) as nat, p),
    ensures
        in_subtree(pages, ploc, h, p),
{
    reveal(subtree_wf);
    reveal(in_subtree);
    reveal(subtree_get);
    reveal(first_leaf);
}

/// What holds of the siblings of child `i` when only pages below that child
/// (and pages past the old end) changed: each is as well formed as before,
/// spans the same pages, starts at the same leaf and finds the same records;
/// the parent's own page is unchanged too.
pub open spec fn siblings_kept(
    pages: Pages,
    q: Pages,
    b: nat,
    ploc: usize,
    h: nat,
    lo: int,
    hi: int,
    nxt: Option<usize>,
    i: int,
) -> bool {
    let keys = pages[ploc as int]->0->Internal_keys;
    let children = pages[ploc as int]->0->Internal_children;
    let hc = (h - 1) as nat;
    &&& q[ploc as int] == pages[ploc as int]
    &&& forall|j: int|
        0 <= j < children.len() && j != i ==> {
            &&& subtree_wf(
                q,
                b,
                #[trigger] children[j],
                hc,
                child_lo(keys, lo, j),
                child_hi(keys, hi, j),
                child_next(pages, children, hc, nxt, j),
            )
            &&& first_leaf(q, children[j], hc) == first_leaf(pages, children[j], hc)
            &&& forall|p: usize| in_subtree(q, children[j], hc, p) == in_subtree(pages, children[j], hc, p)
            &&& forall|p: usize| in_subtree(pages, children[j], hc, p) ==> p < pages.len()
            &&& forall|k: i32| subtree_get(q, children[j], hc, k) == subtree_get(pages, children[j], hc, k)
        }
}

/// A change confined to the subtree below child `i` keeps every sibling
/// of that child, and the parent's page.
pub proof fn lemma_siblings_kept(
    pages: Pages,
    q: Pages,
    b: nat,
    ploc: usize,
    h: nat,
    lo: int,
    hi: int,
    nxt: Option<usize>,
    i: int,
)
    requires
        h > 0,
        subtree_wf(pages, b, ploc, h, lo, hi, nxt),
        pages[ploc as int] matches Some(NodeView::Internal { keys, children }) && 0 <= i
            < children.len() && frame_outside(pages, q, children[i], (h - 1) as nat),
    ensures
        siblings_kept(pages, q, b, ploc, h, lo, hi, nxt, i),
{
    reveal(subtree_wf);
    reveal(in_subtree);
    reveal(subtree_get);
    reveal(first_leaf);
    let keys = pages[ploc as int]->0->Internal_keys;
    let children = pages[ploc as int]->0->Internal_children;
    let hc = (h - 1) as nat;
    assert(!in_subtree(pages, children[i], hc, ploc));
    assert forall|j: int| 0 <= j < children.len() && j != i implies {
        &&& subtree_wf(
            q,
            b,
            #[trigger] children[j],
            hc,
            child_lo(keys, lo, j),
            child_hi(keys, hi, j),
            child_next(pages, children, hc, nxt, j),
        )
        &&& first_leaf(q, children[j], hc) == first_leaf(pages, children[j], hc)
        &&& forall|p: usize| in_subtree(q, children[j], hc, p) == in_subtree(pages, children[j], hc, p)
        &&& forall|p: usize| in_subtree(pages, children[j], hc, p) ==> p < pages.len()
        &&& forall|k: i32| subtree_get(q, children[j], hc, k) == subtree_get(pages, children[j], hc, k)
    } by {
        assert forall|p: usize| #[trigger] in_subtree(pages, children[j], hc, p) implies p
            < q.len() && q[p as int] == pages[p as int] && p < pages.len() by {
            lemma_subtree_pages(
                pages,
                b,
                children[j],
                hc,
                child_lo(keys, lo, j),
                child_hi(keys, hi, j),
                child_next(pages, children, hc, nxt, j),
                p,
            );
            if j < i {
                assert(!in_subtree(pages, children[i], hc, p));
            } else {
                assert(!in_subtree(pages, children[i], hc, p));
            }
        }
        lemma_frame(
            pages,
            q,
            b,
            children[j],
            hc,
            child_lo(keys, lo, j),
            child_hi(keys, hi, j),
            child_next(pages, children, hc, nxt, j),
        );
    }
}

/// An update that was absorbed below child `i` of a well-formed node, the
/// child that `key` routes to, is an update of the node itself.
pub proof fn lemma_lift(
    pages: Pages,
    q: Pages,
    b: nat,
    ploc: usize,
    h: nat,
    lo: int,
    hi: int,
    nxt: Option<usize>,
    key: i32,
    rec: Record,
)
    requires
        h > 0,
        subtree_wf(pages, b, ploc, h, lo, hi, nxt),
        pages[ploc as int] matches Some(NodeView::Internal { keys, children }) && updated_ok(
            pages,
            q,
            b,
            b,
            children[route(keys, key)],
            (h - 1) as nat,
            child_lo(keys, lo, route(keys, key)),
            child_hi(keys, hi, route(keys, key)),
            child_next(pages, children, (h - 1) as nat, nxt, route(keys, key)),
            key,
            rec,
        ),
    ensures
        updated_ok(pages, q, b, b, ploc, h, lo, hi, nxt, key, rec),
{
    reveal(subtree_wf);
    reveal(in_subtree);
    reveal(subtree_get);
    reveal(first_leaf);
    let keys = pages[ploc as int]->0->Internal_keys;
    let children = pages[ploc as int]->0->Internal_children;
    let hc = (h - 1) as nat;
    lemma_route(keys, key);
    let i = route(keys, key);
    let c = children[i];
    lemma_siblings_kept(pages, q, b, ploc, h, lo, hi, nxt, i);
    assert forall|p: usize| in_subtree(pages, c, hc, p) implies in_subtree(pages, ploc, h, p) by {
        lemma_child_in_parent(pages, ploc, h, i, p);
    }
    assert(frame_outside(pages, q, ploc, h));
    assert forall|j: int| 0 <= j < children.len() implies child_next(q, children, hc, nxt, j)
        == child_next(pages, children, hc, nxt, j) by {
        lemma_child_next(q, children, hc, nxt, j);
        lemma_child_next(pages, children, hc, nxt, j);
        if j + 1 < children.len() {
            assert(first_leaf(q, children[j + 1], hc) == first_leaf(pages, children[j + 1], hc));
        }
    }
    assert forall|j: int| 0 <= j < children.len() implies subtree_wf(
        q,
        b,
        #[trigger] children[j],
        hc,
        child_lo(keys, lo, j),
        child_hi(keys, hi, j),
        child_next(q, children, hc, nxt, j),
    ) by {
        if j != i {
            assert(subtree_wf(
                q,
                b,
                children[j],
                hc,
                child_lo(keys, lo, j),
                child_hi(keys, hi, j),
                child_next(pages, children, hc, nxt, j),
            ));
        }
    }
    assert forall|j: int| 0 <= j < children.len() implies !in_subtree(
        q,
        #[trigger] children[j],
        hc,
        ploc,
    ) by {
        assert(!in_subtree(pages, children[j], hc, ploc));
    }
    assert forall|j: int, k: int, p: usize|
        0 <= j < k < children.len() && #[trigger] in_subtree(
            q,
            children[j],
            hc,
            p,
        ) implies !#[trigger] in_subtree(q, children[k], hc, p) by {
        if in_subtree(q, children[k], hc, p) {
            if j == i {
                assert(in_subtree(pages, children[k], hc, p));
                assert(in_subtree(pages, children[i], hc, p) || p >= pages.len());
            } else if k == i {
                assert(in_subtree(pages, children[j], hc, p));
                assert(in_subtree(pages, children[i], hc, p) || p >= pages.len());
            } else {
                assert(in_subtree(pages, children[j], hc, p));
                assert(in_subtree(pages, children[k], hc, p));
            }
        }
    }
    assert(node_ok(q, b, b, q[ploc as int]->0, ploc, h, lo, hi, nxt));
    assert forall|p: usize| #[trigger] in_subtree(q, ploc, h, p) implies in_subtree(
        pages,
        ploc,
        h,
        p,
    ) || p >= pages.len() by {
        if p != ploc {
            let j = choose|j: int| 0 <= j < children.len() && in_subtree(q, #[trigger] children[j], hc, p);
            if j == i {
                assert(in_subtree(pages, c, hc, p) || p >= pages.len());
            } else {
                assert(in_subtree(pages, children[j], hc, p));
                lemma_child_in_parent(pages, ploc, h, j, p);
            }
        }
    }
    assert(first_leaf(q, children[0], hc) == first_leaf(pages, children[0], hc));
    assert forall|k: i32| #[trigger]
        subtree_get(q, ploc, h, k) == updated(subtree_get(pages, ploc, h, k), k, key, rec) by {
        lemma_route(keys, k);
        let r = route(keys, k);
        if r != i {
            assert(subtree_get(q, children[r], hc, k) == subtree_get(pages, children[r], hc, k));
        } else {
            assert(subtree_get(q, c, hc, k) == updated(subtree_get(pages, c, hc, k), k, key, rec));
        }
    }
}

/// `q2` is `q` but for page `w` and for pages past the end of `q`.
pub open spec fn differs_only_at(q: Pages, q2: Pages, w: usize) -> bool {
    &&& q.len() <= q2.len()
    &&& forall|p: usize| p < q.len() && p != w ==> #[trigger] q2[p as int] == q[p as int]
}

/// A well-formed subtree that does not hold page `w` is untouched by a
/// write to `w`.
pub proof fn lemma_kept_after_write(
    q: Pages,
    q2: Pages,
    b: nat,
    loc: usize,
    h: nat,
    lo: int,
    hi: int,
    nxt: Option<usize>,
    w: usize,
)
    requires
        subtree_wf(q, b, loc, h, lo, hi, nxt),
        !in_subtree(q, loc, h, w),
        differs_only_at(q, q2, w),
    ensures
        subtree_wf(q2, b, loc, h, lo, hi, nxt),
        forall|p: usize| in_subtree(q2, loc, h, p) == in_subtree(q, loc, h, p),
        forall|p: usize| in_subtree(q, loc, h, p) ==> p < q.len(),
        first_leaf(q2, loc, h) == first_leaf(q, loc, h),
        forall|k: i32| subtree_get(q2, loc, h, k) == subtree_get(q, loc, h, k),
{
    reveal(subtree_wf);
    reveal(in_subtree);
    reveal(subtree_get);
    reveal(first_leaf);
    assert forall|p: usize| #[trigger] in_subtree(q, loc, h, p) implies p < q2.len() && q2[p as int]
        == q[p as int] && p < q.len() by {
        lemma_subtree_pages(q, b, loc, h, lo, hi, nxt, p);
    }
    lemma_frame(q, q2, b, loc, h, lo, hi, nxt);
}

/// The node that a parent becomes when it takes the separator `sep` and the
/// new child `right` beside its child `i`.
pub open spec fn absorbed(keys: Seq<i32>, children: Seq<usize>, i: int, sep: i32, right: usize) -> NodeView {
    NodeView::Internal { keys: keys.insert(i, sep), children: children.insert(i + 1, right) }
}

/// The children of a parent that absorbed a split are well formed: the
/// split child keeps the keys below the separator, the new child stands
/// right of it, and every other child is as it was.
pub proof fn lemma_absorb_wf(
    pages: Pages,
    q2: Pages,
    b: nat,
    keys: Seq<i32>,
    children: Seq<usize>,
    hc: nat,
    lo: int,
    hi: int,
    nxt: Option<usize>,
    i: int,
    sep: i32,
    right: usize,
)
    requires
        children.len() == keys.len() + 1,
        0 <= i < children.len(),
        forall|j: int|
            0 <= j < children.len() && j != i ==> subtree_wf(
                q2,
                b,
                #[trigger] children[j],
                hc,
                child_lo(keys, lo, j),
                child_hi(keys, hi, j),
                child_next(pages, children, hc, nxt, j),
            ) && first_leaf(q2, children[j], hc) == first_leaf(pages, children[j], hc),
        subtree_wf(
            q2,
            b,
            children[i],
            hc,
            child_lo(keys, lo, i),
            sep as int,
            Some(first_leaf(q2, right, hc)),
        ),
        first_leaf(q2, children[i], hc) == first_leaf(pages, children[i], hc),
        subtree_wf(
            q2,
            b,
            right,
            hc,
            sep as int,
            child_hi(keys, hi, i),
            child_next(pages, children, hc, nxt, i),
        ),
    ensures
        children_wf(q2, b, keys.insert(i, sep), children.insert(i + 1, right), hc, lo, hi, nxt),
{
    let k2 = keys.insert(i, sep);
    let c2 = children.insert(i + 1, right);
    lemma_children_wf_unfold(q2, b, k2, c2, hc, lo, hi, nxt);
    assert forall|j: int| 0 <= j < c2.len() implies subtree_wf(
        q2,
        b,
        #[trigger] c2[j],
        hc,
        child_lo(k2, lo, j),
        child_hi(k2, hi, j),
        child_next(q2, c2, hc, nxt, j),
    ) by {
        lemma_child_next(q2, c2, hc, nxt, j);
        if j < i {
            lemma_child_next(pages, children, hc, nxt, j);
            assert(c2[j] == children[j]);
            assert(c2[j + 1] == children[j + 1]);
        } else if j == i {
            assert(c2[j] == children[i]);
            assert(c2[j + 1] == right);
        } else if j == i + 1 {
            lemma_child_next(pages, children, hc, nxt, i);
            assert(c2[j] == right);
            if i + 1 < children.len() {
                assert(c2[j + 1] == children[i + 1]);
            }
        } else {
            lemma_child_next(pages, children, hc, nxt, j - 1);
            assert(c2[j] == children[j - 1]);
            if j + 1 < c2.len() {
                assert(c2[j + 1] == children[j]);
            }
        }
    }
}

/// The children of a parent that absorbed a split share no page with each
/// other nor hold the parent's page.
pub proof fn lemma_absorb_sets(
    pages: Pages,
    q2: Pages,
    children: Seq<usize>,
    hc: nat,
    i: int,
    right: usize,
    ploc: usize,
)
    requires
        0 <= i < children.len(),
        ploc < pages.len(),
        children_disjoint(pages, children, hc),
        children_exclude(pages, children, hc, ploc),
        forall|j: int, p: usize|
            0 <= j < children.len() && j != i && #[trigger] in_subtree(q2, children[j], hc, p)
                ==> in_subtree(pages, children[j], hc, p) && p < pages.len(),
        covers(pages, q2, children[i], hc, children[i]),
        covers(pages, q2, children[i], hc, right),
        forall|p: usize| #[trigger]
            in_subtree(q2, children[i], hc, p) ==> !in_subtree(q2, right, hc, p),
    ensures
        children_disjoint(q2, children.insert(i + 1, right), hc),
        children_exclude(q2, children.insert(i + 1, right), hc, ploc),
{
    let c2 = children.insert(i + 1, right);
    let c = children[i];
    assert forall|j: int| 0 <= j < c2.len() implies !in_subtree(q2, #[trigger] c2[j], hc, ploc) by {
        let oj = if j <= i { j } else { j - 1 };
        assert(j == i + 1 || c2[j] == children[oj]);
        assert(!in_subtree(pages, children[oj], hc, ploc));
    }
    assert forall|j: int, k: int, p: usize|
        0 <= j < k < c2.len() && #[trigger] in_subtree(q2, c2[j], hc, p) implies !#[trigger] in_subtree(
            q2,
            c2[k],
            hc,
            p,
        ) by {
        let oj = if j <= i { j } else { j - 1 };
        let ok = if k <= i { k } else { k - 1 };
        assert(j == i + 1 || c2[j] == children[oj]);
        assert(k == i + 1 || c2[k] == children[ok]);
        if in_subtree(q2, c2[k], hc, p) {
            let near_j = j == i || j == i + 1;
            let near_k = k == i || k == i + 1;
            if near_j {
                assert(in_subtree(pages, c, hc, p) || p >= pages.len());
            } else {
                assert(in_subtree(pages, children[oj], hc, p));
            }
            if near_k {
                assert(in_subtree(pages, c, hc, p) || p >= pages.len());
            } else {
                assert(in_subtree(pages, children[ok], hc, p));
            }
            if near_j && near_k {
                assert(j == i && k == i + 1);
            } else if near_j {
                assert(i < ok);
            } else if near_k {
                assert(oj < i);
            } else {
                assert(oj < ok);
            }
        }
    }
}

/// Where a lookup of `k` goes in a parent that absorbed a split, and that
/// it finds there what the update asks for.
pub proof fn lemma_absorb_get(
    pages: Pages,
    q2: Pages,
    keys: Seq<i32>,
    children: Seq<usize>,
    hc: nat,
    lo: int,
    hi: int,
    sep: i32,
    right: usize,
    key: i32,
    rec: Record,
    k: i32,
)
    requires
        children.len() == keys.len() + 1,
        keys_sorted(keys),
        child_lo(keys, lo, route(keys, key)) < sep < child_hi(keys, hi, route(keys, key)),
        route(keys, k) != route(keys, key) ==> subtree_get(q2, children[route(keys, k)], hc, k)
            == subtree_get(pages, children[route(keys, k)], hc, k),
        route(keys, k) == route(keys, key) ==> (if k < sep {
            subtree_get(q2, children[route(keys, key)], hc, k)
        } else {
            subtree_get(q2, right, hc, k)
        }) == updated(subtree_get(pages, children[route(keys, key)], hc, k), k, key, rec),
    ensures
        node_get(q2, absorbed(keys, children, route(keys, key), sep, right), hc + 1, k) == updated(
            node_get(pages, NodeView::Internal { keys, children }, hc + 1, k),
            k,
            key,
            rec,
        ),
{
    lemma_route(keys, key);
    lemma_route(keys, k);
    let i = route(keys, key);
    let r = route(keys, k);
    let k2 = keys.insert(i, sep);
    let c2 = children.insert(i + 1, right);
    lemma_node_get_internal(q2, k2, c2, hc + 1, k);
    lemma_node_get_internal(pages, keys, children, hc + 1, k);
    if r < i {
        assert(is_route(k2, k, r));
        lemma_route_unique(k2, k, r);
        assert(c2[r] == children[r]);
    } else if r > i {
        assert(keys[i] <= k);
        assert(is_route(k2, k, r + 1)) by {
            assert forall|j: int| 0 <= j < r + 1 implies #[trigger] k2[j] <= k by {
                if j < i {
                    assert(k2[j] == keys[j]);
                } else if j == i {
                } else {
                    assert(k2[j] == keys[j - 1]);
                }
            }
        }
        lemma_route_unique(k2, k, r + 1);
        assert(c2[r + 1] == children[r]);
    } else if k < sep {
        assert(is_route(k2, k, i));
        lemma_route_unique(k2, k, i);
        assert(c2[i] == children[i]);
    } else {
        assert(is_route(k2, k, i + 1)) by {
            assert forall|j: int| 0 <= j < i + 1 implies #[trigger] k2[j] <= k by {
                if j < i {
                    assert(k2[j] == keys[j]);
                }
            }
            if i + 1 < k2.len() {
                assert(k2[i + 1] == keys[i]);
            }
        }
        lemma_route_unique(k2, k, i + 1);
        assert(c2[i + 1] == right);
    }
}

/// A parent that takes the separator and the new page of a split below the
/// child that `key` routes to is an updated subtree, its top node holding
/// one key more than before.
pub proof fn lemma_absorb(
    pages: Pages,
    q: Pages,
    q2: Pages,
    b: nat,
    ploc: usize,
    h: nat,
    lo: int,
    hi: int,
    nxt: Option<usize>,
    key: i32,
    rec: Record,
    sep: i32,
    right: usize,
)
    requires
        h > 0,
        subtree_wf(pages, b, ploc, h, lo, hi, nxt),
        pages[ploc as int] matches Some(NodeView::Internal { keys, children }) && split_ok(
            pages,
            q,
            b,
            children[route(keys, key)],
            (h - 1) as nat,
            child_lo(keys, lo, route(keys, key)),
            child_hi(keys, hi, route(keys, key)),
            child_next(pages, children, (h - 1) as nat, nxt, route(keys, key)),
            key,
            rec,
            sep,
            right,
        ) && q2.len() == q.len() && q2[ploc as int] == Some(
            absorbed(keys, children, route(keys, key), sep, right),
        ),
        differs_only_at(q, q2, ploc),
    ensures
        updated_ok(pages, q2, b, b + 1, ploc, h, lo, hi, nxt, key, rec),
        pages[ploc as int] matches Some(NodeView::Internal { keys, children }) && route(keys, sep)
            == route(keys, key),
{
    let keys = pages[ploc as int]->0->Internal_keys;
    let children = pages[ploc as int]->0->Internal_children;
    let hc = (h - 1) as nat;
    lemma_wf_unfold(pages, b, ploc, h, lo, hi, nxt);
    lemma_route(keys, key);
    let i = route(keys, key);
    let c = children[i];
    let clo = child_lo(keys, lo, i);
    let chi = child_hi(keys, hi, i);
    let cnxt = child_next(pages, children, hc, nxt, i);
    let k2 = keys.insert(i, sep);
    let c2 = children.insert(i + 1, right);
    lemma_siblings_kept(pages, q, b, ploc, h, lo, hi, nxt, i);
    assert(is_route(keys, sep, i));
    lemma_route_unique(keys, sep, i);
    assert forall|p: usize| in_subtree(pages, c, hc, p) implies in_subtree(pages, ploc, h, p) by {
        lemma_child_in_parent(pages, ploc, h, i, p);
    }
    assert(!in_subtree(pages, c, hc, ploc));
    // every subtree below the parent is the same in `q2` as in `q`
    lemma_kept_after_write(q, q2, b, c, hc, clo, sep as int, Some(first_leaf(q, right, hc)), ploc);
    lemma_kept_after_write(q, q2, b, right, hc, sep as int, chi, cnxt, ploc);
    assert forall|j: int| 0 <= j < children.len() && j != i implies {
        &&& subtree_wf(
            q2,
            b,
            #[trigger] children[j],
            hc,
            child_lo(keys, lo, j),
            child_hi(keys, hi, j),
            child_next(pages, children, hc, nxt, j),
        )
        &&& first_leaf(q2, children[j], hc) == first_leaf(pages, children[j], hc)
        &&& forall|p: usize| in_subtree(q2, children[j], hc, p) == in_subtree(pages, children[j], hc, p)
        &&& forall|k: i32| subtree_get(q2, children[j], hc, k) == subtree_get(pages, children[j], hc, k)
    } by {
        assert(!in_subtree(pages, children[j], hc, ploc));
        lemma_kept_after_write(
            q,
            q2,
            b,
            children[j],
            hc,
            child_lo(keys, lo, j),
            child_hi(keys, hi, j),
            child_next(pages, children, hc, nxt, j),
            ploc,
        );
    }
    lemma_in_subtree_unfold(pages, ploc, h, ploc);
    assert(frame_outside(pages, q2, ploc, h));
    assert(keys_sorted(k2));
    assert(keys_within(k2, lo, hi));
    lemma_absorb_wf(pages, q2, b, keys, children, hc, lo, hi, nxt, i, sep, right);
    lemma_absorb_sets(pages, q2, children, hc, i, right, ploc);
    assert(node_ok(q2, b, b + 1, q2[ploc as int]->0, ploc, h, lo, hi, nxt));
    assert forall|p: usize| #[trigger] in_subtree(q2, ploc, h, p) implies in_subtree(
        pages,
        ploc,
        h,
        p,
    ) || p >= pages.len() by {
        lemma_in_subtree_unfold(q2, ploc, h, p);
        if p != ploc {
            let j = choose|j: int| 0 <= j < c2.len() && in_subtree(q2, #[trigger] c2[j], hc, p);
            if j == i || j == i + 1 {
                assert(in_subtree(pages, c, hc, p) || p >= pages.len());
            } else {
                let oj = if j <= i { j } else { j - 1 };
                assert(c2[j] == children[oj]);
                assert(in_subtree(pages, children[oj], hc, p));
                lemma_child_in_parent(pages, ploc, h, oj, p);
            }
        }
    }
    assert(c2[0] == children[0]);
    lemma_first_leaf_unfold(q2, ploc, h);
    lemma_first_leaf_unfold(pages, ploc, h);
    assert(first_leaf(q2, c2[0], hc) == first_leaf(pages, children[0], hc));
    assert forall|k: i32| #[trigger]
        subtree_get(q2, ploc, h, k) == updated(subtree_get(pages, ploc, h, k), k, key, rec) by {
        lemma_route(keys, k);
        lemma_get_unfold(q2, ploc, h, k);
        lemma_get_unfold(pages, ploc, h, k);
        let r = route(keys, k);
        if r != i {
            assert(subtree_get(q2, children[r], hc, k) == subtree_get(pages, children[r], hc, k));
        } else {
            assert(subtree_get(q2, c, hc, k) == subtree_get(q, c, hc, k));
            assert(subtree_get(q2, right, hc, k) == subtree_get(q, right, hc, k));
        }
        lemma_absorb_get(pages, q2, keys, children, hc, lo, hi, sep, right, key, rec, k);
    }
}

/// Every child of a node is in `q2` what it was in `q`.
pub open spec fn children_kept(
    q: Pages,
    q2: Pages,
    b: nat,
    keys: Seq<i32>,
    children: Seq<usize>,
    hc: nat,
    lo: int,
    hi: int,
    nxt: Option<usize>,
) -> bool {
    forall|j: int|
        0 <= j < children.len() ==> {
            &&& subtree_wf(
                q2,
                b,
                #[trigger] children[j],
                hc,
                child_lo(keys, lo, j),
                child_hi(keys, hi, j),
                child_next(q, children, hc, nxt, j),
            )
            &&& first_leaf(q2, children[j], hc) == first_leaf(q, children[j], hc)
            &&& forall|p: usize| in_subtree(q2, children[j], hc, p) == in_subtree(q, children[j], hc, p)
            &&& forall|p: usize| in_subtree(q, children[j], hc, p) ==> p < q.len()
            &&& forall|k: i32| subtree_get(q2, children[j], hc, k) == subtree_get(q, children[j], hc, k)
        }
}

/// A write to a page that no child's subtree holds keeps every child.
pub proof fn lemma_children_kept(
    q: Pages,
    q2: Pages,
    b: nat,
    keys: Seq<i32>,
    children: Seq<usize>,
    hc: nat,
    lo: int,
    hi: int,
    nxt: Option<usize>,
    w: usize,
)
    requires
        children_wf(q, b, keys, children, hc, lo, hi, nxt),
        children_exclude(q, children, hc, w),
        differs_only_at(q, q2, w),
    ensures
        children_kept(q, q2, b, keys, children, hc, lo, hi, nxt),
{
    lemma_children_wf_unfold(q, b, keys, children, hc, lo, hi, nxt);
    assert forall|j: int| 0 <= j < children.len() implies {
        &&& subtree_wf(
            q2,
            b,
            #[trigger] children[j],
            hc,
            child_lo(keys, lo, j),
            child_hi(keys, hi, j),
            child_next(q, children, hc, nxt, j),
        )
        &&& first_leaf(q2, children[j], hc) == first_leaf(q, children[j], hc)
        &&& forall|p: usize| in_subtree(q2, children[j], hc, p) == in_subtree(q, children[j], hc, p)
        &&& forall|p: usize| in_subtree(q, children[j], hc, p) ==> p < q.len()
        &&& forall|k: i32| subtree_get(q2, children[j], hc, k) == subtree_get(q, children[j], hc, k)
    } by {
        lemma_kept_after_write(
            q,
            q2,
            b,
            children[j],
            hc,
            child_lo(keys, lo, j),
            child_hi(keys, hi, j),
            child_next(q, children, hc, nxt, j),
            w,
        );
    }
}

/// A run of kept children, with the separators between them, is a
/// well-formed family of its own.
pub proof fn lemma_slice_wf(
    q: Pages,
    q2: Pages,
    b: nat,
    keys: Seq<i32>,
    children: Seq<usize>,
    hc: nat,
    lo: int,
    hi: int,
    nxt: Option<usize>,
    a: int,
    e: int,
)
    requires
        children.len() == keys.len() + 1,
        0 <= a < e <= children.len(),
        children_kept(q, q2, b, keys, children, hc, lo, hi, nxt),
    ensures
        children_wf(
            q2,
            b,
            keys.subrange(a, e - 1),
            children.subrange(a, e),
            hc,
            child_lo(keys, lo, a),
            child_hi(keys, hi, e - 1),
            child_next(q2, children, hc, nxt, e - 1),
        ),
{
    let ks = keys.subrange(a, e - 1);
    let cs = children.subrange(a, e);
    let lo2 = child_lo(keys, lo, a);
    let hi2 = child_hi(keys, hi, e - 1);
    let nxt2 = child_next(q2, children, hc, nxt, e - 1);
    lemma_children_wf_unfold(q2, b, ks, cs, hc, lo2, hi2, nxt2);
    assert forall|j: int| 0 <= j < cs.len() implies subtree_wf(
        q2,
        b,
        #[trigger] cs[j],
        hc,
        child_lo(ks, lo2, j),
        child_hi(ks, hi2, j),
        child_next(q2, cs, hc, nxt2, j),
    ) by {
        assert(cs[j] == children[a + j]);
        lemma_child_next(q2, cs, hc, nxt2, j);
        lemma_child_next(q, children, hc, nxt, a + j);
        lemma_child_next(q2, children, hc, nxt, e - 1);
        if j + 1 < cs.len() {
            assert(cs[j + 1] == children[a + j + 1]);
        }
        if j > 0 {
            assert(ks[j - 1] == keys[a + j - 1]);
        }
        if j < ks.len() {
            assert(ks[j] == keys[a + j]);
        }
    }
}

/// A run of kept children shares no page among its members and holds no
/// page that none of the children held.
pub proof fn lemma_slice_sets(
    q: Pages,
    q2: Pages,
    children: Seq<usize>,
    hc: nat,
    a: int,
    e: int,
    w: usize,
)
    requires
        0 <= a <= e <= children.len(),
        children_disjoint(q, children, hc),
        forall|j: int, p: usize|
            0 <= j < children.len() && #[trigger] in_subtree(q2, children[j], hc, p)
                ==> in_subtree(q, children[j], hc, p),
        forall|j: int| 0 <= j < children.len() ==> !in_subtree(q2, #[trigger] children[j], hc, w),
    ensures
        children_disjoint(q2, children.subrange(a, e), hc),
        children_exclude(q2, children.subrange(a, e), hc, w),
{
    let cs = children.subrange(a, e);
    assert forall|j: int| 0 <= j < cs.len() implies !in_subtree(q2, #[trigger] cs[j], hc, w) by {
        assert(cs[j] == children[a + j]);
    }
    assert forall|j: int, k: int, p: usize|
        0 <= j < k < cs.len() && #[trigger] in_subtree(q2, cs[j], hc, p) implies !#[trigger] in_subtree(
            q2,
            cs[k],
            hc,
            p,
        ) by {
        assert(cs[j] == children[a + j]);
        assert(cs[k] == children[a + k]);
        if in_subtree(q2, cs[k], hc, p) {
            assert(in_subtree(q, children[a + j], hc, p));
            assert(in_subtree(q, children[a + k], hc, p));
        }
    }
}

/// Routing among a run of the separators is routing among all of them,
/// counted from where the run begins.
pub proof fn lemma_route_slice(keys: Seq<i32>, k: i32, a: int, e: int)
    requires
        0 <= a <= e <= keys.len(),
        a <= route(keys, k) <= e,
    ensures
        route(keys.subrange(a, e), k) == route(keys, k) - a,
{
    lemma_route(keys, k);
    let r = route(keys, k);
    let ks = keys.subrange(a, e);
    assert(is_route(ks, k, r - a)) by {
        assert forall|j: int| 0 <= j < r - a implies #[trigger] ks[j] <= k by {
            assert(ks[j] == keys[a + j]);
        }
        if r - a < ks.len() {
            assert(ks[r - a] == keys[r]);
        }
    }
    lemma_route_unique(ks, k, r - a);
}

/// The left half of an internal node split at separator `mid`.
pub open spec fn left_half(keys: Seq<i32>, children: Seq<usize>, mid: int) -> NodeView {
    NodeView::Internal { keys: keys.subrange(0, mid), children: children.subrange(0, mid + 1) }
}

/// The right half of an internal node split at separator `mid`.
pub open spec fn right_half(keys: Seq<i32>, children: Seq<usize>, mid: int) -> NodeView {
    NodeView::Internal {
        keys: keys.subrange(mid + 1, keys.len() as int),
        children: children.subrange(mid + 1, children.len() as int),
    }
}

/// A lookup in the half that `k` falls into finds what the whole node found.
pub proof fn lemma_split_internal_get(
    q: Pages,
    q2: Pages,
    keys: Seq<i32>,
    children: Seq<usize>,
    h: nat,
    mid: int,
    k: i32,
)
    requires
        h > 0,
        children.len() == keys.len() + 1,
        0 <= mid < keys.len(),
        keys_sorted(keys),
        subtree_get(q2, children[route(keys, k)], (h - 1) as nat, k) == subtree_get(
            q,
            children[route(keys, k)],
            (h - 1) as nat,
            k,
        ),
    ensures
        node_get(
            q2,
            if k < keys[mid] {
                left_half(keys, children, mid)
            } else {
                right_half(keys, children, mid)
            },
            h,
            k,
        ) == node_get(q, NodeView::Internal { keys, children }, h, k),
{
    lemma_route(keys, k);
    let r = route(keys, k);
    lemma_node_get_internal(q, keys, children, h, k);
    if k < keys[mid] {
        if r > mid {
            assert(keys[mid] <= k);
        }
        lemma_route_slice(keys, k, 0, mid);
        lemma_node_get_internal(q2, keys.subrange(0, mid), children.subrange(0, mid + 1), h, k);
        assert(children.subrange(0, mid + 1)[r] == children[r]);
    } else {
        if r <= mid {
            assert(k < keys[r]);
        }
        lemma_route_slice(keys, k, mid + 1, keys.len() as int);
        lemma_node_get_internal(
            q2,
            keys.subrange(mid + 1, keys.len() as int),
            children.subrange(mid + 1, children.len() as int),
            h,
            k,
        );
        assert(children.subrange(mid + 1, children.len() as int)[r - (mid + 1)] == children[r]);
    }
}

/// An overfull internal node that is cut in two at its middle separator,
/// the left half staying on its page and the right half going to a new
/// page at the end of the store, is a split subtree.
pub proof fn lemma_split_internal(
    pages: Pages,
    q: Pages,
    q2: Pages,
    b: nat,
    loc: usize,
    h: nat,
    lo: int,
    hi: int,
    nxt: Option<usize>,
    key: i32,
    rec: Record,
    mid: int,
    right: usize,
)
    requires
        b >= 1,
        updated_ok(pages, q, b, b + 1, loc, h, lo, hi, nxt, key, rec),
        q[loc as int] matches Some(NodeView::Internal { keys, children }) && {
            &&& keys.len() == b + 1
            &&& mid == keys.len() / 2
            &&& q2[loc as int] == Some(left_half(keys, children, mid))
            &&& q2[right as int] == Some(right_half(keys, children, mid))
        },
        right == q.len(),
        q2.len() == q.len() + 1,
        differs_only_at(q, q2, loc),
    ensures
        q[loc as int] matches Some(NodeView::Internal { keys, children }) && split_ok(
            pages,
            q2,
            b,
            loc,
            h,
            lo,
            hi,
            nxt,
            key,
            rec,
            keys[mid],
            right,
        ),
{
    let keys = q[loc as int]->0->Internal_keys;
    let children = q[loc as int]->0->Internal_children;
    let hc = (h - 1) as nat;
    let sep = keys[mid];
    let kl = keys.subrange(0, mid);
    let cl = children.subrange(0, mid + 1);
    let kr = keys.subrange(mid + 1, keys.len() as int);
    let cr = children.subrange(mid + 1, children.len() as int);
    lemma_children_kept(q, q2, b, keys, children, hc, lo, hi, nxt, loc);
    assert(keys[0] < keys[mid]);
    lemma_in_subtree_unfold(pages, loc, h, loc);
    assert(frame_outside(pages, q2, loc, h));
    // the two halves are well formed
    lemma_slice_wf(q, q2, b, keys, children, hc, lo, hi, nxt, 0, mid + 1);
    lemma_slice_wf(q, q2, b, keys, children, hc, lo, hi, nxt, mid + 1, children.len() as int);
    assert forall|j: int| 0 <= j < children.len() implies !in_subtree(
        q2,
        #[trigger] children[j],
        hc,
        loc,
    ) && !in_subtree(q2, children[j], hc, right) by {}
    lemma_slice_sets(q, q2, children, hc, 0, mid + 1, loc);
    lemma_slice_sets(q, q2, children, hc, mid + 1, children.len() as int, right);
    lemma_first_leaf_unfold(q2, right, h);
    lemma_first_leaf_unfold(q2, loc, h);
    lemma_first_leaf_unfold(q, loc, h);
    lemma_child_next(q2, children, hc, nxt, mid);
    lemma_child_next(q2, children, hc, nxt, children.len() - 1);
    assert(cr[0] == children[mid + 1]);
    assert(cl[0] == children[0]);
    assert(keys_sorted(kl) && keys_sorted(kr));
    assert(keys_within(kl, lo, sep as int) && keys_within(kr, sep as int, hi)) by {
        assert forall|j: int| 0 <= j < kr.len() implies sep <= #[trigger] kr[j] < hi by {
            assert(kr[j] == keys[mid + 1 + j]);
        }
    }
    lemma_wf_unfold(q2, b, loc, h, lo, sep as int, Some(first_leaf(q2, right, h)));
    lemma_wf_unfold(q2, b, right, h, sep as int, hi, nxt);
    assert(subtree_wf(q2, b, loc, h, lo, sep as int, Some(first_leaf(q2, right, h))));
    assert(subtree_wf(q2, b, right, h, sep as int, hi, nxt));
    // which pages the halves span
    assert forall|p: usize| #[trigger] in_subtree(q2, loc, h, p) implies (in_subtree(
        pages,
        loc,
        h,
        p,
    ) || p >= pages.len()) && !in_subtree(q2, right, h, p) by {
        lemma_in_subtree_unfold(q2, loc, h, p);
        lemma_in_subtree_unfold(q2, right, h, p);
        lemma_in_subtree_unfold(q, loc, h, p);
        if p != loc {
            let j = choose|j: int| 0 <= j < cl.len() && in_subtree(q2, #[trigger] cl[j], hc, p);
            assert(cl[j] == children[j]);
            assert(in_subtree(q, children[j], hc, p));
            assert(in_subtree(q, loc, h, p));
            if in_subtree(q2, right, h, p) {
                let k = choose|k: int| 0 <= k < cr.len() && in_subtree(q2, #[trigger] cr[k], hc, p);
                assert(cr[k] == children[mid + 1 + k]);
                assert(in_subtree(q, children[mid + 1 + k], hc, p));
            }
        } else {
            if in_subtree(q2, right, h, p) {
                let k = choose|k: int| 0 <= k < cr.len() && in_subtree(q2, #[trigger] cr[k], hc, p);
                assert(cr[k] == children[mid + 1 + k]);
            }
        }
    }
    assert forall|p: usize| #[trigger] in_subtree(q2, right, h, p) implies in_subtree(
        pages,
        loc,
        h,
        p,
    ) || p >= pages.len() by {
        lemma_in_subtree_unfold(q2, right, h, p);
        lemma_in_subtree_unfold(q, loc, h, p);
        if p != right {
            let k = choose|k: int| 0 <= k < cr.len() && in_subtree(q2, #[trigger] cr[k], hc, p);
            assert(cr[k] == children[mid + 1 + k]);
            assert(in_subtree(q, children[mid + 1 + k], hc, p));
            assert(in_subtree(q, loc, h, p));
        }
    }
    assert(first_leaf(q2, loc, h) == first_leaf(pages, loc, h));
    assert forall|k: i32|
        (if k < sep {
            #[trigger] subtree_get(q2, loc, h, k)
        } else {
            subtree_get(q2, right, h, k)
        }) == updated(subtree_get(pages, loc, h, k), k, key, rec) by {
        lemma_route(keys, k);
        lemma_get_unfold(q2, loc, h, k);
        lemma_get_unfold(q2, right, h, k);
        lemma_get_unfold(q, loc, h, k);
        assert(subtree_get(q, loc, h, k) == updated(subtree_get(pages, loc, h, k), k, key, rec));
        lemma_split_internal_get(q, q2, keys, children, h, mid, k);
    }
}

/// A separator that lies strictly within the range of the child that `key`
/// routes to routes to that child too.
pub proof fn lemma_sep_route(keys: Seq<i32>, lo: int, hi: int, key: i32, sep: i32)
    requires
        keys_sorted(keys),
        child_lo(keys, lo, route(keys, key)) < sep < child_hi(keys, hi, route(keys, key)),
    ensures
        route(keys, sep) == route(keys, key),
        0 <= route(keys, key) <= keys.len(),
{
    lemma_route(keys, key);
    let i = route(keys, key);
    assert(is_route(keys, sep, i));
    lemma_route_unique(keys, sep, i);
}

} // verus!
