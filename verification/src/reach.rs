//! No page drops out of the tree when a record is inserted: every page
//! that was below the root is below it afterwards, and so is every page
//! that the insertion added to the store.

use vstd::prelude::*;
use crate::growth::{
    absorbed, differs_only_at, left_half, lemma_child_in_parent, lemma_children_kept,
    lemma_kept_after_write, lemma_siblings_kept, right_half, split_ok, updated_ok,
};
use crate::node::NodeView;
use crate::path_growth::{InsertCtx, Level, grown_root, inserted_ok, path_ok};
use crate::record::Record;
use crate::shape::{
    Pages, child_hi, child_lo, child_next, first_leaf, in_subtree, key_ceiling, key_floor, route,
    subtree_wf,
};
use crate::shape_lemmas::{
    lemma_height_unique, lemma_in_subtree_unfold, lemma_route, lemma_wf_unfold,
};

verus! {

/// Every page of the store but the header belongs to the tree.
pub open spec fn fully_used(pages: Pages, root: usize, h: nat) -> bool {
    forall|p: usize| 0 < p < pages.len() ==> #[trigger] in_subtree(pages, root, h, p)
}

/// Every page that was below `loc`, and every page that the store gained,
/// is below `loc` in `q`.
pub open spec fn stays_in(pages: Pages, q: Pages, loc: usize, h: nat) -> bool {
    &&& forall|p: usize| #[trigger] in_subtree(pages, loc, h, p) ==> in_subtree(q, loc, h, p)
    &&& forall|p: usize| pages.len() <= p < q.len() ==> #[trigger] in_subtree(q, loc, h, p)
}

/// Every page that was below `loc`, and every page that the store gained,
/// is below `loc` or below `right` in `q`.
pub open spec fn stays_in_two(pages: Pages, q: Pages, loc: usize, h: nat, right: usize) -> bool {
    &&& forall|p: usize| #[trigger]
        in_subtree(pages, loc, h, p) ==> in_subtree(q, loc, h, p) || in_subtree(q, right, h, p)
    &&& forall|p: usize|
        pages.len() <= p < q.len() ==> #[trigger] in_subtree(q, loc, h, p) || in_subtree(
            q,
            right,
            h,
            p,
        )
}

/// Every page that was below `root`, and every page that the store gained,
/// is below `new_root` in `q`.
pub open spec fn all_stay(
    pages: Pages,
    q: Pages,
    root: usize,
    h: nat,
    new_root: usize,
    new_h: nat,
) -> bool {
    &&& forall|p: usize| #[trigger] in_subtree(pages, root, h, p) ==> in_subtree(q, new_root, new_h, p)
    &&& forall|p: usize| pages.len() <= p < q.len() ==> #[trigger] in_subtree(q, new_root, new_h, p)
}

/// A store whose pages all belonged to the tree, and all stayed, is one
/// whose pages all belong to the tree.
pub proof fn lemma_still_fully_used(
    pages: Pages,
    q: Pages,
    root: usize,
    h: nat,
    new_root: usize,
    new_h: nat,
)
    requires
        fully_used(pages, root, h),
        all_stay(pages, q, root, h, new_root, new_h),
    ensures
        fully_used(q, new_root, new_h),
{
    assert forall|p: usize| 0 < p < q.len() implies #[trigger] in_subtree(q, new_root, new_h, p) by {
        if p < pages.len() {
            assert(in_subtree(pages, root, h, p));
        }
    }
}

/// A leaf rewritten on its page keeps its page.
pub proof fn lemma_leaf_stays(pages: Pages, q: Pages, loc: usize)
    requires
        q.len() == pages.len(),
    ensures
        stays_in(pages, q, loc, 0),
{
    assert forall|p: usize| #[trigger] in_subtree(pages, loc, 0, p) implies in_subtree(q, loc, 0, p) by {
        lemma_in_subtree_unfold(pages, loc, 0, p);
        lemma_in_subtree_unfold(q, loc, 0, p);
    }
}

/// A leaf cut in two keeps its page, and the new page is the right half.
pub proof fn lemma_leaf_split_stays(pages: Pages, q: Pages, q2: Pages, loc: usize, right: usize)
    requires
        stays_in(pages, q, loc, 0),
        right == q.len(),
        q2.len() == q.len() + 1,
    ensures
        stays_in_two(pages, q2, loc, 0, right),
{
    lemma_in_subtree_unfold(q2, loc, 0, loc);
    lemma_in_subtree_unfold(q2, right, 0, right);
    assert forall|p: usize| #[trigger] in_subtree(pages, loc, 0, p) implies in_subtree(q2, loc, 0, p) by {
        lemma_in_subtree_unfold(pages, loc, 0, p);
    }
    assert forall|p: usize| pages.len() <= p < q2.len() implies #[trigger] in_subtree(q2, loc, 0, p)
        || in_subtree(q2, right, 0, p) by {
        if p < q.len() {
            assert(in_subtree(q, loc, 0, p));
            lemma_in_subtree_unfold(q, loc, 0, p);
        }
    }
}

/// Pages that stay below the child that `key` routes to stay below the
/// parent.
pub proof fn lemma_lift_stays(
    pages: Pages,
    q: Pages,
    b: nat,
    ploc: usize,
    h: nat,
    lo: int,
    hi: int,
    nxt: Option<usize>,
    key: i32,
    rec: Record,
)
    requires
        h > 0,
        subtree_wf(pages, b, ploc, h, lo, hi, nxt),
        pages[ploc as int] matches Some(NodeView::Internal { keys, children }) && updated_ok(
            pages,
            q,
            b,
            b,
            children[route(keys, key)],
            (h - 1) as nat,
            child_lo(keys, lo, route(keys, key)),
            child_hi(keys, hi, route(keys, key)),
            child_next(pages, children, (h - 1) as nat, nxt, route(keys, key)),
            key,
            rec,
        ) && stays_in(pages, q, children[route(keys, key)], (h - 1) as nat),
    ensures
        stays_in(pages, q, ploc, h),
{
    let keys = pages[ploc as int]->0->Internal_keys;
    let children = pages[ploc as int]->0->Internal_children;
    let hc = (h - 1) as nat;
    lemma_wf_unfold(pages, b, ploc, h, lo, hi, nxt);
    lemma_route(keys, key);
    let i = route(keys, key);
    lemma_siblings_kept(pages, q, b, ploc, h, lo, hi, nxt, i);
    assert forall|p: usize| #[trigger] in_subtree(pages, ploc, h, p) implies in_subtree(q, ploc, h, p) by {
        lemma_in_subtree_unfold(pages, ploc, h, p);
        lemma_in_subtree_unfold(q, ploc, h, p);
        if p != ploc {
            let j = choose|j: int|
                0 <= j < children.len() && in_subtree(pages, #[trigger] children[j], hc, p);
            assert(in_subtree(q, children[j], hc, p));
        }
    }
    assert forall|p: usize| pages.len() <= p < q.len() implies #[trigger] in_subtree(q, ploc, h, p) by {
        assert(in_subtree(q, children[i], hc, p));
        lemma_child_in_parent(q, ploc, h, i, p);
    }
}

/// Pages that stay below a descent's last level stay below the root.
pub proof fn lemma_lift_path_stays(
    pages: Pages,
    q: Pages,
    b: nat,
    key: i32,
    rec: Record,
    top: Level,
    levels: Seq<Level>,
    cur: Level,
)
    requires
        path_ok(pages, b, key, top, levels, cur),
        updated_ok(pages, q, b, b, cur.loc, cur.h, cur.lo, cur.hi, cur.nxt, key, rec),
        stays_in(pages, q, cur.loc, cur.h),
    ensures
        stays_in(pages, q, top.loc, top.h),
    decreases levels.len(),
{
    if levels.len() > 0 {
        let up = levels.last();
        lemma_lift_stays(pages, q, b, up.loc, up.h, up.lo, up.hi, up.nxt, key, rec);
        crate::growth::lemma_lift(pages, q, b, up.loc, up.h, up.lo, up.hi, up.nxt, key, rec);
        lemma_lift_path_stays(pages, q, b, key, rec, top, levels.drop_last(), up);
    }
}

/// Pages that stay below the two halves of a split child stay below the
/// parent that takes the new half in.
pub proof fn lemma_absorb_stays(
    pages: Pages,
    q: Pages,
    q2: Pages,
    b: nat,
    ploc: usize,
    h: nat,
    lo: int,
    hi: int,
    nxt: Option<usize>,
    key: i32,
    rec: Record,
    sep: i32,
    right: usize,
)
    requires
        h > 0,
        subtree_wf(pages, b, ploc, h, lo, hi, nxt),
        pages[ploc as int] matches Some(NodeView::Internal { keys, children }) && split_ok(
            pages,
            q,
            b,
            children[route(keys, key)],
            (h - 1) as nat,
            child_lo(keys, lo, route(keys, key)),
            child_hi(keys, hi, route(keys, key)),
            child_next(pages, children, (h - 1) as nat, nxt, route(keys, key)),
            key,
            rec,
            sep,
            right,
        ) && stays_in_two(pages, q, children[route(keys, key)], (h - 1) as nat, right) && q2.len()
            == q.len() && q2[ploc as int] == Some(
            absorbed(keys, children, route(keys, key), sep, right),
        ),
        differs_only_at(q, q2, ploc),
    ensures
        stays_in(pages, q2, ploc, h),
{
    let keys = pages[ploc as int]->0->Internal_keys;
    let children = pages[ploc as int]->0->Internal_children;
    let hc = (h - 1) as nat;
    lemma_wf_unfold(pages, b, ploc, h, lo, hi, nxt);
    lemma_route(keys, key);
    let i = route(keys, key);
    let c = children[i];
    let clo = child_lo(keys, lo, i);
    let chi = child_hi(keys, hi, i);
    let cnxt = child_next(pages, children, hc, nxt, i);
    let c2 = children.insert(i + 1, right);
    lemma_siblings_kept(pages, q, b, ploc, h, lo, hi, nxt, i);
    assert(!in_subtree(pages, c, hc, ploc));
    lemma_kept_after_write(q, q2, b, c, hc, clo, sep as int, Some(first_leaf(q, right, hc)), ploc);
    lemma_kept_after_write(q, q2, b, right, hc, sep as int, chi, cnxt, ploc);
    assert(c2[i] == c && c2[i + 1] == right);
    assert forall|p: usize| in_subtree(q, c, hc, p) || in_subtree(q, right, hc, p) implies in_subtree(
        q2,
        ploc,
        h,
        p,
    ) by {
        if in_subtree(q, c, hc, p) {
            lemma_child_in_parent(q2, ploc, h, i, p);
        } else {
            lemma_child_in_parent(q2, ploc, h, i + 1, p);
        }
    }
    assert forall|p: usize| #[trigger] in_subtree(pages, ploc, h, p) implies in_subtree(q2, ploc, h, p) by {
        lemma_in_subtree_unfold(pages, ploc, h, p);
        lemma_in_subtree_unfold(q2, ploc, h, p);
        if p != ploc {
            let j = choose|j: int|
                0 <= j < children.len() && in_subtree(pages, #[trigger] children[j], hc, p);
            if j != i {
                assert(!in_subtree(pages, children[j], hc, ploc));
                lemma_kept_after_write(
                    q,
                    q2,
                    b,
                    children[j],
                    hc,
                    child_lo(keys, lo, j),
                    child_hi(keys, hi, j),
                    child_next(pages, children, hc, nxt, j),
                    ploc,
                );
                let j2 = if j < i { j } else { j + 1 };
                assert(c2[j2] == children[j]);
                lemma_child_in_parent(q2, ploc, h, j2, p);
            } else {
                assert(in_subtree(q, c, hc, p) || in_subtree(q, right, hc, p));
            }
        }
    }
    assert forall|p: usize| pages.len() <= p < q2.len() implies #[trigger] in_subtree(q2, ploc, h, p) by {
        assert(in_subtree(q, c, hc, p) || in_subtree(q, right, hc, p));
    }
}

/// Pages that stay below an overfull internal node stay below one of the
/// halves it is cut into.
pub proof fn lemma_split_internal_stays(
    pages: Pages,
    q: Pages,
    q2: Pages,
    b: nat,
    loc: usize,
    h: nat,
    lo: int,
    hi: int,
    nxt: Option<usize>,
    key: i32,
    rec: Record,
    mid: int,
    right: usize,
)
    requires
        b >= 1,
        updated_ok(pages, q, b, b + 1, loc, h, lo, hi, nxt, key, rec),
        stays_in(pages, q, loc, h),
        q[loc as int] matches Some(NodeView::Internal { keys, children }) && {
            &&& keys.len() == b + 1
            &&& mid == keys.len() / 2
            &&& q2[loc as int] == Some(left_half(keys, children, mid))
            &&& q2[right as int] == Some(right_half(keys, children, mid))
        },
        right == q.len(),
        q2.len() == q.len() + 1,
        differs_only_at(q, q2, loc),
    ensures
        stays_in_two(pages, q2, loc, h, right),
{
    let keys = q[loc as int]->0->Internal_keys;
    let children = q[loc as int]->0->Internal_children;
    let hc = (h - 1) as nat;
    let cl = children.subrange(0, mid + 1);
    let cr = children.subrange(mid + 1, children.len() as int);
    lemma_children_kept(q, q2, b, keys, children, hc, lo, hi, nxt, loc);
    assert forall|p: usize| #[trigger] in_subtree(q, loc, h, p) implies in_subtree(q2, loc, h, p)
        || in_subtree(q2, right, h, p) by {
        lemma_in_subtree_unfold(q, loc, h, p);
        lemma_in_subtree_unfold(q2, loc, h, p);
        lemma_in_subtree_unfold(q2, right, h, p);
        if p != loc {
            let j = choose|j: int|
                0 <= j < children.len() && in_subtree(q, #[trigger] children[j], hc, p);
            assert(in_subtree(q2, children[j], hc, p));
            if j <= mid {
                assert(cl[j] == children[j]);
                lemma_child_in_parent(q2, loc, h, j, p);
            } else {
                assert(cr[j - (mid + 1)] == children[j]);
                lemma_child_in_parent(q2, right, h, j - (mid + 1), p);
            }
        }
    }
    assert forall|p: usize| #[trigger] in_subtree(pages, loc, h, p) implies in_subtree(q2, loc, h, p)
        || in_subtree(q2, right, h, p) by {
        assert(in_subtree(q, loc, h, p));
    }
    assert forall|p: usize| pages.len() <= p < q2.len() implies #[trigger] in_subtree(q2, loc, h, p)
        || in_subtree(q2, right, h, p) by {
        if p < q.len() {
            assert(in_subtree(q, loc, h, p));
        } else {
            lemma_in_subtree_unfold(q2, right, h, right);
        }
    }
}

/// Pages that stay below the two halves of the old root stay below the
/// new root, and the page of the new root is below itself.
pub proof fn lemma_root_split_stays(
    pages: Pages,
    q: Pages,
    q3: Pages,
    b: nat,
    root: usize,
    h: nat,
    key: i32,
    rec: Record,
    sep: i32,
    right: usize,
    new_root: usize,
)
    requires
        b >= 1,
        pages.len() > 0,
        pages[0] == Some(NodeView::Header { root }),
        subtree_wf(pages, b, root, h, key_floor(), key_ceiling(), None),
        split_ok(pages, q, b, root, h, key_floor(), key_ceiling(), None, key, rec, sep, right),
        stays_in_two(pages, q, root, h, right),
        new_root == q.len(),
        q3.len() == q.len() + 1,
        q3[new_root as int] == Some(grown_root(sep, root, right)),
        differs_only_at(q, q3, 0),
    ensures
        all_stay(pages, q3, root, h, new_root, h + 1),
{
    let lo = key_floor();
    let hi = key_ceiling();
    let children = seq![root, right];
    if in_subtree(pages, root, h, 0) {
        crate::shape_lemmas::lemma_subtree_pages(pages, b, root, h, lo, hi, None, 0);
    }
    assert(q[0] == pages[0]);
    if in_subtree(q, root, h, 0) {
        crate::shape_lemmas::lemma_subtree_pages(
            q,
            b,
            root,
            h,
            lo,
            sep as int,
            Some(first_leaf(q, right, h)),
            0,
        );
    }
    if in_subtree(q, right, h, 0) {
        crate::shape_lemmas::lemma_subtree_pages(q, b, right, h, sep as int, hi, None, 0);
    }
    lemma_kept_after_write(q, q3, b, root, h, lo, sep as int, Some(first_leaf(q, right, h)), 0);
    lemma_kept_after_write(q, q3, b, right, h, sep as int, hi, None, 0);
    assert(children[0] == root && children[1] == right);
    assert forall|p: usize| in_subtree(q, root, h, p) || in_subtree(q, right, h, p) implies in_subtree(
        q3,
        new_root,
        (h + 1) as nat,
        p,
    ) by {
        if in_subtree(q, root, h, p) {
            lemma_child_in_parent(q3, new_root, (h + 1) as nat, 0, p);
        } else {
            lemma_child_in_parent(q3, new_root, (h + 1) as nat, 1, p);
        }
    }
    assert forall|p: usize| #[trigger] in_subtree(pages, root, h, p) implies in_subtree(
        q3,
        new_root,
        (h + 1) as nat,
        p,
    ) by {
        assert(in_subtree(q, root, h, p) || in_subtree(q, right, h, p));
    }
    assert forall|p: usize| pages.len() <= p < q3.len() implies #[trigger] in_subtree(
        q3,
        new_root,
        (h + 1) as nat,
        p,
    ) by {
        if p < q.len() {
            assert(in_subtree(q, root, h, p) || in_subtree(q, right, h, p));
        } else {
            lemma_in_subtree_unfold(q3, new_root, (h + 1) as nat, new_root);
        }
    }
}

/// Whatever height the tree has after an insertion, every page that was
/// below the old root, and every page that the store gained, is below the
/// new root.
pub open spec fn insert_kept(c: InsertCtx, q: Pages, new_root: usize) -> bool {
    &&& inserted_ok(c.pages, q, c.b, c.root, c.h, new_root, c.h, c.key, c.rec) ==> all_stay(
        c.pages,
        q,
        c.root,
        c.h,
        new_root,
        c.h,
    )
    &&& inserted_ok(c.pages, q, c.b, c.root, c.h, new_root, c.h + 1, c.key, c.rec) ==> all_stay(
        c.pages,
        q,
        c.root,
        c.h,
        new_root,
        c.h + 1,
    )
}

/// Pages that stay below the new root of a tree of height `h2` stay
/// whatever height is ascribed to the tree, since it has one height only.
pub proof fn lemma_insert_kept(c: InsertCtx, q: Pages, new_root: usize, h2: nat)
    requires
        inserted_ok(c.pages, q, c.b, c.root, c.h, new_root, h2, c.key, c.rec),
        all_stay(c.pages, q, c.root, c.h, new_root, h2),
        h2 == c.h || h2 == c.h + 1,
    ensures
        insert_kept(c, q, new_root),
{
    let other: nat = if h2 == c.h {
        (c.h + 1) as nat
    } else {
        c.h
    };
    if inserted_ok(c.pages, q, c.b, c.root, c.h, new_root, other, c.key, c.rec) {
        lemma_height_unique(
            q,
            c.b,
            new_root,
            h2,
            other,
            key_floor(),
            key_ceiling(),
            None,
            key_floor(),
            key_ceiling(),
            None,
        );
    }
}

} // verus!
