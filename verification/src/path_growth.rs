//! The path from the root to the leaf that an insertion touches, and how
//! what happened at the end of the path reaches the root.

use vstd::prelude::*;
use crate::config::{MAX_ORDER, MAX_PAGES};
use crate::growth::{
    differs_only_at, lemma_kept_after_write, lemma_lift, split_ok, updated_ok,
};
use crate::node::NodeView;
use crate::record::Record;
use crate::shape::{
    Pages, child_hi, child_lo, child_next, children_disjoint, children_exclude, first_leaf,
    in_subtree, key_ceiling, key_floor, keys_sorted, keys_within, node_ok, route, subtree_get,
    subtree_wf, tree_wf, updated,
};
use crate::shape_lemmas::{
    lemma_child_next, lemma_children_wf_unfold, lemma_get_unfold, lemma_node_get_internal,
    lemma_route, lemma_route_unique, lemma_subtree_pages, lemma_wf_unfold,
};

verus! {

/// One step of a descent: a page, the height of the subtree below it, the
/// range its keys must lie in, and what must follow its last leaf.
pub struct Level {
    pub loc: usize,
    pub h: nat,
    pub lo: int,
    pub hi: int,
    pub nxt: Option<usize>,
}

/// The level of a whole tree.
pub open spec fn root_level(root: usize, h: nat) -> Level {
    Level { loc: root, h, lo: key_floor(), hi: key_ceiling(), nxt: None }
}

/// The subtree at a level is well formed.
pub open spec fn level_wf(pages: Pages, b: nat, l: Level) -> bool {
    subtree_wf(pages, b, l.loc, l.h, l.lo, l.hi, l.nxt)
}

/// The level that a descent for `key` reaches from the internal node at `up`.
pub open spec fn level_below(pages: Pages, up: Level, key: i32) -> Level {
    let keys = pages[up.loc as int]->0->Internal_keys;
    let children = pages[up.loc as int]->0->Internal_children;
    let i = route(keys, key);
    Level {
        loc: children[i],
        h: (up.h - 1) as nat,
        lo: child_lo(keys, up.lo, i),
        hi: child_hi(keys, up.hi, i),
        nxt: child_next(pages, children, (up.h - 1) as nat, up.nxt, i),
    }
}

/// `levels` are the internal nodes that a descent for `key` visits from
/// `top` down, and `cur` is where it stands after them.
pub open spec fn path_ok(
    pages: Pages,
    b: nat,
    key: i32,
    top: Level,
    levels: Seq<Level>,
    cur: Level,
) -> bool
    decreases levels.len(),
{
    if levels.len() == 0 {
        cur == top
    } else {
        let up = levels.last();
        &&& level_wf(pages, b, up)
        &&& up.h > 0
        &&& up.loc < pages.len()
        &&& pages[up.loc as int] matches Some(NodeView::Internal { .. })
        &&& level_below(pages, up, key) == cur
        &&& path_ok(pages, b, key, top, levels.drop_last(), up)
    }
}

/// The captured path holds, for each level, its page and the node on it.
pub open spec fn path_matches(
    pages: Pages,
    path: Seq<(usize, crate::node::InternalNode)>,
    levels: Seq<Level>,
) -> bool {
    &&& path.len() == levels.len()
    &&& forall|j: int|
        0 <= j < path.len() ==> (#[trigger] path[j]).0 == levels[j].loc && pages[levels[j].loc as int]
            == Some(path[j].1@)
}

/// A descent of `n` steps from a tree of height `h` stands `h - n` above the leaves.
pub proof fn lemma_path_height(
    pages: Pages,
    b: nat,
    key: i32,
    top: Level,
    levels: Seq<Level>,
    cur: Level,
)
    requires
        path_ok(pages, b, key, top, levels, cur),
    ensures
        cur.h + levels.len() == top.h,
    decreases levels.len(),
{
    if levels.len() > 0 {
        lemma_path_height(pages, b, key, top, levels.drop_last(), levels.last());
    }
}

/// An update absorbed where a descent ended is an update of the whole tree.
pub proof fn lemma_lift_path(
    pages: Pages,
    q: Pages,
    b: nat,
    key: i32,
    rec: Record,
    top: Level,
    levels: Seq<Level>,
    cur: Level,
)
    requires
        path_ok(pages, b, key, top, levels, cur),
        updated_ok(pages, q, b, b, cur.loc, cur.h, cur.lo, cur.hi, cur.nxt, key, rec),
    ensures
        updated_ok(pages, q, b, b, top.loc, top.h, top.lo, top.hi, top.nxt, key, rec),
    decreases levels.len(),
{
    if levels.len() > 0 {
        let up = levels.last();
        lemma_lift(pages, q, b, up.loc, up.h, up.lo, up.hi, up.nxt, key, rec);
        lemma_lift_path(pages, q, b, key, rec, top, levels.drop_last(), up);
    }
}

/// A top node within the capacity makes an updated subtree one that is
/// well formed at rest.
pub proof fn lemma_within_capacity(
    pages: Pages,
    q: Pages,
    b: nat,
    loc: usize,
    h: nat,
    lo: int,
    hi: int,
    nxt: Option<usize>,
    key: i32,
    rec: Record,
)
    requires
        updated_ok(pages, q, b, b + 1, loc, h, lo, hi, nxt, key, rec),
        match q[loc as int]->0 {
            NodeView::Leaf { keys, .. } => keys.len() <= b,
            NodeView::Internal { keys, .. } => keys.len() <= b,
            _ => true,
        },
    ensures
        updated_ok(pages, q, b, b, loc, h, lo, hi, nxt, key, rec),
{
}

/// The tree that holds `rec` under `key` and otherwise what the tree at
/// `root` in `pages` held.
pub open spec fn inserted_ok(
    pages: Pages,
    q: Pages,
    b: nat,
    root: usize,
    h: nat,
    new_root: usize,
    new_h: nat,
    key: i32,
    rec: Record,
) -> bool {
    &&& tree_wf(q, b, new_root, new_h)
    &&& q.len() > 0
    &&& q[0] == Some(NodeView::Header { root: new_root })
    &&& pages.len() <= q.len()
    &&& forall|k: i32| #[trigger]
        subtree_get(q, new_root, new_h, k) == updated(subtree_get(pages, root, h, k), k, key, rec)
}

/// An update of the subtree at the root is an insertion into the tree.
pub proof fn lemma_updated_root(
    pages: Pages,
    q: Pages,
    b: nat,
    root: usize,
    h: nat,
    key: i32,
    rec: Record,
)
    requires
        tree_wf(pages, b, root, h),
        pages.len() > 0,
        pages[0] == Some(NodeView::Header { root }),
        updated_ok(pages, q, b, b, root, h, key_floor(), key_ceiling(), None, key, rec),
    ensures
        inserted_ok(pages, q, b, root, h, root, h, key, rec),
{
    lemma_wf_unfold(q, b, root, h, key_floor(), key_ceiling(), None);
    if in_subtree(pages, root, h, 0) {
        lemma_subtree_pages(pages, b, root, h, key_floor(), key_ceiling(), None, 0);
    }
}

/// The root that a split of the old root puts above its two halves.
pub open spec fn grown_root(sep: i32, left: usize, right: usize) -> NodeView {
    NodeView::Internal { keys: seq![sep], children: seq![left, right] }
}

/// When the root was split, a new root above the two halves, written to a
/// new page at the end of the store and named by the header, makes a tree
/// one level higher that holds the new record.
pub proof fn lemma_root_split(
    pages: Pages,
    q: Pages,
    q3: Pages,
    b: nat,
    root: usize,
    h: nat,
    key: i32,
    rec: Record,
    sep: i32,
    right: usize,
    new_root: usize,
)
    requires
        b >= 1,
        tree_wf(pages, b, root, h),
        pages.len() > 0,
        pages[0] == Some(NodeView::Header { root }),
        split_ok(pages, q, b, root, h, key_floor(), key_ceiling(), None, key, rec, sep, right),
        new_root == q.len(),
        q3.len() == q.len() + 1,
        q3[new_root as int] == Some(grown_root(sep, root, right)),
        q3[0] == Some(NodeView::Header { root: new_root }),
        differs_only_at(q, q3, 0),
    ensures
        inserted_ok(pages, q3, b, root, h, new_root, h + 1, key, rec),
{
    let keys = seq![sep];
    let children = seq![root, right];
    let lo = key_floor();
    let hi = key_ceiling();
    let h1 = h + 1;
    if in_subtree(pages, root, h, 0) {
        lemma_subtree_pages(pages, b, root, h, lo, hi, None, 0);
    }
    assert(q[0] == pages[0]);
    if in_subtree(q, root, h, 0) {
        lemma_subtree_pages(q, b, root, h, lo, sep as int, Some(first_leaf(q, right, h)), 0);
    }
    if in_subtree(q, right, h, 0) {
        lemma_subtree_pages(q, b, right, h, sep as int, hi, None, 0);
    }
    lemma_kept_after_write(q, q3, b, root, h, lo, sep as int, Some(first_leaf(q, right, h)), 0);
    lemma_kept_after_write(q, q3, b, right, h, sep as int, hi, None, 0);
    lemma_children_wf_unfold(q3, b, keys, children, h, lo, hi, None);
    assert forall|j: int| 0 <= j < children.len() implies subtree_wf(
        q3,
        b,
        #[trigger] children[j],
        h,
        child_lo(keys, lo, j),
        child_hi(keys, hi, j),
        child_next(q3, children, h, None, j),
    ) by {
        lemma_child_next(q3, children, h, None, j);
    }
    assert(children_exclude(q3, children, h, new_root));
    assert(children_disjoint(q3, children, h)) by {
        assert forall|i: int, j: int, p: usize|
            0 <= i < j < children.len() && #[trigger] in_subtree(
                q3,
                children[i],
                h,
                p,
            ) implies !#[trigger] in_subtree(q3, children[j], h, p) by {
            assert(i == 0 && j == 1);
            assert(in_subtree(q, root, h, p));
        }
    }
    assert(keys_sorted(keys));
    assert(keys_within(keys, lo, hi));
    lemma_wf_unfold(q3, b, new_root, h1 as nat, lo, hi, None);
    assert(node_ok(q3, b, b, q3[new_root as int]->0, new_root, h1 as nat, lo, hi, None));
    assert forall|k: i32| #[trigger]
        subtree_get(q3, new_root, h1 as nat, k) == updated(subtree_get(pages, root, h, k), k, key, rec) by {
        lemma_get_unfold(q3, new_root, h1 as nat, k);
        lemma_node_get_internal(q3, keys, children, h1 as nat, k);
        if k < sep {
            assert(crate::shape::is_route(keys, k, 0));
            lemma_route_unique(keys, k, 0);
            assert(subtree_get(q, root, h, k) == updated(subtree_get(pages, root, h, k), k, key, rec));
        } else {
            assert(crate::shape::is_route(keys, k, 1));
            lemma_route_unique(keys, k, 1);
            assert(subtree_get(q, root, h, k) == subtree_get(q, root, h, k));
            assert(subtree_get(q, right, h, k) == updated(subtree_get(pages, root, h, k), k, key, rec));
        }
    }
}

/// What one insertion starts from: the pages, the capacity, the root and
/// height of the tree, and the record to store under its key.
pub struct InsertCtx {
    pub pages: Pages,
    pub b: nat,
    pub root: usize,
    pub h: nat,
    pub key: i32,
    pub rec: Record,
}

/// The insertion starts from a well-formed tree.
pub open spec fn ctx_ok(c: InsertCtx) -> bool {
    &&& 1 <= c.b <= MAX_ORDER
    &&& 0 < c.pages.len() <= MAX_PAGES
    &&& c.pages[0] == Some(NodeView::Header { root: c.root })
    &&& tree_wf(c.pages, c.b, c.root, c.h)
    &&& c.rec.key == c.key
}

/// The insertion is complete: `q` holds a tree with the record in it,
/// either below the old root and as high as before, or below a new root
/// and one level higher.
pub open spec fn insert_done(c: InsertCtx, q: Pages, new_root: usize) -> bool {
    &&& q.len() <= MAX_PAGES
    &&& (new_root == c.root && inserted_ok(
        c.pages,
        q,
        c.b,
        c.root,
        c.h,
        new_root,
        c.h,
        c.key,
        c.rec,
    ) || new_root != c.root && inserted_ok(
        c.pages,
        q,
        c.b,
        c.root,
        c.h,
        new_root,
        c.h + 1,
        c.key,
        c.rec,
    ))
}

/// What is left of the captured path once a split has been handed up from
/// below its last node: every full node from the end is taken off, since
/// it is cut in two and hands a split up in turn, and so is the first node
/// that has room, where the climb ends.
pub open spec fn path_left(
    path: Seq<(usize, crate::node::InternalNode)>,
    b: nat,
) -> Seq<(usize, crate::node::InternalNode)>
    decreases path.len(),
{
    if path.len() == 0 {
        path
    } else if path.last().1.keys@.len() < b {
        path.drop_last()
    } else {
        path_left(path.drop_last(), b)
    }
}

/// Where the descent of an insertion stands: the levels it went through,
/// matched by the captured path, and the level it is at.
pub open spec fn descent_ok(
    c: InsertCtx,
    path: Seq<(usize, crate::node::InternalNode)>,
    levels: Seq<Level>,
    cur: Level,
) -> bool {
    &&& ctx_ok(c)
    &&& path_ok(c.pages, c.b, c.key, root_level(c.root, c.h), levels, cur)
    &&& path_matches(c.pages, path, levels)
}

/// Dropping the last level of a descent leaves a descent that stands at
/// that level.
pub proof fn lemma_descent_pop(
    c: InsertCtx,
    path: Seq<(usize, crate::node::InternalNode)>,
    levels: Seq<Level>,
    cur: Level,
)
    requires
        descent_ok(c, path, levels, cur),
        path.len() > 0,
    ensures
        descent_ok(c, path.drop_last(), levels.drop_last(), levels.last()),
        path.last().0 == levels.last().loc,
        c.pages[levels.last().loc as int] == Some(path.last().1@),
        level_wf(c.pages, c.b, levels.last()),
        levels.last().h > 0,
        level_below(c.pages, levels.last(), c.key) == cur,
{
}

/// A descent that steps from an internal node to the child its key routes
/// to is a descent one level longer.
pub proof fn lemma_descent_push(
    c: InsertCtx,
    path: Seq<(usize, crate::node::InternalNode)>,
    levels: Seq<Level>,
    cur: Level,
    node: crate::node::InternalNode,
)
    requires
        descent_ok(c, path, levels, cur),
        level_wf(c.pages, c.b, cur),
        cur.lo <= c.key < cur.hi,
        cur.loc < c.pages.len(),
        c.pages[cur.loc as int] == Some(node@),
    ensures
        cur.h > 0,
        descent_ok(
            c,
            path.push((cur.loc, node)),
            levels.push(cur),
            level_below(c.pages, cur, c.key),
        ),
        level_wf(c.pages, c.b, level_below(c.pages, cur, c.key)),
        level_below(c.pages, cur, c.key).lo <= c.key < level_below(c.pages, cur, c.key).hi,
        0 <= route(node.keys@, c.key) < node.children@.len(),
        subtree_get(c.pages, cur.loc, cur.h, c.key) == subtree_get(
            c.pages,
            level_below(c.pages, cur, c.key).loc,
            level_below(c.pages, cur, c.key).h,
            c.key,
        ),
{
    let keys = node.keys@;
    let children = node.children@;
    lemma_wf_unfold(c.pages, c.b, cur.loc, cur.h, cur.lo, cur.hi, cur.nxt);
    lemma_route(keys, c.key);
    let i = route(keys, c.key);
    lemma_children_wf_unfold(c.pages, c.b, keys, children, (cur.h - 1) as nat, cur.lo, cur.hi, cur.nxt);
    assert(subtree_wf(
        c.pages,
        c.b,
        children[i],
        (cur.h - 1) as nat,
        child_lo(keys, cur.lo, i),
        child_hi(keys, cur.hi, i),
        child_next(c.pages, children, (cur.h - 1) as nat, cur.nxt, i),
    ));
    if i > 0 {
        assert(keys[i - 1] <= c.key);
    }
    lemma_get_unfold(c.pages, cur.loc, cur.h, c.key);
    lemma_node_get_internal(c.pages, keys, children, cur.h, c.key);
    let l2 = levels.push(cur);
    let p2 = path.push((cur.loc, node));
    assert(l2.drop_last() =~= levels);
    assert(l2.last() == cur);
}

} // verus!
