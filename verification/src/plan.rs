//! The pages that an insertion leaves behind, page by page: where the
//! record goes, which nodes are cut in two and where, and what is written
//! to new pages at the end of the store.

use vstd::prelude::*;
use crate::growth::{absorbed, left_half, right_half};
use crate::leaf_growth::{is_slot, leaf_put, left_leaf, right_leaf};
use crate::node::NodeView;
use crate::path_growth::{InsertCtx, Level, grown_root, level_below, path_ok};
use crate::record::Record;
use crate::shape::{Pages, route};
use crate::shape_lemmas::lemma_route;
use crate::storage::pages_after_write;

verus! {

/// Walks right from slot `i` while the key in the slot is less than `key`.
pub open spec fn slot_from(keys: Seq<i32>, key: i32, i: int) -> int
    decreases keys.len() - i,
{
    if 0 <= i < keys.len() && keys[i] < key {
        slot_from(keys, key, i + 1)
    } else {
        i
    }
}

/// The slot of `key` in a leaf: the first slot whose key is at least
/// `key`, or the number of keys if there is none.
pub open spec fn slot(keys: Seq<i32>, key: i32) -> int {
    slot_from(keys, key, 0)
}

/// Walking right from a slot that every earlier key stays below ends at
/// the slot of the key.
pub proof fn lemma_slot_from(keys: Seq<i32>, key: i32, i: int)
    requires
        0 <= i <= keys.len(),
        forall|j: int| 0 <= j < i ==> #[trigger] keys[j] < key,
    ensures
        is_slot(keys, key, slot_from(keys, key, i)),
    decreases keys.len() - i,
{
    if i < keys.len() && keys[i] < key {
        lemma_slot_from(keys, key, i + 1);
    }
}

/// Only one slot is the first whose key is at least `key`.
pub proof fn lemma_slot_unique(keys: Seq<i32>, key: i32, pos: int)
    requires
        is_slot(keys, key, pos),
    ensures
        pos == slot(keys, key),
{
    lemma_slot_from(keys, key, 0);
    let q = slot(keys, key);
    if pos < q {
        assert(keys[pos] < key);
    } else if q < pos {
        assert(keys[q] < key);
    }
}

/// What an insertion made of a subtree: it still fits below its old top,
/// or it was cut in two, with a separator and a new page to hand up.
pub enum Grown {
    Fit { pages: Pages },
    Split { pages: Pages, sep: i32, right: usize },
}

/// An overfull leaf cut in two: the first half of its keys, rounded up,
/// stays on the page and is chained to the rest, which goes to a new page
/// at the end of the store; the first key of the rest is the separator.
pub open spec fn cut_leaf(
    q: Pages,
    loc: usize,
    keys: Seq<i32>,
    values: Seq<Record>,
    next: Option<usize>,
) -> Grown {
    let mid = (keys.len() as int + 1) / 2;
    let right = q.len() as usize;
    Grown::Split {
        pages: q.update(loc as int, Some(left_leaf(keys, values, mid, right))).push(
            Some(right_leaf(keys, values, mid, next)),
        ),
        sep: keys[mid],
        right,
    }
}

/// An overfull internal node cut in two at its middle key: the keys before
/// it stay on the page, the keys after it go to a new page at the end of
/// the store, and the middle key itself is the separator.
pub open spec fn cut_internal(q: Pages, loc: usize, keys: Seq<i32>, children: Seq<usize>) -> Grown {
    let mid = keys.len() as int / 2;
    Grown::Split {
        pages: q.update(loc as int, Some(left_half(keys, children, mid))).push(
            Some(right_half(keys, children, mid)),
        ),
        sep: keys[mid],
        right: q.len() as usize,
    }
}

/// What putting `rec` under `key` into the leaf at `loc` makes of it. The
/// record goes to the slot of its key, replacing a record with the same
/// key. A leaf that then holds more than `b` keys is cut after the first
/// half of them, rounded up: that half stays on the page and is chained to
/// the rest, which goes to a new page at the end of the store; the first
/// key of the rest is copied up as separator.
pub open spec fn grow_leaf(pages: Pages, b: nat, loc: usize, key: i32, rec: Record) -> Grown {
    let keys = pages[loc as int]->0->Leaf_keys;
    let values = pages[loc as int]->0->Leaf_values;
    let next = pages[loc as int]->0->Leaf_next;
    let put = leaf_put(keys, values, next, slot(keys, key), key, rec);
    let k2 = put->Leaf_keys;
    let v2 = put->Leaf_values;
    if k2.len() <= b {
        Grown::Fit { pages: pages.update(loc as int, Some(put)) }
    } else {
        cut_leaf(pages, loc, k2, v2, next)
    }
}

/// What handing a separator and a new page to the internal node at `loc`
/// makes of it. Both are inserted where `key` routes to. A node that then
/// holds more than `b` keys is cut at its middle key: the keys before it
/// stay on the page, the keys after it go to a new page at the end of the
/// store, and the middle key itself is pushed up.
pub open spec fn absorb_split(
    q: Pages,
    b: nat,
    loc: usize,
    node: NodeView,
    key: i32,
    sep: i32,
    right: usize,
) -> Grown {
    let keys = node->Internal_keys;
    let children = node->Internal_children;
    let i = route(keys, key);
    let k2 = keys.insert(i, sep);
    let c2 = children.insert(i + 1, right);
    if k2.len() <= b {
        Grown::Fit { pages: q.update(loc as int, Some(absorbed(keys, children, i, sep, right))) }
    } else {
        cut_internal(q, loc, k2, c2)
    }
}

/// What one level above makes of what happened below it.
pub open spec fn lift_step(pages: Pages, b: nat, up: usize, key: i32, g: Grown) -> Grown {
    match g {
        Grown::Fit { pages: q } => g,
        Grown::Split { pages: q, sep, right } => absorb_split(
            q,
            b,
            up,
            pages[up as int]->0,
            key,
            sep,
            right,
        ),
    }
}

/// What inserting `rec` under `key` makes of the subtree at `loc`.
pub open spec fn grow(pages: Pages, b: nat, loc: usize, h: nat, key: i32, rec: Record) -> Grown
    decreases h,
{
    if h == 0 {
        grow_leaf(pages, b, loc, key, rec)
    } else {
        let keys = pages[loc as int]->0->Internal_keys;
        let children = pages[loc as int]->0->Internal_children;
        lift_step(
            pages,
            b,
            loc,
            key,
            grow(pages, b, children[route(keys, key)], (h - 1) as nat, key, rec),
        )
    }
}

/// The pages and the root after the insertion reached the top: if the old
/// root was cut in two, a new root with the separator and the two halves
/// is written to a new page at the end of the store, and the header on
/// page 0 is rewritten to name it.
pub open spec fn conclude(g: Grown, root: usize) -> (Pages, usize) {
    match g {
        Grown::Fit { pages } => (pages, root),
        Grown::Split { pages, sep, right } => {
            let new_root = pages.len() as usize;
            (
                pages.push(Some(grown_root(sep, root, right))).update(
                    0,
                    Some(NodeView::Header { root: new_root }),
                ),
                new_root,
            )
        },
    }
}

/// The pages and the root that inserting `rec` under `key` leaves behind.
pub open spec fn insert_pages(
    pages: Pages,
    b: nat,
    root: usize,
    h: nat,
    key: i32,
    rec: Record,
) -> (Pages, usize) {
    conclude(grow(pages, b, root, h, key, rec), root)
}

/// What the levels of a descent, from the last one up, make of what
/// happened where the descent ended.
pub open spec fn finish(pages: Pages, b: nat, key: i32, levels: Seq<Level>, g: Grown) -> Grown
    decreases levels.len(),
{
    if levels.len() == 0 {
        g
    } else {
        finish(
            pages,
            b,
            key,
            levels.drop_last(),
            lift_step(pages, b, levels.last().loc, key, g),
        )
    }
}

/// The store holds pages `q` and names `root` once the levels of the
/// descent have made of `g` what they make of it.
pub open spec fn reached(
    c: InsertCtx,
    levels: Seq<Level>,
    g: Grown,
    q: Pages,
    root: usize,
) -> bool {
    (q, root) == conclude(finish(c.pages, c.b, c.key, levels, g), c.root)
}

/// Nothing changes above a subtree that still fits below its top.
pub proof fn lemma_finish_fit(pages: Pages, b: nat, key: i32, levels: Seq<Level>, q: Pages)
    ensures
        finish(pages, b, key, levels, Grown::Fit { pages: q }) == (Grown::Fit { pages: q }),
    decreases levels.len(),
{
    if levels.len() > 0 {
        lemma_finish_fit(pages, b, key, levels.drop_last(), q);
    }
}

/// What an insertion makes of the tree is what the levels of the descent
/// make of what it makes of the subtree where the descent stands.
pub proof fn lemma_grow_along_path(
    pages: Pages,
    b: nat,
    key: i32,
    rec: Record,
    top: Level,
    levels: Seq<Level>,
    cur: Level,
)
    requires
        path_ok(pages, b, key, top, levels, cur),
    ensures
        grow(pages, b, top.loc, top.h, key, rec) == finish(
            pages,
            b,
            key,
            levels,
            grow(pages, b, cur.loc, cur.h, key, rec),
        ),
    decreases levels.len(),
{
    if levels.len() > 0 {
        let up = levels.last();
        lemma_grow_along_path(pages, b, key, rec, top, levels.drop_last(), up);
        assert(level_below(pages, up, key) == cur);
    }
}

/// A write to a page of the store replaces that page; a write to the page
/// at the end of the store adds it.
pub proof fn lemma_write_is_update(q: Pages, loc: usize, node: NodeView)
    ensures
        loc < q.len() ==> pages_after_write(q, loc as int, node) == q.update(loc as int, Some(node)),
        loc == q.len() ==> pages_after_write(q, loc as int, node) == q.push(Some(node)),
{
    if loc < q.len() {
        assert(pages_after_write(q, loc as int, node) =~= q.update(loc as int, Some(node)));
    }
    if loc == q.len() {
        assert(pages_after_write(q, loc as int, node) =~= q.push(Some(node)));
    }
}

/// The pages that an insertion has made so far.
pub open spec fn grown_pages(g: Grown) -> Pages {
    match g {
        Grown::Fit { pages } => pages,
        Grown::Split { pages, sep, right } => pages,
    }
}

/// The number of pages the store holds once the levels of the descent
/// have made of `g` what they make of it.
pub open spec fn final_len(c: InsertCtx, levels: Seq<Level>, g: Grown) -> nat {
    conclude(finish(c.pages, c.b, c.key, levels, g), c.root).0.len()
}

/// A node that takes a separator in is cut in two, which adds one page, if
/// and only if it was full.
pub proof fn lemma_step_len(pages: Pages, b: nat, up: usize, key: i32, g: Grown)
    requires
        g is Split,
        up < grown_pages(g).len(),
    ensures
        ({
            let full = pages[up as int]->0->Internal_keys.len() >= b;
            let s = lift_step(pages, b, up, key, g);
            &&& s is Split == full
            &&& grown_pages(s).len() == grown_pages(g).len() + (if full {
                1nat
            } else {
                0nat
            })
        }),
{
    lemma_route(pages[up as int]->0->Internal_keys, key);
}

/// The pages of a descent's levels lie in the store.
pub open spec fn levels_within(levels: Seq<Level>, n: nat) -> bool {
    forall|t: int| 0 <= t < levels.len() ==> (#[trigger] levels[t]).loc < n
}

/// The levels of a descent are pages of the store.
pub proof fn lemma_levels_within(
    pages: Pages,
    b: nat,
    key: i32,
    top: Level,
    levels: Seq<Level>,
    cur: Level,
)
    requires
        path_ok(pages, b, key, top, levels, cur),
    ensures
        levels_within(levels, pages.len()),
    decreases levels.len(),
{
    if levels.len() > 0 {
        lemma_levels_within(pages, b, key, top, levels.drop_last(), levels.last());
        assert forall|t: int| 0 <= t < levels.len() implies (#[trigger] levels[t]).loc < pages.len() by {
            if t < levels.len() - 1 {
                assert(levels.drop_last()[t] == levels[t]);
            }
        }
    }
}

/// An insertion never takes pages away: the store ends up with at least
/// the pages made so far, and with exactly those if no split is pending.
pub proof fn lemma_final_len(c: InsertCtx, levels: Seq<Level>, g: Grown)
    requires
        levels_within(levels, grown_pages(g).len()),
    ensures
        final_len(c, levels, g) >= grown_pages(g).len(),
        g is Fit ==> final_len(c, levels, g) == grown_pages(g).len(),
        g is Split && levels.len() == 0 ==> final_len(c, levels, g) == grown_pages(g).len() + 1,
    decreases levels.len(),
{
    match g {
        Grown::Fit { pages } => {
            lemma_finish_fit(c.pages, c.b, c.key, levels, pages);
        },
        Grown::Split { pages, sep, right } => {
            if levels.len() > 0 {
                let up = levels.last().loc;
                lemma_step_len(c.pages, c.b, up, c.key, g);
                let s = lift_step(c.pages, c.b, up, c.key, g);
                assert forall|t: int| 0 <= t < levels.drop_last().len() implies (
                #[trigger] levels.drop_last()[t]).loc < grown_pages(s).len() by {
                    assert(levels.drop_last()[t] == levels[t]);
                }
                lemma_final_len(c, levels.drop_last(), s);
            }
        },
    }
}

} // verus!
