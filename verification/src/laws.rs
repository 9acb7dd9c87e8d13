//! What holds of the index whatever is done with it, stated over the map
//! a tree holds and the pages it stands on.

use vstd::prelude::*;
use crate::chain::{
    ascending, chained, flat, holds_exactly, lemma_leaves_chained, lemma_leaves_hold,
    subtree_leaves,
};
use crate::node::NodeView;
use crate::reach::fully_used;
use crate::record::Record;
use crate::shape::{
    Pages, child_hi, child_lo, child_next, first_leaf, in_subtree, key_ceiling, key_floor,
    keys_sorted, lookup, subtree_get, subtree_wf, tree_wf, updated,
};
use crate::shape_lemmas::{lemma_children_wf_unfold, lemma_in_subtree_unfold, lemma_wf_unfold};
use crate::storage::{page_at, pages_after_write};

verus! {

/// The map that a fresh tree holds after the records of `recs` were
/// inserted one after the other.
pub open spec fn model_after(recs: Seq<Record>) -> Map<i32, Record>
    decreases recs.len(),
{
    if recs.len() == 0 {
        Map::empty()
    } else {
        model_after(recs.drop_last()).insert(recs.last().key, recs.last())
    }
}

/// The last record of `recs` that has key `k`, if any.
pub open spec fn last_with_key(recs: Seq<Record>, k: i32) -> Option<Record>
    decreases recs.len(),
{
    if recs.len() == 0 {
        None
    } else if recs.last().key == k {
        Some(recs.last())
    } else {
        last_with_key(recs.drop_last(), k)
    }
}

/// After a record was inserted into a tree
/// that held `m`, a lookup of the record's key finds the record, and a
/// lookup of any other key finds what it found before.
pub proof fn law_insert_then_find(m: Map<i32, Record>, rec: Record, k: i32)
    ensures
        lookup(m.insert(rec.key, rec), k) == updated(lookup(m, k), k, rec.key, rec),
{
}

/// After any run of insertions into a fresh tree, a lookup
/// finds for each key the last record inserted under it, and nothing for a
/// key that was never inserted.
pub proof fn law_last_write_wins(recs: Seq<Record>, k: i32)
    ensures
        lookup(model_after(recs), k) == last_with_key(recs, k),
    decreases recs.len(),
{
    if recs.len() > 0 {
        law_last_write_wins(recs.drop_last(), k);
    }
}

/// Inserting a record a second time leaves the map of
/// the tree as the first insertion made it.
pub proof fn law_idempotent_insert(m: Map<i32, Record>, rec: Record)
    ensures
        m.insert(rec.key, rec).insert(rec.key, rec) == m.insert(rec.key, rec),
        lookup(m.insert(rec.key, rec), rec.key) == Some(rec),
{
    assert(m.insert(rec.key, rec).insert(rec.key, rec) =~= m.insert(rec.key, rec));
}

/// A write to page `p` leaves what every other page
/// decodes to as it was.
pub proof fn law_overwrite_isolation(pages: Pages, p: usize, node: NodeView, q: usize)
    requires
        q != p,
    ensures
        page_at(pages_after_write(pages, p as int, node), q as int) == page_at(pages, q as int),
        page_at(pages_after_write(pages, p as int, node), p as int) == Some(node),
{
}

/// Page `p` stands `d` levels below page `loc`.
pub open spec fn stands_below(pages: Pages, loc: usize, h: nat, p: usize, d: nat) -> bool
    decreases d,
{
    if d == 0 {
        p == loc
    } else {
        h > 0 && match page_at(pages, loc as int) {
            Some(NodeView::Internal { keys, children }) => exists|i: int|
                0 <= i < children.len() && stands_below(
                    pages,
                    #[trigger] children[i],
                    (h - 1) as nat,
                    p,
                    (d - 1) as nat,
                ),
            _ => false,
        }
    }
}

/// Every leaf of a well-formed subtree of height `h`
/// stands exactly `h` levels below its top, and no page stands deeper.
pub proof fn law_leaves_same_depth(
    pages: Pages,
    b: nat,
    loc: usize,
    h: nat,
    lo: int,
    hi: int,
    nxt: Option<usize>,
    p: usize,
    d: nat,
)
    requires
        subtree_wf(pages, b, loc, h, lo, hi, nxt),
        stands_below(pages, loc, h, p, d),
    ensures
        d <= h,
        page_at(pages, p as int) matches Some(NodeView::Leaf { .. }) ==> d == h,
        page_at(pages, p as int) matches Some(NodeView::Internal { .. }) ==> d < h,
    decreases d,
{
    lemma_wf_unfold(pages, b, loc, h, lo, hi, nxt);
    if d > 0 {
        let keys = pages[loc as int]->0->Internal_keys;
        let children = pages[loc as int]->0->Internal_children;
        let i = choose|i: int|
            0 <= i < children.len() && stands_below(
                pages,
                #[trigger] children[i],
                (h - 1) as nat,
                p,
                (d - 1) as nat,
            );
        lemma_children_wf_unfold(pages, b, keys, children, (h - 1) as nat, lo, hi, nxt);
        law_leaves_same_depth(
            pages,
            b,
            children[i],
            (h - 1) as nat,
            child_lo(keys, lo, i),
            child_hi(keys, hi, i),
            child_next(pages, children, (h - 1) as nat, nxt, i),
            p,
            (d - 1) as nat,
        );
    }
}

/// In a well-formed tree the successor links lead from the
/// leftmost leaf through every leaf and end at the last one; the records
/// met on the way have strictly ascending keys and are exactly the records
/// that lookups find, each once.
pub proof fn law_leaf_chain(pages: Pages, b: nat, root: usize, h: nat)
    requires
        tree_wf(pages, b, root, h),
    ensures
        subtree_leaves(pages, root, h).len() > 0,
        subtree_leaves(pages, root, h)[0] == first_leaf(pages, root, h),
        chained(pages, subtree_leaves(pages, root, h), None),
        ascending(flat(pages, subtree_leaves(pages, root, h)), key_floor(), key_ceiling()),
        holds_exactly(pages, root, h, flat(pages, subtree_leaves(pages, root, h)), key_ceiling()),
{
    lemma_leaves_chained(pages, b, root, h, key_floor(), key_ceiling(), None);
    lemma_leaves_hold(pages, b, root, h, key_floor(), key_ceiling(), None);
}

/// What a tree finds for a key is a record with that key.
pub proof fn law_found_record_has_key(pages: Pages, b: nat, root: usize, h: nat, k: i32)
    requires
        tree_wf(pages, b, root, h),
        subtree_get(pages, root, h, k) is Some,
    ensures
        subtree_get(pages, root, h, k)->0.key == k,
{
    lemma_leaves_hold(pages, b, root, h, key_floor(), key_ceiling(), None);
    let s = flat(pages, subtree_leaves(pages, root, h));
    let i = choose|i: int| 0 <= i < s.len() && (#[trigger] s[i]).key == k;
    assert(subtree_get(pages, root, h, s[i].key) == Some(s[i]));
}

/// A node by itself is in order: its keys ascend strictly, it holds no
/// more than `b` of them, and it has one record for each key or one child
/// more than keys.
pub open spec fn node_in_order(node: NodeView, b: nat) -> bool {
    match node {
        NodeView::Leaf { keys, values, next } => keys.len() == values.len() && keys.len() <= b
            && keys_sorted(keys),
        NodeView::Internal { keys, children } => children.len() == keys.len() + 1 && keys.len()
            <= b && keys_sorted(keys),
        NodeView::Header { .. } => false,
    }
}

/// Every page of a well-formed subtree holds a node that is in order.
pub proof fn law_nodes_in_order(
    pages: Pages,
    b: nat,
    loc: usize,
    h: nat,
    lo: int,
    hi: int,
    nxt: Option<usize>,
    p: usize,
)
    requires
        subtree_wf(pages, b, loc, h, lo, hi, nxt),
        in_subtree(pages, loc, h, p),
    ensures
        page_at(pages, p as int) matches Some(node) && node_in_order(node, b),
    decreases h,
{
    lemma_wf_unfold(pages, b, loc, h, lo, hi, nxt);
    lemma_in_subtree_unfold(pages, loc, h, p);
    if p != loc {
        let keys = pages[loc as int]->0->Internal_keys;
        let children = pages[loc as int]->0->Internal_children;
        let i = choose|i: int|
            0 <= i < children.len() && in_subtree(pages, #[trigger] children[i], (h - 1) as nat, p);
        lemma_children_wf_unfold(pages, b, keys, children, (h - 1) as nat, lo, hi, nxt);
        law_nodes_in_order(
            pages,
            b,
            children[i],
            (h - 1) as nat,
            child_lo(keys, lo, i),
            child_hi(keys, hi, i),
            child_next(pages, children, (h - 1) as nat, nxt, i),
            p,
        );
    }
}

/// In a store that holds a well-formed tree and no page beside it, every
/// page but the header holds a node that is in order.
pub proof fn law_every_page_in_order(pages: Pages, b: nat, root: usize, h: nat, p: usize)
    requires
        tree_wf(pages, b, root, h),
        fully_used(pages, root, h),
        0 < p < pages.len(),
    ensures
        page_at(pages, p as int) matches Some(node) && node_in_order(node, b),
{
    law_nodes_in_order(pages, b, root, h, key_floor(), key_ceiling(), None, p);
}

} // verus!
