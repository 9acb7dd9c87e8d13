//! A walk over the pages of a store that decides whether they hold a
//! well-formed tree.

use vstd::prelude::*;
use vstd::set_lib::{lemma_int_range, lemma_len_subset, set_int_range};
use crate::config::{MAX_ORDER, MAX_PAGES};
use crate::growth::lemma_child_in_parent;
use crate::node::{Node, NodeView};
use crate::record::Record;
use crate::shape::{
    Pages, child_hi, child_lo, child_next, children_disjoint, children_exclude, first_leaf,
    in_subtree, key_ceiling, key_floor, keys_sorted, keys_within, node_ok, store_wf, subtree_wf,
    tree_wf,
};
use crate::shape_lemmas::{
    lemma_child_next, lemma_children_wf_unfold, lemma_first_leaf_unfold, lemma_height_unique,
    lemma_in_subtree_unfold, lemma_wf_unfold,
};
use crate::storage::{Storage, page_at};

verus! {

/// The pages that a walk has marked as seen.
pub open spec fn marked(v: Seq<bool>) -> Set<int> {
    Set::new(|p: int| 0 <= p < v.len() && v[p])
}

/// No more pages are marked than there are.
proof fn lemma_marked_bound(v: Seq<bool>)
    ensures
        marked(v).finite(),
        marked(v).len() <= v.len(),
{
    lemma_int_range(0, v.len() as int);
    assert(marked(v).subset_of(set_int_range(0, v.len() as int)));
    lemma_len_subset(marked(v), set_int_range(0, v.len() as int));
}

/// Marking a page that was not marked marks one page more.
proof fn lemma_marked_one_more(v: Seq<bool>, p: int)
    requires
        0 <= p < v.len(),
        !v[p],
    ensures
        marked(v.update(p, true)).len() == marked(v).len() + 1,
{
    lemma_marked_bound(v);
    assert(marked(v.update(p, true)) =~= marked(v).insert(p));
    vstd::set::axiom_set_insert_len(marked(v), p);
}

/// Whether `keys` ascend strictly and lie from `lo` up to but not
/// including `hi`.
fn keys_in_order(keys: &Vec<i32>, lo: i64, hi: i64) -> (ok: bool)
    ensures
        ok == (keys_sorted(keys@) && keys_within(keys@, lo as int, hi as int)),
{
    let mut i: usize = 0;
    while i < keys.len()
        invariant
            i <= keys.len(),
            forall|a: int, b: int| 0 <= a < b < i ==> keys@[a] < keys@[b],
            forall|a: int| 0 <= a < i ==> lo <= #[trigger] keys@[a] < hi,
        decreases keys.len() - i,
    {
        let k = keys[i] as i64;
        if k < lo || k >= hi {
            return false;
        }
        if i > 0 && keys[i - 1] >= keys[i] {
            return false;
        }
        assert forall|a: int| 0 <= a < i implies keys@[a] < keys@[i as int] by {
            if a < i - 1 {
                assert(keys@[a] < keys@[i - 1]);
            }
        }
        i += 1;
    }
    true
}

/// Whether each record stands beside its own key.
fn values_match(keys: &Vec<i32>, values: &Vec<Record>) -> (ok: bool)
    requires
        keys@.len() == values@.len(),
    ensures
        ok == (forall|i: int| 0 <= i < keys@.len() ==> (#[trigger] values@[i]).key == keys@[i]),
{
    let mut i: usize = 0;
    while i < keys.len()
        invariant
            i <= keys.len(),
            keys@.len() == values@.len(),
            forall|a: int| 0 <= a < i ==> (#[trigger] values@[a]).key == keys@[a],
        decreases keys.len() - i,
    {
        if values[i].key != keys[i] {
            return false;
        }
        i += 1;
    }
    true
}

/// What a walk below `loc` found when it returned a height and a first
/// leaf: the subtree is well formed, its pages are exactly the pages that
/// the walk marked, none of them was marked before, and the walk marked
/// more pages than the subtree is high.
pub open spec fn walked(
    pages: Pages,
    b: nat,
    loc: usize,
    lo: int,
    hi: int,
    nxt: Option<usize>,
    before: Seq<bool>,
    after: Seq<bool>,
    h: nat,
    fl: usize,
) -> bool {
    &&& subtree_wf(pages, b, loc, h, lo, hi, nxt)
    &&& fl == first_leaf(pages, loc, h)
    &&& forall|p: usize| #[trigger]
        in_subtree(pages, loc, h, p) ==> p < before.len() && !before[p as int] && after[p as int]
    &&& forall|p: int|
        0 <= p < after.len() && #[trigger] after[p] ==> before[p] || in_subtree(
            pages,
            loc,
            h,
            p as usize,
        )
    &&& marked(after).len() >= marked(before).len() + h + 1
}

/// The subtree at `loc` is well formed at height `h` and none of its pages
/// is marked.
pub open spec fn fresh_subtree(
    pages: Pages,
    b: nat,
    loc: usize,
    lo: int,
    hi: int,
    nxt: Option<usize>,
    seen: Seq<bool>,
    h: nat,
) -> bool {
    &&& subtree_wf(pages, b, loc, h, lo, hi, nxt)
    &&& forall|p: usize| #[trigger]
        in_subtree(pages, loc, h, p) ==> p < seen.len() && !seen[p as int]
}

/// Walks the subtree at `loc`, marking each page it meets. Returns the
/// height of the subtree and its leftmost leaf if the subtree is well
/// formed for keys from `lo` to `hi` and successor `nxt` and none of its
/// pages was marked; nothing otherwise.
fn walk_subtree<S: Storage>(
    storage: &mut S,
    max_keys: usize,
    loc: usize,
    lo: i64,
    hi: i64,
    nxt: Option<usize>,
    visited: &mut Vec<bool>,
) -> (r: Option<(usize, usize)>)
    requires
        old(visited)@.len() == old(storage).pages().len(),
        old(storage).pages().len() <= MAX_PAGES,
    ensures
        final(storage).pages() == old(storage).pages(),
        final(visited)@.len() == old(visited)@.len(),
        forall|p: int|
            0 <= p < old(visited)@.len() && old(visited)@[p] ==> #[trigger] final(visited)@[p],
        r matches Some((h, fl)) ==> walked(
            old(storage).pages(),
            max_keys as nat,
            loc,
            lo as int,
            hi as int,
            nxt,
            old(visited)@,
            final(visited)@,
            h as nat,
            fl,
        ),
        forall|h: nat| #[trigger]
            fresh_subtree(
                old(storage).pages(),
                max_keys as nat,
                loc,
                lo as int,
                hi as int,
                nxt,
                old(visited)@,
                h,
            ) ==> r is Some,
    decreases old(visited)@.len() - marked(old(visited)@).len(),
{
    let ghost pages = storage.pages();
    let ghost b = max_keys as nat;
    let ghost v0 = visited@;
    proof {
        lemma_marked_bound(v0);
        assert forall|h: nat| #[trigger]
            fresh_subtree(pages, b, loc, lo as int, hi as int, nxt, v0, h) implies loc < v0.len()
            && !v0[loc as int] && page_at(pages, loc as int) is Some && node_ok(
            pages,
            b,
            b,
            pages[loc as int]->0,
            loc,
            h,
            lo as int,
            hi as int,
            nxt,
        ) by {
            lemma_wf_unfold(pages, b, loc, h, lo as int, hi as int, nxt);
            lemma_in_subtree_unfold(pages, loc, h, loc);
        }
    }
    if loc >= visited.len() {
        return None;
    }
    if visited[loc] {
        return None;
    }
    visited.set(loc, true);
    let ghost v1 = visited@;
    proof {
        lemma_marked_one_more(v0, loc as int);
        lemma_marked_bound(v1);
    }
    match storage.read_node(loc) {
        Some(Node::Leaf(leaf)) => {
            if leaf.keys.len() != leaf.values.len() || leaf.keys.len() > max_keys {
                return None;
            }
            if !keys_in_order(&leaf.keys, lo, hi) || !values_match(&leaf.keys, &leaf.values) {
                return None;
            }
            if leaf.next != nxt {
                return None;
            }
            proof {
                lemma_wf_unfold(pages, b, loc, 0, lo as int, hi as int, nxt);
                lemma_first_leaf_unfold(pages, loc, 0);
                assert forall|p: usize| #[trigger] in_subtree(pages, loc, 0, p) implies p == loc by {
                    lemma_in_subtree_unfold(pages, loc, 0, p);
                }
                lemma_in_subtree_unfold(pages, loc, 0, loc);
            }
            Some((0, loc))
        },
        Some(Node::Internal(node)) => {
            let n = node.children.len();
            if node.keys.len() >= n || n - node.keys.len() != 1 || node.keys.len() > max_keys {
                return None;
            }
            if !keys_in_order(&node.keys, lo, hi) {
                return None;
            }
            let ghost keys = node.keys@;
            let ghost children = node.children@;
            let mut height: Option<usize> = None;
            let mut expected: Option<usize> = nxt;
            let mut i: usize = n;
            while i > 0
                invariant
                    i <= n,
                    n == children.len(),
                    children.len() == keys.len() + 1,
                    node.keys@ == keys,
                    node.children@ == children,
                    storage.pages() == pages,
                    pages == old(storage).pages(),
                    v0 == old(visited)@,
                    b == max_keys as nat,
                    pages.len() <= MAX_PAGES,
                    visited@.len() == v0.len(),
                    v0.len() == pages.len(),
                    v1 == v0.update(loc as int, true),
                    loc < v0.len(),
                    !v0[loc as int],
                    page_at(pages, loc as int) == Some(NodeView::Internal { keys, children }),
                    forall|p: int| 0 <= p < v1.len() && v1[p] ==> #[trigger] visited@[p],
                    marked(v1).len() == marked(v0).len() + 1,
                    (i < n) == (height is Some),
                    height is None ==> visited@ == v1 && expected == nxt,
                    height matches Some(hc) ==> {
                        &&& forall|j: int|
                            i <= j < n ==> subtree_wf(
                                pages,
                                b,
                                #[trigger] children[j],
                                hc as nat,
                                child_lo(keys, lo as int, j),
                                child_hi(keys, hi as int, j),
                                child_next(pages, children, hc as nat, nxt, j),
                            )
                        &&& forall|j: int, p: usize|
                            i <= j < n && #[trigger] in_subtree(pages, children[j], hc as nat, p)
                                ==> p < v1.len() && !v1[p as int] && visited@[p as int]
                        &&& forall|j: int, k: int, p: usize|
                            i <= j < k < n && #[trigger] in_subtree(pages, children[j], hc as nat, p)
                                ==> !#[trigger] in_subtree(pages, children[k], hc as nat, p)
                        &&& forall|p: int|
                            0 <= p < v1.len() && #[trigger] visited@[p] && !v1[p] ==> exists|j: int|
                                i <= j < n && in_subtree(
                                    pages,
                                    #[trigger] children[j],
                                    hc as nat,
                                    p as usize,
                                )
                        &&& expected == Some(first_leaf(pages, children[i as int], hc as nat))
                        &&& marked(visited@).len() >= marked(v0).len() + hc + 2
                    },
                    forall|h: nat| #[trigger]
                        fresh_subtree(pages, b, loc, lo as int, hi as int, nxt, v0, h) ==> (
                        height matches Some(hc) ==> h == hc + 1),
                decreases i,
            {
                let j = i - 1;
                let child = node.children[j];
                let clo: i64 = if j == 0 {
                    lo
                } else {
                    node.keys[j - 1] as i64
                };
                let chi: i64 = if j == node.keys.len() {
                    hi
                } else {
                    node.keys[j] as i64
                };
                let ghost cur = visited@;
                proof {
                    lemma_marked_bound(cur);
                    assert(marked(v1).subset_of(marked(cur)));
                    lemma_len_subset(marked(v1), marked(cur));
                    // a well-formed subtree here makes the child's subtree a fresh one
                    assert forall|h: nat| #[trigger]
                        fresh_subtree(pages, b, loc, lo as int, hi as int, nxt, v0, h) implies h > 0
                        && fresh_subtree(
                        pages,
                        b,
                        child,
                        clo as int,
                        chi as int,
                        expected,
                        cur,
                        (h - 1) as nat,
                    ) by {
                        assert(cur.len() == v0.len());
                        assert(0 <= j < children.len());
                        if height is Some {
                            assert(h == height->0 + 1);
                            assert(expected == Some(first_leaf(pages, children[j + 1], (h - 1) as nat)));
                        } else {
                            assert(j + 1 == children.len());
                        }
                        assert forall|p: int|
                            0 <= p < cur.len() && #[trigger] cur[p] implies v0[p] || p == loc || exists|k: int|
                                j < k < children.len() && in_subtree(
                                    pages,
                                    #[trigger] children[k],
                                    (h - 1) as nat,
                                    p as usize,
                                ) by {
                            if !v1[p] {
                                let k = choose|k: int|
                                    i <= k < n && in_subtree(
                                        pages,
                                        #[trigger] children[k],
                                        height->0 as nat,
                                        p as usize,
                                    );
                                assert(j < k < children.len());
                            }
                        }
                        lemma_fresh_child(
                            pages,
                            b,
                            loc,
                            keys,
                            children,
                            lo as int,
                            hi as int,
                            nxt,
                            v0,
                            cur,
                            h,
                            j as int,
                            expected,
                        );
                    }
                }
                let r = walk_subtree(storage, max_keys, child, clo, chi, expected, visited);
                match r {
                    None => {
                        return None;
                    },
                    Some((hj, flj)) => {
                        proof {
                            assert forall|h: nat| #[trigger]
                                fresh_subtree(
                                    pages,
                                    b,
                                    loc,
                                    lo as int,
                                    hi as int,
                                    nxt,
                                    v0,
                                    h,
                                ) implies h == hj + 1 by {
                                lemma_height_unique(
                                    pages,
                                    b,
                                    child,
                                    hj as nat,
                                    (h - 1) as nat,
                                    clo as int,
                                    chi as int,
                                    expected,
                                    clo as int,
                                    chi as int,
                                    expected,
                                );
                            }
                        }
                        match height {
                            Some(hc) => {
                                if hj != hc {
                                    return None;
                                }
                            },
                            None => {},
                        }
                        proof {
                            lemma_child_next(pages, children, hj as nat, nxt, j as int);
                            lemma_marked_bound(visited@);
                            assert forall|p: int|
                                0 <= p < v1.len() && #[trigger] visited@[p] && !v1[p] implies exists|k: int|
                                    j <= k < n && in_subtree(
                                        pages,
                                        #[trigger] children[k],
                                        hj as nat,
                                        p as usize,
                                    ) by {
                                if cur[p] {
                                    let k = choose|k: int|
                                        i <= k < n && in_subtree(
                                            pages,
                                            #[trigger] children[k],
                                            hj as nat,
                                            p as usize,
                                        );
                                    assert(j <= k < n);
                                } else {
                                    assert(in_subtree(pages, children[j as int], hj as nat, p as usize));
                                }
                            }
                        }
                        height = Some(hj);
                        expected = Some(flj);
                        i = j;
                    },
                }
            }
            match height {
                Some(hc) => {
                    proof {
                        let h = (hc + 1) as nat;
                        lemma_children_wf_unfold(pages, b, keys, children, hc as nat, lo as int, hi as int, nxt);
                        assert(children_exclude(pages, children, hc as nat, loc));
                        assert(children_disjoint(pages, children, hc as nat));
                        lemma_wf_unfold(pages, b, loc, h, lo as int, hi as int, nxt);
                        lemma_first_leaf_unfold(pages, loc, h);
                        assert forall|p: usize| #[trigger] in_subtree(pages, loc, h, p) implies p
                            < v0.len() && !v0[p as int] && visited@[p as int] by {
                            lemma_in_subtree_unfold(pages, loc, h, p);
                        }
                        assert forall|p: int|
                            0 <= p < visited@.len() && #[trigger] visited@[p] implies v0[p] || in_subtree(
                                pages,
                                loc,
                                h,
                                p as usize,
                            ) by {
                            lemma_in_subtree_unfold(pages, loc, h, p as usize);
                            if !v1[p] {
                                let k = choose|k: int|
                                    0 <= k < n && in_subtree(
                                        pages,
                                        #[trigger] children[k],
                                        hc as nat,
                                        p as usize,
                                    );
                            }
                        }
                        lemma_marked_bound(visited@);
                    }
                    Some((hc + 1, expected.unwrap()))
                },
                None => {
                    None
                },
            }
        },
        _ => {
            proof {
                assert forall|h: nat| #[trigger]
                    fresh_subtree(pages, b, loc, lo as int, hi as int, nxt, v0, h) implies false by {}
            }
            None
        },
    }
}

/// In a fresh well-formed subtree whose children right of child `j` have
/// been walked, child `j` is the top of a fresh subtree too, and the
/// successor it is owed is the first leaf of the child walked last.
proof fn lemma_fresh_child(
    pages: Pages,
    b: nat,
    loc: usize,
    keys: Seq<i32>,
    children: Seq<usize>,
    lo: int,
    hi: int,
    nxt: Option<usize>,
    v0: Seq<bool>,
    cur: Seq<bool>,
    h: nat,
    j: int,
    expected: Option<usize>,
)
    requires
        fresh_subtree(pages, b, loc, lo, hi, nxt, v0, h),
        page_at(pages, loc as int) == Some(NodeView::Internal { keys, children }),
        0 <= j < children.len(),
        j + 1 < children.len() ==> expected == Some(
            first_leaf(pages, children[j + 1], (h - 1) as nat),
        ),
        j + 1 == children.len() ==> expected == nxt,
        forall|p: int|
            0 <= p < cur.len() && #[trigger] cur[p] ==> v0[p] || p == loc || exists|k: int|
                j < k < children.len() && in_subtree(
                    pages,
                    #[trigger] children[k],
                    (h - 1) as nat,
                    p as usize,
                ),
        cur.len() == v0.len(),
    ensures
        h > 0,
        fresh_subtree(
            pages,
            b,
            children[j],
            child_lo(keys, lo, j),
            child_hi(keys, hi, j),
            expected,
            cur,
            (h - 1) as nat,
        ),
{
    let hc = (h - 1) as nat;
    lemma_wf_unfold(pages, b, loc, h, lo, hi, nxt);
    lemma_children_wf_unfold(pages, b, keys, children, hc, lo, hi, nxt);
    lemma_child_next(pages, children, hc, nxt, j);
    let c = children[j];
    assert(subtree_wf(
        pages,
        b,
        c,
        hc,
        child_lo(keys, lo, j),
        child_hi(keys, hi, j),
        child_next(pages, children, hc, nxt, j),
    ));
    assert forall|p: usize| #[trigger] in_subtree(pages, c, hc, p) implies p < cur.len() && !cur[p as int] by {
        lemma_child_in_parent(pages, loc, h, j, p);
        assert(!in_subtree(pages, children[j], hc, loc));
        if cur[p as int] {
            let k = choose|k: int|
                j < k < children.len() && in_subtree(pages, #[trigger] children[k], hc, p);
            assert(j < k);
        }
    }
}

/// Decides whether the pages of `storage` hold a well-formed tree of node
/// capacity `max_keys` whose header names `root`. The pages are left as
/// they were.
pub fn validate_store<S: Storage>(storage: &mut S, max_keys: usize, root: usize) -> (ok: bool)
    ensures
        ok == store_wf(old(storage).pages(), max_keys as nat, root),
        final(storage).pages() == old(storage).pages(),
{
    let ghost pages = storage.pages();
    let ghost b = max_keys as nat;
    if max_keys < 1 || max_keys > MAX_ORDER {
        return false;
    }
    let total = storage.total_nodes();
    if total == 0 || total > MAX_PAGES {
        return false;
    }
    match storage.read_node(0) {
        Some(Node::Header(header)) => {
            if header.root != root {
                return false;
            }
        },
        _ => {
            return false;
        },
    }
    let mut visited: Vec<bool> = Vec::new();
    let mut t: usize = 0;
    while t < total
        invariant
            t <= total,
            visited@.len() == t,
            forall|p: int| 0 <= p < t ==> !#[trigger] visited@[p],
        decreases total - t,
    {
        visited.push(false);
        t += 1;
    }
    let ghost v0 = visited@;
    let r = walk_subtree(storage, max_keys, root, -0x8000_0000, 0x8000_0000, None, &mut visited);
    proof {
        if r is None {
            assert forall|h: nat| !tree_wf(pages, b, root, h) by {
                if tree_wf(pages, b, root, h) {
                    assert forall|p: usize| #[trigger] in_subtree(pages, root, h, p) implies p
                        < v0.len() && !v0[p as int] by {
                        crate::shape_lemmas::lemma_subtree_pages(
                            pages,
                            b,
                            root,
                            h,
                            key_floor(),
                            key_ceiling(),
                            None,
                            p,
                        );
                    }
                    assert(fresh_subtree(pages, b, root, key_floor(), key_ceiling(), None, v0, h));
                }
            }
        } else {
            let (h, fl) = r->0;
            assert(tree_wf(pages, b, root, h as nat));
        }
    }
    r.is_some()
}

} // verus!
