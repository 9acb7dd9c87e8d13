//! The leaves of a tree in key order, the chain of successor links that
//! runs through them, and the records met along it.

use vstd::prelude::*;
use crate::config::bumped;
use crate::node::NodeView;
use crate::record::Record;
use crate::shape::{
    Pages, child_hi, child_lo, child_next, first_leaf, route, subtree_get, subtree_wf,
};
use crate::shape_lemmas::{
    lemma_child_next, lemma_children_wf_unfold, lemma_first_leaf_unfold, lemma_get_unfold,
    lemma_leaf_get_at, lemma_node_get_internal, lemma_route, lemma_route_unique, lemma_wf_unfold,
};
use crate::storage::page_at;

verus! {

/// The leaf pages below `loc`, from left to right.
pub open spec fn subtree_leaves(pages: Pages, loc: usize, h: nat) -> Seq<usize>
    decreases h, 0nat, 0nat,
{
    if h == 0 {
        seq![loc]
    } else {
        match page_at(pages, loc as int) {
            Some(NodeView::Internal { keys, children }) => children_leaves(
                pages,
                children,
                (h - 1) as nat,
                children.len(),
            ),
            _ => Seq::empty(),
        }
    }
}

/// The leaf pages below the first `n` of `children`, from left to right.
pub open spec fn children_leaves(pages: Pages, children: Seq<usize>, h: nat, n: nat) -> Seq<usize>
    decreases h, 1nat, n,
{
    if n == 0 || n > children.len() {
        Seq::empty()
    } else {
        children_leaves(pages, children, h, (n - 1) as nat) + subtree_leaves(
            pages,
            children[n - 1],
            h,
        )
    }
}

/// The records on page `p`, if it holds a leaf.
pub open spec fn leaf_values(pages: Pages, p: usize) -> Seq<Record> {
    match page_at(pages, p as int) {
        Some(NodeView::Leaf { keys, values, next }) => values,
        _ => Seq::empty(),
    }
}

/// The successor named on page `p`, if it holds a leaf.
pub open spec fn leaf_next(pages: Pages, p: usize) -> Option<usize> {
    match page_at(pages, p as int) {
        Some(NodeView::Leaf { keys, values, next }) => next,
        _ => None,
    }
}

/// The records on the pages `leaves`, one page after the other.
pub open spec fn flat(pages: Pages, leaves: Seq<usize>) -> Seq<Record>
    decreases leaves.len(),
{
    if leaves.len() == 0 {
        Seq::empty()
    } else {
        flat(pages, leaves.drop_last()) + leaf_values(pages, leaves.last())
    }
}

/// What follows page `t` of a run of pages that ends before `nxt`.
#[verifier::opaque]
pub open spec fn follower(leaves: Seq<usize>, nxt: Option<usize>, t: int) -> Option<usize> {
    if t + 1 < leaves.len() {
        Some(leaves[t + 1])
    } else {
        nxt
    }
}

/// Each page of `leaves` holds a leaf that names the next page of `leaves`
/// as its successor, and the last names `nxt`.
pub open spec fn chained(pages: Pages, leaves: Seq<usize>, nxt: Option<usize>) -> bool {
    forall|t: int|
        0 <= t < leaves.len() ==> {
            &&& page_at(pages, (#[trigger] leaves[t]) as int) matches Some(NodeView::Leaf { .. })
            &&& leaf_next(pages, leaves[t]) == follower(leaves, nxt, t)
        }
}

/// The follower of a page is the next page of the run, or what the run
/// ends before.
pub proof fn lemma_follower(leaves: Seq<usize>, nxt: Option<usize>, t: int)
    ensures
        follower(leaves, nxt, t) == (if t + 1 < leaves.len() {
            Some(leaves[t + 1])
        } else {
            nxt
        }),
{
    reveal(follower);
}

/// The records of `s` have strictly ascending keys, all from `lo` up to
/// but not including `hi`.
pub open spec fn ascending(s: Seq<Record>, lo: int, hi: int) -> bool {
    &&& forall|i: int| 0 <= i < s.len() ==> lo <= (#[trigger] s[i]).key < hi
    &&& forall|i: int, j: int| 0 <= i < j < s.len() ==> (#[trigger] s[i]).key < (#[trigger] s[j]).key
}

/// The records on two runs of pages are those on the first run, then
/// those on the second.
pub proof fn lemma_flat_concat(pages: Pages, a: Seq<usize>, b: Seq<usize>)
    ensures
        flat(pages, a + b) == flat(pages, a) + flat(pages, b),
    decreases b.len(),
{
    if b.len() == 0 {
        assert(a + b =~= a);
        assert(flat(pages, a) + flat(pages, b) =~= flat(pages, a));
    } else {
        lemma_flat_concat(pages, a, b.drop_last());
        assert((a + b).drop_last() =~= a + b.drop_last());
        assert((a + b).last() == b.last());
        assert(flat(pages, a + b) =~= flat(pages, a) + flat(pages, b));
    }
}

/// Two chained runs of pages, the first ending where the second begins,
/// make one chained run.
pub proof fn lemma_chained_concat(
    pages: Pages,
    a: Seq<usize>,
    b: Seq<usize>,
    nxt: Option<usize>,
)
    requires
        b.len() > 0,
        chained(pages, a, Some(b[0])),
        chained(pages, b, nxt),
    ensures
        chained(pages, a + b, nxt),
{
    let c = a + b;
    assert forall|t: int| 0 <= t < c.len() implies {
        &&& page_at(pages, (#[trigger] c[t]) as int) matches Some(NodeView::Leaf { .. })
        &&& leaf_next(pages, c[t]) == follower(c, nxt, t)
    } by {
        lemma_follower(c, nxt, t);
        lemma_follower(a, Some(b[0]), t);
        lemma_follower(b, nxt, t - a.len());
        if t < a.len() {
            assert(c[t] == a[t]);
            if t + 1 < a.len() {
                assert(c[t + 1] == a[t + 1]);
            } else {
                assert(c[t + 1] == b[0]);
            }
        } else {
            assert(c[t] == b[t - a.len()]);
            if t + 1 < c.len() {
                assert(c[t + 1] == b[t + 1 - a.len()]);
            }
        }
    }
}

/// The leaves of a well-formed subtree begin with its leftmost leaf and
/// are chained up to the successor of the subtree.
pub proof fn lemma_leaves_chained(
    pages: Pages,
    b: nat,
    loc: usize,
    h: nat,
    lo: int,
    hi: int,
    nxt: Option<usize>,
)
    requires
        subtree_wf(pages, b, loc, h, lo, hi, nxt),
    ensures
        subtree_leaves(pages, loc, h).len() > 0,
        subtree_leaves(pages, loc, h)[0] == first_leaf(pages, loc, h),
        chained(pages, subtree_leaves(pages, loc, h), nxt),
    decreases h, 0nat, 0nat,
{
    lemma_wf_unfold(pages, b, loc, h, lo, hi, nxt);
    lemma_first_leaf_unfold(pages, loc, h);
    if h > 0 {
        let keys = pages[loc as int]->0->Internal_keys;
        let children = pages[loc as int]->0->Internal_children;
        lemma_children_chained(pages, b, keys, children, (h - 1) as nat, lo, hi, nxt, children.len());
        lemma_child_next(pages, children, (h - 1) as nat, nxt, children.len() - 1);
    } else {
        lemma_follower(seq![loc], nxt, 0);
    }
}

/// The leaves below the first `n` children of a well-formed node begin
/// with the leftmost leaf of the first child and are chained up to the
/// successor of child `n - 1`.
pub proof fn lemma_children_chained(
    pages: Pages,
    b: nat,
    keys: Seq<i32>,
    children: Seq<usize>,
    h: nat,
    lo: int,
    hi: int,
    nxt: Option<usize>,
    n: nat,
)
    requires
        crate::shape::children_wf(pages, b, keys, children, h, lo, hi, nxt),
        1 <= n <= children.len(),
    ensures
        children_leaves(pages, children, h, n).len() > 0,
        children_leaves(pages, children, h, n)[0] == first_leaf(pages, children[0], h),
        chained(
            pages,
            children_leaves(pages, children, h, n),
            child_next(pages, children, h, nxt, n - 1),
        ),
    decreases h, 1nat, n,
{
    lemma_children_wf_unfold(pages, b, keys, children, h, lo, hi, nxt);
    let c = children[n - 1];
    let last = subtree_leaves(pages, c, h);
    assert(subtree_wf(
        pages,
        b,
        c,
        h,
        child_lo(keys, lo, n - 1),
        child_hi(keys, hi, n - 1),
        child_next(pages, children, h, nxt, n - 1),
    ));
    lemma_leaves_chained(
        pages,
        b,
        c,
        h,
        child_lo(keys, lo, n - 1),
        child_hi(keys, hi, n - 1),
        child_next(pages, children, h, nxt, n - 1),
    );
    if n == 1 {
        assert(children_leaves(pages, children, h, 0) =~= Seq::<usize>::empty());
        assert(children_leaves(pages, children, h, 1) =~= last);
    } else {
        let before = children_leaves(pages, children, h, (n - 1) as nat);
        lemma_children_chained(pages, b, keys, children, h, lo, hi, nxt, (n - 1) as nat);
        lemma_child_next(pages, children, h, nxt, n - 2);
        lemma_chained_concat(pages, before, last, child_next(pages, children, h, nxt, n - 1));
        assert((before + last)[0] == before[0]);
    }
}

/// The records of a subtree are what its lookups find: each record is
/// found under its key, and every key that is found has a record.
pub open spec fn holds_exactly(pages: Pages, loc: usize, h: nat, s: Seq<Record>, below: int) -> bool {
    &&& forall|i: int|
        0 <= i < s.len() ==> subtree_get(pages, loc, h, (#[trigger] s[i]).key) == Some(s[i])
    &&& forall|k: i32|
        k < below && (#[trigger] subtree_get(pages, loc, h, k)) is Some ==> exists|i: int|
            0 <= i < s.len() && (#[trigger] s[i]).key == k
}

/// The records on the leaves of a well-formed subtree have strictly
/// ascending keys within the range of the subtree, and are exactly what
/// lookups below it find.
pub proof fn lemma_leaves_hold(
    pages: Pages,
    b: nat,
    loc: usize,
    h: nat,
    lo: int,
    hi: int,
    nxt: Option<usize>,
)
    requires
        subtree_wf(pages, b, loc, h, lo, hi, nxt),
    ensures
        ascending(flat(pages, subtree_leaves(pages, loc, h)), lo, hi),
        holds_exactly(pages, loc, h, flat(pages, subtree_leaves(pages, loc, h)), hi),
        forall|k: i32| (#[trigger] subtree_get(pages, loc, h, k)) is Some ==> lo <= k < hi,
    decreases h, 0nat, 0nat,
{
    lemma_wf_unfold(pages, b, loc, h, lo, hi, nxt);
    let s = flat(pages, subtree_leaves(pages, loc, h));
    if h == 0 {
        let keys = pages[loc as int]->0->Leaf_keys;
        let values = pages[loc as int]->0->Leaf_values;
        assert(seq![loc].drop_last() =~= Seq::<usize>::empty());
        assert(flat(pages, Seq::<usize>::empty()) =~= Seq::<Record>::empty());
        assert(s =~= values);
        assert forall|i: int| 0 <= i < s.len() implies subtree_get(pages, loc, h, (#[trigger] s[i]).key)
            == Some(s[i]) by {
            lemma_get_unfold(pages, loc, h, s[i].key);
            lemma_leaf_get_at(keys, values, keys[i], i);
        }
        assert forall|k: i32| (#[trigger] subtree_get(pages, loc, h, k)) is Some implies lo <= k < hi
            && exists|i: int| 0 <= i < s.len() && (#[trigger] s[i]).key == k by {
            lemma_get_unfold(pages, loc, h, k);
            let i = choose|i: int| 0 <= i < keys.len() && #[trigger] keys[i] == k;
            assert(s[i].key == k);
        }
        assert(ascending(s, lo, hi)) by {
            assert forall|i: int, j: int| 0 <= i < j < s.len() implies (#[trigger] s[i]).key < (
            #[trigger] s[j]).key by {
                assert(keys[i] < keys[j]);
            }
            assert forall|i: int| 0 <= i < s.len() implies lo <= (#[trigger] s[i]).key < hi by {
                assert(lo <= keys[i] < hi);
            }
        }
    } else {
        let keys = pages[loc as int]->0->Internal_keys;
        let children = pages[loc as int]->0->Internal_children;
        lemma_children_hold(pages, b, loc, keys, children, h, lo, hi, nxt, children.len());
        assert forall|k: i32| (#[trigger] subtree_get(pages, loc, h, k)) is Some implies lo <= k
            < hi by {
            lemma_get_unfold(pages, loc, h, k);
            lemma_node_get_internal(pages, keys, children, h, k);
            lemma_route(keys, k);
            let r = route(keys, k);
            lemma_children_wf_unfold(pages, b, keys, children, (h - 1) as nat, lo, hi, nxt);
            lemma_leaves_hold(
                pages,
                b,
                children[r],
                (h - 1) as nat,
                child_lo(keys, lo, r),
                child_hi(keys, hi, r),
                child_next(pages, children, (h - 1) as nat, nxt, r),
            );
            assert(subtree_get(pages, children[r], (h - 1) as nat, k) is Some);
            if r > 0 {
                assert(lo <= keys[r - 1]);
            }
            if r < keys.len() {
                assert(keys[r] < hi);
            }
        }
    }
}

/// The records below the first `n` children of the well-formed node at
/// `loc`: ascending, below the separator that follows child `n - 1`, and
/// exactly what lookups at `loc` find below that separator.
pub proof fn lemma_children_hold(
    pages: Pages,
    b: nat,
    loc: usize,
    keys: Seq<i32>,
    children: Seq<usize>,
    h: nat,
    lo: int,
    hi: int,
    nxt: Option<usize>,
    n: nat,
)
    requires
        h > 0,
        subtree_wf(pages, b, loc, h, lo, hi, nxt),
        page_at(pages, loc as int) == Some(NodeView::Internal { keys, children }),
        n <= children.len(),
    ensures
        ascending(
            flat(pages, children_leaves(pages, children, (h - 1) as nat, n)),
            lo,
            if n == 0 {
                lo
            } else {
                child_hi(keys, hi, n - 1)
            },
        ),
        holds_exactly(
            pages,
            loc,
            h,
            flat(pages, children_leaves(pages, children, (h - 1) as nat, n)),
            if n == 0 {
                lo
            } else {
                child_hi(keys, hi, n - 1)
            },
        ),
    decreases (h - 1) as nat, 1nat, n,
{
    let hc = (h - 1) as nat;
    lemma_wf_unfold(pages, b, loc, h, lo, hi, nxt);
    lemma_children_wf_unfold(pages, b, keys, children, hc, lo, hi, nxt);
    let s = flat(pages, children_leaves(pages, children, hc, n));
    if n == 0 {
        assert(s =~= Seq::<Record>::empty());
        assert forall|k: i32| k < lo && (#[trigger] subtree_get(pages, loc, h, k)) is Some implies false by {
            lemma_get_unfold(pages, loc, h, k);
            lemma_node_get_internal(pages, keys, children, h, k);
            lemma_route(keys, k);
            let r = route(keys, k);
            lemma_leaves_hold(
                pages,
                b,
                children[r],
                hc,
                child_lo(keys, lo, r),
                child_hi(keys, hi, r),
                child_next(pages, children, hc, nxt, r),
            );
            assert(subtree_get(pages, children[r], hc, k) is Some);
            if r > 0 {
                assert(lo <= keys[r - 1]);
            }
        }
    } else {
        let m = (n - 1) as nat;
        let c = children[m as int];
        let clo = child_lo(keys, lo, m as int);
        let chi = child_hi(keys, hi, m as int);
        let before = flat(pages, children_leaves(pages, children, hc, m));
        let last = flat(pages, subtree_leaves(pages, c, hc));
        lemma_children_hold(pages, b, loc, keys, children, h, lo, hi, nxt, m);
        lemma_leaves_hold(pages, b, c, hc, clo, chi, child_next(pages, children, hc, nxt, m as int));
        lemma_flat_concat(pages, children_leaves(pages, children, hc, m), subtree_leaves(pages, c, hc));
        assert(s == before + last);
        if m > 0 {
            assert(lo <= keys[m - 1] < hi);
        }
        if m < keys.len() {
            assert(lo <= keys[m as int] < hi);
        }
        if 0 < m < keys.len() {
            assert(keys[m - 1] < keys[m as int]);
        }
        assert(lo <= clo);
        assert(m > 0 ==> clo <= chi);
        assert(ascending(s, lo, chi)) by {
            assert forall|i: int| 0 <= i < s.len() implies lo <= (#[trigger] s[i]).key < chi by {
                if i < before.len() {
                    assert(s[i] == before[i]);
                } else {
                    assert(s[i] == last[i - before.len()]);
                }
            }
            assert forall|i: int, j: int| 0 <= i < j < s.len() implies (#[trigger] s[i]).key < (
            #[trigger] s[j]).key by {
                if j < before.len() {
                    assert(s[i] == before[i] && s[j] == before[j]);
                } else if i < before.len() {
                    assert(s[i] == before[i] && s[j] == last[j - before.len()]);
                } else {
                    assert(s[i] == last[i - before.len()] && s[j] == last[j - before.len()]);
                }
            }
        }
        assert forall|i: int| 0 <= i < s.len() implies subtree_get(pages, loc, h, (#[trigger] s[i]).key)
            == Some(s[i]) by {
            if i < before.len() {
                assert(s[i] == before[i]);
            } else {
                let x = last[i - before.len()];
                assert(s[i] == x);
                assert(clo <= x.key < chi);
                lemma_get_unfold(pages, loc, h, x.key);
                lemma_node_get_internal(pages, keys, children, h, x.key);
                assert(crate::shape::is_route(keys, x.key, m as int));
                lemma_route_unique(keys, x.key, m as int);
            }
        }
        assert forall|k: i32| k < chi && (#[trigger] subtree_get(pages, loc, h, k)) is Some implies exists|
            i: int,
        | 0 <= i < s.len() && (#[trigger] s[i]).key == k by {
            if k < clo {
                let i = choose|i: int| 0 <= i < before.len() && (#[trigger] before[i]).key == k;
                assert(s[i] == before[i]);
            } else {
                lemma_get_unfold(pages, loc, h, k);
                lemma_node_get_internal(pages, keys, children, h, k);
                assert(crate::shape::is_route(keys, k, m as int));
                lemma_route_unique(keys, k, m as int);
                assert(subtree_get(pages, c, hc, k) is Some);
                let i = choose|i: int| 0 <= i < last.len() && (#[trigger] last[i]).key == k;
                assert(s[before.len() + i] == last[i]);
            }
        }
    }
}

/// One line of a listing of the tree: a node, how deep it stands, and
/// its keys.
#[derive(Debug, Clone, PartialEq, Eq)]
pub struct TreeLine {
    pub depth: usize,
    pub loc: usize,
    pub leaf: bool,
    pub keys: Vec<i32>,
}

/// One line of a listing of the tree, as plain data.
pub struct TreeLineView {
    pub depth: usize,
    pub loc: usize,
    pub leaf: bool,
    pub keys: Seq<i32>,
}

impl View for TreeLine {
    type V = TreeLineView;

    open spec fn view(&self) -> TreeLineView {
        TreeLineView { depth: self.depth, loc: self.loc, leaf: self.leaf, keys: self.keys@ }
    }
}

/// The views of a run of lines.
pub open spec fn lines_view(s: Seq<TreeLine>) -> Seq<TreeLineView> {
    Seq::new(s.len(), |i: int| s[i]@)
}

/// The listing of the subtree at `loc`: the node itself, then the
/// listings of its children from left to right, one level deeper.
pub open spec fn subtree_lines(pages: Pages, loc: usize, h: nat, depth: usize) -> Seq<TreeLineView>
    decreases h, 0nat, 0nat,
{
    match page_at(pages, loc as int) {
        Some(NodeView::Leaf { keys, values, next }) => seq![
            TreeLineView { depth, loc, leaf: true, keys },
        ],
        Some(NodeView::Internal { keys, children }) => if h > 0 {
            seq![TreeLineView { depth, loc, leaf: false, keys }] + children_lines(
                pages,
                children,
                (h - 1) as nat,
                bumped(depth),
                children.len(),
            )
        } else {
            seq![TreeLineView { depth, loc, leaf: false, keys }]
        },
        _ => Seq::empty(),
    }
}

/// The listings of the first `n` of `children`, one after the other.
pub open spec fn children_lines(
    pages: Pages,
    children: Seq<usize>,
    h: nat,
    depth: usize,
    n: nat,
) -> Seq<TreeLineView>
    decreases h, 1nat, n,
{
    if n == 0 || n > children.len() {
        Seq::empty()
    } else {
        children_lines(pages, children, h, depth, (n - 1) as nat) + subtree_lines(
            pages,
            children[n - 1],
            h,
            depth,
        )
    }
}

} // verus!
