//! What storing a record in a leaf, and cutting an overfull leaf in two,
//! do to the leaf's subtree.

use vstd::prelude::*;
use crate::growth::{differs_only_at, frame_outside, split_ok, updated_ok};
use crate::node::NodeView;
use crate::record::Record;
use crate::shape::{
    Pages, first_leaf, in_subtree, keys_sorted, keys_within, leaf_get, node_ok, subtree_get,
    subtree_wf, updated,
};
use crate::shape_lemmas::{
    lemma_first_leaf_unfold, lemma_get_unfold, lemma_in_subtree_unfold, lemma_leaf_get_at,
    lemma_leaf_get_none, lemma_wf_unfold,
};

verus! {

/// `pos` is the first slot of `keys` whose key is at least `key`.
pub open spec fn is_slot(keys: Seq<i32>, key: i32, pos: int) -> bool {
    &&& 0 <= pos <= keys.len()
    &&& forall|j: int| 0 <= j < pos ==> #[trigger] keys[j] < key
    &&& pos < keys.len() ==> key <= keys[pos]
}

/// The leaf after `rec` was stored under `key` at slot `pos`: the record
/// there is replaced if the slot already holds `key`, else key and record
/// are inserted at the slot.
pub open spec fn leaf_put(
    keys: Seq<i32>,
    values: Seq<Record>,
    next: Option<usize>,
    pos: int,
    key: i32,
    rec: Record,
) -> NodeView {
    if pos < keys.len() && keys[pos] == key {
        NodeView::Leaf { keys, values: values.update(pos, rec), next }
    } else {
        NodeView::Leaf { keys: keys.insert(pos, key), values: values.insert(pos, rec), next }
    }
}

/// After a put, a leaf holds the new record under its key and under any
/// other key what it held.
pub proof fn lemma_leaf_put_get(
    keys: Seq<i32>,
    values: Seq<Record>,
    next: Option<usize>,
    pos: int,
    key: i32,
    rec: Record,
    k: i32,
)
    requires
        keys.len() == values.len(),
        keys_sorted(keys),
        is_slot(keys, key, pos),
    ensures
        leaf_put(keys, values, next, pos, key, rec) matches NodeView::Leaf {
            keys: k2,
            values: v2,
            next: n2,
        } && keys_sorted(k2) && k2.len() == v2.len() && leaf_get(k2, v2, k) == updated(
            leaf_get(keys, values, k),
            k,
            key,
            rec,
        ),
{
    let k2 = leaf_put(keys, values, next, pos, key, rec)->Leaf_keys;
    let v2 = leaf_put(keys, values, next, pos, key, rec)->Leaf_values;
    if pos < keys.len() && keys[pos] == key {
        if k == key {
            lemma_leaf_get_at(k2, v2, k, pos);
        } else if exists|i: int| 0 <= i < keys.len() && #[trigger] keys[i] == k {
            let i = choose|i: int| 0 <= i < keys.len() && #[trigger] keys[i] == k;
            lemma_leaf_get_at(keys, values, k, i);
            lemma_leaf_get_at(k2, v2, k, i);
        }
    } else {
        assert(keys_sorted(k2)) by {
            assert forall|i: int, j: int| 0 <= i < j < k2.len() implies k2[i] < k2[j] by {
                if j < pos {
                } else if j == pos {
                    assert(k2[i] == keys[i]);
                } else if i < pos {
                    assert(k2[j] == keys[j - 1]);
                } else if i == pos {
                    assert(k2[j] == keys[j - 1]);
                    assert(keys[pos] <= keys[j - 1]);
                } else {
                    assert(k2[i] == keys[i - 1] && k2[j] == keys[j - 1]);
                }
            }
        }
        if k == key {
            lemma_leaf_get_at(k2, v2, k, pos);
        } else if exists|i: int| 0 <= i < keys.len() && #[trigger] keys[i] == k {
            let i = choose|i: int| 0 <= i < keys.len() && #[trigger] keys[i] == k;
            lemma_leaf_get_at(keys, values, k, i);
            let i2 = if i < pos { i } else { i + 1 };
            assert(k2[i2] == k);
            lemma_leaf_get_at(k2, v2, k, i2);
        } else {
            assert forall|j: int| 0 <= j < k2.len() implies #[trigger] k2[j] != k by {
                if j < pos {
                    assert(k2[j] == keys[j]);
                } else if j > pos {
                    assert(k2[j] == keys[j - 1]);
                }
            }
            lemma_leaf_get_none(k2, v2, k);
        }
    }
}

/// A leaf rewritten on its page with one record put into it is an updated
/// subtree; it may hold one key more than the capacity.
pub proof fn lemma_leaf_put(
    pages: Pages,
    q: Pages,
    b: nat,
    loc: usize,
    lo: int,
    hi: int,
    nxt: Option<usize>,
    key: i32,
    rec: Record,
    pos: int,
)
    requires
        subtree_wf(pages, b, loc, 0, lo, hi, nxt),
        lo <= key < hi,
        rec.key == key,
        pages[loc as int] matches Some(NodeView::Leaf { keys, values, next }) && is_slot(
            keys,
            key,
            pos,
        ) && q[loc as int] == Some(leaf_put(keys, values, next, pos, key, rec)),
        q.len() == pages.len(),
        differs_only_at(pages, q, loc),
    ensures
        updated_ok(pages, q, b, b + 1, loc, 0, lo, hi, nxt, key, rec),
{
    let keys = pages[loc as int]->0->Leaf_keys;
    let values = pages[loc as int]->0->Leaf_values;
    let next = pages[loc as int]->0->Leaf_next;
    lemma_wf_unfold(pages, b, loc, 0, lo, hi, nxt);
    lemma_leaf_put_get(keys, values, next, pos, key, rec, key);
    let k2 = q[loc as int]->0->Leaf_keys;
    let v2 = q[loc as int]->0->Leaf_values;
    lemma_in_subtree_unfold(pages, loc, 0, loc);
    assert(frame_outside(pages, q, loc, 0));
    assert(keys_within(k2, lo, hi)) by {
        assert forall|j: int| 0 <= j < k2.len() implies lo <= #[trigger] k2[j] < hi by {
            if !(pos < keys.len() && keys[pos] == key) {
                if j < pos {
                    assert(k2[j] == keys[j]);
                } else if j > pos {
                    assert(k2[j] == keys[j - 1]);
                }
            }
        }
    }
    assert forall|j: int| 0 <= j < k2.len() implies (#[trigger] v2[j]).key == k2[j] by {
        if !(pos < keys.len() && keys[pos] == key) {
            if j < pos {
                assert(k2[j] == keys[j] && v2[j] == values[j]);
            } else if j > pos {
                assert(k2[j] == keys[j - 1] && v2[j] == values[j - 1]);
            }
        } else if j != pos {
            assert(v2[j] == values[j]);
        }
    }
    assert(node_ok(q, b, b + 1, q[loc as int]->0, loc, 0, lo, hi, nxt));
    assert forall|p: usize| #[trigger] in_subtree(q, loc, 0, p) implies in_subtree(pages, loc, 0, p)
        || p >= pages.len() by {
        lemma_in_subtree_unfold(q, loc, 0, p);
        lemma_in_subtree_unfold(pages, loc, 0, p);
    }
    lemma_first_leaf_unfold(q, loc, 0);
    lemma_first_leaf_unfold(pages, loc, 0);
    assert forall|k: i32| #[trigger]
        subtree_get(q, loc, 0, k) == updated(subtree_get(pages, loc, 0, k), k, key, rec) by {
        lemma_get_unfold(q, loc, 0, k);
        lemma_get_unfold(pages, loc, 0, k);
        lemma_leaf_put_get(keys, values, next, pos, key, rec, k);
    }
}

/// Of a leaf cut at slot `mid`, the half that `k` falls into holds for `k`
/// what the whole leaf held.
pub proof fn lemma_leaf_split_get(keys: Seq<i32>, values: Seq<Record>, mid: int, k: i32)
    requires
        keys.len() == values.len(),
        keys_sorted(keys),
        0 < mid < keys.len(),
    ensures
        leaf_get(keys, values, k) == (if k < keys[mid] {
            leaf_get(keys.subrange(0, mid), values.subrange(0, mid), k)
        } else {
            leaf_get(
                keys.subrange(mid, keys.len() as int),
                values.subrange(mid, keys.len() as int),
                k,
            )
        }),
{
    let kl = keys.subrange(0, mid);
    let vl = values.subrange(0, mid);
    let kr = keys.subrange(mid, keys.len() as int);
    let vr = values.subrange(mid, keys.len() as int);
    assert(keys_sorted(kl) && keys_sorted(kr));
    if exists|i: int| 0 <= i < keys.len() && #[trigger] keys[i] == k {
        let i = choose|i: int| 0 <= i < keys.len() && #[trigger] keys[i] == k;
        lemma_leaf_get_at(keys, values, k, i);
        if k < keys[mid] {
            assert(i < mid);
            assert(kl[i] == k);
            lemma_leaf_get_at(kl, vl, k, i);
        } else {
            assert(i >= mid);
            assert(kr[i - mid] == k);
            lemma_leaf_get_at(kr, vr, k, i - mid);
        }
    } else {
        assert forall|j: int| 0 <= j < kl.len() implies #[trigger] kl[j] != k by {
            assert(kl[j] == keys[j]);
        }
        assert forall|j: int| 0 <= j < kr.len() implies #[trigger] kr[j] != k by {
            assert(kr[j] == keys[mid + j]);
        }
        lemma_leaf_get_none(kl, vl, k);
        lemma_leaf_get_none(kr, vr, k);
    }
}

/// The left half of a leaf cut at slot `mid`, chained to the page `right`.
pub open spec fn left_leaf(keys: Seq<i32>, values: Seq<Record>, mid: int, right: usize) -> NodeView {
    NodeView::Leaf {
        keys: keys.subrange(0, mid),
        values: values.subrange(0, mid),
        next: Some(right),
    }
}

/// The right half of a leaf cut at slot `mid`; it inherits the successor.
pub open spec fn right_leaf(
    keys: Seq<i32>,
    values: Seq<Record>,
    mid: int,
    next: Option<usize>,
) -> NodeView {
    NodeView::Leaf {
        keys: keys.subrange(mid, keys.len() as int),
        values: values.subrange(mid, values.len() as int),
        next,
    }
}

/// An overfull leaf that is cut in two, the left half staying on its page
/// and the right half going to a new page at the end of the store, is a
/// split subtree whose separator is the first key of the right half.
pub proof fn lemma_split_leaf(
    pages: Pages,
    q: Pages,
    q2: Pages,
    b: nat,
    loc: usize,
    lo: int,
    hi: int,
    nxt: Option<usize>,
    key: i32,
    rec: Record,
    mid: int,
    right: usize,
)
    requires
        b >= 1,
        updated_ok(pages, q, b, b + 1, loc, 0, lo, hi, nxt, key, rec),
        q[loc as int] matches Some(NodeView::Leaf { keys, values, next }) && {
            &&& keys.len() == b + 1
            &&& mid == (keys.len() + 1) / 2
            &&& q2[loc as int] == Some(left_leaf(keys, values, mid, right))
            &&& q2[right as int] == Some(right_leaf(keys, values, mid, next))
        },
        right == q.len(),
        q2.len() == q.len() + 1,
        differs_only_at(q, q2, loc),
    ensures
        q[loc as int] matches Some(NodeView::Leaf { keys, values, next }) && split_ok(
            pages,
            q2,
            b,
            loc,
            0,
            lo,
            hi,
            nxt,
            key,
            rec,
            keys[mid],
            right,
        ),
{
    let keys = q[loc as int]->0->Leaf_keys;
    let values = q[loc as int]->0->Leaf_values;
    let sep = keys[mid];
    let kl = keys.subrange(0, mid);
    let vl = values.subrange(0, mid);
    let kr = keys.subrange(mid, keys.len() as int);
    let vr = values.subrange(mid, values.len() as int);
    assert(keys[0] < keys[mid]);
    lemma_in_subtree_unfold(pages, loc, 0, loc);
    assert(frame_outside(pages, q2, loc, 0));
    assert(keys_sorted(kl) && keys_sorted(kr));
    assert(keys_within(kl, lo, sep as int) && keys_within(kr, sep as int, hi)) by {
        assert forall|j: int| 0 <= j < kr.len() implies sep <= #[trigger] kr[j] < hi by {
            assert(kr[j] == keys[mid + j]);
        }
    }
    assert forall|j: int| 0 <= j < kl.len() implies (#[trigger] vl[j]).key == kl[j] by {
        assert(vl[j] == values[j]);
    }
    assert forall|j: int| 0 <= j < kr.len() implies (#[trigger] vr[j]).key == kr[j] by {
        assert(vr[j] == values[mid + j]);
    }
    lemma_first_leaf_unfold(q2, right, 0);
    lemma_first_leaf_unfold(q2, loc, 0);
    lemma_first_leaf_unfold(q, loc, 0);
    lemma_wf_unfold(q2, b, loc, 0, lo, sep as int, Some(first_leaf(q2, right, 0)));
    lemma_wf_unfold(q2, b, right, 0, sep as int, hi, nxt);
    assert forall|p: usize| #[trigger] in_subtree(q2, loc, 0, p) implies (in_subtree(
        pages,
        loc,
        0,
        p,
    ) || p >= pages.len()) && !in_subtree(q2, right, 0, p) by {
        lemma_in_subtree_unfold(q2, loc, 0, p);
        lemma_in_subtree_unfold(q2, right, 0, p);
    }
    assert forall|p: usize| #[trigger] in_subtree(q2, right, 0, p) implies in_subtree(
        pages,
        loc,
        0,
        p,
    ) || p >= pages.len() by {
        lemma_in_subtree_unfold(q2, right, 0, p);
    }
    assert forall|k: i32|
        (if k < sep {
            #[trigger] subtree_get(q2, loc, 0, k)
        } else {
            subtree_get(q2, right, 0, k)
        }) == updated(subtree_get(pages, loc, 0, k), k, key, rec) by {
        lemma_get_unfold(q2, loc, 0, k);
        lemma_get_unfold(q2, right, 0, k);
        lemma_get_unfold(q, loc, 0, k);
        assert(subtree_get(q, loc, 0, k) == updated(subtree_get(pages, loc, 0, k), k, key, rec));
        lemma_leaf_split_get(keys, values, mid, k);
    }
}

} // verus!
