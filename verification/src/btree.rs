//! The B+-tree engine: lookup by descent, insertion with path capture,
//! node splits and root growth, all through a page store.

use vstd::prelude::*;
use crate::chain::{
    TreeLine, TreeLineView, ascending, chained, children_lines, flat, lemma_follower,
    lemma_leaves_chained, lemma_leaves_hold, lines_view, subtree_leaves, subtree_lines,
};
use crate::config::{MAX_KEYS, MAX_ORDER, MAX_PAGES, bump};
use crate::growth::{
    absorbed, left_half, lemma_absorb, lemma_sep_route, lemma_split_internal, right_half,
    split_ok, updated_ok,
};
use crate::leaf_growth::{
    is_slot, leaf_put, left_leaf, lemma_leaf_put, lemma_split_leaf, right_leaf,
};
use crate::node::{HeaderNode, InternalNode, LeafNode, Node, NodeView, copy_range};
use crate::path_growth::{
    InsertCtx, Level, ctx_ok, descent_ok, grown_root, insert_done, inserted_ok,
    lemma_descent_pop, lemma_descent_push, lemma_lift_path, lemma_path_height, lemma_root_split,
    lemma_updated_root, lemma_within_capacity, level_below, level_wf, path_left, path_matches,
    root_level,
};
use crate::plan::{
    Grown, conclude, cut_internal, cut_leaf, final_len, finish, grow_leaf, grown_pages,
    insert_pages, lemma_final_len, lemma_finish_fit, lemma_grow_along_path, lemma_levels_within,
    lemma_slot_from, lemma_slot_unique, lemma_step_len, lemma_write_is_update, levels_within,
    lift_step, reached, slot,
};
use crate::reach::{
    fully_used, insert_kept, lemma_absorb_stays, lemma_insert_kept,
    lemma_leaf_split_stays, lemma_leaf_stays, lemma_lift_path_stays, lemma_root_split_stays,
    lemma_split_internal_stays, lemma_still_fully_used, stays_in, stays_in_two,
};
use crate::record::Record;
use crate::shape::{
    Pages, child_hi, child_lo, child_next, children_wf, first_leaf, in_subtree, key_ceiling,
    key_floor, keys_sorted, leaf_get, lookup, route, route_from, store_wf, subtree_get, subtree_wf,
    tree_map, tree_wf, updated,
};
use crate::shape_lemmas::{
    lemma_children_wf_unfold, lemma_first_leaf_unfold, lemma_get_unfold, lemma_height_unique,
    lemma_in_subtree_unfold, lemma_leaf_get_at, lemma_leaf_get_none, lemma_route, lemma_wf_unfold,
};
use crate::storage::{Storage, page_at, pages_after_write};
use crate::validate::validate_store;

verus! {

/// Why a tree operation was refused.
#[derive(Debug, Clone, Copy, PartialEq, Eq)]
pub enum TreeError {
    /// The store is not empty and its first page is not a header.
    MissingHeader,
    /// The requested node capacity is zero or too large for a page.
    OrderOutOfRange,
    /// The splits that the insertion calls for would take the store past
    /// the number of pages it may hold.
    StoreFull,
}

/// A B+-tree over a page store. The tree owns the store.
pub struct BPlusTree<S> {
    storage: S,
    header: HeaderNode,
    max_keys: usize,
}

/// The pages of a store that holds nothing but a header and an empty root leaf.
pub open spec fn fresh_pages() -> Pages {
    seq![
        Some(NodeView::Header { root: 1 }),
        Some(NodeView::Leaf { keys: Seq::empty(), values: Seq::empty(), next: None }),
    ]
}

/// The routing index of `key` among `keys`.
fn route_index(keys: &Vec<i32>, key: i32) -> (i: usize)
    ensures
        i == route(keys@, key),
{
    let mut i: usize = 0;
    while i < keys.len() && key >= keys[i]
        invariant
            i <= keys.len(),
            route_from(keys@, key, i as int) == route(keys@, key),
        decreases keys.len() - i,
    {
        i += 1;
    }
    i
}

/// The record stored under `key` in a leaf, if any.
fn search_leaf(leaf: &LeafNode, key: i32) -> (r: Option<Record>)
    requires
        leaf.keys@.len() == leaf.values@.len(),
        keys_sorted(leaf.keys@),
    ensures
        r == leaf_get(leaf.keys@, leaf.values@, key),
{
    let mut i: usize = 0;
    while i < leaf.keys.len()
        invariant
            i <= leaf.keys.len(),
            leaf.keys@.len() == leaf.values@.len(),
            keys_sorted(leaf.keys@),
            forall|j: int| 0 <= j < i ==> #[trigger] leaf.keys@[j] != key,
        decreases leaf.keys.len() - i,
    {
        if leaf.keys[i] == key {
            proof {
                lemma_leaf_get_at(leaf.keys@, leaf.values@, key, i as int);
            }
            return Some(leaf.values[i]);
        }
        i += 1;
    }
    None
}

/// The first slot of `keys` whose key is at least `key`.
fn leaf_slot(keys: &Vec<i32>, key: i32) -> (pos: usize)
    ensures
        is_slot(keys@, key, pos as int),
{
    let mut pos: usize = 0;
    while pos < keys.len() && keys[pos] < key
        invariant
            pos <= keys.len(),
            forall|j: int| 0 <= j < pos ==> #[trigger] keys@[j] < key,
        decreases keys.len() - pos,
    {
        pos += 1;
    }
    pos
}

impl<S: Storage> BPlusTree<S> {
    /// The pages of the store the tree sits on.
    pub closed spec fn pages(&self) -> Pages {
        self.storage.pages()
    }

    /// The page of the root, as the header names it.
    pub closed spec fn root(&self) -> usize {
        self.header.root
    }

    /// The node capacity the tree was opened with.
    pub closed spec fn order(&self) -> nat {
        self.max_keys as nat
    }

    /// The store holds a well-formed tree for this capacity and root.
    pub open spec fn wf(&self) -> bool {
        store_wf(self.pages(), self.order(), self.root())
    }

    /// The number of levels between the root and the leaves.
    pub open spec fn height(&self) -> nat {
        choose|h: nat| tree_wf(self.pages(), self.order(), self.root(), h)
    }

    /// Every page of the store but the header belongs to the tree.
    pub open spec fn full(&self) -> bool {
        fully_used(self.pages(), self.root(), self.height())
    }

    /// The key-to-record map the tree holds.
    pub open spec fn view(&self) -> Map<i32, Record> {
        tree_map(self.pages(), self.root(), self.height())
    }

    /// Opens a tree of the default node capacity on `storage`.
    pub fn open(storage: S) -> (r: Result<Self, TreeError>)
        ensures
            r is Err <==> storage.pages().len() > 0 && !(page_at(storage.pages(), 0) matches Some(
                NodeView::Header { .. },
            )),
            r matches Err(e) ==> e == TreeError::MissingHeader,
            r matches Ok(t) ==> {
                &&& t.order() == MAX_KEYS
                &&& storage.pages().len() == 0 ==> t.pages() == fresh_pages() && t.root() == 1
                    && t.wf() && t.full() && t.height() == 0 && t@ == Map::<i32, Record>::empty()
                &&& storage.pages().len() > 0 ==> t.pages() == storage.pages()
                    && storage.pages()[0] == Some(NodeView::Header { root: t.root() })
            },
    {
        Self::open_with_order(storage, MAX_KEYS)
    }

    /// Opens a tree of node capacity `max_keys` on `storage`. An empty store
    /// is initialised with a header at page 0 and an empty root leaf at page
    /// 1; otherwise the root is recovered from the header at page 0.
    pub fn open_with_order(storage: S, max_keys: usize) -> (r: Result<Self, TreeError>)
        ensures
            r is Err <==> !(1 <= max_keys <= MAX_ORDER) || (storage.pages().len() > 0 && !(page_at(
                storage.pages(),
                0,
            ) matches Some(NodeView::Header { .. }))),
            r matches Err(e) ==> e == (if 1 <= max_keys <= MAX_ORDER {
                TreeError::MissingHeader
            } else {
                TreeError::OrderOutOfRange
            }),
            r matches Ok(t) ==> {
                &&& t.order() == max_keys
                &&& storage.pages().len() == 0 ==> t.pages() == fresh_pages() && t.root() == 1
                    && t.wf() && t.full() && t.height() == 0 && t@ == Map::<i32, Record>::empty()
                &&& storage.pages().len() > 0 ==> t.pages() == storage.pages()
                    && storage.pages()[0] == Some(NodeView::Header { root: t.root() })
            },
    {
        if max_keys < 1 || max_keys > MAX_ORDER {
            return Err(TreeError::OrderOutOfRange);
        }
        let mut storage = storage;
        if storage.total_nodes() == 0 {
            let header = HeaderNode { root: 1 };
            storage.write_node(0, &Node::Header(header.duplicate()));
            storage.write_node(1, &Node::Leaf(LeafNode::new()));
            let t = BPlusTree { storage, header, max_keys };
            proof {
                assert(t.pages() =~= fresh_pages());
                lemma_fresh_tree(max_keys as nat);
                lemma_height_unique(
                    t.pages(),
                    max_keys as nat,
                    1,
                    t.height(),
                    0,
                    key_floor(),
                    key_ceiling(),
                    None,
                    key_floor(),
                    key_ceiling(),
                    None,
                );
                assert(t@ =~= Map::<i32, Record>::empty());
                assert forall|p: usize| 0 < p < t.pages().len() implies #[trigger] in_subtree(
                    t.pages(),
                    1,
                    0,
                    p,
                ) by {
                    lemma_in_subtree_unfold(t.pages(), 1, 0, p);
                }
            }
            Ok(t)
        } else {
            match storage.read_node(0) {
                Some(Node::Header(header)) => Ok(BPlusTree { storage, header, max_keys }),
                _ => Err(TreeError::MissingHeader),
            }
        }
    }

    /// Gives the store back.
    pub fn into_storage(self) -> (s: S)
        ensures
            s.pages() == self.pages(),
    {
        self.storage
    }

    /// Decides whether the store holds a well-formed tree, by walking every
    /// page below the root. A tree that was opened on an empty store and
    /// changed by `insert` alone is well formed without asking.
    pub fn validate(&mut self) -> (ok: bool)
        ensures
            ok == old(self).wf(),
            final(self).pages() == old(self).pages(),
            final(self).root() == old(self).root(),
            final(self).order() == old(self).order(),
    {
        validate_store(&mut self.storage, self.max_keys, self.header.root)
    }

    /// The store the tree sits on.
    pub fn storage(&self) -> (s: &S)
        ensures
            s.pages() == self.pages(),
    {
        &self.storage
    }

    /// The page of the root.
    pub fn root_page(&self) -> (r: usize)
        ensures
            r == self.root(),
    {
        self.header.root
    }

    /// The node capacity.
    pub fn max_keys(&self) -> (b: usize)
        ensures
            b == self.order(),
    {
        self.max_keys
    }

    /// Looks `key` up: descends from the root by the routing rule and
    /// searches the leaf it reaches. The tree is left as it was.
    pub fn find(&mut self, key: i32) -> (r: Option<Record>)
        requires
            old(self).wf(),
        ensures
            r == lookup(old(self)@, key),
            final(self).pages() == old(self).pages(),
            final(self).root() == old(self).root(),
            final(self).order() == old(self).order(),
    {
        let ghost pages = self.storage.pages();
        let ghost b = self.max_keys as nat;
        let ghost top = self.height();
        let ghost mut h = top;
        let ghost mut lo = key_floor();
        let ghost mut hi = key_ceiling();
        let ghost mut nxt: Option<usize> = None;
        let mut loc = self.header.root;
        loop
            invariant
                self.storage.pages() == pages,
                pages == old(self).storage.pages(),
                b == old(self).max_keys,
                top == old(self).height(),
                self.header == old(self).header,
                self.max_keys == old(self).max_keys,
                subtree_wf(pages, b, loc, h, lo, hi, nxt),
                subtree_get(pages, loc, h, key) == subtree_get(pages, old(self).header.root, top, key),
            decreases h,
        {
            match self.storage.read_node(loc) {
                Some(Node::Internal(internal)) => {
                    let i = route_index(&internal.keys, key);
                    proof {
                        reveal(subtree_wf);
                        reveal(subtree_get);
                        lemma_route(internal.keys@, key);
                        let ghost hc = (h - 1) as nat;
                        let ghost c = internal.children@[i as int];
                        assert(subtree_wf(
                            pages,
                            b,
                            c,
                            hc,
                            child_lo(internal.keys@, lo, i as int),
                            child_hi(internal.keys@, hi, i as int),
                            child_next(pages, internal.children@, hc, nxt, i as int),
                        ));
                        nxt = child_next(pages, internal.children@, hc, nxt, i as int);
                        let ghost lo2 = child_lo(internal.keys@, lo, i as int);
                        hi = child_hi(internal.keys@, hi, i as int);
                        lo = lo2;
                        h = hc;
                    }
                    loc = internal.children[i];
                },
                Some(Node::Leaf(leaf)) => {
                    proof {
                        reveal(subtree_wf);
                        reveal(subtree_get);
                    }
                    return search_leaf(&leaf, key);
                },
                _ => {
                    proof {
                        reveal(subtree_wf);
                    }
                    assert(false);
                    return None;
                },
            }
        }
    }

    /// Stores `value` under its key. A record already stored under that key
    /// is replaced and the shape of the tree stays as it is; otherwise the
    /// record is added, and nodes that overflow are split up to the root.
    /// A new key is refused when the splits it calls for would take the
    /// store past the number of pages it may hold.
    pub fn insert(&mut self, value: Record) -> (r: Result<(), TreeError>)
        requires
            old(self).wf(),
        ensures
            final(self).wf(),
            final(self).order() == old(self).order(),
            r is Err <==> !old(self)@.contains_key(value.key) && insert_pages(
                old(self).pages(),
                old(self).order(),
                old(self).root(),
                old(self).height(),
                value.key,
                value,
            ).0.len() > MAX_PAGES,
            r matches Err(e) ==> e == TreeError::StoreFull && final(self).pages() == old(
                self,
            ).pages() && final(self).root() == old(self).root(),
            r is Ok ==> final(self)@ == old(self)@.insert(value.key, value),
            r is Ok ==> final(self).height() == old(self).height() || final(self).height() == old(
                self,
            ).height() + 1,
            r is Ok ==> (final(self).height() == old(self).height() + 1 <==> final(self).root()
                != old(self).root()),
            r is Err ==> final(self)@ == old(self)@ && final(self).height() == old(self).height(),
            r is Ok ==> old(self).pages().len() <= final(self).pages().len(),
            r is Ok && old(self)@.contains_key(value.key) ==> final(self).root() == old(self).root()
                && final(self).pages().len() == old(self).pages().len() && final(self).height()
                == old(self).height(),
            lookup(old(self)@, value.key) == Some(value) ==> final(self).pages() == old(self).pages(),
            old(self).full() ==> final(self).full(),
            r is Ok ==> (final(self).pages(), final(self).root()) == insert_pages(
                old(self).pages(),
                old(self).order(),
                old(self).root(),
                old(self).height(),
                value.key,
                value,
            ),
    {
        let key = value.key;
        let ghost c = InsertCtx {
            pages: self.storage.pages(),
            b: self.max_keys as nat,
            root: self.header.root,
            h: self.height(),
            key,
            rec: value,
        };
        let ghost mut levels: Seq<Level> = Seq::empty();
        let ghost mut cur = root_level(c.root, c.h);
        let mut path: Vec<(usize, InternalNode)> = Vec::new();
        let mut current_loc = self.header.root;
        loop
            invariant
                c.pages == old(self).storage.pages(),
                c.b == old(self).max_keys,
                c.root == old(self).header.root,
                c.h == old(self).height(),
                c.key == value.key,
                c.rec == value,
                key == value.key,
                self.storage.pages() == c.pages,
                self.header == old(self).header,
                self.max_keys == old(self).max_keys,
                descent_ok(c, path@, levels, cur),
                level_wf(c.pages, c.b, cur),
                cur.loc == current_loc,
                cur.lo <= key < cur.hi,
                subtree_get(c.pages, cur.loc, cur.h, key) == subtree_get(c.pages, c.root, c.h, key),
            decreases cur.h,
        {
            proof {
                lemma_wf_unfold(c.pages, c.b, cur.loc, cur.h, cur.lo, cur.hi, cur.nxt);
            }
            match self.storage.read_node(current_loc) {
                Some(Node::Internal(internal)) => {
                    proof {
                        lemma_descent_push(c, path@, levels, cur, internal);
                    }
                    let i = route_index(&internal.keys, key);
                    let child = internal.children[i];
                    proof {
                        levels = levels.push(cur);
                        cur = level_below(c.pages, cur, key);
                    }
                    path.push((current_loc, internal));
                    current_loc = child;
                },
                Some(Node::Leaf(leaf)) => {
                    let r = self.insert_into_leaf(
                        current_loc,
                        leaf,
                        value,
                        path,
                        Ghost(c),
                        Ghost(levels),
                        Ghost(cur),
                    );
                    proof {
                        lemma_path_height(c.pages, c.b, key, root_level(c.root, c.h), levels, cur);
                        lemma_grow_along_path(
                            c.pages,
                            c.b,
                            key,
                            value,
                            root_level(c.root, c.h),
                            levels,
                            cur,
                        );
                        if r is Ok {
                            Self::lemma_inserted(*old(self), *self, c);
                        }
                    }
                    return r;
                },
                _ => {
                    assert(false);
                    return Ok(());
                },
            }
        }
    }

    /// A tree whose pages went from those of `before` to a state where the
    /// insertion is complete is well formed and holds the old map with the
    /// record added.
    proof fn lemma_inserted(before: Self, after: Self, c: InsertCtx)
        requires
            before.wf(),
            ctx_ok(c),
            c.pages == before.pages(),
            c.b == before.order(),
            c.root == before.root(),
            c.h == before.height(),
            after.order() == before.order(),
            insert_done(c, after.pages(), after.root()),
            insert_kept(c, after.pages(), after.root()),
        ensures
            after.wf(),
            before.full() ==> after.full(),
            after@ == before@.insert(c.key, c.rec),
            after.height() == before.height() || after.height() == before.height() + 1,
            before.pages().len() <= after.pages().len(),
            inserted_ok(c.pages, after.pages(), c.b, c.root, c.h, after.root(), c.h, c.key, c.rec)
                ==> after.height() == before.height(),
            after.height() == before.height() + 1 <==> after.root() != before.root(),
    {
        let q = after.pages();
        let nr = after.root();
        let h2: nat = if nr == c.root {
            c.h
        } else {
            (c.h + 1) as nat
        };
        assert(tree_wf(q, c.b, nr, h2));
        if inserted_ok(c.pages, q, c.b, c.root, c.h, nr, c.h, c.key, c.rec) {
            lemma_height_unique(
                q,
                c.b,
                nr,
                c.h,
                h2,
                key_floor(),
                key_ceiling(),
                None,
                key_floor(),
                key_ceiling(),
                None,
            );
        }
        lemma_height_unique(
            q,
            c.b,
            nr,
            after.height(),
            h2,
            key_floor(),
            key_ceiling(),
            None,
            key_floor(),
            key_ceiling(),
            None,
        );
        if before.full() {
            lemma_still_fully_used(c.pages, q, c.root, c.h, nr, h2);
        }
        assert(after@ =~= before@.insert(c.key, c.rec)) by {
            assert forall|k: i32| #[trigger]
                subtree_get(q, nr, h2, k) == updated(
                    subtree_get(c.pages, c.root, c.h, k),
                    k,
                    c.key,
                    c.rec,
                ) by {}
        }
    }

    /// The number of pages that putting a new key into `leaf` adds to the
    /// store: one for each full node from the leaf upwards that is cut in
    /// two, and one for a new root if all of them are. The count stops
    /// where it has passed what any store may hold.
    fn pages_needed(
        &self,
        leaf: &LeafNode,
        path: &Vec<(usize, InternalNode)>,
        Ghost(c): Ghost<InsertCtx>,
        Ghost(levels): Ghost<Seq<Level>>,
        Ghost(cur): Ghost<Level>,
    ) -> (need: usize)
        requires
            descent_ok(c, path@, levels, cur),
            level_wf(c.pages, c.b, cur),
            cur.h == 0,
            c.pages[cur.loc as int] == Some(leaf@),
            self.max_keys == c.b,
            leaf_get(leaf.keys@, leaf.values@, c.key) is None,
        ensures
            need <= MAX_PAGES ==> final_len(
                c,
                levels,
                grow_leaf(c.pages, c.b, cur.loc, c.key, c.rec),
            ) == c.pages.len() + need,
            need > MAX_PAGES ==> final_len(
                c,
                levels,
                grow_leaf(c.pages, c.b, cur.loc, c.key, c.rec),
            ) > MAX_PAGES,
    {
        let ghost g0 = grow_leaf(c.pages, c.b, cur.loc, c.key, c.rec);
        proof {
            lemma_wf_unfold(c.pages, c.b, cur.loc, cur.h, cur.lo, cur.hi, cur.nxt);
            lemma_levels_within(c.pages, c.b, c.key, root_level(c.root, c.h), levels, cur);
            lemma_slot_from(leaf.keys@, c.key, 0);
            let pos = slot(leaf.keys@, c.key);
            if pos < leaf.keys@.len() && leaf.keys@[pos] == c.key {
                lemma_leaf_get_at(leaf.keys@, leaf.values@, c.key, pos);
            }
            lemma_final_len(c, levels, g0);
        }
        if leaf.keys.len() < self.max_keys {
            return 0;
        }
        let ghost mut g = g0;
        let mut need: usize = 1;
        let mut j: usize = path.len();
        assert(levels.subrange(0, j as int) =~= levels);
        while j > 0 && path[j - 1].1.keys.len() >= self.max_keys
            invariant
                j <= path@.len(),
                g0 == grow_leaf(c.pages, c.b, cur.loc, c.key, c.rec),
                path_matches(c.pages, path@, levels),
                levels_within(levels, c.pages.len()),
                self.max_keys == c.b,
                1 <= need <= MAX_PAGES,
                g is Split,
                grown_pages(g).len() == c.pages.len() + need,
                finish(c.pages, c.b, c.key, levels, g0) == finish(
                    c.pages,
                    c.b,
                    c.key,
                    levels.subrange(0, j as int),
                    g,
                ),
            decreases j,
        {
            proof {
                let part = levels.subrange(0, j as int);
                assert(part.drop_last() =~= levels.subrange(0, j - 1));
                assert(part.last() == levels[j - 1]);
                lemma_step_len(c.pages, c.b, levels[j - 1].loc, c.key, g);
                let s = lift_step(c.pages, c.b, levels[j - 1].loc, c.key, g);
                assert(finish(c.pages, c.b, c.key, part, g) == finish(
                    c.pages,
                    c.b,
                    c.key,
                    levels.subrange(0, j - 1),
                    s,
                ));
                g = s;
            }
            if need >= MAX_PAGES {
                proof {
                    assert forall|t: int| 0 <= t < levels.subrange(0, j - 1).len() implies (
                    #[trigger] levels.subrange(0, j - 1)[t]).loc < grown_pages(g).len() by {
                        assert(levels.subrange(0, j - 1)[t] == levels[t]);
                    }
                    lemma_final_len(c, levels.subrange(0, j - 1), g);
                }
                return MAX_PAGES + 1;
            }
            need += 1;
            j -= 1;
        }
        proof {
            let part = levels.subrange(0, j as int);
            assert forall|t: int| 0 <= t < part.len() implies (#[trigger] part[t]).loc < grown_pages(
                g,
            ).len() by {
                assert(part[t] == levels[t]);
            }
            if j > 0 {
                assert(part.drop_last() =~= levels.subrange(0, j - 1));
                assert(part.last() == levels[j - 1]);
                lemma_step_len(c.pages, c.b, levels[j - 1].loc, c.key, g);
                let s = lift_step(c.pages, c.b, levels[j - 1].loc, c.key, g);
                assert forall|t: int| 0 <= t < part.drop_last().len() implies (
                #[trigger] part.drop_last()[t]).loc < grown_pages(s).len() by {
                    assert(part.drop_last()[t] == levels[t]);
                }
                lemma_final_len(c, part.drop_last(), s);
            } else {
                lemma_final_len(c, part, g);
            }
        }
        if j == 0 {
            need + 1
        } else {
            need
        }
    }

    /// Stores `value` in the leaf that the descent reached, and splits the
    /// leaf if it overflows.
    fn insert_into_leaf(
        &mut self,
        loc: usize,
        leaf: LeafNode,
        value: Record,
        path: Vec<(usize, InternalNode)>,
        Ghost(c): Ghost<InsertCtx>,
        Ghost(levels): Ghost<Seq<Level>>,
        Ghost(cur): Ghost<Level>,
    ) -> (r: Result<(), TreeError>)
        requires
            descent_ok(c, path@, levels, cur),
            level_wf(c.pages, c.b, cur),
            cur.loc == loc,
            cur.lo <= c.key < cur.hi,
            c.rec == value,
            c.pages[loc as int] == Some(leaf@),
            old(self).storage.pages() == c.pages,
            old(self).max_keys == c.b,
            old(self).header.root == c.root,
            subtree_get(c.pages, cur.loc, cur.h, c.key) == subtree_get(c.pages, c.root, c.h, c.key),
        ensures
            final(self).max_keys == c.b,
            r is Err <==> subtree_get(c.pages, c.root, c.h, c.key) is None && final_len(
                c,
                levels,
                grow_leaf(c.pages, c.b, loc, c.key, c.rec),
            ) > MAX_PAGES,
            r matches Err(e) ==> e == TreeError::StoreFull && final(self).storage.pages() == c.pages
                && final(self).header == old(self).header,
            r is Ok ==> insert_done(c, final(self).storage.pages(), final(self).header.root),
            r is Ok && subtree_get(c.pages, c.root, c.h, c.key) is Some ==> final(self).header.root
                == c.root && final(self).storage.pages().len() == c.pages.len() && inserted_ok(
                c.pages,
                final(self).storage.pages(),
                c.b,
                c.root,
                c.h,
                c.root,
                c.h,
                c.key,
                c.rec,
            ),
            subtree_get(c.pages, c.root, c.h, c.key) == Some(c.rec) ==> final(self).storage.pages()
                == c.pages,
            r is Ok ==> reached(
                c,
                levels,
                grow_leaf(c.pages, c.b, loc, c.key, c.rec),
                final(self).storage.pages(),
                final(self).header.root,
            ),
            r is Ok ==> insert_kept(c, final(self).storage.pages(), final(self).header.root),
    {
        let mut leaf = leaf;
        let mut path = path;
        let key = value.key;
        proof {
            lemma_wf_unfold(c.pages, c.b, cur.loc, cur.h, cur.lo, cur.hi, cur.nxt);
            lemma_get_unfold(c.pages, cur.loc, cur.h, c.key);
        }
        let ghost keys0 = leaf.keys@;
        let ghost values0 = leaf.values@;
        let pos = leaf_slot(&leaf.keys, key);
        proof {
            lemma_slot_unique(keys0, key, pos as int);
        }
        if pos < leaf.keys.len() && leaf.keys[pos] == key {
            proof {
                lemma_leaf_get_at(keys0, values0, key, pos as int);
            }
            leaf.values[pos] = value;
        } else {
            proof {
                assert forall|j: int| 0 <= j < keys0.len() implies #[trigger] keys0[j] != key by {
                    if j >= pos {
                        assert(keys0[pos as int] <= keys0[j]);
                    }
                }
                lemma_leaf_get_none(keys0, values0, key);
            }
            let total = self.storage.total_nodes();
            let need = self.pages_needed(&leaf, &path, Ghost(c), Ghost(levels), Ghost(cur));
            if need > MAX_PAGES || total > MAX_PAGES - need {
                return Err(TreeError::StoreFull);
            }
            leaf.keys.insert(pos, key);
            leaf.values.insert(pos, value);
        }
        assert(leaf@ == leaf_put(keys0, values0, leaf.next, pos as int, key, value));
        self.storage.write_node(loc, &Node::Leaf(leaf.duplicate()));
        proof {
            lemma_write_is_update(c.pages, loc, leaf@);
            lemma_leaf_stays(c.pages, pages_after_write(c.pages, loc as int, leaf@), loc);
            if subtree_get(c.pages, c.root, c.h, c.key) == Some(value) {
                assert(values0.update(pos as int, value) =~= values0);
                assert(self.storage.pages() =~= c.pages);
            }
            lemma_leaf_put(
                c.pages,
                self.storage.pages(),
                c.b,
                loc,
                cur.lo,
                cur.hi,
                cur.nxt,
                key,
                value,
                pos as int,
            );
        }
        if leaf.keys.len() > self.max_keys {
            proof {
                let q = self.storage.pages();
                assert(cut_leaf(q, loc, leaf.keys@, leaf.values@, leaf.next) == cut_leaf(
                    c.pages,
                    loc,
                    leaf.keys@,
                    leaf.values@,
                    leaf.next,
                )) by {
                    assert(cut_leaf(q, loc, leaf.keys@, leaf.values@, leaf.next)->Split_pages
                        =~= cut_leaf(c.pages, loc, leaf.keys@, leaf.values@, leaf.next)->Split_pages);
                }
            }
            self.split_leaf(loc, leaf, &mut path, Ghost(c), Ghost(levels), Ghost(cur));
        } else {
            proof {
                let q = self.storage.pages();
                lemma_finish_fit(c.pages, c.b, c.key, levels, q);
                lemma_within_capacity(c.pages, q, c.b, loc, 0, cur.lo, cur.hi, cur.nxt, key, value);
                lemma_lift_path(c.pages, q, c.b, key, value, root_level(c.root, c.h), levels, cur);
                lemma_lift_path_stays(c.pages, q, c.b, key, value, root_level(c.root, c.h), levels, cur);
                lemma_updated_root(c.pages, q, c.b, c.root, c.h, key, value);
                lemma_insert_kept(c, q, c.root, c.h);
            }
        }
        Ok(())
    }

    /// Cuts the overfull leaf at `loc` in two. The left half stays on its
    /// page and is chained to the right half, which goes to a new page and
    /// inherits the successor; the first key of the right half goes up as
    /// separator.
    fn split_leaf(
        &mut self,
        loc: usize,
        leaf: LeafNode,
        path: &mut Vec<(usize, InternalNode)>,
        Ghost(c): Ghost<InsertCtx>,
        Ghost(levels): Ghost<Seq<Level>>,
        Ghost(cur): Ghost<Level>,
    )
        requires
            descent_ok(c, old(path)@, levels, cur),
            cur.loc == loc,
            cur.h == 0,
            old(self).max_keys == c.b,
            old(self).header.root == c.root,
            updated_ok(
                c.pages,
                old(self).storage.pages(),
                c.b,
                c.b + 1,
                loc,
                0,
                cur.lo,
                cur.hi,
                cur.nxt,
                c.key,
                c.rec,
            ),
            old(self).storage.pages()[loc as int] == Some(leaf@),
            leaf.keys@.len() == c.b + 1,
            final_len(
                c,
                levels,
                cut_leaf(old(self).storage.pages(), loc, leaf.keys@, leaf.values@, leaf.next),
            ) <= MAX_PAGES,
            stays_in(c.pages, old(self).storage.pages(), loc, 0),
        ensures
            final(self).max_keys == c.b,
            final(path)@ == path_left(old(path)@, c.b),
            insert_done(c, final(self).storage.pages(), final(self).header.root),
            insert_kept(c, final(self).storage.pages(), final(self).header.root),
            reached(
                c,
                levels,
                cut_leaf(old(self).storage.pages(), loc, leaf.keys@, leaf.values@, leaf.next),
                final(self).storage.pages(),
                final(self).header.root,
            ),
        decreases old(path)@.len(), 2nat,
    {
        let ghost q = self.storage.pages();
        proof {
            lemma_levels_within(c.pages, c.b, c.key, root_level(c.root, c.h), levels, cur);
            lemma_final_len(c, levels, cut_leaf(q, loc, leaf.keys@, leaf.values@, leaf.next));
        }
        let n = leaf.keys.len();
        let mid = (n + 1) / 2;
        let new_leaf = LeafNode {
            keys: copy_range(&leaf.keys, mid, n),
            values: copy_range(&leaf.values, mid, n),
            next: leaf.next,
        };
        let new_leaf_loc = self.storage.total_nodes();
        let left_leaf_node = LeafNode {
            keys: copy_range(&leaf.keys, 0, mid),
            values: copy_range(&leaf.values, 0, mid),
            next: Some(new_leaf_loc),
        };
        let new_key = new_leaf.keys[0];
        assert(left_leaf_node@ == left_leaf(leaf.keys@, leaf.values@, mid as int, new_leaf_loc));
        assert(new_leaf@ == right_leaf(leaf.keys@, leaf.values@, mid as int, leaf.next));
        self.storage.write_node(loc, &Node::Leaf(left_leaf_node));
        proof {
            lemma_write_is_update(q, loc, left_leaf(leaf.keys@, leaf.values@, mid as int, new_leaf_loc));
            lemma_write_is_update(
                self.storage.pages(),
                new_leaf_loc,
                right_leaf(leaf.keys@, leaf.values@, mid as int, leaf.next),
            );
        }
        self.storage.write_node(new_leaf_loc, &Node::Leaf(new_leaf));
        proof {
            assert(self.storage.pages() == cut_leaf(
                q,
                loc,
                leaf.keys@,
                leaf.values@,
                leaf.next,
            )->Split_pages);
            lemma_split_leaf(
                c.pages,
                q,
                self.storage.pages(),
                c.b,
                loc,
                cur.lo,
                cur.hi,
                cur.nxt,
                c.key,
                c.rec,
                mid as int,
                new_leaf_loc,
            );
            lemma_leaf_split_stays(c.pages, q, self.storage.pages(), loc, new_leaf_loc);
        }
        if path.len() == 0 {
            self.grow_root(loc, new_key, new_leaf_loc, Ghost(c));
        } else {
            self.insert_into_parent(new_key, new_leaf_loc, path, Ghost(c), Ghost(levels), Ghost(cur));
        }
    }

    /// Hands the separator `key` and the new page `new_child_loc` of a split
    /// to the parent, the last node on the path, which is taken off the
    /// path: both are inserted at the slot the separator routes to, and the
    /// parent is split in turn if it overflows. The climb ends at the first
    /// parent that has room.
    fn insert_into_parent(
        &mut self,
        key: i32,
        new_child_loc: usize,
        path: &mut Vec<(usize, InternalNode)>,
        Ghost(c): Ghost<InsertCtx>,
        Ghost(levels): Ghost<Seq<Level>>,
        Ghost(cur): Ghost<Level>,
    )
        requires
            old(path)@.len() > 0,
            descent_ok(c, old(path)@, levels, cur),
            old(self).max_keys == c.b,
            old(self).header.root == c.root,
            split_ok(
                c.pages,
                old(self).storage.pages(),
                c.b,
                cur.loc,
                cur.h,
                cur.lo,
                cur.hi,
                cur.nxt,
                c.key,
                c.rec,
                key,
                new_child_loc,
            ),
            final_len(
                c,
                levels,
                Grown::Split { pages: old(self).storage.pages(), sep: key, right: new_child_loc },
            ) <= MAX_PAGES,
            stays_in_two(c.pages, old(self).storage.pages(), cur.loc, cur.h, new_child_loc),
        ensures
            final(self).max_keys == c.b,
            final(path)@ == path_left(old(path)@, c.b),
            insert_done(c, final(self).storage.pages(), final(self).header.root),
            insert_kept(c, final(self).storage.pages(), final(self).header.root),
            reached(
                c,
                levels,
                Grown::Split { pages: old(self).storage.pages(), sep: key, right: new_child_loc },
                final(self).storage.pages(),
                final(self).header.root,
            ),
        decreases old(path)@.len(), 0nat,
    {
        let ghost q = self.storage.pages();
        let ghost up = levels.last();
        proof {
            lemma_descent_pop(c, path@, levels, cur);
            lemma_wf_unfold(c.pages, c.b, up.loc, up.h, up.lo, up.hi, up.nxt);
        }
        let (parent_loc, mut parent) = path.pop().unwrap();
        let ghost keys0 = parent.keys@;
        let ghost children0 = parent.children@;
        proof {
            lemma_sep_route(keys0, up.lo, up.hi, c.key, key);
        }
        let i = route_index(&parent.keys, key);
        parent.keys.insert(i, key);
        parent.children.insert(i + 1, new_child_loc);
        assert(parent@ == absorbed(keys0, children0, i as int, key, new_child_loc));
        self.storage.write_node(parent_loc, &Node::Internal(parent.duplicate()));
        proof {
            lemma_write_is_update(q, parent_loc, parent@);
            let q2 = self.storage.pages();
            assert(cut_internal(q2, parent_loc, parent.keys@, parent.children@) == cut_internal(
                q,
                parent_loc,
                parent.keys@,
                parent.children@,
            )) by {
                assert(cut_internal(q2, parent_loc, parent.keys@, parent.children@)->Split_pages
                    =~= cut_internal(q, parent_loc, parent.keys@, parent.children@)->Split_pages);
            }
            lemma_finish_fit(c.pages, c.b, c.key, levels.drop_last(), q2);
            lemma_absorb(
                c.pages,
                q,
                self.storage.pages(),
                c.b,
                up.loc,
                up.h,
                up.lo,
                up.hi,
                up.nxt,
                c.key,
                c.rec,
                key,
                new_child_loc,
            );
            lemma_absorb_stays(
                c.pages,
                q,
                self.storage.pages(),
                c.b,
                up.loc,
                up.h,
                up.lo,
                up.hi,
                up.nxt,
                c.key,
                c.rec,
                key,
                new_child_loc,
            );
        }
        if parent.keys.len() > self.max_keys {
            self.split_internal(parent_loc, parent, path, Ghost(c), Ghost(levels.drop_last()), Ghost(up));
        } else {
            proof {
                let q2 = self.storage.pages();
                lemma_within_capacity(c.pages, q2, c.b, up.loc, up.h, up.lo, up.hi, up.nxt, c.key, c.rec);
                lemma_lift_path(
                    c.pages,
                    q2,
                    c.b,
                    c.key,
                    c.rec,
                    root_level(c.root, c.h),
                    levels.drop_last(),
                    up,
                );
                lemma_lift_path_stays(
                    c.pages,
                    q2,
                    c.b,
                    c.key,
                    c.rec,
                    root_level(c.root, c.h),
                    levels.drop_last(),
                    up,
                );
                lemma_updated_root(c.pages, q2, c.b, c.root, c.h, c.key, c.rec);
                lemma_insert_kept(c, q2, c.root, c.h);
            }
        }
    }

    /// Cuts the overfull internal node at `loc` in two. The middle separator
    /// goes up and stays in neither half; the left half keeps the page, the
    /// right half goes to a new page.
    fn split_internal(
        &mut self,
        loc: usize,
        internal: InternalNode,
        path: &mut Vec<(usize, InternalNode)>,
        Ghost(c): Ghost<InsertCtx>,
        Ghost(levels): Ghost<Seq<Level>>,
        Ghost(cur): Ghost<Level>,
    )
        requires
            descent_ok(c, old(path)@, levels, cur),
            cur.loc == loc,
            cur.h > 0,
            old(self).max_keys == c.b,
            old(self).header.root == c.root,
            updated_ok(
                c.pages,
                old(self).storage.pages(),
                c.b,
                c.b + 1,
                loc,
                cur.h,
                cur.lo,
                cur.hi,
                cur.nxt,
                c.key,
                c.rec,
            ),
            old(self).storage.pages()[loc as int] == Some(internal@),
            internal.keys@.len() == c.b + 1,
            final_len(
                c,
                levels,
                cut_internal(old(self).storage.pages(), loc, internal.keys@, internal.children@),
            ) <= MAX_PAGES,
            stays_in(c.pages, old(self).storage.pages(), loc, cur.h),
        ensures
            final(self).max_keys == c.b,
            final(path)@ == path_left(old(path)@, c.b),
            insert_done(c, final(self).storage.pages(), final(self).header.root),
            insert_kept(c, final(self).storage.pages(), final(self).header.root),
            reached(
                c,
                levels,
                cut_internal(old(self).storage.pages(), loc, internal.keys@, internal.children@),
                final(self).storage.pages(),
                final(self).header.root,
            ),
        decreases old(path)@.len(), 1nat,
    {
        let ghost q = self.storage.pages();
        proof {
            lemma_levels_within(c.pages, c.b, c.key, root_level(c.root, c.h), levels, cur);
            lemma_final_len(c, levels, cut_internal(q, loc, internal.keys@, internal.children@));
        }
        let nk = internal.keys.len();
        let nc = internal.children.len();
        let mid = nk / 2;
        let new_internal = InternalNode {
            keys: copy_range(&internal.keys, mid + 1, nk),
            children: copy_range(&internal.children, mid + 1, nc),
        };
        let new_internal_loc = self.storage.total_nodes();
        let left_node = InternalNode {
            keys: copy_range(&internal.keys, 0, mid),
            children: copy_range(&internal.children, 0, mid + 1),
        };
        let new_key = internal.keys[mid];
        assert(left_node@ == left_half(internal.keys@, internal.children@, mid as int));
        assert(new_internal@ == right_half(internal.keys@, internal.children@, mid as int));
        self.storage.write_node(loc, &Node::Internal(left_node));
        proof {
            lemma_write_is_update(q, loc, left_half(internal.keys@, internal.children@, mid as int));
            lemma_write_is_update(
                self.storage.pages(),
                new_internal_loc,
                right_half(internal.keys@, internal.children@, mid as int),
            );
        }
        self.storage.write_node(new_internal_loc, &Node::Internal(new_internal));
        proof {
            assert(self.storage.pages() == cut_internal(
                q,
                loc,
                internal.keys@,
                internal.children@,
            )->Split_pages);
            lemma_split_internal(
                c.pages,
                q,
                self.storage.pages(),
                c.b,
                loc,
                cur.h,
                cur.lo,
                cur.hi,
                cur.nxt,
                c.key,
                c.rec,
                mid as int,
                new_internal_loc,
            );
            lemma_split_internal_stays(
                c.pages,
                q,
                self.storage.pages(),
                c.b,
                loc,
                cur.h,
                cur.lo,
                cur.hi,
                cur.nxt,
                c.key,
                c.rec,
                mid as int,
                new_internal_loc,
            );
        }
        if path.len() == 0 {
            self.grow_root(loc, new_key, new_internal_loc, Ghost(c));
        } else {
            self.insert_into_parent(new_key, new_internal_loc, path, Ghost(c), Ghost(levels), Ghost(cur));
        }
    }

    /// Puts a new root above the two halves of the old one: an internal
    /// node with the separator and the two pages, on a new page; the header
    /// is rewritten to name it.
    fn grow_root(&mut self, left: usize, key: i32, right: usize, Ghost(c): Ghost<InsertCtx>)
        requires
            ctx_ok(c),
            left == c.root,
            old(self).max_keys == c.b,
            old(self).header.root == c.root,
            split_ok(
                c.pages,
                old(self).storage.pages(),
                c.b,
                c.root,
                c.h,
                key_floor(),
                key_ceiling(),
                None,
                c.key,
                c.rec,
                key,
                right,
            ),
            old(self).storage.pages().len() + 1 <= MAX_PAGES,
            stays_in_two(c.pages, old(self).storage.pages(), c.root, c.h, right),
        ensures
            final(self).max_keys == c.b,
            insert_done(c, final(self).storage.pages(), final(self).header.root),
            insert_kept(c, final(self).storage.pages(), final(self).header.root),
            (final(self).storage.pages(), final(self).header.root) == conclude(
                Grown::Split { pages: old(self).storage.pages(), sep: key, right },
                c.root,
            ),
    {
        let ghost q = self.storage.pages();
        let mut keys: Vec<i32> = Vec::new();
        keys.push(key);
        let mut children: Vec<usize> = Vec::new();
        children.push(left);
        children.push(right);
        let new_root = Node::Internal(InternalNode { keys, children });
        assert(new_root@ == grown_root(key, left, right)) by {
            assert(keys@ =~= seq![key]);
            assert(children@ =~= seq![left, right]);
        }
        let new_root_loc = self.storage.total_nodes();
        proof {
            lemma_wf_unfold(c.pages, c.b, c.root, c.h, key_floor(), key_ceiling(), None);
            assert(c.root < new_root_loc);
        }
        self.storage.write_node(new_root_loc, &new_root);
        self.header.root = new_root_loc;
        proof {
            lemma_write_is_update(q, new_root_loc, new_root@);
            lemma_write_is_update(self.storage.pages(), 0, self.header@);
        }
        self.storage.write_node(0, &Node::Header(self.header.duplicate()));
        proof {
            lemma_root_split(
                c.pages,
                q,
                self.storage.pages(),
                c.b,
                c.root,
                c.h,
                c.key,
                c.rec,
                key,
                right,
                new_root_loc,
            );
            lemma_root_split_stays(
                c.pages,
                q,
                self.storage.pages(),
                c.b,
                c.root,
                c.h,
                c.key,
                c.rec,
                key,
                right,
                new_root_loc,
            );
            lemma_insert_kept(c, self.storage.pages(), new_root_loc, (c.h + 1) as nat);
        }
    }

    /// The page of the leftmost leaf: the leaf that a descent through the
    /// first child of every node reaches.
    pub fn leftmost_leaf(&mut self) -> (loc: usize)
        requires
            old(self).wf(),
        ensures
            loc == first_leaf(old(self).pages(), old(self).root(), old(self).height()),
            final(self).pages() == old(self).pages(),
            final(self).root() == old(self).root(),
            final(self).order() == old(self).order(),
    {
        let ghost pages = self.storage.pages();
        let ghost b = self.max_keys as nat;
        let ghost top = self.height();
        let ghost mut h = top;
        let ghost mut lo = key_floor();
        let ghost mut hi = key_ceiling();
        let ghost mut nxt: Option<usize> = None;
        let mut loc = self.header.root;
        loop
            invariant
                self.storage.pages() == pages,
                pages == old(self).storage.pages(),
                top == old(self).height(),
                self.header == old(self).header,
                self.max_keys == old(self).max_keys,
                subtree_wf(pages, b, loc, h, lo, hi, nxt),
                first_leaf(pages, loc, h) == first_leaf(pages, old(self).header.root, top),
            decreases h,
        {
            proof {
                lemma_wf_unfold(pages, b, loc, h, lo, hi, nxt);
                lemma_first_leaf_unfold(pages, loc, h);
            }
            match self.storage.read_node(loc) {
                Some(Node::Internal(internal)) => {
                    proof {
                        let hc = (h - 1) as nat;
                        lemma_children_wf_unfold(pages, b, internal.keys@, internal.children@, hc, lo, hi, nxt);
                        let c = internal.children@[0];
                        assert(subtree_wf(
                            pages,
                            b,
                            c,
                            hc,
                            child_lo(internal.keys@, lo, 0),
                            child_hi(internal.keys@, hi, 0),
                            child_next(pages, internal.children@, hc, nxt, 0),
                        ));
                        nxt = child_next(pages, internal.children@, hc, nxt, 0);
                        hi = child_hi(internal.keys@, hi, 0);
                        lo = child_lo(internal.keys@, lo, 0);
                        h = hc;
                    }
                    loc = internal.children[0];
                },
                Some(Node::Leaf(_)) => {
                    return loc;
                },
                _ => {
                    assert(false);
                    return loc;
                },
            }
        }
    }

    /// All records in ascending key order, gathered by walking the chain
    /// of leaves from the leftmost leaf on.
    pub fn dump_records(&mut self) -> (r: Vec<Record>)
        requires
            old(self).wf(),
        ensures
            final(self).pages() == old(self).pages(),
            final(self).root() == old(self).root(),
            final(self).order() == old(self).order(),
            r@ == flat(
                old(self).pages(),
                subtree_leaves(old(self).pages(), old(self).root(), old(self).height()),
            ),
            ascending(r@, key_floor(), key_ceiling()),
            forall|i: int| 0 <= i < r@.len() ==> lookup(old(self)@, (#[trigger] r@[i]).key) == Some(r@[i]),
            forall|k: i32| #[trigger]
                old(self)@.contains_key(k) ==> exists|i: int|
                    0 <= i < r@.len() && (#[trigger] r@[i]).key == k,
    {
        let ghost pages = self.storage.pages();
        let ghost b = self.max_keys as nat;
        let ghost top = self.height();
        let ghost root = self.header.root;
        let ghost leaves = subtree_leaves(pages, root, top);
        proof {
            lemma_leaves_chained(pages, b, root, top, key_floor(), key_ceiling(), None);
            lemma_leaves_hold(pages, b, root, top, key_floor(), key_ceiling(), None);
        }
        let mut loc = self.leftmost_leaf();
        let mut out: Vec<Record> = Vec::new();
        let ghost mut t: int = 0;
        assert(leaves.subrange(0, 0) =~= Seq::<usize>::empty());
        loop
            invariant_except_break
                loc == leaves[t],
                out@ == flat(pages, leaves.subrange(0, t)),
            invariant
                self.storage.pages() == pages,
                self.header == old(self).header,
                self.max_keys == old(self).max_keys,
                chained(pages, leaves, None),
                0 <= t < leaves.len(),
            ensures
                self.storage.pages() == pages,
                self.header == old(self).header,
                self.max_keys == old(self).max_keys,
                out@ == flat(pages, leaves),
            decreases leaves.len() - t,
        {
            proof {
                lemma_follower(leaves, None, t);
            }
            match self.storage.read_node(loc) {
                Some(Node::Leaf(leaf)) => {
                    let ghost before = out@;
                    let mut i: usize = 0;
                    while i < leaf.values.len()
                        invariant
                            i <= leaf.values@.len(),
                            out@ == before + leaf.values@.subrange(0, i as int),
                        decreases leaf.values@.len() - i,
                    {
                        out.push(leaf.values[i]);
                        i += 1;
                        assert(out@ =~= before + leaf.values@.subrange(0, i as int));
                    }
                    proof {
                        assert(leaf.values@.subrange(0, i as int) =~= leaf.values@);
                        assert(leaves.subrange(0, t + 1).drop_last() =~= leaves.subrange(0, t));
                        assert(leaves.subrange(0, t + 1).last() == leaves[t]);
                    }
                    match leaf.next {
                        Some(next) => {
                            loc = next;
                            proof {
                                t = t + 1;
                            }
                        },
                        None => {
                            proof {
                                assert(leaves.subrange(0, t + 1) =~= leaves);
                            }
                            break;
                        },
                    }
                },
                _ => {
                    assert(false);
                    break;
                },
            }
        }
        out
    }

    /// A listing of the tree, the root first and below each node its
    /// children from left to right.
    pub fn dump_tree(&mut self) -> (r: Vec<TreeLine>)
        requires
            old(self).wf(),
        ensures
            final(self).pages() == old(self).pages(),
            final(self).root() == old(self).root(),
            final(self).order() == old(self).order(),
            lines_view(r@) == subtree_lines(old(self).pages(), old(self).root(), old(self).height(), 0),
    {
        let mut out: Vec<TreeLine> = Vec::new();
        let root = self.header.root;
        let ghost top = self.height();
        self.dump_node(
            root,
            0,
            &mut out,
            Ghost(top),
            Ghost(key_floor()),
            Ghost(key_ceiling()),
            Ghost(None),
        );
        assert(lines_view(out@) =~= subtree_lines(old(self).pages(), root, top, 0));
        out
    }

    /// Adds the listing of the subtree at `loc` to `out`.
    fn dump_node(
        &mut self,
        loc: usize,
        depth: usize,
        out: &mut Vec<TreeLine>,
        Ghost(h): Ghost<nat>,
        Ghost(lo): Ghost<int>,
        Ghost(hi): Ghost<int>,
        Ghost(nxt): Ghost<Option<usize>>,
    )
        requires
            subtree_wf(old(self).storage.pages(), old(self).max_keys as nat, loc, h, lo, hi, nxt),
        ensures
            final(self).storage.pages() == old(self).storage.pages(),
            final(self).header == old(self).header,
            final(self).max_keys == old(self).max_keys,
            lines_view(final(out)@) == lines_view(old(out)@) + subtree_lines(
                old(self).storage.pages(),
                loc,
                h,
                depth,
            ),
        decreases h,
    {
        let ghost pages = self.storage.pages();
        let ghost b = self.max_keys as nat;
        let ghost start = lines_view(out@);
        proof {
            lemma_wf_unfold(pages, b, loc, h, lo, hi, nxt);
        }
        match self.storage.read_node(loc) {
            Some(Node::Leaf(leaf)) => {
                out.push(TreeLine { depth, loc, leaf: true, keys: leaf.keys });
                assert(lines_view(out@) =~= start + subtree_lines(pages, loc, h, depth));
            },
            Some(Node::Internal(internal)) => {
                let ghost keys = internal.keys@;
                let ghost children = internal.children@;
                let ghost hc = (h - 1) as nat;
                let InternalNode { keys: node_keys, children: node_children } = internal;
                out.push(TreeLine { depth, loc, leaf: false, keys: node_keys });
                let below = bump(depth);
                let ghost line = seq![TreeLineView { depth, loc, leaf: false, keys }];
                assert(lines_view(out@) =~= start + line);
                assert(children_lines(pages, children, hc, below, 0) =~= Seq::<TreeLineView>::empty());
                let mut i: usize = 0;
                while i < node_children.len()
                    invariant
                        i <= node_children@.len(),
                        node_children@ == children,
                        self.storage.pages() == pages,
                        self.header == old(self).header,
                        self.max_keys == old(self).max_keys,
                        b == self.max_keys,
                        hc == h - 1,
                        h > 0,
                        children_wf(pages, b, keys, children, hc, lo, hi, nxt),
                        lines_view(out@) == start + line + children_lines(
                            pages,
                            children,
                            hc,
                            below,
                            i as nat,
                        ),
                    decreases node_children@.len() - i,
                {
                    proof {
                        lemma_children_wf_unfold(pages, b, keys, children, hc, lo, hi, nxt);
                    }
                    let ghost mid = lines_view(out@);
                    self.dump_node(
                        node_children[i],
                        below,
                        out,
                        Ghost(hc),
                        Ghost(child_lo(keys, lo, i as int)),
                        Ghost(child_hi(keys, hi, i as int)),
                        Ghost(child_next(pages, children, hc, nxt, i as int)),
                    );
                    i += 1;
                    assert(lines_view(out@) =~= start + line + children_lines(
                        pages,
                        children,
                        hc,
                        below,
                        i as nat,
                    ));
                }
                assert(lines_view(out@) =~= start + subtree_lines(pages, loc, h, depth));
            },
            _ => {
                assert(false);
            },
        }
    }
}

/// A header at page 0 and an empty leaf at page 1 hold the empty tree.
pub proof fn lemma_fresh_tree(b: nat)
    requires
        1 <= b <= MAX_ORDER,
    ensures
        tree_wf(fresh_pages(), b, 1, 0),
        store_wf(fresh_pages(), b, 1),
        forall|k: i32| subtree_get(fresh_pages(), 1, 0, k) is None,
{
    reveal(subtree_wf);
    reveal(subtree_get);
    assert(tree_wf(fresh_pages(), b, 1, 0));
}

} // verus!
