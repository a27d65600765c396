//! The public index: binds items to stable handles, keeps the position at
//! which each handle is filed, and drives insertion until every split has
//! been resolved.

use std::collections::HashMap;

use vstd::prelude::*;

use crate::geometry::{dist2, in_rect, within, Pos};
use crate::node::{covers, lemma_sorted_no_duplicates, region_edges, strictly_sorted, joint_no_duplicates, lemma_concat_no_duplicates, split_bound, QuadTreeInner, Segment};

verus! {

broadcast use vstd::std_specs::hash::group_hash_axioms;

/// The only failure of the index: a position outside the indexed region.
#[derive(Debug, Clone, Copy, PartialEq, Eq)]
pub struct QuadTreeInsertError;

/// What the index needs to know of an item: where it is now.
pub trait Position {
    fn position(&self) -> (i32, i32);
}

/// A region-bounded spatial index over items of type `T`.
///
/// The index records the position at which each handle was filed (by
/// `insert`, `relocate` or `reinsert`). Handles moved after a split are
/// filed again at that recorded position, and `search_radius` measures
/// distances from it. An item that moves must be filed again with
/// `reinsert` or `relocate`; until then queries see it where it was.
pub struct QuadTree<T> {
    nodes: HashMap<u64, T>,
    placed: HashMap<u64, Pos>,
    handle_counter: u64,
    tree: QuadTreeInner,
}

/// `res` lists, in order, the items filed under `ids`.
pub open spec fn lists_items<T>(res: Seq<&T>, ids: Seq<u64>, items: Map<u64, T>) -> bool {
    &&& ids.to_set().subset_of(items.dom())
    &&& res.map_values(|x: &T| *x) == ids.map_values(|h: u64| items[h])
}

impl<T> QuadTree<T> {
    /// Handle to item.
    pub closed spec fn items(&self) -> Map<u64, T> {
        self.nodes@
    }

    /// Handle to the position at which it is filed.
    pub closed spec fn positions(&self) -> Map<u64, Pos> {
        self.placed@
    }

    /// The handle that the next insertion will take.
    pub closed spec fn next_handle(&self) -> u64 {
        self.handle_counter
    }

    pub closed spec fn top_left(&self) -> Pos {
        self.tree.top_left
    }

    pub closed spec fn bot_right(&self) -> Pos {
        self.tree.bot_right
    }

    pub closed spec fn capacity(&self) -> usize {
        self.tree.max_nodes
    }

    pub closed spec fn min_size(&self) -> u32 {
        self.tree.min_size
    }

    /// Whether `p` lies in the indexed region.
    pub open spec fn in_region(&self, p: Pos) -> bool {
        in_rect(self.top_left(), self.bot_right(), p)
    }

    /// Whether routing `p` from the root reaches the leaf that stores `id`.
    pub closed spec fn stored_at(&self, id: u64, p: Pos) -> bool {
        self.tree.contains_pos(p) && self.tree.leaf_at(p).handles@.contains(id)
    }

    /// Boundary segments of every region of the partition, the root's first.
    pub closed spec fn boundaries(&self) -> Seq<Segment> {
        self.tree.all_edges()
    }

    /// Whether the leaf that routing `p` reaches takes one more handle
    /// without splitting: it holds fewer than `capacity()` handles, or an
    /// edge of its region is `min_size()` or shorter.
    pub closed spec fn leaf_has_room(&self, p: Pos) -> bool {
        self.tree.leaf_at(p).has_room()
    }

    /// Number of splits so far: each one turned a leaf into an internal node.
    pub closed spec fn split_count(&self) -> nat {
        self.tree.internal_count()
    }

    /// Handles that a radius query returns before exact filtering: those of
    /// every leaf whose region the circle reaches (all of them while the
    /// root is still a leaf).
    pub closed spec fn candidates(&self, pos: Pos, r: u32) -> Set<u64> {
        self.tree.reached(pos, r)
    }

    /// The index's invariant.
    pub closed spec fn wf(&self) -> bool {
        &&& self.tree.wf()
        &&& self.tree.placed_ok(self.placed@)
        &&& self.tree.handle_set() == self.placed@.dom()
        &&& self.nodes@.dom() == self.placed@.dom()
        &&& forall|h: u64| #[trigger] self.placed@.contains_key(h) ==> h < self.handle_counter
        &&& forall|h: u64| #[trigger]
            self.placed@.contains_key(h) ==> self.tree.contains_pos(self.placed@[h])
    }

    /// The handles of the leaf that routing `p` from the root reaches.
    pub closed spec fn leaf_handles(&self, p: Pos) -> Seq<u64> {
        self.tree.leaf_at(p).handles@
    }

    /// Every filed handle is found again by routing its recorded position:
    /// `remove(id, p)` with the position `p` it was inserted or relocated at
    /// hands its item back.
    pub proof fn lemma_filed_handle_is_reachable(&self, id: u64)
        requires
            self.wf(),
            self.positions().contains_key(id),
        ensures
            self.in_region(self.positions()[id]),
            self.stored_at(id, self.positions()[id]),
            self.items().contains_key(id),
    {
        self.tree.lemma_placed_in_leaf(self.placed@, id);
    }

    /// Items and positions are kept under the same handles, and every filed
    /// handle lies below the next one to be handed out, so an insertion never
    /// overwrites an earlier item.
    pub proof fn lemma_handles_fresh(&self)
        requires
            self.wf(),
        ensures
            self.items().dom() == self.positions().dom(),
            forall|h: u64| #[trigger] self.positions().contains_key(h) ==> h < self.next_handle(),
    {
    }

    /// `lines()` starts with the four edges of the indexed region and holds
    /// sixteen more segments for each split.
    pub proof fn lemma_boundaries_shape(&self)
        requires
            self.wf(),
        ensures
            self.boundaries().len() == 4 + 16 * self.split_count(),
            self.boundaries().take(4) == region_edges(self.top_left(), self.bot_right()),
    {
        self.tree.lemma_all_edges_shape();
    }

    /// Before the first split the root is the only leaf: it has room while
    /// fewer than `capacity()` items are filed or an edge of the region is
    /// `min_size()` or shorter.
    pub proof fn lemma_room_before_split(&self, p: Pos)
        requires
            self.wf(),
            self.split_count() == 0,
        ensures
            self.leaf_has_room(p) == (self.positions().len() < self.capacity()
                || self.bot_right().0 - self.top_left().0 <= self.min_size()
                || self.bot_right().1 - self.top_left().1 <= self.min_size()),
    {
        let hs = self.tree.handles@;
        assert(self.tree.is_leaf());
        lemma_sorted_no_duplicates(hs);
        hs.unique_seq_to_set();
        assert(self.tree.leaf_at(p) == self.tree);
    }

    /// However many items pile up, even at one point, the number of splits
    /// stays within a bound fixed by the region's width plus height, since
    /// a region must have both edges longer than `min_size()` to split.
    pub proof fn lemma_split_count_bound(&self)
        requires
            self.wf(),
        ensures
            self.split_count() <= split_bound(
                (self.bot_right().0 - self.top_left().0) + (self.bot_right().1 - self.top_left().1),
            ),
    {
        self.tree.lemma_internal_count_bound();
    }

    /// A handle that is no longer filed is never found by a radius query.
    pub proof fn lemma_unfiled_handle_not_found(&self, id: u64, pos: Pos, r: u32)
        requires
            self.wf(),
            !self.positions().contains_key(id),
        ensures
            !self.handles_within(pos, r).contains(id),
    {
    }

    /// A query whose circle covers the whole region finds every filed
    /// handle, whatever splits came before.
    pub proof fn lemma_covering_query_finds_all(&self, pos: Pos, r: u32)
        requires
            self.wf(),
            forall|p: Pos| #[trigger] self.in_region(p) ==> dist2(p, pos) <= r * r,
        ensures
            self.handles_within(pos, r) == self.positions().dom(),
    {
        assert forall|h: u64| self.positions().contains_key(h) implies dist2(
            self.positions()[h],
            pos,
        ) <= r * r by {
            assert(self.in_region(self.positions()[h]));
        }
        assert(self.handles_within(pos, r) =~= self.positions().dom());
    }

    /// Every leaf keeps its handles strictly ascending, which is what lets
    /// removal find a handle by binary search.
    pub proof fn lemma_leaves_sorted(&self, p: Pos)
        requires
            self.wf(),
        ensures
            strictly_sorted(self.leaf_handles(p)),
    {
        self.tree.lemma_leaf_sorted(p);
    }

    /// An empty index over the region from `top_left` to `bot_right`. Leaves
    /// hold up to `max_nodes` handles before they split, unless an edge of
    /// their region is `min_size` or shorter.
    pub fn new(max_nodes: usize, min_size: u32, top_left: Pos, bot_right: Pos) -> (r: Self)
        requires
            max_nodes >= 1,
            min_size >= 1,
            top_left.0 <= bot_right.0,
            top_left.1 <= bot_right.1,
        ensures
            r.wf(),
            r.items() == Map::<u64, T>::empty(),
            r.positions() == Map::<u64, Pos>::empty(),
            r.next_handle() == 0,
            r.top_left() == top_left,
            r.bot_right() == bot_right,
            r.capacity() == max_nodes,
            r.min_size() == min_size,
            r.split_count() == 0,
            r.boundaries() == region_edges(top_left, bot_right),
    {
        let tree = QuadTreeInner::new(max_nodes, min_size, top_left, bot_right);
        proof {
            assert(tree.handles@.to_set() =~= Set::empty());
        }
        QuadTree { nodes: HashMap::new(), placed: HashMap::new(), handle_counter: 0, tree }
    }

    /// Files every pending handle at its recorded position. A handle that
    /// makes a leaf split brings that leaf's handles back into the list;
    /// each split adds an internal node, and a region admits only a bounded
    /// number of them, so the list runs dry.
    fn settle(&mut self, pending: Vec<u64>)
        requires
            old(self).tree.wf(),
            old(self).tree.placed_ok(old(self).placed@),
            old(self).tree.handle_set() + pending@.to_set() == old(self).placed@.dom(),
            old(self).tree.handle_set().disjoint(pending@.to_set()),
            pending@.no_duplicates(),
            old(self).nodes@.dom() == old(self).placed@.dom(),
            forall|h: u64| #[trigger]
                old(self).placed@.contains_key(h) ==> h < old(self).handle_counter,
            forall|h: u64| #[trigger]
                old(self).placed@.contains_key(h) ==> old(self).tree.contains_pos(
                    old(self).placed@[h],
                ),
        ensures
            final(self).wf(),
            final(self).nodes@ == old(self).nodes@,
            final(self).placed@ == old(self).placed@,
            final(self).handle_counter == old(self).handle_counter,
            final(self).tree.same_frame(old(self).tree),
            final(self).tree.internal_count() >= old(self).tree.internal_count(),
    {
        let mut pending = pending;
        let ghost frame = self.tree;
        let ghost bound = split_bound(frame.size());
        proof {
            self.tree.lemma_internal_count_bound();
        }
        while pending.len() > 0
            invariant
                self.tree.wf(),
                self.tree.same_frame(frame),
                self.tree.placed_ok(self.placed@),
                self.tree.handle_set() + pending@.to_set() == self.placed@.dom(),
                self.tree.handle_set().disjoint(pending@.to_set()),
                pending@.no_duplicates(),
                self.nodes@ == old(self).nodes@,
                self.placed@ == old(self).placed@,
                self.handle_counter == old(self).handle_counter,
                self.nodes@.dom() == self.placed@.dom(),
                forall|h: u64| #[trigger]
                    self.placed@.contains_key(h) ==> self.tree.contains_pos(self.placed@[h]),
                bound == split_bound(self.tree.size()),
                self.tree.internal_count() <= bound,
                self.tree.internal_count() >= old(self).tree.internal_count(),
            decreases bound - self.tree.internal_count(), pending@.len(),
        {
            let ghost before = pending@;
            let id = pending.pop().unwrap();
            let ghost rest = pending@;
            proof {
                assert(before == rest.push(id));
                rest.lemma_push_to_set_commute(id);
                assert(before[before.len() - 1] == id);
                assert(!rest.contains(id)) by {
                    if rest.contains(id) {
                        let j = choose|j: int| 0 <= j < rest.len() && rest[j] == id;
                        assert(before[j] == id);
                    }
                }
                assert(rest.no_duplicates()) by {
                    assert forall|i: int, j: int|
                        0 <= i < rest.len() && 0 <= j < rest.len() && i != j implies rest[i]
                        != rest[j] by {
                        assert(before[i] == rest[i] && before[j] == rest[j]);
                    }
                }
                assert(before.to_set().contains(id));
            }
            let p = *self.placed.get(&id).unwrap();
            let ghost old_tree = self.tree;
            match self.tree.insert(p, id, Ghost(self.placed@)) {
                Ok(more) => {
                    let mut more = more;
                    let ghost m = more@;
                    proof {
                        assert(joint_no_duplicates(rest, m)) by {
                            assert forall|x: u64| rest.to_set().contains(x) implies !m.to_set().contains(x) by {
                                assert(before.to_set().contains(x));
                                assert(x != id);
                                assert(!old_tree.handle_set().contains(x));
                                assert(!(old_tree.handle_set().insert(id)).contains(x));
                                assert(!(self.tree.handle_set() + m.to_set()).contains(x));
                            }
                        }
                        lemma_concat_no_duplicates(rest, m);
                        self.tree.lemma_internal_count_bound();
                    }
                    pending.append(&mut more);
                    proof {
                        assert(pending@ == rest + m);
                        assert(before.to_set() == rest.to_set().insert(id));
                        assert(pending@.to_set() == rest.to_set() + m.to_set());
                        assert forall|x: u64| (self.tree.handle_set() + pending@.to_set()).contains(x)
                            <==> self.placed@.dom().contains(x) by {
                            assert((self.tree.handle_set() + m.to_set()).contains(x)
                                <==> old_tree.handle_set().insert(id).contains(x));
                            assert((old_tree.handle_set() + before.to_set()).contains(x)
                                <==> self.placed@.dom().contains(x));
                        }
                        assert(self.tree.handle_set() + pending@.to_set() =~= self.placed@.dom());
                        assert forall|x: u64| pending@.to_set().contains(x) implies !self.tree.handle_set().contains(x) by {
                            if rest.to_set().contains(x) {
                                assert(before.to_set().contains(x));
                                assert(x != id);
                                assert(!(old_tree.handle_set().insert(id)).contains(x));
                            }
                        }
                        assert(self.tree.handle_set().disjoint(pending@.to_set()));
                    }
                },
                Err(_) => {},
            }
        }
        proof {
            assert(pending@.to_set() =~= Set::empty());
            assert(self.tree.handle_set() =~= self.placed@.dom());
        }
    }

    /// Removes `id` from the leaf that routing `pos` reaches and hands back
    /// its item. When `id` is not stored there nothing changes.
    pub fn remove(&mut self, id: u64, pos: Pos) -> (r: Option<T>)
        requires
            old(self).wf(),
        ensures
            final(self).wf(),
            final(self).top_left() == old(self).top_left(),
            final(self).bot_right() == old(self).bot_right(),
            final(self).capacity() == old(self).capacity(),
            final(self).min_size() == old(self).min_size(),
            final(self).next_handle() == old(self).next_handle(),
            r.is_some() == old(self).stored_at(id, pos),
            r.is_some() ==> {
                &&& old(self).items().contains_key(id)
                &&& r == Some(old(self).items()[id])
                &&& final(self).items() == old(self).items().remove(id)
                &&& final(self).positions() == old(self).positions().remove(id)
            },
            r.is_none() ==> *final(self) == *old(self),
            final(self).split_count() == old(self).split_count(),
    {
        proof {
            self.tree.lemma_leaf_handles_in_set(pos);
            if self.stored_at(id, pos) {
                assert(self.tree.leaf_at(pos).handles@.to_set().contains(id));
                assert(self.nodes@.contains_key(id));
            }
        }
        match self.tree.remove(id, pos, Ghost(self.placed@)) {
            Some(_) => {
                proof {
                    self.tree.lemma_placed_ok_agree(self.placed@, self.placed@.remove(id));
                }
                self.placed.remove(&id);
                let item = self.nodes.remove(&id);
                proof {
                    assert(self.tree.handle_set() =~= self.placed@.dom());
                    assert(self.nodes@.dom() =~= self.placed@.dom());
                }
                item
            },
            None => None,
        }
    }

    /// Files `id` anew at `new_pos`, taking it out of the leaf that routing
    /// `old_pos` reaches, or out of the leaf of its recorded position when it
    /// is not there. Fails, changing nothing, when `new_pos` lies outside the
    /// indexed region.
    pub fn relocate(&mut self, id: u64, old_pos: Pos, new_pos: Pos) -> (r: Result<
        (),
        QuadTreeInsertError,
    >)
        requires
            old(self).wf(),
            old(self).items().contains_key(id),
        ensures
            final(self).wf(),
            final(self).top_left() == old(self).top_left(),
            final(self).bot_right() == old(self).bot_right(),
            final(self).capacity() == old(self).capacity(),
            final(self).min_size() == old(self).min_size(),
            final(self).next_handle() == old(self).next_handle(),
            final(self).items() == old(self).items(),
            r.is_err() == !old(self).in_region(new_pos),
            r.is_err() ==> *final(self) == *old(self),
            r.is_ok() ==> final(self).positions() == old(self).positions().insert(id, new_pos),
            final(self).split_count() >= old(self).split_count(),
    {
        if !self.tree.in_boundary(new_pos) {
            return Err(QuadTreeInsertError);
        }
        let ghost pm = self.placed@;
        let first = self.tree.remove(id, old_pos, Ghost(pm));
        if first.is_none() {
            let recorded = *self.placed.get(&id).unwrap();
            proof {
                self.tree.lemma_placed_in_leaf(pm, id);
            }
            self.tree.remove(id, recorded, Ghost(pm));
        }
        proof {
            assert(self.tree.handle_set() == pm.dom().remove(id));
            self.tree.lemma_placed_ok_agree(pm, pm.insert(id, new_pos));
        }
        self.placed.insert(id, new_pos);
        let mut pending: Vec<u64> = Vec::new();
        pending.push(id);
        proof {
            assert(pending@[0] == id);
            assert(pending@.contains(id));
            assert(pending@.to_set() =~= set![id]);
            assert(self.tree.handle_set() + pending@.to_set() =~= self.placed@.dom());
            assert(self.nodes@.dom() =~= self.placed@.dom());
        }
        self.settle(pending);
        Ok(())
    }

    /// Handles of every leaf whose region the circle of radius `r` around
    /// `pos` reaches: each handle filed within the circle, and possibly
    /// others near it.
    pub fn search_radius_ids(&self, pos: Pos, r: u32) -> (res: Vec<u64>)
        requires
            self.wf(),
        ensures
            forall|h: u64| #[trigger]
                res@.contains(h) ==> self.positions().contains_key(h),
            forall|h: u64| #[trigger]
                self.positions().contains_key(h) && dist2(self.positions()[h], pos) <= r * r
                    ==> res@.contains(h),
            res@.no_duplicates(),
            res@.to_set() == self.candidates(pos, r),
    {
        let res = self.tree.search_radius(pos, r, Ghost(self.placed@));
        proof {
            assert forall|h: u64| #[trigger] res@.contains(h) implies self.positions().contains_key(h) by {
                assert(res@.to_set().contains(h));
            }
            assert(covers(res@, self.tree, self.placed@, pos, r));
        }
        res
    }

    /// Handles filed within distance `r` of `pos`, boundary included.
    pub open spec fn handles_within(&self, pos: Pos, r: u32) -> Set<u64> {
        self.positions().dom().filter(|h: u64| dist2(self.positions()[h], pos) <= r * r)
    }

    /// The items filed within distance `r` of `pos`, boundary included, each
    /// once, in no particular order.
    pub fn search_radius(&self, pos: Pos, r: u32) -> (res: Vec<&T>)
        requires
            self.wf(),
        ensures
            exists|ids: Seq<u64>|
                {
                    &&& ids.no_duplicates()
                    &&& ids.to_set() == self.handles_within(pos, r)
                    &&& lists_items(res@, ids, self.items())
                },
    {
        let cand = self.tree.search_radius(pos, r, Ghost(self.placed@));
        let mut result: Vec<&T> = Vec::new();
        let ghost mut ids: Seq<u64> = Seq::empty();
        proof {
            assert(result@.map_values(|x: &T| *x) =~= ids.map_values(|h: u64| self.items()[h]));
            assert(ids.to_set() =~= Set::empty());
        }
        let mut i: usize = 0;
        while i < cand.len()
            invariant
                self.wf(),
                i <= cand@.len(),
                cand@.no_duplicates(),
                cand@.to_set().subset_of(self.tree.handle_set()),
                ids.no_duplicates(),
                lists_items(result@, ids, self.items()),
                forall|h: u64|
                    ids.contains(h) <==> (cand@.take(i as int).contains(h) && dist2(
                        self.placed@[h],
                        pos,
                    ) <= r * r),
            decreases cand@.len() - i,
        {
            let k = cand[i];
            proof {
                assert(cand@.to_set().contains(k));
                assert(!cand@.take(i as int).contains(k)) by {
                    if cand@.take(i as int).contains(k) {
                        let j = choose|j: int| 0 <= j < i && cand@.take(i as int)[j] == k;
                        assert(cand@[j] == k);
                    }
                }
                assert(cand@.take(i as int + 1) == cand@.take(i as int).push(k));
            }
            let p = *self.placed.get(&k).unwrap();
            let close = within(p, pos, r);
            let ghost ids_before = ids;
            if close {
                let item = self.nodes.get(&k).unwrap();
                let ghost before = result@;
                result.push(item);
                proof {
                    assert(!ids.contains(k));
                    let old_ids = ids;
                    ids = ids.push(k);
                    assert(ids.no_duplicates()) by {
                        assert forall|a: int, b: int|
                            0 <= a < ids.len() && 0 <= b < ids.len() && a != b implies ids[a]
                            != ids[b] by {
                            if a < old_ids.len() && b < old_ids.len() {
                                assert(old_ids[a] != old_ids[b]);
                            } else if a < old_ids.len() {
                                assert(old_ids.contains(ids[a]));
                            } else {
                                assert(old_ids.contains(ids[b]));
                            }
                        }
                    }
                    assert(self.nodes@.contains_key(k) && self.nodes@[k] == *item);
                    let rv = result@.map_values(|x: &T| *x);
                    let iv = ids.map_values(|h: u64| self.items()[h]);
                    let bv = before.map_values(|x: &T| *x);
                    let ov = old_ids.map_values(|h: u64| self.items()[h]);
                    assert(bv == ov);
                    assert(bv.len() == before.len() && ov.len() == old_ids.len());
                    assert forall|j: int| 0 <= j < rv.len() implies rv[j] == iv[j] by {
                        if j < old_ids.len() {
                            assert(rv[j] == bv[j]);
                            assert(iv[j] == ov[j]);
                        }
                    }
                    assert forall|x: u64| ids.to_set().contains(x) implies self.items().dom().contains(x) by {
                        if x != k {
                            let j = choose|j: int| 0 <= j < ids.len() && ids[j] == x;
                            assert(old_ids[j] == x);
                            assert(old_ids.to_set().contains(x));
                        }
                    }
                    assert(result@.map_values(|x: &T| *x) =~= ids.map_values(|h: u64| self.items()[h]));
                    assert(ids.to_set().subset_of(self.items().dom()));
                    assert(lists_items(result@, ids, self.items()));
                }
            }
            proof {
                assert forall|h: u64| ids.contains(h) <==> (cand@.take(i as int + 1).contains(h)
                    && dist2(self.placed@[h], pos) <= r * r) by {
                    if close {
                        assert(ids == ids_before.push(k));
                        assert(ids.contains(h) <==> (ids_before.contains(h) || h == k)) by {
                            if h == k {
                                assert(ids[ids.len() - 1] == k);
                            }
                            if ids.contains(h) && h != k {
                                let j = choose|j: int| 0 <= j < ids.len() && ids[j] == h;
                                assert(ids_before[j] == h);
                            }
                            if ids_before.contains(h) {
                                let j = choose|j: int| 0 <= j < ids_before.len() && ids_before[j] == h;
                                assert(ids[j] == h);
                            }
                        }
                    }
                    if cand@.take(i as int + 1).contains(h) && !cand@.take(i as int).contains(h) {
                        assert(h == k) by {
                            let t = cand@.take(i as int + 1);
                            let j = choose|j: int| 0 <= j < t.len() && t[j] == h;
                            if j < i {
                                assert(cand@.take(i as int)[j] == h);
                            }
                        }
                    }
                    if h == k {
                        assert(cand@.take(i as int + 1)[i as int] == k);
                    }
                    if cand@.take(i as int).contains(h) {
                        let j = choose|j: int| 0 <= j < i && cand@.take(i as int)[j] == h;
                        assert(cand@.take(i as int + 1)[j] == h);
                    }
                }
            }
            i = i + 1;
        }
        proof {
            assert(cand@.take(cand@.len() as int) == cand@);
            assert(covers(cand@, self.tree, self.placed@, pos, r));
            assert(ids.to_set() =~= self.handles_within(pos, r));
            assert({
                &&& ids.no_duplicates()
                &&& ids.to_set() == self.handles_within(pos, r)
                &&& lists_items(result@, ids, self.items())
            });
        }
        result
    }

    /// The item filed under `id`, if any.
    pub fn get(&self, id: u64) -> (r: Option<&T>)
        requires
            self.wf(),
        ensures
            match r {
                Some(v) => self.items().contains_key(id) && *v == self.items()[id],
                None => !self.items().contains_key(id),
            },
    {
        self.nodes.get(&id)
    }

    /// Boundary segments of every region of the partition.
    pub fn lines(&self) -> (r: Vec<Segment>)
        ensures
            r@ == self.boundaries(),
    {
        self.tree.lines()
    }

    /// Files `item` at `pos` under the next handle. Fails, changing nothing,
    /// when `pos` lies outside the indexed region.
    pub fn insert(&mut self, item: T, pos: Pos) -> (r: Result<(), QuadTreeInsertError>)
        requires
            old(self).wf(),
            old(self).next_handle() < u64::MAX,
        ensures
            final(self).wf(),
            final(self).top_left() == old(self).top_left(),
            final(self).bot_right() == old(self).bot_right(),
            final(self).capacity() == old(self).capacity(),
            final(self).min_size() == old(self).min_size(),
            r.is_err() == !old(self).in_region(pos),
            r.is_err() ==> *final(self) == *old(self),
            final(self).split_count() >= old(self).split_count(),
            r.is_ok() && old(self).leaf_has_room(pos) ==> final(self).split_count()
                == old(self).split_count(),
            r.is_ok() && !old(self).leaf_has_room(pos) ==> final(self).split_count()
                > old(self).split_count(),
            r.is_ok() ==> {
                &&& final(self).items() == old(self).items().insert(old(self).next_handle(), item)
                &&& final(self).positions() == old(self).positions().insert(
                    old(self).next_handle(),
                    pos,
                )
                &&& final(self).next_handle() == old(self).next_handle() + 1
            },
    {
        if !self.tree.in_boundary(pos) {
            return Err(QuadTreeInsertError);
        }
        let h = self.handle_counter;
        proof {
            assert(!self.placed@.contains_key(h));
            self.tree.lemma_placed_ok_agree(self.placed@, self.placed@.insert(h, pos));
        }
        self.placed.insert(h, pos);
        self.nodes.insert(h, item);
        self.handle_counter = h + 1;
        let ghost before = self.tree;
        match self.tree.insert(pos, h, Ghost(self.placed@)) {
            Ok(pending) => {
                proof {
                    assert(self.tree.handle_set() + pending@.to_set() =~= self.placed@.dom());
                    assert(self.nodes@.dom() =~= self.placed@.dom());
                }
                if pending.len() > 0 {
                    self.settle(pending);
                } else {
                    proof {
                        assert(pending@.to_set() =~= Set::empty());
                        assert(self.tree.handle_set() =~= self.placed@.dom());
                    }
                }
            },
            Err(_) => {},
        }
        Ok(())
    }
}

impl<T: Position> QuadTree<T> {
    /// Files a moved item anew at the position it now reports, taking its
    /// handle out of the leaf that routing `old_pos` reaches.
    pub fn reinsert(&mut self, id: u64, old_pos: Pos) -> (r: Result<(), QuadTreeInsertError>)
        requires
            old(self).wf(),
            old(self).items().contains_key(id),
        ensures
            final(self).wf(),
            final(self).items() == old(self).items(),
            final(self).next_handle() == old(self).next_handle(),
            final(self).top_left() == old(self).top_left(),
            final(self).bot_right() == old(self).bot_right(),
            final(self).capacity() == old(self).capacity(),
            final(self).min_size() == old(self).min_size(),
            r.is_err() ==> *final(self) == *old(self),
            r.is_ok() ==> exists|p: Pos|
                old(self).in_region(p) && final(self).positions() == old(self).positions().insert(id, p),
    {
        let new_pos = self.nodes.get(&id).unwrap().position();
        self.relocate(id, old_pos, new_pos)
    }
}

} // verus!
