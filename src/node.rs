//! The recursive partition: a node over a rectangular region that holds
//! handles while it is a leaf and four quadrant children once it has split.

use vstd::prelude::*;

use crate::geometry::{dist2, in_rect, lemma_rect_dist_le, mid, mid_exec, rect_dist2, within, Pos};
use crate::index::QuadTreeInsertError;

verus! {

/// A node of the partition. A leaf keeps its handles in ascending order;
/// an internal node keeps none and owns one child per quadrant.
pub struct QuadTreeInner {
    pub handles: Vec<u64>,
    pub max_nodes: usize,
    pub min_size: u32,
    pub top_left: Pos,
    pub bot_right: Pos,
    pub quads: Option<Box<Quads>>,
}

/// The four children of an internal node, named by quadrant.
pub struct Quads {
    pub tl: QuadTreeInner,
    pub tr: QuadTreeInner,
    pub bl: QuadTreeInner,
    pub br: QuadTreeInner,
}

/// Quadrant numbers: top-left, top-right, bottom-left, bottom-right.
pub open spec fn quadrant_of(tl: Pos, br: Pos, p: Pos) -> int {
    if p.0 <= mid(tl.0, br.0) {
        if p.1 <= mid(tl.1, br.1) { 0 } else { 2 }
    } else {
        if p.1 <= mid(tl.1, br.1) { 1 } else { 3 }
    }
}

/// Handles of the first `n` children, in quadrant order.
pub open spec fn prefix_handles(q: Quads, n: int) -> Set<u64>
    decreases n,
{
    if n <= 0 {
        Set::empty()
    } else {
        prefix_handles(q, n - 1) + child(q, n - 1).handle_set()
    }
}

/// What a query returns from a child: all it reaches, if the circle
/// reaches its region at all.
pub open spec fn child_reached(c: QuadTreeInner, pos: Pos, r: u32) -> Set<u64> {
    if rect_dist2(c.top_left, c.bot_right, pos) <= r * r {
        c.reached(pos, r)
    } else {
        Set::empty()
    }
}

/// What a query returns from the first `n` children.
pub open spec fn prefix_reached(q: Quads, n: int, pos: Pos, r: u32) -> Set<u64>
    decreases n,
{
    if n <= 0 {
        Set::empty()
    } else {
        prefix_reached(q, n - 1, pos, r) + child_reached(child(q, n - 1), pos, r)
    }
}

impl Quads {
    /// The child for quadrant number `k`.
    pub fn child_at(&self, k: usize) -> (c: &QuadTreeInner)
        requires
            k < 4,
        ensures
            *c == child(*self, k as int),
    {
        if k == 0 {
            &self.tl
        } else if k == 1 {
            &self.tr
        } else if k == 2 {
            &self.bl
        } else {
            &self.br
        }
    }
}

impl QuadTreeInner {
    /// `s` is what a query gathers from the first `n` children of this node.
    pub open spec fn gathered(self, q: Quads, n: int, s: Seq<u64>, pm: Map<u64, Pos>, pos: Pos, r: u32) -> bool {
        &&& s.no_duplicates()
        &&& s.to_set().subset_of(prefix_handles(q, n))
        &&& s.to_set() == prefix_reached(q, n, pos, r)
        &&& forall|i: int| 0 <= i < n ==> covers(s, #[trigger] child(q, i), pm, pos, r)
    }

    /// Gathering one more child keeps a query's result exact, sound and free
    /// of duplicates.
    pub proof fn lemma_gather_step(self, pm: Map<u64, Pos>, pos: Pos, r: u32, before: Seq<u64>, f: Seq<u64>, k: int)
        requires
            self.wf(),
            self.placed_ok(pm),
            self.quads is Some,
            0 <= k < 4,
            self.gathered(*self.quads.unwrap(), k, before, pm, pos, r),
            ({
                let c = child(*self.quads.unwrap(), k);
                &&& f.no_duplicates()
                &&& f.to_set().subset_of(c.handle_set())
                &&& f.to_set() == child_reached(c, pos, r)
                &&& covers(f, c, pm, pos, r)
            }),
        ensures
            self.gathered(*self.quads.unwrap(), k + 1, before + f, pm, pos, r),
    {
        let q = *self.quads.unwrap();
        let c = child(q, k);
        assert(forall|h: u64| #[trigger] q.tl.handle_set().contains(h) ==> self.quadrant(pm[h]) == 0);
        assert(forall|h: u64| #[trigger] q.tr.handle_set().contains(h) ==> self.quadrant(pm[h]) == 1);
        assert(forall|h: u64| #[trigger] q.bl.handle_set().contains(h) ==> self.quadrant(pm[h]) == 2);
        assert(forall|h: u64| #[trigger] q.br.handle_set().contains(h) ==> self.quadrant(pm[h]) == 3);
        assert forall|x: u64| f.to_set().contains(x) implies !before.to_set().contains(x) by {
            assert(c.handle_set().contains(x));
            assert(self.quadrant(pm[x]) == k);
            if before.to_set().contains(x) {
                assert(prefix_handles(q, k).contains(x));
                lemma_prefix_handles_quadrant(self, q, k, pm, x);
            }
        }
        lemma_concat_no_duplicates(before, f);
        lemma_concat_contains(before, f);
        assert((before + f).to_set() =~= prefix_reached(q, k + 1, pos, r));
        assert((before + f).to_set().subset_of(prefix_handles(q, k + 1)));
        assert forall|i: int| 0 <= i < k + 1 implies covers(before + f, #[trigger] child(q, i), pm, pos, r) by {
            if i < k {
                assert(covers(before, child(q, i), pm, pos, r));
            }
        }
    }

    /// After all four children, the gathered handles are the query's result.
    pub proof fn lemma_gathered_all(self, q: Quads, s: Seq<u64>, pm: Map<u64, Pos>, pos: Pos, r: u32)
        requires
            self.quads == Some(Box::new(q)),
            self.gathered(q, 4, s, pm, pos, r),
        ensures
            s.to_set().subset_of(self.handle_set()),
            covers(s, self, pm, pos, r),
            s.to_set() == self.reached(pos, r),
    {
        reveal_with_fuel(prefix_handles, 5);
        reveal_with_fuel(prefix_reached, 5);
        assert(prefix_handles(q, 4) =~= self.handle_set());
        assert(prefix_reached(q, 4, pos, r) =~= self.reached(pos, r));
        assert(covers(s, q.tl, pm, pos, r) && covers(s, child(q, 0), pm, pos, r));
        assert(covers(s, child(q, 1), pm, pos, r));
        assert(covers(s, child(q, 2), pm, pos, r));
        assert(covers(s, child(q, 3), pm, pos, r));
    }
}

/// A handle among the first `k` children lies in a quadrant before `k`.
pub proof fn lemma_prefix_handles_quadrant(n: QuadTreeInner, q: Quads, k: int, pm: Map<u64, Pos>, x: u64)
    requires
        n.quads == Some(Box::new(q)),
        n.placed_ok(pm),
        0 <= k <= 4,
        prefix_handles(q, k).contains(x),
    ensures
        n.quadrant(pm[x]) < k,
    decreases k,
{
    if k > 0 {
        if prefix_handles(q, k - 1).contains(x) {
            lemma_prefix_handles_quadrant(n, q, k - 1, pm, x);
        } else {
            assert(child(q, k - 1).handle_set().contains(x));
        }
    }
}

/// The child for quadrant number `k`.
pub open spec fn child(q: Quads, k: int) -> QuadTreeInner {
    if k == 0 {
        q.tl
    } else if k == 1 {
        q.tr
    } else if k == 2 {
        q.bl
    } else {
        q.br
    }
}

/// Handles in strictly ascending order.
pub open spec fn strictly_sorted(s: Seq<u64>) -> bool {
    forall|i: int, j: int| 0 <= i < j < s.len() ==> s[i] < s[j]
}

/// Index of the first handle that is not below `h`, by binary search.
pub fn insertion_point(v: &Vec<u64>, h: u64) -> (r: usize)
    requires
        strictly_sorted(v@),
    ensures
        r <= v@.len(),
        forall|i: int| 0 <= i < r ==> v@[i] < h,
        forall|i: int| r <= i < v@.len() ==> v@[i] >= h,
{
    let mut lo: usize = 0;
    let mut hi: usize = v.len();
    while lo < hi
        invariant
            lo <= hi <= v@.len(),
            strictly_sorted(v@),
            forall|i: int| 0 <= i < lo ==> v@[i] < h,
            forall|i: int| hi <= i < v@.len() ==> v@[i] >= h,
        decreases hi - lo,
    {
        let m = lo + (hi - lo) / 2;
        if v[m] < h {
            lo = m + 1;
        } else {
            hi = m;
        }
    }
    lo
}

/// Position of `h` in a strictly ascending sequence, by binary search.
pub fn find_sorted(v: &Vec<u64>, h: u64) -> (r: Option<usize>)
    requires
        strictly_sorted(v@),
    ensures
        match r {
            Some(i) => i < v@.len() && v@[i as int] == h,
            None => !v@.contains(h),
        },
{
    let i = insertion_point(v, h);
    if i < v.len() && v[i] == h {
        Some(i)
    } else {
        proof {
            if v@.contains(h) {
                let j = choose|j: int| 0 <= j < v@.len() && v@[j] == h;
                if j > i {
                    assert(v@[i as int] < v@[j]);
                }
            }
        }
        None
    }
}

/// A strictly ascending sequence holds no element twice.
pub proof fn lemma_sorted_no_duplicates(s: Seq<u64>)
    requires
        strictly_sorted(s),
    ensures
        s.no_duplicates(),
{
    assert forall|i: int, j: int| 0 <= i < s.len() && 0 <= j < s.len() && i != j implies s[i]
        != s[j] by {
        if i < j {
            assert(s[i] < s[j]);
        } else {
            assert(s[j] < s[i]);
        }
    }
}

/// A bound on the number of internal nodes that a well-formed subtree over
/// a region of the given width-plus-height can have.
pub open spec fn split_bound(s: int) -> nat
    decreases s,
{
    if s <= 0 {
        0
    } else {
        4 * split_bound(s - 1) + 1
    }
}

pub proof fn lemma_split_bound_monotonic(a: int, b: int)
    requires
        a <= b,
    ensures
        split_bound(a) <= split_bound(b),
    decreases b - a,
{
    if a < b {
        lemma_split_bound_monotonic(a, b - 1);
    }
}

/// Every handle of `c` recorded within distance `r` of `pos` is in `s`.
pub open spec fn covers(s: Seq<u64>, c: QuadTreeInner, pm: Map<u64, Pos>, pos: Pos, r: u32) -> bool {
    forall|h: u64| #[trigger]
        c.handle_set().contains(h) && dist2(pm[h], pos) <= r * r ==> s.contains(h)
}

/// No handle appears twice across two sequences.
pub open spec fn joint_no_duplicates(a: Seq<u64>, b: Seq<u64>) -> bool {
    a.no_duplicates() && b.no_duplicates() && a.to_set().disjoint(b.to_set())
}

pub proof fn lemma_concat_no_duplicates(a: Seq<u64>, b: Seq<u64>)
    requires
        joint_no_duplicates(a, b),
    ensures
        (a + b).no_duplicates(),
        (a + b).to_set() == a.to_set() + b.to_set(),
{
    let c = a + b;
    assert forall|i: int, j: int| 0 <= i < c.len() && 0 <= j < c.len() && i != j implies c[i]
        != c[j] by {
        if i < a.len() && j >= a.len() {
            assert(a.to_set().contains(c[i]));
            assert(b.to_set().contains(b[j - a.len()]));
        } else if j < a.len() && i >= a.len() {
            assert(a.to_set().contains(c[j]));
            assert(b.to_set().contains(b[i - a.len()]));
        }
    }
    assert forall|x: u64| c.to_set().contains(x) <==> (a.to_set() + b.to_set()).contains(x) by {
        if a.contains(x) {
            let i = choose|i: int| 0 <= i < a.len() && a[i] == x;
            assert(c[i] == x);
        }
        if b.contains(x) {
            let i = choose|i: int| 0 <= i < b.len() && b[i] == x;
            assert(c[a.len() + i] == x);
        }
        if c.contains(x) {
            let i = choose|i: int| 0 <= i < c.len() && c[i] == x;
            if i < a.len() {
                assert(a[i] == x);
            } else {
                assert(b[i - a.len()] == x);
            }
        }
    }
    assert(c.to_set() =~= a.to_set() + b.to_set());
}

/// Membership in a concatenation.
pub proof fn lemma_concat_contains(a: Seq<u64>, b: Seq<u64>)
    ensures
        forall|x: u64| #[trigger] (a + b).contains(x) <==> a.contains(x) || b.contains(x),
{
    assert forall|x: u64| #[trigger] (a + b).contains(x) <==> a.contains(x) || b.contains(x) by {
        if a.contains(x) {
            let i = choose|i: int| 0 <= i < a.len() && a[i] == x;
            assert((a + b)[i] == x);
        }
        if b.contains(x) {
            let i = choose|i: int| 0 <= i < b.len() && b[i] == x;
            assert((a + b)[a.len() + i] == x);
        }
        if (a + b).contains(x) {
            let i = choose|i: int| 0 <= i < (a + b).len() && (a + b)[i] == x;
            if i < a.len() {
                assert(a[i] == x);
            } else {
                assert(b[i - a.len()] == x);
            }
        }
    }
}

/// A boundary segment of a region, as a pair of end points.
pub type Segment = (Pos, Pos);

/// The four edges of the region from `tl` to `br`: left, top, bottom, right.
pub open spec fn region_edges(tl: Pos, br: Pos) -> Seq<Segment> {
    seq![(tl, (tl.0, br.1)), (tl, (br.0, tl.1)), (br, (tl.0, br.1)), (br, (br.0, tl.1))]
}

impl QuadTreeInner {
    /// Width plus height of the region.
    pub open spec fn size(self) -> int {
        self.width() + self.height()
    }

    /// The four edges of this node's region.
    pub open spec fn edges(self) -> Seq<Segment> {
        region_edges(self.top_left, self.bot_right)
    }

    /// The edges of this node followed by those of its descendants, children
    /// in the order top-left, top-right, bottom-left, bottom-right.
    pub open spec fn all_edges(self) -> Seq<Segment>
        decreases self,
    {
        match self.quads {
            None => self.edges(),
            Some(q) => self.edges() + q.tl.all_edges() + q.tr.all_edges() + q.bl.all_edges()
                + q.br.all_edges(),
        }
    }

    /// A subtree has no more internal nodes than its region allows.
    pub proof fn lemma_internal_count_bound(self)
        requires
            self.wf(),
        ensures
            self.internal_count() <= split_bound(self.size()),
        decreases self,
    {
        if let Some(q) = self.quads {
            let s = self.size();
            q.tl.lemma_internal_count_bound();
            q.tr.lemma_internal_count_bound();
            q.bl.lemma_internal_count_bound();
            q.br.lemma_internal_count_bound();
            lemma_split_bound_monotonic(q.tl.size(), s - 1);
            lemma_split_bound_monotonic(q.tr.size(), s - 1);
            lemma_split_bound_monotonic(q.bl.size(), s - 1);
            lemma_split_bound_monotonic(q.br.size(), s - 1);
            assert(split_bound(s) == 4 * split_bound(s - 1) + 1);
        }
    }

    /// Every leaf of a well-formed subtree keeps its handles strictly
    /// ascending.
    pub proof fn lemma_leaf_sorted(self, p: Pos)
        requires
            self.wf(),
        ensures
            strictly_sorted(self.leaf_at(p).handles@),
        decreases self,
    {
        if let Some(q) = self.quads {
            q.tl.lemma_leaf_sorted(p);
            q.tr.lemma_leaf_sorted(p);
            q.bl.lemma_leaf_sorted(p);
            q.br.lemma_leaf_sorted(p);
        }
    }

    /// Placement depends only on the recorded positions of stored handles.
    pub proof fn lemma_placed_ok_agree(self, pm: Map<u64, Pos>, pm2: Map<u64, Pos>)
        requires
            self.placed_ok(pm),
            forall|h: u64| #[trigger]
                self.handle_set().contains(h) ==> pm2.contains_key(h) && pm2[h] == pm[h],
        ensures
            self.placed_ok(pm2),
        decreases self,
    {
        match self.quads {
            None => {
                assert forall|h: u64| #[trigger] self.handles@.contains(h) implies pm2.contains_key(h)
                    && self.contains_pos(pm2[h]) by {
                    assert(self.handles@.to_set().contains(h));
                    assert(self.handle_set().contains(h));
                    assert(pm.contains_key(h) && self.contains_pos(pm[h]));
                }
            },
            Some(q) => {
                assert(self.handle_set() == q.tl.handle_set() + q.tr.handle_set()
                    + q.bl.handle_set() + q.br.handle_set());
                assert forall|h: u64| #[trigger] q.tl.handle_set().contains(h) implies pm2.contains_key(h) && pm2[h] == pm[h] by {
                    assert(self.handle_set().contains(h));
                }
                assert forall|h: u64| #[trigger] q.tr.handle_set().contains(h) implies pm2.contains_key(h) && pm2[h] == pm[h] by {
                    assert(self.handle_set().contains(h));
                }
                assert forall|h: u64| #[trigger] q.bl.handle_set().contains(h) implies pm2.contains_key(h) && pm2[h] == pm[h] by {
                    assert(self.handle_set().contains(h));
                }
                assert forall|h: u64| #[trigger] q.br.handle_set().contains(h) implies pm2.contains_key(h) && pm2[h] == pm[h] by {
                    assert(self.handle_set().contains(h));
                }
                q.tl.lemma_placed_ok_agree(pm, pm2);
                q.tr.lemma_placed_ok_agree(pm, pm2);
                q.bl.lemma_placed_ok_agree(pm, pm2);
                q.br.lemma_placed_ok_agree(pm, pm2);
            },
        }
    }

    /// A stored handle sits inside the region at its recorded position, in
    /// the leaf that routing that position reaches.
    pub proof fn lemma_placed_in_leaf(self, pm: Map<u64, Pos>, h: u64)
        requires
            self.wf(),
            self.placed_ok(pm),
            self.handle_set().contains(h),
        ensures
            pm.contains_key(h),
            self.contains_pos(pm[h]),
            self.leaf_at(pm[h]).handles@.contains(h),
        decreases self,
    {
        match self.quads {
            None => {
                assert(self.handles@.to_set().contains(h));
                assert(self.leaf_at(pm[h]) == self);
            },
            Some(q) => {
                assert(self.handle_set() == q.tl.handle_set() + q.tr.handle_set()
                    + q.bl.handle_set() + q.br.handle_set());
                if q.tl.handle_set().contains(h) {
                    q.tl.lemma_placed_in_leaf(pm, h);
                    assert(self.quadrant(pm[h]) == 0);
                } else if q.tr.handle_set().contains(h) {
                    q.tr.lemma_placed_in_leaf(pm, h);
                    assert(self.quadrant(pm[h]) == 1);
                } else if q.bl.handle_set().contains(h) {
                    q.bl.lemma_placed_in_leaf(pm, h);
                    assert(self.quadrant(pm[h]) == 2);
                } else {
                    q.br.lemma_placed_in_leaf(pm, h);
                    assert(self.quadrant(pm[h]) == 3);
                }
            },
        }
    }

    /// Routing any position of a leaf's region from the top reaches a leaf
    /// whose handles all belong to the subtree.
    pub proof fn lemma_leaf_handles_in_set(self, p: Pos)
        ensures
            self.leaf_at(p).handles@.to_set().subset_of(self.handle_set()),
            self.leaf_at(p).is_leaf(),
        decreases self,
    {
        if let Some(q) = self.quads {
            q.tl.lemma_leaf_handles_in_set(p);
            q.tr.lemma_leaf_handles_in_set(p);
            q.bl.lemma_leaf_handles_in_set(p);
            q.br.lemma_leaf_handles_in_set(p);
        }
    }

    /// No handle of a subtree lies within a circle that misses its region.
    pub proof fn lemma_far_from_circle(self, pm: Map<u64, Pos>, pos: Pos, r: u32)
        requires
            self.wf(),
            self.placed_ok(pm),
            rect_dist2(self.top_left, self.bot_right, pos) > r * r,
        ensures
            forall|h: u64| #[trigger]
                self.handle_set().contains(h) ==> dist2(pm[h], pos) > r * r,
    {
        assert forall|h: u64| #[trigger] self.handle_set().contains(h) implies dist2(pm[h], pos)
            > r * r by {
            self.lemma_placed_in_leaf(pm, h);
            lemma_rect_dist_le(self.top_left, self.bot_right, pos, pm[h]);
        }
    }

    /// Whether the circle of radius `r` around `pos` reaches this region:
    /// the region's point nearest to `pos` is within `r`.
    pub fn contains_circle(&self, pos: Pos, r: u32) -> (b: bool)
        requires
            self.top_left.0 <= self.bot_right.0,
            self.top_left.1 <= self.bot_right.1,
        ensures
            b == (rect_dist2(self.top_left, self.bot_right, pos) <= r * r),
    {
        let mut test = pos;
        if pos.0 < self.top_left.0 {
            test.0 = self.top_left.0;
        } else if pos.0 > self.bot_right.0 {
            test.0 = self.bot_right.0;
        }
        if pos.1 < self.top_left.1 {
            test.1 = self.top_left.1;
        } else if pos.1 > self.bot_right.1 {
            test.1 = self.bot_right.1;
        }
        within(test, pos, r)
    }

    /// Handles of every leaf whose region the circle reaches; a superset of
    /// the handles recorded within the circle.
    pub fn search_radius(&self, pos: Pos, r: u32, Ghost(pm): Ghost<Map<u64, Pos>>) -> (res: Vec<
        u64,
    >)
        requires
            self.wf(),
            self.placed_ok(pm),
        ensures
            res@.to_set().subset_of(self.handle_set()),
            covers(res@, *self, pm, pos, r),
            res@.no_duplicates(),
            res@.to_set() == self.reached(pos, r),
            self.is_leaf() ==> res@ == self.handles@,
        decreases self,
    {
        match &self.quads {
            None => {
                let v = self.handles.clone();
                proof {
                    lemma_sorted_no_duplicates(self.handles@);
                    assert(v@ == self.handles@);
                    assert(v@.to_set() == self.handle_set());
                }
                v
            },
            Some(q) => {
                let mut nodes: Vec<u64> = Vec::new();
                let mut k: usize = 0;
                proof {
                    assert(nodes@.to_set() =~= Set::empty());
                    assert(prefix_handles(**q, 0) == Set::<u64>::empty());
                    assert(prefix_reached(**q, 0, pos, r) == Set::<u64>::empty());
                }
                while k < 4
                    invariant
                        self.wf(),
                        self.placed_ok(pm),
                        self.quads == Some(*q),
                        k <= 4,
                        self.gathered(**q, k as int, nodes@, pm, pos, r),
                    decreases 4 - k,
                {
                    let c = q.child_at(k);
                    proof {
                        assert(c == q.tl || c == q.tr || c == q.bl || c == q.br);
                    }
                    let ghost before = nodes@;
                    if c.contains_circle(pos, r) {
                        let mut found = c.search_radius(pos, r, Ghost(pm));
                        proof {
                            self.lemma_gather_step(pm, pos, r, before, found@, k as int);
                        }
                        nodes.append(&mut found);
                    } else {
                        proof {
                            c.lemma_far_from_circle(pm, pos, r);
                            assert(Seq::<u64>::empty().to_set() =~= Set::<u64>::empty());
                            self.lemma_gather_step(pm, pos, r, before, Seq::empty(), k as int);
                            assert(before + Seq::<u64>::empty() == before);
                        }
                    }
                    k = k + 1;
                }
                proof {
                    self.lemma_gathered_all(**q, nodes@, pm, pos, r);
                }
                nodes
            },
        }
    }

    /// Handles that a radius query over this subtree returns: a leaf gives
    /// all its handles, an internal node those of each child whose region
    /// the circle reaches.
    pub open spec fn reached(self, pos: Pos, r: u32) -> Set<u64>
        decreases self,
    {
        match self.quads {
            None => self.handles@.to_set(),
            Some(q) => (if rect_dist2(q.tl.top_left, q.tl.bot_right, pos) <= r * r {
                q.tl.reached(pos, r)
            } else {
                Set::empty()
            }) + (if rect_dist2(q.tr.top_left, q.tr.bot_right, pos) <= r * r {
                q.tr.reached(pos, r)
            } else {
                Set::empty()
            }) + (if rect_dist2(q.bl.top_left, q.bl.bot_right, pos) <= r * r {
                q.bl.reached(pos, r)
            } else {
                Set::empty()
            }) + (if rect_dist2(q.br.top_left, q.br.bot_right, pos) <= r * r {
                q.br.reached(pos, r)
            } else {
                Set::empty()
            }),
        }
    }

    /// The boundary list holds this region's edges first and grows by
    /// sixteen segments for each internal node.
    pub proof fn lemma_all_edges_shape(self)
        ensures
            self.all_edges().len() == 4 + 16 * self.internal_count(),
            self.all_edges().take(4) == self.edges(),
        decreases self,
    {
        if let Some(q) = self.quads {
            q.tl.lemma_all_edges_shape();
            q.tr.lemma_all_edges_shape();
            q.bl.lemma_all_edges_shape();
            q.br.lemma_all_edges_shape();
            assert(self.all_edges().take(4) =~= self.edges());
        } else {
            assert(self.all_edges().take(4) =~= self.edges());
        }
    }

    /// Boundary segments of this node and of all its descendants.
    pub fn lines(&self) -> (r: Vec<Segment>)
        ensures
            r@ == self.all_edges(),
        decreases self,
    {
        let tl = self.top_left;
        let br = self.bot_right;
        let mut lines = vec![(tl, (tl.0, br.1)), (tl, (br.0, tl.1)), (br, (tl.0, br.1)), (br, (br.0, tl.1))];
        proof {
            assert(lines@ =~= self.edges());
        }
        match &self.quads {
            None => {},
            Some(q) => {
                let mut a = q.tl.lines();
                lines.append(&mut a);
                let mut b = q.tr.lines();
                lines.append(&mut b);
                let mut c = q.bl.lines();
                lines.append(&mut c);
                let mut d = q.br.lines();
                lines.append(&mut d);
            },
        }
        lines
    }

    pub open spec fn contains_pos(self, p: Pos) -> bool {
        in_rect(self.top_left, self.bot_right, p)
    }

    pub open spec fn width(self) -> int {
        self.bot_right.0 - self.top_left.0
    }

    pub open spec fn height(self) -> int {
        self.bot_right.1 - self.top_left.1
    }

    pub open spec fn is_leaf(self) -> bool {
        self.quads.is_none()
    }

    pub open spec fn quadrant(self, p: Pos) -> int {
        quadrant_of(self.top_left, self.bot_right, p)
    }

    /// Whether the leaf may take one more handle instead of splitting.
    pub open spec fn has_room(self) -> bool {
        self.handles@.len() < self.max_nodes || self.width() <= self.min_size
            || self.height() <= self.min_size
    }

    /// Whether `c` is the empty leaf with this node's settings over the
    /// given region.
    pub open spec fn is_fresh_child(self, c: QuadTreeInner, tl: Pos, br: Pos) -> bool {
        &&& c.top_left == tl
        &&& c.bot_right == br
        &&& c.max_nodes == self.max_nodes
        &&& c.min_size == self.min_size
    }

    /// Each child covers its quadrant of this node's region.
    pub open spec fn children_placed(self, q: Quads) -> bool {
        let mx = mid(self.top_left.0, self.bot_right.0) as i32;
        let my = mid(self.top_left.1, self.bot_right.1) as i32;
        &&& self.is_fresh_child(q.tl, self.top_left, (mx, my))
        &&& self.is_fresh_child(q.tr, (mx, self.top_left.1), (self.bot_right.0, my))
        &&& self.is_fresh_child(q.bl, (self.top_left.0, my), (mx, self.bot_right.1))
        &&& self.is_fresh_child(q.br, (mx, my), self.bot_right)
    }

    /// The structural invariant of a node and its descendants.
    pub open spec fn wf(self) -> bool
        decreases self,
    {
        &&& self.top_left.0 <= self.bot_right.0
        &&& self.top_left.1 <= self.bot_right.1
        &&& self.max_nodes >= 1
        &&& self.min_size >= 1
        &&& match self.quads {
            None => {
                &&& strictly_sorted(self.handles@)
                &&& (self.handles@.len() <= self.max_nodes || self.width() <= self.min_size
                    || self.height() <= self.min_size)
            },
            Some(q) => {
                &&& self.handles@.len() == 0
                &&& self.width() > self.min_size
                &&& self.height() > self.min_size
                &&& self.children_placed(*q)
                &&& q.tl.wf()
                &&& q.tr.wf()
                &&& q.bl.wf()
                &&& q.br.wf()
            },
        }
    }

    /// Every handle stored under this node.
    pub open spec fn handle_set(self) -> Set<u64>
        decreases self,
    {
        match self.quads {
            None => self.handles@.to_set(),
            Some(q) => q.tl.handle_set() + q.tr.handle_set() + q.bl.handle_set()
                + q.br.handle_set(),
        }
    }

    /// Number of internal nodes in this subtree.
    pub open spec fn internal_count(self) -> nat
        decreases self,
    {
        match self.quads {
            None => 0,
            Some(q) => 1 + q.tl.internal_count() + q.tr.internal_count()
                + q.bl.internal_count() + q.br.internal_count(),
        }
    }

    /// The leaf reached by routing `p` from this node.
    pub open spec fn leaf_at(self, p: Pos) -> QuadTreeInner
        decreases self,
    {
        match self.quads {
            None => self,
            Some(q) => {
                let k = self.quadrant(p);
                if k == 0 {
                    q.tl.leaf_at(p)
                } else if k == 1 {
                    q.tr.leaf_at(p)
                } else if k == 2 {
                    q.bl.leaf_at(p)
                } else {
                    q.br.leaf_at(p)
                }
            },
        }
    }

    /// Every handle is recorded in `pm` at a position inside its leaf's
    /// region, and every internal node routes that position to the child
    /// holding the handle.
    pub open spec fn placed_ok(self, pm: Map<u64, Pos>) -> bool
        decreases self,
    {
        match self.quads {
            None => forall|h: u64|
                #[trigger] self.handles@.contains(h) ==> pm.contains_key(h) && self.contains_pos(
                    pm[h],
                ),
            Some(q) => {
                &&& q.tl.placed_ok(pm)
                &&& q.tr.placed_ok(pm)
                &&& q.bl.placed_ok(pm)
                &&& q.br.placed_ok(pm)
                &&& forall|h: u64| #[trigger]
                    q.tl.handle_set().contains(h) ==> self.quadrant(pm[h]) == 0
                &&& forall|h: u64| #[trigger]
                    q.tr.handle_set().contains(h) ==> self.quadrant(pm[h]) == 1
                &&& forall|h: u64| #[trigger]
                    q.bl.handle_set().contains(h) ==> self.quadrant(pm[h]) == 2
                &&& forall|h: u64| #[trigger]
                    q.br.handle_set().contains(h) ==> self.quadrant(pm[h]) == 3
            },
        }
    }

    /// The configuration and region, which no operation changes.
    /// This node keeps the region and settings of `o`, and every internal
    /// node of `o` is still internal here, down the whole tree.
    pub open spec fn keeps_shape(self, o: QuadTreeInner) -> bool
        decreases o,
    {
        &&& self.same_frame(o)
        &&& match o.quads {
            None => true,
            Some(oq) => match self.quads {
                None => false,
                Some(nq) => {
                    &&& nq.tl.keeps_shape(oq.tl)
                    &&& nq.tr.keeps_shape(oq.tr)
                    &&& nq.bl.keeps_shape(oq.bl)
                    &&& nq.br.keeps_shape(oq.br)
                },
            },
        }
    }

    /// Whether routing `p` and routing `o` from this node reach one leaf.
    pub open spec fn same_leaf(self, p: Pos, o: Pos) -> bool
        decreases self,
    {
        match self.quads {
            None => true,
            Some(q) => {
                let k = self.quadrant(p);
                &&& k == self.quadrant(o)
                &&& if k == 0 {
                    q.tl.same_leaf(p, o)
                } else if k == 1 {
                    q.tr.same_leaf(p, o)
                } else if k == 2 {
                    q.bl.same_leaf(p, o)
                } else {
                    q.br.same_leaf(p, o)
                }
            },
        }
    }

    pub proof fn lemma_keeps_shape_refl(self)
        ensures
            self.keeps_shape(self),
        decreases self,
    {
        if let Some(q) = self.quads {
            q.tl.lemma_keeps_shape_refl();
            q.tr.lemma_keeps_shape_refl();
            q.bl.lemma_keeps_shape_refl();
            q.br.lemma_keeps_shape_refl();
        }
    }

    pub open spec fn same_frame(self, o: QuadTreeInner) -> bool {
        &&& self.top_left == o.top_left
        &&& self.bot_right == o.bot_right
        &&& self.max_nodes == o.max_nodes
        &&& self.min_size == o.min_size
    }

    /// Turns this leaf into an internal node with four empty children and
    /// hands back the handles it held.
    pub fn split(&mut self) -> (r: Vec<u64>)
        requires
            old(self).wf(),
            old(self).is_leaf(),
            old(self).width() > old(self).min_size,
            old(self).height() > old(self).min_size,
        ensures
            final(self).wf(),
            final(self).same_frame(*old(self)),
            !final(self).is_leaf(),
            r@ == old(self).handles@,
            final(self).handle_set() == Set::<u64>::empty(),
            final(self).internal_count() == 1,
            forall|pm: Map<u64, Pos>| #[trigger] final(self).placed_ok(pm),
    {
        let mx = mid_exec(self.top_left.0, self.bot_right.0);
        let my = mid_exec(self.top_left.1, self.bot_right.1);
        let tl = Self::new(self.max_nodes, self.min_size, self.top_left, (mx, my));
        let tr = Self::new(self.max_nodes, self.min_size, (mx, self.top_left.1), (self.bot_right.0, my));
        let bl = Self::new(self.max_nodes, self.min_size, (self.top_left.0, my), (mx, self.bot_right.1));
        let br = Self::new(self.max_nodes, self.min_size, (mx, my), self.bot_right);
        proof {
            assert(tl.wf() && tr.wf() && bl.wf() && br.wf());
            assert(tl.handle_set() =~= Set::empty());
            assert(tr.handle_set() =~= Set::empty());
            assert(bl.handle_set() =~= Set::empty());
            assert(br.handle_set() =~= Set::empty());
            assert(tl.internal_count() == 0 && tr.internal_count() == 0);
            assert(bl.internal_count() == 0 && br.internal_count() == 0);
        }
        self.quads = Some(Box::new(Quads { tl, tr, bl, br }));
        let mut former: Vec<u64> = Vec::new();
        std::mem::swap(&mut former, &mut self.handles);
        proof {
            assert(self.handle_set() =~= Set::empty());
            assert forall|pm: Map<u64, Pos>| #[trigger] self.placed_ok(pm) by {
                let q = *self.quads.unwrap();
                assert(q.tl.placed_ok(pm));
                assert(q.tr.placed_ok(pm));
                assert(q.bl.placed_ok(pm));
                assert(q.br.placed_ok(pm));
            }
        }
        former
    }

    /// Routes `handle` at `pos` down to a leaf. A leaf with room takes the
    /// handle in sorted position; a full leaf that is still large enough
    /// splits instead and returns its former handles together with
    /// `handle`, all of which the caller must insert again.
    pub fn insert(&mut self, pos: Pos, handle: u64, Ghost(pm): Ghost<Map<u64, Pos>>) -> (r: Result<
        Vec<u64>,
        QuadTreeInsertError,
    >)
        requires
            old(self).wf(),
            old(self).placed_ok(pm),
            pm.contains_key(handle),
            pm[handle] == pos,
            !old(self).handle_set().contains(handle),
        ensures
            r.is_err() == !old(self).contains_pos(pos),
            r.is_err() ==> *final(self) == *old(self),
            final(self).same_frame(*old(self)),
            old(self).is_leaf() && old(self).contains_pos(pos) && old(self).has_room() ==> {
                &&& r matches Ok(v) && v@.len() == 0
                &&& final(self).is_leaf()
                &&& final(self).handles@.to_set() == old(self).handles@.to_set().insert(handle)
            },
            old(self).is_leaf() && old(self).contains_pos(pos) && !old(self).has_room() ==> {
                &&& r matches Ok(v) && v@ == old(self).handles@.push(handle)
                &&& !final(self).is_leaf()
                &&& final(self).handle_set() == Set::<u64>::empty()
            },
            !old(self).is_leaf() && old(self).contains_pos(pos) ==> {
                &&& !final(self).is_leaf()
                &&& forall|j: int|
                    0 <= j < 4 && j != old(self).quadrant(pos) ==> #[trigger] child(
                        *final(self).quads.unwrap(),
                        j,
                    ) == child(*old(self).quads.unwrap(), j)
            },
            r matches Ok(v) ==> {
                &&& final(self).wf()
                &&& final(self).keeps_shape(*old(self))
                &&& final(self).placed_ok(pm)
                &&& final(self).handle_set() + v@.to_set() == old(self).handle_set().insert(handle)
                &&& final(self).handle_set().disjoint(v@.to_set())
                &&& v@.no_duplicates()
                &&& (v@.len() == 0 <==> old(self).leaf_at(pos).has_room())
                &&& (v@.len() == 0 && final(self).internal_count() == old(self).internal_count())
                    || (v@.len() > 0 && final(self).internal_count() == old(self).internal_count()
                    + 1)
            },
        decreases *old(self),
    {
        if !self.in_boundary(pos) {
            return Err(QuadTreeInsertError);
        }
        if self.quads.is_none() {
            let w: i64 = self.bot_right.0 as i64 - self.top_left.0 as i64;
            let hgt: i64 = self.bot_right.1 as i64 - self.top_left.1 as i64;
            if self.handles.len() < self.max_nodes || w <= self.min_size as i64 || hgt
                <= self.min_size as i64 {
                let idx = insertion_point(&self.handles, handle);
                proof {
                    assert(!self.handles@.contains(handle));
                    assert forall|i: int| idx <= i < self.handles@.len() implies self.handles@[i]
                        > handle by {
                        assert(self.handles@[i] != handle);
                    }
                }
                let ghost before = self.handles@;
                self.handles.insert(idx, handle);
                proof {
                    let after = self.handles@;
                    assert(after == before.insert(idx as int, handle));
                    assert forall|x: u64| after.contains(x) <==> (before.contains(x) || x
                        == handle) by {
                        if x == handle {
                            assert(after[idx as int] == handle);
                        }
                        if before.contains(x) {
                            let j = choose|j: int| 0 <= j < before.len() && before[j] == x;
                            if j < idx {
                                assert(after[j] == x);
                            } else {
                                assert(after[j + 1] == x);
                            }
                        }
                        if after.contains(x) {
                            let j = choose|j: int| 0 <= j < after.len() && after[j] == x;
                            if j < idx {
                                assert(before[j] == x);
                            } else if j > idx {
                                assert(before[j - 1] == x);
                            }
                        }
                    }
                    assert(strictly_sorted(after)) by {
                        assert forall|i: int, j: int| 0 <= i < j < after.len() implies after[i]
                            < after[j] by {
                            if j < idx {
                            } else if j == idx {
                            } else if i < idx {
                                assert(after[j] == before[j - 1]);
                            } else if i == idx {
                                assert(after[j] == before[j - 1]);
                            } else {
                                assert(after[i] == before[i - 1]);
                            }
                        }
                    }
                    assert(self.handle_set() =~= old(self).handle_set().insert(handle));
                    assert(Seq::<u64>::empty().to_set() =~= Set::empty());
                }
                return Ok(Vec::new());
            } else {
                let mut v = self.split();
                proof {
                    lemma_sorted_no_duplicates(v@);
                }
                let ghost before = v@;
                v.push(handle);
                proof {
                    before.lemma_push_to_set_commute(handle);
                    assert(v@.to_set() =~= old(self).handle_set().insert(handle));
                    assert(self.handle_set() + v@.to_set() =~= old(self).handle_set().insert(
                        handle,
                    ));
                    assert(v@.no_duplicates()) by {
                        assert(v@.last() == handle);
                        assert(forall|i: int|
                            0 <= i < v@.len() - 1 ==> v@[i] == old(self).handles@[i]);
                    }
                }
                return Ok(v);
            }
        }
        let mx = mid_exec(self.top_left.0, self.bot_right.0);
        let my = mid_exec(self.top_left.1, self.bot_right.1);
        let ghost q0 = *self.quads.unwrap();
        let mut q = self.quads.take().unwrap();
        let res = if pos.0 <= mx {
            if pos.1 <= my {
                q.tl.insert(pos, handle, Ghost(pm))
            } else {
                q.bl.insert(pos, handle, Ghost(pm))
            }
        } else if pos.1 <= my {
            q.tr.insert(pos, handle, Ghost(pm))
        } else {
            q.br.insert(pos, handle, Ghost(pm))
        };
        self.quads = Some(q);
        proof {
            let qn = *q;
            let k = old(self).quadrant(pos);
            let old_set = old(self).handle_set();
            assert(forall|h: u64| #[trigger]
                q0.tl.handle_set().contains(h) ==> old(self).quadrant(pm[h]) == 0);
            assert(forall|h: u64| #[trigger]
                q0.tr.handle_set().contains(h) ==> old(self).quadrant(pm[h]) == 1);
            assert(forall|h: u64| #[trigger]
                q0.bl.handle_set().contains(h) ==> old(self).quadrant(pm[h]) == 2);
            assert(forall|h: u64| #[trigger]
                q0.br.handle_set().contains(h) ==> old(self).quadrant(pm[h]) == 3);
            assert(res.is_ok());
            let v = res.unwrap();
            let vs = v@.to_set();
            let c0 = child(q0, k);
            let c1 = child(qn, k);
            assert(c1.handle_set() + vs == c0.handle_set().insert(handle));
            assert forall|x: u64| vs.contains(x) implies old(self).quadrant(pm[x]) == k by {
                assert((c0.handle_set().insert(handle)).contains(x));
            }
            assert forall|x: u64| c1.handle_set().contains(x) implies old(self).quadrant(pm[x])
                == k by {
                assert((c0.handle_set().insert(handle)).contains(x));
            }
            if k == 0 {
                assert(qn.tr == q0.tr && qn.bl == q0.bl && qn.br == q0.br);
            } else if k == 1 {
                assert(qn.tl == q0.tl && qn.bl == q0.bl && qn.br == q0.br);
            } else if k == 2 {
                assert(qn.tl == q0.tl && qn.tr == q0.tr && qn.br == q0.br);
            } else {
                assert(qn.tl == q0.tl && qn.tr == q0.tr && qn.bl == q0.bl);
            }
            assert(self.handle_set() == qn.tl.handle_set() + qn.tr.handle_set()
                + qn.bl.handle_set() + qn.br.handle_set());
            assert(old_set == q0.tl.handle_set() + q0.tr.handle_set() + q0.bl.handle_set()
                + q0.br.handle_set());
            q0.tl.lemma_keeps_shape_refl();
            q0.tr.lemma_keeps_shape_refl();
            q0.bl.lemma_keeps_shape_refl();
            q0.br.lemma_keeps_shape_refl();
            assert(self.keeps_shape(*old(self)));
            assert(old(self).leaf_at(pos) == c0.leaf_at(pos));
            assert forall|x: u64| (self.handle_set() + vs).contains(x) <==> old_set.insert(
                handle,
            ).contains(x) by {
                assert((c1.handle_set() + vs).contains(x) <==> c0.handle_set().insert(
                    handle,
                ).contains(x));
            }
            assert(self.handle_set() + vs =~= old_set.insert(handle));
            assert forall|x: u64| vs.contains(x) implies !self.handle_set().contains(x) by {
                assert(!c1.handle_set().contains(x));
            }
            assert(self.handle_set().disjoint(vs));
        }
        res
    }

    /// Removes `handle` from the leaf that routing `pos` reaches, if it is
    /// there; nothing changes otherwise.
    pub fn remove(&mut self, handle: u64, pos: Pos, Ghost(pm): Ghost<Map<u64, Pos>>) -> (r: Option<
        u64,
    >)
        requires
            old(self).wf(),
            old(self).placed_ok(pm),
        ensures
            r.is_some() == (old(self).contains_pos(pos) && old(self).leaf_at(
                pos,
            ).handles@.contains(handle)),
            r.is_some() ==> r == Some(handle),
            r.is_none() ==> *final(self) == *old(self),
            final(self).wf(),
            final(self).placed_ok(pm),
            final(self).same_frame(*old(self)),
            final(self).internal_count() == old(self).internal_count(),
            final(self).handle_set() == if r.is_some() {
                old(self).handle_set().remove(handle)
            } else {
                old(self).handle_set()
            },
            final(self).keeps_shape(*old(self)),
            r.is_some() ==> final(self).leaf_at(pos).handles@.to_set() == old(self).leaf_at(
                pos,
            ).handles@.to_set().remove(handle),
            forall|p: Pos| #[trigger]
                old(self).same_leaf(p, pos) || final(self).leaf_at(p) == old(self).leaf_at(p),
        decreases *old(self),
    {
        proof {
            self.lemma_keeps_shape_refl();
        }
        if !self.in_boundary(pos) {
            return None;
        }
        if self.quads.is_none() {
            match find_sorted(&self.handles, handle) {
                Some(i) => {
                    let ghost before = self.handles@;
                    let h = self.handles.remove(i);
                    proof {
                        let after = self.handles@;
                        lemma_sorted_no_duplicates(before);
                        assert(after == before.remove(i as int));
                        assert forall|x: u64| after.contains(x) <==> (before.contains(x) && x
                            != handle) by {
                            if before.contains(x) && x != handle {
                                let j = choose|j: int| 0 <= j < before.len() && before[j] == x;
                                if j < i {
                                    assert(after[j] == x);
                                } else {
                                    assert(after[j - 1] == x);
                                }
                            }
                            if after.contains(x) {
                                let j = choose|j: int| 0 <= j < after.len() && after[j] == x;
                                if j < i {
                                    assert(before[j] == x);
                                } else {
                                    assert(before[j + 1] == x);
                                }
                            }
                        }
                        assert(strictly_sorted(after)) by {
                            assert forall|a: int, b: int| 0 <= a < b < after.len() implies after[a]
                                < after[b] by {
                                if b < i {
                                } else if a < i {
                                    assert(after[b] == before[b + 1]);
                                } else {
                                    assert(after[a] == before[a + 1]);
                                    assert(after[b] == before[b + 1]);
                                }
                            }
                        }
                        assert(self.handle_set() =~= old(self).handle_set().remove(handle));
                    }
                    return Some(h);
                },
                None => {
                    return None;
                },
            }
        }
        let mx = mid_exec(self.top_left.0, self.bot_right.0);
        let my = mid_exec(self.top_left.1, self.bot_right.1);
        let ghost q0 = *self.quads.unwrap();
        let mut q = self.quads.take().unwrap();
        let res = if pos.0 <= mx {
            if pos.1 <= my {
                q.tl.remove(handle, pos, Ghost(pm))
            } else {
                q.bl.remove(handle, pos, Ghost(pm))
            }
        } else if pos.1 <= my {
            q.tr.remove(handle, pos, Ghost(pm))
        } else {
            q.br.remove(handle, pos, Ghost(pm))
        };
        self.quads = Some(q);
        proof {
            let qn = *q;
            let k = old(self).quadrant(pos);
            assert(forall|h: u64| #[trigger]
                q0.tl.handle_set().contains(h) ==> old(self).quadrant(pm[h]) == 0);
            assert(forall|h: u64| #[trigger]
                q0.tr.handle_set().contains(h) ==> old(self).quadrant(pm[h]) == 1);
            assert(forall|h: u64| #[trigger]
                q0.bl.handle_set().contains(h) ==> old(self).quadrant(pm[h]) == 2);
            assert(forall|h: u64| #[trigger]
                q0.br.handle_set().contains(h) ==> old(self).quadrant(pm[h]) == 3);
            if k == 0 {
                assert(qn.tr == q0.tr && qn.bl == q0.bl && qn.br == q0.br);
            } else if k == 1 {
                assert(qn.tl == q0.tl && qn.bl == q0.bl && qn.br == q0.br);
            } else if k == 2 {
                assert(qn.tl == q0.tl && qn.tr == q0.tr && qn.br == q0.br);
            } else {
                assert(qn.tl == q0.tl && qn.tr == q0.tr && qn.bl == q0.bl);
            }
            let old_set = old(self).handle_set();
            assert(self.handle_set() == qn.tl.handle_set() + qn.tr.handle_set()
                + qn.bl.handle_set() + qn.br.handle_set());
            assert(old_set == q0.tl.handle_set() + q0.tr.handle_set() + q0.bl.handle_set()
                + q0.br.handle_set());
            q0.tl.lemma_keeps_shape_refl();
            q0.tr.lemma_keeps_shape_refl();
            q0.bl.lemma_keeps_shape_refl();
            q0.br.lemma_keeps_shape_refl();
            assert(self.keeps_shape(*old(self)));
            assert forall|p: Pos| #[trigger]
                old(self).same_leaf(p, pos) || self.leaf_at(p) == old(self).leaf_at(p) by {
                let kp = old(self).quadrant(p);
                if kp == 0 {
                    assert(self.leaf_at(p) == qn.tl.leaf_at(p));
                    assert(old(self).leaf_at(p) == q0.tl.leaf_at(p));
                    assert(old(self).same_leaf(p, pos) == (kp == k && q0.tl.same_leaf(p, pos)));
                } else if kp == 1 {
                    assert(self.leaf_at(p) == qn.tr.leaf_at(p));
                    assert(old(self).leaf_at(p) == q0.tr.leaf_at(p));
                    assert(old(self).same_leaf(p, pos) == (kp == k && q0.tr.same_leaf(p, pos)));
                } else if kp == 2 {
                    assert(self.leaf_at(p) == qn.bl.leaf_at(p));
                    assert(old(self).leaf_at(p) == q0.bl.leaf_at(p));
                    assert(old(self).same_leaf(p, pos) == (kp == k && q0.bl.same_leaf(p, pos)));
                } else {
                    assert(self.leaf_at(p) == qn.br.leaf_at(p));
                    assert(old(self).leaf_at(p) == q0.br.leaf_at(p));
                    assert(old(self).same_leaf(p, pos) == (kp == k && q0.br.same_leaf(p, pos)));
                }
            }
            if res.is_some() {
                let c0 = child(q0, k);
                c0.lemma_leaf_handles_in_set(pos);
                assert(old(self).leaf_at(pos) == c0.leaf_at(pos));
                assert(c0.leaf_at(pos).handles@.to_set().contains(handle));
                assert(c0.handle_set().contains(handle));
                assert(old(self).quadrant(pm[handle]) == k);
                assert(self.handle_set() =~= old_set.remove(handle));
            } else {
                assert(*self == *old(self));
            }
        }
        res
    }

    pub fn new(max_nodes: usize, min_size: u32, top_left: Pos, bot_right: Pos) -> (r: Self)
        ensures
            r.max_nodes == max_nodes,
            r.min_size == min_size,
            r.top_left == top_left,
            r.bot_right == bot_right,
            r.is_leaf(),
            r.handles@.len() == 0,
    {
        QuadTreeInner { handles: Vec::new(), max_nodes, min_size, top_left, bot_right, quads: None }
    }

    pub fn in_boundary(&self, pos: Pos) -> (r: bool)
        ensures
            r == self.contains_pos(pos),
    {
        pos.0 >= self.top_left.0 && pos.0 <= self.bot_right.0 && pos.1 >= self.top_left.1
            && pos.1 <= self.bot_right.1
    }
}

} // verus!
