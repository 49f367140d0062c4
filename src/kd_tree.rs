//! An implicit two-dimensional kd-tree over a borrowed collection of records,
//! and exact nearest and k-nearest queries on it by branch and bound.
use vstd::prelude::*;
use vstd::set_lib::{lemma_int_range, lemma_set_disjoint_lens, set_int_range};
use crate::answers::{listed, min_int, nearest_k, nearest_one};
use crate::priority_queue::{MinPriorityQueue, PrioritySortableItem, offered, sorted_by_priority};
use crate::types::{LngLat, Point, axis_coord, distance_to, sq_dist};

verus! {

/// Why a query could not be answered.
#[derive(Debug, Clone, Copy, PartialEq, Eq, Structural)]
pub enum KdTreeError {
    /// The index holds no records.
    EmptyIndex,
}

/// `perm` holds each of `0..n` exactly once.
pub open spec fn is_permutation(perm: Seq<usize>, n: int) -> bool {
    &&& perm.len() == n
    &&& forall|i: int| 0 <= i < n ==> #[trigger] perm[i] < n
    &&& forall|i: int, j: int| 0 <= i < n && 0 <= j < n && i != j ==> perm[i] != perm[j]
    &&& forall|v: int| 0 <= v < n ==> #[trigger] occurs(perm, n, v)
}

/// Some position of `perm` below `n` holds `v`.
pub open spec fn occurs(perm: Seq<usize>, n: int, v: int) -> bool {
    occurs_in(perm, 0, n, v)
}

/// Some position of `perm` in `[lo, hi)` holds `v`.
pub open spec fn occurs_in(perm: Seq<usize>, lo: int, hi: int, v: int) -> bool {
    exists|i: int| lo <= i < hi && perm[i] == v
}

/// The coordinate on `axis` of the record that position `p` of `perm` names.
pub open spec fn key<T: LngLat>(locs: Seq<T>, perm: Seq<usize>, p: int, axis: int) -> int {
    axis_coord(locs[perm[p] as int].coord(), axis)
}

/// The node over `[from, from + count)` that splits on `axis` is a kd-tree:
/// the entries left of the middle are not above it on `axis`, those right of
/// it are not below it, and both halves are kd-trees on the other axis.
pub open spec fn kd_ok<T: LngLat>(
    locs: Seq<T>,
    perm: Seq<usize>,
    from: int,
    count: int,
    axis: int,
) -> bool
    decreases count,
{
    if count <= 1 {
        true
    } else {
        let mid = from + count / 2;
        &&& forall|i: int|
            from <= i < mid ==> #[trigger] key(locs, perm, i, axis) <= key(locs, perm, mid, axis)
        &&& forall|i: int|
            mid < i < from + count ==> key(locs, perm, mid, axis) <= #[trigger] key(
                locs,
                perm,
                i,
                axis,
            )
        &&& kd_ok(locs, perm, from, count / 2, 1 - axis)
        &&& kd_ok(locs, perm, mid + 1, count - count / 2 - 1, 1 - axis)
    }
}

/// The axis that an `i32` axis number stands for: even numbers are longitude.
pub open spec fn axis_of(axis: i32) -> int {
    if axis % 2 == 0 {
        0
    } else {
        1
    }
}

/// The squared distance from `q` to the record that position `p` names.
pub open spec fn pos_dist<T: LngLat>(locs: Seq<T>, perm: Seq<usize>, q: (int, int), p: int) -> int {
    sq_dist(q, locs[perm[p] as int].coord())
}

/// Some entry of `items` is for position `p`.
pub open spec fn holds(items: Seq<PrioritySortableItem>, p: int) -> bool {
    exists|i: int| 0 <= i < items.len() && items[i].element == p
}

/// `items` are the `k` positions of `seen` nearest to `q` (all of them when
/// `seen` has no more than `k`), each with its distance, none twice.
pub open spec fn best_of<T: LngLat>(
    items: Seq<PrioritySortableItem>,
    k: int,
    locs: Seq<T>,
    perm: Seq<usize>,
    q: (int, int),
    seen: Set<int>,
) -> bool {
    &&& seen.finite()
    &&& items.len() == min_int(k, seen.len() as int)
    &&& forall|i: int|
        0 <= i < items.len() ==> seen.contains(#[trigger] items[i].element as int)
            && items[i].priority as int == pos_dist(locs, perm, q, items[i].element as int)
    &&& forall|i: int, j: int|
        0 <= i < items.len() && 0 <= j < items.len() && i != j ==> items[i].element
            != items[j].element
    &&& seen.len() <= k ==> forall|p: int| seen.contains(p) ==> #[trigger] holds(items, p)
    &&& forall|p: int, i: int|
        seen.contains(p) && !holds(items, p) && 0 <= i < items.len() ==> #[trigger] items[i].priority
            <= #[trigger] pos_dist(locs, perm, q, p)
}

proof fn lemma_square_le(a: int, b: int)
    requires
        0 <= a <= b,
    ensures
        a * a <= b * b,
{
    assert(a * a <= b * b) by (nonlinear_arith)
        requires
            0 <= a <= b,
    ;
}

/// A record on the far side of a splitting line is at least as far from `q`
/// as the line is.
proof fn lemma_far_side(q: (int, int), c: (int, int), m: int, axis: int)
    requires
        axis == 0 || axis == 1,
        (axis_coord(q, axis) < m && m <= axis_coord(c, axis)) || (axis_coord(c, axis) <= m && m
            <= axis_coord(q, axis)),
    ensures
        (axis_coord(q, axis) - m) * (axis_coord(q, axis) - m) <= sq_dist(q, c),
{
    let qa = axis_coord(q, axis);
    let ca = axis_coord(c, axis);
    if qa < m {
        lemma_square_le(m - qa, ca - qa);
        assert((qa - m) * (qa - m) == (m - qa) * (m - qa)) by (nonlinear_arith);
        assert((qa - ca) * (qa - ca) == (ca - qa) * (ca - qa)) by (nonlinear_arith);
    } else {
        lemma_square_le(qa - m, qa - ca);
    }
    lemma_square_le(0, if q.0 >= c.0 { q.0 - c.0 } else { c.0 - q.0 });
    lemma_square_le(0, if q.1 >= c.1 { q.1 - c.1 } else { c.1 - q.1 });
    assert((q.0 - c.0) * (q.0 - c.0) == (c.0 - q.0) * (c.0 - q.0)) by (nonlinear_arith);
    assert((q.1 - c.1) * (q.1 - c.1) == (c.1 - q.1) * (c.1 - q.1)) by (nonlinear_arith);
}

/// Offering a position not seen before keeps the collector the best of what
/// has been seen.
proof fn lemma_offer<T: LngLat>(
    before: Seq<PrioritySortableItem>,
    after: Seq<PrioritySortableItem>,
    k: nat,
    locs: Seq<T>,
    perm: Seq<usize>,
    q: (int, int),
    seen: Set<int>,
    item: PrioritySortableItem,
)
    requires
        k >= 1,
        before.len() <= k,
        sorted_by_priority(before),
        sorted_by_priority(after),
        best_of(before, k as int, locs, perm, q, seen),
        !seen.contains(item.element as int),
        item.priority as int == pos_dist(locs, perm, q, item.element as int),
        offered(before, k, item, after),
    ensures
        best_of(after, k as int, locs, perm, q, seen.insert(item.element as int)),
{
    let s2 = seen.insert(item.element as int);
    let e = item.element as int;
    assert(s2.len() == seen.len() + 1);
    if before.len() < k {
        let x = choose|x: int| 0 <= x <= before.len() && after == before.insert(x, item);
        assert(before.len() == seen.len());
        assert forall|p: int| seen.contains(p) implies #[trigger] holds(after, p) by {
            assert(holds(before, p));
            let i = choose|i: int| 0 <= i < before.len() && before[i].element == p;
            if i < x {
                assert(after[i] == before[i]);
            } else {
                assert(after[i + 1] == before[i]);
            }
        }
        assert(holds(after, e)) by {
            assert(after[x] == item);
        }
        assert forall|i: int| 0 <= i < after.len() implies s2.contains(
            #[trigger] after[i].element as int,
        ) && after[i].priority as int == pos_dist(locs, perm, q, after[i].element as int) by {
            if i < x {
                assert(after[i] == before[i]);
            } else if i > x {
                assert(after[i] == before[i - 1]);
            }
        }
        assert forall|i: int, j: int|
            0 <= i < after.len() && 0 <= j < after.len() && i != j implies after[i].element
            != after[j].element by {
            let oi = if i < x { i } else { i - 1 };
            let oj = if j < x { j } else { j - 1 };
            if i != x && j != x {
                assert(after[i] == before[oi]);
                assert(after[j] == before[oj]);
            } else if i == x {
                assert(after[j] == before[oj]);
                assert(seen.contains(before[oj].element as int));
            } else {
                assert(after[i] == before[oi]);
                assert(seen.contains(before[oi].element as int));
            }
        }
        assert forall|p: int| s2.contains(p) implies #[trigger] holds(after, p) by {
            if p != e {
                assert(seen.contains(p));
            }
        }
    } else if before.len() > 0 && item.priority < before.last().priority {
        let x = choose|x: int| 0 <= x < before.len() && after == before.drop_last().insert(x, item);
        let last = before.last();
        let n1 = before.len() - 1;
        assert(before.len() == k);
        assert forall|i: int| 0 <= i < after.len() implies s2.contains(
            #[trigger] after[i].element as int,
        ) && after[i].priority as int == pos_dist(locs, perm, q, after[i].element as int) by {
            if i < x {
                assert(after[i] == before[i]);
            } else if i > x {
                assert(after[i] == before[i - 1]);
            }
        }
        assert forall|i: int| 0 <= i < after.len() implies #[trigger] after[i].priority
            <= last.priority by {
            if i < x {
                assert(after[i] == before[i]);
            } else if i > x {
                assert(after[i] == before[i - 1]);
            }
        }
        assert forall|i: int, j: int|
            0 <= i < after.len() && 0 <= j < after.len() && i != j implies after[i].element
            != after[j].element by {
            let oi = if i < x { i } else { i - 1 };
            let oj = if j < x { j } else { j - 1 };
            if i != x && j != x {
                assert(after[i] == before[oi]);
                assert(after[j] == before[oj]);
            } else if i == x {
                assert(after[j] == before[oj]);
                assert(seen.contains(before[oj].element as int));
            } else {
                assert(after[i] == before[oi]);
                assert(seen.contains(before[oi].element as int));
            }
        }
        assert forall|p: int, i: int|
            s2.contains(p) && !holds(after, p) && 0 <= i < after.len() implies #[trigger] after[i].priority
            <= #[trigger] pos_dist(locs, perm, q, p) by {
            assert(after[i].priority <= last.priority);
            assert(after[x] == item);
            if p == last.element as int {
                assert(before[n1] == last);
            } else {
                if holds(before, p) {
                    let j = choose|j: int| 0 <= j < before.len() && before[j].element == p;
                    if j < x {
                        assert(after[j] == before[j]);
                    } else if j < n1 {
                        assert(after[j + 1] == before[j]);
                    }
                }
                assert(before[n1].priority <= pos_dist(locs, perm, q, p));
            }
        }
    } else {
        assert(after == before);
        assert(before.len() == k);
        assert(!holds(before, e));
        assert forall|p: int, i: int|
            s2.contains(p) && !holds(after, p) && 0 <= i < after.len() implies #[trigger] after[i].priority
            <= #[trigger] pos_dist(locs, perm, q, p) by {
            if p == e {
                assert(before[i].priority <= before[before.len() - 1].priority);
            }
        }
    }
}

/// Adding positions that are all at least as far as the collector's largest
/// entry, when it is full, keeps it the best of what has been seen.
proof fn lemma_prune<T: LngLat>(
    items: Seq<PrioritySortableItem>,
    k: nat,
    locs: Seq<T>,
    perm: Seq<usize>,
    q: (int, int),
    seen: Set<int>,
    from: int,
    count: int,
)
    requires
        k >= 1,
        items.len() == k,
        sorted_by_priority(items),
        best_of(items, k as int, locs, perm, q, seen),
        0 <= count,
        forall|p: int| from <= p < from + count ==> !seen.contains(p),
        forall|p: int|
            from <= p < from + count ==> items.last().priority <= #[trigger] pos_dist(
                locs,
                perm,
                q,
                p,
            ),
    ensures
        best_of(items, k as int, locs, perm, q, seen + set_int_range(from, from + count)),
{
    let r = set_int_range(from, from + count);
    lemma_int_range(from, from + count);
    assert(seen.disjoint(r));
    lemma_set_disjoint_lens(seen, r);
    let s2 = seen + r;
    assert forall|p: int, i: int|
        s2.contains(p) && !holds(items, p) && 0 <= i < items.len() implies #[trigger] items[i].priority
        <= #[trigger] pos_dist(locs, perm, q, p) by {
        if r.contains(p) {
            assert(items[i].priority <= items[items.len() - 1].priority);
        }
    }
    if s2.len() <= k {
        assert(count == 0);
        assert(s2 =~= seen);
    }
}

/// Exchanging two entries keeps a permutation a permutation.
proof fn lemma_swap_permutation(perm: Seq<usize>, n: int, a: int, b: int)
    requires
        is_permutation(perm, n),
        0 <= a < n,
        0 <= b < n,
    ensures
        is_permutation(perm.update(a, perm[b]).update(b, perm[a]), n),
{
    let q = perm.update(a, perm[b]).update(b, perm[a]);
    assert forall|v: int| 0 <= v < n implies #[trigger] occurs(q, n, v) by {
        assert(occurs(perm, n, v));
        let i = choose|i: int| 0 <= i < n && perm[i] == v;
        if i == a {
            assert(q[b] == v);
        } else if i == b {
            assert(q[a] == v);
        } else {
            assert(q[i] == v);
        }
    }
}

/// When two permutations agree outside a range, each entry inside the range
/// of the second was in the range of the first.
proof fn lemma_range_values(p0: Seq<usize>, p1: Seq<usize>, n: int, from: int, count: int)
    requires
        is_permutation(p0, n),
        is_permutation(p1, n),
        0 <= from,
        0 <= count,
        from + count <= n,
        forall|p: int| 0 <= p < n && !(from <= p < from + count) ==> p1[p] == p0[p],
    ensures
        forall|i: int|
            from <= i < from + count ==> occurs_in(p0, from, from + count, #[trigger] p1[i] as int),
{
    assert forall|i: int| from <= i < from + count implies occurs_in(
        p0,
        from,
        from + count,
        #[trigger] p1[i] as int,
    ) by {
        let v = p1[i] as int;
        assert(occurs(p0, n, v));
        let j = choose|j: int| 0 <= j < n && p0[j] == v;
        if !(from <= j < from + count) {
            assert(p1[j] == p0[j]);
            assert(false);
        }
        assert(from <= j < from + count && p1[i] == p0[j]);
    }
}

/// Whether a node is a kd-tree depends only on the entries in its range.
proof fn lemma_kd_frame<T: LngLat>(
    locs: Seq<T>,
    p1: Seq<usize>,
    p2: Seq<usize>,
    from: int,
    count: int,
    axis: int,
)
    requires
        0 <= from,
        0 <= count,
        from + count <= p1.len(),
        from + count <= p2.len(),
        forall|i: int| from <= i < from + count ==> p1[i] == p2[i],
    ensures
        kd_ok(locs, p1, from, count, axis) == kd_ok(locs, p2, from, count, axis),
    decreases count,
{
    if count > 1 {
        let mid = from + count / 2;
        assert forall|i: int| from <= i < from + count implies key(locs, p1, i, axis) == key(
            locs,
            p2,
            i,
            axis,
        ) by {}
        lemma_kd_frame(locs, p1, p2, from, count / 2, 1 - axis);
        lemma_kd_frame(locs, p1, p2, mid + 1, count - count / 2 - 1, 1 - axis);
    }
}

/// An index over a borrowed collection of records: a permutation of their
/// positions that `sort` arranges into an implicit kd-tree.
pub struct KdTree<'a, T> {
    locations: &'a [T],
    indexes: Vec<usize>,
}

impl<'a, T: LngLat> KdTree<'a, T> {
    /// The indexed records.
    pub closed spec fn locs(&self) -> Seq<T> {
        self.locations@
    }

    /// The permutation of record positions.
    pub closed spec fn perm(&self) -> Seq<usize> {
        self.indexes@
    }

    pub open spec fn wf(&self) -> bool {
        &&& self.locs().len() <= usize::MAX
        &&& is_permutation(self.perm(), self.locs().len() as int)
    }

    /// The whole permutation is a kd-tree whose root splits on longitude.
    pub open spec fn is_sorted(&self) -> bool {
        &&& self.wf()
        &&& kd_ok(self.locs(), self.perm(), 0, self.locs().len() as int, 0)
    }

    pub fn new(locations: &'a [T]) -> (r: Self)
        ensures
            r.wf(),
            r.locs() == locations@,
            forall|i: int| 0 <= i < locations@.len() ==> r.perm()[i] == i,
    {
        let n = locations.len();
        let mut indexes: Vec<usize> = Vec::new();
        let mut i: usize = 0;
        while i < n
            invariant
                i <= n,
                n == locations@.len(),
                indexes@.len() == i,
                forall|j: int| 0 <= j < i ==> indexes@[j] == j,
            decreases n - i,
        {
            indexes.push(i);
            i = i + 1;
        }
        let r = KdTree { locations, indexes };
        assert forall|v: int| 0 <= v < n implies #[trigger] occurs(r.perm(), n as int, v) by {
            assert(r.perm()[v] == v);
        }
        r
    }

    fn key_at(&self, p: usize, axis: usize) -> (r: i32)
        requires
            self.wf(),
            p < self.locs().len(),
        ensures
            r as int == key(self.locs(), self.perm(), p as int, axis as int),
    {
        let l = &self.locations[self.indexes[p]];
        if axis == 0 {
            l.get_lng()
        } else {
            l.get_lat()
        }
    }

    /// Sorts `[from, from + count)` of the permutation by the records' value on
    /// `axis`, keeping the order of equal values (insertion sort).
    fn sort_by_axis(&mut self, from: usize, count: usize, axis: usize)
        requires
            old(self).wf(),
            from + count <= old(self).locs().len(),
        ensures
            final(self).wf(),
            final(self).locs() == old(self).locs(),
            forall|p: int|
                0 <= p < old(self).locs().len() && !(from <= p < from + count) ==> final(self).perm()[p] == old(self).perm()[p],
            forall|a: int, b: int|
                from <= a < b < from + count ==> key(final(self).locs(), final(self).perm(), a, axis as int)
                    <= key(final(self).locs(), final(self).perm(), b, axis as int),
    {
        let ghost n = self.locs().len() as int;
        let end = from + count;
        let mut i: usize = from;
        while i < end
            invariant
                from <= i <= end || (count == 0 && i == from),
                end == from + count,
                end <= n,
                n == self.locs().len(),
                self.wf(),
                self.locs() == old(self).locs(),
                forall|p: int|
                    0 <= p < n && !(from <= p < end) ==> self.perm()[p] == old(self).perm()[p],
                forall|a: int, b: int|
                    from <= a < b < i ==> key(self.locs(), self.perm(), a, axis as int) <= key(
                        self.locs(),
                        self.perm(),
                        b,
                        axis as int,
                    ),
            decreases end - i,
        {
            let mut j: usize = i;
            while j > from && self.key_at(j - 1, axis) > self.key_at(j, axis)
                invariant
                    from <= j <= i < end,
                    end <= n,
                    n == self.locs().len(),
                    self.wf(),
                    self.locs() == old(self).locs(),
                    forall|p: int|
                        0 <= p < n && !(from <= p < end) ==> self.perm()[p] == old(self).perm()[p],
                    forall|a: int, b: int|
                        from <= a < b <= i && a != j && b != j ==> key(
                            self.locs(),
                            self.perm(),
                            a,
                            axis as int,
                        ) <= key(self.locs(), self.perm(), b, axis as int),
                    forall|b: int|
                        j < b <= i ==> key(self.locs(), self.perm(), j as int, axis as int) < key(
                            self.locs(),
                            self.perm(),
                            b,
                            axis as int,
                        ),
                decreases j,
            {
                proof {
                    lemma_swap_permutation(self.perm(), n, j - 1, j as int);
                }
                let ghost before = self.perm();
                let t = self.indexes[j - 1];
                let u = self.indexes[j];
                self.indexes[j - 1] = u;
                self.indexes[j] = t;
                proof {
                    let ax = axis as int;
                    let locs = self.locs();
                    assert(key(locs, self.perm(), j - 1, ax) == key(locs, before, j as int, ax));
                    assert(key(locs, self.perm(), j as int, ax) == key(locs, before, j - 1, ax));
                    assert forall|p: int| 0 <= p < n && p != j - 1 && p != j implies key(
                        locs,
                        self.perm(),
                        p,
                        ax,
                    ) == key(locs, before, p, ax) by {}
                    assert forall|a: int, b: int|
                        from <= a < b <= i && a != j - 1 && b != j - 1 implies key(
                        locs,
                        self.perm(),
                        a,
                        ax,
                    ) <= key(locs, self.perm(), b, ax) by {
                        let oa = if a == j {
                            j - 1
                        } else {
                            a
                        };
                        let ob = if b == j {
                            j - 1
                        } else {
                            b
                        };
                        assert(key(locs, before, oa, ax) <= key(locs, before, ob, ax));
                    }
                    assert forall|b: int| j - 1 < b <= i implies key(
                        locs,
                        self.perm(),
                        j - 1,
                        ax,
                    ) < #[trigger] key(locs, self.perm(), b, ax) by {
                        if b > j {
                            assert(key(locs, before, j as int, ax) < key(locs, before, b, ax));
                        }
                    }
                }
                j = j - 1;
            }
            i = i + 1;
        }
    }

    fn sort_range(&mut self, from: usize, count: usize, axis: usize)
        requires
            old(self).wf(),
            from + count <= old(self).locs().len(),
            axis < 2,
        ensures
            final(self).wf(),
            final(self).locs() == old(self).locs(),
            forall|p: int|
                0 <= p < old(self).locs().len() && !(from <= p < from + count) ==> final(self).perm()[p] == old(self).perm()[p],
            kd_ok(final(self).locs(), final(self).perm(), from as int, count as int, axis as int),
        decreases count,
    {
        if count > 1 {
            let ghost n = self.locs().len() as int;
            let ghost locs = self.locs();
            self.sort_by_axis(from, count, axis);
            let count1 = count / 2;
            let count2 = count - count1 - 1;
            let mid = from + count1;
            let ghost p0 = self.perm();
            self.sort_range(from, count1, 1 - axis);
            let ghost p1 = self.perm();
            self.sort_range(mid + 1, count2, 1 - axis);
            let ghost p2 = self.perm();
            proof {
                let ax = axis as int;
                lemma_range_values(p0, p1, n, from as int, count1 as int);
                lemma_range_values(p1, p2, n, mid + 1, count2 as int);
                lemma_kd_frame(locs, p1, p2, from as int, count1 as int, 1 - ax);
                assert forall|i: int| from <= i < mid implies #[trigger] key(locs, p2, i, ax) <= key(
                    locs,
                    p2,
                    mid as int,
                    ax,
                ) by {
                    assert(occurs_in(p0, from as int, from + count1, p1[i] as int));
                    let j = choose|j: int| from <= j < from + count1 && p0[j] == p1[i];
                    assert(p2[i] == p1[i]);
                    assert(key(locs, p0, j, ax) <= key(locs, p0, mid as int, ax));
                }
                assert forall|i: int| mid < i < from + count implies key(locs, p2, mid as int, ax)
                    <= #[trigger] key(locs, p2, i, ax) by {
                    assert(occurs_in(p1, mid + 1, mid + 1 + count2, p2[i] as int));
                    let j = choose|j: int| mid + 1 <= j < mid + 1 + count2 && p1[j] == p2[i];
                    assert(p1[j] == p0[j]);
                    assert(key(locs, p0, mid as int, ax) <= key(locs, p0, j, ax));
                }
            }
        }
    }

    /// Arranges `[from, from + count)` of the permutation into a kd-tree whose
    /// root splits on `axis` (even: longitude, odd: latitude). Called as
    /// `sort(0, n, 0)` on an index of `n` records, it makes the index ready
    /// for queries.
    pub fn sort(&mut self, from: usize, count: usize, axis: i32)
        requires
            old(self).wf(),
            from + count <= old(self).locs().len(),
        ensures
            final(self).wf(),
            final(self).locs() == old(self).locs(),
            forall|p: int|
                0 <= p < old(self).locs().len() && !(from <= p < from + count) ==> final(self).perm()[p] == old(self).perm()[p],
            kd_ok(final(self).locs(), final(self).perm(), from as int, count as int, axis_of(axis)),
            from == 0 && count == old(self).locs().len() && axis_of(axis) == 0 ==> final(self).is_sorted(),
    {
        let a: usize = if axis % 2 == 0 {
            0
        } else {
            1
        };
        self.sort_range(from, count, a);
    }

    /// Branch-and-bound search of the node over `[range_from, range_from +
    /// range_count)` that splits on `axis`. Every position of the range is
    /// either offered to the collector or shown to be no nearer than its
    /// largest entry when it is full.
    fn search<P: LngLat>(
        &self,
        lnglat: &P,
        range_from: usize,
        range_count: usize,
        axis: usize,
        queue: &mut MinPriorityQueue,
        Ghost(seen): Ghost<Set<int>>,
    )
        requires
            self.wf(),
            range_from + range_count <= self.locs().len(),
            axis < 2,
            kd_ok(self.locs(), self.perm(), range_from as int, range_count as int, axis as int),
            old(queue).wf(),
            old(queue).capacity() >= 1,
            best_of(old(queue).items(), old(queue).capacity() as int, self.locs(), self.perm(), lnglat.coord(), seen),
            forall|p: int| range_from <= p < range_from + range_count ==> !seen.contains(p),
        ensures
            final(queue).wf(),
            final(queue).capacity() == old(queue).capacity(),
            best_of(
                final(queue).items(),
                old(queue).capacity() as int,
                self.locs(),
                self.perm(),
                lnglat.coord(),
                seen + set_int_range(range_from as int, range_from + range_count),
            ),
        decreases range_count,
    {
        let ghost locs = self.locs();
        let ghost perm = self.perm();
        let ghost q = lnglat.coord();
        let ghost k = queue.capacity();
        let ghost ax = axis as int;
        if range_count > 0 {
            let half = range_count / 2;
            let index = range_from + half;
            let lnglat2 = &self.locations[self.indexes[index]];
            let distance = distance_to(lnglat, lnglat2);
            let ghost before = queue.items();
            queue.append(index, distance);
            let ghost seen1 = seen.insert(index as int);
            proof {
                lemma_offer(
                    before,
                    queue.items(),
                    k,
                    locs,
                    perm,
                    q,
                    seen,
                    PrioritySortableItem { element: index, priority: distance },
                );
            }
            let go_left = if axis == 0 {
                lnglat.get_lng() < lnglat2.get_lng()
            } else {
                lnglat.get_lat() < lnglat2.get_lat()
            };
            let right_count = range_count - half - 1;
            let (near_from, near_count, far_from, far_count) = if go_left {
                (range_from, half, index + 1, right_count)
            } else {
                (index + 1, right_count, range_from, half)
            };
            self.search(lnglat, near_from, near_count, 1 - axis, queue, Ghost(seen1));
            let ghost seen2 = seen1 + set_int_range(near_from as int, near_from + near_count);
            let plane = if axis == 0 {
                Point::new(lnglat2.get_lng(), lnglat.get_lat())
            } else {
                Point::new(lnglat.get_lng(), lnglat2.get_lat())
            };
            let distance_from_plane = distance_to(lnglat, &plane);
            let bound = queue.get_max_priority();
            let visit = match bound {
                None => true,
                Some(b) => distance_from_plane < b,
            };
            if visit {
                self.search(lnglat, far_from, far_count, 1 - axis, queue, Ghost(seen2));
            } else {
                proof {
                    let m = key(locs, perm, index as int, ax);
                    assert(lnglat2.coord() == locs[perm[index as int] as int].coord());
                    if ax == 0 {
                        assert(plane.coord() == (m, q.1));
                    } else {
                        assert(plane.coord() == (q.0, m));
                    }
                    assert(0 * 0 == 0int);
                    assert(sq_dist(q, plane.coord()) == (axis_coord(q, ax) - m) * (axis_coord(q, ax) - m));
                    assert forall|p: int| far_from <= p < far_from + far_count implies queue.items().last().priority
                        <= #[trigger] pos_dist(locs, perm, q, p) by {
                        assert(key(locs, perm, p, ax) == axis_coord(locs[perm[p] as int].coord(), ax));
                        lemma_far_side(q, locs[perm[p] as int].coord(), m, ax);
                    }
                    lemma_prune(queue.items(), k, locs, perm, q, seen2, far_from as int, far_count as int);
                }
            }
            proof {
                assert(seen2 + set_int_range(far_from as int, far_from + far_count) =~= seen
                    + set_int_range(range_from as int, range_from + range_count));
            }
        } else {
            proof {
                assert(seen + set_int_range(range_from as int, range_from + range_count) =~= seen);
            }
        }
    }

    /// The `top` records nearest to `lnglat`, nearest first, each as its
    /// position in the collection and its squared distance. Fails only on an
    /// index with no records; `top == 0` gives an empty list.
    pub fn search_top_nn<P: LngLat>(&self, lnglat: &P, top: usize) -> (r: Result<
        Vec<(usize, u128)>,
        KdTreeError,
    >)
        requires
            self.is_sorted(),
        ensures
            r is Err <==> self.locs().len() == 0,
            r is Err ==> r == Err::<Vec<(usize, u128)>, KdTreeError>(KdTreeError::EmptyIndex),
            r matches Ok(v) ==> nearest_k(v@, top as int, self.locs(), lnglat.coord()),
            r matches Ok(v) ==> (top >= self.locs().len() ==> forall|j: int|
                0 <= j < self.locs().len() ==> listed(v@, j)),
    {
        let n = self.indexes.len();
        if n == 0 {
            return Err(KdTreeError::EmptyIndex);
        }
        if top == 0 {
            return Ok(Vec::new());
        }
        let ghost locs = self.locs();
        let ghost perm = self.perm();
        let ghost q = lnglat.coord();
        let mut queue = MinPriorityQueue::new(top, u128::MAX);
        proof {
            assert(Set::<int>::empty().len() == 0);
        }
        self.search(lnglat, 0, n, 0, &mut queue, Ghost(Set::empty()));
        let ghost all = set_int_range(0, n as int);
        proof {
            assert(Set::<int>::empty() + all =~= all);
            lemma_int_range(0, n as int);
        }
        let items = queue.get_min_value();
        let mut out: Vec<(usize, u128)> = Vec::new();
        let mut i: usize = 0;
        while i < items.len()
            invariant
                self.wf(),
                perm == self.perm(),
                n == perm.len(),
                i <= items@.len(),
                all == set_int_range(0, n as int),
                best_of(items@, top as int, locs, perm, q, all),
                out@.len() == i,
                forall|j: int|
                    0 <= j < i ==> #[trigger] out@[j] == (perm[items@[j].element as int], items@[j].priority),
            decreases items@.len() - i,
        {
            let it = items[i];
            proof {
                assert(all.contains(items@[i as int].element as int));
            }
            out.push((self.indexes[it.element], it.priority));
            i = i + 1;
        }
        proof {
            assert(sorted_by_priority(items@));
            let res = out@;
            assert forall|j: int, i: int|
                0 <= j < n && !listed(res, j) && 0 <= i < res.len() implies #[trigger] res[i].1 <= sq_dist(
                q,
                #[trigger] locs[j].coord(),
            ) by {
                assert(occurs(perm, n as int, j));
                let p = choose|p: int| 0 <= p < n && perm[p] == j;
                if holds(items@, p) {
                    let x = choose|x: int| 0 <= x < items@.len() && items@[x].element == p;
                    assert(res[x].0 == j);
                }
                assert(all.contains(p));
                assert(items@[i].priority <= pos_dist(locs, perm, q, p));
            }
            if top >= n {
                assert forall|j: int| 0 <= j < n implies listed(res, j) by {
                    assert(occurs(perm, n as int, j));
                    let p = choose|p: int| 0 <= p < n && perm[p] == j;
                    assert(all.contains(p));
                    assert(holds(items@, p));
                    let x = choose|x: int| 0 <= x < items@.len() && items@[x].element == p;
                    assert(res[x].0 == j);
                }
            }
        }
        Ok(out)
    }

    /// The record nearest to `lnglat`, as its position in the collection and
    /// its squared distance. Fails only on an index with no records.
    pub fn search_nn<P: LngLat>(&self, lnglat: &P) -> (r: Result<(usize, u128), KdTreeError>)
        requires
            self.is_sorted(),
        ensures
            r is Err <==> self.locs().len() == 0,
            r is Err ==> r == Err::<(usize, u128), KdTreeError>(KdTreeError::EmptyIndex),
            r matches Ok(v) ==> nearest_one(v, self.locs(), lnglat.coord()),
    {
        match self.search_top_nn(lnglat, 1) {
            Ok(v) => {
                let first = v[0];
                proof {
                    assert forall|j: int| 0 <= j < self.locs().len() implies first.1 <= sq_dist(
                        lnglat.coord(),
                        #[trigger] self.locs()[j].coord(),
                    ) by {
                        if listed(v@, j) {
                            let x = choose|x: int| 0 <= x < v@.len() && v@[x].0 == j;
                            assert(x == 0);
                        } else {
                            assert(v@[0].1 <= sq_dist(lnglat.coord(), self.locs()[j].coord()));
                        }
                    }
                }
                Ok(first)
            },
            Err(e) => Err(e),
        }
    }

    /// The record at `index` of the borrowed collection.
    pub fn get_location(&self, index: usize) -> (r: &T)
        requires
            index < self.locs().len(),
        ensures
            *r == self.locs()[index as int],
    {
        &self.locations[index]
    }
}

} // verus!
