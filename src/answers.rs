//! What an answer to a nearest-record query is, independent of how it is
//! found, and the laws that hold between answers.
use vstd::prelude::*;
use vstd::relations::injective_on;
use vstd::set_lib::{lemma_int_range, lemma_len_subset, lemma_map_size, lemma_map_size_bound, set_int_range};
use crate::types::{LngLat, sq_dist};

verus! {

/// The smaller of two integers.
pub open spec fn min_int(a: int, b: int) -> int {
    if a <= b {
        a
    } else {
        b
    }
}

/// `res` answers a query for the `k` records of `locs` nearest to `q`: there are
/// `min(k, |locs|)` pairs of a record position and its distance, in ascending
/// order of distance, no position twice, and no record left out is nearer
/// than any that is in.
pub open spec fn nearest_k<T: LngLat>(res: Seq<(usize, u128)>, k: int, locs: Seq<T>, q: (int, int)) -> bool {
    &&& res.len() == min_int(k, locs.len() as int)
    &&& forall|i: int|
        0 <= i < res.len() ==> (#[trigger] res[i]).0 < locs.len() && res[i].1 as int == sq_dist(
            q,
            locs[res[i].0 as int].coord(),
        )
    &&& forall|i: int, j: int| 0 <= i < j < res.len() ==> res[i].1 <= res[j].1
    &&& forall|i: int, j: int| 0 <= i < res.len() && 0 <= j < res.len() && i != j ==> res[i].0 != res[j].0
    &&& forall|j: int, i: int|
        0 <= j < locs.len() && !listed(res, j) && 0 <= i < res.len() ==> #[trigger] res[i].1
            <= sq_dist(q, #[trigger] locs[j].coord())
}

/// Some pair of `res` is for record `j`.
pub open spec fn listed(res: Seq<(usize, u128)>, j: int) -> bool {
    exists|i: int| 0 <= i < res.len() && res[i].0 == j
}

/// `r` answers a query for the record of `locs` nearest to `q`.
pub open spec fn nearest_one<T: LngLat>(r: (usize, u128), locs: Seq<T>, q: (int, int)) -> bool {
    &&& r.0 < locs.len()
    &&& r.1 as int == sq_dist(q, locs[r.0 as int].coord())
    &&& forall|j: int| 0 <= j < locs.len() ==> r.1 <= sq_dist(q, #[trigger] locs[j].coord())
}

/// `all` is every record of `locs` once, in ascending order of distance to
/// `q`: the answer a brute-force scan and sort gives.
pub open spec fn sorted_all<T: LngLat>(all: Seq<(usize, u128)>, locs: Seq<T>, q: (int, int)) -> bool {
    &&& all.len() == locs.len()
    &&& forall|i: int|
        0 <= i < all.len() ==> (#[trigger] all[i]).0 < locs.len() && all[i].1 as int == sq_dist(
            q,
            locs[all[i].0 as int].coord(),
        )
    &&& forall|i: int, j: int| 0 <= i < j < all.len() ==> all[i].1 <= all[j].1
    &&& forall|i: int, j: int| 0 <= i < all.len() && 0 <= j < all.len() && i != j ==> all[i].0 != all[j].0
    &&& forall|j: int| 0 <= j < locs.len() ==> #[trigger] listed(all, j)
}

/// No answer's `i`-th distance is below another answer's `i`-th distance.
proof fn lemma_not_below<T: LngLat>(
    res1: Seq<(usize, u128)>,
    res2: Seq<(usize, u128)>,
    k: int,
    locs: Seq<T>,
    q: (int, int),
    i: int,
)
    requires
        nearest_k(res1, k, locs, q),
        nearest_k(res2, k, locs, q),
        0 <= i < res1.len(),
    ensures
        res2[i].1 <= res1[i].1,
{
    if res1[i].1 < res2[i].1 {
        let g = |t: int| res1[t].0 as int;
        let h = |x: int| res2[x].0 as int;
        let sa = set_int_range(0, i + 1);
        let sb = set_int_range(0, i);
        lemma_int_range(0, i + 1);
        lemma_int_range(0, i);
        let a = sa.map(g);
        let b = sb.map(h);
        assert(injective_on(g, sa)) by {
            assert forall|t1: int, t2: int| sa.contains(t1) && sa.contains(t2) && #[trigger] g(t1)
                == #[trigger] g(t2) implies t1 == t2 by {
                if t1 != t2 {
                    assert(res1[t1].0 != res1[t2].0);
                }
            }
        }
        lemma_map_size(sa, a, g);
        lemma_map_size_bound(sb, b, h);
        assert forall|r: int| a.contains(r) implies b.contains(r) by {
            let t = choose|t: int| sa.contains(t) && g(t) == r;
            assert(res1[t].1 <= res1[i].1);
            assert(res1[t] == res1[t]);
            if listed(res2, r) {
                let x = choose|x: int| 0 <= x < res2.len() && res2[x].0 == r;
                assert(res2[x] == res2[x]);
                if x >= i {
                    if x > i {
                        assert(res2[i].1 <= res2[x].1);
                    }
                    assert(false);
                }
                assert(sb.contains(x) && h(x) == r);
            } else {
                assert(locs[r] == locs[r]);
                assert(res2[i].1 <= sq_dist(q, locs[r].coord()));
                assert(false);
            }
        }
        lemma_len_subset(a, b);
        assert(false);
    }
}

/// Two answers to the same query list the same distances in the same order:
/// they can differ only in which of equally distant records they name. So the
/// answers from an index sorted once and from one sorted twice agree.
pub proof fn lemma_answers_agree<T: LngLat>(
    res1: Seq<(usize, u128)>,
    res2: Seq<(usize, u128)>,
    k: int,
    locs: Seq<T>,
    q: (int, int),
)
    requires
        nearest_k(res1, k, locs, q),
        nearest_k(res2, k, locs, q),
    ensures
        res1.len() == res2.len(),
        forall|i: int| 0 <= i < res1.len() ==> res1[i].1 == res2[i].1,
{
    assert forall|i: int| 0 <= i < res1.len() implies res1[i].1 == res2[i].1 by {
        lemma_not_below(res1, res2, k, locs, q, i);
        lemma_not_below(res2, res1, k, locs, q, i);
    }
}

/// The answer for the `k` nearest records lists, in order, the same distances
/// as the first `k` entries of a brute-force list of all records sorted by
/// distance.
pub proof fn lemma_matches_brute_force<T: LngLat>(
    res: Seq<(usize, u128)>,
    all: Seq<(usize, u128)>,
    k: int,
    locs: Seq<T>,
    q: (int, int),
)
    requires
        nearest_k(res, k, locs, q),
        sorted_all(all, locs, q),
        k >= 0,
    ensures
        res.len() == min_int(k, locs.len() as int),
        forall|i: int| 0 <= i < res.len() ==> res[i].1 == all[i].1,
{
    let m = min_int(k, locs.len() as int);
    let first = all.take(m);
    assert forall|j: int, i: int|
        0 <= j < locs.len() && !listed(first, j) && 0 <= i < first.len() implies #[trigger] first[i].1
        <= sq_dist(q, #[trigger] locs[j].coord()) by {
        assert(listed(all, j));
        let x = choose|x: int| 0 <= x < all.len() && all[x].0 == j;
        if x < m {
            assert(first[x] == all[x]);
            assert(false);
        }
        assert(all[x] == all[x]);
        assert(first[i] == all[i]);
    }
    assert(nearest_k(first, k, locs, q));
    lemma_answers_agree(res, first, k, locs, q);
}

/// The nearest record and the first of the single nearest agree in distance,
/// and are the same record when no other record is at that distance.
pub proof fn lemma_nearest_is_first<T: LngLat>(
    r: (usize, u128),
    v: Seq<(usize, u128)>,
    locs: Seq<T>,
    q: (int, int),
)
    requires
        nearest_one(r, locs, q),
        nearest_k(v, 1, locs, q),
    ensures
        v.len() == 1,
        r.1 == v[0].1,
        (forall|j: int|
            0 <= j < locs.len() && j != r.0 ==> sq_dist(q, #[trigger] locs[j].coord()) != r.1)
            ==> r == v[0],
{
    assert(v[0] == v[0]);
    assert(locs[v[0].0 as int] == locs[v[0].0 as int]);
    if listed(v, r.0 as int) {
        let x = choose|x: int| 0 <= x < v.len() && v[x].0 == r.0;
        assert(x == 0);
    } else {
        assert(locs[r.0 as int] == locs[r.0 as int]);
        assert(v[0].1 <= sq_dist(q, locs[r.0 as int].coord()));
    }
}

} // verus!
