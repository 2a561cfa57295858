//! Ranking of the candidate vehicles of one order, and the choice of the
//! nearest one within an acceptance threshold.

use vstd::prelude::*;

verus! {

/// A vehicle considered for an order, with its distance to the order's node.
#[derive(Clone, Copy, Debug)]
pub struct Candidate {
    pub vehicle_id: i32,
    pub distance: i32,
}

/// The candidate at position `p` ranks before the one at position `q`: it is
/// nearer; or as near, with the lower vehicle identifier; or equal in both
/// and earlier in the list.
pub open spec fn ranks_before(c: Seq<Candidate>, p: int, q: int) -> bool {
    ||| c[p].distance < c[q].distance
    ||| c[p].distance == c[q].distance && c[p].vehicle_id < c[q].vehicle_id
    ||| c[p].distance == c[q].distance && c[p].vehicle_id == c[q].vehicle_id && p < q
}

/// `r` lists every position of `c` once, each before all that it ranks before.
pub open spec fn is_ranking(c: Seq<Candidate>, r: Seq<usize>) -> bool {
    &&& r.len() == c.len() <= usize::MAX
    &&& forall|i: int| 0 <= i < r.len() ==> (#[trigger] r[i]) < c.len()
    &&& forall|i: int, j: int|
        0 <= i < j < r.len() ==> ranks_before(c, #[trigger] r[i] as int, #[trigger] r[j] as int)
    &&& forall|p: usize| p < c.len() ==> #[trigger] r.contains(p)
}

/// Position `p` holds the candidate that ranks before every other one.
pub open spec fn is_best(c: Seq<Candidate>, p: int) -> bool {
    &&& 0 <= p < c.len()
    &&& forall|q: int| 0 <= q < c.len() && q != p ==> #[trigger] ranks_before(c, p, q)
}

/// If two rankings agree before index `i`, the position that the first has
/// at `i` does not rank before the one that the second has there: it would
/// have no place left in the second.
proof fn lemma_not_before(c: Seq<Candidate>, r1: Seq<usize>, r2: Seq<usize>, i: int)
    requires
        is_ranking(c, r1),
        is_ranking(c, r2),
        0 <= i < c.len(),
        forall|j: int| 0 <= j < i ==> r1[j] == r2[j],
    ensures
        !ranks_before(c, r1[i] as int, r2[i] as int),
{
    if ranks_before(c, r1[i] as int, r2[i] as int) {
        assert(r2.contains(r1[i]));
        let j = choose|j: int| 0 <= j < r2.len() && r2[j] == r1[i];
        if j < i {
            assert(ranks_before(c, r1[j] as int, r1[i] as int));
        } else if j > i {
            assert(ranks_before(c, r2[i] as int, r2[j] as int));
        }
    }
}

proof fn lemma_same_at(c: Seq<Candidate>, r1: Seq<usize>, r2: Seq<usize>, i: int)
    requires
        is_ranking(c, r1),
        is_ranking(c, r2),
        0 <= i < c.len(),
    ensures
        r1[i] == r2[i],
    decreases i,
{
    assert forall|j: int| 0 <= j < i implies r1[j] == r2[j] by {
        lemma_same_at(c, r1, r2, j);
    }
    lemma_not_before(c, r1, r2, i);
    lemma_not_before(c, r2, r1, i);
}

/// Ranking is deterministic: a list of candidates has one ranking only.
pub proof fn ranking_is_unique(c: Seq<Candidate>, r1: Seq<usize>, r2: Seq<usize>)
    requires
        is_ranking(c, r1),
        is_ranking(c, r2),
    ensures
        r1 == r2,
{
    assert forall|i: int| 0 <= i < r1.len() implies r1[i] == r2[i] by {
        lemma_same_at(c, r1, r2, i);
    }
    assert(r1 =~= r2);
}

/// A ranking starts with the best candidate.
pub proof fn lemma_first_is_best(c: Seq<Candidate>, r: Seq<usize>)
    requires
        is_ranking(c, r),
        c.len() > 0,
    ensures
        is_best(c, r[0] as int),
{
    let p = r[0] as int;
    assert forall|q: int| 0 <= q < c.len() && q != p implies #[trigger] ranks_before(c, p, q) by {
        assert(r.contains(q as usize));
        let j = choose|j: int| 0 <= j < r.len() && r[j] == q as usize;
        assert(ranks_before(c, r[0] as int, r[j] as int));
    }
}

/// Selection is deterministic: at most one position holds the best candidate.
pub proof fn best_is_unique(c: Seq<Candidate>, p: int, q: int)
    requires
        is_best(c, p),
        is_best(c, q),
    ensures
        p == q,
{
    if p != q {
        assert(ranks_before(c, p, q));
        assert(ranks_before(c, q, p));
    }
}

/// No two candidates of the list are for the same vehicle.
pub open spec fn distinct_vehicles(c: Seq<Candidate>) -> bool {
    forall|i: int, j: int|
        0 <= i < j < c.len() ==> (#[trigger] c[i]).vehicle_id != (#[trigger] c[j]).vehicle_id
}

/// The selected vehicle depends on the set of candidates only, not on the
/// order in which they are listed: two lists that hold the same candidates,
/// each vehicle once, have the same best candidate.
pub proof fn best_ignores_order(left: Seq<Candidate>, right: Seq<Candidate>, l: int, r: int)
    requires
        distinct_vehicles(left),
        forall|i: int| 0 <= i < left.len() ==> right.contains(#[trigger] left[i]),
        forall|i: int| 0 <= i < right.len() ==> left.contains(#[trigger] right[i]),
        is_best(left, l),
        is_best(right, r),
    ensures
        left[l] == right[r],
{
    assert(right.contains(left[l]));
    let j = choose|j: int| 0 <= j < right.len() && right[j] == left[l];
    assert(left.contains(right[r]));
    let i = choose|i: int| 0 <= i < left.len() && left[i] == right[r];
    if j != r && i != l {
        assert(ranks_before(right, r, j));
        assert(ranks_before(left, l, i));
        assert(left[i].vehicle_id == left[l].vehicle_id);
    }
}

/// The best candidate is at least as near as every candidate.
pub proof fn best_is_nearest(c: Seq<Candidate>, p: int)
    requires
        is_best(c, p),
    ensures
        forall|q: int| 0 <= q < c.len() ==> c[p].distance <= (#[trigger] c[q]).distance,
{
    assert forall|q: int| 0 <= q < c.len() implies c[p].distance <= (#[trigger] c[q]).distance by {
        if q != p {
            assert(ranks_before(c, p, q));
        }
    }
}

/// Whether the candidate at `p` ranks before the one at `q`.
pub fn precedes(candidates: &Vec<Candidate>, p: usize, q: usize) -> (b: bool)
    requires
        p < candidates.len(),
        q < candidates.len(),
    ensures
        b == ranks_before(candidates@, p as int, q as int),
{
    let x = candidates[p];
    let y = candidates[q];
    if x.distance != y.distance {
        x.distance < y.distance
    } else if x.vehicle_id != y.vehicle_id {
        x.vehicle_id < y.vehicle_id
    } else {
        p < q
    }
}

/// `r` lists every position from `lo` up to `hi` once, in ranking order.
spec fn ranks_range(c: Seq<Candidate>, r: Seq<usize>, lo: int, hi: int) -> bool {
    &&& 0 <= lo <= hi <= c.len()
    &&& r.len() == hi - lo
    &&& forall|i: int| 0 <= i < r.len() ==> lo <= (#[trigger] r[i]) < hi
    &&& forall|i: int, j: int|
        0 <= i < j < r.len() ==> ranks_before(c, #[trigger] r[i] as int, #[trigger] r[j] as int)
    &&& forall|p: usize| lo <= p < hi ==> #[trigger] r.contains(p)
}

/// Merges the rankings of two adjoining ranges of positions into the ranking
/// of the whole range.
fn merge(
    candidates: &Vec<Candidate>,
    left: &Vec<usize>,
    right: &Vec<usize>,
    lo: usize,
    mid: usize,
    hi: usize,
) -> (merged: Vec<usize>)
    requires
        ranks_range(candidates@, left@, lo as int, mid as int),
        ranks_range(candidates@, right@, mid as int, hi as int),
    ensures
        ranks_range(candidates@, merged@, lo as int, hi as int),
{
    let mut merged: Vec<usize> = Vec::new();
    let mut i: usize = 0;
    let mut j: usize = 0;
    while i < left.len() || j < right.len()
        invariant
            ranks_range(candidates@, left@, lo as int, mid as int),
            ranks_range(candidates@, right@, mid as int, hi as int),
            i <= left.len(),
            j <= right.len(),
            merged.len() == i + j,
            forall|k: int| 0 <= k < merged.len() ==> lo <= (#[trigger] merged@[k]) < hi,
            forall|k: int, l: int|
                0 <= k < l < merged.len() ==> ranks_before(
                    candidates@,
                    #[trigger] merged@[k] as int,
                    #[trigger] merged@[l] as int,
                ),
            forall|k: int, l: int|
                0 <= k < merged.len() && i <= l < left.len() ==> ranks_before(
                    candidates@,
                    #[trigger] merged@[k] as int,
                    #[trigger] left@[l] as int,
                ),
            forall|k: int, l: int|
                0 <= k < merged.len() && j <= l < right.len() ==> ranks_before(
                    candidates@,
                    #[trigger] merged@[k] as int,
                    #[trigger] right@[l] as int,
                ),
            forall|l: int| 0 <= l < i ==> merged@.contains(#[trigger] left@[l]),
            forall|l: int| 0 <= l < j ==> merged@.contains(#[trigger] right@[l]),
        decreases left.len() - i + right.len() - j,
    {
        let from_left = if i == left.len() {
            false
        } else if j == right.len() {
            true
        } else {
            precedes(candidates, left[i], right[j])
        };
        let ghost before = merged@;
        let next = if from_left {
            left[i]
        } else {
            right[j]
        };
        merged.push(next);
        proof {
            assert forall|l: int| 0 <= l < i implies merged@.contains(#[trigger] left@[l]) by {
                let k = choose|k: int| 0 <= k < before.len() && before[k] == left@[l];
                assert(merged@[k] == left@[l]);
            }
            assert forall|l: int| 0 <= l < j implies merged@.contains(#[trigger] right@[l]) by {
                let k = choose|k: int| 0 <= k < before.len() && before[k] == right@[l];
                assert(merged@[k] == right@[l]);
            }
            assert(merged@[before.len() as int] == next);
            if from_left {
                assert forall|k: int, l: int|
                    0 <= k < merged.len() && j <= l < right.len() implies ranks_before(
                    candidates@,
                    #[trigger] merged@[k] as int,
                    #[trigger] right@[l] as int,
                ) by {
                    if k == before.len() && l > j {
                        assert(ranks_before(candidates@, right@[j as int] as int, right@[l] as int));
                    }
                }
            } else {
                assert forall|k: int, l: int|
                    0 <= k < merged.len() && i <= l < left.len() implies ranks_before(
                    candidates@,
                    #[trigger] merged@[k] as int,
                    #[trigger] left@[l] as int,
                ) by {
                    if k == before.len() {
                        assert(left@[i as int] < mid && mid <= right@[j as int]);
                        if l > i {
                            assert(ranks_before(
                                candidates@,
                                left@[i as int] as int,
                                left@[l] as int,
                            ));
                        }
                    }
                }
            }
        }
        if from_left {
            i += 1;
        } else {
            j += 1;
        }
    }
    proof {
        assert forall|p: usize| lo <= p < hi implies #[trigger] merged@.contains(p) by {
            if p < mid {
                assert(left@.contains(p));
                let l = choose|l: int| 0 <= l < left@.len() && left@[l] == p;
                assert(merged@.contains(left@[l]));
            } else {
                assert(right@.contains(p));
                let l = choose|l: int| 0 <= l < right@.len() && right@[l] == p;
                assert(merged@.contains(right@[l]));
            }
        }
    }
    merged
}

/// The positions from `lo` up to `hi` in ranking order, by merge sort.
fn rank_range(candidates: &Vec<Candidate>, lo: usize, hi: usize) -> (ranking: Vec<usize>)
    requires
        lo <= hi <= candidates.len(),
    ensures
        ranks_range(candidates@, ranking@, lo as int, hi as int),
    decreases hi - lo,
{
    let mut ranking: Vec<usize> = Vec::new();
    if hi - lo == 0 {
        return ranking;
    }
    if hi - lo == 1 {
        ranking.push(lo);
        assert(ranking@[0] == lo);
        return ranking;
    }
    let mid = lo + (hi - lo) / 2;
    let left = rank_range(candidates, lo, mid);
    let right = rank_range(candidates, mid, hi);
    merge(candidates, &left, &right, lo, mid, hi)
}

/// The positions of the candidates in ranking order: ascending by distance,
/// ties broken by the lower vehicle identifier, then by the earlier position.
pub fn rank(candidates: &Vec<Candidate>) -> (ranking: Vec<usize>)
    ensures
        is_ranking(candidates@, ranking@),
{
    rank_range(candidates, 0, candidates.len())
}

/// The position of the best candidate, if there is a candidate and the best
/// one is no farther than `threshold`; otherwise no match.
pub fn select(candidates: &Vec<Candidate>, threshold: i32) -> (r: Option<usize>)
    ensures
        match r {
            Some(p) => is_best(candidates@, p as int) && candidates@[p as int].distance
                <= threshold,
            None => forall|q: int|
                0 <= q < candidates.len() ==> (#[trigger] candidates@[q]).distance > threshold,
        },
        r is None <==> forall|q: int|
            0 <= q < candidates.len() ==> (#[trigger] candidates@[q]).distance > threshold,
{
    let ranking = rank(candidates);
    if ranking.len() == 0 {
        return None;
    }
    let p = ranking[0];
    proof {
        lemma_first_is_best(candidates@, ranking@);
        best_is_nearest(candidates@, p as int);
    }
    if candidates[p].distance > threshold {
        None
    } else {
        Some(p)
    }
}

} // verus!
