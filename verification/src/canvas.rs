//! Editing the set of points on the canvas: picking the point under the
//! pointer, and thinning the set until no two points are close.
use vstd::prelude::*;
use crate::point::{Point, dist_sq, in_range, all_in_range, near};
use crate::pairs::{no_closer_pair, is_pair_of, is_closest_pair};
use crate::closest_pair::{closest_pair, search, x_sorted, Pair};
use crate::alg::copy_points;
use crate::visual::NoRecord;

verus! {

/// `f` lists, for each point of `a`, the position in `b` that it was kept
/// from, in increasing order.
pub open spec fn index_map(f: Seq<int>, a: Seq<Point>, b: Seq<Point>) -> bool {
    &&& f.len() == a.len()
    &&& forall|i: int| 0 <= i < a.len() ==> 0 <= #[trigger] f[i] < b.len() && a[i] == b[f[i]]
    &&& forall|i: int, j: int| 0 <= i < j < a.len() ==> #[trigger] f[i] < #[trigger] f[j]
}

/// `a` is `b` with some of its points left out, the others in their order.
pub open spec fn is_subsequence(a: Seq<Point>, b: Seq<Point>) -> bool {
    exists|f: Seq<int>| #[trigger] index_map(f, a, b)
}

/// Position of the first point of `points` strictly within `radius` of
/// `(x, y)`, if there is one.
pub fn first_within(points: &Vec<Point>, x: i64, y: i64, radius: u64) -> (r: Option<usize>)
    requires
        all_in_range(points@),
        in_range(Point { x, y }),
    ensures
        r is None <==> forall|i: int| 0 <= i < points@.len()
            ==> dist_sq(#[trigger] points@[i], Point { x, y }) >= radius * radius,
        r matches Some(i) ==> i < points@.len()
            && dist_sq(points@[i as int], Point { x, y }) < radius * radius
            && forall|j: int| 0 <= j < i ==> dist_sq(#[trigger] points@[j], Point { x, y }) >= radius * radius,
{
    let c = Point::new(x, y);
    assert(radius as u128 * radius as u128 <= u64::MAX as u128 * u64::MAX as u128) by (nonlinear_arith);
    let r2: u128 = radius as u128 * radius as u128;
    let n = points.len();
    let mut t: usize = 0;
    while t < n
        invariant
            n == points@.len(),
            t <= n,
            all_in_range(points@),
            c == (Point { x, y }),
            in_range(c),
            r2 == radius * radius,
            forall|j: int| 0 <= j < t ==> dist_sq(#[trigger] points@[j], Point { x, y }) >= radius * radius,
        decreases n - t,
    {
        assert(in_range(points@[t as int]));
        if points[t].squared_distance(&c) < r2 {
            return Some(t);
        }
        t = t + 1;
    }
    None
}

/// Position of the first point of `points` that is `==` to `p`.
fn position_of(points: &Vec<Point>, p: &Point) -> (r: usize)
    requires
        points@.contains(*p),
    ensures
        r < points@.len(),
        near(points@[r as int], *p),
        forall|j: int| 0 <= j < r ==> !near(#[trigger] points@[j], *p),
{
    let n = points.len();
    let mut t: usize = 0;
    while t < n
        invariant
            n == points@.len(),
            t <= n,
            points@.contains(*p),
            forall|j: int| 0 <= j < t ==> !near(#[trigger] points@[j], *p),
        decreases n - t,
    {
        if points[t] == *p {
            return t;
        }
        t = t + 1;
    }
    proof {
        let k = choose|k: int| 0 <= k < points@.len() && points@[k] == *p;
        assert(near(points@[k], *p));
    }
    assert(false);
    0
}

/// Removing one point keeps a subsequence a subsequence.
proof fn lemma_remove_keeps_subsequence(a: Seq<Point>, b: Seq<Point>, k: int)
    requires
        is_subsequence(a, b),
        0 <= k < a.len(),
    ensures
        is_subsequence(a.remove(k), b),
{
    let f = choose|f: Seq<int>| #[trigger] index_map(f, a, b);
    let g = f.remove(k);
    let a2 = a.remove(k);
    assert forall|i: int| 0 <= i < a2.len() implies 0 <= #[trigger] g[i] < b.len() && a2[i] == b[g[i]] by {
        if i < k {
            assert(g[i] == f[i]);
        } else {
            assert(g[i] == f[i + 1]);
        }
    }
    assert forall|i: int, j: int| 0 <= i < j < a2.len() implies #[trigger] g[i] < #[trigger] g[j] by {
        let fi = if i < k { i } else { i + 1 };
        let fj = if j < k { j } else { j + 1 };
        assert(g[i] == f[fi]);
        assert(g[j] == f[fj]);
        assert(f[fi] < f[fj]);
    }
    assert(index_map(g, a2, b));
}

/// One step of thinning `s` into `t`, through the closest pair `(a, b)` of
/// `s`, the very pair that the search reports: the pair is closer than
/// `threshold`, and `t` is `s` without its first point that is `==` to `a`,
/// at position `j`.
pub open spec fn step_through(s: Seq<Point>, t: Seq<Point>, threshold: u64, a: Point, b: Point, j: int) -> bool {
    &&& is_closest_pair(s, a, b)
    &&& search(x_sorted(s)).0 == Some(Pair(a, b))
    &&& dist_sq(a, b) < threshold * threshold
    &&& 0 <= j < s.len()
    &&& near(s[j], a)
    &&& forall|k: int| 0 <= k < j ==> !near(#[trigger] s[k], a)
    &&& t == s.remove(j)
}

/// One step of thinning `s` into `t`, through some closest pair of `s`.
pub open spec fn thinning_step(s: Seq<Point>, t: Seq<Point>, threshold: u64) -> bool {
    exists|a: Point, b: Point, j: int| #[trigger] step_through(s, t, threshold, a, b, j)
}

/// `chain` goes from `s` to `t` by `k` steps of thinning, one after the other.
pub open spec fn thinning_chain(chain: Seq<Seq<Point>>, s: Seq<Point>, t: Seq<Point>, threshold: u64, k: nat) -> bool {
    &&& chain.len() == k + 1
    &&& chain[0] == s
    &&& chain[k as int] == t
    &&& forall|i: int| 0 <= i < k ==> #[trigger] thinning_step(chain[i], chain[i + 1], threshold)
}

/// `t` comes from `s` by `k` steps of thinning, one after the other.
pub open spec fn thinned(s: Seq<Point>, t: Seq<Point>, threshold: u64, k: nat) -> bool {
    exists|chain: Seq<Seq<Point>>| #[trigger] thinning_chain(chain, s, t, threshold, k)
}

/// Removes, while two points are closer than `threshold`, the first point
/// that is `==` to the first point of the closest pair that the search
/// reports, and says how many points it removed. What is left has no
/// two points closer than `threshold`, and it is the set it started from
/// exactly when that set already had none.
pub fn interesting_distribution(points: &mut Vec<Point>, threshold: u64) -> (removed: usize)
    requires
        all_in_range(old(points)@),
    ensures
        all_in_range(final(points)@),
        final(points)@.len() + removed == old(points)@.len(),
        old(points)@.len() >= 1 ==> final(points)@.len() >= 1,
        is_subsequence(final(points)@, old(points)@),
        thinned(old(points)@, final(points)@, threshold, removed as nat),
        final(points)@.len() <= 1 || no_closer_pair(final(points)@, threshold * threshold),
        removed == 0 <==> (old(points)@.len() <= 1 || no_closer_pair(old(points)@, threshold * threshold)),
{
    let ghost p0 = points@;
    assert(threshold as u128 * threshold as u128 <= u64::MAX as u128 * u64::MAX as u128) by (nonlinear_arith);
    let t2: u128 = threshold as u128 * threshold as u128;
    let n0 = points.len();
    let mut cnt: usize = 0;
    let ghost mut chain: Seq<Seq<Point>> = seq![p0];
    proof {
        let f = Seq::new(p0.len(), |i: int| i);
        assert(index_map(f, p0, p0));
    }
    while points.len() > 1
        invariant
            all_in_range(points@),
            points@.len() + cnt == p0.len(),
            p0.len() >= 1 ==> points@.len() >= 1,
            n0 == p0.len(),
            is_subsequence(points@, p0),
            thinning_chain(chain, p0, points@, threshold, cnt as nat),
            t2 == threshold * threshold,
            cnt > 0 ==> p0.len() > 1 && !no_closer_pair(p0, threshold * threshold),
            cnt == 0 ==> points@ == p0,
        ensures
            points@.len() <= 1 || no_closer_pair(points@, threshold * threshold),
        decreases points@.len(),
    {
        let copy = copy_points(points);
        let result = closest_pair(copy, &mut NoRecord, false);
        let pair = match result {
            Ok(pair) => pair,
            Err(_) => {
                assert(false);
                break;
            },
        };
        proof {
            assert(in_range(pair.0)) by {
                let (i, j) = choose|i: int, j: int| 0 <= i < points@.len() && 0 <= j < points@.len() && i != j
                    && #[trigger] points@[i] == pair.0 && #[trigger] points@[j] == pair.1;
                assert(in_range(points@[i]));
            }
            let (i, j) = choose|i: int, j: int| 0 <= i < points@.len() && 0 <= j < points@.len() && i != j
                && #[trigger] points@[i] == pair.0 && #[trigger] points@[j] == pair.1;
            assert(in_range(points@[j]));
            assert(points@.contains(pair.0));
        }
        let d2 = pair.0.squared_distance(&pair.1);
        if d2 < t2 {
            proof {
                if cnt == 0 {
                    assert(is_pair_of(p0, pair.0, pair.1));
                    let (i, j) = choose|i: int, j: int| 0 <= i < p0.len() && 0 <= j < p0.len() && i != j
                        && #[trigger] p0[i] == pair.0 && #[trigger] p0[j] == pair.1;
                    assert(dist_sq(p0[i], p0[j]) < threshold * threshold);
                }
            }
            let idx = position_of(points, &pair.0);
            let ghost before = points@;
            points.remove(idx);
            proof {
                lemma_remove_keeps_subsequence(before, p0, idx as int);
                assert forall|i: int| 0 <= i < points@.len() implies #[trigger] in_range(points@[i]) by {
                    if i < idx {
                        assert(points@[i] == before[i]);
                    } else {
                        assert(points@[i] == before[i + 1]);
                    }
                }
            }
            proof {
                assert(step_through(before, points@, threshold, pair.0, pair.1, idx as int));
                assert(thinning_step(before, points@, threshold));
                let next = chain.push(points@);
                assert forall|i: int| 0 <= i < cnt + 1 implies #[trigger] thinning_step(next[i], next[i + 1], threshold) by {
                    if i < cnt {
                        assert(next[i] == chain[i] && next[i + 1] == chain[i + 1]);
                    }
                }
                chain = next;
            }
            cnt = cnt + 1;
        } else {
            proof {
                assert forall|i: int, j: int| 0 <= i < points@.len() && 0 <= j < points@.len() && i != j
                    implies dist_sq(#[trigger] points@[i], #[trigger] points@[j]) >= threshold * threshold by {
                    assert(dist_sq(points@[i], points@[j]) >= dist_sq(pair.0, pair.1));
                }
            }
            break;
        }
    }
    proof {
        assert(thinning_chain(chain, p0, points@, threshold, cnt as nat));
    }
    cnt
}

} // verus!
