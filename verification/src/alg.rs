//! Divide-and-conquer closest pair over owned vectors: each half is solved
//! recursively and hands back its points ordered by `y`; the two orders are
//! merged and the pairs that straddle the dividing line are searched in the
//! band around it.
use vstd::prelude::*;
use vstd::std_specs::convert::FromSpecImpl;
use crate::datatype::abs_int;
use crate::point::POINT_EPS;
use crate::text::{point_text, append_point};
use vstd::string::StringExecFns;
use crate::point::{Point, dist_sq, in_range, all_in_range, key, sorted_by_key, merge_halves, sort_x, stable_sorted, with_key, len_le_within, len_le_within_tolerance};
use crate::closest_pair::{Pair, scan_all, scan_from, too_far, search, x_sorted};
use crate::point::{merge_of, lemma_stable_sort_unique};
use crate::strip::{in_band, band_of, lemma_band_count, lemma_far_in_y, lemma_combine, collect_band};
use crate::pairs::{is_pair_of, no_closer_pair, is_closest_pair, pairable, no_closer_in, lemma_empty_multiset, lemma_pair_of_pairable, lemma_no_closer_multiset};

verus! {

broadcast use vstd::multiset::group_multiset_axioms;

/// Two points reported as a closest pair.
#[derive(Clone, Copy, Debug)]
pub struct ClosestPairResult {
    pub p1: Point,
    pub p2: Point,
}

/// The pair with its two points in the other order.
pub open spec fn swapped(r: ClosestPairResult) -> ClosestPairResult {
    ClosestPairResult { p1: r.p2, p2: r.p1 }
}

/// Swapping the points of a pair twice gives it back, and swapping keeps
/// its length.
pub proof fn lemma_swap_involution(r: ClosestPairResult)
    ensures
        swapped(swapped(r)) == r,
        pair_dsq(swapped(r)) == pair_dsq(r),
{
    crate::point::lemma_dist_sq_symmetric(r.p1, r.p2);
}

/// Squared length of the pair.
pub open spec fn pair_dsq(r: ClosestPairResult) -> int {
    dist_sq(r.p1, r.p2)
}

/// Both points of the pair lie within the coordinate limit.
pub open spec fn pair_in_range(r: ClosestPairResult) -> bool {
    in_range(r.p1) && in_range(r.p2)
}

/// The shorter of two optional pairs, the first one unless the second is
/// shorter by the tolerance or more.
pub open spec fn merge_spec(a: Option<ClosestPairResult>, b: Option<ClosestPairResult>) -> Option<ClosestPairResult> {
    match (a, b) {
        (None, _) => b,
        (_, None) => a,
        (Some(pa), Some(pb)) => if len_le_within(pair_dsq(pa), pair_dsq(pb)) { a } else { b },
    }
}

/// The shorter of two optional pairs; the first one on a tie.
pub open spec fn shorter_spec(a: Option<ClosestPairResult>, b: Option<ClosestPairResult>) -> Option<ClosestPairResult> {
    match (a, b) {
        (None, None) => None,
        (Some(_), None) => a,
        (None, Some(_)) => b,
        (Some(pa), Some(pb)) => if pair_dsq(pa) <= pair_dsq(pb) { a } else { b },
    }
}

impl ClosestPairResult {
    /// Squared distance between the two points.
    pub fn dist_sq(&self) -> (r: u128)
        requires
            pair_in_range(*self),
        ensures
            r == pair_dsq(*self),
    {
        self.p1.squared_distance(&self.p2)
    }

    /// Distance between the two points, rounded down.
    pub fn dist(&self) -> (r: u64)
        requires
            pair_in_range(*self),
        ensures
            crate::point::is_floor_sqrt(r as int, pair_dsq(*self)),
    {
        self.p1.distance(&self.p2)
    }

    /// The shorter of two optional pairs; lengths that differ by less than
    /// the tolerance count as equal, and then `a` is kept.
    pub fn merge(a: &Option<Self>, b: &Option<Self>) -> (r: Option<Self>)
        requires
            *a matches Some(pa) ==> pair_in_range(pa),
            *b matches Some(pb) ==> pair_in_range(pb),
        ensures
            r == merge_spec(*a, *b),
    {
        match (a, b) {
            (None, None) => None,
            (Some(_), None) => *a,
            (None, Some(_)) => *b,
            (Some(pa), Some(pb)) => {
                proof {
                    crate::point::lemma_dist_sq_bound(pb.p1, pb.p2);
                }
                if len_le_within_tolerance(pa.dist_sq(), pb.dist_sq()) {
                    *a
                } else {
                    *b
                }
            },
        }
    }

    /// The shorter of two optional pairs, keeping `a` when they are equally
    /// long. The search compares lengths exactly, so that the pair it finds
    /// is a closest one.
    fn shorter(a: &Option<Self>, b: &Option<Self>) -> (r: Option<Self>)
        requires
            *a matches Some(pa) ==> pair_in_range(pa),
            *b matches Some(pb) ==> pair_in_range(pb),
        ensures
            r == shorter_spec(*a, *b),
    {
        match (a, b) {
            (None, None) => None,
            (Some(_), None) => *a,
            (None, Some(_)) => *b,
            (Some(pa), Some(pb)) => {
                if pa.dist_sq() <= pb.dist_sq() {
                    *a
                } else {
                    *b
                }
            },
        }
    }

    /// The same pair with its points swapped.
    pub fn sym(&self) -> (r: Self)
        ensures
            r == swapped(*self),
    {
        Self { p1: self.p2, p2: self.p1 }
    }
}

/// The pair in the form that the in-place search gives it.
pub open spec fn as_pair(o: Option<ClosestPairResult>) -> Option<Pair> {
    match o {
        Some(r) => Some(Pair(r.p1, r.p2)),
        None => None,
    }
}

/// The pair at positions `a` and `b` of `s` is no shorter than `res`.
pub open spec fn covered(s: Seq<Point>, res: Option<ClosestPairResult>, a: int, b: int) -> bool {
    res matches Some(r) && dist_sq(s[a], s[b]) >= pair_dsq(r)
}

/// Searches the band, ordered by `y`, for a pair shorter than `start`: for
/// each point, the points above it are tried until one lies farther in `y`
/// than the band's half-width `d`.
fn scan_band(vips: &Vec<Point>, d: Option<u128>, start: Option<ClosestPairResult>) -> (res: Option<ClosestPairResult>)
    requires
        sorted_by_key(vips@, true),
        all_in_range(vips@),
        start matches Some(s) ==> pair_in_range(s) && (d matches Some(dd) && dd == pair_dsq(s)),
        start is None ==> d is None,
    ensures
        start matches Some(s) ==> res matches Some(r) && pair_dsq(r) <= pair_dsq(s),
        res matches Some(r) ==> pair_in_range(r) && (res == start || is_pair_of(vips@, r.p1, r.p2)),
        vips@.len() >= 2 ==> res is Some,
        vips@.len() < 2 ==> res == start,
        res matches Some(r) ==> no_closer_pair(vips@, pair_dsq(r)),
        as_pair(res) == scan_all(vips@, d, as_pair(start), 0),
{
    let ghost target = scan_all(vips@, d, as_pair(start), 0);
    let nv = vips.len();
    let mut res = start;
    let mut i: usize = 0;
    while i < nv
        invariant
            nv == vips@.len(),
            i <= nv,
            sorted_by_key(vips@, true),
            all_in_range(vips@),
            start matches Some(s) ==> pair_in_range(s) && (d matches Some(dd) && dd == pair_dsq(s)),
            start is None ==> d is None,
            start matches Some(s) ==> res matches Some(r) && pair_dsq(r) <= pair_dsq(s),
            res matches Some(r) ==> pair_in_range(r) && (res == start || is_pair_of(vips@, r.p1, r.p2)),
            nv < 2 ==> res == start,
            forall|a: int, b: int| 0 <= a < i && a < b < nv ==> #[trigger] covered(vips@, res, a, b),
            scan_all(vips@, d, as_pair(res), i as int) == target,
        decreases nv - i,
    {
        let mut j: usize = i + 1;
        assert(scan_all(vips@, d, as_pair(res), i as int)
            == scan_all(vips@, d, scan_from(vips@, d, as_pair(res), i as int, j as int), i + 1));
        while j < nv
            invariant
                nv == vips@.len(),
                i < nv,
                i + 1 <= j <= nv,
                sorted_by_key(vips@, true),
                all_in_range(vips@),
                start matches Some(s) ==> pair_in_range(s) && (d matches Some(dd) && dd == pair_dsq(s)),
                start is None ==> d is None,
                start matches Some(s) ==> res matches Some(r) && pair_dsq(r) <= pair_dsq(s),
                res matches Some(r) ==> pair_in_range(r) && (res == start || is_pair_of(vips@, r.p1, r.p2)),
                nv < 2 ==> res == start,
                forall|a: int, b: int| 0 <= a < i && a < b < nv ==> #[trigger] covered(vips@, res, a, b),
                forall|b: int| i < b < j ==> #[trigger] covered(vips@, res, i as int, b),
                scan_all(vips@, d, scan_from(vips@, d, as_pair(res), i as int, j as int), i + 1) == target,
            ensures
                start matches Some(s) ==> res matches Some(r) && pair_dsq(r) <= pair_dsq(s),
                res matches Some(r) ==> pair_in_range(r) && (res == start || is_pair_of(vips@, r.p1, r.p2)),
                nv < 2 ==> res == start,
                forall|a: int, b: int| 0 <= a < i && a < b < nv ==> #[trigger] covered(vips@, res, a, b),
                forall|b: int| i < b < nv ==> #[trigger] covered(vips@, res, i as int, b),
                scan_all(vips@, d, as_pair(res), i + 1) == target,
            decreases nv - j,
        {
            assert(in_range(vips@[i as int]) && in_range(vips@[j as int]));
            if let Some(dd) = d {
                let dy: i128 = vips[j].y as i128 - vips[i].y as i128;
                assert(key(vips@[i as int], true) <= key(vips@[j as int], true));
                assert(0 <= dy * dy <= 0x4000_0000_0000_0000_0000_0000_0000_0000) by (nonlinear_arith)
                    requires 0 <= dy <= 0x8000_0000_0000_0000;
                let sq: i128 = dy * dy;
                if (sq as u128) > dd {
                    proof {
                        assert(too_far(vips@, d, i as int, j as int));
                        assert(scan_from(vips@, d, as_pair(res), i as int, j as int) == as_pair(res));
                        assert forall|b: int| i < b < nv implies #[trigger] covered(vips@, res, i as int, b) by {
                            if b >= j {
                                assert(key(vips@[j as int], true) <= key(vips@[b], true));
                                lemma_far_in_y(vips@[i as int], vips@[j as int], vips@[b], dd as int);
                            }
                        }
                    }
                    break;
                }
            }
            let cand = Some(ClosestPairResult { p1: vips[i], p2: vips[j] });
            proof {
                assert(is_pair_of(vips@, vips@[i as int], vips@[j as int]));
            }
            let ghost prev = res;
            proof {
                assert(!too_far(vips@, d, i as int, j as int));
                assert(scan_from(vips@, d, as_pair(prev), i as int, j as int)
                    == scan_from(vips@, d, crate::closest_pair::shorter_spec(as_pair(prev), as_pair(cand)), i as int, j + 1));
            }
            res = ClosestPairResult::shorter(&res, &cand);
            proof {
                assert(as_pair(res) == crate::closest_pair::shorter_spec(as_pair(prev), as_pair(cand)));
            }
            proof {
                assert forall|a: int, b: int| 0 <= a < i && a < b < nv implies #[trigger] covered(vips@, res, a, b) by {
                    assert(covered(vips@, prev, a, b));
                }
                assert forall|b: int| i < b < j + 1 implies #[trigger] covered(vips@, res, i as int, b) by {
                    if b < j {
                        assert(covered(vips@, prev, i as int, b));
                    }
                }
            }
            j = j + 1;
        }
        i = i + 1;
    }
    proof {
        if nv >= 2 {
            assert(covered(vips@, res, 0, 1));
        }
        if let Some(r) = res {
            assert forall|a: int, b: int| 0 <= a < vips@.len() && 0 <= b < vips@.len() && a != b
                implies dist_sq(#[trigger] vips@[a], #[trigger] vips@[b]) >= pair_dsq(r) by {
                if b < a {
                    assert(covered(vips@, res, b, a));
                    crate::point::lemma_dist_sq_symmetric(vips@[a], vips@[b]);
                } else {
                    assert(covered(vips@, res, a, b));
                }
            }
        }
    }
    res
}

/// A pair held by a part of a multiset is held by the whole.
proof fn lemma_pairable_grow(small: vstd::multiset::Multiset<Point>, big: vstd::multiset::Multiset<Point>, a: Point, b: Point)
    requires
        pairable(small, a, b),
        small.count(a) <= big.count(a),
        small.count(b) <= big.count(b),
    ensures
        pairable(big, a, b),
{
}

/// With no width yet, the band keeps every point.
proof fn lemma_band_all(s: Seq<Point>, mid_x: i64)
    ensures
        band_of(s, mid_x, None) == s,
    decreases s.len(),
{
    reveal(Seq::filter);
    if s.len() > 0 {
        lemma_band_all(s.drop_last(), mid_x);
        assert(s.drop_last().push(s.last()) =~= s);
    }
}

/// The combining step of `closest_pair_rec`: the pair it returns is a
/// closest pair of its input.
pub proof fn lemma_rec_step(
    p0: Seq<Point>,
    left: Seq<Point>,
    right: Seq<Point>,
    mid_x: i64,
    merged: Seq<Point>,
    res_l: Option<ClosestPairResult>,
    res_r: Option<ClosestPairResult>,
    res: Option<ClosestPairResult>,
    d: Option<u128>,
    vips: Seq<Point>,
    best: Option<ClosestPairResult>,
)
    requires
        p0 == left + right,
        left.len() >= 1,
        right.len() >= 1,
        forall|t: int| 0 <= t < left.len() ==> (#[trigger] left[t]).x <= mid_x,
        forall|t: int| 0 <= t < right.len() ==> (#[trigger] right[t]).x >= mid_x,
        merged.to_multiset() == p0.to_multiset(),
        merged.len() == p0.len(),
        res_l is None <==> left.len() == 1,
        res_r is None <==> right.len() == 1,
        res_l matches Some(r) ==> pair_in_range(r) && is_closest_pair(left, r.p1, r.p2),
        res_r matches Some(r) ==> pair_in_range(r) && is_closest_pair(right, r.p1, r.p2),
        res == shorter_spec(res_l, res_r),
        res matches Some(r) ==> (d matches Some(dd) && dd == pair_dsq(r)),
        res is None ==> d is None,
        vips == band_of(merged, mid_x, d),
        res matches Some(s) ==> best matches Some(r) && pair_dsq(r) <= pair_dsq(s),
        best matches Some(r) ==> (best == res || is_pair_of(vips, r.p1, r.p2)),
        vips.len() >= 2 ==> best is Some,
        best matches Some(r) ==> no_closer_pair(vips, pair_dsq(r)),
    ensures
        best is Some,
        best matches Some(r) ==> is_closest_pair(p0, r.p1, r.p2),
{
    let m = p0.to_multiset();
    let ml = left.to_multiset();
    let mr = right.to_multiset();
    vstd::seq_lib::lemma_multiset_commutative(left, right);
    if res is None {
        lemma_band_all(merged, mid_x);
        assert(vips.len() >= 2);
    }
    let r = best.unwrap();
    let dr = pair_dsq(r);
    if let Some(dd) = d {
        assert forall|i: int, j: int| 0 <= i < left.len() && 0 <= j < left.len() && i != j
            implies dist_sq(#[trigger] left[i], #[trigger] left[j]) >= dd by {
            assert(res_l is Some);
        }
        assert forall|i: int, j: int| 0 <= i < right.len() && 0 <= j < right.len() && i != j
            implies dist_sq(#[trigger] right[i], #[trigger] right[j]) >= dd by {
            assert(res_r is Some);
        }
    }
    lemma_combine(left, right, mid_x, merged, d, dr);
    lemma_no_closer_multiset(merged, dr);
    lemma_no_closer_multiset(p0, dr);
    if best == res {
        if res == res_l {
            lemma_pair_of_pairable(left, r.p1, r.p2);
            lemma_pairable_grow(ml, m, r.p1, r.p2);
        } else {
            lemma_pair_of_pairable(right, r.p1, r.p2);
            lemma_pairable_grow(mr, m, r.p1, r.p2);
        }
    } else {
        lemma_pair_of_pairable(vips, r.p1, r.p2);
        lemma_band_count(merged, mid_x, d, r.p1);
        lemma_band_count(merged, mid_x, d, r.p2);
        lemma_pairable_grow(vips.to_multiset(), m, r.p1, r.p2);
    }
    lemma_pair_of_pairable(p0, r.p1, r.p2);
}

/// Copies of the points of `v`, for scratch space of the same length.
pub(crate) fn copy_points(v: &Vec<Point>) -> (r: Vec<Point>)
    ensures
        r@ == v@,
{
    let n = v.len();
    let mut r: Vec<Point> = Vec::with_capacity(n);
    let mut t: usize = 0;
    while t < n
        invariant
            n == v@.len(),
            t <= n,
            r@ == v@.subrange(0, t as int),
        decreases n - t,
    {
        r.push(v[t]);
        proof {
            assert(v@.subrange(0, t + 1) =~= v@.subrange(0, t as int).push(v@[t as int]));
        }
        t = t + 1;
    }
    assert(v@.subrange(0, n as int) =~= v@);
    r
}

/// Closest pair of `points`, which are ordered by `x`; also hands back the
/// same points ordered by `y`.
#[verifier::rlimit(100)]
#[verifier::spinoff_prover]
fn closest_pair_rec(points: Vec<Point>) -> (res: (Option<ClosestPairResult>, Vec<Point>))
    requires
        points@.len() >= 1,
        sorted_by_key(points@, false),
        all_in_range(points@),
    ensures
        res.1@.to_multiset() == points@.to_multiset(),
        res.1@.len() == points@.len(),
        sorted_by_key(res.1@, true),
        stable_sorted(points@, res.1@, true),
        as_pair(res.0) == search(points@).0,
        res.1@ == search(points@).1,
        all_in_range(res.1@),
        res.0 is None <==> points@.len() == 1,
        res.0 matches Some(r) ==> pair_in_range(r) && is_closest_pair(points@, r.p1, r.p2),
    decreases points@.len(),
{
    if points.len() == 1 {
        proof {
            assert(sorted_by_key(points@, true));
            reveal(search);
        }
        return (None, points);
    }
    let n = points.len();
    let mid = n / 2;
    let mid_x = points[mid - 1].x;
    let ghost p0 = points@;
    let ghost left = p0.subrange(0, mid as int);
    let ghost right = p0.subrange(mid as int, n as int);
    proof {
        assert(in_range(p0[mid - 1]));
        assert forall|t: int| 0 <= t < left.len() implies (#[trigger] left[t]).x <= mid_x by {
            assert(key(p0[t], false) <= key(p0[mid - 1], false));
        }
        assert forall|t: int| 0 <= t < right.len() implies (#[trigger] right[t]).x >= mid_x by {
            assert(key(p0[mid - 1], false) <= key(p0[mid + t], false));
        }
        assert forall|i: int, j: int| 0 <= i <= j < left.len() implies key(left[i], false) <= key(left[j], false) by {
            assert(key(p0[i], false) <= key(p0[j], false));
        }
        assert forall|i: int, j: int| 0 <= i <= j < right.len() implies key(right[i], false) <= key(right[j], false) by {
            assert(key(p0[mid + i], false) <= key(p0[mid + j], false));
        }
        assert forall|t: int| 0 <= t < left.len() implies #[trigger] in_range(left[t]) by {
            assert(in_range(p0[t]));
        }
        assert forall|t: int| 0 <= t < right.len() implies #[trigger] in_range(right[t]) by {
            assert(in_range(p0[mid + t]));
        }
    }
    let mut points = points;
    let points_r = points.split_off(mid);
    let points_l = points;
    let (res_l, points_l) = closest_pair_rec(points_l);
    let (res_r, points_r) = closest_pair_rec(points_r);
    let res = ClosestPairResult::shorter(&res_l, &res_r);

    let nl = points_l.len();
    let mut merged = points_l;
    let mut rest = points_r;
    let ghost yl = merged@;
    let ghost yr = rest@;
    merged.append(&mut rest);
    let mut aux = copy_points(&merged);
    proof {
        assert(merged@.subrange(0, nl as int) =~= yl);
        assert(merged@.subrange(nl as int, n as int) =~= yr);
    }
    merge_halves(merged.as_mut_slice(), aux.as_mut_slice(), nl, true);
    proof {
        vstd::seq_lib::lemma_multiset_commutative(yl, yr);
        vstd::seq_lib::lemma_multiset_commutative(left, right);
        assert(p0 =~= left + right);
        assert forall|c: int| #[trigger] with_key(merged@, true, c) == with_key(p0, true, c) by {
            assert(with_key(merged@, true, c) == with_key(yl + yr, true, c));
            Seq::filter_distributes_over_add(yl, yr, |p: Point| key(p, true) == c);
            Seq::filter_distributes_over_add(left, right, |p: Point| key(p, true) == c);
            assert(with_key(yl, true, c) == with_key(left, true, c));
            assert(with_key(yr, true, c) == with_key(right, true, c));
        }
        assert forall|t: int| 0 <= t < merged@.len() implies #[trigger] in_range(merged@[t]) by {
            vstd::seq_lib::to_multiset_contains(merged@, merged@[t]);
            vstd::seq_lib::to_multiset_contains(p0, merged@[t]);
            let u = choose|u: int| 0 <= u < p0.len() && p0[u] == merged@[t];
            assert(in_range(p0[u]));
        }
    }
    let d: Option<u128> = match res {
        Some(r) => Some(r.dist_sq()),
        None => None,
    };
    let vips = collect_band(merged.as_slice(), mid_x, d);
    let best = scan_band(&vips, d, res);
    proof {
        lemma_rec_step(p0, left, right, mid_x, merged@, res_l, res_r, res, d, vips@, best);
        assert(as_pair(best) == search(p0).0 && merged@ == search(p0).1) by {
            assert(merged@ == merge_of(yl, yr, true));
            assert(left == p0.subrange(0, mid as int));
            crate::closest_pair::lemma_search_step(p0, mid as int, as_pair(res_l), yl, as_pair(res_r), yr,
                as_pair(res), d, as_pair(best));
        }
    }
    (best, merged)
}

/// The `x` of two points agree within the tolerance, that is, they are equal.
pub open spec fn same_x(a: Point, b: Point) -> bool {
    abs_int(a.x - b.x) < POINT_EPS
}

/// Two different positions of `s` hold points with the same `x`, within the
/// tolerance.
pub open spec fn has_duplicate_x(s: Seq<Point>) -> bool {
    exists|i: int, j: int| 0 <= i < s.len() && 0 <= j < s.len() && i != j && same_x(#[trigger] s[i], #[trigger] s[j])
}

/// The text of the error for two points with the same `x`: each point as
/// `(x, y)` with two decimals per coordinate.
pub open spec fn duplicate_x_text(ax: i64, ay: i64, bx: i64, by: i64) -> Seq<char> {
    "Duplicate X coordinate: "@ + point_text(ax as int, ay as int) + " and "@ + point_text(bx as int, by as int)
}

/// The error for two points with the same `x`.
fn duplicate_x_message(a: &Point, b: &Point) -> (r: String)
    ensures
        r@ == duplicate_x_text(a.x, a.y, b.x, b.y),
{
    let mut s = String::new();
    s.append("Duplicate X coordinate: ");
    append_point(&mut s, a.x, a.y);
    s.append(" and ");
    append_point(&mut s, b.x, b.y);
    proof {
        assert(s@ =~= duplicate_x_text(a.x, a.y, b.x, b.y));
    }
    s
}

/// The first position at which two neighbours share their `x`.
fn first_duplicate_x(s: &Vec<Point>) -> (r: Option<usize>)
    ensures
        r matches Some(w) ==> w + 1 < s@.len() && same_x(s@[w as int], s@[w + 1])
            && forall|t: int| 0 <= t < w ==> !same_x(#[trigger] s@[t], s@[t + 1]),
        r is None ==> forall|t: int| 0 <= t && t + 1 < s@.len() ==> !same_x(#[trigger] s@[t], s@[t + 1]),
{
    let n = s.len();
    let mut w: usize = 0;
    while w < n && n - w > 1
        invariant
            n == s@.len(),
            w <= n,
            forall|t: int| 0 <= t < w ==> !same_x(#[trigger] s@[t], s@[t + 1]),
        decreases n - w,
    {
        if s[w].x == s[w + 1].x {
            return Some(w);
        }
        w = w + 1;
    }
    None
}

/// Closest pair of `points` by divide and conquer.  Two points with the same
/// `x`, within the tolerance, are refused: the error names the first two that are neighbours once
/// the points are sorted by `x`.
pub fn closest_pair(points: Vec<Point>) -> (r: Result<Option<ClosestPairResult>, String>)
    requires
        points@.len() >= 1,
        all_in_range(points@),
    ensures
        r is Err <==> has_duplicate_x(points@),
        r matches Err(msg) ==> exists|s: Seq<Point>, w: int|
            #![trigger stable_sorted(points@, s, false), s[w]]
            stable_sorted(points@, s, false) && 0 <= w && w + 1 < s.len() && same_x(s[w], s[w + 1])
                && (forall|t: int| 0 <= t < w ==> !same_x(#[trigger] s[t], s[t + 1]))
                && msg@ == duplicate_x_text(s[w].x, s[w].y, s[w + 1].x, s[w + 1].y),
        r matches Ok(res) ==> (res is None <==> points@.len() == 1),
        r matches Ok(res) ==> (res matches Some(p) ==> pair_in_range(p) && is_closest_pair(points@, p.p1, p.p2)),
        r matches Ok(res) ==> as_pair(res) == search(x_sorted(points@)).0,
{
    let ghost p0 = points@;
    let mut points = points;
    sort_x(points.as_mut_slice());
    let ghost s = points@;
    proof {
        assert forall|t: int| 0 <= t < s.len() implies #[trigger] in_range(s[t]) by {
            vstd::seq_lib::to_multiset_contains(s, s[t]);
            vstd::seq_lib::to_multiset_contains(p0, s[t]);
            let u = choose|u: int| 0 <= u < p0.len() && p0[u] == s[t];
            assert(in_range(p0[u]));
        }
    }
    let dup = first_duplicate_x(&points);
    if let Some(w) = dup {
        let n = points.len();
        assert(w + 1 < n);
        let next: usize = w + 1;
        let msg = duplicate_x_message(&points[w], &points[next]);
        proof {
            let a = s[w as int];
            let b = s[w + 1];
            assert(s[w as int] == a && s[w + 1] == b);
            assert(is_pair_of(s, a, b));
            lemma_pair_of_pairable(s, a, b);
            lemma_pair_of_pairable(p0, a, b);
            let (i, j) = choose|i: int, j: int|
                0 <= i < p0.len() && 0 <= j < p0.len() && i != j && #[trigger] p0[i] == a && #[trigger] p0[j] == b;
            assert(has_duplicate_x(p0));
        }
        return Err(msg);
    }
    proof {
        if has_duplicate_x(p0) {
            let (i, j) = choose|i: int, j: int|
                0 <= i < p0.len() && 0 <= j < p0.len() && i != j && same_x(#[trigger] p0[i], #[trigger] p0[j]);
            lemma_pair_of_pairable(p0, p0[i], p0[j]);
            lemma_pair_of_pairable(s, p0[i], p0[j]);
            let (a, b) = choose|a: int, b: int|
                0 <= a < s.len() && 0 <= b < s.len() && a != b && #[trigger] s[a] == p0[i] && #[trigger] s[b] == p0[j];
            if a < b {
                assert(!same_x(s[a], s[a + 1]));
                assert(key(s[a], false) <= key(s[a + 1], false));
                assert(key(s[a + 1], false) <= key(s[b], false));
            } else {
                assert(!same_x(s[b], s[b + 1]));
                assert(key(s[b], false) <= key(s[b + 1], false));
                assert(key(s[b + 1], false) <= key(s[a], false));
            }
        }
    }
    let (res, _) = closest_pair_rec(points);
    proof {
        lemma_stable_sort_unique(p0, s, x_sorted(p0), false);
        if let Some(p) = res {
            lemma_pair_of_pairable(s, p.p1, p.p2);
            lemma_pair_of_pairable(p0, p.p1, p.p2);
            lemma_no_closer_multiset(s, pair_dsq(p));
            lemma_no_closer_multiset(p0, pair_dsq(p));
        }
    }
    Ok(res)
}

impl From<ClosestPairResult> for (Point, Point) {
    fn from(r: ClosestPairResult) -> (t: (Point, Point)) {
        (r.p1, r.p2)
    }
}

impl FromSpecImpl<ClosestPairResult> for (Point, Point) {
    open spec fn obeys_from_spec() -> bool {
        true
    }

    open spec fn from_spec(r: ClosestPairResult) -> (Point, Point) {
        (r.p1, r.p2)
    }
}

} // verus!
