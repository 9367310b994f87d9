//! The band around the dividing line of the divide-and-conquer search: which
//! points it keeps, and why searching it finds every pair that straddles the line.
use vstd::prelude::*;
use crate::point::{Point, dist_sq, in_range, all_in_range, key, sorted_by_key};
use crate::pairs::{is_pair_of, no_closer_pair, pairable, no_closer_in, lemma_empty_multiset, lemma_pair_of_pairable, lemma_no_closer_multiset};

verus! {

broadcast use vstd::multiset::group_multiset_axioms;

/// `p` lies within the band around `mid_x` whose half-width has square `d`;
/// with no width yet every point lies in it.
pub open spec fn in_band(p: Point, mid_x: i64, d: Option<u128>) -> bool {
    match d {
        None => true,
        Some(dd) => (p.x - mid_x) * (p.x - mid_x) <= dd,
    }
}

/// The points of `s` inside the band, in their order.
pub open spec fn band_of(s: Seq<Point>, mid_x: i64, d: Option<u128>) -> Seq<Point> {
    s.filter(|p: Point| in_band(p, mid_x, d))
}

/// Each point inside the band is kept as often as it occurs, the others never.
pub proof fn lemma_band_count(s: Seq<Point>, mid_x: i64, d: Option<u128>, a: Point)
    ensures
        band_of(s, mid_x, d).to_multiset().count(a) == if in_band(a, mid_x, d) {
            s.to_multiset().count(a)
        } else {
            0
        },
    decreases s.len(),
{
    reveal(Seq::filter);
    if s.len() == 0 {
        lemma_empty_multiset(s);
        lemma_empty_multiset(band_of(s, mid_x, d));
    } else {
        let t = s.drop_last();
        let x = s.last();
        lemma_band_count(t, mid_x, d, a);
        assert(s =~= t.push(x));
        vstd::seq_lib::to_multiset_build(t, x);
        t.lemma_filter_push(x, |p: Point| in_band(p, mid_x, d));
        if in_band(x, mid_x, d) {
            vstd::seq_lib::to_multiset_build(band_of(t, mid_x, d), x);
        }
    }
}

/// Squares grow with a non-negative base.
pub proof fn lemma_square_le(u: int, v: int)
    requires
        0 <= u <= v,
    ensures
        u * u <= v * v,
{
    assert(u * u <= v * v) by (nonlinear_arith)
        requires
            0 <= u <= v,
    ;
}

/// A point beyond the band's reach in `y` is farther than the band's width.
pub proof fn lemma_far_in_y(a: Point, b: Point, c: Point, dd: int)
    requires
        a.y <= b.y <= c.y,
        (b.y - a.y) * (b.y - a.y) > dd,
    ensures
        dist_sq(a, c) > dd,
{
    lemma_square_le(b.y - a.y, c.y - a.y);
    assert((a.y - c.y) * (a.y - c.y) == (c.y - a.y) * (c.y - a.y)) by (nonlinear_arith);
    assert((a.x - c.x) * (a.x - c.x) >= 0) by (nonlinear_arith);
}

/// A point on the far side of the line is no nearer than the line.
proof fn lemma_across_line(a: Point, b: Point, mid_x: i64)
    requires
        a.x <= mid_x <= b.x,
    ensures
        (a.x - mid_x) * (a.x - mid_x) <= dist_sq(a, b),
        (b.x - mid_x) * (b.x - mid_x) <= dist_sq(a, b),
{
    lemma_square_le(mid_x - a.x, b.x - a.x);
    lemma_square_le(b.x - mid_x, b.x - a.x);
    assert((a.x - mid_x) * (a.x - mid_x) == (mid_x - a.x) * (mid_x - a.x)) by (nonlinear_arith);
    assert((a.x - b.x) * (a.x - b.x) == (b.x - a.x) * (b.x - a.x)) by (nonlinear_arith);
    assert((a.y - b.y) * (a.y - b.y) >= 0) by (nonlinear_arith);
}

/// A point held by `s` stands at some position of it.
proof fn lemma_member(s: Seq<Point>, a: Point) -> (i: int)
    requires
        s.to_multiset().count(a) >= 1,
    ensures
        0 <= i < s.len(),
        s[i] == a,
{
    vstd::seq_lib::to_multiset_contains(s, a);
    choose|i: int| 0 <= i < s.len() && s[i] == a
}

/// The combining step of the search: if neither half holds a pair closer
/// than `d`, and the band around the line holds no pair closer than `res`
/// (which is no longer than `d`), then the whole set holds none either.
pub proof fn lemma_combine(
    left: Seq<Point>,
    right: Seq<Point>,
    mid_x: i64,
    merged: Seq<Point>,
    d: Option<u128>,
    res: int,
)
    requires
        forall|t: int| 0 <= t < left.len() ==> (#[trigger] left[t]).x <= mid_x,
        forall|t: int| 0 <= t < right.len() ==> (#[trigger] right[t]).x >= mid_x,
        merged.to_multiset() == left.to_multiset().add(right.to_multiset()),
        d is None ==> left.len() <= 1 && right.len() <= 1,
        d matches Some(dd) ==> no_closer_pair(left, dd as int) && no_closer_pair(right, dd as int) && res <= dd,
        no_closer_pair(band_of(merged, mid_x, d), res),
    ensures
        no_closer_pair(merged, res),
{
    let ml = left.to_multiset();
    let mr = right.to_multiset();
    let m = merged.to_multiset();
    let band = band_of(merged, mid_x, d);
    let mv = band.to_multiset();
    lemma_no_closer_multiset(band, res);
    if let Some(dd) = d {
        lemma_no_closer_multiset(left, dd as int);
        lemma_no_closer_multiset(right, dd as int);
    }
    assert forall|a: Point, b: Point| #[trigger] pairable(m, a, b) implies dist_sq(a, b) >= res by {
        lemma_band_count(merged, mid_x, d, a);
        lemma_band_count(merged, mid_x, d, b);
        if pairable(ml, a, b) {
            lemma_pair_of_pairable(left, a, b);
        } else if pairable(mr, a, b) {
            lemma_pair_of_pairable(right, a, b);
        } else {
            let far = match d {
                Some(dd) => dist_sq(a, b) >= dd,
                None => false,
            };
            if !far {
                if a == b {
                    let i = lemma_member(left, a);
                    let j = lemma_member(right, a);
                    assert(left[i].x <= mid_x && right[j].x >= mid_x);
                    assert(a.x == mid_x);
                    assert((a.x - mid_x) * (a.x - mid_x) == 0) by (nonlinear_arith)
                        requires a.x == mid_x;
                    assert(in_band(a, mid_x, d));
                } else if ml.count(a) >= 1 && mr.count(b) >= 1 {
                    let i = lemma_member(left, a);
                    let j = lemma_member(right, b);
                    assert(left[i].x <= mid_x && right[j].x >= mid_x);
                    lemma_across_line(a, b, mid_x);
                    assert(in_band(a, mid_x, d) && in_band(b, mid_x, d));
                } else {
                    assert(mr.count(a) >= 1 && ml.count(b) >= 1);
                    let i = lemma_member(right, a);
                    let j = lemma_member(left, b);
                    assert(left[j].x <= mid_x && right[i].x >= mid_x);
                    lemma_across_line(b, a, mid_x);
                    crate::point::lemma_dist_sq_symmetric(a, b);
                    assert(in_band(a, mid_x, d) && in_band(b, mid_x, d));
                }
                assert(pairable(mv, a, b));
            }
        }
    }
    lemma_no_closer_multiset(merged, res);
}

/// The points of `points` inside the band, in their order.
pub fn collect_band(points: &[Point], mid_x: i64, d: Option<u128>) -> (r: Vec<Point>)
    requires
        all_in_range(points@),
        sorted_by_key(points@, true),
        in_range(Point { x: mid_x, y: 0 }),
    ensures
        r@ == band_of(points@, mid_x, d),
        sorted_by_key(r@, true),
        all_in_range(r@),
{
    let n = points.len();
    let mut r: Vec<Point> = Vec::new();
    let mut t: usize = 0;
    while t < n
        invariant
            n == points@.len(),
            t <= n,
            all_in_range(points@),
            sorted_by_key(points@, true),
            in_range(Point { x: mid_x, y: 0 }),
            r@ == band_of(points@.subrange(0, t as int), mid_x, d),
            sorted_by_key(r@, true),
            all_in_range(r@),
            t < n ==> forall|u: int| 0 <= u < r@.len() ==> (#[trigger] r@[u]).y <= points@[t as int].y,
        decreases n - t,
    {
        let p = points[t];
        proof {
            assert(points@.subrange(0, t + 1) =~= points@.subrange(0, t as int).push(p));
            points@.subrange(0, t as int).lemma_filter_push(p, |q: Point| in_band(q, mid_x, d));
            assert(in_range(p));
        }
        if band_member(&p, mid_x, d) {
            r.push(p);
        }
        proof {
            if t + 1 < n {
                assert(key(points@[t as int], true) <= key(points@[t + 1], true));
            }
            assert forall|i: int, j: int| 0 <= i <= j < r@.len() implies key(r@[i], true) <= key(r@[j], true) by {
                if j == r@.len() - 1 && i < j {
                    assert(r@[i].y <= points@[t as int].y);
                }
            }
        }
        t = t + 1;
    }
    assert(points@.subrange(0, n as int) =~= points@);
    r
}

/// Whether `p` lies inside the band.
pub fn band_member(p: &Point, mid_x: i64, d: Option<u128>) -> (r: bool)
    requires
        in_range(*p),
        in_range(Point { x: mid_x, y: 0 }),
    ensures
        r == in_band(*p, mid_x, d),
{
    match d {
        None => true,
        Some(dd) => {
            let dx: i128 = p.x as i128 - mid_x as i128;
            assert(0 <= dx * dx <= 0x4000_0000_0000_0000_0000_0000_0000_0000) by (nonlinear_arith)
                requires -0x8000_0000_0000_0000 <= dx <= 0x8000_0000_0000_0000;
            let sq: i128 = dx * dx;
            (sq as u128) <= dd
        },
    }
}

} // verus!
