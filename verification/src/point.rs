//! Points of the plane, their distances, and the stable sorts by one
//! coordinate.  A coordinate is a whole number of 10^-9 units: the unit is
//! the tolerance `EPS_F64` within which two `f64` coordinates count as
//! equal, so coordinates that agree within the tolerance are the same
//! number, and comparing them within the tolerance is comparing them.
use vstd::prelude::*;
use vstd::std_specs::cmp::PartialEqSpecImpl;
use crate::datatype::abs_int;

verus! {

/// The tolerance of a coordinate, 10^-9, in its units.
pub const POINT_EPS: i64 = 1;

/// Largest magnitude of a coordinate for which squared distances fit in a `u128`.
pub const COORD_LIMIT: i64 = 0x4000_0000_0000_0000;

/// A point of the plane, its coordinates in units of 10^-9.
#[derive(Clone, Copy, Debug)]
pub struct Point {
    pub x: i64,
    pub y: i64,
}

/// Both coordinates lie within `COORD_LIMIT`.
pub open spec fn in_range(p: Point) -> bool {
    -COORD_LIMIT <= p.x <= COORD_LIMIT && -COORD_LIMIT <= p.y <= COORD_LIMIT
}

/// Every point of the sequence lies within `COORD_LIMIT`.
pub open spec fn all_in_range(s: Seq<Point>) -> bool {
    forall|i: int| 0 <= i < s.len() ==> #[trigger] in_range(s[i])
}

/// Square of the Euclidean distance between two points.
pub open spec fn dist_sq(p: Point, q: Point) -> int {
    (p.x - q.x) * (p.x - q.x) + (p.y - q.y) * (p.y - q.y)
}

/// The coordinate that a sort orders by: `y` when `by_y`, else `x`.
pub open spec fn key(p: Point, by_y: bool) -> int {
    if by_y { p.y as int } else { p.x as int }
}

/// The sequence is ordered by the chosen coordinate.
pub open spec fn sorted_by_key(s: Seq<Point>, by_y: bool) -> bool {
    forall|i: int, j: int| 0 <= i <= j < s.len() ==> key(s[i], by_y) <= key(s[j], by_y)
}

/// The points of the sequence whose chosen coordinate equals `c`, in order.
pub open spec fn with_key(s: Seq<Point>, by_y: bool, c: int) -> Seq<Point> {
    s.filter(|p: Point| key(p, by_y) == c)
}

/// `out` is the stable sort of `inp` by the chosen coordinate: it is ordered,
/// holds the same points, and the points that share a coordinate value keep
/// their relative order.
pub open spec fn stable_sorted(inp: Seq<Point>, out: Seq<Point>, by_y: bool) -> bool {
    &&& sorted_by_key(out, by_y)
    &&& out.to_multiset() == inp.to_multiset()
    &&& forall|c: int| #[trigger] with_key(out, by_y, c) == with_key(inp, by_y, c)
}

/// Both coordinates agree within the tolerance, that is, they are equal.
pub open spec fn near(p: Point, q: Point) -> bool {
    abs_int(p.x - q.x) < POINT_EPS && abs_int(p.y - q.y) < POINT_EPS
}

/// Largest integer whose square is at most `n`.
pub open spec fn is_floor_sqrt(r: int, n: int) -> bool {
    0 <= r && r * r <= n < (r + 1) * (r + 1)
}

/// The squared distance does not depend on the order of the points.
pub proof fn lemma_dist_sq_symmetric(p: Point, q: Point)
    ensures
        dist_sq(p, q) == dist_sq(q, p),
        dist_sq(p, q) >= 0,
        dist_sq(p, p) == 0,
{
    assert((p.x - q.x) * (p.x - q.x) == (q.x - p.x) * (q.x - p.x)) by (nonlinear_arith);
    assert((p.y - q.y) * (p.y - q.y) == (q.y - p.y) * (q.y - p.y)) by (nonlinear_arith);
    assert((p.x - q.x) * (p.x - q.x) >= 0) by (nonlinear_arith);
    assert((p.y - q.y) * (p.y - q.y) >= 0) by (nonlinear_arith);
}

/// `==` on points is reflexive and symmetric.
pub proof fn lemma_near_reflexive_symmetric(p: Point, q: Point)
    ensures
        near(p, p),
        near(p, q) == near(q, p),
{
}

/// A number has one floor square root.
pub proof fn lemma_floor_sqrt_unique(a: int, b: int, n: int)
    requires
        is_floor_sqrt(a, n),
        is_floor_sqrt(b, n),
    ensures
        a == b,
{
    if a < b {
        assert((a + 1) * (a + 1) <= b * b) by (nonlinear_arith)
            requires
                0 <= a,
                a + 1 <= b,
        ;
    } else if b < a {
        assert((b + 1) * (b + 1) <= a * a) by (nonlinear_arith)
            requires
                0 <= b,
                b + 1 <= a,
        ;
    }
}

/// The distance between two points, rounded down, is the same both ways,
/// and it is 0 from a point to itself.
pub proof fn lemma_distance_symmetric(p: Point, q: Point, r1: int, r2: int, r0: int)
    requires
        is_floor_sqrt(r1, dist_sq(p, q)),
        is_floor_sqrt(r2, dist_sq(q, p)),
        is_floor_sqrt(r0, dist_sq(p, p)),
    ensures
        r1 == r2,
        r0 == 0,
{
    lemma_dist_sq_symmetric(p, q);
    lemma_floor_sqrt_unique(r1, r2, dist_sq(p, q));
    assert(r0 * r0 <= 0);
    assert(r0 * r0 >= r0) by (nonlinear_arith)
        requires
            r0 >= 0,
            r0 * r0 <= 0,
    ;
}

proof fn lemma_square_bound(d: int)
    requires
        -0x8000_0000_0000_0000 <= d <= 0x8000_0000_0000_0000,
    ensures
        0 <= d * d <= 0x4000_0000_0000_0000_0000_0000_0000_0000,
{
    assert(0 <= d * d <= 0x4000_0000_0000_0000_0000_0000_0000_0000) by (nonlinear_arith)
        requires
            -0x8000_0000_0000_0000 <= d <= 0x8000_0000_0000_0000,
    ;
}

impl Point {
    /// Whether both coordinates lie within `COORD_LIMIT`.
    pub fn is_in_range(&self) -> (r: bool)
        ensures
            r == in_range(*self),
    {
        -COORD_LIMIT <= self.x && self.x <= COORD_LIMIT && -COORD_LIMIT <= self.y && self.y <= COORD_LIMIT
    }

    /// The point with coordinates `x` and `y`.
    pub fn new(x: i64, y: i64) -> (r: Self)
        ensures
            r.x == x,
            r.y == y,
    {
        Self { x, y }
    }

    /// Square of the distance to `other`, exact.
    pub fn squared_distance(&self, other: &Point) -> (r: u128)
        requires
            in_range(*self),
            in_range(*other),
        ensures
            r == dist_sq(*self, *other),
    {
        let dx: i128 = self.x as i128 - other.x as i128;
        let dy: i128 = self.y as i128 - other.y as i128;
        proof {
            lemma_square_bound(dx as int);
            lemma_square_bound(dy as int);
        }
        let sx: i128 = dx * dx;
        let sy: i128 = dy * dy;
        sx as u128 + sy as u128
    }

    /// Distance to `other`, rounded down to an integer.
    pub fn distance(&self, other: &Point) -> (r: u64)
        requires
            in_range(*self),
            in_range(*other),
        ensures
            is_floor_sqrt(r as int, dist_sq(*self, *other)),
    {
        floor_sqrt(self.squared_distance(other))
    }
}

impl PartialEq for Point {
    fn eq(&self, other: &Self) -> (r: bool) {
        self.x == other.x && self.y == other.y
    }
}

impl PartialEqSpecImpl for Point {
    open spec fn obeys_eq_spec() -> bool {
        true
    }

    open spec fn eq_spec(&self, other: &Self) -> bool {
        near(*self, *other)
    }
}

impl Eq for Point {
}

/// `(p.c - q.c)^2` for one coordinate pair, for any two `i64` values.
fn coord_square(a: i64, b: i64) -> (r: u128)
    ensures
        r == (a - b) * (a - b),
{
    let d: i128 = a as i128 - b as i128;
    let u: u128 = if d < 0 { (-d) as u128 } else { d as u128 };
    assert(u * u <= 0xffff_ffff_ffff_ffff_ffff_ffff_ffff_ffff) by (nonlinear_arith)
        requires u <= 0xffff_ffff_ffff_ffff;
    assert(u * u == (a - b) * (a - b)) by (nonlinear_arith)
        requires u == d || u == -d, d == a - b;
    u * u
}

/// Whether `dist_sq(a1, a2) <= dist_sq(b1, b2)`, exactly, for any points.
pub fn dist_sq_le(a1: &Point, a2: &Point, b1: &Point, b2: &Point) -> (r: bool)
    ensures
        r == (dist_sq(*a1, *a2) <= dist_sq(*b1, *b2)),
{
    let ax = coord_square(a1.x, a2.x);
    let ay = coord_square(a1.y, a2.y);
    let bx = coord_square(b1.x, b2.x);
    let by = coord_square(b1.y, b2.y);
    match (ax.checked_add(ay), bx.checked_add(by)) {
        (Some(sa), Some(sb)) => sa <= sb,
        (None, Some(_)) => false,
        (Some(_), None) => true,
        (None, None) => {
            let ea = ax - (u128::MAX - ay) - 1;
            let eb = bx - (u128::MAX - by) - 1;
            ea <= eb
        },
    }
}

/// Largest `r` with `r * r <= n`.
pub fn floor_sqrt(n: u128) -> (r: u64)
    ensures
        is_floor_sqrt(r as int, n as int),
{
    let mut lo: u128 = 0;
    let mut hi: u128 = 0x1_0000_0000_0000_0000;
    assert(hi * hi == 0x1_0000_0000_0000_0000_0000_0000_0000_0000) by (nonlinear_arith)
        requires hi == 0x1_0000_0000_0000_0000;
    while lo + 1 < hi
        invariant
            lo < hi <= 0x1_0000_0000_0000_0000,
            lo * lo <= n,
            n < hi * hi,
        decreases hi - lo,
    {
        let mid: u128 = lo + (hi - lo) / 2;
        assert(mid * mid <= 0xffff_ffff_ffff_ffff_ffff_ffff_ffff_ffff) by (nonlinear_arith)
            requires mid < 0x1_0000_0000_0000_0000;
        if mid * mid <= n {
            lo = mid;
        } else {
            hi = mid;
        }
    }
    assert(lo + 1 == hi);
    lo as u64
}

/// The length whose square is `a` is at most the length whose square is
/// `b`, or exceeds it by less than the tolerance of one unit:
/// `sqrt(a) < sqrt(b) + 1`, written without roots.
pub open spec fn len_le_within(a: int, b: int) -> bool {
    a <= b || (a - b - 1) * (a - b - 1) < 4 * b
}

/// Whether the length whose square is `a` is at most the length whose square
/// is `b`, up to the tolerance (see `len_le_within`).
pub fn len_le_within_tolerance(a: u128, b: u128) -> (r: bool)
    requires
        b <= 0x8000_0000_0000_0000_0000_0000_0000_0000,
    ensures
        r == len_le_within(a as int, b as int),
{
    if a <= b {
        return true;
    }
    let k: u128 = a - b - 1;
    let s: u64 = floor_sqrt(b);
    let s2: u128 = s as u128;
    proof {
        assert(s2 < 0xb505_0000_0000_0000) by (nonlinear_arith)
            requires
                s2 * s2 <= b,
                b <= 0x8000_0000_0000_0000_0000_0000_0000_0000,
                s2 >= 0;
        lemma_within_cases(k as int, s2 as int, b as int);
    }
    if k < 2 * s2 {
        true
    } else if k == 2 * s2 {
        s2 * s2 < b
    } else if k == 2 * s2 + 1 {
        s2 * s2 + s2 < b
    } else {
        false
    }
}

/// Two points within the limits are at most `2^127` apart, squared.
pub proof fn lemma_dist_sq_bound(p: Point, q: Point)
    requires
        in_range(p),
        in_range(q),
    ensures
        0 <= dist_sq(p, q) <= 0x8000_0000_0000_0000_0000_0000_0000_0000,
{
    let dx = p.x - q.x;
    let dy = p.y - q.y;
    assert(0 <= dx * dx <= 0x4000_0000_0000_0000_0000_0000_0000_0000) by (nonlinear_arith)
        requires -0x8000_0000_0000_0000 <= dx <= 0x8000_0000_0000_0000;
    assert(0 <= dy * dy <= 0x4000_0000_0000_0000_0000_0000_0000_0000) by (nonlinear_arith)
        requires -0x8000_0000_0000_0000 <= dy <= 0x8000_0000_0000_0000;
}

/// How `k * k < 4 * b` reads in terms of the floor square root `s` of `b`.
proof fn lemma_within_cases(k: int, s: int, b: int)
    requires
        k >= 0,
        is_floor_sqrt(s, b),
    ensures
        k < 2 * s ==> k * k < 4 * b,
        k == 2 * s ==> (k * k < 4 * b <==> s * s < b),
        k == 2 * s + 1 ==> (k * k < 4 * b <==> s * s + s < b),
        k >= 2 * s + 2 ==> k * k >= 4 * b,
{
    if k < 2 * s {
        assert(k * k < 4 * b) by (nonlinear_arith)
            requires 0 <= k < 2 * s, s * s <= b;
    }
    if k == 2 * s {
        assert(k * k == 4 * (s * s)) by (nonlinear_arith)
            requires k == 2 * s;
    }
    if k == 2 * s + 1 {
        assert(k * k == 4 * (s * s + s) + 1) by (nonlinear_arith)
            requires k == 2 * s + 1;
    }
    if k >= 2 * s + 2 {
        assert(k * k >= 4 * b) by (nonlinear_arith)
            requires k >= 2 * s + 2, b < (s + 1) * (s + 1), s >= 0;
    }
}

/// No point of `s` has chosen coordinate `c`, so none is kept for `c`.
proof fn lemma_with_key_none(s: Seq<Point>, by_y: bool, c: int)
    requires
        forall|t: int| 0 <= t < s.len() ==> key(#[trigger] s[t], by_y) != c,
    ensures
        with_key(s, by_y, c) == Seq::<Point>::empty(),
    decreases s.len(),
{
    reveal(Seq::filter);
    if s.len() > 0 {
        lemma_with_key_none(s.drop_last(), by_y, c);
    }
}

/// Appending a point extends exactly the selection for its own coordinate.
proof fn lemma_with_key_push(s: Seq<Point>, p: Point, by_y: bool, c: int)
    ensures
        with_key(s.push(p), by_y, c) == if key(p, by_y) == c {
            with_key(s, by_y, c).push(p)
        } else {
            with_key(s, by_y, c)
        },
{
    s.lemma_filter_push(p, |q: Point| key(q, by_y) == c);
}

/// A point of `s` with coordinate `c` is among the selection for `c`.
proof fn lemma_with_key_has(s: Seq<Point>, by_y: bool, t: int)
    requires
        0 <= t < s.len(),
    ensures
        with_key(s, by_y, key(s[t], by_y)).len() > 0,
{
    let c = key(s[t], by_y);
    s.lemma_filter_contains(|q: Point| key(q, by_y) == c, t);
}

/// Two ordered sequences with the same points for every coordinate value,
/// in the same order, are the same sequence.
proof fn lemma_sorted_unique(a: Seq<Point>, b: Seq<Point>, by_y: bool)
    requires
        sorted_by_key(a, by_y),
        sorted_by_key(b, by_y),
        forall|c: int| #[trigger] with_key(a, by_y, c) == with_key(b, by_y, c),
    ensures
        a == b,
    decreases a.len(),
{
    if a.len() == 0 || b.len() == 0 {
        if b.len() > 0 {
            lemma_with_key_has(b, by_y, b.len() - 1);
            assert(with_key(b, by_y, key(b.last(), by_y)) == with_key(a, by_y, key(b.last(), by_y)));
            assert(a =~= Seq::<Point>::empty());
            lemma_with_key_none(a, by_y, key(b.last(), by_y));
        }
        if a.len() > 0 {
            lemma_with_key_has(a, by_y, a.len() - 1);
            assert(with_key(a, by_y, key(a.last(), by_y)) == with_key(b, by_y, key(a.last(), by_y)));
            assert(b =~= Seq::<Point>::empty());
            lemma_with_key_none(b, by_y, key(a.last(), by_y));
        }
        assert(a =~= b);
    } else {
        let x = a.last();
        let y = b.last();
        let a1 = a.drop_last();
        let b1 = b.drop_last();
        assert(a =~= a1.push(x));
        assert(b =~= b1.push(y));
        let ka = key(x, by_y);
        let kb = key(y, by_y);
        // the largest coordinates agree
        if ka < kb {
            assert forall|t: int| 0 <= t < a.len() implies key(#[trigger] a[t], by_y) != kb by {
                assert(key(a[t], by_y) <= key(a[a.len() - 1], by_y));
            }
            lemma_with_key_none(a, by_y, kb);
            lemma_with_key_has(b, by_y, b.len() - 1);
            assert(with_key(a, by_y, kb) == with_key(b, by_y, kb));
        }
        if kb < ka {
            assert forall|t: int| 0 <= t < b.len() implies key(#[trigger] b[t], by_y) != ka by {
                assert(key(b[t], by_y) <= key(b[b.len() - 1], by_y));
            }
            lemma_with_key_none(b, by_y, ka);
            lemma_with_key_has(a, by_y, a.len() - 1);
            assert(with_key(a, by_y, ka) == with_key(b, by_y, ka));
        }
        assert(ka == kb);
        lemma_with_key_push(a1, x, by_y, ka);
        lemma_with_key_push(b1, y, by_y, ka);
        assert(with_key(a, by_y, ka) == with_key(b, by_y, ka));
        assert(with_key(a1, by_y, ka).push(x) == with_key(b1, by_y, ka).push(y));
        assert(x == with_key(a1, by_y, ka).push(x).last());
        assert(x == y);
        assert(with_key(a1, by_y, ka) =~= with_key(a1, by_y, ka).push(x).drop_last());
        assert(with_key(b1, by_y, ka) =~= with_key(b1, by_y, ka).push(y).drop_last());
        assert forall|c: int| #[trigger] with_key(a1, by_y, c) == with_key(b1, by_y, c) by {
            lemma_with_key_push(a1, x, by_y, c);
            lemma_with_key_push(b1, y, by_y, c);
            assert(with_key(a, by_y, c) == with_key(b, by_y, c));
        }
        assert forall|i: int, j: int| 0 <= i <= j < a1.len() implies key(a1[i], by_y) <= key(a1[j], by_y) by {
            assert(a1[i] == a[i] && a1[j] == a[j]);
        }
        assert forall|i: int, j: int| 0 <= i <= j < b1.len() implies key(b1[i], by_y) <= key(b1[j], by_y) by {
            assert(b1[i] == b[i] && b1[j] == b[j]);
        }
        lemma_sorted_unique(a1, b1, by_y);
    }
}

/// A stable sort has one result: two stable sorts of the same points by
/// the same coordinate are equal.
pub proof fn lemma_stable_sort_unique(inp: Seq<Point>, a: Seq<Point>, b: Seq<Point>, by_y: bool)
    requires
        stable_sorted(inp, a, by_y),
        stable_sorted(inp, b, by_y),
    ensures
        a == b,
{
    assert forall|c: int| #[trigger] with_key(a, by_y, c) == with_key(b, by_y, c) by {
        assert(with_key(a, by_y, c) == with_key(inp, by_y, c));
        assert(with_key(b, by_y, c) == with_key(inp, by_y, c));
    }
    lemma_sorted_unique(a, b, by_y);
}

/// Selection by coordinate distributes over concatenation.
proof fn lemma_with_key_add(a: Seq<Point>, b: Seq<Point>, by_y: bool, c: int)
    ensures
        with_key(a + b, by_y, c) == with_key(a, by_y, c) + with_key(b, by_y, c),
{
    Seq::filter_distributes_over_add(a, b, |q: Point| key(q, by_y) == c);
}

/// The empty sequence holds no point.
proof fn lemma_empty_to_multiset(s: Seq<Point>)
    requires
        s.len() == 0,
    ensures
        s.to_multiset() == vstd::multiset::Multiset::<Point>::empty(),
{
    vstd::seq_lib::to_multiset_len(s);
    vstd::multiset::lemma_multiset_empty_len(s.to_multiset());
}

/// Appending a point no smaller than the last keeps a sequence ordered.
proof fn lemma_sorted_push(s: Seq<Point>, p: Point, by_y: bool)
    requires
        sorted_by_key(s, by_y),
        s.len() > 0 ==> key(s.last(), by_y) <= key(p, by_y),
    ensures
        sorted_by_key(s.push(p), by_y),
{
    let t = s.push(p);
    assert forall|i: int, j: int| 0 <= i <= j < t.len() implies key(t[i], by_y) <= key(t[j], by_y) by {
        if j == s.len() && i < j {
            assert(key(s[i], by_y) <= key(s[s.len() - 1], by_y));
        }
    }
}

/// The merge of `l` and `r`: the smaller first point of the two goes first,
/// the one of `l` on equal coordinates, until one runs out.
pub open spec fn merge_of(l: Seq<Point>, r: Seq<Point>, by_y: bool) -> Seq<Point>
    decreases l.len() + r.len(),
{
    if l.len() == 0 {
        r
    } else if r.len() == 0 {
        l
    } else if key(l[0], by_y) <= key(r[0], by_y) {
        seq![l[0]] + merge_of(l.drop_first(), r, by_y)
    } else {
        seq![r[0]] + merge_of(l, r.drop_first(), by_y)
    }
}

/// The merge takes the first point of `l` when it is not after that of `r`.
proof fn lemma_merge_of_left(l: Seq<Point>, r: Seq<Point>, by_y: bool)
    requires
        l.len() > 0,
        r.len() == 0 || key(l[0], by_y) <= key(r[0], by_y),
    ensures
        merge_of(l, r, by_y) == seq![l[0]] + merge_of(l.drop_first(), r, by_y),
{
    if r.len() == 0 {
        assert(merge_of(l.drop_first(), r, by_y) == l.drop_first());
        assert(l =~= seq![l[0]] + l.drop_first());
    }
}

/// The merge takes the first point of `r` when `l` is empty or its first
/// point comes after.
proof fn lemma_merge_of_right(l: Seq<Point>, r: Seq<Point>, by_y: bool)
    requires
        r.len() > 0,
        l.len() == 0 || key(l[0], by_y) > key(r[0], by_y),
    ensures
        merge_of(l, r, by_y) == seq![r[0]] + merge_of(l, r.drop_first(), by_y),
{
    if l.len() == 0 {
        assert(merge_of(l, r.drop_first(), by_y) == r.drop_first());
        assert(r =~= seq![r[0]] + r.drop_first());
    }
}

/// Merges the halves `data[..mid]` and `data[mid..]` through `aux`, which
/// ends up holding the result too; on equal coordinates the point of the
/// left half comes first. When both halves are ordered, so is the result.
#[verifier::rlimit(100)]
#[verifier::spinoff_prover]
pub fn merge_halves(data: &mut [Point], aux: &mut [Point], mid: usize, by_y: bool)
    requires
        old(aux)@.len() == old(data)@.len(),
        mid <= old(data)@.len(),
    ensures
        final(aux)@.len() == old(aux)@.len(),
        final(data)@.len() == old(data)@.len(),
        final(aux)@ == final(data)@,
        final(data)@ == merge_of(old(data)@.subrange(0, mid as int),
            old(data)@.subrange(mid as int, old(data)@.len() as int), by_y),
        sorted_by_key(old(data)@.subrange(0, mid as int), by_y)
            && sorted_by_key(old(data)@.subrange(mid as int, old(data)@.len() as int), by_y)
            ==> stable_sorted(old(data)@, final(data)@, by_y),
{
    let n = data.len();
    let ghost d0 = data@;
    let ghost left = d0.subrange(0, mid as int);
    let ghost right = d0.subrange(mid as int, n as int);
    let ghost hs = sorted_by_key(left, by_y) && sorted_by_key(right, by_y);
    let mut i: usize = 0;
    let mut j: usize = mid;
    let mut k: usize = 0;
    proof {
        lemma_empty_to_multiset(aux@.subrange(0, 0));
        lemma_empty_to_multiset(d0.subrange(0, 0));
        lemma_empty_to_multiset(d0.subrange(mid as int, mid as int));
        assert(d0.subrange(0, 0).to_multiset().add(d0.subrange(mid as int, mid as int).to_multiset())
            =~= vstd::multiset::Multiset::empty());
        assert forall|c: int| #[trigger] with_key(aux@.subrange(0, 0), by_y, c) == with_key(
                d0.subrange(0, 0), by_y, c) + with_key(d0.subrange(mid as int, mid as int), by_y, c) by {
            reveal(Seq::filter);
            assert(aux@.subrange(0, 0) =~= Seq::<Point>::empty());
            assert(d0.subrange(0, 0) =~= Seq::<Point>::empty());
            assert(d0.subrange(mid as int, mid as int) =~= Seq::<Point>::empty());
            assert(with_key(Seq::<Point>::empty(), by_y, c) =~= Seq::<Point>::empty());
        }
        assert(d0.subrange(0, mid as int) == left);
        assert(aux@.subrange(0, 0) + merge_of(left, right, by_y) =~= merge_of(left, right, by_y));
    }
    while k < n
        invariant
            data@ == d0,
            n == d0.len(),
            aux@.len() == n,
            mid <= n,
            i <= mid <= j <= n,
            k == i + (j - mid),
            hs == (sorted_by_key(left, by_y) && sorted_by_key(right, by_y)),
            left == d0.subrange(0, mid as int),
            right == d0.subrange(mid as int, n as int),
            aux@.subrange(0, k as int) + merge_of(d0.subrange(i as int, mid as int), d0.subrange(j as int, n as int), by_y)
                == merge_of(left, right, by_y),
            hs ==> sorted_by_key(aux@.subrange(0, k as int), by_y),
            hs ==> (k > 0 && i < mid ==> key(aux@[k - 1], by_y) <= key(d0[i as int], by_y)),
            hs ==> (k > 0 && j < n ==> key(aux@[k - 1], by_y) <= key(d0[j as int], by_y)),
            hs ==> forall|t: int| mid <= t < j && i < mid ==> key(#[trigger] d0[t], by_y) < key(d0[i as int], by_y),
            aux@.subrange(0, k as int).to_multiset() == d0.subrange(0, i as int).to_multiset().add(
                d0.subrange(mid as int, j as int).to_multiset()),
            hs ==> forall|c: int| #[trigger] with_key(aux@.subrange(0, k as int), by_y, c) == with_key(
                d0.subrange(0, i as int), by_y, c) + with_key(d0.subrange(mid as int, j as int), by_y, c),
        decreases n - k,
    {
        let ghost out = aux@.subrange(0, k as int);
        let take_left = i < mid && (j == n || key_of(&data[i], by_y) <= key_of(&data[j], by_y));
        if take_left {
            let p = data[i];
            aux[k] = p;
            proof {
                assert(aux@.subrange(0, k + 1) =~= out.push(p));
                let li = d0.subrange(i as int, mid as int);
                let rj = d0.subrange(j as int, n as int);
                assert(li.drop_first() =~= d0.subrange(i + 1, mid as int));
                assert(li[0] == p);
                if rj.len() > 0 {
                    assert(rj[0] == d0[j as int]);
                }
                lemma_merge_of_left(li, rj, by_y);
                assert(out.push(p) + merge_of(d0.subrange(i + 1, mid as int), rj, by_y)
                    =~= out + (seq![p] + merge_of(li.drop_first(), rj, by_y)));
            }
            proof {
              if hs {
                lemma_sorted_push(out, p, by_y);
                assert(d0.subrange(0, i + 1) =~= d0.subrange(0, i as int).push(p));
                if i + 1 < mid {
                    assert(left[i as int] == d0[i as int] && left[i + 1] == d0[i + 1]);
                }
                assert forall|c: int| #[trigger] with_key(aux@.subrange(0, k + 1), by_y, c) == with_key(
                    d0.subrange(0, i + 1), by_y, c) + with_key(d0.subrange(mid as int, j as int), by_y, c) by {
                    lemma_with_key_push(out, p, by_y, c);
                    lemma_with_key_push(d0.subrange(0, i as int), p, by_y, c);
                    if key(p, by_y) == c {
                        let r = d0.subrange(mid as int, j as int);
                        assert forall|t: int| 0 <= t < r.len() implies key(#[trigger] r[t], by_y) != c by {
                            assert(r[t] == d0[mid + t]);
                        }
                        lemma_with_key_none(r, by_y, c);
                        assert(with_key(d0.subrange(0, i as int), by_y, c).push(p) + Seq::<Point>::empty()
                            =~= (with_key(d0.subrange(0, i as int), by_y, c) + Seq::<Point>::empty()).push(p));
                    }
                }
                vstd::seq_lib::lemma_multiset_commutative(d0.subrange(0, i as int), d0.subrange(mid as int, j as int));
                vstd::seq_lib::lemma_multiset_commutative(d0.subrange(0, i + 1), d0.subrange(mid as int, j as int));
                vstd::seq_lib::to_multiset_build(out, p);
                vstd::seq_lib::to_multiset_build(d0.subrange(0, i as int), p);
              }
                vstd::seq_lib::lemma_multiset_commutative(d0.subrange(0, i as int), d0.subrange(mid as int, j as int));
                vstd::seq_lib::lemma_multiset_commutative(d0.subrange(0, i + 1), d0.subrange(mid as int, j as int));
                vstd::seq_lib::to_multiset_build(out, p);
                vstd::seq_lib::to_multiset_build(d0.subrange(0, i as int), p);
                assert(d0.subrange(0, i + 1) =~= d0.subrange(0, i as int).push(p));
                assert(aux@.subrange(0, k + 1).to_multiset() =~= d0.subrange(0, i + 1).to_multiset().add(
                    d0.subrange(mid as int, j as int).to_multiset()));
            }
            i = i + 1;
        } else {
            let p = data[j];
            aux[k] = p;
            proof {
                assert(aux@.subrange(0, k + 1) =~= out.push(p));
                let li = d0.subrange(i as int, mid as int);
                let rj = d0.subrange(j as int, n as int);
                assert(rj.drop_first() =~= d0.subrange(j + 1, n as int));
                assert(rj[0] == p);
                if li.len() > 0 {
                    assert(li[0] == d0[i as int]);
                }
                lemma_merge_of_right(li, rj, by_y);
                assert(out.push(p) + merge_of(li, d0.subrange(j + 1, n as int), by_y)
                    =~= out + (seq![p] + merge_of(li, rj.drop_first(), by_y)));
            }
            proof {
              if hs {
                lemma_sorted_push(out, p, by_y);
                assert(d0.subrange(mid as int, j + 1) =~= d0.subrange(mid as int, j as int).push(p));
                if j + 1 < n {
                    assert(right[j - mid] == d0[j as int] && right[j + 1 - mid] == d0[j + 1]);
                }
                assert forall|c: int| #[trigger] with_key(aux@.subrange(0, k + 1), by_y, c) == with_key(
                    d0.subrange(0, i as int), by_y, c) + with_key(d0.subrange(mid as int, j + 1), by_y, c) by {
                    lemma_with_key_push(out, p, by_y, c);
                    lemma_with_key_push(d0.subrange(mid as int, j as int), p, by_y, c);
                    let a = with_key(d0.subrange(0, i as int), by_y, c);
                    let b = with_key(d0.subrange(mid as int, j as int), by_y, c);
                    assert((a + b).push(p) =~= a + b.push(p));
                }
                vstd::seq_lib::lemma_multiset_commutative(d0.subrange(0, i as int), d0.subrange(mid as int, j as int));
                vstd::seq_lib::lemma_multiset_commutative(d0.subrange(0, i as int), d0.subrange(mid as int, j + 1));
                vstd::seq_lib::to_multiset_build(out, p);
                vstd::seq_lib::to_multiset_build(d0.subrange(mid as int, j as int), p);
              }
                vstd::seq_lib::lemma_multiset_commutative(d0.subrange(0, i as int), d0.subrange(mid as int, j as int));
                vstd::seq_lib::lemma_multiset_commutative(d0.subrange(0, i as int), d0.subrange(mid as int, j + 1));
                vstd::seq_lib::to_multiset_build(out, p);
                vstd::seq_lib::to_multiset_build(d0.subrange(mid as int, j as int), p);
                assert(d0.subrange(mid as int, j + 1) =~= d0.subrange(mid as int, j as int).push(p));
                assert(aux@.subrange(0, k + 1).to_multiset() =~= d0.subrange(0, i as int).to_multiset().add(
                    d0.subrange(mid as int, j + 1).to_multiset()));
            }
            j = j + 1;
        }
        k = k + 1;
    }
    proof {
        assert(d0.subrange(0, mid as int) + d0.subrange(mid as int, n as int) =~= d0);
        assert(aux@.subrange(0, n as int) =~= aux@);
        assert(d0.subrange(mid as int, mid as int).len() == 0);
        assert(d0.subrange(n as int, n as int).len() == 0);
        assert(merge_of(d0.subrange(i as int, mid as int), d0.subrange(j as int, n as int), by_y).len() == 0);
        assert(aux@ =~= merge_of(left, right, by_y));
        vstd::seq_lib::lemma_multiset_commutative(left, right);
        if hs {
            assert forall|c: int| #[trigger] with_key(aux@, by_y, c) == with_key(d0, by_y, c) by {
                lemma_with_key_add(left, right, by_y, c);
            }
        }
    }
    let mut t: usize = 0;
    while t < n
        invariant
            t <= n,
            data@.len() == n,
            aux@.len() == n,
            forall|u: int| 0 <= u < t ==> data@[u] == aux@[u],
            aux@ == merge_of(left, right, by_y),
        decreases n - t,
    {
        data[t] = aux[t];
        t = t + 1;
    }
    assert(data@ =~= aux@);
}

/// Stable merge sort of `data` by the chosen coordinate, using `aux` as scratch space.
fn merge_sort(data: &mut [Point], aux: &mut [Point], by_y: bool)
    requires
        old(aux)@.len() == old(data)@.len(),
    ensures
        final(aux)@.len() == old(aux)@.len(),
        final(data)@.len() == old(data)@.len(),
        stable_sorted(old(data)@, final(data)@, by_y),
    decreases old(data)@.len(),
{
    let n = data.len();
    if n <= 1 {
        proof {
            assert(sorted_by_key(data@, by_y));
        }
        return;
    }
    let mid = n / 2;
    let ghost d0 = data@;
    let ghost l0 = d0.subrange(0, mid as int);
    let ghost r0 = d0.subrange(mid as int, n as int);
    let ghost l1: Seq<Point>;
    let ghost r1: Seq<Point>;
    {
        let (dl, dr) = data.split_at_mut(mid);
        let (al, ar) = aux.split_at_mut(mid);
        merge_sort(dl, al, by_y);
        merge_sort(dr, ar, by_y);
        proof {
            l1 = dl@;
            r1 = dr@;
        }
    }
    let ghost d1 = data@;
    proof {
        assert(d1 == l1 + r1);
        assert(l1 =~= d1.subrange(0, mid as int));
        assert(r1 =~= d1.subrange(mid as int, n as int));
        assert(d0 =~= l0 + r0);
        assert(d1 =~= l1 + r1);
        vstd::seq_lib::lemma_multiset_commutative(l0, r0);
        vstd::seq_lib::lemma_multiset_commutative(l1, r1);
        assert forall|c: int| #[trigger] with_key(d1, by_y, c) == with_key(d0, by_y, c) by {
            lemma_with_key_add(l0, r0, by_y, c);
            lemma_with_key_add(l1, r1, by_y, c);
        }
    }
    merge_halves(data, aux, mid, by_y);
}

/// Sorts `points` in place by the chosen coordinate, stably.
fn sort_by_coordinate(points: &mut [Point], by_y: bool)
    ensures
        final(points)@.len() == old(points)@.len(),
        stable_sorted(old(points)@, final(points)@, by_y),
{
    let n = points.len();
    let mut aux: Vec<Point> = Vec::with_capacity(n);
    let mut t: usize = 0;
    while t < n
        invariant
            t <= n,
            n == points@.len(),
            aux@.len() == t,
        decreases n - t,
    {
        aux.push(points[t]);
        t = t + 1;
    }
    merge_sort(points, aux.as_mut_slice(), by_y);
}

/// Sorts `points` by `x`, keeping points with equal `x` in their order.
pub fn sort_x(points: &mut [Point])
    ensures
        final(points)@.len() == old(points)@.len(),
        stable_sorted(old(points)@, final(points)@, false),
{
    sort_by_coordinate(points, false);
}

/// Sorts `points` by `y`, keeping points with equal `y` in their order.
pub fn sort_y(points: &mut [Point])
    ensures
        final(points)@.len() == old(points)@.len(),
        stable_sorted(old(points)@, final(points)@, true),
{
    sort_by_coordinate(points, true);
}

/// The chosen coordinate of a point.
pub fn key_of(p: &Point, by_y: bool) -> (r: i64)
    ensures
        r == key(*p, by_y),
{
    if by_y { p.y } else { p.x }
}

} // verus!
