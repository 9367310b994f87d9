//! Divide-and-conquer closest pair in place, sorting the points by `y` on
//! the way back up through a scratch buffer, and reporting every step to a
//! `Recording` so that the search can be played back.
use vstd::prelude::*;
use core::cmp::Ordering;
use vstd::std_specs::cmp::PartialEqSpecImpl;
use vstd::std_specs::cmp::PartialOrdSpecImpl;
use crate::point::{Point, dist_sq, dist_sq_le, in_range, all_in_range, key, sorted_by_key, near};
use crate::pairs::{is_pair_of, no_closer_pair, is_closest_pair, lemma_pair_of_pairable, lemma_no_closer_multiset};
use crate::strip::{lemma_far_in_y, collect_band, band_of};
use crate::point::{len_le_within, len_le_within_tolerance, is_floor_sqrt, lemma_floor_sqrt_unique};
use crate::point::{merge_halves, floor_sqrt, sort_x, stable_sorted, merge_of, lemma_stable_sort_unique};
use crate::alg::{ClosestPairResult, lemma_rec_step};
use crate::visual::NoRecord;
use crate::visual::shape::Shape;
use crate::visual::{Recording, Event, after_event};
use crate::visual::shape::ShapeHandle;

verus! {

/// Two points; which one comes first does not matter to `==`.
#[derive(Clone, Copy, Debug)]
pub struct Pair(pub Point, pub Point);

/// A pair compared by its length.
#[derive(Clone, Copy, Debug)]
pub struct ByDist(pub Pair);

/// Both pairs hold the same two points, in either order, each point
/// compared as `==` compares points.
pub open spec fn same_pair_spec(a: Pair, b: Pair) -> bool {
    (near(a.0, b.0) && near(a.1, b.1)) || (near(a.0, b.1) && near(a.1, b.0))
}

/// Squared length of a pair.
pub open spec fn pair_len_sq(p: Pair) -> int {
    dist_sq(p.0, p.1)
}

/// The four points of the two pairs lie within the coordinate limits, and
/// the two lengths differ by less than the tolerance of one unit.
pub open spec fn lengths_close(a: Pair, b: Pair) -> bool {
    &&& in_range(a.0) && in_range(a.1) && in_range(b.0) && in_range(b.1)
    &&& len_le_within(pair_len_sq(a), pair_len_sq(b))
    &&& len_le_within(pair_len_sq(b), pair_len_sq(a))
}

/// Whether the two lengths count as equal up to the tolerance (see
/// `lengths_close`).
fn are_lengths_close(a: &Pair, b: &Pair) -> (r: bool)
    ensures
        r == lengths_close(*a, *b),
{
    if a.0.is_in_range() && a.1.is_in_range() && b.0.is_in_range() && b.1.is_in_range() {
        proof {
            crate::point::lemma_dist_sq_bound(a.0, a.1);
            crate::point::lemma_dist_sq_bound(b.0, b.1);
        }
        let la = a.0.squared_distance(&a.1);
        let lb = b.0.squared_distance(&b.1);
        len_le_within_tolerance(la, lb) && len_le_within_tolerance(lb, la)
    } else {
        false
    }
}

/// Order of two pairs by length; lengths less than one unit apart count as
/// equal where all four points lie within the coordinate limits.
pub open spec fn dist_order_spec(a: Pair, b: Pair) -> Ordering {
    if pair_len_sq(a) == pair_len_sq(b) || lengths_close(a, b) {
        Ordering::Equal
    } else if pair_len_sq(a) < pair_len_sq(b) {
        Ordering::Less
    } else {
        Ordering::Greater
    }
}

impl Pair {
    /// Distance between the two points, rounded down.
    pub fn dist(&self) -> (r: u64)
        requires
            crate::point::in_range(self.0),
            crate::point::in_range(self.1),
        ensures
            crate::point::is_floor_sqrt(r as int, pair_len_sq(*self)),
    {
        self.0.distance(&self.1)
    }

    /// Whether `other` holds the same two points, in either order.
    pub fn same_pair(&self, other: &Self) -> (r: bool)
        ensures
            r == same_pair_spec(*self, *other),
    {
        (self.0 == other.0 && self.1 == other.1) || (self.0 == other.1 && self.1 == other.0)
    }
}

impl PartialEq for Pair {
    fn eq(&self, other: &Self) -> (r: bool) {
        self.same_pair(other)
    }
}

impl PartialEqSpecImpl for Pair {
    open spec fn obeys_eq_spec() -> bool {
        true
    }

    open spec fn eq_spec(&self, other: &Self) -> bool {
        same_pair_spec(*self, *other)
    }
}

impl ByDist {
    /// Order of the two pairs by length.
    pub fn dist_order(&self, other: &Self) -> (r: Ordering)
        ensures
            r == dist_order_spec(self.0, other.0),
    {
        let le = dist_sq_le(&(self.0).0, &(self.0).1, &(other.0).0, &(other.0).1);
        let ge = dist_sq_le(&(other.0).0, &(other.0).1, &(self.0).0, &(self.0).1);
        if (le && ge) || are_lengths_close(&self.0, &other.0) {
            Ordering::Equal
        } else if le {
            Ordering::Less
        } else {
            Ordering::Greater
        }
    }

    /// The shorter pair; `self` when both count as equally long.
    pub fn min(self, other: Self) -> (r: Self)
        ensures
            r == if dist_order_spec(self.0, other.0) != Ordering::Greater { self } else { other },
    {
        match self.dist_order(&other) {
            Ordering::Greater => other,
            _ => self,
        }
    }
}

impl PartialEq for ByDist {
    fn eq(&self, other: &Self) -> (r: bool) {
        let le = dist_sq_le(&(self.0).0, &(self.0).1, &(other.0).0, &(other.0).1);
        let ge = dist_sq_le(&(other.0).0, &(other.0).1, &(self.0).0, &(self.0).1);
        (le && ge) || are_lengths_close(&self.0, &other.0)
    }
}

impl PartialEqSpecImpl for ByDist {
    open spec fn obeys_eq_spec() -> bool {
        true
    }

    open spec fn eq_spec(&self, other: &Self) -> bool {
        dist_order_spec(self.0, other.0) == Ordering::Equal
    }
}

impl Eq for ByDist {
}

impl PartialOrd for ByDist {
    fn partial_cmp(&self, other: &Self) -> (r: Option<Ordering>) {
        Some(self.dist_order(other))
    }
}

impl PartialOrdSpecImpl for ByDist {
    open spec fn obeys_partial_cmp_spec() -> bool {
        true
    }

    open spec fn partial_cmp_spec(&self, other: &Self) -> Option<Ordering> {
        Some(dist_order_spec(self.0, other.0))
    }
}

/// `==` on pairs is reflexive and symmetric, and a pair is `==` to itself
/// with its points swapped.
pub proof fn lemma_same_pair_laws(a: Pair, b: Pair)
    ensures
        same_pair_spec(a, a),
        same_pair_spec(a, b) == same_pair_spec(b, a),
        same_pair_spec(a, Pair(a.1, a.0)),
{
}

/// Ordering pairs by length: they are equal exactly when equally long or
/// close within the tolerance, and swapping the two pairs reverses the
/// order.
pub proof fn lemma_dist_order_laws(a: Pair, b: Pair)
    ensures
        (dist_order_spec(a, b) == Ordering::Equal) == (pair_len_sq(a) == pair_len_sq(b) || lengths_close(a, b)),
        pair_len_sq(a) == pair_len_sq(b) ==> dist_order_spec(a, b) == Ordering::Equal,
        (dist_order_spec(a, b) == Ordering::Less) == (dist_order_spec(b, a) == Ordering::Greater),
        (dist_order_spec(a, b) == Ordering::Equal) == (dist_order_spec(b, a) == Ordering::Equal),
{
}

/// The shorter of two optional pairs, the first one on a tie.
pub open spec fn shorter_spec(a: Option<Pair>, b: Option<Pair>) -> Option<Pair> {
    match (a, b) {
        (None, _) => b,
        (_, None) => a,
        (Some(pa), Some(pb)) => if pair_len_sq(pa) <= pair_len_sq(pb) { a } else { b },
    }
}

/// The shorter of two optional pairs, the first one unless the second is
/// shorter by the tolerance or more.
pub open spec fn merge_spec(a: Option<Pair>, b: Option<Pair>) -> Option<Pair> {
    match (a, b) {
        (None, _) => b,
        (_, None) => a,
        (Some(pa), Some(pb)) => if len_le_within(pair_len_sq(pa), pair_len_sq(pb)) { a } else { b },
    }
}

/// The shorter of two optional pairs; lengths that differ by less than the
/// tolerance count as equal, and then the first pair is kept.
pub fn merge(a: Option<Pair>, b: Option<Pair>) -> (r: Option<Pair>)
    requires
        a matches Some(pa) ==> in_range(pa.0) && in_range(pa.1),
        b matches Some(pb) ==> in_range(pb.0) && in_range(pb.1),
    ensures
        r == merge_spec(a, b),
{
    match (a, b) {
        (None, x) | (x, None) => x,
        (Some(pa), Some(pb)) => Some(ByDist(pa).min(ByDist(pb)).0),
    }
}

/// The shorter of two optional pairs, the first one on a tie. The search
/// compares lengths exactly, so that the pair it finds is a closest one.
fn shorter(a: Option<Pair>, b: Option<Pair>) -> (r: Option<Pair>)
    ensures
        r == shorter_spec(a, b),
{
    match (a, b) {
        (None, x) | (x, None) => x,
        (Some(pa), Some(pb)) => if dist_sq_le(&pa.0, &pa.1, &pb.0, &pb.1) { a } else { b },
    }
}

/// Both are empty, or both hold the same pair.
pub open spec fn same_opt_pair(a: Option<Pair>, b: Option<Pair>) -> bool {
    match (a, b) {
        (None, None) => true,
        (Some(x), Some(y)) => same_pair_spec(x, y),
        _ => false,
    }
}

fn opt_pair_eq(a: &Option<Pair>, b: &Option<Pair>) -> (r: bool)
    ensures
        r == same_opt_pair(*a, *b),
{
    match (a, b) {
        (None, None) => true,
        (Some(x), Some(y)) => x.same_pair(y),
        _ => false,
    }
}

/// Every handle of `v` refers to a shape on screen.
pub open spec fn all_live<R: Recording>(rec: R, v: Seq<ShapeHandle>) -> bool {
    forall|k: int| 0 <= k < v.len() ==> rec.live(#[trigger] v[k])
}

/// No handle of `v` refers to a shape on screen.
pub open spec fn none_live<R: Recording>(rec: R, v: Seq<ShapeHandle>) -> bool {
    forall|k: int| 0 <= k < v.len() ==> !rec.live(#[trigger] v[k])
}

/// No handle occurs twice in `v`.
pub open spec fn distinct(v: Seq<ShapeHandle>) -> bool {
    forall|k: int, l: int| 0 <= k < l < v.len() ==> v[k] != v[l]
}

/// The shapes that show the pair `p` as the best one: its first point, its
/// second point, and the segment from the first to the second, in style 0.
pub open spec fn pair_shapes(p: Pair) -> Seq<Shape> {
    seq![
        Shape::EmpPoint { x: p.0.x, y: p.0.y, style: 0 },
        Shape::EmpPoint { x: p.1.x, y: p.1.y, style: 0 },
        Shape::EmpLine { x1: p.0.x, y1: p.0.y, x2: p.1.x, y2: p.1.y, style: 0 },
    ]
}

/// The shapes that show the best pair, if there is one.
pub open spec fn shown_shapes(shown: Option<Pair>) -> Seq<Shape> {
    match shown {
        Some(p) => pair_shapes(p),
        None => Seq::empty(),
    }
}

/// The reports of putting the shapes on screen, in order.
pub open spec fn add_events(shapes: Seq<Shape>) -> Seq<Event> {
    Seq::new(shapes.len(), |k: int| Event::Add(shapes[k]))
}

/// The reports of taking the shapes off the screen, in order.
pub open spec fn remove_events(shapes: Seq<Shape>) -> Seq<Event> {
    Seq::new(shapes.len(), |k: int| Event::Remove(Some(shapes[k])))
}

/// The handles refer, in order, to the shapes that show `shown`.
pub open spec fn shows_exact<R: Recording>(rec: R, hdls: Seq<ShapeHandle>, shown: Option<Pair>) -> bool {
    &&& hdls.len() == shown_shapes(shown).len()
    &&& forall|k: int| 0 <= k < hdls.len() ==> #[trigger] rec.shape_of(hdls[k]) == shown_shapes(shown)[k]
}

/// The shapes that the handles refer to, in order.
pub open spec fn shapes_of<R: Recording>(rec: R, hdls: Seq<ShapeHandle>) -> Seq<Shape> {
    Seq::new(hdls.len(), |k: int| rec.shape_of(hdls[k]))
}

/// Takes the shapes of all handles of `hdls` off the screen.
fn remove_all<R: Recording>(record: &mut R, hdls: Vec<ShapeHandle>)
    requires
        all_live(*old(record), hdls@),
        distinct(hdls@),
    ensures
        forall|g: ShapeHandle| old(record).live(g) && !hdls@.contains(g) ==> final(record).live(g),
        forall|g: ShapeHandle| old(record).live(g) && !hdls@.contains(g)
            ==> #[trigger] final(record).shape_of(g) == old(record).shape_of(g),
        none_live(*final(record), hdls@),
        forall|g: ShapeHandle| final(record).live(g) ==> old(record).live(g),
        R::keeps_events() ==> final(record).events() == old(record).events()
            + remove_events(shapes_of(*old(record), hdls@)),
{
    let n = hdls.len();
    let mut t: usize = 0;
    while t < n
        invariant
            R::keeps_events() ==> record.events() == old(record).events()
                + remove_events(shapes_of(*old(record), hdls@.subrange(0, t as int))),
            n == hdls@.len(),
            t <= n,
            distinct(hdls@),
            forall|k: int| t <= k < n ==> record.live(#[trigger] hdls@[k]),
            forall|k: int| t <= k < n ==> #[trigger] record.shape_of(hdls@[k]) == old(record).shape_of(hdls@[k]),
            forall|g: ShapeHandle| old(record).live(g) && !hdls@.contains(g) ==> record.live(g),
            forall|g: ShapeHandle| old(record).live(g) && !hdls@.contains(g)
                ==> #[trigger] record.shape_of(g) == old(record).shape_of(g),
            forall|k: int| 0 <= k < t ==> !record.live(#[trigger] hdls@[k]),
            forall|g: ShapeHandle| record.live(g) ==> old(record).live(g),
        decreases n - t,
    {
        let h = hdls[t];
        let ghost before = *record;
        record.remove(&Some(h));
        proof {
            if R::keeps_events() {
                assert(before.shape_of(hdls@[t as int]) == old(record).shape_of(hdls@[t as int]));
                assert(remove_events(shapes_of(*old(record), hdls@.subrange(0, t + 1)))
                    =~= remove_events(shapes_of(*old(record), hdls@.subrange(0, t as int))).push(
                    Event::Remove(Some(old(record).shape_of(h)))));
            }
            assert forall|k: int| t + 1 <= k < n implies record.live(#[trigger] hdls@[k]) by {
                assert(before.live(hdls@[k]));
                assert(hdls@[k] != hdls@[t as int]);
            }
            assert forall|k: int| t + 1 <= k < n implies #[trigger] record.shape_of(hdls@[k])
                == old(record).shape_of(hdls@[k]) by {
                assert(before.live(hdls@[k]));
                assert(hdls@[k] != hdls@[t as int]);
                assert(record.live(hdls@[k]));
                assert(before.shape_of(hdls@[k]) == old(record).shape_of(hdls@[k]));
            }
            assert forall|g: ShapeHandle| old(record).live(g) && !hdls@.contains(g) implies record.live(g) by {
                assert(before.live(g));
                if g == h {
                    assert(hdls@[t as int] == g);
                }
            }
            assert forall|g: ShapeHandle| old(record).live(g) && !hdls@.contains(g)
                implies #[trigger] record.shape_of(g) == old(record).shape_of(g) by {
                assert(before.live(g));
                assert(record.live(g));
                assert(before.shape_of(g) == old(record).shape_of(g));
            }
        }
        t = t + 1;
    }
}

/// What the handles kept by a step of the search satisfy against the
/// recording `r0` and handles `h0` it started from: they are on screen, none
/// twice, each was among `h0` or new; and whatever else was on screen stays.
pub open spec fn kept_handles<R: Recording>(r0: R, h0: Seq<ShapeHandle>, cur: R, hdls: Seq<ShapeHandle>) -> bool {
    &&& all_live(cur, hdls)
    &&& distinct(hdls)
    &&& forall|g: ShapeHandle| r0.live(g) && !h0.contains(g) ==> cur.live(g)
    &&& forall|g: ShapeHandle| r0.live(g) && !h0.contains(g) ==> #[trigger] cur.shape_of(g) == r0.shape_of(g)
    &&& forall|k: int| 0 <= k < hdls.len() ==> (h0.contains(#[trigger] hdls[k]) || !r0.live(hdls[k]))
}

/// Puts the handle into `v` if there is one.
fn push_handle(v: &mut Vec<ShapeHandle>, h: Option<ShapeHandle>)
    ensures
        final(v)@ == match h {
            Some(x) => old(v)@.push(x),
            None => old(v)@,
        },
{
    if let Some(x) = h {
        v.push(x);
    }
}

/// The pair at positions `a` and `b` of `s` is no shorter than `res`.
pub open spec fn covered(s: Seq<Point>, res: Option<Pair>, a: int, b: int) -> bool {
    res matches Some(r) && dist_sq(s[a], s[b]) >= pair_len_sq(r)
}

/// The point at `j` of the band lies farther in `y` from the point at `i`
/// than the half-width whose square is `d`.
pub open spec fn too_far(band: Seq<Point>, d: Option<u128>, i: int, j: int) -> bool {
    d matches Some(dd) && (band[j].y - band[i].y) * (band[j].y - band[i].y) > dd
}

/// The best pair after trying the point at `i` of the band with those from
/// `j` on, until one lies too far in `y`.
pub open spec fn scan_from(band: Seq<Point>, d: Option<u128>, res: Option<Pair>, i: int, j: int) -> Option<Pair>
    decreases band.len() - j,
{
    if j < 0 || j >= band.len() || too_far(band, d, i, j) {
        res
    } else {
        scan_from(band, d, shorter_spec(res, Some(Pair(band[i], band[j]))), i, j + 1)
    }
}

/// The best pair after trying every point of the band from `i` on with the
/// points above it.
pub open spec fn scan_all(band: Seq<Point>, d: Option<u128>, res: Option<Pair>, i: int) -> Option<Pair>
    decreases band.len() - i,
{
    if i < 0 || i >= band.len() {
        res
    } else {
        scan_all(band, d, scan_from(band, d, res, i, i + 1), i + 1)
    }
}

/// The point at `i` of the band, as a candidate (style 1).
pub open spec fn candidate_point(band: Seq<Point>, i: int) -> Shape {
    Shape::EmpPoint { x: band[i].x, y: band[i].y, style: 1 }
}

/// The segment between the points at `i` and `j` of the band, as a
/// candidate (style 1).
pub open spec fn candidate_line(band: Seq<Point>, i: int, j: int) -> Shape {
    Shape::EmpLine { x1: band[i].x, y1: band[i].y, x2: band[j].x, y2: band[j].y, style: 1 }
}

/// The reports of trying the pair at `i` and `j` of the band: its second
/// point and the segment are shown for a frame of 0.2 s, then taken off.
pub open spec fn try_events(band: Seq<Point>, i: int, j: int) -> Seq<Event> {
    seq![
        Event::Add(candidate_point(band, j)),
        Event::Add(candidate_line(band, i, j)),
        Event::Frame(Some(200_000u64)),
        Event::Remove(Some(candidate_point(band, j))),
        Event::Remove(Some(candidate_line(band, i, j))),
    ]
}

/// What showing the point at `i` of the band with those from `j` on
/// reports, and the pair shown as the best one afterwards, starting from
/// the best pair `res` and the pair `shown` on screen. Each pair tried is
/// shown; when the best pair so far becomes one that is `==` to it, the
/// shapes of the pair shown are replaced by those of the pair tried.
pub open spec fn scan_from_trace(
    band: Seq<Point>,
    d: Option<u128>,
    res: Option<Pair>,
    shown: Option<Pair>,
    i: int,
    j: int,
) -> (Option<Pair>, Seq<Event>)
    decreases band.len() - j,
{
    if j < 0 || j >= band.len() || too_far(band, d, i, j) {
        (shown, Seq::empty())
    } else {
        let rest = scan_from_trace(band, d, shorter_spec(res, Some(Pair(band[i], band[j]))),
            trial_shown(band, res, shown, i, j), i, j + 1);
        (rest.0, trial_events(band, res, shown, i, j) + rest.1)
    }
}

/// Whether trying the pair at `i` and `j` of the band makes it the pair
/// shown: the best pair afterwards is `==` to it.
pub open spec fn trial_updates(band: Seq<Point>, res: Option<Pair>, i: int, j: int) -> bool {
    let pr = Some(Pair(band[i], band[j]));
    same_opt_pair(shorter_spec(res, pr), pr)
}

/// The pair shown after trying the pair at `i` and `j` of the band.
pub open spec fn trial_shown(band: Seq<Point>, res: Option<Pair>, shown: Option<Pair>, i: int, j: int) -> Option<Pair> {
    if trial_updates(band, res, i, j) { Some(Pair(band[i], band[j])) } else { shown }
}

/// The reports of trying the pair at `i` and `j` of the band: the trial
/// itself and, when the pair becomes the one shown, the replacement of the
/// shapes of the pair shown before.
pub open spec fn trial_events(band: Seq<Point>, res: Option<Pair>, shown: Option<Pair>, i: int, j: int) -> Seq<Event> {
    if trial_updates(band, res, i, j) {
        try_events(band, i, j) + remove_events(shown_shapes(shown))
            + add_events(shown_shapes(Some(Pair(band[i], band[j]))))
    } else {
        try_events(band, i, j)
    }
}

/// One trial moves what is left to report into what was reported.
proof fn lemma_trial_step(
    band: Seq<Point>,
    d: Option<u128>,
    res: Option<Pair>,
    shown: Option<Pair>,
    i: int,
    j: int,
    acc: Seq<Event>,
    total: (Option<Pair>, Seq<Event>),
)
    requires
        0 <= i < j < band.len(),
        !too_far(band, d, i, j),
        acc + rest_after(band, d, res, shown, i, j).1 == total.1,
        rest_after(band, d, res, shown, i, j).0 == total.0,
    ensures
        ({
            let res2 = shorter_spec(res, Some(Pair(band[i], band[j])));
            let shown2 = trial_shown(band, res, shown, i, j);
            &&& acc + trial_events(band, res, shown, i, j) + rest_after(band, d, res2, shown2, i, j + 1).1 == total.1
            &&& rest_after(band, d, res2, shown2, i, j + 1).0 == total.0
        }),
{
    let res2 = shorter_spec(res, Some(Pair(band[i], band[j])));
    let shown2 = trial_shown(band, res, shown, i, j);
    let ev = trial_events(band, res, shown, i, j);
    let f2 = scan_from_trace(band, d, res2, shown2, i, j + 1);
    assert(scan_from_trace(band, d, res, shown, i, j) == (f2.0, ev + f2.1));
    assert(scan_from(band, d, res, i, j) == scan_from(band, d, res2, i, j + 1));
    let rest = scan_all_trace(band, d, scan_from(band, d, res2, i, j + 1), f2.0, i + 1);
    let rm = seq![Event::Remove(Some(candidate_point(band, i)))];
    assert(acc + ((ev + f2.1) + rm + rest.1) =~= acc + ev + (f2.1 + rm + rest.1));
}

/// What showing every point of the band from `i` on, with the points above
/// it, reports, and the pair shown as the best one afterwards.
pub open spec fn scan_all_trace(
    band: Seq<Point>,
    d: Option<u128>,
    res: Option<Pair>,
    shown: Option<Pair>,
    i: int,
) -> (Option<Pair>, Seq<Event>)
    decreases band.len() - i,
{
    if i < 0 || i >= band.len() {
        (shown, Seq::empty())
    } else {
        let f = scan_from_trace(band, d, res, shown, i, i + 1);
        let rest = scan_all_trace(band, d, scan_from(band, d, res, i, i + 1), f.0, i + 1);
        (rest.0, seq![Event::Add(candidate_point(band, i))] + f.1
            + seq![Event::Remove(Some(candidate_point(band, i)))] + rest.1)
    }
}

/// What showing the whole band reports, starting from the best pair
/// `start` and the pair `shown` on screen, and the pair shown at the end.
#[verifier::opaque]
pub open spec fn band_trace(band: Seq<Point>, d: Option<u128>, start: Option<Pair>, shown: Option<Pair>) -> (Option<Pair>, Seq<Event>) {
    scan_all_trace(band, d, start, shown, 0)
}

/// What is left to report while the point at `i` is tried with those from
/// `j` on: the rest of that point's trials, its removal, and the points
/// after it; with the pair shown at the end.
pub open spec fn rest_after(
    band: Seq<Point>,
    d: Option<u128>,
    res: Option<Pair>,
    shown: Option<Pair>,
    i: int,
    j: int,
) -> (Option<Pair>, Seq<Event>) {
    let f = scan_from_trace(band, d, res, shown, i, j);
    let rest = scan_all_trace(band, d, scan_from(band, d, res, i, j), f.0, i + 1);
    (rest.0, f.1 + seq![Event::Remove(Some(candidate_point(band, i)))] + rest.1)
}

/// What the search finds on points ordered by `x`: the pair it reports, and
/// the points ordered by `y`. Each half is searched, the shorter of the two
/// pairs is kept (the left one on a tie), the halves are merged by `y`, and
/// the band around the dividing line is scanned.
#[verifier::opaque]
pub open spec fn search(points: Seq<Point>) -> (Option<Pair>, Seq<Point>)
    decreases points.len(),
{
    if points.len() <= 1 {
        (None, points)
    } else {
        let mid = points.len() / 2;
        let l = search(points.subrange(0, mid as int));
        let r = search(points.subrange(mid as int, points.len() as int));
        let res = shorter_spec(l.0, r.0);
        let merged = merge_of(l.1, r.1, true);
        let d = match res {
            Some(p) => Some(pair_len_sq(p) as u128),
            None => None,
        };
        (scan_all(band_of(merged, points[mid - 1].x, d), d, res, 0), merged)
    }
}

/// One level of the search, put together from what its parts found.
pub(crate) proof fn lemma_search_step(
    p0: Seq<Point>,
    mid: int,
    rl: Option<Pair>,
    yl: Seq<Point>,
    rr: Option<Pair>,
    yr: Seq<Point>,
    res: Option<Pair>,
    d: Option<u128>,
    best: Option<Pair>,
)
    requires
        p0.len() >= 2,
        mid == p0.len() / 2,
        search(p0.subrange(0, mid)) == (rl, yl),
        search(p0.subrange(mid, p0.len() as int)) == (rr, yr),
        res == shorter_spec(rl, rr),
        d == (match res {
            Some(p) => Some(pair_len_sq(p) as u128),
            None => None,
        }),
        best == scan_all(band_of(merge_of(yl, yr, true), p0[mid - 1].x, d), d, res, 0),
    ensures
        search(p0) == (best, merge_of(yl, yr, true)),
{
    reveal(search);
}

/// Facts about the best pair so far while the band is searched.
pub open spec fn best_so_far(band: Seq<Point>, start: Option<Pair>, res: Option<Pair>) -> bool {
    &&& start matches Some(s) ==> res matches Some(r) && pair_len_sq(r) <= pair_len_sq(s)
    &&& res matches Some(r) ==> in_range(r.0) && in_range(r.1) && (res == start || is_pair_of(band, r.0, r.1))
    &&& band.len() < 2 ==> res == start
}

/// The shape shows the pair `p` as the best one found: one of its points,
/// or the segment between them, in style 0.
pub open spec fn shows_pair(p: Pair, s: Shape) -> bool {
    ||| s == Shape::EmpPoint { x: p.0.x, y: p.0.y, style: 0 }
    ||| s == Shape::EmpPoint { x: p.1.x, y: p.1.y, style: 0 }
    ||| s == Shape::EmpLine { x1: p.0.x, y1: p.0.y, x2: p.1.x, y2: p.1.y, style: 0 }
    ||| s == Shape::EmpLine { x1: p.1.x, y1: p.1.y, x2: p.0.x, y2: p.0.y, style: 0 }
}

/// The three handles show, in order, the first point, the second point and
/// the segment from the first to the second of `q`.
pub open spec fn shows_in_order<R: Recording>(rec: R, hdls: Seq<ShapeHandle>, q: Pair) -> bool {
    &&& hdls.len() == 3
    &&& rec.shape_of(hdls[0]) == Shape::EmpPoint { x: q.0.x, y: q.0.y, style: 0 }
    &&& rec.shape_of(hdls[1]) == Shape::EmpPoint { x: q.1.x, y: q.1.y, style: 0 }
    &&& rec.shape_of(hdls[2]) == Shape::EmpLine { x1: q.0.x, y1: q.0.y, x2: q.1.x, y2: q.1.y, style: 0 }
}

/// What is on screen in `b` was on screen in `a`, other than the handles of
/// `h0`, or is among the handles of `hdls`.
#[verifier::opaque]
pub open spec fn only_new<R: Recording>(a: R, h0: Seq<ShapeHandle>, b: R, hdls: Seq<ShapeHandle>) -> bool {
    forall|g: ShapeHandle| #[trigger] b.live(g) ==> (a.live(g) && !h0.contains(g)) || hdls.contains(g)
}

/// The handles show the best pair `res` and nothing else: at most three,
/// and none when there is no pair; with a recording that gives every shape
/// a handle, exactly its two points and the segment between them, taking
/// the points in one order or the other.
#[verifier::opaque]
pub open spec fn shows_best<R: Recording>(rec: R, hdls: Seq<ShapeHandle>, res: Option<Pair>) -> bool {
    &&& hdls.len() <= 3
    &&& res is None ==> hdls.len() == 0
    &&& forall|k: int| 0 <= k < hdls.len() ==> (res matches Some(p) && shows_pair(p, rec.shape_of(#[trigger] hdls[k])))
    &&& R::gives_handles() ==> (res matches Some(p) ==> shows_in_order(rec, hdls, p) || shows_in_order(rec, hdls, Pair(p.1, p.0)))
}

/// Handles that keep their shapes keep showing the same pair; and a pair
/// shown is shown as well by the same pair with its points swapped.
proof fn lemma_shows_best_kept<R: Recording>(a: R, b: R, hdls: Seq<ShapeHandle>, res: Option<Pair>, res2: Option<Pair>)
    requires
        shows_best(a, hdls, res),
        forall|k: int| 0 <= k < hdls.len() ==> #[trigger] b.shape_of(hdls[k]) == a.shape_of(hdls[k]),
        same_opt_pair(res, res2),
    ensures
        shows_best(b, hdls, res2),
{
    reveal(shows_best);
    assert forall|k: int| 0 <= k < hdls.len() implies (res2 matches Some(p) && shows_pair(p, b.shape_of(#[trigger] hdls[k]))) by {
        assert(b.shape_of(hdls[k]) == a.shape_of(hdls[k]));
    }
    if R::gives_handles() && hdls.len() == 3 {
        assert(b.shape_of(hdls[0]) == a.shape_of(hdls[0]));
        assert(b.shape_of(hdls[1]) == a.shape_of(hdls[1]));
        assert(b.shape_of(hdls[2]) == a.shape_of(hdls[2]));
    }
}

/// Searches the band like `alg`'s search, showing each point, each pair
/// tried, and the best pair so far.
#[verifier::rlimit(100)]
#[verifier::spinoff_prover]
fn scan_band_recorded<R: Recording>(
    band: &Vec<Point>,
    d: Option<u128>,
    start: Option<Pair>,
    hdls_best: Vec<ShapeHandle>,
    record: &mut R,
    Ghost(shown0): Ghost<Option<Pair>>,
) -> (r: (Option<Pair>, Vec<ShapeHandle>))
    requires
        R::gives_handles() ==> shows_exact(*old(record), hdls_best@, shown0),
        sorted_by_key(band@, true),
        all_in_range(band@),
        start matches Some(s) ==> in_range(s.0) && in_range(s.1) && (d matches Some(dd) && dd == pair_len_sq(s)),
        start is None ==> d is None,
        all_live(*old(record), hdls_best@),
        distinct(hdls_best@),
        shows_best(*old(record), hdls_best@, start),
    ensures
        best_so_far(band@, start, r.0),
        shows_best(*final(record), r.1@, r.0),
        only_new(*old(record), hdls_best@, *final(record), r.1@),
        band@.len() >= 2 ==> r.0 is Some,
        r.0 matches Some(p) ==> no_closer_pair(band@, pair_len_sq(p)),
        r.0 == scan_all(band@, d, start, 0),
        kept_handles(*old(record), hdls_best@, *final(record), r.1@),
        R::gives_handles() ==> shows_exact(*final(record), r.1@, band_trace(band@, d, start, shown0).0),
        R::keeps_events() && R::gives_handles() ==> final(record).events()
            == old(record).events() + band_trace(band@, d, start, shown0).1,
{
    reveal(shows_best);
    reveal(band_trace);
    let ghost r0 = *record;
    let ghost h0 = hdls_best@;
    let ghost target = scan_all(band@, d, start, 0);
    let ghost total = scan_all_trace(band@, d, start, shown0, 0);
    let ghost mut shown = shown0;
    let ghost mut acc: Seq<Event> = Seq::empty();
    assert(r0.events() + acc =~= r0.events());
    assert(acc + total.1 =~= total.1);
    let nv = band.len();
    let mut res = start;
    let mut hdls_best = hdls_best;
    let mut i: usize = 0;
    while i < nv
        invariant
            nv == band@.len(),
            i <= nv,
            sorted_by_key(band@, true),
            all_in_range(band@),
            start matches Some(s) ==> in_range(s.0) && in_range(s.1) && (d matches Some(dd) && dd == pair_len_sq(s)),
            start is None ==> d is None,
            best_so_far(band@, start, res),
            forall|a: int, b: int| 0 <= a < i && a < b < nv ==> #[trigger] covered(band@, res, a, b),
            kept_handles(r0, h0, *record, hdls_best@),
            shows_best(*record, hdls_best@, res),
            forall|g: ShapeHandle| #[trigger] record.live(g) ==> (r0.live(g) && !h0.contains(g)) || hdls_best@.contains(g),
            scan_all(band@, d, res, i as int) == target,
            R::gives_handles() ==> shows_exact(*record, hdls_best@, shown),
            R::keeps_events() && R::gives_handles() ==> record.events() == r0.events() + acc,
            acc + scan_all_trace(band@, d, res, shown, i as int).1 == total.1,
            scan_all_trace(band@, d, res, shown, i as int).0 == total.0,
        decreases nv - i,
    {
        proof {
            reveal(shows_best);
        }
        assert(in_range(band@[i as int]));
        let ghost rpre = *record;
        let hdl_i = record.add(Shape::EmpPoint { x: band[i].x, y: band[i].y, style: 1 });
        let ghost ri = *record;
        proof {
            assert forall|g: ShapeHandle| record.live(g) implies (r0.live(g) && !h0.contains(g)) || hdls_best@.contains(g) || hdl_i == Some(g) by {
                if hdl_i != Some(g) {
                    assert(rpre.live(g));
                    assert((r0.live(g) && !h0.contains(g)) || hdls_best@.contains(g));
                }
            }
            assert forall|k: int| 0 <= k < hdls_best@.len()
                implies #[trigger] record.shape_of(hdls_best@[k]) == rpre.shape_of(hdls_best@[k]) by {
                assert(rpre.live(hdls_best@[k]));
            }
            let ghost acc0 = acc;
            let ghost f = scan_from_trace(band@, d, res, shown, i as int, i + 1);
            let ghost rest = scan_all_trace(band@, d, scan_from(band@, d, res, i as int, i + 1), f.0, i + 1);
            acc = acc.push(Event::Add(candidate_point(band@, i as int)));
            assert(acc0 + (seq![Event::Add(candidate_point(band@, i as int))] + f.1
                + seq![Event::Remove(Some(candidate_point(band@, i as int)))] + rest.1)
                =~= acc + (f.1 + seq![Event::Remove(Some(candidate_point(band@, i as int)))] + rest.1));
            assert((r0.events() + acc0).push(Event::Add(candidate_point(band@, i as int))) =~= r0.events() + acc);
        }
        let mut j: usize = i + 1;
        assert(scan_all(band@, d, res, i as int) == scan_all(band@, d, scan_from(band@, d, res, i as int, j as int), i + 1));
        while j < nv
            invariant
                nv == band@.len(),
                i < nv,
                i + 1 <= j <= nv,
                sorted_by_key(band@, true),
                all_in_range(band@),
                start matches Some(s) ==> in_range(s.0) && in_range(s.1) && (d matches Some(dd) && dd == pair_len_sq(s)),
                start is None ==> d is None,
                best_so_far(band@, start, res),
                forall|a: int, b: int| 0 <= a < i && a < b < nv ==> #[trigger] covered(band@, res, a, b),
                forall|b: int| i < b < j ==> #[trigger] covered(band@, res, i as int, b),
                kept_handles(r0, h0, *record, hdls_best@),
                shows_best(*record, hdls_best@, res),
                forall|g: ShapeHandle| #[trigger] record.live(g) ==> (r0.live(g) && !h0.contains(g)) || hdls_best@.contains(g) || hdl_i == Some(g),
                hdl_i matches Some(hi) ==> record.live(hi) && !hdls_best@.contains(hi) && (h0.contains(hi) || !r0.live(hi)),
                scan_all(band@, d, scan_from(band@, d, res, i as int, j as int), i + 1) == target,
                R::gives_handles() ==> shows_exact(*record, hdls_best@, shown),
                R::gives_handles() ==> (hdl_i matches Some(hi) && record.shape_of(hi) == candidate_point(band@, i as int)),
                R::keeps_events() && R::gives_handles() ==> record.events() == r0.events() + acc,
                acc + rest_after(band@, d, res, shown, i as int, j as int).1 == total.1,
                rest_after(band@, d, res, shown, i as int, j as int).0 == total.0,
            ensures
                best_so_far(band@, start, res),
                forall|a: int, b: int| 0 <= a < i && a < b < nv ==> #[trigger] covered(band@, res, a, b),
                forall|b: int| i < b < nv ==> #[trigger] covered(band@, res, i as int, b),
                kept_handles(r0, h0, *record, hdls_best@),
                shows_best(*record, hdls_best@, res),
                forall|g: ShapeHandle| #[trigger] record.live(g) ==> (r0.live(g) && !h0.contains(g)) || hdls_best@.contains(g) || hdl_i == Some(g),
                hdl_i matches Some(hi) ==> record.live(hi) && !hdls_best@.contains(hi) && (h0.contains(hi) || !r0.live(hi)),
                scan_all(band@, d, res, i + 1) == target,
                R::gives_handles() ==> shows_exact(*record, hdls_best@, shown),
                R::gives_handles() ==> (hdl_i matches Some(hi) && record.shape_of(hi) == candidate_point(band@, i as int)),
                R::keeps_events() && R::gives_handles() ==> record.events() == r0.events() + acc,
                acc + seq![Event::Remove(Some(candidate_point(band@, i as int)))]
                    + scan_all_trace(band@, d, res, shown, i + 1).1 == total.1,
                scan_all_trace(band@, d, res, shown, i + 1).0 == total.0,
            decreases nv - j,
        {
            proof {
                reveal(shows_best);
            }
            assert(in_range(band@[i as int]) && in_range(band@[j as int]));
            if let Some(dd) = d {
                let dy: i128 = band[j].y as i128 - band[i].y as i128;
                assert(key(band@[i as int], true) <= key(band@[j as int], true));
                assert(0 <= dy * dy <= 0x4000_0000_0000_0000_0000_0000_0000_0000) by (nonlinear_arith)
                    requires 0 <= dy <= 0x8000_0000_0000_0000;
                let sq: i128 = dy * dy;
                if (sq as u128) > dd {
                    proof {
                        assert(too_far(band@, d, i as int, j as int));
                        assert(scan_from(band@, d, res, i as int, j as int) == res);
                        assert(scan_from_trace(band@, d, res, shown, i as int, j as int) == (shown, Seq::<Event>::empty()));
                        assert(acc + rest_after(band@, d, res, shown, i as int, j as int).1
                            =~= acc + seq![Event::Remove(Some(candidate_point(band@, i as int)))]
                            + scan_all_trace(band@, d, res, shown, i + 1).1);
                        assert forall|b: int| i < b < nv implies #[trigger] covered(band@, res, i as int, b) by {
                            if b >= j {
                                assert(key(band@[j as int], true) <= key(band@[b], true));
                                lemma_far_in_y(band@[i as int], band@[j as int], band@[b], dd as int);
                            }
                        }
                    }
                    break;
                }
            }
            let ghost rj0 = *record;
            let hdl_j = record.add(Shape::EmpPoint { x: band[j].x, y: band[j].y, style: 1 });
            let ghost rj1 = *record;
            let seg = record.add(Shape::EmpLine { x1: band[i].x, y1: band[i].y, x2: band[j].x, y2: band[j].y, style: 1 });
            let ghost rj2 = *record;
            record.next_frame(Some(200_000));
            let ghost rj3 = *record;
            proof {
                if let Some(hj) = hdl_j {
                    assert(rj1.live(hj));
                    if let Some(sg) = seg {
                        assert(!rj1.live(sg));
                        assert(hj != sg);
                    }
                }
            }
            record.remove(&hdl_j);
            let ghost rj4 = *record;
            record.remove(&seg);
            proof {
                if R::gives_handles() {
                    let hj = hdl_j.unwrap();
                    let sg = seg.unwrap();
                    assert(rj2.live(hj) && rj2.shape_of(hj) == rj1.shape_of(hj));
                    assert(rj3.live(hj) && rj3.shape_of(hj) == rj2.shape_of(hj));
                    assert(rj3.live(sg) && rj3.shape_of(sg) == rj2.shape_of(sg));
                    assert(rj4.live(sg) && rj4.shape_of(sg) == rj3.shape_of(sg));
                    let hi = hdl_i.unwrap();
                    assert(rj0.live(hi));
                    assert(rj1.live(hi) && rj1.shape_of(hi) == rj0.shape_of(hi));
                    assert(rj2.live(hi) && rj2.shape_of(hi) == rj1.shape_of(hi));
                    assert(rj3.live(hi) && rj3.shape_of(hi) == rj2.shape_of(hi));
                    assert(rj4.live(hi) && rj4.shape_of(hi) == rj3.shape_of(hi));
                    assert(record.live(hi) && record.shape_of(hi) == rj4.shape_of(hi));
                    if R::keeps_events() {
                        assert(record.events() =~= r0.events() + acc + try_events(band@, i as int, j as int));
                    }
                }
                assert(R::gives_handles() ==> shows_exact(*record, hdls_best@, shown)) by {
                    if R::gives_handles() {
                        assert forall|k: int| 0 <= k < hdls_best@.len()
                            implies #[trigger] record.shape_of(hdls_best@[k]) == shown_shapes(shown)[k] by {
                            assert(record.shape_of(hdls_best@[k]) == rj0.shape_of(hdls_best@[k]));
                        }
                    }
                }
                // every handle tracked before the pair was shown is still on screen
                assert forall|g: ShapeHandle| rj0.live(g) implies record.live(g) by {
                    assert(rj1.live(g));
                    if let Some(hj) = hdl_j {
                        assert(!rj0.live(hj));
                    }
                    if let Some(sg) = seg {
                        assert(rj2.live(g));
                        assert(!rj1.live(sg));
                    }
                }
                assert forall|k: int| 0 <= k < hdls_best@.len()
                    implies #[trigger] record.shape_of(hdls_best@[k]) == rj0.shape_of(hdls_best@[k]) by {
                    let g = hdls_best@[k];
                    assert(rj0.live(g));
                    assert(rj1.live(g) && rj1.shape_of(g) == rj0.shape_of(g));
                    assert(rj2.live(g) && rj2.shape_of(g) == rj1.shape_of(g));
                    assert(rj3.live(g) && rj3.shape_of(g) == rj2.shape_of(g));
                    if let Some(hj) = hdl_j {
                        assert(!rj0.live(hj));
                    }
                    if let Some(sg) = seg {
                        assert(!rj1.live(sg));
                    }
                    assert(record.live(g));
                    assert(record.shape_of(g) == rj3.shape_of(g));
                }
                lemma_shows_best_kept(rj0, *record, hdls_best@, res, res);
                assert forall|g: ShapeHandle| record.live(g) implies rj0.live(g) by {
                    assert(rj3.live(g));
                    assert(rj2.live(g));
                    if hdl_j == Some(g) {
                        assert(!record.live(g));
                    }
                    if seg == Some(g) {
                        assert(!record.live(g));
                    }
                    assert(rj1.live(g));
                }
            }
            let pr = Some(Pair(band[i], band[j]));
            let ghost prev = res;
            proof {
                assert(!too_far(band@, d, i as int, j as int));
                assert(scan_from(band@, d, prev, i as int, j as int)
                    == scan_from(band@, d, shorter_spec(prev, pr), i as int, j + 1));
            }
            res = shorter(res, pr);
            proof {
                assert(is_pair_of(band@, band@[i as int], band@[j as int]));
                assert forall|a: int, b: int| 0 <= a < i && a < b < nv implies #[trigger] covered(band@, res, a, b) by {
                    assert(covered(band@, prev, a, b));
                }
                assert forall|b: int| i < b < j + 1 implies #[trigger] covered(band@, res, i as int, b) by {
                    if b < j {
                        assert(covered(band@, prev, i as int, b));
                    }
                }
            }
            if opt_pair_eq(&res, &pr) {
                let ghost rb0 = *record;
                let ghost old_best = hdls_best@;
                remove_all(record, hdls_best);
                let ghost rb1 = *record;
                let mut fresh: Vec<ShapeHandle> = Vec::new();
                let h1 = record.add(Shape::EmpPoint { x: band[i].x, y: band[i].y, style: 0 });
                let ghost rb2 = *record;
                push_handle(&mut fresh, h1);
                let h2 = record.add(Shape::EmpPoint { x: band[j].x, y: band[j].y, style: 0 });
                let ghost rb3 = *record;
                push_handle(&mut fresh, h2);
                let h3 = record.add(Shape::EmpLine { x1: band[i].x, y1: band[i].y, x2: band[j].x, y2: band[j].y, style: 0 });
                push_handle(&mut fresh, h3);
                proof {
                    assert forall|g: ShapeHandle| r0.live(g) && !h0.contains(g) implies rb1.live(g) by {
                        if old_best.contains(g) {
                            let k = choose|k: int| 0 <= k < old_best.len() && old_best[k] == g;
                            assert(h0.contains(old_best[k]) || !r0.live(old_best[k]));
                        }
                        assert(rb0.live(g));
                    }
                    assert forall|g: ShapeHandle| rb1.live(g) implies record.live(g) by {
                        assert(rb2.live(g));
                        assert(rb3.live(g));
                    }
                    if let Some(hi) = hdl_i {
                        assert(rb1.live(hi));
                        assert(record.live(hi));
                    }
                    let fs = fresh@;
                    assert forall|k: int| 0 <= k < fs.len() implies record.live(#[trigger] fs[k])
                        && (h0.contains(fs[k]) || !r0.live(fs[k])) && Some(fs[k]) != hdl_i by {
                        if h1 is Some && fs[k] == h1.unwrap() {
                            assert(rb2.live(fs[k]) && rb3.live(fs[k]));
                        } else if h2 is Some && fs[k] == h2.unwrap() {
                            assert(rb3.live(fs[k]));
                        } else {
                            assert(h3 is Some && fs[k] == h3.unwrap());
                        }
                    }
                    assert forall|g: ShapeHandle| record.live(g)
                        implies (r0.live(g) && !h0.contains(g)) || fs.contains(g) || hdl_i == Some(g) by {
                        if h3 == Some(g) {
                            assert(fs[fs.len() - 1] == g);
                        } else {
                            assert(rb3.live(g));
                            if h2 == Some(g) {
                                if h3 is Some {
                                    assert(fs[fs.len() - 2] == g);
                                } else {
                                    assert(fs[fs.len() - 1] == g);
                                }
                            } else {
                                assert(rb2.live(g));
                                if h1 == Some(g) {
                                    assert(fs[0] == g);
                                } else {
                                    assert(rb1.live(g));
                                    assert(rb0.live(g));
                                    if old_best.contains(g) {
                                        let k = choose|k: int| 0 <= k < old_best.len() && old_best[k] == g;
                                        assert(!rb1.live(old_best[k]));
                                    }
                                }
                            }
                        }
                    }
                    assert forall|k: int, l: int| 0 <= k < l < fs.len() implies fs[k] != fs[l] by {
                        if h1 is Some && fs[k] == h1.unwrap() {
                            assert(rb2.live(fs[k]) && rb3.live(fs[k]));
                        } else if h2 is Some && fs[k] == h2.unwrap() {
                            assert(rb3.live(fs[k]));
                        }
                    }
                    if R::gives_handles() {
                        let (a1, a2, a3) = (h1.unwrap(), h2.unwrap(), h3.unwrap());
                        assert(fs =~= seq![a1, a2, a3]);
                        assert(rb3.live(a1) && rb3.shape_of(a1) == rb2.shape_of(a1));
                        assert(record.live(a1) && record.shape_of(a1) == rb3.shape_of(a1));
                        assert(record.live(a2) && record.shape_of(a2) == rb3.shape_of(a2));
                        assert(shows_exact(*record, fs, pr));
                        let hi = hdl_i.unwrap();
                        assert(!old_best.contains(hi));
                        assert(rb0.live(hi));
                        assert(rb1.live(hi) && rb1.shape_of(hi) == rb0.shape_of(hi));
                        assert(rb2.live(hi) && rb2.shape_of(hi) == rb1.shape_of(hi));
                        assert(rb3.live(hi) && rb3.shape_of(hi) == rb2.shape_of(hi));
                        assert(record.shape_of(hi) == rb3.shape_of(hi));
                        assert(shapes_of(rb0, old_best) =~= shown_shapes(shown));
                        if R::keeps_events() {
                            assert(record.events() =~= r0.events() + acc + try_events(band@, i as int, j as int)
                                + remove_events(shown_shapes(shown)) + add_events(shown_shapes(pr)));
                        }
                    }
                }
                hdls_best = fresh;
            }
            proof {
                assert(pr == Some(Pair(band@[i as int], band@[j as int])));
                lemma_trial_step(band@, d, prev, shown, i as int, j as int, acc, total);
                acc = acc + trial_events(band@, prev, shown, i as int, j as int);
                shown = trial_shown(band@, prev, shown, i as int, j as int);
            }
            j = j + 1;
        }
        let ghost rx = *record;
        record.remove(&hdl_i);
        proof {
            let rm = Event::Remove(Some(candidate_point(band@, i as int)));
            let ghost acc0 = acc;
            acc = acc.push(rm);
            assert(acc0 + seq![rm] + scan_all_trace(band@, d, res, shown, i + 1).1
                =~= acc + scan_all_trace(band@, d, res, shown, i + 1).1);
            if R::gives_handles() {
                assert forall|k: int| 0 <= k < hdls_best@.len()
                    implies #[trigger] record.shape_of(hdls_best@[k]) == shown_shapes(shown)[k] by {
                    assert(rx.live(hdls_best@[k]));
                    assert(hdls_best@[k] != hdl_i.unwrap());
                    assert(record.live(hdls_best@[k]));
                    assert(rx.shape_of(hdls_best@[k]) == shown_shapes(shown)[k]);
                }
                if R::keeps_events() {
                    assert(record.events() =~= r0.events() + acc);
                }
            }
            assert forall|g: ShapeHandle| record.live(g) implies (r0.live(g) && !h0.contains(g)) || hdls_best@.contains(g) by {
                assert(rx.live(g));
            }
        }
        i = i + 1;
    }
    proof {
        reveal(only_new);
        if nv >= 2 {
            assert(covered(band@, res, 0, 1));
        }
        if let Some(r) = res {
            assert forall|a: int, b: int| 0 <= a < band@.len() && 0 <= b < band@.len() && a != b
                implies dist_sq(#[trigger] band@[a], #[trigger] band@[b]) >= pair_len_sq(r) by {
                if b < a {
                    assert(covered(band@, res, b, a));
                    crate::point::lemma_dist_sq_symmetric(band@[a], band@[b]);
                } else {
                    assert(covered(band@, res, a, b));
                }
            }
        }
    }
    (res, hdls_best)
}

/// The floor of the square root of `n`.
pub open spec fn isqrt(n: int) -> int {
    choose|r: int| is_floor_sqrt(r, n)
}

/// The band around the dividing line at `mid_x`, as wide on each side as
/// the best distance so far (rounded down), cut to the range `xrange`; the
/// whole range when there is no best pair yet.
pub open spec fn band_cover(xrange: (i64, i64), mid_x: i64, d: Option<u128>) -> Shape {
    match d {
        None => Shape::ShadedRect { xl: xrange.0, xr: xrange.1, style: 1 },
        Some(dd) => {
            let w = isqrt(dd as int);
            let lo = mid_x - w;
            let hi = mid_x + w;
            Shape::ShadedRect {
                xl: if lo < xrange.0 { xrange.0 } else { lo as i64 },
                xr: if hi > xrange.1 { xrange.1 } else { hi as i64 },
                style: 1,
            }
        },
    }
}

/// The band shown at a level lies in the strip around the dividing line as
/// wide on each side as the best distance so far (rounded down to `w`), and
/// within the range `xrange`: its left edge is the larger of `mid_x - w` and
/// the left end of the range, its right edge the smaller of `mid_x + w` and
/// the right end. With no best pair yet it covers the whole range.
pub proof fn lemma_band_in_strip(xrange: (i64, i64), mid_x: i64, dd: u128, w: int)
    requires
        is_floor_sqrt(w, dd as int),
    ensures
        band_cover(xrange, mid_x, None) == (Shape::ShadedRect { xl: xrange.0, xr: xrange.1, style: 1 }),
        band_cover(xrange, mid_x, Some(dd)) matches Shape::ShadedRect { xl, xr, style } && {
            &&& style == 1
            &&& xl >= mid_x - w && xl >= xrange.0
            &&& (xl == mid_x - w || xl == xrange.0)
            &&& xr <= mid_x + w && xr <= xrange.1
            &&& (xr == mid_x + w || xr == xrange.1)
        },
{
    lemma_floor_sqrt_unique(isqrt(dd as int), w, dd as int);
}

/// The steps of the opening of a level of the search: the dividing line at
/// `mid_x` and a frame, then the right part of `xrange` shaded and a frame.
pub open spec fn opening_events(xrange: (i64, i64), mid_x: i64, level: usize) -> Seq<Event> {
    seq![
        Event::Add(Shape::DivLine { x: mid_x, level }),
        Event::Frame(Some(200_000u64)),
        Event::Add(Shape::ShadedRect { xl: mid_x, xr: xrange.1, style: 0 }),
        Event::Frame(Some(200_000u64)),
    ]
}

/// Between the two halves: the right part unshaded and a frame, the left
/// part shaded and a frame.
pub open spec fn turn_events(xrange: (i64, i64), mid_x: i64) -> Seq<Event> {
    seq![
        Event::Remove(Some(Shape::ShadedRect { xl: mid_x, xr: xrange.1, style: 0 })),
        Event::Frame(Some(200_000u64)),
        Event::Add(Shape::ShadedRect { xl: xrange.0, xr: mid_x, style: 0 }),
        Event::Frame(Some(200_000u64)),
    ]
}

/// After the right half: the left part unshaded and a frame.
pub open spec fn unshade_events(xrange: (i64, i64), mid_x: i64) -> Seq<Event> {
    seq![
        Event::Remove(Some(Shape::ShadedRect { xl: xrange.0, xr: mid_x, style: 0 })),
        Event::Frame(Some(200_000u64)),
    ]
}

/// The band shown, with a frame of 0.5 s.
pub open spec fn band_events(band: Shape) -> Seq<Event> {
    seq![Event::Add(band), Event::Frame(Some(500_000u64))]
}

/// The end of a level: the dividing line and the band taken off, and a
/// frame of 1 s.
pub open spec fn closing_events(mid_x: i64, level: usize, band: Shape) -> Seq<Event> {
    seq![
        Event::Remove(Some(Shape::DivLine { x: mid_x, level })),
        Event::Remove(Some(band)),
        Event::Frame(Some(1_000_000u64)),
    ]
}

/// The end of a level as reported: the shape of the dividing line's handle
/// (if any) and the band taken off, and a frame of 1 s.
pub open spec fn closing_level_events<R: Recording>(rec: R, hdl_div: Option<ShapeHandle>, band: Shape) -> Seq<Event> {
    seq![
        Event::Remove(match hdl_div {
            Some(h) => Some(rec.shape_of(h)),
            None => None,
        }),
        Event::Remove(Some(band)),
        Event::Frame(Some(1_000_000u64)),
    ]
}

/// The second part of a level of the animated search on `points`, after
/// both halves were searched and `shown_l`, `shown_r` are the pairs they
/// left on screen: the pair of the half whose pair is not kept is taken
/// off, the band is shown and its pairs are tried, and the dividing line
/// and the band are taken off; with the pair shown at the end.
pub open spec fn level_tail(
    points: Seq<Point>,
    xrange: (i64, i64),
    level: usize,
    shown_l: Option<Pair>,
    shown_r: Option<Pair>,
) -> (Option<Pair>, Seq<Event>) {
    let n = points.len();
    let mid = n / 2;
    let mid_x = points[mid - 1].x;
    let sl = search(points.subrange(0, mid as int));
    let sr = search(points.subrange(mid as int, n as int));
    let res = shorter_spec(sl.0, sr.0);
    let keep_left = same_opt_pair(sl.0, res);
    let d = match res {
        Some(p) => Some(pair_len_sq(p) as u128),
        None => None,
    };
    let bandc = band_cover(xrange, mid_x, d);
    let sc = band_trace(band_of(merge_of(sl.1, sr.1, true), mid_x, d), d, res,
        if keep_left { shown_l } else { shown_r });
    (sc.0, remove_events(shown_shapes(if keep_left { shown_r } else { shown_l })) + band_events(bandc)
        + sc.1 + closing_events(mid_x, level, bandc))
}

/// What the animated search reports on points ordered by `x`, in the range
/// `xrange` at depth `level`, and the pair shown at the end. A level shows
/// its dividing line, shades the right part while the left half is
/// searched and the left part while the right half is searched, takes off
/// the pair of the half whose pair is not kept, shows the band, tries its
/// pairs, and takes off the line and the band.
#[verifier::opaque]
pub open spec fn animation(points: Seq<Point>, xrange: (i64, i64), level: usize) -> (Option<Pair>, Seq<Event>)
    decreases points.len(),
{
    if points.len() <= 1 {
        (None, Seq::empty())
    } else {
        let n = points.len();
        let mid = n / 2;
        let mid_x = points[mid - 1].x;
        let al = animation(points.subrange(0, mid as int), (xrange.0, mid_x), (level + 1) as usize);
        let ar = animation(points.subrange(mid as int, n as int), (mid_x, xrange.1), (level + 1) as usize);
        let t = level_tail(points, xrange, level, al.0, ar.0);
        (t.0, opening_events(xrange, mid_x, level) + al.1 + turn_events(xrange, mid_x) + ar.1
            + unshade_events(xrange, mid_x) + t.1)
    }
}

/// One level of the animated search, put together from the reports of its
/// halves and of its second part.
proof fn lemma_level_events(
    p0: Seq<Point>,
    xrange: (i64, i64),
    level: usize,
    e0: Seq<Event>,
    e12: Seq<Event>,
    ef: Seq<Event>,
)
    requires
        p0.len() >= 2,
        ({
            let n = p0.len();
            let mid = n / 2;
            let mid_x = p0[mid - 1].x;
            let al = animation(p0.subrange(0, mid as int), (xrange.0, mid_x), (level + 1) as usize);
            let ar = animation(p0.subrange(mid as int, n as int), (mid_x, xrange.1), (level + 1) as usize);
            &&& e12 == e0 + opening_events(xrange, mid_x, level) + al.1 + turn_events(xrange, mid_x) + ar.1
                + unshade_events(xrange, mid_x)
            &&& ef == e12 + level_tail(p0, xrange, level, al.0, ar.0).1
        }),
    ensures
        ef == e0 + animation(p0, xrange, level).1,
{
    reveal(animation);
    assert(ef =~= e0 + animation(p0, xrange, level).1);
}

/// The pair shown at the end of a level is the one its second part shows.
proof fn lemma_level_pair(p0: Seq<Point>, xrange: (i64, i64), level: usize)
    requires
        p0.len() >= 2,
    ensures
        ({
            let n = p0.len();
            let mid = n / 2;
            let mid_x = p0[mid - 1].x;
            let al = animation(p0.subrange(0, mid as int), (xrange.0, mid_x), (level + 1) as usize);
            let ar = animation(p0.subrange(mid as int, n as int), (mid_x, xrange.1), (level + 1) as usize);
            animation(p0, xrange, level).0 == level_tail(p0, xrange, level, al.0, ar.0).0
        }),
{
    reveal(animation);
}

/// The pair, in the form that `alg` gives its result.
pub open spec fn as_result(o: Option<Pair>) -> Option<ClosestPairResult> {
    match o {
        Some(p) => Some(ClosestPairResult { p1: p.0, p2: p.1 }),
        None => None,
    }
}

/// The handle, if any, refers to a shape on screen.
pub open spec fn opt_live<R: Recording>(r: R, h: Option<ShapeHandle>) -> bool {
    h matches Some(x) ==> r.live(x)
}

/// Everything on screen in `a` is still on screen in `b`, each handle
/// referring to the same shape.
pub open spec fn keeps<R: Recording>(a: R, b: R) -> bool {
    &&& forall|g: ShapeHandle| a.live(g) ==> b.live(g)
    &&& forall|g: ShapeHandle| a.live(g) ==> #[trigger] b.shape_of(g) == a.shape_of(g)
}

/// Shows the band, searches it, and closes the level: the band is shown
/// for 0.5 s, its pairs are tried, and the dividing line and the band are
/// taken off before a frame of 1 s.
#[verifier::rlimit(100)]
#[verifier::spinoff_prover]
fn finish_level<R: Recording>(
    band: &Vec<Point>,
    d: Option<u128>,
    res: Option<Pair>,
    hdls_best: Vec<ShapeHandle>,
    hdl_div: Option<ShapeHandle>,
    band_shape: Shape,
    record: &mut R,
    Ghost(shown): Ghost<Option<Pair>>,
) -> (r: (Option<Pair>, Vec<ShapeHandle>))
    requires
        sorted_by_key(band@, true),
        all_in_range(band@),
        res matches Some(s) ==> in_range(s.0) && in_range(s.1) && (d matches Some(dd) && dd == pair_len_sq(s)),
        res is None ==> d is None,
        all_live(*old(record), hdls_best@),
        distinct(hdls_best@),
        shows_best(*old(record), hdls_best@, res),
        R::gives_handles() ==> shows_exact(*old(record), hdls_best@, shown),
        opt_live(*old(record), hdl_div),
        hdl_div matches Some(hd) ==> !hdls_best@.contains(hd),
    ensures
        best_so_far(band@, res, r.0),
        band@.len() >= 2 ==> r.0 is Some,
        r.0 matches Some(p) ==> no_closer_pair(band@, pair_len_sq(p)),
        r.0 == scan_all(band@, d, res, 0),
        shows_best(*final(record), r.1@, r.0),
        all_live(*final(record), r.1@),
        distinct(r.1@),
        forall|k: int| 0 <= k < r.1@.len() ==> hdls_best@.contains(#[trigger] r.1@[k]) || !old(record).live(r.1@[k]),
        forall|g: ShapeHandle| old(record).live(g) && !hdls_best@.contains(g) && hdl_div != Some(g)
            ==> final(record).live(g) && #[trigger] final(record).shape_of(g) == old(record).shape_of(g),
        forall|g: ShapeHandle| #[trigger] final(record).live(g)
            ==> (old(record).live(g) && !hdls_best@.contains(g) && hdl_div != Some(g)) || r.1@.contains(g),
        hdl_div matches Some(hd) ==> !final(record).live(hd),
        R::gives_handles() ==> shows_exact(*final(record), r.1@, band_trace(band@, d, res, shown).0),
        R::keeps_events() && R::gives_handles() ==> final(record).events() == old(record).events()
            + band_events(band_shape) + band_trace(band@, d, res, shown).1
            + closing_level_events(*old(record), hdl_div, band_shape),
        R::keeps_events() ==> final(record).events().len() > 0
            && final(record).events().last() == Event::Frame(Some(1_000_000)),
{
    let ghost r13 = *record;
    let hdl_band = record.add(band_shape);
    let ghost r14 = *record;
    record.next_frame(Some(500_000));
    let ghost r15 = *record;
    proof {
        assert(keeps(r13, r15));
        assert(all_live(r15, hdls_best@));
        assert forall|k: int| 0 <= k < hdls_best@.len()
            implies #[trigger] r15.shape_of(hdls_best@[k]) == r13.shape_of(hdls_best@[k]) by {
            assert(r13.live(hdls_best@[k]));
        }
        assert(same_opt_pair(res, res)) by {
            if let Some(x) = res {
                assert(same_pair_spec(x, x));
            }
        }
        lemma_shows_best_kept(r13, r15, hdls_best@, res, res);
        if let Some(hb) = hdl_band {
            assert(!r13.live(hb));
            assert(!hdls_best@.contains(hb));
            if let Some(hd) = hdl_div {
                assert(hd != hb);
            }
        }
        if R::gives_handles() {
            reveal(shows_exact);
            assert forall|k: int| 0 <= k < hdls_best@.len()
                implies #[trigger] r15.shape_of(hdls_best@[k]) == shown_shapes(shown)[k] by {
                assert(r13.live(hdls_best@[k]));
            }
        }
        if R::keeps_events() && R::gives_handles() {
            assert(r15.events() =~= r13.events() + band_events(band_shape));
        }
    }
    let ghost h_in = hdls_best@;
    let (best, hdls_best) = scan_band_recorded(band, d, res, hdls_best, record, Ghost(shown));
    let ghost r16 = *record;
    record.remove(&hdl_div);
    let ghost r17 = *record;
    record.remove(&hdl_band);
    let ghost r19 = *record;
    record.next_frame(Some(1_000_000));
    proof {
        assert(kept_handles(r15, h_in, r16, hdls_best@));
        assert forall|g: ShapeHandle| r13.live(g) && !h_in.contains(g) && hdl_div != Some(g)
            implies record.live(g) && #[trigger] record.shape_of(g) == r13.shape_of(g) by {
            assert(r15.live(g) && r15.shape_of(g) == r13.shape_of(g));
            assert(r16.live(g) && r16.shape_of(g) == r15.shape_of(g));
            assert(r17.live(g) && r17.shape_of(g) == r16.shape_of(g));
            if let Some(hb) = hdl_band {
                assert(!r13.live(hb));
            }
            assert(r19.live(g) && r19.shape_of(g) == r17.shape_of(g));
            assert(record.live(g) && record.shape_of(g) == r19.shape_of(g));
        }
        assert forall|k: int| 0 <= k < hdls_best@.len() implies record.live(#[trigger] hdls_best@[k])
            && (h_in.contains(hdls_best@[k]) || !r13.live(hdls_best@[k])) by {
            let e = hdls_best@[k];
            assert(r16.live(e));
            assert(h_in.contains(e) || !r15.live(e));
            assert(Some(e) != hdl_div);
            assert(r17.live(e));
            if let Some(hb) = hdl_band {
                assert(hb != e);
            }
            assert(r19.live(e));
        }
        assert forall|k: int| 0 <= k < hdls_best@.len()
            implies #[trigger] record.shape_of(hdls_best@[k]) == r16.shape_of(hdls_best@[k]) by {
            let e = hdls_best@[k];
            assert(r16.live(e));
            assert(Some(e) != hdl_div);
            assert(r17.live(e) && r17.shape_of(e) == r16.shape_of(e));
            if let Some(hb) = hdl_band {
                assert(hb != e);
            }
            assert(r19.live(e) && r19.shape_of(e) == r17.shape_of(e));
            assert(record.live(e) && record.shape_of(e) == r19.shape_of(e));
        }
        assert(same_opt_pair(best, best)) by {
            if let Some(x) = best {
                assert(same_pair_spec(x, x));
            }
        }
        lemma_shows_best_kept(r16, *record, hdls_best@, best, best);
        assert forall|g: ShapeHandle| #[trigger] record.live(g)
            implies (r13.live(g) && !h_in.contains(g) && hdl_div != Some(g)) || hdls_best@.contains(g) by {
            assert(r19.live(g));
            assert(r17.live(g));
            assert(r16.live(g));
            if !hdls_best@.contains(g) {
                reveal(only_new);
                assert(r15.live(g) && !h_in.contains(g));
                assert(r14.live(g));
                if let Some(hb) = hdl_band {
                    assert(hb != g);
                }
            }
        }
        if R::gives_handles() {
            reveal(shows_exact);
            assert forall|k: int| 0 <= k < hdls_best@.len()
                implies #[trigger] record.shape_of(hdls_best@[k]) == shown_shapes(band_trace(band@, d, res, shown).0)[k] by {
                assert(record.shape_of(hdls_best@[k]) == r16.shape_of(hdls_best@[k]));
            }
            let hb = hdl_band.unwrap();
            assert(r15.live(hb) && r15.shape_of(hb) == r14.shape_of(hb));
            assert(!h_in.contains(hb));
            assert(r16.live(hb) && r16.shape_of(hb) == r15.shape_of(hb));
            if let Some(hd) = hdl_div {
                assert(hd != hb);
                assert(r15.live(hd) && r15.shape_of(hd) == r13.shape_of(hd));
                assert(r16.live(hd) && r16.shape_of(hd) == r15.shape_of(hd));
            }
            assert(r17.live(hb) && r17.shape_of(hb) == r16.shape_of(hb));
            if R::keeps_events() {
                assert(record.events() =~= r13.events() + band_events(band_shape) + band_trace(band@, d, res, shown).1
                    + closing_level_events(r13, hdl_div, band_shape));
            }
        }
    }
    (best, hdls_best)
}

/// The band around the dividing line as a shape (see `band_cover`).
fn band_shape_of(xrange: (i64, i64), mid_x: i64, d: Option<u128>) -> (s: Shape)
    ensures
        s == band_cover(xrange, mid_x, d),
{
    match d {
        None => Shape::ShadedRect { xl: xrange.0, xr: xrange.1, style: 1 },
        Some(dd) => {
            let w0 = floor_sqrt(dd);
            proof {
                lemma_floor_sqrt_unique(isqrt(dd as int), w0 as int, dd as int);
            }
            let w: i128 = w0 as i128;
            let lo: i128 = mid_x as i128 - w;
            let hi: i128 = mid_x as i128 + w;
            let xl: i64 = if lo < xrange.0 as i128 { xrange.0 } else { lo as i64 };
            let xr: i64 = if hi > xrange.1 as i128 { xrange.1 } else { hi as i64 };
            Shape::ShadedRect { xl, xr, style: 1 }
        },
    }
}

/// Keeps on screen the pair of the half whose pair is kept (the left one
/// when its pair is `==` to the better of the two) and takes the other
/// half's pair off.
fn drop_other_side<R: Recording>(
    record: &mut R,
    res_l: Option<Pair>,
    hdl_l: Vec<ShapeHandle>,
    res_r: Option<Pair>,
    hdl_r: Vec<ShapeHandle>,
    Ghost(shown_l): Ghost<Option<Pair>>,
    Ghost(shown_r): Ghost<Option<Pair>>,
) -> (r: Vec<ShapeHandle>)
    requires
        all_live(*old(record), hdl_l@),
        all_live(*old(record), hdl_r@),
        distinct(hdl_l@),
        distinct(hdl_r@),
        forall|k: int, l: int| 0 <= k < hdl_l@.len() && 0 <= l < hdl_r@.len() ==> #[trigger] hdl_l@[k] != #[trigger] hdl_r@[l],
        shows_best(*old(record), hdl_l@, res_l),
        shows_best(*old(record), hdl_r@, res_r),
        R::gives_handles() ==> shows_exact(*old(record), hdl_l@, shown_l) && shows_exact(*old(record), hdl_r@, shown_r),
    ensures
        ({
            let keep_left = same_opt_pair(res_l, shorter_spec(res_l, res_r));
            let dropped = if keep_left { hdl_r@ } else { hdl_l@ };
            &&& r@ == if keep_left { hdl_l@ } else { hdl_r@ }
            &&& forall|g: ShapeHandle| #[trigger] final(record).live(g) ==> old(record).live(g) && !dropped.contains(g)
            &&& forall|g: ShapeHandle| old(record).live(g) && !dropped.contains(g) ==> #[trigger] final(record).live(g)
            &&& forall|g: ShapeHandle| old(record).live(g) && !dropped.contains(g)
                ==> #[trigger] final(record).shape_of(g) == old(record).shape_of(g)
            &&& R::gives_handles() ==> shows_exact(*final(record), r@, if keep_left { shown_l } else { shown_r })
            &&& R::keeps_events() && R::gives_handles() ==> final(record).events() == old(record).events()
                + remove_events(shown_shapes(if keep_left { shown_r } else { shown_l }))
        }),
        all_live(*final(record), r@),
        distinct(r@),
        shows_best(*final(record), r@, shorter_spec(res_l, res_r)),
{
    let ghost r12 = *record;
    let res = shorter(res_l, res_r);
    let hdls_best = if opt_pair_eq(&res_l, &res) {
        remove_all(record, hdl_r);
        proof {
            assert forall|k: int| 0 <= k < hdl_l@.len() implies !hdl_r@.contains(#[trigger] hdl_l@[k]) by {
                if hdl_r@.contains(hdl_l@[k]) {
                    let l = choose|l: int| 0 <= l < hdl_r@.len() && hdl_r@[l] == hdl_l@[k];
                }
            }
            assert forall|k: int| 0 <= k < hdl_l@.len()
                implies #[trigger] record.shape_of(hdl_l@[k]) == r12.shape_of(hdl_l@[k]) by {
                assert(!hdl_r@.contains(hdl_l@[k]));
                assert(r12.live(hdl_l@[k]));
            }
            lemma_shows_best_kept(r12, *record, hdl_l@, res_l, res);
            assert forall|g: ShapeHandle| #[trigger] record.live(g) implies r12.live(g) && !hdl_r@.contains(g) by {
                if hdl_r@.contains(g) {
                    let l = choose|l: int| 0 <= l < hdl_r@.len() && hdl_r@[l] == g;
                    assert(!record.live(hdl_r@[l]));
                }
            }
        }
        hdl_l
    } else {
        remove_all(record, hdl_l);
        proof {
            assert forall|k: int| 0 <= k < hdl_r@.len() implies !hdl_l@.contains(#[trigger] hdl_r@[k]) by {
                if hdl_l@.contains(hdl_r@[k]) {
                    let l = choose|l: int| 0 <= l < hdl_l@.len() && hdl_l@[l] == hdl_r@[k];
                }
            }
            assert forall|k: int| 0 <= k < hdl_r@.len()
                implies #[trigger] record.shape_of(hdl_r@[k]) == r12.shape_of(hdl_r@[k]) by {
                assert(!hdl_l@.contains(hdl_r@[k]));
                assert(r12.live(hdl_r@[k]));
            }
            if res != res_r {
                assert(res == res_l);
                if let Some(x) = res_l {
                    assert(same_pair_spec(x, x));
                }
            }
            assert(same_opt_pair(res_r, res)) by {
                if let Some(x) = res_r {
                    assert(same_pair_spec(x, x));
                }
            }
            lemma_shows_best_kept(r12, *record, hdl_r@, res_r, res);
            assert forall|g: ShapeHandle| #[trigger] record.live(g) implies r12.live(g) && !hdl_l@.contains(g) by {
                if hdl_l@.contains(g) {
                    let l = choose|l: int| 0 <= l < hdl_l@.len() && hdl_l@[l] == g;
                    assert(!record.live(hdl_l@[l]));
                }
            }
        }
        hdl_r
    };
    proof {
        let keep_left = same_opt_pair(res_l, res);
        let dropped = if keep_left { hdl_r@ } else { hdl_l@ };
        assert forall|g: ShapeHandle| r12.live(g) && !dropped.contains(g)
            implies #[trigger] record.live(g) && record.shape_of(g) == r12.shape_of(g) by {
        }
        if R::gives_handles() {
            reveal(shows_exact);
            let shown = if keep_left { shown_l } else { shown_r };
            assert forall|k: int| 0 <= k < hdls_best@.len()
                implies #[trigger] record.shape_of(hdls_best@[k]) == shown_shapes(shown)[k] by {
                assert(r12.live(hdls_best@[k]));
            }
            if R::keeps_events() {
                assert(shapes_of(r12, dropped) =~= shown_shapes(if keep_left { shown_r } else { shown_l }));
            }
        }
    }
    hdls_best
}

/// Opens a level of the search: the dividing line at `mid_x` and a frame,
/// then the right part of `xrange` shaded and a frame. Gives back the
/// handles of the line and of the shading.
fn open_level<R: Recording>(
    record: &mut R,
    xrange: (i64, i64),
    mid_x: i64,
    level: usize,
) -> (r: (Option<ShapeHandle>, Option<ShapeHandle>))
    ensures
        keeps(*old(record), *final(record)),
        forall|g: ShapeHandle| #[trigger] final(record).live(g) ==> old(record).live(g) || Some(g) == r.0 || Some(g) == r.1,
        r.0 matches Some(h) ==> final(record).live(h) && !old(record).live(h)
            && final(record).shape_of(h) == (Shape::DivLine { x: mid_x, level }),
        r.1 matches Some(c) ==> final(record).live(c) && !old(record).live(c)
            && final(record).shape_of(c) == (Shape::ShadedRect { xl: mid_x, xr: xrange.1, style: 0 }),
        r.0 matches Some(h) ==> r.1 != Some(h),
        R::gives_handles() ==> r.0 is Some && r.1 is Some,
        R::keeps_events() ==> final(record).events() == old(record).events() + opening_events(xrange, mid_x, level),
{
    let ghost r0 = *record;
    let hdl_div = record.add(Shape::DivLine { x: mid_x, level });
    let ghost r1 = *record;
    record.next_frame(Some(200_000));
    let ghost r2 = *record;
    let cover_r = record.add(Shape::ShadedRect { xl: mid_x, xr: xrange.1, style: 0 });
    let ghost r3 = *record;
    record.next_frame(Some(200_000));
    proof {
        assert forall|g: ShapeHandle| r0.live(g) implies record.live(g) && #[trigger] record.shape_of(g) == r0.shape_of(g) by {
            assert(r1.live(g) && r1.shape_of(g) == r0.shape_of(g));
            assert(r2.live(g) && r2.shape_of(g) == r1.shape_of(g));
            assert(r3.live(g) && r3.shape_of(g) == r2.shape_of(g));
        }
        assert forall|g: ShapeHandle| #[trigger] record.live(g) implies r0.live(g) || Some(g) == hdl_div || Some(g) == cover_r by {
            assert(r3.live(g));
            assert(r2.live(g) || Some(g) == cover_r);
        }
        if let Some(h) = hdl_div {
            assert(r2.live(h) && r2.shape_of(h) == r1.shape_of(h));
            assert(r3.live(h) && r3.shape_of(h) == r2.shape_of(h));
        }
        if let Some(c) = cover_r {
            assert(!r2.live(c));
            if r0.live(c) {
                assert(r2.live(c));
            }
        }
        if R::keeps_events() {
            assert(record.events() =~= r0.events() + opening_events(xrange, mid_x, level));
        }
    }
    (hdl_div, cover_r)
}

/// Between the two halves: the shading of the right part taken off and a
/// frame, then the left part shaded and a frame. Gives back the handle of
/// the new shading.
fn between_halves<R: Recording>(
    record: &mut R,
    cover_r: &Option<ShapeHandle>,
    xrange: (i64, i64),
    mid_x: i64,
) -> (cl: Option<ShapeHandle>)
    requires
        opt_live(*old(record), *cover_r),
        R::gives_handles() ==> (*cover_r matches Some(c)
            && old(record).shape_of(c) == (Shape::ShadedRect { xl: mid_x, xr: xrange.1, style: 0 })),
    ensures
        forall|g: ShapeHandle| old(record).live(g) && Some(g) != *cover_r ==> #[trigger] final(record).live(g),
        forall|g: ShapeHandle| old(record).live(g) && Some(g) != *cover_r
            ==> #[trigger] final(record).shape_of(g) == old(record).shape_of(g),
        forall|g: ShapeHandle| #[trigger] final(record).live(g) ==> (old(record).live(g) && Some(g) != *cover_r) || Some(g) == cl,
        cl matches Some(h) ==> final(record).live(h) && !(old(record).live(h) && Some(h) != *cover_r)
            && final(record).shape_of(h) == (Shape::ShadedRect { xl: xrange.0, xr: mid_x, style: 0 }),
        R::gives_handles() ==> cl is Some,
        R::keeps_events() && R::gives_handles() ==> final(record).events() == old(record).events() + turn_events(xrange, mid_x),
{
    let ghost r5 = *record;
    record.remove(cover_r);
    let ghost r6 = *record;
    record.next_frame(Some(200_000));
    let ghost r7 = *record;
    let cover_l = record.add(Shape::ShadedRect { xl: xrange.0, xr: mid_x, style: 0 });
    let ghost r8 = *record;
    record.next_frame(Some(200_000));
    proof {
        assert forall|g: ShapeHandle| r5.live(g) && Some(g) != *cover_r
            implies #[trigger] record.live(g) && record.shape_of(g) == r5.shape_of(g) by {
            assert(r6.live(g) && r6.shape_of(g) == r5.shape_of(g));
            assert(r7.live(g) && r7.shape_of(g) == r6.shape_of(g));
            assert(r8.live(g) && r8.shape_of(g) == r7.shape_of(g));
        }
        assert forall|g: ShapeHandle| #[trigger] record.live(g) implies (r5.live(g) && Some(g) != *cover_r) || Some(g) == cover_l by {
            assert(r8.live(g));
            if Some(g) != cover_l {
                assert(r7.live(g));
                assert(r6.live(g));
            }
        }
        if let Some(h) = cover_l {
            assert(!r7.live(h));
            assert(record.live(h) && record.shape_of(h) == r8.shape_of(h));
            if r5.live(h) && Some(h) != *cover_r {
                assert(r7.live(h));
            }
        }
        if R::keeps_events() && R::gives_handles() {
            assert(record.events() =~= r5.events() + turn_events(xrange, mid_x));
        }
    }
    cover_l
}

/// After the right half: the shading of the left part taken off and a
/// frame.
fn close_halves<R: Recording>(record: &mut R, cover_l: &Option<ShapeHandle>, xrange: (i64, i64), mid_x: i64)
    requires
        opt_live(*old(record), *cover_l),
        R::gives_handles() ==> (*cover_l matches Some(c)
            && old(record).shape_of(c) == (Shape::ShadedRect { xl: xrange.0, xr: mid_x, style: 0 })),
    ensures
        forall|g: ShapeHandle| old(record).live(g) && Some(g) != *cover_l ==> #[trigger] final(record).live(g),
        forall|g: ShapeHandle| old(record).live(g) && Some(g) != *cover_l
            ==> #[trigger] final(record).shape_of(g) == old(record).shape_of(g),
        forall|g: ShapeHandle| #[trigger] final(record).live(g) ==> old(record).live(g) && Some(g) != *cover_l,
        R::keeps_events() && R::gives_handles() ==> final(record).events() == old(record).events() + unshade_events(xrange, mid_x),
{
    let ghost r10 = *record;
    record.remove(cover_l);
    let ghost r11 = *record;
    record.next_frame(Some(200_000));
    proof {
        assert forall|g: ShapeHandle| r10.live(g) && Some(g) != *cover_l
            implies #[trigger] record.live(g) && record.shape_of(g) == r10.shape_of(g) by {
            assert(r11.live(g) && r11.shape_of(g) == r10.shape_of(g));
        }
        assert forall|g: ShapeHandle| #[trigger] record.live(g) implies r10.live(g) && Some(g) != *cover_l by {
            assert(r11.live(g));
        }
        if R::keeps_events() && R::gives_handles() {
            assert(record.events() =~= r10.events() + unshade_events(xrange, mid_x));
        }
    }
}

/// The second part of a level of the search on `p0`, once both halves
/// were searched: their points, ordered by `y`, stand in the two halves of
/// `points`, and `hdl_l`, `hdl_r` show their pairs `res_l`, `res_r`. Keeps
/// the better pair's shapes, merges the halves, searches the band around
/// the dividing line, and closes the level.
#[verifier::rlimit(100)]
#[verifier::spinoff_prover]
fn combine_level<R: Recording>(
    points: &mut [Point],
    aux: &mut [Point],
    mid: usize,
    mid_x: i64,
    xrange: (i64, i64),
    level: usize,
    res_l: Option<Pair>,
    hdl_l: Vec<ShapeHandle>,
    res_r: Option<Pair>,
    hdl_r: Vec<ShapeHandle>,
    hdl_div: Option<ShapeHandle>,
    record: &mut R,
    Ghost(p0): Ghost<Seq<Point>>,
    Ghost(shown_l): Ghost<Option<Pair>>,
    Ghost(shown_r): Ghost<Option<Pair>>,
) -> (r: (Option<Pair>, Vec<ShapeHandle>))
    requires
        p0.len() >= 2,
        mid == p0.len() / 2,
        mid_x == p0[mid - 1].x,
        old(points)@.len() == p0.len(),
        old(aux)@.len() == p0.len(),
        sorted_by_key(p0, false),
        all_in_range(p0),
        search(p0.subrange(0, mid as int)) == (res_l, old(points)@.subrange(0, mid as int)),
        search(p0.subrange(mid as int, p0.len() as int)) == (res_r, old(points)@.subrange(mid as int, p0.len() as int)),
        sorted_by_key(old(points)@.subrange(0, mid as int), true),
        sorted_by_key(old(points)@.subrange(mid as int, p0.len() as int), true),
        old(points)@.subrange(0, mid as int).to_multiset() == p0.subrange(0, mid as int).to_multiset(),
        old(points)@.subrange(mid as int, p0.len() as int).to_multiset()
            == p0.subrange(mid as int, p0.len() as int).to_multiset(),
        res_l is None <==> mid == 1,
        res_r is None <==> p0.len() - mid == 1,
        res_l matches Some(p) ==> in_range(p.0) && in_range(p.1) && is_closest_pair(p0.subrange(0, mid as int), p.0, p.1),
        res_r matches Some(p) ==> in_range(p.0) && in_range(p.1)
            && is_closest_pair(p0.subrange(mid as int, p0.len() as int), p.0, p.1),
        all_live(*old(record), hdl_l@),
        all_live(*old(record), hdl_r@),
        distinct(hdl_l@),
        distinct(hdl_r@),
        forall|k: int, l: int| 0 <= k < hdl_l@.len() && 0 <= l < hdl_r@.len() ==> #[trigger] hdl_l@[k] != #[trigger] hdl_r@[l],
        shows_best(*old(record), hdl_l@, res_l),
        shows_best(*old(record), hdl_r@, res_r),
        R::gives_handles() ==> shows_exact(*old(record), hdl_l@, shown_l) && shows_exact(*old(record), hdl_r@, shown_r),
        opt_live(*old(record), hdl_div),
        hdl_div matches Some(hd) ==> !hdl_l@.contains(hd) && !hdl_r@.contains(hd),
        R::gives_handles() ==> (hdl_div matches Some(hd)
            && old(record).shape_of(hd) == (Shape::DivLine { x: p0[mid - 1].x, level })),
    ensures
        final(points)@ == search(p0).1,
        r.0 == search(p0).0,
        final(points)@.len() == p0.len(),
        final(aux)@.len() == p0.len(),
        final(points)@.to_multiset() == p0.to_multiset(),
        sorted_by_key(final(points)@, true),
        all_in_range(final(points)@),
        r.0 is Some,
        r.0 matches Some(p) ==> in_range(p.0) && in_range(p.1) && is_closest_pair(p0, p.0, p.1),
        forall|g: ShapeHandle| old(record).live(g) && !hdl_l@.contains(g) && !hdl_r@.contains(g) && hdl_div != Some(g)
            ==> #[trigger] final(record).live(g) && final(record).shape_of(g) == old(record).shape_of(g),
        forall|g: ShapeHandle| #[trigger] final(record).live(g) ==> (old(record).live(g) && !hdl_l@.contains(g)
            && !hdl_r@.contains(g) && hdl_div != Some(g)) || r.1@.contains(g),
        all_live(*final(record), r.1@),
        distinct(r.1@),
        forall|k: int| 0 <= k < r.1@.len() ==> !old(record).live(#[trigger] r.1@[k])
            || hdl_l@.contains(r.1@[k]) || hdl_r@.contains(r.1@[k]),
        shows_best(*final(record), r.1@, r.0),
        R::gives_handles() ==> shows_exact(*final(record), r.1@, level_tail(p0, xrange, level, shown_l, shown_r).0),
        R::keeps_events() && R::gives_handles() ==> final(record).events()
            == old(record).events() + level_tail(p0, xrange, level, shown_l, shown_r).1,
        R::keeps_events() ==> final(record).events().len() > 0
            && final(record).events().last() == Event::Frame(Some(1_000_000)),
{
    let ghost r12 = *record;
    let n = points.len();
    let ghost left = p0.subrange(0, mid as int);
    let ghost right = p0.subrange(mid as int, n as int);
    let ghost yl = points@.subrange(0, mid as int);
    let ghost yr = points@.subrange(mid as int, n as int);
    proof {
        assert(in_range(p0[mid - 1]));
        assert forall|t: int| 0 <= t < left.len() implies (#[trigger] left[t]).x <= mid_x by {
            assert(key(p0[t], false) <= key(p0[mid - 1], false));
        }
        assert forall|t: int| 0 <= t < right.len() implies (#[trigger] right[t]).x >= mid_x by {
            assert(key(p0[mid - 1], false) <= key(p0[mid + t], false));
        }
        assert(points@ =~= yl + yr);
    }
    let res = shorter(res_l, res_r);
    let hdls_best = drop_other_side(record, res_l, hdl_l, res_r, hdl_r, Ghost(shown_l), Ghost(shown_r));
    let ghost r13 = *record;
    let ghost before_merge = points@;
    merge_halves(points, aux, mid, true);
    proof {
        assert(before_merge.subrange(0, mid as int) =~= yl);
        assert(before_merge.subrange(mid as int, n as int) =~= yr);
    }
    proof {
        vstd::seq_lib::lemma_multiset_commutative(yl, yr);
        vstd::seq_lib::lemma_multiset_commutative(left, right);
        assert(p0 =~= left + right);
        assert forall|t: int| 0 <= t < points@.len() implies #[trigger] in_range(points@[t]) by {
            vstd::seq_lib::to_multiset_contains(points@, points@[t]);
            vstd::seq_lib::to_multiset_contains(p0, points@[t]);
            let u = choose|u: int| 0 <= u < p0.len() && p0[u] == points@[t];
            assert(in_range(p0[u]));
        }
    }
    let d: Option<u128> = match res {
        Some(p) => Some(p.0.squared_distance(&p.1)),
        None => None,
    };
    let band = collect_band(points, mid_x, d);
    let band_shape = band_shape_of(xrange, mid_x, d);
    proof {
        let keep_left = same_opt_pair(res_l, res);
        let dropped = if keep_left { hdl_r@ } else { hdl_l@ };
        if let Some(hd) = hdl_div {
            if dropped.contains(hd) {
                let k = choose|k: int| 0 <= k < dropped.len() && dropped[k] == hd;
            }
            if hdls_best@.contains(hd) {
                let k = choose|k: int| 0 <= k < hdls_best@.len() && hdls_best@[k] == hd;
            }
            assert(r13.live(hd));
            assert(!hdls_best@.contains(hd));
        }
    }
    let ghost h_in = hdls_best@;
    let (best, hdls_best) = finish_level(&band, d, res, hdls_best, hdl_div, band_shape, record,
        Ghost(if same_opt_pair(res_l, res) { shown_l } else { shown_r }));
    proof {
        let keep_left = same_opt_pair(res_l, res);
        let dropped = if keep_left { hdl_r@ } else { hdl_l@ };
        assert forall|g: ShapeHandle| r12.live(g) && !hdl_l@.contains(g) && !hdl_r@.contains(g) && hdl_div != Some(g)
            implies #[trigger] record.live(g) && record.shape_of(g) == r12.shape_of(g) by {
            assert(!dropped.contains(g));
            assert(r13.live(g));
            assert(r13.shape_of(g) == r12.shape_of(g));
            assert(h_in == (if keep_left { hdl_l@ } else { hdl_r@ }));
            assert(!h_in.contains(g));
            assert(record.shape_of(g) == r13.shape_of(g));
            assert(record.live(g));
        }
        assert forall|k: int| 0 <= k < hdls_best@.len() implies !r12.live(#[trigger] hdls_best@[k])
            || hdl_l@.contains(hdls_best@[k]) || hdl_r@.contains(hdls_best@[k]) by {
            let e = hdls_best@[k];
            if h_in.contains(e) {
                let l = choose|l: int| 0 <= l < h_in.len() && h_in[l] == e;
            } else if r12.live(e) && !dropped.contains(e) {
                assert(r13.live(e));
            }
        }
        assert forall|g: ShapeHandle| #[trigger] record.live(g) implies (r12.live(g) && !hdl_l@.contains(g)
            && !hdl_r@.contains(g) && hdl_div != Some(g)) || hdls_best@.contains(g) by {
            if !hdls_best@.contains(g) {
                assert(r13.live(g) && !h_in.contains(g) && hdl_div != Some(g));
                assert(r12.live(g) && !dropped.contains(g));
            }
        }
        lemma_rec_step(p0, left, right, mid_x, points@, as_result(res_l), as_result(res_r), as_result(res), d,
            band@, as_result(best));
        lemma_search_step(p0, mid as int, res_l, yl, res_r, yr, res, d, best);
        if R::keeps_events() && R::gives_handles() {
            let hd = hdl_div.unwrap();
            assert(r13.shape_of(hd) == r12.shape_of(hd));
            assert(closing_level_events(r13, hdl_div, band_shape) == closing_events(mid_x, level, band_shape));
            assert(record.events() =~= r12.events() + level_tail(p0, xrange, level, shown_l, shown_r).1);
        }
    }
    (best, hdls_best)
}

/// Closest pair of `points`, which are ordered by `x`; on return the
/// points are ordered by `y`.  The handles given back refer to the shapes
/// that show the pair found.
#[verifier::rlimit(100)]
#[verifier::spinoff_prover]
fn closest_pair_rec<R: Recording>(
    points: &mut [Point],
    aux: &mut [Point],
    xrange: (i64, i64),
    level: usize,
    record: &mut R,
) -> (r: (Option<Pair>, Vec<ShapeHandle>))
    requires
        old(points)@.len() >= 1,
        old(aux)@.len() == old(points)@.len(),
        sorted_by_key(old(points)@, false),
        all_in_range(old(points)@),
        level + old(points)@.len() <= usize::MAX,
    ensures
        final(points)@.len() == old(points)@.len(),
        final(aux)@.len() == old(aux)@.len(),
        final(points)@.to_multiset() == old(points)@.to_multiset(),
        sorted_by_key(final(points)@, true),
        all_in_range(final(points)@),
        r.0 is None <==> old(points)@.len() == 1,
        r.0 matches Some(p) ==> in_range(p.0) && in_range(p.1) && is_closest_pair(old(points)@, p.0, p.1),
        keeps(*old(record), *final(record)),
        all_live(*final(record), r.1@),
        distinct(r.1@),
        none_live(*old(record), r.1@),
        shows_best(*final(record), r.1@, r.0),
        forall|g: ShapeHandle| #[trigger] final(record).live(g) ==> old(record).live(g) || r.1@.contains(g),
        old(points)@.len() == 1 ==> *final(record) == *old(record) && r.1@.len() == 0,
        r.0 == search(old(points)@).0,
        final(points)@ == search(old(points)@).1,
        old(points)@.len() >= 2 && R::keeps_events() ==> final(record).events().len() > 0
            && final(record).events().last() == Event::Frame(Some(1_000_000)),
        R::gives_handles() ==> shows_exact(*final(record), r.1@, animation(old(points)@, xrange, level).0),
        R::keeps_events() && R::gives_handles() ==> final(record).events()
            == old(record).events() + animation(old(points)@, xrange, level).1,
    decreases old(points)@.len(),
{
    let n = points.len();
    if n == 1 {
        proof {
            assert(sorted_by_key(points@, true));
            reveal(shows_best);
            reveal(search);
            reveal(animation);
            reveal(shows_exact);
            assert(record.events() =~= record.events() + Seq::<Event>::empty());
        }
        return (None, Vec::new());
    }
    let mid = n / 2;
    let mid_x = points[mid - 1].x;
    let ghost p0 = points@;
    let ghost left = p0.subrange(0, mid as int);
    let ghost right = p0.subrange(mid as int, n as int);
    proof {
        assert(in_range(p0[mid - 1]));
        assert forall|t: int| 0 <= t < left.len() implies (#[trigger] left[t]).x <= mid_x by {
            assert(key(p0[t], false) <= key(p0[mid - 1], false));
        }
        assert forall|t: int| 0 <= t < right.len() implies (#[trigger] right[t]).x >= mid_x by {
            assert(key(p0[mid - 1], false) <= key(p0[mid + t], false));
        }
        assert forall|i: int, j: int| 0 <= i <= j < left.len() implies key(left[i], false) <= key(left[j], false) by {
            assert(key(p0[i], false) <= key(p0[j], false));
        }
        assert forall|i: int, j: int| 0 <= i <= j < right.len() implies key(right[i], false) <= key(right[j], false) by {
            assert(key(p0[mid + i], false) <= key(p0[mid + j], false));
        }
        assert forall|t: int| 0 <= t < left.len() implies #[trigger] in_range(left[t]) by {
            assert(in_range(p0[t]));
        }
        assert forall|t: int| 0 <= t < right.len() implies #[trigger] in_range(right[t]) by {
            assert(in_range(p0[mid + t]));
        }
    }
    let ghost r0 = *record;
    let (hdl_div, cover_r) = open_level(record, xrange, mid_x, level);
    let ghost r4 = *record;
    let ghost yl: Seq<Point>;
    let ghost yr: Seq<Point>;
    let ghost r5: R;
    let ghost r9: R;
    let ghost r10: R;
    let ghost cover_l_g: Option<ShapeHandle>;
    let ghost anim_l = animation(left, (xrange.0, mid_x), (level + 1) as usize);
    let ghost anim_r = animation(right, (mid_x, xrange.1), (level + 1) as usize);
    let (res_l, hdl_l, res_r, hdl_r) = {
        let (pl, pr) = points.split_at_mut(mid);
        let (al, ar) = aux.split_at_mut(mid);
        let (res_l, hdl_l) = closest_pair_rec(pl, al, (xrange.0, mid_x), level + 1, record);
        proof {
            r5 = *record;
            if let Some(c) = cover_r {
                assert(r4.live(c));
            }
        }
        let cover_l = between_halves(record, &cover_r, xrange, mid_x);
        proof {
            r9 = *record;
            cover_l_g = cover_l;
        }
        let (res_r, hdl_r) = closest_pair_rec(pr, ar, (mid_x, xrange.1), level + 1, record);
        proof {
            r10 = *record;
            if let Some(cl) = cover_l {
                assert(r9.live(cl));
            }
        }
        close_halves(record, &cover_l, xrange, mid_x);
        proof {
            yl = pl@;
            yr = pr@;
        }
        (res_l, hdl_l, res_r, hdl_r)
    };
    let ghost r12 = *record;
    proof {
        assert(points@ == yl + yr);
        assert forall|g: ShapeHandle| r0.live(g) implies #[trigger] r12.live(g) && r12.shape_of(g) == r0.shape_of(g) by {
            assert(r4.live(g) && r4.shape_of(g) == r0.shape_of(g));
            assert(r5.live(g) && r5.shape_of(g) == r4.shape_of(g));
            assert(Some(g) != cover_r);
            assert(r9.live(g) && r9.shape_of(g) == r5.shape_of(g));
            assert(r10.live(g) && r10.shape_of(g) == r9.shape_of(g));
            assert(Some(g) != cover_l_g);
            assert(r12.live(g) && r12.shape_of(g) == r10.shape_of(g));
        }
        if let Some(hd) = hdl_div {
            assert(r4.live(hd));
            assert(Some(hd) != cover_r);
            assert(r5.live(hd) && r5.shape_of(hd) == r4.shape_of(hd));
            assert(r9.live(hd) && r9.shape_of(hd) == r5.shape_of(hd));
            assert(r10.live(hd) && r10.shape_of(hd) == r9.shape_of(hd));
            assert(Some(hd) != cover_l_g);
            assert(r12.live(hd) && r12.shape_of(hd) == r10.shape_of(hd));
        }
        assert forall|k: int| 0 <= k < hdl_l@.len() implies r12.live(#[trigger] hdl_l@[k])
            && !r4.live(hdl_l@[k]) && !r0.live(hdl_l@[k]) && Some(hdl_l@[k]) != hdl_div
            && r12.shape_of(hdl_l@[k]) == r5.shape_of(hdl_l@[k]) by {
            let e = hdl_l@[k];
            assert(r5.live(e));
            assert(!r4.live(e));
            if let Some(c) = cover_r {
                assert(r4.live(c));
            }
            assert(Some(e) != cover_r);
            assert(r9.live(e) && r9.shape_of(e) == r5.shape_of(e));
            assert(r10.live(e) && r10.shape_of(e) == r9.shape_of(e));
            assert(Some(e) != cover_l_g);
            assert(r12.live(e) && r12.shape_of(e) == r10.shape_of(e));
        }
        assert forall|k: int| 0 <= k < hdl_r@.len() implies r12.live(#[trigger] hdl_r@[k])
            && !r9.live(hdl_r@[k]) && !r0.live(hdl_r@[k]) && Some(hdl_r@[k]) != hdl_div
            && r12.shape_of(hdl_r@[k]) == r10.shape_of(hdl_r@[k]) by {
            let e = hdl_r@[k];
            assert(r10.live(e));
            assert(!r9.live(e));
            if r0.live(e) {
                assert(r12.live(e));
                assert(r4.live(e) && r5.live(e));
                assert(Some(e) != cover_r);
                assert(r9.live(e));
            }
            if let Some(hd) = hdl_div {
                assert(r9.live(hd));
            }
            if let Some(cl) = cover_l_g {
                assert(r9.live(cl));
            }
            assert(Some(e) != cover_l_g);
            assert(r12.live(e) && r12.shape_of(e) == r10.shape_of(e));
        }
        assert forall|k: int, l: int| 0 <= k < hdl_l@.len() && 0 <= l < hdl_r@.len()
            implies #[trigger] hdl_l@[k] != #[trigger] hdl_r@[l] by {
            assert(r9.live(hdl_l@[k]));
            assert(!r9.live(hdl_r@[l]));
        }
        assert forall|k: int| 0 <= k < hdl_l@.len()
            implies #[trigger] r12.shape_of(hdl_l@[k]) == r5.shape_of(hdl_l@[k]) by {}
        assert forall|k: int| 0 <= k < hdl_r@.len()
            implies #[trigger] r12.shape_of(hdl_r@[k]) == r10.shape_of(hdl_r@[k]) by {}
        lemma_shows_best_kept(r5, r12, hdl_l@, res_l, res_l);
        lemma_shows_best_kept(r10, r12, hdl_r@, res_r, res_r);
        if R::gives_handles() {
            reveal(shows_exact);
            assert forall|k: int| 0 <= k < hdl_l@.len()
                implies #[trigger] r12.shape_of(hdl_l@[k]) == shown_shapes(anim_l.0)[k] by {}
            assert forall|k: int| 0 <= k < hdl_r@.len()
                implies #[trigger] r12.shape_of(hdl_r@[k]) == shown_shapes(anim_r.0)[k] by {}
        }
        assert forall|g: ShapeHandle| #[trigger] r12.live(g)
            implies r0.live(g) || Some(g) == hdl_div || hdl_l@.contains(g) || hdl_r@.contains(g) by {
            assert(r10.live(g));
            if !hdl_r@.contains(g) {
                assert(r9.live(g));
                assert(r5.live(g));
                if !hdl_l@.contains(g) {
                    assert(r4.live(g));
                }
            }
        }
    }
    proof {
        assert(points@.subrange(0, mid as int) =~= yl);
        assert(points@.subrange(mid as int, n as int) =~= yr);
        assert(search(left) == (res_l, yl));
        assert(search(right) == (res_r, yr));
    }
    let (best, hdls_best) = combine_level(points, aux, mid, mid_x, xrange, level, res_l, hdl_l, res_r, hdl_r,
        hdl_div, record, Ghost(p0), Ghost(anim_l.0), Ghost(anim_r.0));
    proof {
        assert forall|g: ShapeHandle| r0.live(g) implies #[trigger] record.live(g) && record.shape_of(g) == r0.shape_of(g) by {
            assert(r12.live(g) && r12.shape_of(g) == r0.shape_of(g));
            assert(!hdl_l@.contains(g)) by {
                if hdl_l@.contains(g) {
                    let k = choose|k: int| 0 <= k < hdl_l@.len() && hdl_l@[k] == g;
                    assert(!r0.live(hdl_l@[k]));
                }
            }
            assert(!hdl_r@.contains(g)) by {
                if hdl_r@.contains(g) {
                    let k = choose|k: int| 0 <= k < hdl_r@.len() && hdl_r@[k] == g;
                    assert(!r0.live(hdl_r@[k]));
                }
            }
            if let Some(hd) = hdl_div {
                assert(!r0.live(hd));
            }
            assert(record.live(g));
            assert(record.shape_of(g) == r12.shape_of(g));
        }
        assert forall|g: ShapeHandle| r0.live(g) implies #[trigger] record.shape_of(g) == r0.shape_of(g) by {
            assert(record.live(g));
        }
        assert forall|k: int| 0 <= k < hdls_best@.len() implies !r0.live(#[trigger] hdls_best@[k]) by {
            let e = hdls_best@[k];
            if hdl_l@.contains(e) {
                let l = choose|l: int| 0 <= l < hdl_l@.len() && hdl_l@[l] == e;
            } else if hdl_r@.contains(e) {
                let l = choose|l: int| 0 <= l < hdl_r@.len() && hdl_r@[l] == e;
            } else if r0.live(e) {
                assert(r12.live(e));
            }
        }
        assert forall|g: ShapeHandle| #[trigger] record.live(g) implies r0.live(g) || hdls_best@.contains(g) by {
            if !hdls_best@.contains(g) {
                assert(r12.live(g));
            }
        }
        lemma_level_pair(p0, xrange, level);
        if R::keeps_events() && R::gives_handles() {
            assert(r12.events() =~= r0.events() + opening_events(xrange, mid_x, level) + anim_l.1
                + turn_events(xrange, mid_x) + anim_r.1 + unshade_events(xrange, mid_x));
            lemma_level_events(p0, xrange, level, r0.events(), r12.events(), record.events());
        }
    }
    (best, hdls_best)
}

/// The points ordered by `x`, those with equal `x` in the order given.
pub open spec fn x_sorted(points: Seq<Point>) -> Seq<Point> {
    choose|s: Seq<Point>| stable_sorted(points, s, false)
}

/// The pair found is a function of the points alone: with or without
/// animation, and whatever the recording, two searches of the same points
/// report the same pair.
pub proof fn lemma_pair_depends_on_points_alone(points: Seq<Point>, p: Pair, q: Pair)
    requires
        search(x_sorted(points)).0 == Some(p),
        search(x_sorted(points)).0 == Some(q),
    ensures
        p == q,
{
}

/// The handles `h` are new since `before`, still on screen in `after`,
/// and show the pair `p`; nothing else has come on screen since `before`.
pub open spec fn shown_alone<R: Recording>(before: R, after: R, h: Seq<ShapeHandle>, p: Pair) -> bool {
    &&& shows_best(after, h, Some(p))
    &&& all_live(after, h)
    &&& none_live(before, h)
    &&& forall|g: ShapeHandle| #[trigger] after.live(g) ==> before.live(g) || h.contains(g)
}

/// Since `before`, the shapes that show the pair `p` have come on screen,
/// and nothing else.
pub open spec fn shown_after<R: Recording>(before: R, after: R, p: Pair) -> bool {
    exists|h: Seq<ShapeHandle>| #[trigger] shown_alone(before, after, h, p)
}

/// The reports that show the pair `p` found: its two points and the segment
/// between them, all in style 0, then one frame that lasts until the
/// playback is told otherwise.
pub open spec fn answer_events(events: Seq<Event>, keeps: bool, p: Pair) -> Seq<Event> {
    let e1 = after_event(events, keeps, Event::Add(Shape::EmpPoint { x: p.0.x, y: p.0.y, style: 0 }));
    let e2 = after_event(e1, keeps, Event::Add(Shape::EmpPoint { x: p.1.x, y: p.1.y, style: 0 }));
    let e3 = after_event(e2, keeps, Event::Add(Shape::EmpLine { x1: p.0.x, y1: p.0.y, x2: p.1.x, y2: p.1.y, style: 0 }));
    after_event(e3, keeps, Event::Frame(None))
}

/// Closest pair of `points`, reporting the search to `record` step by step
/// when `animated`, and otherwise only the pair found, as one last frame.
pub fn closest_pair<R: Recording>(points: Vec<Point>, record: &mut R, animated: bool) -> (r: Result<Pair, String>)
    requires
        all_in_range(points@),
    ensures
        r is Err <==> points@.len() < 2,
        r matches Err(e) ==> e@ == "At least two points are required"@,
        r matches Ok(p) ==> is_closest_pair(points@, p.0, p.1),
        keeps(*old(record), *final(record)),
        r is Err ==> *final(record) == *old(record),
        r matches Ok(p) ==> search(x_sorted(points@)).0 == Some(p),
        animated ==> (r matches Ok(p) ==> shown_after(*old(record), *final(record), p)),
        animated && R::keeps_events() && R::gives_handles() && r is Ok ==> final(record).events()
            == old(record).events() + animation(x_sorted(points@), (i64::MIN, i64::MAX), 0).1,
        animated && R::keeps_events() && r is Ok ==> final(record).events().len() > 0
            && final(record).events().last() == Event::Frame(Some(1_000_000)),
        !animated ==> (r matches Ok(p) ==> final(record).events() == answer_events(old(record).events(), R::keeps_events(), p)),
{
    if points.len() < 2 {
        return Err("At least two points are required".to_owned());
    }
    let ghost p0 = points@;
    let mut points = points;
    sort_x(points.as_mut_slice());
    let ghost s = points@;
    proof {
        assert forall|t: int| 0 <= t < s.len() implies #[trigger] in_range(s[t]) by {
            vstd::seq_lib::to_multiset_contains(s, s[t]);
            vstd::seq_lib::to_multiset_contains(p0, s[t]);
            let u = choose|u: int| 0 <= u < p0.len() && p0[u] == s[t];
            assert(in_range(p0[u]));
        }
    }
    let n = points.len();
    let mut aux = vec![Point::new(0, 0); n];
    let xrange: (i64, i64) = (i64::MIN, i64::MAX);
    let ghost r_in = *record;
    let ghost mut shown: Seq<ShapeHandle> = Seq::empty();
    let pair = if animated {
        let (res, hdls) = closest_pair_rec(points.as_mut_slice(), aux.as_mut_slice(), xrange, 0, record);
        proof {
            shown = hdls@;
        }
        res.unwrap()
    } else {
        let (res, _) = closest_pair_rec(points.as_mut_slice(), aux.as_mut_slice(), xrange, 0, &mut NoRecord);
        let pair = res.unwrap();
        let ghost ra = *record;
        let _ = record.add(Shape::EmpPoint { x: pair.0.x, y: pair.0.y, style: 0 });
        let ghost rb = *record;
        let _ = record.add(Shape::EmpPoint { x: pair.1.x, y: pair.1.y, style: 0 });
        let ghost rc = *record;
        let _ = record.add(Shape::EmpLine { x1: pair.0.x, y1: pair.0.y, x2: pair.1.x, y2: pair.1.y, style: 0 });
        let ghost rd = *record;
        record.next_frame(None);
        proof {
            assert forall|g: ShapeHandle| ra.live(g) implies record.live(g) by {
                assert(rb.live(g));
                assert(rc.live(g));
                assert(rd.live(g));
            }
        }
        pair
    };
    proof {
        lemma_stable_sort_unique(p0, s, x_sorted(p0), false);
        lemma_pair_of_pairable(s, pair.0, pair.1);
        lemma_pair_of_pairable(p0, pair.0, pair.1);
        lemma_no_closer_multiset(s, pair_len_sq(pair));
        lemma_no_closer_multiset(p0, pair_len_sq(pair));
        if animated {
            assert(shows_best(*record, shown, Some(pair)));
            assert(all_live(*record, shown) && none_live(r_in, shown));
            assert(forall|g: ShapeHandle| #[trigger] record.live(g) ==> r_in.live(g) || shown.contains(g));
            assert(shown_alone(r_in, *record, shown, pair));
            assert(shown_after(r_in, *record, pair));
        }
    }
    Ok(pair)
}

} // verus!
