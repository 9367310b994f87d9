//! What a closest pair of a collection of points is, stated over positions in
//! a sequence and over the multiset of its points, with the lemmas that move
//! between the two.
use vstd::prelude::*;
use vstd::multiset::Multiset;
use crate::point::{Point, dist_sq};

verus! {

broadcast use vstd::multiset::group_multiset_axioms;

/// `a` and `b` stand at two different positions of `s`.
pub open spec fn is_pair_of(s: Seq<Point>, a: Point, b: Point) -> bool {
    exists|i: int, j: int|
        0 <= i < s.len() && 0 <= j < s.len() && i != j && #[trigger] s[i] == a && #[trigger] s[j] == b
}

/// Every two points at different positions of `s` are at squared distance at least `d`.
pub open spec fn no_closer_pair(s: Seq<Point>, d: int) -> bool {
    forall|i: int, j: int|
        0 <= i < s.len() && 0 <= j < s.len() && i != j ==> dist_sq(#[trigger] s[i], #[trigger] s[j]) >= d
}

/// `a` and `b` are a closest pair of `s`: they stand at two different
/// positions and no two points of `s` are closer.
pub open spec fn is_closest_pair(s: Seq<Point>, a: Point, b: Point) -> bool {
    is_pair_of(s, a, b) && no_closer_pair(s, dist_sq(a, b))
}

/// The multiset `m` holds `a` and `b` as two of its members.
pub open spec fn pairable(m: Multiset<Point>, a: Point, b: Point) -> bool {
    if a == b {
        m.count(a) >= 2
    } else {
        m.count(a) >= 1 && m.count(b) >= 1
    }
}

/// Every two members of `m` are at squared distance at least `d`.
pub open spec fn no_closer_in(m: Multiset<Point>, d: int) -> bool {
    forall|a: Point, b: Point| #[trigger] pairable(m, a, b) ==> dist_sq(a, b) >= d
}

/// The empty sequence holds no point.
pub proof fn lemma_empty_multiset(s: Seq<Point>)
    requires
        s.len() == 0,
    ensures
        s.to_multiset() == Multiset::<Point>::empty(),
{
    vstd::seq_lib::to_multiset_len(s);
    vstd::multiset::lemma_multiset_empty_len(s.to_multiset());
}

/// A point occurs at least twice in `s` exactly when it stands at two positions.
proof fn lemma_count_two(s: Seq<Point>, a: Point)
    ensures
        s.to_multiset().count(a) >= 2 <==> exists|i: int, j: int|
            0 <= i < s.len() && 0 <= j < s.len() && i != j && #[trigger] s[i] == a && #[trigger] s[j] == a,
    decreases s.len(),
{
    if s.len() == 0 {
        lemma_empty_multiset(s);
    } else {
        let t = s.drop_last();
        let x = s.last();
        lemma_count_two(t, a);
        assert(s =~= t.push(x));
        vstd::seq_lib::to_multiset_build(t, x);
        vstd::seq_lib::to_multiset_contains(t, a);
        if s.to_multiset().count(a) >= 2 {
            if x == a {
                assert(t.contains(a));
                let i = choose|i: int| 0 <= i < t.len() && t[i] == a;
                assert(s[i] == a && s[s.len() - 1] == a);
            } else {
                let (i, j) = choose|i: int, j: int|
                    0 <= i < t.len() && 0 <= j < t.len() && i != j && #[trigger] t[i] == a && #[trigger] t[j] == a;
                assert(s[i] == a && s[j] == a);
            }
        }
        if exists|i: int, j: int|
            0 <= i < s.len() && 0 <= j < s.len() && i != j && #[trigger] s[i] == a && #[trigger] s[j] == a {
            let (i, j) = choose|i: int, j: int|
                0 <= i < s.len() && 0 <= j < s.len() && i != j && #[trigger] s[i] == a && #[trigger] s[j] == a;
            if i == s.len() - 1 {
                assert(t[j] == a);
                assert(t.contains(a));
            } else if j == s.len() - 1 {
                assert(t[i] == a);
                assert(t.contains(a));
            } else {
                assert(t[i] == a && t[j] == a);
            }
        }
    }
}

/// Two positions of `s` hold `a` and `b` exactly when its multiset holds them as a pair.
pub proof fn lemma_pair_of_pairable(s: Seq<Point>, a: Point, b: Point)
    ensures
        is_pair_of(s, a, b) <==> pairable(s.to_multiset(), a, b),
{
    vstd::seq_lib::to_multiset_contains(s, a);
    vstd::seq_lib::to_multiset_contains(s, b);
    lemma_count_two(s, a);
    if a != b {
        if pairable(s.to_multiset(), a, b) {
            let i = choose|i: int| 0 <= i < s.len() && s[i] == a;
            let j = choose|j: int| 0 <= j < s.len() && s[j] == b;
            assert(s[i] == a && s[j] == b);
        }
    }
}

/// The positional and the multiset statements of "no closer pair" agree.
pub proof fn lemma_no_closer_multiset(s: Seq<Point>, d: int)
    ensures
        no_closer_pair(s, d) <==> no_closer_in(s.to_multiset(), d),
{
    if no_closer_pair(s, d) {
        assert forall|a: Point, b: Point| #[trigger] pairable(s.to_multiset(), a, b) implies dist_sq(a, b) >= d by {
            lemma_pair_of_pairable(s, a, b);
            let (i, j) = choose|i: int, j: int|
                0 <= i < s.len() && 0 <= j < s.len() && i != j && #[trigger] s[i] == a && #[trigger] s[j] == b;
        }
    }
    if no_closer_in(s.to_multiset(), d) {
        assert forall|i: int, j: int|
            0 <= i < s.len() && 0 <= j < s.len() && i != j implies dist_sq(#[trigger] s[i], #[trigger] s[j]) >= d by {
            lemma_pair_of_pairable(s, s[i], s[j]);
            assert(pairable(s.to_multiset(), s[i], s[j]));
        }
    }
}

/// All closest pairs of a collection of points have the same length,
/// whatever order the points come in: two sequences that hold the same
/// points have closest pairs of equal squared length.
pub proof fn lemma_closest_pair_length_unique(s: Seq<Point>, t: Seq<Point>, a: Point, b: Point, c: Point, d: Point)
    requires
        s.to_multiset() == t.to_multiset(),
        is_closest_pair(s, a, b),
        is_closest_pair(t, c, d),
    ensures
        dist_sq(a, b) == dist_sq(c, d),
{
    lemma_pair_of_pairable(s, a, b);
    lemma_pair_of_pairable(t, a, b);
    lemma_pair_of_pairable(s, c, d);
    lemma_pair_of_pairable(t, c, d);
    lemma_no_closer_multiset(s, dist_sq(a, b));
    lemma_no_closer_multiset(t, dist_sq(c, d));
    assert(pairable(t.to_multiset(), a, b));
    assert(pairable(s.to_multiset(), c, d));
}

} // verus!
