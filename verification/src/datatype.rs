//! Values compared with a tolerance.
//!
//! `Total<T>` wraps a value and compares it with its neighbours: two values
//! whose difference is below `T::eps()` are equal, otherwise the smaller one
//! is less.  The value types are fixed-point numbers: `Fx32` stands for a
//! single-precision quantity held as a whole number of 10^-9 units, `Fx64`
//! for a double-precision one held as a whole number of 10^-12 units.
use vstd::prelude::*;
use core::cmp::Ordering;
use vstd::std_specs::cmp::PartialEqSpecImpl;
use vstd::std_specs::cmp::PartialOrdSpecImpl;

verus! {

/// Tolerance of `Fx32` values, counted in its units: 10^-6.
pub const EPS_F32: i64 = 1_000;

/// Tolerance of `Fx64` values, counted in its units: 10^-9.
pub const EPS_F64: i64 = 1_000;

/// Absolute value of an integer.
pub open spec fn abs_int(v: int) -> int {
    if v < 0 { -v } else { v }
}

/// A magnitude held in an `i64`: values past `i64::MAX` stop there.
pub open spec fn saturate(v: int) -> int {
    if v > i64::MAX { i64::MAX as int } else { v }
}

/// A number type that `Total` can compare with a tolerance.
pub trait FpCmp: Copy + Sized {
    /// The number this value stands for, in the type's units.
    spec fn spec_value(&self) -> int;

    /// The tolerance, in the type's units.
    spec fn spec_eps() -> int;

    /// Whether the value is not a number.
    spec fn spec_is_nan(&self) -> bool;

    /// The tolerance is positive.
    proof fn lemma_eps_positive()
        ensures
            0 < Self::spec_eps(),
    ;

    fn eps() -> (r: Self)
        ensures
            r.spec_value() == Self::spec_eps(),
            0 < Self::spec_eps() <= i64::MAX,
            !r.spec_is_nan(),
    ;

    /// `|a - b|`, saturated at the largest value of the type.
    fn abs_diff(a: Self, b: Self) -> (r: Self)
        ensures
            r.spec_value() == saturate(abs_int(a.spec_value() - b.spec_value())),
            !r.spec_is_nan(),
    ;

    fn is_nan(self) -> (r: bool)
        ensures
            r == self.spec_is_nan(),
    ;

    /// `a < b`.
    fn less(a: Self, b: Self) -> (r: bool)
        ensures
            r == (a.spec_value() < b.spec_value()),
    ;
}

/// Fixed-point stand-in for an `f32`: a whole number of 10^-9 units.
#[derive(Clone, Copy, Debug, PartialEq, Eq, Structural)]
pub struct Fx32 {
    pub units: i64,
}

/// Fixed-point stand-in for an `f64`: a whole number of 10^-12 units.
#[derive(Clone, Copy, Debug, PartialEq, Eq, Structural)]
pub struct Fx64 {
    pub units: i64,
}

impl Fx32 {
    /// The value of `units` times 10^-9.
    pub fn from_units(units: i64) -> (r: Self)
        ensures
            r.units == units,
    {
        Fx32 { units }
    }
}

impl Fx64 {
    /// The value of `units` times 10^-12.
    pub fn from_units(units: i64) -> (r: Self)
        ensures
            r.units == units,
    {
        Fx64 { units }
    }
}

impl FpCmp for Fx32 {
    open spec fn spec_value(&self) -> int {
        self.units as int
    }

    open spec fn spec_eps() -> int {
        EPS_F32 as int
    }

    open spec fn spec_is_nan(&self) -> bool {
        false
    }

    proof fn lemma_eps_positive() {
    }

    fn eps() -> (r: Self) {
        Fx32 { units: EPS_F32 }
    }

    fn abs_diff(a: Self, b: Self) -> (r: Self) {
        let d: i128 = a.units as i128 - b.units as i128;
        let m: i128 = if d < 0 { -d } else { d };
        if m > i64::MAX as i128 {
            Fx32 { units: i64::MAX }
        } else {
            Fx32 { units: m as i64 }
        }
    }

    fn is_nan(self) -> (r: bool) {
        false
    }

    fn less(a: Self, b: Self) -> (r: bool) {
        a.units < b.units
    }
}

impl FpCmp for Fx64 {
    open spec fn spec_value(&self) -> int {
        self.units as int
    }

    open spec fn spec_eps() -> int {
        EPS_F64 as int
    }

    open spec fn spec_is_nan(&self) -> bool {
        false
    }

    proof fn lemma_eps_positive() {
    }

    fn eps() -> (r: Self) {
        Fx64 { units: EPS_F64 }
    }

    fn abs_diff(a: Self, b: Self) -> (r: Self) {
        let d: i128 = a.units as i128 - b.units as i128;
        let m: i128 = if d < 0 { -d } else { d };
        if m > i64::MAX as i128 {
            Fx64 { units: i64::MAX }
        } else {
            Fx64 { units: m as i64 }
        }
    }

    fn is_nan(self) -> (r: bool) {
        false
    }

    fn less(a: Self, b: Self) -> (r: bool) {
        a.units < b.units
    }
}

/// A value that is never NaN, compared with the tolerance of its type.
#[derive(Clone, Copy, Debug)]
pub struct Total<T>(T);

/// Tolerant equality of two values: their difference is below the tolerance.
pub open spec fn tol_eq<T: FpCmp>(a: T, b: T) -> bool {
    abs_int(a.spec_value() - b.spec_value()) < T::spec_eps()
}

/// Three-way comparison of two values with the tolerance.
pub open spec fn tol_order<T: FpCmp>(a: T, b: T) -> Ordering {
    if tol_eq(a, b) {
        Ordering::Equal
    } else if a.spec_value() < b.spec_value() {
        Ordering::Less
    } else {
        Ordering::Greater
    }
}

/// Tolerant equality is reflexive and symmetric; the three-way comparison
/// says `Equal` exactly when the values are tolerantly equal, and swapping
/// its arguments swaps `Less` and `Greater`.
pub proof fn lemma_total_laws<T: FpCmp>(a: Total<T>, b: Total<T>)
    ensures
        tol_eq(a.spec_inner(), a.spec_inner()),
        tol_eq(a.spec_inner(), b.spec_inner()) == tol_eq(b.spec_inner(), a.spec_inner()),
        (tol_order(a.spec_inner(), b.spec_inner()) == Ordering::Equal) == tol_eq(a.spec_inner(), b.spec_inner()),
        (tol_order(a.spec_inner(), b.spec_inner()) == Ordering::Less)
            == (tol_order(b.spec_inner(), a.spec_inner()) == Ordering::Greater),
{
    T::lemma_eps_positive();
}

impl<T: FpCmp> Total<T> {
    /// The value held.
    pub closed spec fn spec_inner(&self) -> T {
        self.0
    }

    /// Wraps a value; a NaN is refused by the precondition.
    pub fn new(val: T) -> (r: Self)
        requires
            !val.spec_is_nan(),
        ensures
            r.spec_inner() == val,
    {
        Self(val)
    }

    /// The value held.
    pub fn value(&self) -> (r: T)
        ensures
            r == self.spec_inner(),
    {
        self.0
    }

    /// Whether the two values differ by less than the tolerance.
    pub fn tol_equal(&self, other: &Self) -> (r: bool)
        ensures
            r == tol_eq(self.spec_inner(), other.spec_inner()),
    {
        let d = T::abs_diff(self.0, other.0);
        T::less(d, T::eps())
    }

    /// Three-way comparison with the tolerance.
    pub fn total_order(&self, other: &Self) -> (r: Ordering)
        ensures
            r == tol_order(self.spec_inner(), other.spec_inner()),
    {
        if self.tol_equal(other) {
            Ordering::Equal
        } else if T::less(self.0, other.0) {
            Ordering::Less
        } else {
            Ordering::Greater
        }
    }
}

impl<T: FpCmp> PartialEq for Total<T> {
    fn eq(&self, other: &Self) -> (r: bool) {
        self.tol_equal(other)
    }
}

impl<T: FpCmp> PartialEqSpecImpl for Total<T> {
    open spec fn obeys_eq_spec() -> bool {
        true
    }

    open spec fn eq_spec(&self, other: &Self) -> bool {
        tol_eq(self.spec_inner(), other.spec_inner())
    }
}

impl<T: FpCmp> Eq for Total<T> {
}

impl<T: FpCmp> PartialOrd for Total<T> {
    fn partial_cmp(&self, other: &Self) -> (r: Option<Ordering>) {
        Some(self.total_order(other))
    }
}

impl<T: FpCmp> PartialOrdSpecImpl for Total<T> {
    open spec fn obeys_partial_cmp_spec() -> bool {
        true
    }

    open spec fn partial_cmp_spec(&self, other: &Self) -> Option<Ordering> {
        Some(tol_order(self.spec_inner(), other.spec_inner()))
    }
}

} // verus!
