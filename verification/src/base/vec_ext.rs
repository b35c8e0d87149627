//! Componentwise comparisons of integer vectors.

use crate::math::IV;
use vstd::prelude::*;

verus! {

/// Every component of `x` is less than the matching component of `y`.
pub open spec fn seq_all_lt(x: Seq<int>, y: Seq<int>) -> bool {
    forall|a: int| 0 <= a < x.len() ==> x[a] < y[a]
}

/// Every component of `x` is at most the matching component of `y`.
pub open spec fn seq_all_le(x: Seq<int>, y: Seq<int>) -> bool {
    forall|a: int| 0 <= a < x.len() ==> x[a] <= y[a]
}

/// The componentwise maximum of `x` and `y`.
pub open spec fn seq_max(x: Seq<int>, y: Seq<int>) -> Seq<int> {
    Seq::new(x.len(), |a: int| if x[a] >= y[a] { x[a] } else { y[a] })
}

/// The componentwise minimum of `x` and `y`.
pub open spec fn seq_min(x: Seq<int>, y: Seq<int>) -> Seq<int> {
    Seq::new(x.len(), |a: int| if x[a] <= y[a] { x[a] } else { y[a] })
}

/// Componentwise order tests and extrema for vectors.
pub trait VecExtPartialOrd: View<V = Seq<int>> + Sized {
    /// Returns true if all of the components of `self` are less than the
    /// respective components of `other`.
    fn all_lt(&self, other: &Self) -> (r: bool)
        ensures
            r == seq_all_lt(self@, other@),
    ;

    /// Returns true if all of the components of `self` are greater than the
    /// respective components of `other`.
    fn all_gt(&self, other: &Self) -> (r: bool)
        ensures
            r == seq_all_lt(other@, self@),
    ;

    /// Returns true if all of the components of `self` are less than or equal
    /// to the respective components of `other`.
    fn all_le(&self, other: &Self) -> (r: bool)
        ensures
            r == seq_all_le(self@, other@),
    ;

    /// Returns true if all of the components of `self` are greater than or
    /// equal to the respective components of `other`.
    fn all_ge(&self, other: &Self) -> (r: bool)
        ensures
            r == seq_all_le(other@, self@),
    ;

    /// The componentwise max of two vectors.
    fn component_max(&self, other: &Self) -> (r: Self)
        ensures
            r@ == seq_max(self@, other@),
    ;

    /// The componentwise min of two vectors.
    fn component_min(&self, other: &Self) -> (r: Self)
        ensures
            r@ == seq_min(self@, other@),
    ;
}

impl<const D: usize> VecExtPartialOrd for IV<D> {
    fn all_lt(&self, other: &Self) -> (r: bool) {
        let mut a: usize = 0;
        while a < D
            invariant
                a <= D,
                forall|b: int| 0 <= b < a ==> self@[b] < other@[b],
            decreases D - a,
        {
            if !(self.c[a] < other.c[a]) {
                assert(!(self@[a as int] < other@[a as int]));
                return false;
            }
            a += 1;
        }
        true
    }

    fn all_gt(&self, other: &Self) -> (r: bool) {
        other.all_lt(self)
    }

    fn all_le(&self, other: &Self) -> (r: bool) {
        let mut a: usize = 0;
        while a < D
            invariant
                a <= D,
                forall|b: int| 0 <= b < a ==> self@[b] <= other@[b],
            decreases D - a,
        {
            if !(self.c[a] <= other.c[a]) {
                assert(!(self@[a as int] <= other@[a as int]));
                return false;
            }
            a += 1;
        }
        true
    }

    fn all_ge(&self, other: &Self) -> (r: bool) {
        other.all_le(self)
    }

    fn component_max(&self, other: &Self) -> (r: Self) {
        let mut r = *self;
        let mut a: usize = 0;
        while a < D
            invariant
                a <= D,
                forall|b: int| 0 <= b < a ==> r@[b] == seq_max(self@, other@)[b],
                forall|b: int| a <= b < D ==> r@[b] == self@[b],
            decreases D - a,
        {
            if other.c[a] > self.c[a] {
                let ghost prev = r;
                r.c[a] = other.c[a];
                assert forall|b: int| 0 <= b < D implies r@[b] == prev@.update(
                    a as int,
                    other@[a as int],
                )[b] by {
                    assert(r.c@[b] == prev.c@.update(a as int, other.c@[a as int])[b]);
                }
            }
            a += 1;
        }
        assert(r@ =~= seq_max(self@, other@));
        r
    }

    fn component_min(&self, other: &Self) -> (r: Self) {
        let mut r = *self;
        let mut a: usize = 0;
        while a < D
            invariant
                a <= D,
                forall|b: int| 0 <= b < a ==> r@[b] == seq_min(self@, other@)[b],
                forall|b: int| a <= b < D ==> r@[b] == self@[b],
            decreases D - a,
        {
            if other.c[a] < self.c[a] {
                let ghost prev = r;
                r.c[a] = other.c[a];
                assert forall|b: int| 0 <= b < D implies r@[b] == prev@.update(
                    a as int,
                    other@[a as int],
                )[b] by {
                    assert(r.c@[b] == prev.c@.update(a as int, other.c@[a as int])[b]);
                }
            }
            a += 1;
        }
        assert(r@ =~= seq_min(self@, other@));
        r
    }
}

/// Conversion of a tuple of coordinates into a vector, for callers that
/// still carry coordinates around as tuples.
pub trait IntoVec<const N: usize> {
    /// The tuple's entries, in order, as the components of a vector.
    spec fn entries(&self) -> Seq<int>;

    fn into_vec(self) -> (r: IV<N>)
        ensures
            r@ == self.entries(),
    ;
}

impl IntoVec<2> for (isize, isize) {
    open spec fn entries(&self) -> Seq<int> {
        seq![self.0 as int, self.1 as int]
    }

    fn into_vec(self) -> (r: IV<2>) {
        let r = IV { c: [self.0, self.1] };
        assert(r@ =~= self.entries());
        r
    }
}

impl IntoVec<3> for (isize, isize, isize) {
    open spec fn entries(&self) -> Seq<int> {
        seq![self.0 as int, self.1 as int, self.2 as int]
    }

    fn into_vec(self) -> (r: IV<3>) {
        let r = IV { c: [self.0, self.1, self.2] };
        assert(r@ =~= self.entries());
        r
    }
}

} // verus!
