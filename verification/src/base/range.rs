//! A box given by its lower and upper corner.

use super::row_major::{box_count, box_points};
use super::vec_ext::{seq_all_le, seq_all_lt, VecExtPartialOrd};
use crate::math::{fits_isize, vec_splat, vec_sub, vec_add, IV};
use vstd::prelude::*;

verus! {

/// A range: something which has a minimum and a maximum. With vectors as
/// `T` it is a box. Nothing forces `min <= max`; a box whose maximum lies
/// below its minimum along some axis simply contains nothing.
#[derive(Debug, Default, Copy, Clone, PartialEq, Eq)]
pub struct Range<T> {
    pub min: T,
    pub max: T,
}

impl<T> Range<T> {
    /// Creates a new `Range` given a `min` and `max` value.
    pub fn new(min: T, max: T) -> (r: Self)
        ensures
            r.min == min,
            r.max == max,
    {
        Self { min, max }
    }
}

impl<const D: usize> Range<IV<D>> {
    /// The extent of the box along each axis: `max - min`.
    pub open spec fn extents(self) -> Seq<int> {
        vec_sub(self.max@, self.min@)
    }

    /// Whether `x` lies in the box, both faces included.
    pub open spec fn spec_contains(self, x: Seq<int>) -> bool {
        seq_all_le(self.min@, x) && seq_all_le(x, self.max@)
    }

    /// Whether `x` lies in the box, the lower faces included and the upper
    /// faces excluded.
    pub open spec fn spec_contains_half_open(self, x: Seq<int>) -> bool {
        seq_all_le(self.min@, x) && seq_all_lt(x, self.max@)
    }

    /// The integer points of the half-open box, as a set.
    pub open spec fn points(self) -> Set<Seq<int>> {
        Set::new(|x: Seq<int>| x.len() == D && self.spec_contains_half_open(x))
    }

    /// The number of integer points of the half-open box: the product of the
    /// extents where `min < max` along every axis, and none otherwise.
    pub open spec fn count(self) -> nat {
        box_count(self.min@, self.max@)
    }

    /// The integer points of the half-open box in row-major order: the last
    /// axis varies fastest.
    pub open spec fn row_major(self) -> Seq<Seq<int>> {
        box_points(self.min@, self.max@)
    }

    /// Calculates the size of a `Range` as a vector.
    pub fn size(&self) -> (r: IV<D>)
        requires
            fits_isize(self.extents()),
        ensures
            r@ == self.extents(),
    {
        self.max.sub(&self.min)
    }

    /// Whether `a` is within the `Range` (returns `true` at the endpoints).
    pub fn contains(&self, a: IV<D>) -> (r: bool)
        ensures
            r == self.spec_contains(a@),
    {
        self.min.all_le(&a) && self.max.all_ge(&a)
    }

    /// Whether `a` is within the `Range`, but treating it as a half-open
    /// interval (i.e. returns true if the components are equal to the `min`
    /// but not the `max`).
    pub fn contains_half_open(&self, a: IV<D>) -> (r: bool)
        ensures
            r == self.spec_contains_half_open(a@),
    {
        self.min.all_le(&a) && self.max.all_gt(&a)
    }

    /// The box grown by `n` along every axis in both directions: `n` is
    /// subtracted from every component of `min` and added to every component
    /// of `max`.
    pub fn thickened(&self, n: isize) -> (r: Self)
        requires
            fits_isize(vec_sub(self.min@, vec_splat(D as nat, n as int))),
            fits_isize(vec_add(self.max@, vec_splat(D as nat, n as int))),
        ensures
            r.min@ == vec_sub(self.min@, vec_splat(D as nat, n as int)),
            r.max@ == vec_add(self.max@, vec_splat(D as nat, n as int)),
    {
        let by = IV::<D>::from_element(n);
        Range { min: self.min.sub(&by), max: self.max.add(&by) }
    }
}

} // verus!
