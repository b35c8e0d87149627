//! Data stored at the faces of grid cells.

use super::array_nd::ArrayNd;
use crate::math::IV;
use vstd::prelude::*;

verus! {

/// Represents data stored at faces of grid.
///
/// It is very common to use "Marker-and-cell" (MAC) or staggered grids in
/// numerical simulation. In these grids, some data is stored at the faces of
/// cells (rather than at cell centers). For example, velocity is commonly
/// stored on a MAC grid, where x-faces store the x-component, y-faces store
/// the y-component, and z-faces store the z-component.
///
/// There is one array per axis; the array of an axis holds the values on the
/// faces that are normal to that axis.
pub struct FaceArray<T, const D: usize>(pub [ArrayNd<T, D>; D]);

/// An index used to index into a `FaceArray`. Contains a `cell` and an
/// associated `axis`. The index represented is the lower/left face of that
/// cell.
#[derive(Clone, Copy, Debug, PartialEq, Eq)]
pub struct FaceIndex<const D: usize> {
    pub cell: IV<D>,
    pub axis: usize,
}

impl<const D: usize> FaceIndex<D> {
    pub fn new(cell: IV<D>, axis: usize) -> (r: Self)
        ensures
            r.cell == cell,
            r.axis == axis,
    {
        Self { cell, axis }
    }
}

impl<T, const D: usize> FaceArray<T, D> {
    /// Whether `fi` names a face that the arrays hold: its axis exists and
    /// its cell lies in the domain of that axis's array.
    pub open spec fn has(&self, fi: FaceIndex<D>) -> bool {
        fi.axis < D && self.0@[fi.axis as int].spec_domain().spec_contains_half_open(fi.cell@)
    }

    /// The value on the face `fi`.
    pub open spec fn spec_index(&self, fi: FaceIndex<D>) -> T {
        self.0@[fi.axis as int]@[fi.cell@]
    }

    /// The value on the face `fi`.
    pub fn index(&self, fi: FaceIndex<D>) -> (r: &T)
        requires
            self.has(fi),
        ensures
            *r == self.spec_index(fi),
    {
        self.0[fi.axis].index(fi.cell)
    }

    /// A mutable reference to the value on the face `fi`. Writing through it
    /// changes that one value and nothing else.
    pub fn index_mut(&mut self, fi: FaceIndex<D>) -> (r: &mut T)
        requires
            old(self).has(fi),
        ensures
            *r == old(self).spec_index(fi),
            forall|a: int|
                0 <= a < D ==> (#[trigger] final(self).0@[a]).spec_domain() == old(
                    self,
                ).0@[a].spec_domain(),
            forall|a: int| 0 <= a < D && a != fi.axis ==> #[trigger] final(self).0@[a] == old(self).0@[a],
            final(self).0@[fi.axis as int]@ == old(self).0@[fi.axis as int]@.insert(
                fi.cell@,
                *final(r),
            ),
    {
        self.0[fi.axis].index_mut(fi.cell)
    }
}

} // verus!
