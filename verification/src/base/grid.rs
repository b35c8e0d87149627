//! The index structure of a uniform grid.

use super::face_array::FaceIndex;
use super::grid_iterators::RangeIterator;
use super::range::Range;
use super::row_major::{box_count, box_points};
use crate::math::{fits_isize, vec_add, vec_ith, vec_splat, IV};
use vstd::prelude::*;

verus! {

/// The cells of the faces that are normal to `axis`, in row-major order: the
/// cells of the grid and one more layer at the far end of `axis`, which holds
/// the closing faces.
pub open spec fn face_cells(cells: Seq<int>, axis: int) -> Seq<Seq<int>> {
    box_points(vec_splat(cells.len(), 0), vec_add(cells, vec_ith(cells.len(), axis, 1)))
}

/// The faces of a grid with `cells` cells along each axis, from the faces of
/// `axis` on: all faces of one axis, then all faces of the next. A face is
/// given by its cell and its axis.
pub open spec fn faces_from(cells: Seq<int>, axis: int) -> Seq<(Seq<int>, int)>
    decreases cells.len() - axis,
{
    if 0 <= axis < cells.len() {
        face_cells(cells, axis).map_values(|c: Seq<int>| (c, axis)) + faces_from(cells, axis + 1)
    } else {
        Seq::empty()
    }
}

/// Represents a grid (co-located or staggered) by its number of cells in each
/// direction. Cells, nodes and faces are named by integer indices that start
/// at zero.
#[derive(Debug, Clone, Copy, PartialEq, Eq)]
pub struct Grid<const D: usize> {
    /// The number of cells in each direction.
    pub cells: IV<D>,
}

/// An iterator over the faces of a grid: the faces of the first axis, then
/// those of the second, and so on.
pub struct FaceIterator<const D: usize> {
    cells: IV<D>,
    axis: usize,
    inner: RangeIterator<D>,
}

impl<const D: usize> Grid<D> {
    /// Creates a new grid given the number of cells in each direction.
    pub fn new(cells: IV<D>) -> (r: Self)
        ensures
            r.cells == cells,
    {
        Self { cells }
    }

    /// Returns the number of nodes in each direction.
    /// This is one greater than the number of cells.
    pub fn num_nodes(&self) -> (r: IV<D>)
        requires
            fits_isize(vec_add(self.cells@, vec_splat(D as nat, 1))),
        ensures
            r@ == vec_add(self.cells@, vec_splat(D as nat, 1)),
    {
        self.cells.add(&IV::from_element(1))
    }

    /// Returns the number of cells in each direction.
    pub fn num_cells(&self) -> (r: IV<D>)
        ensures
            r == self.cells,
    {
        self.cells
    }

    /// Returns an iterator over all of the nodes in the grid.
    pub fn nodes(&self) -> (r: RangeIterator<D>)
        requires
            fits_isize(vec_add(self.cells@, vec_splat(D as nat, 1))),
        ensures
            r.position() == 0,
            r.range().min@ == vec_splat(D as nat, 0),
            r.range().max@ == vec_add(self.cells@, vec_splat(D as nat, 1)),
    {
        RangeIterator::new(Range::new(IV::zeros(), self.num_nodes()))
    }

    /// Returns an iterator over all of the cells in the grid.
    pub fn cells(&self) -> (r: RangeIterator<D>)
        ensures
            r.position() == 0,
            r.range().min@ == vec_splat(D as nat, 0),
            r.range().max@ == self.cells@,
    {
        RangeIterator::new(Range::new(IV::zeros(), self.num_cells()))
    }

    /// Returns an iterator over all of the faces in the grid.
    ///
    /// Iterates over the faces for each dimension, one at a time (i.e.
    /// x-faces, then y-faces, then z-faces).
    pub fn faces(&self) -> (r: FaceIterator<D>)
        requires
            fits_isize(vec_add(self.cells@, vec_splat(D as nat, 1))),
        ensures
            r.remaining() == faces_from(self.cells@, 0),
    {
        FaceIterator::start(self.cells, 0)
    }
}

/// The cells that an enumeration of a box still has to hand out.
pub open spec fn rest<const D: usize>(it: RangeIterator<D>) -> Seq<Seq<int>> {
    it.range().row_major().skip(it.position() as int)
}

impl<const D: usize> FaceIterator<D> {
    #[verifier::type_invariant]
    spec fn inv(self) -> bool {
        &&& fits_isize(vec_add(self.cells@, vec_splat(D as nat, 1)))
        &&& self.axis <= D
        &&& self.inner.position() <= self.inner.range().count()
        &&& self.axis < D ==> {
            &&& self.inner.range().min@ == vec_splat(D as nat, 0)
            &&& self.inner.range().max@ == vec_add(
                self.cells@,
                vec_ith(D as nat, self.axis as int, 1),
            )
        }
    }

    /// The faces that are still to come, in order.
    pub closed spec fn remaining(self) -> Seq<(Seq<int>, int)> {
        if self.axis < D {
            rest(self.inner).map_values(|c: Seq<int>| (c, self.axis as int)) + faces_from(
                self.cells@,
                self.axis + 1,
            )
        } else {
            Seq::empty()
        }
    }

    /// The enumeration of the faces of `axis` and of all later axes.
    fn start(cells: IV<D>, axis: usize) -> (r: Self)
        requires
            fits_isize(vec_add(cells@, vec_splat(D as nat, 1))),
            axis <= D,
        ensures
            r.remaining() == faces_from(cells@, axis as int),
            r.cells == cells,
            r.axis == axis,
    {
        if axis < D {
            assert(vec_add(cells@, vec_splat(D as nat, 1))[axis as int] == cells@[axis as int] + 1);
            assert(fits_isize(vec_add(cells@, vec_ith(D as nat, axis as int, 1)))) by {
                assert forall|a: int| 0 <= a < D implies isize::MIN <= #[trigger] vec_add(
                    cells@,
                    vec_ith(D as nat, axis as int, 1),
                )[a] <= isize::MAX by {
                    assert(vec_add(cells@, vec_splat(D as nat, 1))[a] == cells@[a] + 1);
                }
            }
            let end = cells.add(&IV::ith(axis, 1));
            let inner = RangeIterator::new(Range::new(IV::zeros(), end));
            assert(rest(inner) =~= face_cells(cells@, axis as int));
            FaceIterator { cells, axis, inner }
        } else {
            FaceIterator { cells, axis: D, inner: RangeIterator::new(Range::new(cells, cells)) }
        }
    }

    /// Hands out the next face, or `None` once every face has been handed
    /// out.
    pub fn next(&mut self) -> (r: Option<FaceIndex<D>>)
        ensures
            old(self).remaining().len() > 0 ==> {
                &&& r matches Some(f)
                &&& (f.cell@, f.axis as int) == old(self).remaining()[0]
                &&& final(self).remaining() == old(self).remaining().skip(1)
            },
            old(self).remaining().len() == 0 ==> {
                &&& r is None
                &&& final(self).remaining() == old(self).remaining()
            },
    {
        proof {
            use_type_invariant(&*self);
        }
        let mut found: Option<FaceIndex<D>> = None;
        while self.axis < D && found.is_none()
            invariant
                self.axis <= D,
                self.cells == old(self).cells,
                found is None ==> self.remaining() == old(self).remaining(),
                found matches Some(f) ==> {
                    &&& old(self).remaining().len() > 0
                    &&& (f.cell@, f.axis as int) == old(self).remaining()[0]
                    &&& self.remaining() == old(self).remaining().skip(1)
                },
            decreases D - self.axis, if found is None { 1int } else { 0int },
        {
            proof {
                use_type_invariant(&*self);
            }
            let ghost before = *self;
            let ghost tail = faces_from(self.cells@, self.axis + 1);
            let ghost tag = |c: Seq<int>| (c, self.axis as int);
            match self.inner.next() {
                Some(c) => {
                    found = Some(FaceIndex { cell: c, axis: self.axis });
                    proof {
                        let cur = rest(before.inner);
                        assert(cur.len() > 0);
                        assert(cur[0] == c@);
                        assert(rest(self.inner) =~= cur.skip(1));
                        assert(before.remaining() == cur.map_values(tag) + tail);
                        assert(self.remaining() == cur.skip(1).map_values(tag) + tail);
                        assert((cur.map_values(tag) + tail).skip(1) =~= cur.skip(1).map_values(tag)
                            + tail);
                        assert((cur.map_values(tag) + tail)[0] == tag(c@));
                    }
                },
                None => {
                    proof {
                        assert(rest(before.inner).len() == 0);
                        assert(rest(before.inner).map_values(tag) + tail =~= tail);
                    }
                    let next_axis = self.axis + 1;
                    *self = FaceIterator::start(self.cells, next_axis);
                },
            }
        }
        found
    }

    /// Hands out all faces that are left, in order.
    pub fn collect(self) -> (r: Vec<FaceIndex<D>>)
        ensures
            r@.len() == self.remaining().len(),
            forall|k: int|
                0 <= k < r@.len() ==> ((#[trigger] r@[k]).cell@, r@[k].axis as int)
                    == self.remaining()[k],
    {
        let ghost all = self.remaining();
        let mut it = self;
        let mut out: Vec<FaceIndex<D>> = Vec::new();
        loop
            invariant
                out@.len() + it.remaining().len() == all.len(),
                it.remaining() == all.skip(out@.len() as int),
                forall|k: int|
                    0 <= k < out@.len() ==> ((#[trigger] out@[k]).cell@, out@[k].axis as int)
                        == all[k],
            ensures
                out@.len() == all.len(),
                forall|k: int|
                    0 <= k < out@.len() ==> ((#[trigger] out@[k]).cell@, out@[k].axis as int)
                        == all[k],
            decreases it.remaining().len(),
        {
            let ghost before = it.remaining();
            match it.next() {
                Some(f) => {
                    out.push(f);
                    assert(it.remaining() =~= all.skip(out@.len() as int));
                },
                None => {
                    break ;
                },
            }
        }
        out
    }
}

} // verus!
