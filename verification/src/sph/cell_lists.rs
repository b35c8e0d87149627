//! Particles binned by grid cell, and the candidates for the neighbours of a
//! particle.

use super::particle_list::{
    list_clear, list_get, list_items, list_len, list_len_limit, list_push, ParticleList,
};
use crate::base::array_nd::{layout_fits, ArrayNd, ArrayNdCreationError};
use crate::base::grid::Grid;
use crate::base::grid_iterators::{law_row_major_enumeration, RangeIterator};
use crate::base::range::Range;
use crate::base::row_major::{box_extents, box_points, in_corners, lemma_box_points, rank};
use crate::math::{fits_isize, vec_add, vec_splat, vec_sub, IV};
use vstd::prelude::*;

verus! {

/// The particles among the first `n` that lie in cell `c`, in ascending
/// order. `cell_of[p]` is the cell of particle `p`.
pub open spec fn binned(cell_of: Seq<Seq<int>>, c: Seq<int>, n: int) -> Seq<usize>
    decreases n,
{
    if n <= 0 {
        Seq::empty()
    } else if cell_of[n - 1] == c {
        binned(cell_of, c, n - 1).push((n - 1) as usize)
    } else {
        binned(cell_of, c, n - 1)
    }
}

/// The list of cell `c`, which is empty for a cell outside the grid.
pub open spec fn bin_of(lists: Map<Seq<int>, Seq<usize>>, c: Seq<int>) -> Seq<usize> {
    if lists.dom().contains(c) {
        lists[c]
    } else {
        Seq::empty()
    }
}

/// The lists of the first `n` of `cells`, one after the other.
pub open spec fn gather(lists: Map<Seq<int>, Seq<usize>>, cells: Seq<Seq<int>>, n: int) -> Seq<
    usize,
>
    decreases n,
{
    if n <= 0 {
        Seq::empty()
    } else {
        gather(lists, cells, n - 1) + bin_of(lists, cells[n - 1])
    }
}

/// The cells around cell `idx` in row-major order: `idx` itself and every
/// cell that differs from it by at most one along each axis.
pub open spec fn window(idx: Seq<int>) -> Seq<Seq<int>> {
    box_points(vec_sub(idx, vec_splat(idx.len(), 1)), vec_add(idx, vec_splat(idx.len(), 2)))
}

/// The cells of each particle as mathematical vectors.
pub open spec fn cell_views<const D: usize>(cell_of: Seq<IV<D>>) -> Seq<Seq<int>> {
    cell_of.map_values(|c: IV<D>| c@)
}

/// For every cell of a grid, the indices of the particles located in it.
pub struct CellLists<const D: usize> {
    cells: ArrayNd<ParticleList, D>,
}

impl<const D: usize> View for CellLists<D> {
    type V = Map<Seq<int>, Seq<usize>>;

    /// The list of each cell, keyed by the cell's index.
    closed spec fn view(&self) -> Map<Seq<int>, Seq<usize>> {
        Map::new(
            |c: Seq<int>| self.cells.spec_domain().points().contains(c),
            |c: Seq<int>| list_items(self.cells@[c]),
        )
    }
}

impl<const D: usize> CellLists<D> {
    /// The box of cell indices.
    pub closed spec fn spec_domain(&self) -> Range<IV<D>> {
        self.cells.spec_domain()
    }

    /// There is a list for exactly the cells of the domain.
    pub proof fn lemma_dom(&self)
        ensures
            self@.dom() == self.spec_domain().points(),
    {
        assert(self@.dom() =~= self.spec_domain().points());
    }

    /// The box of cell indices.
    #[verifier::when_used_as_spec(spec_domain)]
    pub fn domain(&self) -> (r: Range<IV<D>>)
        ensures
            r == self.spec_domain(),
    {
        self.cells.domain()
    }

    /// Empty lists for the cells of `grid`, whose indices start at zero.
    ///
    /// Returns an error if the grid has more cells than can be laid out.
    pub fn new(grid: Grid<D>) -> (r: Result<Self, ArrayNdCreationError<D>>)
        ensures
            match r {
                Ok(lists) => {
                    &&& layout_fits(grid.cells@)
                    &&& lists.spec_domain().min@ == vec_splat(D as nat, 0)
                    &&& lists.spec_domain().max@ == grid.cells@
                    &&& forall|c: Seq<int>|
                        lists.spec_domain().points().contains(c) ==> #[trigger] lists@[c]
                            == Seq::<usize>::empty()
                },
                Err(e) => {
                    &&& !layout_fits(grid.cells@)
                    &&& e matches ArrayNdCreationError::InvalidDomain(d)
                    &&& d.min@ == vec_splat(D as nat, 0)
                    &&& d.max@ == grid.cells@
                },
            },
    {
        let domain = Range::new(IV::zeros(), grid.num_cells());
        assert(domain.extents() =~= grid.cells@);
        match ArrayNd::<ParticleList, D>::zeros(domain) {
            Ok(cells) => Ok(CellLists { cells }),
            Err(e) => Err(e),
        }
    }

    /// The particles in cell `idx`, or `None` for a cell outside the grid.
    pub fn particles_in(&self, idx: IV<D>) -> (r: Option<Vec<usize>>)
        ensures
            self.spec_domain().spec_contains_half_open(idx@) ==> (r matches Some(v) && v@
                == self@[idx@]),
            !self.spec_domain().spec_contains_half_open(idx@) ==> r is None,
    {
        match self.cells.get(idx) {
            Some(list) => Some(list.to_vec()),
            None => None,
        }
    }

    /// Clears every cell's list. The lists keep what they have allocated.
    pub fn clear(&mut self)
        ensures
            final(self).spec_domain() == old(self).spec_domain(),
            forall|c: Seq<int>|
                old(self).spec_domain().points().contains(c) ==> #[trigger] final(self)@[c]
                    == Seq::<usize>::empty(),
    {
        let domain = self.cells.domain();
        let ghost pts = domain.row_major();
        let mut it = RangeIterator::new(domain);
        loop
            invariant
                it.range() == domain,
                it.position() <= domain.count(),
                pts == domain.row_major(),
                self.cells.spec_domain() == domain,
                forall|k: int|
                    0 <= k < it.position() ==> list_items(self.cells@[#[trigger] pts[k]])
                        == Seq::<usize>::empty(),
            ensures
                it.position() == domain.count(),
                self.cells.spec_domain() == domain,
                forall|k: int|
                    0 <= k < domain.count() ==> list_items(self.cells@[#[trigger] pts[k]])
                        == Seq::<usize>::empty(),
            decreases domain.count() - it.position(),
        {
            let ghost k = it.position() as int;
            match it.next() {
                Some(c) => {
                    proof {
                        if k < domain.count() {
                            law_row_major_enumeration(domain);
                        }
                    }
                    assert(domain.spec_contains_half_open(c@));
                    let list = self.cells.index_mut(c);
                    list_clear(list);
                },
                None => {
                    break ;
                },
            }
        }
        proof {
            assert forall|c: Seq<int>| domain.points().contains(c) implies #[trigger] self@[c]
                == Seq::<usize>::empty() by {
                law_row_major_enumeration(domain);
                let k = rank(domain.extents(), vec_sub(c, domain.min@));
                assert(pts[k] == c);
            }
        }
    }

    /// Places each particle into the list of its cell: particle `p` lies in
    /// cell `cell_of[p]`. The particles are appended in ascending order to
    /// what the lists hold already.
    pub fn fill_cells(&mut self, cell_of: &Vec<IV<D>>)
        requires
            forall|p: int|
                0 <= p < cell_of@.len() ==> old(self).spec_domain().spec_contains_half_open(
                    (#[trigger] cell_of@[p])@,
                ),
            forall|c: Seq<int>|
                old(self).spec_domain().points().contains(c) ==> (#[trigger] old(self)@[c]).len()
                    + cell_of@.len() <= list_len_limit(),
        ensures
            final(self).spec_domain() == old(self).spec_domain(),
            forall|c: Seq<int>|
                old(self).spec_domain().points().contains(c) ==> #[trigger] final(self)@[c] == old(
                    self,
                )@[c] + binned(cell_views(cell_of@), c, cell_of@.len() as int),
    {
        let ghost domain = self.cells.spec_domain();
        let ghost cv = cell_views(cell_of@);
        let n = cell_of.len();
        let mut p: usize = 0;
        while p < n
            invariant
                p <= n,
                n == cell_of@.len(),
                cv == cell_views(cell_of@),
                domain == old(self).spec_domain(),
                self.cells.spec_domain() == domain,
                forall|q: int|
                    0 <= q < cell_of@.len() ==> domain.spec_contains_half_open(
                        (#[trigger] cell_of@[q])@,
                    ),
                forall|c: Seq<int>|
                    domain.points().contains(c) ==> (#[trigger] old(self)@[c]).len() + n
                        <= list_len_limit(),
                forall|c: Seq<int>|
                    domain.points().contains(c) ==> #[trigger] self@[c] == old(self)@[c] + binned(
                        cv,
                        c,
                        p as int,
                    ),
            decreases n - p,
        {
            let c = cell_of[p];
            let ghost before = *self;
            proof {
                assert(domain.points().contains(c@));
                lemma_binned_len(cv, c@, p as int);
                assert(before@[c@] == old(self)@[c@] + binned(cv, c@, p as int));
            }
            let list = self.cells.index_mut(c);
            list_push(list, p);
            proof {
                assert(cv[p as int] == c@);
                assert forall|x: Seq<int>| domain.points().contains(x) implies #[trigger] self@[x]
                    == old(self)@[x] + binned(cv, x, p + 1) by {
                    assert(before@[x] == old(self)@[x] + binned(cv, x, p as int));
                    if x == c@ {
                        assert(self@[x] =~= old(self)@[x] + binned(cv, x, p as int).push(p));
                    }
                }
            }
            p += 1;
        }
    }

    /// Rebuilds the lists from the cells of the particles: afterwards the
    /// list of a cell holds exactly the particles that lie in it, in
    /// ascending order.
    pub fn rebuild(&mut self, cell_of: &Vec<IV<D>>)
        requires
            cell_of@.len() <= list_len_limit(),
            forall|p: int|
                0 <= p < cell_of@.len() ==> old(self).spec_domain().spec_contains_half_open(
                    (#[trigger] cell_of@[p])@,
                ),
        ensures
            final(self).spec_domain() == old(self).spec_domain(),
            forall|c: Seq<int>|
                old(self).spec_domain().points().contains(c) ==> #[trigger] final(self)@[c]
                    == binned(cell_views(cell_of@), c, cell_of@.len() as int),
    {
        self.clear();
        let ghost cleared = *self;
        self.fill_cells(cell_of);
        proof {
            assert forall|c: Seq<int>| old(self).spec_domain().points().contains(c) implies #[trigger] self@[c]
                == binned(cell_views(cell_of@), c, cell_of@.len() as int) by {
                assert(cleared@[c] == Seq::<usize>::empty());
                assert(self@[c] =~= binned(cell_views(cell_of@), c, cell_of@.len() as int));
            }
        }
    }

    /// The candidates for the neighbours of a particle in cell `idx`: the
    /// particles in the cells around `idx` (see `window`), cell by cell in
    /// row-major order, where cells outside the grid contribute nothing.
    pub fn get_neighbors(&self, idx: IV<D>) -> (r: Vec<usize>)
        requires
            fits_isize(vec_sub(idx@, vec_splat(D as nat, 1))),
            fits_isize(vec_add(idx@, vec_splat(D as nat, 2))),
        ensures
            r@ == gather(self@, window(idx@), window(idx@).len() as int),
    {
        proof {
            assert forall|a: int| 0 <= a < D implies isize::MIN <= #[trigger] vec_add(
                idx@,
                vec_splat(D as nat, 1),
            )[a] <= isize::MAX by {
                assert(vec_add(idx@, vec_splat(D as nat, 2))[a] == idx@[a] + 2);
            }
        }
        let upper = idx.add(&IV::from_element(1));
        let own = Range::new(idx, upper);
        proof {
            assert(vec_add(own.max@, vec_splat(D as nat, 1)) =~= vec_add(
                idx@,
                vec_splat(D as nat, 2),
            ));
        }
        let range = own.thickened(1);
        let ghost pts = window(idx@);
        assert(range.row_major() == pts);
        let mut it = RangeIterator::new(range);
        let mut out: Vec<usize> = Vec::new();
        loop
            invariant
                it.range() == range,
                it.position() <= range.count(),
                pts == range.row_major(),
                out@ == gather(self@, pts, it.position() as int),
            ensures
                out@ == gather(self@, pts, pts.len() as int),
            decreases range.count() - it.position(),
        {
            let ghost k = it.position() as int;
            match it.next() {
                Some(c) => {
                    match self.cells.get(c) {
                        Some(list) => {
                            let n = list_len(list);
                            let ghost base = out@;
                            let mut j: usize = 0;
                            while j < n
                                invariant
                                    j <= n,
                                    n == list_items(*list).len(),
                                    out@ == base + list_items(*list).subrange(0, j as int),
                                decreases n - j,
                            {
                                out.push(list_get(list, j));
                                assert(out@ =~= base + list_items(*list).subrange(0, j + 1));
                                j += 1;
                            }
                            assert(list_items(*list).subrange(0, n as int) =~= list_items(*list));
                            assert(bin_of(self@, c@) == list_items(*list));
                        },
                        None => {
                            assert(bin_of(self@, c@) == Seq::<usize>::empty());
                            assert(out@ + Seq::<usize>::empty() =~= out@);
                        },
                    }
                },
                None => {
                    break ;
                },
            }
        }
        out
    }
}

/// A cell's list is no longer than the number of particles binned.
pub proof fn lemma_binned_len(cell_of: Seq<Seq<int>>, c: Seq<int>, n: int)
    requires
        0 <= n,
    ensures
        binned(cell_of, c, n).len() <= n,
    decreases n,
{
    if n > 0 {
        lemma_binned_len(cell_of, c, n - 1);
    }
}

/// Binning puts a particle into the list of its cell and into no other, and
/// each list is in ascending order, so no particle occurs twice in it.
pub proof fn law_binned(cell_of: Seq<Seq<int>>, c: Seq<int>, n: int)
    requires
        0 <= n <= usize::MAX,
    ensures
        forall|p: int|
            0 <= p < n && #[trigger] cell_of[p] == c ==> binned(cell_of, c, n).contains(p as usize),
        forall|i: int|
            0 <= i < binned(cell_of, c, n).len() ==> (#[trigger] binned(cell_of, c, n)[i]) < n
                && cell_of[binned(cell_of, c, n)[i] as int] == c,
        forall|i: int, j: int|
            0 <= i < j < binned(cell_of, c, n).len() ==> #[trigger] binned(cell_of, c, n)[i]
                < #[trigger] binned(cell_of, c, n)[j],
    decreases n,
{
    if n > 0 {
        law_binned(cell_of, c, n - 1);
        let prev = binned(cell_of, c, n - 1);
        let cur = binned(cell_of, c, n);
        assert forall|p: int| 0 <= p < n && #[trigger] cell_of[p] == c implies cur.contains(
            p as usize,
        ) by {
            if p < n - 1 {
                assert(prev.contains(p as usize));
                let i = choose|i: int| 0 <= i < prev.len() && prev[i] == p as usize;
                assert(cur[i] == p as usize);
            } else {
                assert(cur[cur.len() - 1] == p as usize);
            }
        }
    }
}

/// The lists of the first `k` cells are the beginning of what the first `n`
/// cells hold together, and the list of cell `k` follows them.
pub proof fn lemma_gather_part(
    lists: Map<Seq<int>, Seq<usize>>,
    cells: Seq<Seq<int>>,
    n: int,
    k: int,
    j: int,
)
    requires
        0 <= k < n,
        0 <= j < bin_of(lists, cells[k]).len(),
    ensures
        gather(lists, cells, k).len() + bin_of(lists, cells[k]).len() <= gather(lists, cells, n).len(),
        gather(lists, cells, n)[gather(lists, cells, k).len() + j] == bin_of(lists, cells[k])[j],
    decreases n,
{
    if k < n - 1 {
        lemma_gather_part(lists, cells, n - 1, k, j);
    }
}

/// Each entry of what the first `n` cells hold together comes from the list
/// of one of them: the result names that cell and the position in its list.
pub proof fn lemma_gather_origin(
    lists: Map<Seq<int>, Seq<usize>>,
    cells: Seq<Seq<int>>,
    n: int,
    i: int,
) -> (r: (int, int))
    requires
        0 <= i < gather(lists, cells, n).len(),
    ensures
        0 <= r.0 < n,
        0 <= r.1 < bin_of(lists, cells[r.0]).len(),
        i == gather(lists, cells, r.0).len() + r.1,
        gather(lists, cells, n)[i] == bin_of(lists, cells[r.0])[r.1],
    decreases n,
{
    if n <= 0 {
        (0, 0)
    } else if i < gather(lists, cells, n - 1).len() {
        lemma_gather_origin(lists, cells, n - 1, i)
    } else {
        (n - 1, i - gather(lists, cells, n - 1).len())
    }
}

/// `c` differs from `idx` by at most one along every axis.
pub open spec fn adjacent(c: Seq<int>, idx: Seq<int>) -> bool {
    &&& c.len() == idx.len()
    &&& forall|a: int| 0 <= a < idx.len() ==> idx[a] - 1 <= #[trigger] c[a] <= idx[a] + 1
}

/// Where the lists hold the binning of particles that all lie in cells of
/// the grid, the candidates gathered around cell `idx` are exactly the
/// particles whose cell differs from `idx` by at most one along every axis,
/// and each of them is gathered once.
pub proof fn law_neighbors(
    lists: Map<Seq<int>, Seq<usize>>,
    cell_of: Seq<Seq<int>>,
    idx: Seq<int>,
)
    requires
        cell_of.len() <= usize::MAX,
        forall|p: int| 0 <= p < cell_of.len() ==> lists.dom().contains(#[trigger] cell_of[p]),
        forall|c: Seq<int>|
            lists.dom().contains(c) ==> #[trigger] lists[c] == binned(
                cell_of,
                c,
                cell_of.len() as int,
            ),
    ensures
        forall|p: int|
            0 <= p < cell_of.len() ==> (gather(
                lists,
                window(idx),
                window(idx).len() as int,
            ).contains(p as usize) <==> adjacent(#[trigger] cell_of[p], idx)),
        forall|i: int|
            0 <= i < gather(lists, window(idx), window(idx).len() as int).len() ==> (#[trigger] gather(
                lists,
                window(idx),
                window(idx).len() as int,
            )[i]) < cell_of.len(),
        forall|i: int, j: int|
            0 <= i < j < gather(lists, window(idx), window(idx).len() as int).len() ==> #[trigger] gather(
                lists,
                window(idx),
                window(idx).len() as int,
            )[i] != #[trigger] gather(lists, window(idx), window(idx).len() as int)[j],
{
    let lo = vec_sub(idx, vec_splat(idx.len(), 1));
    let hi = vec_add(idx, vec_splat(idx.len(), 2));
    let pts = window(idx);
    let m = pts.len() as int;
    let n = cell_of.len() as int;
    let found = gather(lists, pts, m);
    lemma_box_points(lo, hi);
    assert forall|i: int| 0 <= i < found.len() implies (#[trigger] found[i]) < n && adjacent(
        cell_of[found[i] as int],
        idx,
    ) by {
        let (k, j) = lemma_gather_origin(lists, pts, m, i);
        let c = pts[k];
        law_binned(cell_of, c, n);
        assert(cell_of[found[i] as int] == c);
        assert(in_corners(lo, hi, c));
        assert forall|a: int| 0 <= a < idx.len() implies idx[a] - 1 <= #[trigger] c[a] <= idx[a]
            + 1 by {
            assert(lo[a] <= c[a] < hi[a]);
        }
    }
    assert forall|p: int| 0 <= p < n implies (found.contains(p as usize) <==> adjacent(
        #[trigger] cell_of[p],
        idx,
    )) by {
        let c = cell_of[p];
        if adjacent(c, idx) {
            assert(in_corners(lo, hi, c)) by {
                assert forall|a: int| 0 <= a < lo.len() implies lo[a] <= #[trigger] c[a]
                    < hi[a] by {
                    assert(idx[a] - 1 <= c[a] <= idx[a] + 1);
                }
            }
            let k = rank(box_extents(lo, hi), Seq::new(lo.len(), |a: int| c[a] - lo[a]));
            assert(pts[k] == c);
            law_binned(cell_of, c, n);
            let j = choose|j: int|
                0 <= j < binned(cell_of, c, n).len() && binned(cell_of, c, n)[j] == p as usize;
            lemma_gather_part(lists, pts, m, k, j);
            assert(found[gather(lists, pts, k).len() + j] == p as usize);
        }
        if found.contains(p as usize) {
            let i = choose|i: int| 0 <= i < found.len() && found[i] == p as usize;
            assert(adjacent(cell_of[found[i] as int], idx));
        }
    }
    assert forall|i: int, j: int| 0 <= i < j < found.len() implies #[trigger] found[i]
        != #[trigger] found[j] by {
        let (ki, ji) = lemma_gather_origin(lists, pts, m, i);
        let (kj, jj) = lemma_gather_origin(lists, pts, m, j);
        law_binned(cell_of, pts[ki], n);
        law_binned(cell_of, pts[kj], n);
        if ki == kj {
            assert(ji < jj);
        } else {
            assert(pts[ki] != pts[kj]);
            assert(cell_of[found[i] as int] == pts[ki]);
            assert(cell_of[found[j] as int] == pts[kj]);
        }
    }
}

/// What is gathered around a cell depends on the cells of the particles
/// alone: two sets of lists that hold the binning of the same particles over
/// the same grid give the same candidates in the same order.
pub proof fn law_candidates_determined(
    first: Map<Seq<int>, Seq<usize>>,
    second: Map<Seq<int>, Seq<usize>>,
    cell_of: Seq<Seq<int>>,
    idx: Seq<int>,
)
    requires
        first.dom() == second.dom(),
        forall|c: Seq<int>|
            first.dom().contains(c) ==> #[trigger] first[c] == binned(
                cell_of,
                c,
                cell_of.len() as int,
            ),
        forall|c: Seq<int>|
            second.dom().contains(c) ==> #[trigger] second[c] == binned(
                cell_of,
                c,
                cell_of.len() as int,
            ),
    ensures
        gather(first, window(idx), window(idx).len() as int) == gather(
            second,
            window(idx),
            window(idx).len() as int,
        ),
{
    assert(first =~= second);
}

} // verus!
