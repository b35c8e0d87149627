//! Enumeration of the integer points of a box.

use super::range::Range;
use super::row_major::{
    box_extents, in_box, in_corners, lemma_box_points, lemma_last_rank, lemma_rank_bounds,
    lemma_successor_rank, lemma_tail_zero, lemma_unrank_rank, lex_less, rank, successor, volume,
};
use super::vec_ext::{seq_all_lt, VecExtPartialOrd};
use crate::math::{vec_add, vec_sub, IV};
use vstd::prelude::*;

verus! {

/// An iterator over an N-dimensional range. Iterates over all of the integer
/// coordinates in the `Range` (`max` boundary is not included), the last
/// axis varying fastest. A range that is empty along some axis yields
/// nothing.
pub struct RangeIterator<const D: usize> {
    index: IV<D>,
    range: Range<IV<D>>,
    done: bool,
}

impl<const D: usize> RangeIterator<D> {
    #[verifier::type_invariant]
    spec fn inv(self) -> bool {
        self.done || (seq_all_lt(self.range.min@, self.range.max@)
            && self.range.spec_contains_half_open(self.index@))
    }

    /// The range that is being enumerated.
    pub closed spec fn range(self) -> Range<IV<D>> {
        self.range
    }

    /// How many points have been handed out so far.
    pub closed spec fn position(self) -> nat {
        if self.done {
            self.range.count()
        } else {
            rank(self.range.extents(), vec_sub(self.index@, self.range.min@)) as nat
        }
    }

    /// Starts the enumeration of `range` at its first point.
    pub fn new(range: Range<IV<D>>) -> (r: Self)
        ensures
            r.range() == range,
            r.position() == 0,
    {
        let nonempty = range.min.all_lt(&range.max);
        proof {
            if nonempty {
                lemma_tail_zero(range.extents(), vec_sub(range.min@, range.min@), 0);
            }
        }
        Self { index: range.min, range, done: !nonempty }
    }

    /// Hands out the next point, or `None` once every point of the range has
    /// been handed out.
    pub fn next(&mut self) -> (r: Option<IV<D>>)
        ensures
            final(self).range() == old(self).range(),
            final(self).position() <= old(self).range().count(),
            old(self).position() < old(self).range().count() ==> {
                &&& r matches Some(v)
                &&& v@ == old(self).range().row_major()[old(self).position() as int]
                &&& final(self).position() == old(self).position() + 1
            },
            old(self).position() >= old(self).range().count() ==> {
                &&& r is None
                &&& final(self).position() == old(self).position()
            },
        no_unwind
    {
        proof {
            use_type_invariant(&*self);
        }
        let ghost size = self.range.extents();
        let ghost lo = self.range.min@;
        let ghost hi = self.range.max@;
        if self.done {
            return None;
        }
        let result = self.index;
        let ghost off = vec_sub(result@, lo);
        proof {
            assert(in_box(size, off)) by {
                assert forall|a: int| 0 <= a < size.len() implies 0 <= #[trigger] off[a]
                    < size[a] by {
                    assert(lo[a] <= result@[a] < hi[a]);
                }
            }
            lemma_rank_bounds(size, off);
            lemma_unrank_rank(size, off);
            assert(vec_add(lo, off) =~= result@);
        }
        let mut idx = self.index;
        let mut i: usize = D;
        let mut advanced = false;
        while i > 0 && !advanced
            invariant
                i <= D,
                lo == self.range.min@,
                hi == self.range.max@,
                self.range.spec_contains_half_open(result@),
                !advanced ==> forall|b: int| i <= b < D ==> result@[b] == hi[b] - 1,
                !advanced ==> forall|b: int| i <= b < D ==> idx@[b] == lo[b],
                !advanced ==> forall|b: int| 0 <= b < i ==> idx@[b] == result@[b],
                advanced ==> i < D && result@[i as int] + 1 < hi[i as int],
                advanced ==> idx@ == vec_add(lo, successor(vec_sub(result@, lo), i as int)),
                advanced ==> forall|b: int| i < b < D ==> result@[b] == hi[b] - 1,
            decreases i,
        {
            i -= 1;
            let v = idx.get(i);
            assert(lo[i as int] <= result@[i as int] < hi[i as int]);
            if v + 1 < self.range.max.get(i) {
                idx.set(i, v + 1);
                advanced = true;
                assert(idx@ =~= vec_add(lo, successor(vec_sub(result@, lo), i as int)));
            } else {
                idx.set(i, self.range.min.get(i));
            }
        }
        if advanced {
            proof {
                lemma_successor_rank(size, off, i as int);
                let nxt = successor(off, i as int);
                assert(vec_sub(idx@, lo) =~= nxt);
                lemma_rank_bounds(size, nxt);
                assert forall|a: int| 0 <= a < D implies lo[a] <= #[trigger] idx@[a] < hi[a] by {
                    assert(0 <= nxt[a] < size[a]);
                }
            }
            self.index = idx;
        } else {
            proof {
                assert forall|b: int| 0 <= b < size.len() implies off[b] == size[b] - 1 by {
                    assert(result@[b] == hi[b] - 1);
                }
                lemma_last_rank(size, off);
            }
            self.done = true;
        }
        Some(result)
    }

    /// Hands out all points that are left, in order.
    pub fn collect(self) -> (r: Vec<IV<D>>)
        ensures
            r@.len() == self.range().count() - self.position(),
            forall|k: int|
                0 <= k < r@.len() ==> (#[trigger] r@[k])@ == self.range().row_major()[self.position()
                    + k],
    {
        let ghost start = self.position();
        let ghost range = self.range();
        let mut it = self;
        let mut out: Vec<IV<D>> = Vec::new();
        proof {
            use_type_invariant(&it);
        }
        assert(start <= range.count()) by {
            if !it.done {
                let off = vec_sub(it.index@, it.range.min@);
                assert forall|a: int| 0 <= a < D implies 0 <= #[trigger] off[a]
                    < it.range.extents()[a] by {
                    assert(it.range.min@[a] <= it.index@[a] < it.range.max@[a]);
                }
                lemma_rank_bounds(it.range.extents(), off);
            }
        }
        loop
            invariant
                it.range() == range,
                start <= it.position() <= range.count(),
                out@.len() == it.position() - start,
                forall|k: int|
                    0 <= k < out@.len() ==> (#[trigger] out@[k])@ == range.row_major()[start + k],
            ensures
                out@.len() == range.count() - start,
                forall|k: int|
                    0 <= k < out@.len() ==> (#[trigger] out@[k])@ == range.row_major()[start + k],
            decreases range.count() - it.position(),
        {
            match it.next() {
                Some(v) => {
                    out.push(v);
                },
                None => {
                    break ;
                },
            }
        }
        out
    }
}

/// A range whose minimum lies below its maximum along every axis is
/// enumerated completely and once: there are as many points as the product
/// of the extents, each lies in the half-open range, every point of the
/// range occurs at the position that its rank gives, and the points come in
/// lexicographic order (the last axis varies fastest), so none occurs twice.
pub proof fn law_row_major_enumeration<const D: usize>(range: Range<IV<D>>)
    requires
        seq_all_lt(range.min@, range.max@),
    ensures
        range.row_major().len() == volume(range.extents()),
        forall|k: int|
            0 <= k < range.row_major().len() ==> range.spec_contains_half_open(
                #[trigger] range.row_major()[k],
            ),
        forall|x: Seq<int>|
            x.len() == D && #[trigger] range.spec_contains_half_open(x) ==> {
                let k = rank(range.extents(), vec_sub(x, range.min@));
                0 <= k < range.row_major().len() && range.row_major()[k] == x
            },
        forall|i: int, j: int|
            0 <= i < j < range.row_major().len() ==> lex_less(
                #[trigger] range.row_major()[i],
                #[trigger] range.row_major()[j],
            ),
        forall|i: int, j: int|
            0 <= i < range.row_major().len() && 0 <= j < range.row_major().len() && i != j
                ==> #[trigger] range.row_major()[i] != #[trigger] range.row_major()[j],
{
    let lo = range.min@;
    let hi = range.max@;
    lemma_box_points(lo, hi);
    assert(box_extents(lo, hi) =~= range.extents());
    let pts = range.row_major();
    assert forall|k: int| 0 <= k < pts.len() implies range.spec_contains_half_open(
        #[trigger] pts[k],
    ) by {
        assert(in_corners(lo, hi, pts[k]));
    }
    assert forall|x: Seq<int>|
        x.len() == D && #[trigger] range.spec_contains_half_open(x) implies {
        let k = rank(range.extents(), vec_sub(x, lo));
        0 <= k < pts.len() && pts[k] == x
    } by {
        assert(in_corners(lo, hi, x));
        assert(vec_sub(x, lo) =~= Seq::new(lo.len(), |a: int| x[a] - lo[a]));
    }
}

} // verus!
