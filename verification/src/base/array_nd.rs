//! Dense arrays addressed by the integer points of a box.

use super::range::Range;
use super::row_major::{
    all_positive, dot, dot_from, in_box, lemma_dot_sub, lemma_rank_bounds, lemma_rank_injective,
    lemma_suffix_product_monotone, lemma_suffix_product_positive, lemma_tail_bounds, rank, strides,
    suffix_product, volume,
};
use crate::math::{fits_isize, vec_sub, Zero, IV};
use vstd::prelude::*;

verus! {

/// Whether a box with extents `size` can be laid out in memory: its volume
/// is a size that memory can have, and its row-major strides are
/// representable.
pub open spec fn layout_fits(size: Seq<int>) -> bool {
    &&& fits_isize(strides(size))
    &&& 0 <= volume(size) <= isize::MAX
}

/// Whether an array over `domain` can be laid out: its element count, the
/// product of the extents, is a size that memory can have, and its row-major
/// strides are representable.
pub open spec fn addressable<const D: usize>(domain: Range<IV<D>>) -> bool {
    layout_fits(domain.extents())
}

/// The position in the flat buffer of the element at index `x`: the rank of
/// `x` among the points of `domain` in row-major order.
pub open spec fn flat_index<const D: usize>(domain: Range<IV<D>>, x: Seq<int>) -> int {
    rank(domain.extents(), vec_sub(x, domain.min@))
}

/// A multi-dimensional array.
///
/// The array is indexed by the integer points of its `domain`, a half-open
/// box that may reach into negative coordinates. Code that works near a
/// boundary can therefore use an array with a larger domain (with additional
/// "ghost cells" filled in) and index it with the same signed coordinates as
/// everywhere else.
pub struct ArrayNd<T, const D: usize> {
    data: Vec<T>,
    domain: Range<IV<D>>,
    stride: IV<D>,
}

/// Why an array could not be made.
#[derive(Debug, Clone, Copy, PartialEq, Eq)]
pub enum ArrayNdCreationError<const D: usize> {
    /// The domain specified for the array is invalid: its element count or
    /// its strides cannot be represented.
    InvalidDomain(Range<IV<D>>),
}

impl<T, const D: usize> View for ArrayNd<T, D> {
    type V = Map<Seq<int>, T>;

    /// The elements, keyed by their index: the map is defined on the points
    /// of the domain.
    closed spec fn view(&self) -> Map<Seq<int>, T> {
        keyed(self.domain, self.data@)
    }
}

/// The elements of a flat buffer, keyed by the points of `domain`.
spec fn keyed<T, const D: usize>(domain: Range<IV<D>>, data: Seq<T>) -> Map<Seq<int>, T> {
    Map::new(
        |x: Seq<int>| domain.points().contains(x),
        |x: Seq<int>| data[flat_index(domain, x)],
    )
}

proof fn lemma_keyed_update<T, const D: usize>(
    domain: Range<IV<D>>,
    data: Seq<T>,
    idx: Seq<int>,
    v: T,
)
    requires
        domain.points().contains(idx),
        data.len() == volume(domain.extents()),
    ensures
        keyed(domain, data.update(flat_index(domain, idx), v)) == keyed(domain, data).insert(
            idx,
            v,
        ),
{
    let k = flat_index(domain, idx);
    let after = keyed(domain, data.update(k, v));
    let expected = keyed(domain, data).insert(idx, v);
    law_flat_index(domain, idx, idx);
    assert forall|x: Seq<int>| after.dom().contains(x) implies #[trigger] after[x]
        == expected[x] by {
        law_flat_index(domain, x, idx);
    }
    assert(after =~= expected);
}

/// Calculates the strides for a particular domain size.
/// The strides are a set of numbers such that the dot product of an index with
/// the stride gives the index into the flattened array.
///
/// You may be more familiar with the formula `idx = x + y * width` (in 2
/// dimensions). This is essentially taking a dot product between the index
/// `[y, x]` and the stride vector `[width, 1]`. This function generalizes that
/// idea to multiple dimensions.
pub fn calculate_strides<const D: usize>(cells: IV<D>) -> (r: IV<D>)
    requires
        fits_isize(strides(cells@)),
    ensures
        r@ == strides(cells@),
{
    let mut st = IV::<D>::zeros();
    let mut acc: isize = 1;
    let mut a: usize = D;
    while a > 0
        invariant
            a <= D,
            fits_isize(strides(cells@)),
            a > 0 ==> acc == suffix_product(cells@, a as int),
            forall|b: int| a <= b < D ==> st@[b] == strides(cells@)[b],
        decreases a,
    {
        a -= 1;
        st.set(a, acc);
        if a > 0 {
            assert(strides(cells@)[a - 1] == suffix_product(cells@, a as int));
            acc = cells.get(a) * acc;
        }
    }
    assert(st@ =~= strides(cells@));
    st
}

proof fn lemma_box_offsets<const D: usize>(domain: Range<IV<D>>, x: Seq<int>)
    requires
        domain.points().contains(x),
    ensures
        in_box(domain.extents(), vec_sub(x, domain.min@)),
        all_positive(domain.extents()),
{
    let off = vec_sub(x, domain.min@);
    let size = domain.extents();
    assert forall|a: int| 0 <= a < size.len() implies 0 <= #[trigger] off[a] < size[a] by {
        assert(domain.min@[a] <= x[a] < domain.max@[a]);
    }
    assert forall|a: int| 0 <= a < size.len() implies size[a] > 0 by {
        assert(0 <= off[a] < size[a]);
    }
}

/// Within a domain, the flat index of a point is its dot product with the
/// strides plus a fixed offset, the negated dot product of the domain's lower
/// corner with the strides. It is a position of the buffer, and different
/// points have different positions.
pub proof fn law_flat_index<const D: usize>(domain: Range<IV<D>>, x: Seq<int>, y: Seq<int>)
    requires
        domain.points().contains(x),
        domain.points().contains(y),
    ensures
        flat_index(domain, x) == dot(x, strides(domain.extents())) + -dot(
            domain.min@,
            strides(domain.extents()),
        ),
        0 <= flat_index(domain, x) < volume(domain.extents()),
        flat_index(domain, x) == flat_index(domain, y) ==> x == y,
{
    let size = domain.extents();
    let lo = domain.min@;
    lemma_box_offsets(domain, x);
    lemma_box_offsets(domain, y);
    lemma_rank_bounds(size, vec_sub(x, lo));
    lemma_dot_sub(x, lo, strides(size), 0);
    assert(vec_sub(x, lo) =~= Seq::new(x.len(), |b: int| x[b] - lo[b]));
    if flat_index(domain, x) == flat_index(domain, y) {
        lemma_rank_injective(size, vec_sub(x, lo), vec_sub(y, lo));
        assert forall|a: int| 0 <= a < D implies x[a] == y[a] by {
            assert(vec_sub(x, lo)[a] == vec_sub(y, lo)[a]);
        }
        assert(x =~= y);
    }
}

impl<T, const D: usize> ArrayNd<T, D> {
    #[verifier::type_invariant]
    spec fn inv(self) -> bool {
        &&& addressable(self.domain)
        &&& self.stride@ == strides(self.domain.extents())
        &&& self.data@.len() == volume(self.domain.extents())
    }

    /// The box of indices of the array.
    pub closed spec fn spec_domain(&self) -> Range<IV<D>> {
        self.domain
    }

    /// The array is defined exactly on the points of its domain.
    pub proof fn lemma_dom(&self)
        ensures
            self@.dom() == self.spec_domain().points(),
    {
        assert(self@.dom() =~= self.spec_domain().points());
    }

    /// The box of indices of the array.
    #[verifier::when_used_as_spec(spec_domain)]
    pub fn domain(&self) -> (r: Range<IV<D>>)
        ensures
            r == self.spec_domain(),
    {
        self.domain
    }

    /// The number of elements.
    pub fn len(&self) -> (n: usize)
        ensures
            n == volume(self.spec_domain().extents()),
            addressable(self.spec_domain()),
    {
        proof {
            use_type_invariant(self);
        }
        self.data.len()
    }

    /// Creates a new multi-dimensional array of zeros.
    ///
    /// Returns an error if the domain is invalid: if the number of elements or
    /// a stride cannot be represented.
    pub fn zeros(domain: Range<IV<D>>) -> (r: Result<Self, ArrayNdCreationError<D>>) where
        T: Zero,

        ensures
            match r {
                Ok(arr) => {
                    &&& addressable(domain)
                    &&& arr.spec_domain() == domain
                    &&& forall|x: Seq<int>|
                        domain.points().contains(x) ==> (#[trigger] arr@[x]).is_zero()
                },
                Err(e) => !addressable(domain) && e == ArrayNdCreationError::InvalidDomain(domain),
            },
    {
        let ghost size = domain.extents();
        let mut stride = IV::<D>::zeros();
        let mut acc: i128 = 1;
        let mut a: usize = D;
        while a > 0
            invariant
                a <= D,
                size == domain.extents(),
                acc == suffix_product(size, a as int),
                isize::MIN <= acc <= isize::MAX,
                a == 0 ==> 0 <= acc,
                forall|b: int| a <= b < D ==> stride@[b] == #[trigger] strides(size)[b],
                forall|b: int|
                    a <= b < D ==> isize::MIN <= #[trigger] strides(size)[b] <= isize::MAX,
            decreases a,
        {
            a -= 1;
            stride.set(a, acc as isize);
            let e: i128 = domain.max.get(a) as i128 - domain.min.get(a) as i128;
            assert(e == size[a as int]);
            assert(-0x1_0000_0000_0000_0000 < e < 0x1_0000_0000_0000_0000);
            assert(-0x8000_0000_0000_0000 <= acc <= 0x8000_0000_0000_0000);
            assert(-0x8000_0000_0000_0000_0000_0000_0000_0000 < e * acc
                < 0x8000_0000_0000_0000_0000_0000_0000_0000) by (nonlinear_arith)
                requires
                    -0x1_0000_0000_0000_0000 < e < 0x1_0000_0000_0000_0000,
                    -0x8000_0000_0000_0000 <= acc <= 0x8000_0000_0000_0000,
            ;
            let prod: i128 = e * acc;
            assert(prod == suffix_product(size, a as int));
            if a > 0 {
                if prod < isize::MIN as i128 || prod > isize::MAX as i128 {
                    assert(strides(size)[a - 1] == prod);
                    return Err(ArrayNdCreationError::InvalidDomain(domain));
                }
                assert(strides(size)[a - 1] == prod);
            } else {
                if prod < 0 || prod > isize::MAX as i128 {
                    return Err(ArrayNdCreationError::InvalidDomain(domain));
                }
            }
            acc = prod;
        }
        assert(stride@ =~= strides(size));
        let n: usize = acc as usize;
        let mut data: Vec<T> = Vec::with_capacity(n);
        let mut k: usize = 0;
        while k < n
            invariant
                k <= n,
                data@.len() == k,
                forall|j: int| 0 <= j < k ==> (#[trigger] data@[j]).is_zero(),
            decreases n - k,
        {
            data.push(T::zero());
            k += 1;
        }
        let arr = ArrayNd { data, domain, stride };
        assert forall|x: Seq<int>| domain.points().contains(x) implies (#[trigger] arr@[x]).is_zero() by {
            law_flat_index(domain, x, x);
        }
        Ok(arr)
    }

    /// Creates a new multi-dimensional array of zeros with the same domain
    /// (and other associated constants) as another `ArrayNd`.
    pub fn zeros_like<U>(other: &ArrayNd<U, D>) -> (r: Self) where T: Zero
        ensures
            r.spec_domain() == other.spec_domain(),
            forall|x: Seq<int>|
                other.spec_domain().points().contains(x) ==> (#[trigger] r@[x]).is_zero(),
    {
        proof {
            use_type_invariant(other);
        }
        let n = other.data.len();
        let mut data: Vec<T> = Vec::with_capacity(n);
        let mut k: usize = 0;
        while k < n
            invariant
                k <= n,
                data@.len() == k,
                forall|j: int| 0 <= j < k ==> (#[trigger] data@[j]).is_zero(),
            decreases n - k,
        {
            data.push(T::zero());
            k += 1;
        }
        let arr = ArrayNd { data, domain: other.domain, stride: other.stride };
        assert forall|x: Seq<int>| other.domain.points().contains(x) implies (
        #[trigger] arr@[x]).is_zero() by {
            law_flat_index(other.domain, x, x);
        }
        arr
    }

    /// The position of the element at `idx` in the flat buffer.
    fn flatten(&self, idx: &IV<D>) -> (k: usize)
        requires
            self.spec_domain().spec_contains_half_open(idx@),
        ensures
            k == flat_index(self.spec_domain(), idx@),
            k < self.data@.len(),
    {
        proof {
            use_type_invariant(self);
        }
        let ghost size = self.domain.extents();
        let ghost off = vec_sub(idx@, self.domain.min@);
        let ghost st = strides(size);
        proof {
            lemma_box_offsets(self.domain, idx@);
            lemma_rank_bounds(size, off);
        }
        let mut acc: isize = 0;
        let mut a: usize = 0;
        while a < D
            invariant
                a <= D,
                size == self.domain.extents(),
                off == vec_sub(idx@, self.domain.min@),
                st == strides(size),
                self.stride@ == st,
                in_box(size, off),
                all_positive(size),
                0 <= rank(size, off) < volume(size) <= isize::MAX,
                0 <= acc,
                acc + dot_from(off, st, a as int) == rank(size, off),
            decreases D - a,
        {
            proof {
                lemma_tail_bounds(size, off, a + 1);
                lemma_suffix_product_monotone(size, 0, a as int);
                lemma_suffix_product_positive(size, a + 1);
                let s = suffix_product(size, a + 1);
                assert(st[a as int] == s);
                assert(0 <= off[a as int] < size[a as int]);
                assert(size[a as int] <= size[a as int] * s) by (nonlinear_arith)
                    requires
                        s > 0,
                        size[a as int] > 0,
                ;
                assert(0 <= off[a as int] * s) by (nonlinear_arith)
                    requires
                        s > 0,
                        off[a as int] >= 0,
                ;
            }
            let o = idx.get(a) - self.domain.min.get(a);
            let term = o * self.stride.get(a);
            acc = acc + term;
            a += 1;
        }
        acc as usize
    }

    /// The element at `idx`, or `None` if `idx` lies outside the domain.
    pub fn get(&self, idx: IV<D>) -> (r: Option<&T>)
        ensures
            self.spec_domain().spec_contains_half_open(idx@) ==> r == Some(&self@[idx@]),
            !self.spec_domain().spec_contains_half_open(idx@) ==> r is None,
    {
        if self.domain.contains_half_open(idx) {
            let k = self.flatten(&idx);
            Some(&self.data[k])
        } else {
            None
        }
    }

    /// The element at `idx`, which lies in the domain.
    pub fn index(&self, idx: IV<D>) -> (r: &T)
        requires
            self.spec_domain().spec_contains_half_open(idx@),
        ensures
            *r == self@[idx@],
    {
        let k = self.flatten(&idx);
        &self.data[k]
    }

    /// Overwrites the element at `idx`, which lies in the domain.
    pub fn set(&mut self, idx: IV<D>, value: T)
        requires
            old(self).spec_domain().spec_contains_half_open(idx@),
        ensures
            final(self).spec_domain() == old(self).spec_domain(),
            final(self)@ == old(self)@.insert(idx@, value),
    {
        proof {
            use_type_invariant(&*self);
        }
        let k = self.flatten(&idx);
        proof {
            lemma_keyed_update(self.domain, self.data@, idx@, value);
        }
        self.data[k] = value;
    }

    /// A mutable reference to the element at `idx`, which lies in the domain.
    pub fn index_mut(&mut self, idx: IV<D>) -> (r: &mut T)
        requires
            old(self).spec_domain().spec_contains_half_open(idx@),
        ensures
            *r == old(self)@[idx@],
            final(self).spec_domain() == old(self).spec_domain(),
            final(self)@ == old(self)@.insert(idx@, *final(r)),
    {
        proof {
            use_type_invariant(&*self);
        }
        let k = self.flatten(&idx);
        let ghost domain = self.domain;
        let ghost data = self.data@;
        proof {
            assert forall|v: T| #[trigger]
                keyed(domain, data.update(k as int, v)) == keyed(domain, data).insert(
                    idx@,
                    v,
                ) by {
                lemma_keyed_update(domain, data, idx@, v);
            }
        }
        &mut self.data[k]
    }

    /// Resets every element to `value`.
    pub fn fill(&mut self, value: T) where T: Copy
        ensures
            final(self).spec_domain() == old(self).spec_domain(),
            forall|x: Seq<int>|
                old(self).spec_domain().points().contains(x) ==> #[trigger] final(self)@[x]
                    == value,
    {
        proof {
            use_type_invariant(&*self);
        }
        let n = self.data.len();
        let mut k: usize = 0;
        while k < n
            invariant
                k <= n,
                n == self.data@.len(),
                self.domain == old(self).domain,
                self.stride == old(self).stride,
                n == volume(self.domain.extents()),
                addressable(self.domain),
                self.stride@ == strides(self.domain.extents()),
                forall|j: int| 0 <= j < k ==> #[trigger] self.data@[j] == value,
            decreases n - k,
        {
            self.data[k] = value;
            k += 1;
        }
        proof {
            assert forall|x: Seq<int>| self.domain.points().contains(x) implies #[trigger] self@[x]
                == value by {
                law_flat_index(self.domain, x, x);
            }
        }
    }
}

/// Reading an array after a write gives the written value at the index that
/// was written and the earlier value at every other index, and the write
/// does not change which indices the array has.
pub proof fn law_read_after_write<T>(
    before: Map<Seq<int>, T>,
    idx: Seq<int>,
    value: T,
    other: Seq<int>,
)
    requires
        before.dom().contains(idx),
    ensures
        before.insert(idx, value)[idx] == value,
        other != idx ==> before.insert(idx, value)[other] == before[other],
        before.insert(idx, value).dom() == before.dom(),
{
    assert(before.insert(idx, value).dom() =~= before.dom());
}

} // verus!
