//! Integer coordinate vectors of a fixed dimension.

use vstd::prelude::*;

verus! {

/// An integer vector with `D` components, used for cell, node and array
/// indices. Components may be negative.
#[derive(Clone, Copy, Debug, PartialEq, Eq, Hash)]
pub struct IV<const D: usize> {
    pub c: [isize; D],
}

impl<const D: usize> View for IV<D> {
    type V = Seq<int>;

    /// The components as mathematical integers.
    open spec fn view(&self) -> Seq<int> {
        Seq::new(D as nat, |a: int| self.c@[a] as int)
    }
}

/// Every component of `s` is representable as an `isize`.
pub open spec fn fits_isize(s: Seq<int>) -> bool {
    forall|a: int| 0 <= a < s.len() ==> isize::MIN <= #[trigger] s[a] <= isize::MAX
}

/// Componentwise sum of two vectors of equal length.
pub open spec fn vec_add(x: Seq<int>, y: Seq<int>) -> Seq<int> {
    Seq::new(x.len(), |a: int| x[a] + y[a])
}

/// Componentwise difference of two vectors of equal length.
pub open spec fn vec_sub(x: Seq<int>, y: Seq<int>) -> Seq<int> {
    Seq::new(x.len(), |a: int| x[a] - y[a])
}

/// The vector of length `n` whose components all equal `v`.
pub open spec fn vec_splat(n: nat, v: int) -> Seq<int> {
    Seq::new(n, |a: int| v)
}

/// The vector of length `n` that is `v` at position `i` and zero elsewhere.
pub open spec fn vec_ith(n: nat, i: int, v: int) -> Seq<int> {
    Seq::new(n, |a: int| if a == i { v } else { 0 })
}

impl<const D: usize> IV<D> {
    /// Wraps an array of components.
    pub fn new(c: [isize; D]) -> (r: Self)
        ensures
            r.c == c,
    {
        IV { c }
    }

    /// The zero vector.
    pub fn zeros() -> (r: Self)
        ensures
            r@ == vec_splat(D as nat, 0),
    {
        let r = IV { c: [0isize; D] };
        assert(r@ =~= vec_splat(D as nat, 0));
        r
    }

    /// The vector whose components all equal `v`.
    pub fn from_element(v: isize) -> (r: Self)
        ensures
            r@ == vec_splat(D as nat, v as int),
    {
        let r = IV { c: [v; D] };
        assert(r@ =~= vec_splat(D as nat, v as int));
        r
    }

    /// The vector that is `v` along axis `i` and zero elsewhere.
    pub fn ith(i: usize, v: isize) -> (r: Self)
        requires
            i < D,
        ensures
            r@ == vec_ith(D as nat, i as int, v as int),
    {
        let mut r = IV { c: [0isize; D] };
        r.c[i] = v;
        assert(r@ =~= vec_ith(D as nat, i as int, v as int));
        r
    }

    /// Component `a`.
    pub fn get(&self, a: usize) -> (r: isize)
        requires
            a < D,
        ensures
            r as int == self@[a as int],
        no_unwind
    {
        self.c[a]
    }

    /// Overwrites component `a` with `v`.
    pub fn set(&mut self, a: usize, v: isize)
        requires
            a < D,
        ensures
            final(self)@ == old(self)@.update(a as int, v as int),
        no_unwind
    {
        self.c[a] = v;
        assert(self@ =~= old(self)@.update(a as int, v as int));
    }

    /// Componentwise sum, where every component of the sum is representable.
    pub fn add(&self, other: &Self) -> (r: Self)
        requires
            fits_isize(vec_add(self@, other@)),
        ensures
            r@ == vec_add(self@, other@),
    {
        let mut r = *self;
        let mut a: usize = 0;
        while a < D
            invariant
                a <= D,
                fits_isize(vec_add(self@, other@)),
                forall|b: int| 0 <= b < a ==> r@[b] == self@[b] + other@[b],
                forall|b: int| a <= b < D ==> r@[b] == self@[b],
            decreases D - a,
        {
            assert(vec_add(self@, other@)[a as int] == self@[a as int] + other@[a as int]);
            let v = self.c[a] + other.c[a];
            let ghost prev = r;
            r.c[a] = v;
            assert forall|b: int| 0 <= b < D implies r@[b] == prev@.update(a as int, v as int)[b] by {
                assert(r.c@[b] == prev.c@.update(a as int, v)[b]);
            }
            a += 1;
        }
        assert(r@ =~= vec_add(self@, other@));
        r
    }

    /// Componentwise difference, where every component of it is representable.
    pub fn sub(&self, other: &Self) -> (r: Self)
        requires
            fits_isize(vec_sub(self@, other@)),
        ensures
            r@ == vec_sub(self@, other@),
    {
        let mut r = *self;
        let mut a: usize = 0;
        while a < D
            invariant
                a <= D,
                fits_isize(vec_sub(self@, other@)),
                forall|b: int| 0 <= b < a ==> r@[b] == self@[b] - other@[b],
                forall|b: int| a <= b < D ==> r@[b] == self@[b],
            decreases D - a,
        {
            assert(vec_sub(self@, other@)[a as int] == self@[a as int] - other@[a as int]);
            let v = self.c[a] - other.c[a];
            let ghost prev = r;
            r.c[a] = v;
            assert forall|b: int| 0 <= b < D implies r@[b] == prev@.update(a as int, v as int)[b] by {
                assert(r.c@[b] == prev.c@.update(a as int, v)[b]);
            }
            a += 1;
        }
        assert(r@ =~= vec_sub(self@, other@));
        r
    }

    /// Whether the two vectors have the same components.
    pub fn same(&self, other: &Self) -> (r: bool)
        ensures
            r == (self@ == other@),
    {
        let mut a: usize = 0;
        while a < D
            invariant
                a <= D,
                forall|b: int| 0 <= b < a ==> self@[b] == other@[b],
            decreases D - a,
        {
            if self.c[a] != other.c[a] {
                assert(self@[a as int] != other@[a as int]);
                return false;
            }
            a += 1;
        }
        assert(self@ =~= other@);
        true
    }
}

/// Types with a zero value, such as the elements of a freshly made array.
pub trait Zero: Sized {
    /// Whether `self` is the zero value of the type.
    spec fn is_zero(&self) -> bool;

    /// The zero value of the type.
    fn zero() -> (r: Self)
        ensures
            r.is_zero(),
    ;
}

impl Zero for isize {
    open spec fn is_zero(&self) -> bool {
        *self == 0
    }

    fn zero() -> (r: Self) {
        0
    }
}

impl Zero for usize {
    open spec fn is_zero(&self) -> bool {
        *self == 0
    }

    fn zero() -> (r: Self) {
        0
    }
}

impl Zero for i32 {
    open spec fn is_zero(&self) -> bool {
        *self == 0
    }

    fn zero() -> (r: Self) {
        0
    }
}

impl Zero for i64 {
    open spec fn is_zero(&self) -> bool {
        *self == 0
    }

    fn zero() -> (r: Self) {
        0
    }
}

impl Zero for u8 {
    open spec fn is_zero(&self) -> bool {
        *self == 0
    }

    fn zero() -> (r: Self) {
        0
    }
}

impl Zero for u32 {
    open spec fn is_zero(&self) -> bool {
        *self == 0
    }

    fn zero() -> (r: Self) {
        0
    }
}

impl Zero for u64 {
    open spec fn is_zero(&self) -> bool {
        *self == 0
    }

    fn zero() -> (r: Self) {
        0
    }
}

} // verus!
