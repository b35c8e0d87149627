//! The list of particle indices of one grid cell.

use crate::math::Zero;
use vstd::prelude::*;

verus! {

/// The indices of the particles in one cell, in the order in which they were
/// added. Cells mostly hold few particles, so the list keeps its first two
/// entries inline and only moves to the heap when it grows beyond that.
#[verifier::external_body]
pub struct ParticleList {
    items: smallvec::SmallVec<[usize; 2]>,
}

/// The entries of a list, in order.
pub uninterp spec fn list_items(list: ParticleList) -> Seq<usize>;

/// Lists up to this length can take one more entry: growing them needs a
/// buffer whose size in bytes is still within what an allocation may have.
pub open spec fn list_len_limit() -> int {
    (usize::MAX / 32) as int
}

/// `SmallVec::new`: a list without entries.
#[verifier::external_body]
pub(crate) fn list_new() -> (list: ParticleList)
    ensures
        list_items(list) == Seq::<usize>::empty(),
{
    ParticleList { items: smallvec::SmallVec::new() }
}

/// `SmallVec::push`: the entry is appended and the earlier entries stay as
/// they are. The call panics when the capacity it has to grow to overflows,
/// which the length limit rules out.
#[verifier::external_body]
pub(crate) fn list_push(list: &mut ParticleList, p: usize)
    requires
        list_items(*old(list)).len() < list_len_limit(),
    ensures
        list_items(*final(list)) == list_items(*old(list)).push(p),
{
    list.items.push(p)
}

/// `SmallVec::clear`: all entries are removed.
#[verifier::external_body]
pub(crate) fn list_clear(list: &mut ParticleList)
    ensures
        list_items(*final(list)) == Seq::<usize>::empty(),
{
    list.items.clear()
}

/// `SmallVec::len`: the number of entries.
#[verifier::external_body]
pub(crate) fn list_len(list: &ParticleList) -> (n: usize)
    ensures
        n == list_items(*list).len(),
{
    list.items.len()
}

/// Indexing a `SmallVec` through its slice: the entry at position `i`, which
/// must exist.
#[verifier::external_body]
pub(crate) fn list_get(list: &ParticleList, i: usize) -> (p: usize)
    requires
        i < list_items(*list).len(),
    ensures
        p == list_items(*list)[i as int],
{
    list.items[i]
}

impl Zero for ParticleList {
    /// The zero of lists is the list without entries.
    open spec fn is_zero(&self) -> bool {
        list_items(*self) == Seq::<usize>::empty()
    }

    fn zero() -> (r: Self) {
        list_new()
    }
}

impl ParticleList {
    /// The entries as a vector.
    pub fn to_vec(&self) -> (r: Vec<usize>)
        ensures
            r@ == list_items(*self),
    {
        let n = list_len(self);
        let mut out: Vec<usize> = Vec::new();
        let mut i: usize = 0;
        while i < n
            invariant
                i <= n,
                n == list_items(*self).len(),
                out@ == list_items(*self).subrange(0, i as int),
            decreases n - i,
        {
            out.push(list_get(self, i));
            assert(out@ =~= list_items(*self).subrange(0, i + 1));
            i += 1;
        }
        assert(out@ =~= list_items(*self));
        out
    }
}

} // verus!
