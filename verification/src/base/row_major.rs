//! The arithmetic of row-major order: how the points of a box with given
//! extents are numbered when the last axis varies fastest.
//!
//! A point is given by its offsets from the lower corner of the box. Its
//! rank is its position in the enumeration, and also the position of its
//! element in the flat buffer of an array over the box.

use vstd::arithmetic::div_mod::{
    lemma_basic_div, lemma_div_denominator, lemma_fundamental_div_mod,
    lemma_fundamental_div_mod_converse, lemma_mod_bound,
};
use vstd::prelude::*;

verus! {

/// The product of the entries of `s` from position `a` on; 1 past the end.
pub open spec fn suffix_product(s: Seq<int>, a: int) -> int
    decreases s.len() - a,
{
    if 0 <= a < s.len() {
        s[a] * suffix_product(s, a + 1)
    } else {
        1
    }
}

/// The number of points of a box with extents `size`: the product of the
/// extents.
pub open spec fn volume(size: Seq<int>) -> int {
    suffix_product(size, 0)
}

/// The row-major strides of a box with extents `size`: the stride of an axis
/// is the product of the extents of all later axes, so the last stride is 1.
pub open spec fn strides(size: Seq<int>) -> Seq<int> {
    Seq::new(size.len(), |a: int| suffix_product(size, a + 1))
}

/// The sum of `x[b] * y[b]` over the positions `b` from `a` on.
pub open spec fn dot_from(x: Seq<int>, y: Seq<int>, a: int) -> int
    decreases x.len() - a,
{
    if 0 <= a < x.len() {
        x[a] * y[a] + dot_from(x, y, a + 1)
    } else {
        0
    }
}

/// The dot product of two vectors of equal length.
pub open spec fn dot(x: Seq<int>, y: Seq<int>) -> int {
    dot_from(x, y, 0)
}

/// Every entry of `s` is positive.
pub open spec fn all_positive(s: Seq<int>) -> bool {
    forall|a: int| 0 <= a < s.len() ==> s[a] > 0
}

/// `off` is the offset of a point of the box with extents `size`.
pub open spec fn in_box(size: Seq<int>, off: Seq<int>) -> bool {
    &&& off.len() == size.len()
    &&& forall|a: int| 0 <= a < size.len() ==> 0 <= #[trigger] off[a] < size[a]
}

/// The rank of the point with offsets `off`: the dot product of the offsets
/// with the strides.
pub open spec fn rank(size: Seq<int>, off: Seq<int>) -> int {
    dot(off, strides(size))
}

/// The offsets of the point with rank `k`.
pub open spec fn unrank(size: Seq<int>, k: int) -> Seq<int> {
    Seq::new(size.len(), |a: int| (k / suffix_product(size, a + 1)) % size[a])
}

/// The number of integer points `x` with `lo <= x < hi` along every axis:
/// the product of the extents where `lo < hi` along every axis, and none
/// otherwise.
pub open spec fn box_count(lo: Seq<int>, hi: Seq<int>) -> nat {
    if forall|a: int| 0 <= a < lo.len() ==> lo[a] < hi[a] {
        volume(Seq::new(lo.len(), |a: int| hi[a] - lo[a])) as nat
    } else {
        0
    }
}

/// The integer points `x` with `lo <= x < hi` along every axis, in row-major
/// order: the last axis varies fastest.
pub open spec fn box_points(lo: Seq<int>, hi: Seq<int>) -> Seq<Seq<int>> {
    Seq::new(
        box_count(lo, hi),
        |k: int|
            Seq::new(
                lo.len(),
                |a: int| lo[a] + unrank(Seq::new(lo.len(), |a: int| hi[a] - lo[a]), k)[a],
            ),
    )
}

/// `x` comes before `y` in lexicographic order: at the first axis where they
/// differ, `x` is smaller.
pub open spec fn lex_less(x: Seq<int>, y: Seq<int>) -> bool {
    exists|a: int|
        0 <= a < x.len() && #[trigger] x[a] < y[a] && forall|b: int|
            0 <= b < a ==> #[trigger] x[b] == y[b]
}

/// The rank of the first `n` offsets within the box of the first `n` extents.
pub open spec fn horner(size: Seq<int>, off: Seq<int>, n: int) -> int
    decreases n,
{
    if n <= 0 {
        0
    } else {
        horner(size, off, n - 1) * size[n - 1] + off[n - 1]
    }
}

/// The point after `off` where axis `j` is the last one that can still
/// advance: axis `j` moves on by one and all later axes start over.
pub open spec fn successor(off: Seq<int>, j: int) -> Seq<int> {
    Seq::new(
        off.len(),
        |b: int|
            if b < j {
                off[b]
            } else if b == j {
                off[j] + 1
            } else {
                0
            },
    )
}

pub proof fn lemma_suffix_product_positive(size: Seq<int>, a: int)
    requires
        all_positive(size),
    ensures
        suffix_product(size, a) > 0,
    decreases size.len() - a,
{
    if 0 <= a < size.len() {
        lemma_suffix_product_positive(size, a + 1);
        let rest = suffix_product(size, a + 1);
        assert(size[a] * rest > 0) by (nonlinear_arith)
            requires
                size[a] > 0,
                rest > 0,
        ;
    }
}

/// With positive extents, the span of the axes from `b` on is at most the
/// span of the axes from an earlier axis `a` on.
pub proof fn lemma_suffix_product_monotone(size: Seq<int>, a: int, b: int)
    requires
        all_positive(size),
        0 <= a <= b <= size.len(),
    ensures
        0 < suffix_product(size, b) <= suffix_product(size, a),
    decreases b - a,
{
    lemma_suffix_product_positive(size, b);
    if a < b {
        lemma_suffix_product_monotone(size, a + 1, b);
        let rest = suffix_product(size, a + 1);
        assert(size[a] * rest >= rest) by (nonlinear_arith)
            requires
                size[a] > 0,
                rest > 0,
        ;
    }
}

/// The part of the rank that the axes from `a` on contribute is less than
/// the number of points they span.
pub proof fn lemma_tail_bounds(size: Seq<int>, off: Seq<int>, a: int)
    requires
        in_box(size, off),
        0 <= a <= size.len(),
    ensures
        0 <= dot_from(off, strides(size), a) < suffix_product(size, a),
    decreases size.len() - a,
{
    if a < size.len() {
        lemma_tail_bounds(size, off, a + 1);
        let st = suffix_product(size, a + 1);
        let t = dot_from(off, strides(size), a + 1);
        assert(strides(size)[a] == st);
        assert(0 <= off[a] * st + t < size[a] * st) by (nonlinear_arith)
            requires
                0 <= off[a] < size[a],
                0 <= t < st,
        ;
    }
}

/// The rank splits at any axis `n` into the rank of the leading offsets,
/// scaled by the span of the remaining axes, plus what those contribute.
pub proof fn lemma_rank_split(size: Seq<int>, off: Seq<int>, n: int)
    requires
        off.len() == size.len(),
        0 <= n <= size.len(),
    ensures
        rank(size, off) == horner(size, off, n) * suffix_product(size, n) + dot_from(
            off,
            strides(size),
            n,
        ),
    decreases n,
{
    if n > 0 {
        lemma_rank_split(size, off, n - 1);
        let h = horner(size, off, n - 1);
        let sp = suffix_product(size, n);
        let t = dot_from(off, strides(size), n);
        assert(strides(size)[n - 1] == sp);
        assert(suffix_product(size, n - 1) == size[n - 1] * sp);
        assert(dot_from(off, strides(size), n - 1) == off[n - 1] * sp + t);
        assert(h * (size[n - 1] * sp) + (off[n - 1] * sp + t) == (h * size[n - 1] + off[n - 1])
            * sp + t) by (nonlinear_arith);
    }
}

/// The leading part of the rank depends on the leading offsets only.
pub proof fn lemma_horner_agree(size: Seq<int>, x: Seq<int>, y: Seq<int>, n: int)
    requires
        forall|b: int| 0 <= b < n ==> x[b] == y[b],
    ensures
        horner(size, x, n) == horner(size, y, n),
    decreases n,
{
    if n > 0 {
        lemma_horner_agree(size, x, y, n - 1);
    }
}

/// The rank of a point of the box lies below the volume.
pub proof fn lemma_rank_bounds(size: Seq<int>, off: Seq<int>)
    requires
        in_box(size, off),
    ensures
        0 <= rank(size, off) < volume(size),
{
    lemma_tail_bounds(size, off, 0);
}

/// Taking the rank of a point and decoding it gives the point back.
pub proof fn lemma_unrank_rank(size: Seq<int>, off: Seq<int>)
    requires
        in_box(size, off),
    ensures
        unrank(size, rank(size, off)) == off,
{
    let k = rank(size, off);
    assert forall|a: int| 0 <= a < size.len() implies unrank(size, k)[a] == off[a] by {
        lemma_rank_split(size, off, a + 1);
        lemma_tail_bounds(size, off, a + 1);
        let sp = suffix_product(size, a + 1);
        let h1 = horner(size, off, a + 1);
        let t = dot_from(off, strides(size), a + 1);
        lemma_fundamental_div_mod_converse(k, sp, h1, t);
        let h0 = horner(size, off, a);
        assert(h1 == h0 * size[a] + off[a]);
        lemma_fundamental_div_mod_converse(h1, size[a], h0, off[a]);
    }
    assert(unrank(size, k) =~= off);
}

proof fn lemma_horner_of_unrank(size: Seq<int>, k: int, n: int)
    requires
        all_positive(size),
        0 <= k < volume(size),
        0 <= n <= size.len(),
    ensures
        horner(size, unrank(size, k), n) == k / suffix_product(size, n),
    decreases n,
{
    let off = unrank(size, k);
    if n == 0 {
        lemma_basic_div(k, suffix_product(size, 0));
    } else {
        lemma_horner_of_unrank(size, k, n - 1);
        let sp = suffix_product(size, n);
        let d = size[n - 1];
        lemma_suffix_product_positive(size, n);
        let q = k / sp;
        assert(off[n - 1] == q % d);
        lemma_div_denominator(k, sp, d);
        assert(suffix_product(size, n - 1) == d * sp);
        assert(d * sp == sp * d) by (nonlinear_arith);
        assert(horner(size, off, n - 1) == q / d);
        lemma_fundamental_div_mod(q, d);
        assert((q / d) * d == d * (q / d)) by (nonlinear_arith);
    }
}

/// Decoding a rank below the volume gives a point of the box with that rank.
pub proof fn lemma_rank_unrank(size: Seq<int>, k: int)
    requires
        all_positive(size),
        0 <= k < volume(size),
    ensures
        in_box(size, unrank(size, k)),
        rank(size, unrank(size, k)) == k,
{
    let off = unrank(size, k);
    assert forall|a: int| 0 <= a < size.len() implies 0 <= #[trigger] off[a] < size[a] by {
        assert(size[a] > 0);
        lemma_mod_bound(k / suffix_product(size, a + 1), size[a]);
    }
    let n = size.len() as int;
    lemma_rank_split(size, off, n);
    lemma_horner_of_unrank(size, k, n);
    assert(suffix_product(size, n) == 1);
    assert(dot_from(off, strides(size), n) == 0);
    assert(k / 1 == k);
    assert(horner(size, off, n) * 1 == horner(size, off, n));
}

/// Two points of the box with the same rank are the same point.
pub proof fn lemma_rank_injective(size: Seq<int>, x: Seq<int>, y: Seq<int>)
    requires
        in_box(size, x),
        in_box(size, y),
        rank(size, x) == rank(size, y),
    ensures
        x == y,
{
    lemma_unrank_rank(size, x);
    lemma_unrank_rank(size, y);
}

/// A point that comes first lexicographically has the smaller rank.
pub proof fn lemma_lex_less_rank(size: Seq<int>, x: Seq<int>, y: Seq<int>)
    requires
        in_box(size, x),
        in_box(size, y),
        lex_less(x, y),
    ensures
        rank(size, x) < rank(size, y),
{
    let a = choose|a: int|
        0 <= a < x.len() && #[trigger] x[a] < y[a] && forall|b: int|
            0 <= b < a ==> #[trigger] x[b] == y[b];
    lemma_horner_agree(size, x, y, a);
    lemma_rank_split(size, x, a);
    lemma_rank_split(size, y, a);
    lemma_tail_bounds(size, x, a + 1);
    lemma_tail_bounds(size, y, a + 1);
    let st = suffix_product(size, a + 1);
    let tx = dot_from(x, strides(size), a + 1);
    let ty = dot_from(y, strides(size), a + 1);
    assert(strides(size)[a] == st);
    assert(x[a] * st + tx < y[a] * st + ty) by (nonlinear_arith)
        requires
            x[a] < y[a],
            0 <= tx < st,
            0 <= ty,
    ;
}

proof fn lemma_first_difference(x: Seq<int>, y: Seq<int>, n: int) -> (a: int)
    requires
        x.len() == y.len(),
        0 <= n < x.len(),
        x[n] != y[n],
    ensures
        0 <= a <= n,
        x[a] != y[a],
        forall|b: int| 0 <= b < a ==> x[b] == y[b],
    decreases n,
{
    if exists|b: int| 0 <= b < n && x[b] != y[b] {
        let b = choose|b: int| 0 <= b < n && x[b] != y[b];
        lemma_first_difference(x, y, b)
    } else {
        n
    }
}

/// A point with the smaller rank comes first lexicographically.
pub proof fn lemma_rank_less_lex(size: Seq<int>, x: Seq<int>, y: Seq<int>)
    requires
        in_box(size, x),
        in_box(size, y),
        rank(size, x) < rank(size, y),
    ensures
        lex_less(x, y),
{
    if x =~= y {
        assert(false);
    }
    let n = choose|n: int| 0 <= n < x.len() && x[n] != y[n];
    let a = lemma_first_difference(x, y, n);
    if x[a] < y[a] {
        assert(lex_less(x, y));
    } else {
        assert(y[a] < x[a]);
        assert(forall|b: int| 0 <= b < a ==> #[trigger] y[b] == x[b]);
        assert(lex_less(y, x));
        lemma_lex_less_rank(size, y, x);
    }
}

pub proof fn lemma_tail_zero(size: Seq<int>, off: Seq<int>, a: int)
    requires
        off.len() == size.len(),
        0 <= a <= size.len(),
        forall|b: int| a <= b < size.len() ==> off[b] == 0,
    ensures
        dot_from(off, strides(size), a) == 0,
    decreases size.len() - a,
{
    if a < size.len() {
        lemma_tail_zero(size, off, a + 1);
        assert(off[a] * strides(size)[a] == 0) by (nonlinear_arith)
            requires
                off[a] == 0,
        ;
    }
}

pub proof fn lemma_tail_full(size: Seq<int>, off: Seq<int>, a: int)
    requires
        off.len() == size.len(),
        0 <= a <= size.len(),
        forall|b: int| a <= b < size.len() ==> off[b] == size[b] - 1,
    ensures
        dot_from(off, strides(size), a) == suffix_product(size, a) - 1,
    decreases size.len() - a,
{
    if a < size.len() {
        lemma_tail_full(size, off, a + 1);
        let st = suffix_product(size, a + 1);
        assert(strides(size)[a] == st);
        assert((size[a] - 1) * st + (st - 1) == size[a] * st - 1) by (nonlinear_arith);
    }
}

/// Stepping to the successor raises the rank by one.
pub proof fn lemma_successor_rank(size: Seq<int>, off: Seq<int>, j: int)
    requires
        in_box(size, off),
        0 <= j < size.len(),
        off[j] + 1 < size[j],
        forall|b: int| j < b < size.len() ==> off[b] == size[b] - 1,
    ensures
        in_box(size, successor(off, j)),
        rank(size, successor(off, j)) == rank(size, off) + 1,
{
    let next = successor(off, j);
    assert forall|b: int| 0 <= b < size.len() implies 0 <= #[trigger] next[b] < size[b] by {
        assert(0 <= off[b] < size[b]);
    }
    lemma_horner_agree(size, off, next, j);
    lemma_rank_split(size, off, j);
    lemma_rank_split(size, next, j);
    lemma_tail_full(size, off, j + 1);
    lemma_tail_zero(size, next, j + 1);
    let st = suffix_product(size, j + 1);
    assert(strides(size)[j] == st);
    assert((off[j] + 1) * st == off[j] * st + st) by (nonlinear_arith);
}

/// The point whose offsets are all as large as they can be has the last rank.
pub proof fn lemma_last_rank(size: Seq<int>, off: Seq<int>)
    requires
        off.len() == size.len(),
        forall|b: int| 0 <= b < size.len() ==> off[b] == size[b] - 1,
    ensures
        rank(size, off) == volume(size) - 1,
{
    lemma_tail_full(size, off, 0);
}

/// The dot product is linear in its first argument: the dot product of a
/// difference is the difference of the dot products.
pub proof fn lemma_dot_sub(x: Seq<int>, m: Seq<int>, s: Seq<int>, a: int)
    requires
        x.len() == m.len(),
        x.len() == s.len(),
        0 <= a <= x.len(),
    ensures
        dot_from(Seq::new(x.len(), |b: int| x[b] - m[b]), s, a) == dot_from(x, s, a) - dot_from(
            m,
            s,
            a,
        ),
    decreases x.len() - a,
{
    if a < x.len() {
        lemma_dot_sub(x, m, s, a + 1);
        assert((x[a] - m[a]) * s[a] == x[a] * s[a] - m[a] * s[a]) by (nonlinear_arith);
    }
}

/// The extents of the box between the corners `lo` and `hi`.
pub open spec fn box_extents(lo: Seq<int>, hi: Seq<int>) -> Seq<int> {
    Seq::new(lo.len(), |a: int| hi[a] - lo[a])
}

/// `x` has as many components as `lo` and lies between the corners, `lo`
/// included and `hi` excluded.
pub open spec fn in_corners(lo: Seq<int>, hi: Seq<int>, x: Seq<int>) -> bool {
    &&& x.len() == lo.len()
    &&& forall|a: int| 0 <= a < lo.len() ==> lo[a] <= #[trigger] x[a] < hi[a]
}

/// A box whose lower corner lies below its upper corner along every axis is
/// enumerated completely and once by `box_points`: there are as many points
/// as the product of the extents, each lies in the box, every point of the
/// box occurs at the position that its rank gives, and the points come in
/// lexicographic order, so none occurs twice.
pub proof fn lemma_box_points(lo: Seq<int>, hi: Seq<int>)
    requires
        lo.len() == hi.len(),
        forall|a: int| 0 <= a < lo.len() ==> lo[a] < hi[a],
    ensures
        box_points(lo, hi).len() == volume(box_extents(lo, hi)),
        forall|k: int|
            0 <= k < box_points(lo, hi).len() ==> in_corners(lo, hi, #[trigger] box_points(lo, hi)[k]),
        forall|x: Seq<int>| #[trigger]
            in_corners(lo, hi, x) ==> {
                let k = rank(box_extents(lo, hi), Seq::new(lo.len(), |a: int| x[a] - lo[a]));
                0 <= k < box_points(lo, hi).len() && box_points(lo, hi)[k] == x
            },
        forall|i: int, j: int|
            0 <= i < j < box_points(lo, hi).len() ==> lex_less(
                #[trigger] box_points(lo, hi)[i],
                #[trigger] box_points(lo, hi)[j],
            ),
        forall|i: int, j: int|
            0 <= i < box_points(lo, hi).len() && 0 <= j < box_points(lo, hi).len() && i != j
                ==> #[trigger] box_points(lo, hi)[i] != #[trigger] box_points(lo, hi)[j],
{
    let size = box_extents(lo, hi);
    let pts = box_points(lo, hi);
    assert(all_positive(size));
    lemma_suffix_product_positive(size, 0);
    assert forall|k: int| 0 <= k < pts.len() implies in_corners(lo, hi, #[trigger] pts[k]) by {
        lemma_rank_unrank(size, k);
        let off = unrank(size, k);
        assert forall|a: int| 0 <= a < lo.len() implies lo[a] <= #[trigger] pts[k][a] < hi[a] by {
            assert(0 <= off[a] < size[a]);
        }
    }
    assert forall|x: Seq<int>| #[trigger] in_corners(lo, hi, x) implies {
        let k = rank(size, Seq::new(lo.len(), |a: int| x[a] - lo[a]));
        0 <= k < pts.len() && pts[k] == x
    } by {
        let off = Seq::new(lo.len(), |a: int| x[a] - lo[a]);
        assert forall|a: int| 0 <= a < size.len() implies 0 <= #[trigger] off[a] < size[a] by {
            assert(lo[a] <= x[a] < hi[a]);
        }
        lemma_rank_bounds(size, off);
        lemma_unrank_rank(size, off);
        assert(pts[rank(size, off)] =~= x);
    }
    assert forall|i: int, j: int| 0 <= i < j < pts.len() implies lex_less(
        #[trigger] pts[i],
        #[trigger] pts[j],
    ) by {
        lemma_rank_unrank(size, i);
        lemma_rank_unrank(size, j);
        let x = unrank(size, i);
        let y = unrank(size, j);
        lemma_rank_less_lex(size, x, y);
        let a = choose|a: int|
            0 <= a < x.len() && #[trigger] x[a] < y[a] && forall|b: int|
                0 <= b < a ==> #[trigger] x[b] == y[b];
        assert(pts[i][a] < pts[j][a]);
        assert forall|b: int| 0 <= b < a implies #[trigger] pts[i][b] == pts[j][b] by {
            assert(x[b] == y[b]);
        }
    }
    assert forall|i: int, j: int|
        0 <= i < pts.len() && 0 <= j < pts.len() && i != j implies #[trigger] pts[i]
        != #[trigger] pts[j] by {
        if i < j {
            assert(lex_less(pts[i], pts[j]));
        } else {
            assert(lex_less(pts[j], pts[i]));
        }
    }
}

} // verus!
