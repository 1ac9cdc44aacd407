//! Row-major order: the correspondence between the position of an element
//! in the order of iteration and its index tuple.
use vstd::prelude::*;
use vstd::arithmetic::div_mod::{
    lemma_fundamental_div_mod_converse, lemma_mod_bound, lemma_mod_breakdown, lemma_small_mod,
};
use crate::geometry::{dot, dot_terms, valid_index, MappingView};
use crate::shape::{dense_strides, lemma_nonempty_shape, shape_len};
use crate::transform::{lemma_axis_at_offset, lemma_dense_strides_first_axis};
use crate::sums::{
    lemma_prod_from_positive, lemma_prod_from_remove, lemma_sum_from_remove, prod_from, sum_from,
};

verus! {

/// The index along axis `i` of the element at position `k` in row-major
/// order: the last axis varies fastest.
pub open spec fn digit(dims: Seq<int>, k: int, i: int) -> int {
    (k / prod_from(dims, i + 1)) % dims[i]
}

/// The index tuple of the element at position `k` in row-major order.
pub open spec fn unravel(dims: Seq<int>, k: int) -> Seq<int> {
    Seq::new(dims.len(), |i: int| digit(dims, k, i))
}

/// The position in row-major order of the element that `idx` names.
pub open spec fn ravel(dims: Seq<int>, idx: Seq<int>) -> int {
    dot(idx, dense_strides(dims))
}

/// The indices before axis `i` read as one number in the mixed radix of the
/// extents.
pub open spec fn leading(dims: Seq<int>, idx: Seq<int>, i: int) -> int
    decreases i,
{
    if i <= 0 {
        0
    } else {
        leading(dims, idx, i - 1) * dims[i - 1] + idx[i - 1]
    }
}

impl MappingView {
    /// The position in memory of the element at position `k` in row-major
    /// order.
    pub open spec fn linear(self, k: int) -> int {
        self.offset(unravel(self.dims, k))
    }
}

/// Every position below the length has a valid index tuple.
pub proof fn lemma_unravel_valid(dims: Seq<int>, k: int)
    requires
        forall|i: int| 0 <= i < dims.len() ==> #[trigger] dims[i] >= 0,
        0 <= k < shape_len(dims),
    ensures
        valid_index(dims, unravel(dims, k)),
{
    crate::shape::lemma_nonempty_shape(dims);
    assert forall|i: int| 0 <= i < dims.len() implies 0 <= #[trigger] unravel(dims, k)[i]
        < dims[i] by {
        lemma_mod_bound(k / prod_from(dims, i + 1), dims[i]);
    }
}

/// The index tuple of position `k`, from axis `j` on, gives back `k` modulo
/// the size of those axes.
pub proof fn lemma_ravel_unravel_from(dims: Seq<int>, k: int, j: int)
    requires
        forall|i: int| 0 <= i < dims.len() ==> #[trigger] dims[i] > 0,
        0 <= k,
        0 <= j <= dims.len(),
    ensures
        prod_from(dims, j) > 0,
        sum_from(dot_terms(unravel(dims, k), dense_strides(dims)), j) == k % prod_from(dims, j),
    decreases dims.len() - j,
{
    lemma_prod_from_positive(dims, j);
    if j < dims.len() {
        lemma_ravel_unravel_from(dims, k, j + 1);
        let p = prod_from(dims, j + 1);
        lemma_mod_breakdown(k, p, dims[j]);
        assert(p * dims[j] == dims[j] * p) by (nonlinear_arith);
        assert(p * ((k / p) % dims[j]) == ((k / p) % dims[j]) * p) by (nonlinear_arith);
    }
}

/// The index tuple of a position names that position.
pub proof fn lemma_ravel_unravel(dims: Seq<int>, k: int)
    requires
        forall|i: int| 0 <= i < dims.len() ==> #[trigger] dims[i] >= 0,
        0 <= k < shape_len(dims),
    ensures
        ravel(dims, unravel(dims, k)) == k,
{
    crate::shape::lemma_nonempty_shape(dims);
    lemma_ravel_unravel_from(dims, k, 0);
    lemma_small_mod(k as nat, shape_len(dims) as nat);
}

/// The contribution of the axes from `j` on to the position of a valid
/// index stays below the size of those axes.
pub proof fn lemma_ravel_from_bound(dims: Seq<int>, idx: Seq<int>, j: int)
    requires
        valid_index(dims, idx),
        0 <= j <= dims.len(),
    ensures
        0 <= sum_from(dot_terms(idx, dense_strides(dims)), j) < prod_from(dims, j),
    decreases dims.len() - j,
{
    if j < dims.len() {
        lemma_ravel_from_bound(dims, idx, j + 1);
        let p = prod_from(dims, j + 1);
        assert(0 <= idx[j] < dims[j]);
        assert(0 <= idx[j] * p && idx[j] * p + p <= dims[j] * p) by (nonlinear_arith)
            requires
                0 <= idx[j] < dims[j],
                p > 0,
        ;
    }
}

/// The position of a valid index splits at every axis `i` into the leading
/// indices, scaled by the size of the axes from `i` on, and the rest.
pub proof fn lemma_ravel_split(dims: Seq<int>, idx: Seq<int>, i: int)
    requires
        valid_index(dims, idx),
        0 <= i <= dims.len(),
    ensures
        ravel(dims, idx) == leading(dims, idx, i) * prod_from(dims, i) + sum_from(
            dot_terms(idx, dense_strides(dims)),
            i,
        ),
    decreases i,
{
    if i > 0 {
        lemma_ravel_split(dims, idx, i - 1);
        let h = leading(dims, idx, i - 1);
        let p = prod_from(dims, i);
        let d = dims[i - 1];
        let x = idx[i - 1];
        assert(h * (d * p) + x * p == (h * d + x) * p) by (nonlinear_arith);
    }
}

/// The position of a valid index lies below the length, and its index tuple
/// is that index.
pub proof fn lemma_unravel_ravel(dims: Seq<int>, idx: Seq<int>)
    requires
        valid_index(dims, idx),
    ensures
        0 <= ravel(dims, idx) < shape_len(dims),
        unravel(dims, ravel(dims, idx)) == idx,
{
    let k = ravel(dims, idx);
    lemma_ravel_from_bound(dims, idx, 0);
    assert(unravel(dims, k) =~= idx) by {
        assert forall|i: int| 0 <= i < dims.len() implies digit(dims, k, i) == idx[i] by {
            lemma_ravel_split(dims, idx, i + 1);
            lemma_ravel_from_bound(dims, idx, i + 1);
            let p = prod_from(dims, i + 1);
            let h = leading(dims, idx, i + 1);
            let rest = sum_from(dot_terms(idx, dense_strides(dims)), i + 1);
            lemma_fundamental_div_mod_converse(k, p, h, rest);
            assert(0 <= idx[i] < dims[i]);
            lemma_fundamental_div_mod_converse(h, dims[i], leading(dims, idx, i), idx[i]);
        }
    }
}

/// Row-major order runs through the sub-arrays along the first axis one
/// after the other: position `r` of sub-array `i` is position
/// `i * t + r` of the whole, where `t` is the length of a sub-array.
pub proof fn lemma_unravel_outer(dims: Seq<int>, i: int, r: int)
    requires
        forall|j: int| 0 <= j < dims.len() ==> #[trigger] dims[j] >= 0,
        dims.len() > 0,
        0 <= i < dims[0],
        0 <= r < shape_len(dims.remove(0)),
    ensures
        shape_len(dims) == dims[0] * shape_len(dims.remove(0)),
        0 <= i * shape_len(dims.remove(0)) + r < shape_len(dims),
        unravel(dims, i * shape_len(dims.remove(0)) + r) == unravel(dims.remove(0), r).insert(0, i),
{
    let rest = dims.remove(0);
    let t = shape_len(rest);
    assert forall|j: int| 0 <= j < rest.len() implies #[trigger] rest[j] >= 0 by {
        assert(rest[j] == dims[j + 1]);
    }
    lemma_prod_from_remove(dims, 0, 0);
    lemma_prod_from_remove(dims, 0, 1);
    assert(prod_from(dims, 1) == t);
    assert(t * dims[0] == dims[0] * t) by (nonlinear_arith);
    let inner = unravel(rest, r);
    lemma_unravel_valid(rest, r);
    lemma_ravel_unravel(rest, r);
    let full = inner.insert(0, i);
    assert forall|j: int| 0 <= j < dims.len() implies 0 <= #[trigger] full[j] < dims[j] by {
        if j > 0 {
            assert(full[j] == inner[j - 1]);
            assert(0 <= inner[j - 1] < rest[j - 1]);
        }
    }
    let terms = dot_terms(full, dense_strides(dims));
    lemma_dense_strides_first_axis(dims, 0);
    assert(terms.remove(0) =~= dot_terms(inner, dense_strides(rest))) by {
        assert forall|j: int| 0 <= j < rest.len() implies terms[j + 1] == dot_terms(
            inner,
            dense_strides(rest),
        )[j] by {
            assert(full[j + 1] == inner[j]);
            assert(dense_strides(dims).remove(0)[j] == dense_strides(dims)[j + 1]);
        }
    }
    lemma_sum_from_remove(terms, 0, 0);
    assert(ravel(dims, full) == i * t + r);
    lemma_unravel_ravel(dims, full);
}

/// The element at position `r` of the sub-array at `i` along the first
/// axis lies where the element at position `i * t + r` of the whole lies,
/// `t` being the length of a sub-array.
pub proof fn lemma_linear_outer(m: MappingView, i: int, r: int)
    requires
        m.wf(),
        m.rank() > 0,
        0 <= i < m.dims[0],
        0 <= r < m.axis_at(0, i).len(),
    ensures
        m.len() == m.dims[0] * m.axis_at(0, i).len(),
        0 <= i * m.axis_at(0, i).len() + r < m.len(),
        m.axis_at(0, i).linear(r) == m.linear(i * m.axis_at(0, i).len() + r),
{
    let sub = m.axis_at(0, i);
    lemma_unravel_outer(m.dims, i, r);
    assert forall|j: int| 0 <= j < sub.dims.len() implies #[trigger] sub.dims[j] >= 0 by {
        assert(sub.dims[j] == m.dims[j + 1]);
    }
    lemma_unravel_valid(sub.dims, r);
    lemma_axis_at_offset(m, 0, i, unravel(sub.dims, r));
}

/// Every element of a well-formed mapping, taken by its position in
/// row-major order, lies in the memory behind the mapping.
pub proof fn lemma_linear_in_bounds(m: MappingView, k: int)
    requires
        m.wf(),
        0 <= k < m.len(),
    ensures
        0 <= m.linear(k) < m.limit,
{
    lemma_unravel_valid(m.dims, k);
    crate::geometry::lemma_offset_in_bounds(m, unravel(m.dims, k));
}

} // verus!
