//! The diagonals of a two-dimensional mapping.
use vstd::prelude::*;
use crate::geometry::{
    dot, dot_terms, hi_terms, lemma_base_in_range, lemma_dot_bounds, lo_terms, MappingView,
};
use crate::layout::Layout;
use crate::shape::{lemma_nonempty_shape, lemma_shape_fits_bounds};
use crate::sums::{product, sum_from};

verus! {

/// The smaller of two integers.
pub open spec fn least(a: int, b: int) -> int {
    if a <= b {
        a
    } else {
        b
    }
}

/// The row in which diagonal `k` starts: below the main diagonal for a
/// negative `k`.
pub open spec fn diag_row(k: int) -> int {
    if k < 0 {
        -k
    } else {
        0
    }
}

/// The column in which diagonal `k` starts: above the main diagonal for a
/// positive `k`.
pub open spec fn diag_col(k: int) -> int {
    if k > 0 {
        k
    } else {
        0
    }
}

impl MappingView {
    /// Whether diagonal `k` exists: there are two axes, and the diagonal
    /// starts no further out than the number of rows or columns.
    pub open spec fn has_diag(self, k: int) -> bool {
        &&& self.rank() == 2
        &&& diag_row(k) <= self.dims[0]
        &&& diag_col(k) <= self.dims[1]
    }

    /// The number of elements on diagonal `k`.
    pub open spec fn diag_len(self, k: int) -> int {
        least(self.dims[0] - diag_row(k), self.dims[1] - diag_col(k))
    }

    /// The mapping of diagonal `k`: one axis, whose stride is the sum of the
    /// two strides. A diagonal of fewer than two elements has stride one, and
    /// one without elements keeps the base.
    pub open spec fn diag(self, k: int) -> MappingView {
        let n = self.diag_len(k);
        MappingView {
            dims: seq![n],
            strides: seq![if n > 1 { self.strides[0] + self.strides[1] } else { 1 }],
            layout: Layout::Strided,
            base: if n > 0 {
                self.base + diag_row(k) * self.strides[0] + diag_col(k) * self.strides[1]
            } else {
                self.base
            },
            limit: self.limit,
        }
    }
}

/// The offset of a pair of indices in a mapping of two axes.
pub proof fn lemma_dot_pair(idx: Seq<int>, strides: Seq<int>)
    requires
        idx.len() == 2,
        strides.len() == 2,
    ensures
        dot(idx, strides) == idx[0] * strides[0] + idx[1] * strides[1],
{
    let t = dot_terms(idx, strides);
    assert(sum_from(t, 2) == 0);
    assert(sum_from(t, 1) == t[1] + sum_from(t, 2));
    assert(sum_from(t, 0) == t[0] + sum_from(t, 1));
}

/// The offset of an index in a mapping of one axis.
pub proof fn lemma_dot_single(idx: Seq<int>, strides: Seq<int>)
    requires
        idx.len() == 1,
        strides.len() == 1,
    ensures
        dot(idx, strides) == idx[0] * strides[0],
{
    let t = dot_terms(idx, strides);
    assert(sum_from(t, 1) == 0);
    assert(sum_from(t, 0) == t[0] + sum_from(t, 1));
}

/// Element `i` of diagonal `k` is the element of the whole array in row
/// `diag_row(k) + i` and column `diag_col(k) + i`.
pub proof fn lemma_diag_offset(m: MappingView, k: int, i: int)
    requires
        m.strides.len() == m.dims.len(),
        m.has_diag(k),
        0 <= i < m.diag_len(k),
    ensures
        m.valid(seq![diag_row(k) + i, diag_col(k) + i]),
        m.diag(k).valid(seq![i]),
        m.diag(k).offset(seq![i]) == m.offset(seq![diag_row(k) + i, diag_col(k) + i]),
{
    let r = m.diag(k);
    let full = seq![diag_row(k) + i, diag_col(k) + i];
    lemma_dot_pair(full, m.strides);
    lemma_dot_single(seq![i], r.strides);
    let s0 = m.strides[0];
    let s1 = m.strides[1];
    assert((diag_row(k) + i) * s0 + (diag_col(k) + i) * s1 == diag_row(k) * s0 + diag_col(k) * s1
        + i * (s0 + s1)) by (nonlinear_arith);
    assert(r.strides[0] == (if m.diag_len(k) > 1 { s0 + s1 } else { 1 }));
    if m.diag_len(k) <= 1 {
        assert(i == 0);
        assert(i * (s0 + s1) == 0) by (nonlinear_arith)
            requires
                i == 0,
        ;
        assert(i * 1 == 0);
    }
}

/// A diagonal is a mapping into the same memory.
pub proof fn lemma_diag_wf(m: MappingView, k: int)
    requires
        m.wf(),
        m.has_diag(k),
    ensures
        m.diag(k).wf(),
        m.diag(k).len() == m.diag_len(k),
{
    let r = m.diag(k);
    let n = m.diag_len(k);
    lemma_base_in_range(m);
    lemma_shape_fits_bounds(m.dims, 0);
    lemma_shape_fits_bounds(m.dims, 1);
    assert(product(r.dims) == n) by {
        assert(crate::sums::prod_from(r.dims, 1) == 1);
        assert(crate::sums::prod_from(r.dims, 0) == r.dims[0] * crate::sums::prod_from(r.dims, 1));
    }
    let c = crate::shape::clipped(r.dims);
    assert(product(c) == c[0]) by {
        assert(crate::sums::prod_from(c, 1) == 1);
        assert(crate::sums::prod_from(c, 0) == c[0] * crate::sums::prod_from(c, 1));
    }
    let lo = lo_terms(r.dims, r.strides);
    let hi = hi_terms(r.dims, r.strides);
    assert(sum_from(lo, 1) == 0 && sum_from(lo, 0) == lo[0] + sum_from(lo, 1));
    assert(sum_from(hi, 1) == 0 && sum_from(hi, 0) == hi[0] + sum_from(hi, 1));
    if n > 0 {
        let first = seq![diag_row(k), diag_col(k)];
        let last = seq![diag_row(k) + n - 1, diag_col(k) + n - 1];
        lemma_diag_offset(m, k, 0);
        lemma_diag_offset(m, k, n - 1);
        assert(first =~= seq![diag_row(k) + 0, diag_col(k) + 0]);
        lemma_dot_bounds(m.dims, m.strides, first, 0);
        lemma_dot_bounds(m.dims, m.strides, last, 0);
        lemma_dot_single(seq![0], r.strides);
        lemma_dot_single(seq![n - 1], r.strides);
        lemma_nonempty_shape(m.dims);
        crate::geometry::lemma_valid_nonempty(m.dims, first);
        if n > 1 {
            let s = m.strides[0] + m.strides[1];
            assert(r.offset(seq![n - 1]) - r.offset(seq![0]) == (n - 1) * s) by (nonlinear_arith)
                requires
                    r.offset(seq![n - 1]) == r.base + (n - 1) * s,
                    r.offset(seq![0]) == r.base + 0 * s,
            ;
            assert(-(isize::MAX as int) <= s <= isize::MAX as int) by (nonlinear_arith)
                requires
                    -(isize::MAX as int) <= (n - 1) * s <= isize::MAX as int,
                    n > 1,
            ;
        }
    }
}

} // verus!
