//! Reading the elements of a mapping under another shape.
use vstd::prelude::*;
use crate::geometry::{extent, hi_terms, lo_terms, MappingView};
use crate::layout::Layout;
use crate::index::{lemma_ravel_unravel, lemma_unravel_valid, unravel};
use crate::shape::{
    dense_stride, dense_strides, lemma_nonempty_shape, lemma_shape_fits_bounds, shape_fits,
    shape_len,
};
use crate::sums::{lemma_prod_from_positive, prod_from, sum_from};

verus! {

/// The contiguous strides of `dims`, each multiplied by `step`.
pub open spec fn scaled_strides(dims: Seq<int>, step: int) -> Seq<int> {
    Seq::new(dims.len(), |i: int| step * dense_stride(dims, i))
}

/// Every stride in `strides` can be held in an `isize`.
pub open spec fn representable(strides: Seq<int>) -> bool {
    forall|i: int| 0 <= i < strides.len() ==> isize::MIN <= #[trigger] strides[i] <= isize::MAX
}

impl MappingView {
    /// The distance in memory between consecutive elements of a uniformly
    /// strided mapping: the stride of the last axis, or one without axes.
    pub open spec fn step(self) -> int {
        if self.rank() == 0 {
            1
        } else {
            self.strides[self.rank() - 1]
        }
    }

    /// Whether the strides admit the shape `dims`. The length must stay.
    /// An unchanged shape is always admitted. Where the elements lie a
    /// constant step apart, every shape is whose strides can be represented.
    /// Otherwise the shape must be reached by cutting axes and by merging
    /// neighbours that lie in memory like one axis: see
    /// [`MappingView::regroup`].
    pub open spec fn can_reshape(self, dims: Seq<int>) -> bool {
        &&& shape_fits(dims)
        &&& shape_len(dims) == self.len()
        &&& dims == self.dims || (if self.is_uniform() {
            representable(scaled_strides(dims, self.step()))
        } else {
            self.len() > 0 && self.regroup(dims) is Some
        })
    }

    /// The mapping of the same elements, in the same order, under the shape
    /// `dims`. A mapping without elements is placed at the start of the
    /// memory.
    pub open spec fn reshape(self, dims: Seq<int>) -> MappingView {
        if dims == self.dims {
            self
        } else if self.len() == 0 {
            MappingView { dims, strides: dense_strides(dims), base: 0, ..self }
        } else if self.is_uniform() {
            MappingView { dims, strides: scaled_strides(dims, self.step()), ..self }
        } else {
            MappingView { layout: self.layout, ..self.regroup(dims)->0 }
        }
    }
}

/// In a uniformly strided mapping every stride is the step times the
/// contiguous stride.
pub proof fn lemma_uniform_strides(m: MappingView, i: int)
    requires
        m.strides.len() == m.dims.len(),
        m.is_uniform(),
        0 <= i < m.rank(),
    ensures
        m.strides[i] == m.step() * dense_stride(m.dims, i),
    decreases m.rank() - i,
{
    if i < m.rank() - 1 {
        lemma_uniform_strides(m, i + 1);
        let c = m.step();
        let p = prod_from(m.dims, i + 2);
        assert(m.strides[i] == m.strides[i + 1] * m.dims[i + 1]);
        assert((c * p) * m.dims[i + 1] == c * (m.dims[i + 1] * p)) by (nonlinear_arith);
    } else {
        assert(m.step() * 1 == m.step());
    }
}

/// A contiguous mapping is uniformly strided, with step one.
pub proof fn lemma_contiguous_uniform(m: MappingView)
    requires
        m.is_contiguous(),
    ensures
        m.is_uniform(),
        m.rank() > 0 ==> m.step() == 1,
        m.step() == 1,
        scaled_strides(m.dims, 1) == dense_strides(m.dims),
{
    assert forall|i: int| 0 <= i < m.rank() - 1 implies #[trigger] m.strides[i] == m.strides[i
        + 1] * m.dims[i + 1] by {
        assert(m.strides[i] == dense_stride(m.dims, i));
        assert(m.strides[i + 1] == dense_stride(m.dims, i + 1));
        let p = prod_from(m.dims, i + 2);
        assert(m.dims[i + 1] * p == p * m.dims[i + 1]) by (nonlinear_arith);
    }
    if m.rank() > 0 {
        assert(m.strides[m.rank() - 1] == dense_stride(m.dims, m.rank() - 1));
    }
    assert(scaled_strides(m.dims, 1) =~= dense_strides(m.dims));
}

/// With no empty axis and strides of a constant step, the reach of the axes
/// from `j` on is the step times one less than their size, downwards for a
/// negative step and upwards for a positive one.
pub proof fn lemma_uniform_reach(dims: Seq<int>, step: int, j: int)
    requires
        forall|i: int| 0 <= i < dims.len() ==> #[trigger] dims[i] > 0,
        0 <= j <= dims.len(),
    ensures
        sum_from(lo_terms(dims, scaled_strides(dims, step)), j) == (if step < 0 {
            step * (prod_from(dims, j) - 1)
        } else {
            0
        }),
        sum_from(hi_terms(dims, scaled_strides(dims, step)), j) == (if step > 0 {
            step * (prod_from(dims, j) - 1)
        } else {
            0
        }),
    decreases dims.len() - j,
{
    if j < dims.len() {
        lemma_uniform_reach(dims, step, j + 1);
        lemma_prod_from_positive(dims, j + 1);
        let p = prod_from(dims, j + 1);
        let d = dims[j];
        let s = scaled_strides(dims, step)[j];
        assert(s == step * p);
        assert(extent(d) == d - 1);
        assert(step < 0 ==> s < 0) by (nonlinear_arith)
            requires
                s == step * p,
                p > 0,
        ;
        assert(step > 0 ==> s > 0) by (nonlinear_arith)
            requires
                s == step * p,
                p > 0,
        ;
        assert(step == 0 ==> s == 0) by (nonlinear_arith)
            requires
                s == step * p,
        ;
        assert((d - 1) * (step * p) + step * (p - 1) == step * (d * p - 1)) by (nonlinear_arith);
    } else {
        assert(step * (1 - 1) == 0);
    }
}

/// Reshaping gives a mapping into the same memory, with as many elements.
pub proof fn lemma_reshape_wf(m: MappingView, dims: Seq<int>)
    requires
        m.wf(),
        m.can_reshape(dims),
    ensures
        m.reshape(dims).wf(),
        m.reshape(dims).len() == m.len(),
        m.reshape(dims).dims == dims,
        m.reshape(dims).limit == m.limit,
{
    let r = m.reshape(dims);
    if dims == m.dims {
    } else if m.len() > 0 && !m.is_uniform() {
        crate::regroup::lemma_regroup(m, dims);
        if m.layout == Layout::Dense {
            lemma_contiguous_uniform(m);
        }
        let g = m.regroup(dims)->0;
        assert(crate::geometry::lowest(r.dims, r.strides) == crate::geometry::lowest(
            g.dims,
            g.strides,
        ));
    } else if m.len() == 0 {
        crate::geometry::lemma_dense_reach(dims, 0);
        lemma_shape_fits_bounds(dims, 0);
        assert forall|i: int| 0 <= i < dims.len() implies isize::MIN <= #[trigger] r.strides[i]
            <= isize::MAX by {
            lemma_shape_fits_bounds(dims, i + 1);
        }
    } else {
        let c = m.step();
        lemma_nonempty_shape(dims);
        lemma_nonempty_shape(m.dims);
        assert(m.strides =~= scaled_strides(m.dims, c)) by {
            assert forall|i: int| 0 <= i < m.rank() implies m.strides[i] == scaled_strides(
                m.dims,
                c,
            )[i] by {
                lemma_uniform_strides(m, i);
            }
        }
        lemma_uniform_reach(m.dims, c, 0);
        lemma_uniform_reach(dims, c, 0);
        if m.layout == Layout::Dense {
            lemma_contiguous_uniform(m);
            assert(scaled_strides(dims, 1) =~= dense_strides(dims));
        }
    }
}

/// In a uniformly strided mapping with elements, the element at position
/// `k` in row-major order lies `k` steps from the base.
pub proof fn lemma_uniform_linear(m: MappingView, k: int)
    requires
        m.wf(),
        m.is_uniform(),
        0 <= k < m.len(),
    ensures
        m.linear(k) == m.base + m.step() * k,
{
    let c = m.step();
    let idx = unravel(m.dims, k);
    lemma_ravel_unravel(m.dims, k);
    lemma_unravel_valid(m.dims, k);
    let dense = crate::geometry::dot_terms(idx, dense_strides(m.dims));
    let own = crate::geometry::dot_terms(idx, m.strides);
    assert forall|i: int| 0 <= i < m.rank() implies own[i] == c * dense[i] by {
        lemma_uniform_strides(m, i);
        assert(idx[i] * (c * dense_stride(m.dims, i)) == c * (idx[i] * dense_stride(m.dims, i)))
            by (nonlinear_arith);
    }
    lemma_sum_scaled(dense, own, c, 0);
}

/// Multiplying every term by `c` multiplies the sum by `c`.
pub proof fn lemma_sum_scaled(t: Seq<int>, scaled: Seq<int>, c: int, j: int)
    requires
        t.len() == scaled.len(),
        0 <= j,
        forall|i: int| j <= i < t.len() ==> scaled[i] == c * t[i],
    ensures
        sum_from(scaled, j) == c * sum_from(t, j),
    decreases t.len() - j,
{
    if j < t.len() {
        lemma_sum_scaled(t, scaled, c, j + 1);
        assert(c * t[j] + c * sum_from(t, j + 1) == c * (t[j] + sum_from(t, j + 1)))
            by (nonlinear_arith);
    } else {
        assert(c * 0 == 0);
    }
}

/// Reshaping keeps every element at its position in row-major order.
pub proof fn lemma_reshape_linear(m: MappingView, dims: Seq<int>, k: int)
    requires
        m.wf(),
        m.can_reshape(dims),
        0 <= k < m.len(),
    ensures
        m.reshape(dims).linear(k) == m.linear(k),
{
    let r = m.reshape(dims);
    if dims != m.dims && !m.is_uniform() {
        crate::regroup::lemma_regroup(m, dims);
        let g = m.regroup(dims)->0;
        assert(g.linear(k) == m.linear(k));
        assert(r.linear(k) == g.linear(k));
    } else if dims != m.dims {
        lemma_reshape_wf(m, dims);
        lemma_uniform_linear(m, k);
        assert(r.is_uniform()) by {
            assert forall|i: int| 0 <= i < r.rank() - 1 implies #[trigger] r.strides[i]
                == r.strides[i + 1] * r.dims[i + 1] by {
                let c = m.step();
                let p = prod_from(dims, i + 2);
                assert(c * (dims[i + 1] * p) == (c * p) * dims[i + 1]) by (nonlinear_arith);
            }
        }
        if r.rank() > 0 {
            assert(r.step() == m.step() * prod_from(dims, r.rank()));
            assert(m.step() * 1 == m.step());
        } else {
            lemma_nonempty_shape(m.dims);
            assert(dims.len() == 0);
            assert(shape_len(dims) == 1);
            assert(k == 0);
            assert(m.step() * 0 == 0);
        }
        lemma_uniform_linear(r, k);
    }
}

/// The first axis from `j` on whose extent is left to be inferred, written
/// as `usize::MAX`; the rank if there is none.
pub open spec fn first_inferred(dims: Seq<int>, j: int) -> int
    decreases dims.len() - j,
{
    if j < 0 || j >= dims.len() {
        dims.len() as int
    } else if dims[j] == usize::MAX {
        j
    } else {
        first_inferred(dims, j + 1)
    }
}

/// The shape that `dims` asks for in an array of `len` elements. At most
/// one extent may be left to be inferred; it is `len` divided by the product
/// of the others, which must be positive, fit in `usize` and divide `len`.
pub open spec fn infer_dims(dims: Seq<int>, len: int) -> Option<Seq<int>> {
    let a = first_inferred(dims, 0);
    if a >= dims.len() {
        Some(dims)
    } else {
        let rest = crate::sums::product(dims.remove(a));
        if first_inferred(dims, a + 1) < dims.len() || rest <= 0 || rest > usize::MAX || len
            % rest != 0 {
            None
        } else {
            Some(dims.update(a, len / rest))
        }
    }
}

/// What `first_inferred` finds: no extent between `j` and the result is left
/// to be inferred, and the one at the result is.
pub proof fn lemma_first_inferred(dims: Seq<int>, j: int)
    requires
        0 <= j <= dims.len(),
    ensures
        j <= first_inferred(dims, j) <= dims.len(),
        forall|i: int| j <= i < first_inferred(dims, j) ==> dims[i] != usize::MAX,
        first_inferred(dims, j) < dims.len() ==> dims[first_inferred(dims, j)] == usize::MAX,
    decreases dims.len() - j,
{
    if j < dims.len() && dims[j] != usize::MAX {
        lemma_first_inferred(dims, j + 1);
    }
}

} // verus!
