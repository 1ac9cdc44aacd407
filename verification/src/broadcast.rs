//! Broadcasting: reading a mapping under a larger shape by repeating the
//! axes of extent one.
use vstd::prelude::*;
use crate::geometry::{dot_terms, hi_terms, lo_terms, MappingView};
use crate::layout::Layout;
use crate::reshape::lemma_sum_scaled;
use crate::shape::{lemma_nonempty_shape, shape_fits};
use crate::sums::lemma_sum_from_agree;

verus! {

/// Whether a shape `from` can be repeated to fill the shape `to`: a shape
/// without axes fills any shape, and otherwise the ranks agree and every
/// axis has the extent asked for or extent one.
pub open spec fn broadcasts_to(from: Seq<int>, to: Seq<int>) -> bool {
    from.len() == 0 || (from.len() == to.len() && forall|i: int|
        0 <= i < from.len() ==> #[trigger] from[i] == to[i] || from[i] == 1)
}

/// Whether two shapes can be traversed together: one has no axes, or the
/// ranks agree and on every axis the extents are equal or one of them is one.
pub open spec fn compatible(a: Seq<int>, b: Seq<int>) -> bool {
    a.len() == 0 || b.len() == 0 || (a.len() == b.len() && forall|i: int|
        0 <= i < a.len() ==> #[trigger] a[i] == b[i] || a[i] == 1 || b[i] == 1)
}

/// The shape in which two compatible shapes are traversed together: on each
/// axis the extent that is not one.
pub open spec fn common_shape(a: Seq<int>, b: Seq<int>) -> Seq<int> {
    if a.len() == 0 {
        b
    } else if b.len() == 0 {
        a
    } else {
        Seq::new(a.len(), |i: int| if a[i] == 1 { b[i] } else { a[i] })
    }
}

/// The index in a shape `from` that stands behind the index `idx` of the
/// shape `to` it was repeated to: zero along every repeated axis.
pub open spec fn source_index(from: Seq<int>, to: Seq<int>, idx: Seq<int>) -> Seq<int> {
    Seq::new(from.len(), |i: int| if from[i] == to[i] { idx[i] } else { 0 })
}

impl MappingView {
    /// The mapping that repeats this one to fill the shape `dims`: a repeated
    /// axis has stride zero. Only an unchanged shape keeps a dense layout.
    pub open spec fn broadcast(self, dims: Seq<int>) -> MappingView {
        MappingView {
            dims,
            strides: Seq::new(
                dims.len(),
                |i: int|
                    if self.rank() != 0 && self.dims[i] == dims[i] {
                        self.strides[i]
                    } else {
                        0
                    },
            ),
            layout: if dims == self.dims {
                self.layout
            } else {
                Layout::Strided
            },
            ..self
        }
    }
}

/// Both of two compatible shapes can be repeated to fill their common shape.
pub proof fn lemma_common_shape(a: Seq<int>, b: Seq<int>)
    requires
        compatible(a, b),
    ensures
        broadcasts_to(a, common_shape(a, b)),
        broadcasts_to(b, common_shape(a, b)),
{
    let c = common_shape(a, b);
    if a.len() != 0 && b.len() != 0 {
        assert forall|i: int| 0 <= i < a.len() implies #[trigger] a[i] == c[i] || a[i] == 1 by {}
        assert forall|i: int| 0 <= i < b.len() implies #[trigger] b[i] == c[i] || b[i] == 1 by {
            assert(a[i] == b[i] || a[i] == 1 || b[i] == 1);
        }
    }
}

/// Broadcasting gives a mapping into the same memory.
pub proof fn lemma_broadcast_wf(m: MappingView, dims: Seq<int>)
    requires
        m.wf(),
        shape_fits(dims),
        broadcasts_to(m.dims, dims),
    ensures
        m.broadcast(dims).wf(),
{
    let r = m.broadcast(dims);
    let lo = lo_terms(r.dims, r.strides);
    let hi = hi_terms(r.dims, r.strides);
    lemma_nonempty_shape(dims);
    lemma_nonempty_shape(m.dims);
    if m.rank() == 0 {
        lemma_sum_scaled(lo, lo, 0, 0);
        lemma_sum_scaled(hi, hi, 0, 0);
        assert(crate::sums::sum_from(lo_terms(m.dims, m.strides), 0) == 0);
        assert(crate::sums::sum_from(hi_terms(m.dims, m.strides), 0) == 0);
        assert(m.len() == 1);
    } else {
        assert forall|i: int| 0 <= i < dims.len() implies lo[i] == lo_terms(m.dims, m.strides)[i]
            && hi[i] == hi_terms(m.dims, m.strides)[i] by {
            assert(m.dims[i] == dims[i] || m.dims[i] == 1);
        }
        lemma_sum_from_agree(lo, lo_terms(m.dims, m.strides), 0);
        lemma_sum_from_agree(hi, hi_terms(m.dims, m.strides), 0);
        if r.len() > 0 {
            assert forall|i: int| 0 <= i < m.dims.len() implies #[trigger] m.dims[i] > 0 by {
                assert(m.dims[i] == dims[i] || m.dims[i] == 1);
            }
        }
    }
    if dims == m.dims {
        assert(r.strides =~= m.strides);
    }
}

/// The element at `idx` of a broadcast mapping is the element of the
/// mapping that is repeated at the same indices, with zero along every
/// repeated axis.
pub proof fn lemma_broadcast_offset(m: MappingView, dims: Seq<int>, idx: Seq<int>)
    requires
        m.strides.len() == m.dims.len(),
        broadcasts_to(m.dims, dims),
        m.broadcast(dims).valid(idx),
    ensures
        m.valid(source_index(m.dims, dims, idx)),
        m.broadcast(dims).offset(idx) == m.offset(source_index(m.dims, dims, idx)),
{
    let r = m.broadcast(dims);
    let src = source_index(m.dims, dims, idx);
    let t = dot_terms(idx, r.strides);
    if m.rank() == 0 {
        assert forall|i: int| 0 <= i < t.len() implies t[i] == 0 * t[i] by {
            assert(idx[i] * 0 == 0);
        }
        lemma_sum_scaled(t, t, 0, 0);
        assert(crate::sums::sum_from(dot_terms(src, m.strides), 0) == 0);
    } else {
        assert forall|i: int| 0 <= i < m.dims.len() implies 0 <= #[trigger] src[i] < m.dims[i] by {
            assert(m.dims[i] == dims[i] || m.dims[i] == 1);
            assert(0 <= idx[i] < dims[i]);
        }
        assert forall|i: int| 0 <= i < dims.len() implies t[i] == dot_terms(src, m.strides)[i] by {
            assert(m.dims[i] == dims[i] || m.dims[i] == 1);
        }
        lemma_sum_from_agree(t, dot_terms(src, m.strides), 0);
    }
}

} // verus!
