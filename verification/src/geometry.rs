//! The mathematical model of a mapping: extents, strides, a base position
//! and the length of the memory behind it, with the offsets they give.
use vstd::prelude::*;
use crate::layout::Layout;
use crate::shape::{clipped, dense_strides, lemma_shape_fits_bounds, shape_fits, shape_len};
use crate::sums::{
    lemma_sum_from_le, prod_from, sum, sum_from,
};

verus! {

/// The largest index along an axis of extent `d`; zero for an empty axis.
pub open spec fn extent(d: int) -> int {
    if d <= 0 {
        0
    } else {
        d - 1
    }
}

/// `idx` names an element of an array of shape `dims`.
pub open spec fn valid_index(dims: Seq<int>, idx: Seq<int>) -> bool {
    &&& idx.len() == dims.len()
    &&& forall|i: int| 0 <= i < dims.len() ==> 0 <= #[trigger] idx[i] < dims[i]
}

/// The contribution of each axis to the offset of `idx`.
pub open spec fn dot_terms(idx: Seq<int>, strides: Seq<int>) -> Seq<int> {
    Seq::new(strides.len(), |i: int| idx[i] * strides[i])
}

/// The offset of `idx` from the base: the sum of index times stride.
pub open spec fn dot(idx: Seq<int>, strides: Seq<int>) -> int {
    sum(dot_terms(idx, strides))
}

/// The most that each axis can move an offset downwards.
pub open spec fn lo_terms(dims: Seq<int>, strides: Seq<int>) -> Seq<int> {
    Seq::new(
        dims.len(),
        |i: int|
            if strides[i] < 0 {
                extent(dims[i]) * strides[i]
            } else {
                0
            },
    )
}

/// The most that each axis can move an offset upwards.
pub open spec fn hi_terms(dims: Seq<int>, strides: Seq<int>) -> Seq<int> {
    Seq::new(
        dims.len(),
        |i: int|
            if strides[i] > 0 {
                extent(dims[i]) * strides[i]
            } else {
                0
            },
    )
}

/// The lowest offset from the base that any index can reach.
pub open spec fn lowest(dims: Seq<int>, strides: Seq<int>) -> int {
    sum(lo_terms(dims, strides))
}

/// The highest offset from the base that any index can reach.
pub open spec fn highest(dims: Seq<int>, strides: Seq<int>) -> int {
    sum(hi_terms(dims, strides))
}

/// The model of a mapping.
pub struct MappingView {
    /// The extent of each axis, outermost first.
    pub dims: Seq<int>,
    /// The distance in memory between neighbours along each axis.
    pub strides: Seq<int>,
    /// The class of regularity that the mapping is known to have.
    pub layout: Layout,
    /// The position in memory of the element whose indices are all zero.
    pub base: int,
    /// The number of elements of the memory behind the mapping.
    pub limit: int,
}

impl MappingView {
    /// The number of axes.
    pub open spec fn rank(self) -> int {
        self.dims.len() as int
    }

    /// The number of elements.
    pub open spec fn len(self) -> int {
        shape_len(self.dims)
    }

    /// `idx` names an element.
    pub open spec fn valid(self, idx: Seq<int>) -> bool {
        valid_index(self.dims, idx)
    }

    /// The position in memory of the element that `idx` names.
    pub open spec fn offset(self, idx: Seq<int>) -> int {
        self.base + dot(idx, self.strides)
    }

    /// The last position that an element may take: the end of the memory for
    /// a mapping with elements, the end of `isize` for one without.
    pub open spec fn bound(self) -> int {
        if self.len() > 0 {
            self.limit - 1
        } else {
            isize::MAX as int
        }
    }

    /// The invariant of a mapping: the shape is representable, there is one
    /// stride per axis, a dense mapping has the contiguous strides, the memory
    /// has at most `isize::MAX` elements, and the offsets that the mapping can
    /// reach lie in it.
    pub open spec fn wf(self) -> bool {
        &&& shape_fits(self.dims)
        &&& self.strides.len() == self.dims.len()
        &&& forall|i: int|
            0 <= i < self.strides.len() ==> isize::MIN <= #[trigger] self.strides[i] <= isize::MAX
        &&& self.layout == Layout::Dense ==> self.strides == dense_strides(self.dims)
        &&& 0 <= self.limit <= isize::MAX
        &&& 0 <= self.base + lowest(self.dims, self.strides)
        &&& self.base + highest(self.dims, self.strides) <= self.bound()
    }

    /// Whether the strides are those of contiguous row-major memory.
    pub open spec fn is_contiguous(self) -> bool {
        self.strides == dense_strides(self.dims)
    }

    /// Whether consecutive elements in row-major order lie a constant step
    /// apart: each stride is the next one times the next extent.
    pub open spec fn is_uniform(self) -> bool {
        forall|i: int|
            0 <= i < self.rank() - 1 ==> #[trigger] self.strides[i] == self.strides[i + 1]
                * self.dims[i + 1]
    }
}

/// No axis moves an offset below zero by its lowest term or above zero by
/// its highest, and the term of any index along it lies between the two.
pub proof fn lemma_term_bounds(d: int, s: int, i: int)
    requires
        0 <= i <= extent(d),
    ensures
        (if s < 0 { extent(d) * s } else { 0 }) <= i * s <= (if s > 0 { extent(d) * s } else { 0 }),
{
    let e = extent(d);
    assert(s < 0 ==> e * s <= i * s <= 0) by (nonlinear_arith)
        requires
            0 <= i <= e,
    ;
    assert(s >= 0 ==> 0 <= i * s <= e * s) by (nonlinear_arith)
        requires
            0 <= i <= e,
    ;
}

/// Suffix sums of the lowest terms fall, and those of the highest terms
/// rise, as more axes are taken in.
pub proof fn lemma_reach_monotonic(dims: Seq<int>, strides: Seq<int>, j: int)
    requires
        dims.len() == strides.len(),
        0 <= j,
    ensures
        lowest(dims, strides) <= sum_from(lo_terms(dims, strides), j) <= 0,
        0 <= sum_from(hi_terms(dims, strides), j) <= highest(dims, strides),
    decreases j,
{
    let lo = lo_terms(dims, strides);
    let hi = hi_terms(dims, strides);
    lemma_signed_suffix(dims, strides, j);
    if j > 0 {
        lemma_reach_monotonic(dims, strides, j - 1);
        if j - 1 < dims.len() {
            lemma_term_bounds(dims[j - 1], strides[j - 1], 0);
        }
    }
}

/// Every suffix sum of the lowest terms is at most zero, and every one of
/// the highest terms at least zero.
pub proof fn lemma_signed_suffix(dims: Seq<int>, strides: Seq<int>, j: int)
    requires
        dims.len() == strides.len(),
        0 <= j,
    ensures
        sum_from(lo_terms(dims, strides), j) <= 0,
        0 <= sum_from(hi_terms(dims, strides), j),
    decreases dims.len() - j,
{
    if j < dims.len() {
        lemma_signed_suffix(dims, strides, j + 1);
        lemma_term_bounds(dims[j], strides[j], 0);
    }
}

/// The offset of a valid index, and of each of its suffixes, lies between
/// the lowest and the highest reach.
pub proof fn lemma_dot_bounds(dims: Seq<int>, strides: Seq<int>, idx: Seq<int>, j: int)
    requires
        dims.len() == strides.len(),
        valid_index(dims, idx),
        0 <= j,
    ensures
        lowest(dims, strides) <= sum_from(dot_terms(idx, strides), j) <= highest(dims, strides),
{
    let lo = lo_terms(dims, strides);
    let hi = hi_terms(dims, strides);
    let t = dot_terms(idx, strides);
    assert forall|i: int| j <= i < dims.len() implies lo[i] <= t[i] && t[i] <= hi[i] by {
        lemma_term_bounds(dims[i], strides[i], idx[i]);
    }
    lemma_sum_from_le(lo, t, j);
    lemma_sum_from_le(t, hi, j);
    lemma_reach_monotonic(dims, strides, j);
}

/// Every element of a well-formed mapping lies in the memory behind it.
pub proof fn lemma_offset_in_bounds(m: MappingView, idx: Seq<int>)
    requires
        m.wf(),
        m.valid(idx),
    ensures
        0 <= m.offset(idx) < m.limit,
        m.len() > 0,
{
    lemma_dot_bounds(m.dims, m.strides, idx, 0);
    lemma_valid_nonempty(m.dims, idx);
}

/// A shape that has an index tuple has no empty axis.
pub proof fn lemma_valid_nonempty(dims: Seq<int>, idx: Seq<int>)
    requires
        valid_index(dims, idx),
    ensures
        shape_len(dims) > 0,
        forall|i: int| 0 <= i < dims.len() ==> #[trigger] dims[i] > 0,
{
    assert forall|i: int| 0 <= i < dims.len() implies #[trigger] dims[i] > 0 by {
        assert(0 <= idx[i] < dims[i]);
    }
    crate::shape::lemma_nonempty_shape(dims);
}

/// In contiguous memory nothing lies below the base, and the highest reach
/// stays below the size of the shape with empty axes counted as one.
pub proof fn lemma_dense_reach(dims: Seq<int>, j: int)
    requires
        shape_fits(dims),
        0 <= j,
    ensures
        sum_from(lo_terms(dims, dense_strides(dims)), j) == 0,
        sum_from(hi_terms(dims, dense_strides(dims)), j) <= prod_from(clipped(dims), j) - 1,
    decreases dims.len() - j,
{
    let s = dense_strides(dims);
    let c = clipped(dims);
    if j < dims.len() {
        lemma_dense_reach(dims, j + 1);
        lemma_shape_fits_bounds(dims, j + 1);
        let e = extent(dims[j]);
        let p = prod_from(dims, j + 1);
        let pc = prod_from(c, j + 1);
        assert(s[j] == p);
        assert(e + 1 == c[j]);
        assert(e * p + pc - 1 <= c[j] * pc - 1) by (nonlinear_arith)
            requires
                e + 1 == c[j],
                0 <= p <= pc,
                e >= 0,
        ;
    }
}

/// The base of a well-formed mapping is a position that `isize` can hold, and
/// what the mapping can reach below it is not positive, what it can reach above
/// it not negative.
pub proof fn lemma_base_in_range(m: MappingView)
    requires
        m.wf(),
    ensures
        0 <= m.base <= isize::MAX,
        lowest(m.dims, m.strides) <= 0 <= highest(m.dims, m.strides),
        0 <= m.base + lowest(m.dims, m.strides),
        m.base + highest(m.dims, m.strides) <= isize::MAX,
{
    lemma_signed_suffix(m.dims, m.strides, 0);
}

} // verus!
