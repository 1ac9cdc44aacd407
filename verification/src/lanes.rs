//! Lanes: the one-dimensional sub-arrays along one axis of a mapping.
use vstd::prelude::*;
use crate::diagonal::lemma_dot_single;
use crate::geometry::{
    hi_terms, lemma_base_in_range, lemma_dot_bounds, lemma_valid_nonempty, lo_terms, MappingView,
};
use crate::index::{lemma_unravel_valid, unravel};
use crate::layout::Layout;
use crate::shape::{lemma_remove_axis_fits, lemma_shape_fits_bounds, shape_len};
use crate::sums::{prod_from, product, sum_from};
use crate::transform::{lemma_axis_at_offset};

verus! {

impl MappingView {
    /// The number of lanes along `axis`: the number of index tuples of the
    /// other axes.
    pub open spec fn lane_count(self, axis: int) -> int {
        shape_len(self.dims.remove(axis))
    }

    /// The indices of the other axes at which lane `k` along `axis` lies:
    /// lanes are counted in row-major order of the other axes.
    pub open spec fn lane_index(self, axis: int, k: int) -> Seq<int> {
        unravel(self.dims.remove(axis), k)
    }

    /// The mapping of lane `k` along `axis`: one axis with the extent and
    /// stride of `axis`, starting at the element with index zero along it.
    /// Only a lane along the last axis keeps a dense layout. Along an empty
    /// axis the lanes keep the base.
    pub open spec fn lane(self, axis: int, k: int) -> MappingView {
        MappingView {
            dims: seq![self.dims[axis]],
            strides: seq![self.strides[axis]],
            layout: if axis == self.rank() - 1 {
                self.layout
            } else {
                Layout::Strided
            },
            base: if self.dims[axis] > 0 {
                self.axis_at(axis, 0).linear(k)
            } else {
                self.base
            },
            limit: self.limit,
        }
    }
}

/// Element `i` of lane `k` along `axis` is the element of the whole array
/// whose index along `axis` is `i` and whose other indices are those of the
/// lane.
pub proof fn lemma_lane_offset(m: MappingView, axis: int, k: int, i: int)
    requires
        m.wf(),
        0 <= axis < m.rank(),
        0 <= k < m.lane_count(axis),
        0 <= i < m.dims[axis],
    ensures
        m.valid(m.lane_index(axis, k).insert(axis, i)),
        m.lane(axis, k).valid(seq![i]),
        m.lane(axis, k).offset(seq![i]) == m.offset(m.lane_index(axis, k).insert(axis, i)),
{
    let rest = m.lane_index(axis, k);
    let sub0 = m.axis_at(axis, 0);
    let subi = m.axis_at(axis, i);
    lemma_remove_axis_fits(m.dims, axis);
    lemma_unravel_valid(m.dims.remove(axis), k);
    lemma_axis_at_offset(m, axis, 0, rest);
    lemma_axis_at_offset(m, axis, i, rest);
    lemma_dot_single(seq![i], m.lane(axis, k).strides);
    assert(0 * m.strides[axis] == 0);
}

/// A lane is a mapping into the same memory, of as many elements as the
/// axis is long.
pub proof fn lemma_lane_wf(m: MappingView, axis: int, k: int)
    requires
        m.wf(),
        0 <= axis < m.rank(),
        0 <= k < m.lane_count(axis),
    ensures
        m.lane(axis, k).wf(),
        m.lane(axis, k).len() == m.dims[axis],
{
    let r = m.lane(axis, k);
    let d = m.dims[axis];
    lemma_shape_fits_bounds(m.dims, axis);
    lemma_base_in_range(m);
    assert(product(r.dims) == d) by {
        assert(prod_from(r.dims, 1) == 1);
        assert(prod_from(r.dims, 0) == r.dims[0] * prod_from(r.dims, 1));
    }
    let c = crate::shape::clipped(r.dims);
    assert(product(c) == c[0]) by {
        assert(prod_from(c, 1) == 1);
        assert(prod_from(c, 0) == c[0] * prod_from(c, 1));
    }
    let lo = lo_terms(r.dims, r.strides);
    let hi = hi_terms(r.dims, r.strides);
    assert(sum_from(lo, 1) == 0 && sum_from(lo, 0) == lo[0] + sum_from(lo, 1));
    assert(sum_from(hi, 1) == 0 && sum_from(hi, 0) == hi[0] + sum_from(hi, 1));
    if d > 0 {
        let rest = m.lane_index(axis, k);
        lemma_lane_offset(m, axis, k, 0);
        lemma_lane_offset(m, axis, k, d - 1);
        lemma_dot_bounds(m.dims, m.strides, rest.insert(axis, 0), 0);
        lemma_dot_bounds(m.dims, m.strides, rest.insert(axis, d - 1), 0);
        lemma_valid_nonempty(m.dims, rest.insert(axis, 0));
        lemma_dot_single(seq![0], r.strides);
        lemma_dot_single(seq![d - 1], r.strides);
        assert(0 * m.strides[axis] == 0);
    }
    if axis == m.rank() - 1 && m.layout == Layout::Dense {
        assert(m.strides[axis] == prod_from(m.dims, axis + 1));
        assert(r.strides =~= crate::shape::dense_strides(r.dims));
    }
}

/// A lane of an exclusive mapping is exclusive.
pub proof fn lemma_lane_exclusive(m: MappingView, axis: int, k: int)
    requires
        m.wf(),
        m.exclusive(),
        0 <= axis < m.rank(),
        0 <= k < m.lane_count(axis),
    ensures
        m.lane(axis, k).exclusive(),
{
    let r = m.lane(axis, k);
    assert forall|a: Seq<int>, b: Seq<int>|
        #![trigger r.valid(a), r.valid(b)]
        r.valid(a) && r.valid(b) && r.offset(a) == r.offset(b) implies a == b by {
        assert(0 <= a[0] < r.dims[0] && 0 <= b[0] < r.dims[0]);
        lemma_lane_offset(m, axis, k, a[0]);
        lemma_lane_offset(m, axis, k, b[0]);
        assert(a =~= seq![a[0]]);
        assert(b =~= seq![b[0]]);
        let fa = m.lane_index(axis, k).insert(axis, a[0]);
        let fb = m.lane_index(axis, k).insert(axis, b[0]);
        assert(m.valid(fa) && m.valid(fb));
        assert(fa == fb);
        assert(fa[axis] == a[0] && fb[axis] == b[0]);
    }
}

} // verus!
