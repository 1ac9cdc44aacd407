//! What holds of every array, whatever its shape and strides.
use vstd::prelude::*;
use crate::broadcast::{
    common_shape, compatible, lemma_broadcast_offset, lemma_common_shape, source_index,
};
use crate::geometry::MappingView;
use crate::index::{lemma_unravel_ravel, lemma_unravel_valid, ravel, unravel};
use crate::layout::Layout;
use crate::model::ArrayModel;
use crate::reshape::{
    lemma_contiguous_uniform, lemma_reshape_linear, lemma_reshape_wf, scaled_strides,
};
use crate::shape::{
    lemma_nonempty_shape, lemma_shape_fits_bounds, shape_fits, shape_len,
};
use crate::sums::{is_permutation, prod_from, product};
use crate::transform::{
    identity_order, is_inverse_order, lemma_permuted_inverse, lemma_split_offset,
    lemma_standard_orders, reversed_order,
};

verus! {

/// The element that an index tuple names is the element at the position
/// of that tuple in row-major order: access by index and access by position
/// agree.
pub proof fn law_index_and_position_agree<T>(a: ArrayModel<T>, idx: Seq<int>)
    requires
        a.map.valid(idx),
    ensures
        0 <= ravel(a.map.dims, idx) < a.len(),
        a.at(idx) == a.item(ravel(a.map.dims, idx)),
        a.at(idx) == a.elems()[ravel(a.map.dims, idx)],
{
    lemma_unravel_ravel(a.map.dims, idx);
}

/// A dense mapping admits every shape of its length.
pub proof fn law_dense_admits_every_shape(m: MappingView, dims: Seq<int>)
    requires
        m.wf(),
        m.layout == Layout::Dense,
        shape_fits(dims),
        shape_len(dims) == m.len(),
    ensures
        m.can_reshape(dims),
{
    lemma_contiguous_uniform(m);
    assert forall|i: int| 0 <= i < dims.len() implies isize::MIN <= #[trigger] scaled_strides(
        dims,
        m.step(),
    )[i] <= isize::MAX by {
        lemma_shape_fits_bounds(dims, i + 1);
    }
}

/// Reshaping keeps the elements and their order.
pub proof fn law_reshape_keeps_elements<T>(a: ArrayModel<T>, dims: Seq<int>)
    requires
        a.wf(),
        a.map.can_reshape(dims),
    ensures
        a.with_map(a.map.reshape(dims)).wf(),
        a.with_map(a.map.reshape(dims)).dims() == dims,
        a.with_map(a.map.reshape(dims)).elems() == a.elems(),
{
    let b = a.with_map(a.map.reshape(dims));
    lemma_reshape_wf(a.map, dims);
    lemma_nonempty_shape(a.map.dims);
    assert(b.len() == a.len());
    assert(b.elems().len() == a.elems().len());
    assert(b.elems() =~= a.elems()) by {
        assert forall|k: int| 0 <= k < a.len() implies b.item(k) == a.item(k) by {
            lemma_reshape_linear(a.map, dims, k);
        }
    }
}

/// Flattening a dense array is always possible; it keeps the elements in
/// their order along one axis whose extent is the product of all extents.
pub proof fn law_flatten_dense<T>(a: ArrayModel<T>)
    requires
        a.wf(),
        a.map.layout == Layout::Dense,
    ensures
        a.map.can_reshape(seq![a.len()]),
        a.with_map(a.map.reshape(seq![a.len()])).dims() == seq![product(a.map.dims)],
        a.with_map(a.map.reshape(seq![a.len()])).elems() == a.elems(),
        a.elems().len() == product(a.map.dims),
{
    let flat = seq![a.len()];
    lemma_shape_fits_bounds(a.map.dims, 0);
    lemma_nonempty_shape(a.map.dims);
    assert(product(flat) == a.len()) by {
        assert(prod_from(flat, 1) == 1);
        assert(prod_from(flat, 0) == flat[0] * prod_from(flat, 1));
    }
    let c = crate::shape::clipped(flat);
    assert(product(c) == c[0]) by {
        assert(prod_from(c, 1) == 1);
        assert(prod_from(c, 0) == c[0] * prod_from(c, 1));
    }
    law_dense_admits_every_shape(a.map, flat);
    law_reshape_keeps_elements(a, flat);
}

/// Permuting the axes by an order and then by the order that undoes it
/// gives back the extents, the strides and the base, and with them every
/// element at its place.
pub proof fn law_permute_inverse<T>(a: ArrayModel<T>, p: Seq<int>, q: Seq<int>)
    requires
        a.wf(),
        is_permutation(p),
        p.len() == a.map.rank(),
        is_inverse_order(p, q),
    ensures
        a.map.permute(p).permute(q).dims == a.map.dims,
        a.map.permute(p).permute(q).strides == a.map.strides,
        a.map.permute(p).permute(q).base == a.map.base,
        a.with_map(a.map.permute(p).permute(q)).elems() == a.elems(),
{
    lemma_permuted_inverse(a.map.dims, p, q);
    lemma_permuted_inverse(a.map.strides, p, q);
    let b = a.with_map(a.map.permute(p).permute(q));
    assert(b.elems() =~= a.elems());
}

/// Transposing twice gives back the extents, the strides and the base, and
/// with them whether the memory is contiguous. The layout comes back too,
/// except that a dense array of two or more axes is strided after the first
/// transposition and stays so.
pub proof fn law_transpose_twice<T>(a: ArrayModel<T>)
    requires
        a.wf(),
    ensures
        a.map.transpose().transpose().dims == a.map.dims,
        a.map.transpose().transpose().strides == a.map.strides,
        a.map.transpose().transpose().base == a.map.base,
        a.map.transpose().transpose().is_contiguous() == a.map.is_contiguous(),
        a.map.rank() < 2 || a.map.layout == Layout::Strided ==> a.map.transpose().transpose()
            == a.map,
        a.with_map(a.map.transpose().transpose()).elems() == a.elems(),
{
    lemma_standard_orders(a.map.dims);
    lemma_standard_orders(a.map.strides);
    let t = a.map.transpose();
    assert(t.rank() == a.map.rank());
    let b = a.with_map(t.transpose());
    assert(b.elems() =~= a.elems());
}

/// Transposing is permuting by the reversed order, and a transposition of
/// two or more axes is strided.
pub proof fn law_transpose_is_reversal(m: MappingView)
    ensures
        m.transpose() == m.permute(reversed_order(m.rank())),
        m.rank() >= 2 ==> m.transpose().layout == Layout::Strided,
{
    if m.rank() >= 2 {
        assert(reversed_order(m.rank())[0] != identity_order(m.rank())[0]);
    }
}

/// Splitting an axis of extent `n` at `mid` gives parts of extents `mid`
/// and `n - mid`, which together hold every element of the array once: an
/// element before `mid` at its indices in the first part, any other `mid`
/// places earlier along the axis in the second.
pub proof fn law_split_covers<T>(a: ArrayModel<T>, axis: int, mid: int, idx: Seq<int>)
    requires
        a.wf(),
        0 <= axis < a.map.rank(),
        0 <= mid <= a.map.dims[axis],
        a.map.valid(idx),
    ensures
        a.map.split_first(axis, mid).dims[axis] == mid,
        a.map.split_second(axis, mid).dims[axis] == a.map.dims[axis] - mid,
        idx[axis] < mid ==> a.map.split_first(axis, mid).valid(idx) && a.with_map(
            a.map.split_first(axis, mid),
        ).at(idx) == a.at(idx),
        idx[axis] >= mid ==> a.map.split_second(axis, mid).valid(
            idx.update(axis, idx[axis] - mid),
        ) && a.with_map(a.map.split_second(axis, mid)).at(idx.update(axis, idx[axis] - mid))
            == a.at(idx),
{
    let first = a.map.split_first(axis, mid);
    let second = a.map.split_second(axis, mid);
    assert(0 <= idx[axis] < a.map.dims[axis]);
    if idx[axis] < mid {
        assert forall|i: int| 0 <= i < first.dims.len() implies 0 <= #[trigger] idx[i]
            < first.dims[i] by {
            assert(0 <= idx[i] < a.map.dims[i]);
        }
        lemma_split_offset(a.map, axis, mid, idx);
    } else {
        let moved = idx.update(axis, idx[axis] - mid);
        assert forall|i: int| 0 <= i < second.dims.len() implies 0 <= #[trigger] moved[i]
            < second.dims[i] by {
            assert(0 <= idx[i] < a.map.dims[i]);
        }
        lemma_split_offset(a.map, axis, mid, moved);
        assert(moved.update(axis, moved[axis] + mid) =~= idx);
    }
}

/// Where two arrays are traversed together and the second has extent one
/// along an axis, the one element that it has there is paired with the
/// element of the first at every position along that axis.
pub proof fn law_zip_repeats<T, U>(a: ArrayModel<T>, b: ArrayModel<U>, axis: int, k: int)
    requires
        a.wf(),
        b.wf(),
        compatible(a.map.dims, b.map.dims),
        a.map.rank() == b.map.rank(),
        0 <= axis < a.map.rank(),
        b.map.dims[axis] == 1,
        0 <= k < shape_len(common_shape(a.map.dims, b.map.dims)),
    ensures
        ({
            let common = common_shape(a.map.dims, b.map.dims);
            let idx = unravel(common, k);
            let left = source_index(a.map.dims, common, idx);
            let right = source_index(b.map.dims, common, idx);
            &&& common[axis] == a.map.dims[axis]
            &&& a.with_map(a.map.broadcast(common)).item(k) == a.at(left)
            &&& b.with_map(b.map.broadcast(common)).item(k) == b.at(right)
            &&& left[axis] == idx[axis]
            &&& right[axis] == 0
        }),
{
    let common = common_shape(a.map.dims, b.map.dims);
    let idx = unravel(common, k);
    lemma_common_shape(a.map.dims, b.map.dims);
    assert forall|i: int| 0 <= i < common.len() implies #[trigger] common[i] >= 0 by {
        assert(a.map.dims[i] >= 0 && b.map.dims[i] >= 0);
    }
    lemma_unravel_valid(common, k);
    lemma_broadcast_offset(a.map, common, idx);
    lemma_broadcast_offset(b.map, common, idx);
    assert(0 <= idx[axis] < common[axis]);
}

/// The two parts of a split of an exclusive array share no element: what
/// is assigned through one part leaves every element of the other.
pub proof fn law_split_parts_are_disjoint(
    m: MappingView,
    axis: int,
    mid: int,
    a: Seq<int>,
    b: Seq<int>,
)
    requires
        m.wf(),
        m.exclusive(),
        0 <= axis < m.rank(),
        0 <= mid <= m.dims[axis],
        m.split_first(axis, mid).valid(a),
        m.split_second(axis, mid).valid(b),
    ensures
        m.split_first(axis, mid).offset(a) != m.split_second(axis, mid).offset(b),
{
    lemma_split_offset(m, axis, mid, a);
    lemma_split_offset(m, axis, mid, b);
    let moved = b.update(axis, b[axis] + mid);
    assert(m.valid(a) && m.valid(moved));
    assert(0 <= a[axis] < m.split_first(axis, mid).dims[axis]);
    assert(0 <= b[axis] < m.split_second(axis, mid).dims[axis]);
    assert(a[axis] != moved[axis]);
}

} // verus!
