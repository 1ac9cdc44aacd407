//! What indexing, splitting and permuting do to a mapping, and why the
//! result is again a mapping into the same memory.
use vstd::prelude::*;
use crate::geometry::{dot_terms, extent, hi_terms, lemma_term_bounds, lo_terms, MappingView};
use crate::layout::Layout;
use crate::shape::{
    clipped, dense_strides, lemma_nonempty_shape, lemma_remove_axis_fits, lemma_resize_axis_fits,
    shape_len,
};
use crate::sums::{
    is_permutation, lemma_prod_from_agree, lemma_prod_from_remove, lemma_product_permuted,
    lemma_sum_from_remove, lemma_sum_permuted, lemma_sum_update, permuted,
};

verus! {

/// The layout that is left after an operation on `axis`: only the first
/// axis can be indexed or split without giving up what is known of the
/// memory.
pub open spec fn layout_after(layout: Layout, axis: int) -> Layout {
    if axis == 0 {
        layout
    } else {
        Layout::Strided
    }
}

/// The identity order of `n` axes.
pub open spec fn identity_order(n: int) -> Seq<int> {
    Seq::new(n as nat, |i: int| i)
}

/// The order that reverses `n` axes.
pub open spec fn reversed_order(n: int) -> Seq<int> {
    Seq::new(n as nat, |i: int| n - 1 - i)
}

/// `q` undoes the order `p`: it sends each `p[i]` back to `i`.
pub open spec fn is_inverse_order(p: Seq<int>, q: Seq<int>) -> bool {
    &&& q.len() == p.len()
    &&& forall|i: int| 0 <= i < p.len() ==> 0 <= #[trigger] p[i] < p.len() && q[p[i]] == i
}

impl MappingView {
    /// The mapping of the sub-array at `index` along `axis`: the axis is
    /// removed and the base moves by `index` strides.
    pub open spec fn axis_at(self, axis: int, index: int) -> MappingView {
        MappingView {
            dims: self.dims.remove(axis),
            strides: self.strides.remove(axis),
            layout: layout_after(self.layout, axis),
            base: self.base + index * self.strides[axis],
            limit: self.limit,
        }
    }

    /// The mapping of the part before `mid` along `axis`.
    pub open spec fn split_first(self, axis: int, mid: int) -> MappingView {
        MappingView {
            dims: self.dims.update(axis, mid),
            strides: self.strides,
            layout: layout_after(self.layout, axis),
            base: self.base,
            limit: self.limit,
        }
    }

    /// The mapping of the part from `mid` on along `axis`. The base moves by
    /// `mid` strides, unless nothing is left along the axis: then it stays.
    pub open spec fn split_second(self, axis: int, mid: int) -> MappingView {
        MappingView {
            dims: self.dims.update(axis, self.dims[axis] - mid),
            strides: self.strides,
            layout: layout_after(self.layout, axis),
            base: if mid < self.dims[axis] {
                self.base + mid * self.strides[axis]
            } else {
                self.base
            },
            limit: self.limit,
        }
    }

    /// The mapping with the axes in the order `p`: axis `i` of the result is
    /// axis `p[i]` of `self`. Only the identity order keeps a dense layout.
    pub open spec fn permute(self, p: Seq<int>) -> MappingView {
        MappingView {
            dims: permuted(self.dims, p),
            strides: permuted(self.strides, p),
            layout: if p == identity_order(self.rank()) {
                self.layout
            } else {
                Layout::Strided
            },
            base: self.base,
            limit: self.limit,
        }
    }

    /// The mapping with the order of the axes reversed.
    pub open spec fn transpose(self) -> MappingView {
        self.permute(reversed_order(self.rank()))
    }

    /// The same mapping under another layout.
    pub open spec fn remap(self, layout: Layout) -> MappingView {
        MappingView { layout, ..self }
    }

    /// Whether the memory allows the mapping to be read under `layout`:
    /// always as strided, as dense only where it is contiguous.
    pub open spec fn can_remap(self, layout: Layout) -> bool {
        layout == Layout::Strided || self.is_contiguous()
    }
}

/// The first axis does not enter the contiguous strides of the others.
pub proof fn lemma_dense_strides_first_axis(dims: Seq<int>, d: int)
    requires
        dims.len() > 0,
    ensures
        dense_strides(dims).remove(0) == dense_strides(dims.remove(0)),
        dense_strides(dims.update(0, d)) == dense_strides(dims),
{
    let r = dims.remove(0);
    assert(dense_strides(dims).remove(0) =~= dense_strides(r)) by {
        assert forall|i: int| 0 <= i < r.len() implies dense_strides(dims)[i + 1] == dense_strides(
            r,
        )[i] by {
            lemma_prod_from_remove(dims, 0, i + 2);
        }
    }
    assert(dense_strides(dims.update(0, d)) =~= dense_strides(dims)) by {
        assert forall|i: int| 0 <= i < dims.len() implies dense_strides(dims.update(0, d))[i]
            == dense_strides(dims)[i] by {
            lemma_prod_from_agree(dims.update(0, d), dims, i + 1);
        }
    }
}

/// Indexing an axis gives a mapping into the same memory.
pub proof fn lemma_axis_at_wf(m: MappingView, axis: int, index: int)
    requires
        m.wf(),
        0 <= axis < m.rank(),
        0 <= index < m.dims[axis],
    ensures
        m.axis_at(axis, index).wf(),
        m.axis_at(axis, index).len() * m.dims[axis] == m.len(),
{
    let r = m.axis_at(axis, index);
    lemma_remove_axis_fits(m.dims, axis);
    let lo = lo_terms(m.dims, m.strides);
    let hi = hi_terms(m.dims, m.strides);
    assert(lo_terms(r.dims, r.strides) =~= lo.remove(axis));
    assert(hi_terms(r.dims, r.strides) =~= hi.remove(axis));
    lemma_sum_from_remove(lo, axis, 0);
    lemma_sum_from_remove(hi, axis, 0);
    lemma_term_bounds(m.dims[axis], m.strides[axis], index);
    if axis == 0 {
        lemma_dense_strides_first_axis(m.dims, 0);
    }
    lemma_nonempty_shape(m.dims);
    lemma_nonempty_shape(r.dims);
    assert(r.len() > 0 ==> m.len() > 0) by (nonlinear_arith)
        requires
            r.len() * m.dims[axis] == m.len(),
            m.dims[axis] > 0,
    ;
    assert forall|i: int| 0 <= i < r.strides.len() implies isize::MIN <= #[trigger] r.strides[i]
        <= isize::MAX by {
        if i < axis {
            assert(r.strides[i] == m.strides[i]);
        } else {
            assert(r.strides[i] == m.strides[i + 1]);
        }
    }
}

/// The element at `idx` of the sub-array at `index` along `axis` is the
/// element of the whole array at `idx` with `index` put in at `axis`.
pub proof fn lemma_axis_at_offset(m: MappingView, axis: int, index: int, idx: Seq<int>)
    requires
        m.strides.len() == m.dims.len(),
        0 <= axis < m.rank(),
        0 <= index < m.dims[axis],
        m.axis_at(axis, index).valid(idx),
    ensures
        m.valid(idx.insert(axis, index)),
        m.axis_at(axis, index).offset(idx) == m.offset(idx.insert(axis, index)),
{
    let r = m.axis_at(axis, index);
    let full = idx.insert(axis, index);
    assert forall|i: int| 0 <= i < m.dims.len() implies 0 <= #[trigger] full[i] < m.dims[i] by {
        if i < axis {
            assert(full[i] == idx[i] && r.dims[i] == m.dims[i]);
        } else if i > axis {
            assert(full[i] == idx[i - 1] && r.dims[i - 1] == m.dims[i]);
        }
    }
    let t = dot_terms(full, m.strides);
    assert(dot_terms(idx, r.strides) =~= t.remove(axis)) by {
        assert forall|i: int| 0 <= i < r.strides.len() implies dot_terms(idx, r.strides)[i]
            == t.remove(axis)[i] by {
            if i < axis {
                assert(full[i] == idx[i]);
            } else {
                assert(full[i + 1] == idx[i]);
            }
        }
    }
    lemma_sum_from_remove(t, axis, 0);
}

/// Both parts of a split are mappings into the same memory, and their
/// lengths add up to the length of the whole.
pub proof fn lemma_split_wf(m: MappingView, axis: int, mid: int)
    requires
        m.wf(),
        0 <= axis < m.rank(),
        0 <= mid <= m.dims[axis],
    ensures
        m.split_first(axis, mid).wf(),
        m.split_second(axis, mid).wf(),
        m.split_first(axis, mid).len() + m.split_second(axis, mid).len() == m.len(),
{
    let a = m.split_first(axis, mid);
    let b = m.split_second(axis, mid);
    let d = m.dims[axis];
    let s = m.strides[axis];
    lemma_resize_axis_fits(m.dims, axis, mid);
    lemma_resize_axis_fits(m.dims, axis, d - mid);
    lemma_resize_axis_fits(m.dims, axis, d);
    assert(m.dims.update(axis, d) =~= m.dims);
    let rest = shape_len(m.dims.remove(axis));
    assert(rest * mid + rest * (d - mid) == rest * d) by (nonlinear_arith);
    let lo = lo_terms(m.dims, m.strides);
    let hi = hi_terms(m.dims, m.strides);
    let lo_a = if s < 0 { extent(mid) * s } else { 0 };
    let hi_a = if s > 0 { extent(mid) * s } else { 0 };
    let lo_b = if s < 0 { extent(d - mid) * s } else { 0 };
    let hi_b = if s > 0 { extent(d - mid) * s } else { 0 };
    assert(lo_terms(a.dims, a.strides) =~= lo.update(axis, lo_a));
    assert(hi_terms(a.dims, a.strides) =~= hi.update(axis, hi_a));
    assert(lo_terms(b.dims, b.strides) =~= lo.update(axis, lo_b));
    assert(hi_terms(b.dims, b.strides) =~= hi.update(axis, hi_b));
    lemma_sum_update(lo, axis, lo_a);
    lemma_sum_update(hi, axis, hi_a);
    lemma_sum_update(lo, axis, lo_b);
    lemma_sum_update(hi, axis, hi_b);
    lemma_term_bounds(d, s, extent(mid));
    lemma_term_bounds(d, s, 0);
    if mid < d {
        lemma_term_bounds(d, s, mid);
        lemma_term_bounds(d, s, mid + extent(d - mid));
        assert((mid + extent(d - mid)) * s == mid * s + extent(d - mid) * s) by (nonlinear_arith);
    }
    if axis == 0 {
        lemma_dense_strides_first_axis(m.dims, mid);
        lemma_dense_strides_first_axis(m.dims, d - mid);
    }
    lemma_nonempty_shape(m.dims);
    lemma_nonempty_shape(m.dims.remove(axis));
    lemma_remove_axis_fits(m.dims, axis);
    assert(a.len() > 0 ==> m.len() > 0) by (nonlinear_arith)
        requires
            a.len() == rest * mid,
            m.len() == rest * d,
            rest >= 0,
            0 <= mid <= d,
    ;
    assert(b.len() > 0 ==> m.len() > 0) by (nonlinear_arith)
        requires
            b.len() == rest * (d - mid),
            m.len() == rest * d,
            rest >= 0,
            0 <= mid <= d,
    ;
}

/// An element of the first part of a split is the element of the whole at
/// the same indices; one of the second part is the element of the whole
/// `mid` places further along `axis`.
pub proof fn lemma_split_offset(m: MappingView, axis: int, mid: int, idx: Seq<int>)
    requires
        m.strides.len() == m.dims.len(),
        0 <= axis < m.rank(),
        0 <= mid <= m.dims[axis],
    ensures
        m.split_first(axis, mid).valid(idx) ==> m.valid(idx) && m.split_first(axis, mid).offset(idx)
            == m.offset(idx),
        m.split_second(axis, mid).valid(idx) ==> m.valid(idx.update(axis, idx[axis] + mid))
            && m.split_second(axis, mid).offset(idx) == m.offset(
            idx.update(axis, idx[axis] + mid),
        ),
{
    let a = m.split_first(axis, mid);
    let b = m.split_second(axis, mid);
    if a.valid(idx) {
        assert forall|i: int| 0 <= i < m.dims.len() implies 0 <= #[trigger] idx[i] < m.dims[i] by {
            assert(0 <= idx[i] < a.dims[i]);
        }
    }
    if b.valid(idx) {
        let full = idx.update(axis, idx[axis] + mid);
        assert forall|i: int| 0 <= i < m.dims.len() implies 0 <= #[trigger] full[i] < m.dims[i] by {
            assert(0 <= idx[i] < b.dims[i]);
        }
        assert(0 <= idx[axis] < b.dims[axis]);
        let t = dot_terms(idx, m.strides);
        let v = (idx[axis] + mid) * m.strides[axis];
        assert(dot_terms(full, m.strides) =~= t.update(axis, v));
        lemma_sum_update(t, axis, v);
        assert(v == idx[axis] * m.strides[axis] + mid * m.strides[axis]) by (nonlinear_arith)
            requires
                v == (idx[axis] + mid) * m.strides[axis],
        ;
    }
}

/// The identity order and the reversed order are permutations, and the
/// identity order changes nothing.
pub proof fn lemma_standard_orders(t: Seq<int>)
    ensures
        is_permutation(identity_order(t.len() as int)),
        is_permutation(reversed_order(t.len() as int)),
        permuted(t, identity_order(t.len() as int)) == t,
        permuted(permuted(t, reversed_order(t.len() as int)), reversed_order(t.len() as int)) == t,
        t.len() <= 1 ==> reversed_order(t.len() as int) == identity_order(t.len() as int),
{
    let n = t.len() as int;
    assert(permuted(t, identity_order(n)) =~= t);
    assert(permuted(permuted(t, reversed_order(n)), reversed_order(n)) =~= t);
    if n <= 1 {
        assert(reversed_order(n) =~= identity_order(n));
    }
}

/// Reading a sequence in the order `p` and the result in the order that
/// undoes `p` gives the sequence back.
pub proof fn lemma_permuted_inverse(t: Seq<int>, p: Seq<int>, q: Seq<int>)
    requires
        is_permutation(p),
        p.len() == t.len(),
        is_inverse_order(p, q),
    ensures
        is_permutation(q),
        is_inverse_order(q, p),
        permuted(permuted(t, p), q) == t,
{
    assert forall|v: int| 0 <= v < q.len() implies 0 <= #[trigger] q[v] < q.len() && p[q[v]]
        == v by {
        let i = crate::sums::lemma_permutation_hits(p, v);
        assert(0 <= p[i] < p.len() && q[p[i]] == i);
    }
    assert forall|a: int, b: int| 0 <= a < b < q.len() implies q[a] != q[b] by {
        assert(p[q[a]] == a && p[q[b]] == b);
    }
    assert(permuted(permuted(t, p), q) =~= t) by {
        assert forall|v: int| 0 <= v < t.len() implies permuted(permuted(t, p), q)[v] == t[v] by {
            assert(p[q[v]] == v);
        }
    }
}

/// Permuting the axes gives a mapping into the same memory, with as many
/// elements.
pub proof fn lemma_permute_wf(m: MappingView, p: Seq<int>)
    requires
        m.wf(),
        is_permutation(p),
        p.len() == m.rank(),
    ensures
        m.permute(p).wf(),
        m.permute(p).len() == m.len(),
{
    let r = m.permute(p);
    assert(clipped(r.dims) =~= permuted(clipped(m.dims), p));
    lemma_product_permuted(clipped(m.dims), p);
    lemma_product_permuted(m.dims, p);
    assert(lo_terms(r.dims, r.strides) =~= permuted(lo_terms(m.dims, m.strides), p));
    assert(hi_terms(r.dims, r.strides) =~= permuted(hi_terms(m.dims, m.strides), p));
    lemma_sum_permuted(lo_terms(m.dims, m.strides), p);
    lemma_sum_permuted(hi_terms(m.dims, m.strides), p);
    lemma_standard_orders(m.dims);
    lemma_standard_orders(m.strides);
    assert forall|i: int| 0 <= i < r.dims.len() implies #[trigger] r.dims[i] >= 0 by {
        assert(0 <= p[i] < p.len());
        assert(m.dims[p[i]] >= 0);
    }
    assert forall|i: int| 0 <= i < r.strides.len() implies isize::MIN <= #[trigger] r.strides[i]
        <= isize::MAX by {
        assert(0 <= p[i] < p.len());
        assert(isize::MIN <= m.strides[p[i]] <= isize::MAX);
    }
}

/// The element at `idx` is found, after the axes are permuted by `p`, at
/// the indices of `idx` read in the order `p`.
pub proof fn lemma_permute_offset(m: MappingView, p: Seq<int>, idx: Seq<int>)
    requires
        m.strides.len() == m.dims.len(),
        is_permutation(p),
        p.len() == m.rank(),
        m.valid(idx),
    ensures
        m.permute(p).valid(permuted(idx, p)),
        m.permute(p).offset(permuted(idx, p)) == m.offset(idx),
{
    let r = m.permute(p);
    let moved = permuted(idx, p);
    assert forall|i: int| 0 <= i < r.dims.len() implies 0 <= #[trigger] moved[i] < r.dims[i] by {
        assert(0 <= p[i] < p.len());
        assert(0 <= idx[p[i]] < m.dims[p[i]]);
    }
    assert(dot_terms(moved, r.strides) =~= permuted(dot_terms(idx, m.strides), p));
    lemma_sum_permuted(dot_terms(idx, m.strides), p);
}

} // verus!
