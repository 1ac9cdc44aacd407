//! Merging and splitting axes: the steps by which a strided mapping is read
//! under another shape without moving an element.
use vstd::prelude::*;
use vstd::arithmetic::div_mod::{
    lemma_div_denominator, lemma_fundamental_div_mod, lemma_mod_bound, lemma_mod_breakdown,
};
use crate::geometry::{dot_terms, extent, hi_terms, lo_terms, MappingView};
use crate::index::{lemma_ravel_unravel, lemma_unravel_ravel, lemma_unravel_valid, unravel};
use crate::layout::Layout;
use crate::shape::{clipped, dense_strides, lemma_nonempty_shape};
use crate::sums::{
    lemma_prod_from_positive, lemma_prod_from_remove, lemma_sum_from_remove, lemma_sum_update,
    prod_from,
};
use crate::transform::{lemma_axis_at_offset, lemma_axis_at_wf};

verus! {

/// `dims` with the axes `a` and `a + 1` taken together as one.
pub open spec fn merged_dims(dims: Seq<int>, a: int) -> Seq<int> {
    dims.remove(a).update(a, dims[a] * dims[a + 1])
}

/// `dims` with axis `a` cut into an outer axis and an inner axis of extent
/// `inner`.
pub open spec fn split_dims(dims: Seq<int>, a: int, inner: int) -> Seq<int> {
    dims.update(a, inner).insert(a, dims[a] / inner)
}

impl MappingView {
    /// Whether the axes `a` and `a + 1` lie in memory like one axis: a step
    /// along the first is a run through the second.
    pub open spec fn can_merge(self, a: int) -> bool {
        &&& 0 <= a < self.rank() - 1
        &&& self.strides[a] == self.strides[a + 1] * self.dims[a + 1]
    }

    /// The mapping with the axes `a` and `a + 1` taken together as one.
    pub open spec fn merge(self, a: int) -> MappingView {
        MappingView {
            dims: merged_dims(self.dims, a),
            strides: self.strides.remove(a),
            layout: Layout::Strided,
            ..self
        }
    }

    /// The mapping with axis `a` cut into an outer axis and an inner axis of
    /// extent `inner`. An outer axis of extent one takes the stride of the
    /// inner one.
    pub open spec fn split_axis(self, a: int, inner: int) -> MappingView {
        MappingView {
            dims: split_dims(self.dims, a, inner),
            strides: self.strides.insert(
                a,
                if self.dims[a] / inner == 1 {
                    self.strides[a]
                } else {
                    self.strides[a] * inner
                },
            ),
            layout: Layout::Strided,
            ..self
        }
    }

    /// The mapping has as many elements as `other`, and each of them, by its
    /// position in row-major order, at the same place in memory.
    pub open spec fn same_elements(self, other: MappingView) -> bool {
        &&& self.len() == other.len()
        &&& self.limit == other.limit
        &&& forall|k: int| 0 <= k < self.len() ==> #[trigger] self.linear(k) == other.linear(k)
    }
}

/// The sizes of the suffixes of a shape after two axes are merged.
pub proof fn lemma_merged_products(dims: Seq<int>, a: int, j: int)
    requires
        0 <= a < dims.len() - 1,
        0 <= j <= dims.len(),
    ensures
        j <= a ==> prod_from(merged_dims(dims, a), j) == prod_from(dims, j),
        j > a + 1 ==> prod_from(merged_dims(dims, a), j - 1) == prod_from(dims, j),
    decreases dims.len() - j,
{
    let m = merged_dims(dims, a);
    if j < dims.len() {
        lemma_merged_products(dims, a, j + 1);
        if j < a {
            assert(m[j] == dims[j]);
        } else if j == a {
            lemma_merged_products(dims, a, a + 2);
            assert(m[a] == dims[a] * dims[a + 1]);
            assert(prod_from(m, a) == m[a] * prod_from(m, a + 1));
            assert(prod_from(dims, a + 1) == dims[a + 1] * prod_from(dims, a + 2));
            assert(prod_from(m, a + 1) == prod_from(dims, a + 2));
            assert((dims[a] * dims[a + 1]) * prod_from(dims, a + 2) == dims[a] * (dims[a + 1]
                * prod_from(dims, a + 2))) by (nonlinear_arith);
        } else if j > a + 1 {
            assert(m[j - 1] == dims[j]);
        }
    }
}

/// Merging two axes that lie in memory like one keeps every element where
/// it is, and gives a mapping into the same memory.
pub proof fn lemma_merge(m: MappingView, a: int)
    requires
        m.wf(),
        m.len() > 0,
        m.can_merge(a),
    ensures
        m.merge(a).wf(),
        m.merge(a).len() > 0,
        m.merge(a).same_elements(m),
{
    let r = m.merge(a);
    let d0 = m.dims[a];
    let d1 = m.dims[a + 1];
    let s1 = m.strides[a + 1];
    lemma_nonempty_shape(m.dims);
    assert(d0 > 0 && d1 > 0);
    assert(d0 * d1 > 0) by (nonlinear_arith)
        requires
            d0 > 0,
            d1 > 0,
    ;
    lemma_merged_products(m.dims, a, 0);
    assert forall|i: int| 0 <= i < r.dims.len() implies #[trigger] r.dims[i] > 0 by {
        if i < a {
            assert(r.dims[i] == m.dims[i]);
        } else if i > a {
            assert(r.dims[i] == m.dims[i + 1]);
        }
    }
    lemma_nonempty_shape(r.dims);
    assert(clipped(r.dims) =~= r.dims);
    assert(clipped(m.dims) =~= m.dims);
    // reach
    let lo = lo_terms(m.dims, m.strides);
    let hi = hi_terms(m.dims, m.strides);
    let lo_r = lo_terms(r.dims, r.strides);
    let hi_r = hi_terms(r.dims, r.strides);
    assert((d0 * d1 - 1) * s1 == (d0 - 1) * (s1 * d1) + (d1 - 1) * s1) by (nonlinear_arith);
    assert(s1 < 0 ==> s1 * d1 < 0) by (nonlinear_arith)
        requires
            d1 > 0,
    ;
    assert(s1 > 0 ==> s1 * d1 > 0) by (nonlinear_arith)
        requires
            d1 > 0,
    ;
    assert(s1 == 0 ==> s1 * d1 == 0) by (nonlinear_arith);
    assert(lo_r =~= lo.remove(a).update(a, lo[a] + lo[a + 1]));
    assert(hi_r =~= hi.remove(a).update(a, hi[a] + hi[a + 1]));
    lemma_sum_from_remove(lo, a, 0);
    lemma_sum_from_remove(hi, a, 0);
    lemma_sum_update(lo.remove(a), a, lo[a] + lo[a + 1]);
    lemma_sum_update(hi.remove(a), a, hi[a] + hi[a + 1]);
    assert forall|i: int| 0 <= i < r.strides.len() implies isize::MIN <= #[trigger] r.strides[i]
        <= isize::MAX by {
        if i < a {
            assert(r.strides[i] == m.strides[i]);
        } else {
            assert(r.strides[i] == m.strides[i + 1]);
        }
    }
    // elements
    assert forall|k: int| 0 <= k < r.len() implies #[trigger] r.linear(k) == m.linear(k) by {
        let u = unravel(m.dims, k);
        let v = unravel(r.dims, k);
        let t = dot_terms(u, m.strides);
        let w = dot_terms(v, r.strides);
        let p = prod_from(m.dims, a + 2);
        lemma_prod_from_positive(m.dims, a + 2);
        let x = k / p;
        assert forall|i: int| 0 <= i < r.dims.len() && i != a implies w[i] == (if i < a {
            t[i]
        } else {
            t[i + 1]
        }) by {
            if i < a {
                lemma_merged_products(m.dims, a, i + 1);
                assert(r.dims[i] == m.dims[i]);
            } else {
                lemma_merged_products(m.dims, a, i + 2);
                assert(r.dims[i] == m.dims[i + 1]);
            }
        }
        lemma_merged_products(m.dims, a, a + 2);
        assert(v[a] == x % (d0 * d1));
        assert(u[a + 1] == x % d1);
        assert(prod_from(m.dims, a + 1) == d1 * p);
        lemma_div_denominator(k, p, d1);
        assert(p * d1 == d1 * p) by (nonlinear_arith);
        assert(u[a] == (x / d1) % d0);
        assert(0 <= x) by {
            vstd::arithmetic::div_mod::lemma_div_pos_is_pos(k, p);
        }
        lemma_mod_breakdown(x, d1, d0);
        assert(d1 * d0 == d0 * d1) by (nonlinear_arith);
        assert(v[a] * s1 == u[a] * (s1 * d1) + u[a + 1] * s1) by (nonlinear_arith)
            requires
                v[a] == d1 * u[a] + u[a + 1],
        ;
        assert(w =~= t.remove(a).update(a, t[a] + t[a + 1]));
        lemma_sum_from_remove(t, a, 0);
        lemma_sum_update(t.remove(a), a, t[a] + t[a + 1]);
    }
}

/// The sizes of the suffixes of a shape after an axis is split.
pub proof fn lemma_split_products(dims: Seq<int>, a: int, inner: int, j: int)
    requires
        0 <= a < dims.len(),
        inner > 0,
        dims[a] % inner == 0,
        0 <= j <= dims.len(),
    ensures
        j <= a ==> prod_from(split_dims(dims, a, inner), j) == prod_from(dims, j),
        j > a ==> prod_from(split_dims(dims, a, inner), j + 1) == prod_from(dims, j),
    decreases dims.len() - j,
{
    let s = split_dims(dims, a, inner);
    let q = dims[a] / inner;
    if j < dims.len() {
        lemma_split_products(dims, a, inner, j + 1);
        if j < a {
            assert(s[j] == dims[j]);
        } else if j == a {
            assert(s[a] == q && s[a + 1] == inner);
            assert(prod_from(s, a + 1) == s[a + 1] * prod_from(s, a + 2));
            assert(prod_from(s, a) == s[a] * prod_from(s, a + 1));
            lemma_fundamental_div_mod(dims[a], inner);
            assert(q * (inner * prod_from(dims, a + 1)) == (inner * q) * prod_from(dims, a + 1))
                by (nonlinear_arith);
        } else {
            assert(s[j + 1] == dims[j]);
        }
    }
}

/// Cutting an axis in two gives a mapping into the same memory, with as
/// many elements.
pub proof fn lemma_split_axis_wf(m: MappingView, a: int, inner: int)
    requires
        m.wf(),
        m.len() > 0,
        0 <= a < m.rank(),
        inner > 0,
        m.dims[a] % inner == 0,
    ensures
        m.split_axis(a, inner).wf(),
        m.split_axis(a, inner).len() == m.len(),
        m.dims[a] == inner * (m.dims[a] / inner),
        m.dims[a] / inner > 0,
        forall|i: int|
            0 <= i < m.rank() + 1 ==> #[trigger] m.split_axis(a, inner).dims[i] > 0,
{
    let r = m.split_axis(a, inner);
    let d = m.dims[a];
    let q = d / inner;
    let s = m.strides[a];
    let so = r.strides[a];
    lemma_nonempty_shape(m.dims);
    assert(d > 0);
    lemma_fundamental_div_mod(d, inner);
    assert(d == inner * q);
    assert(q > 0) by (nonlinear_arith)
        requires
            d == inner * q,
            d > 0,
            inner > 0,
    ;
    lemma_split_products(m.dims, a, inner, 0);
    assert forall|i: int| 0 <= i < r.dims.len() implies #[trigger] r.dims[i] > 0 by {
        if i < a {
            assert(r.dims[i] == m.dims[i]);
        } else if i > a + 1 {
            assert(r.dims[i] == m.dims[i - 1]);
        }
    }
    lemma_nonempty_shape(r.dims);
    assert(clipped(r.dims) =~= r.dims);
    assert(clipped(m.dims) =~= m.dims);
    let lo = lo_terms(m.dims, m.strides);
    let hi = hi_terms(m.dims, m.strides);
    let lo_r = lo_terms(r.dims, r.strides);
    let hi_r = hi_terms(r.dims, r.strides);
    lemma_term_within_reach(m, a);
    assert((q - 1) * (s * inner) + (inner - 1) * s == (inner * q - 1) * s) by (nonlinear_arith);
    assert(s < 0 ==> s * inner < 0) by (nonlinear_arith)
        requires
            inner > 0,
    ;
    assert(s > 0 ==> s * inner > 0) by (nonlinear_arith)
        requires
            inner > 0,
    ;
    assert(s == 0 ==> s * inner == 0) by (nonlinear_arith);
    assert(q == 1 ==> (q - 1) * so == 0) by (nonlinear_arith);
    assert(q == 1 ==> inner == d) by (nonlinear_arith)
        requires
            d == inner * q,
    ;
    assert(r.dims[a] == q && r.dims[a + 1] == inner);
    assert(r.strides[a + 1] == s);
    assert(lo_r[a] + lo_r[a + 1] == lo[a]);
    assert(hi_r[a] + hi_r[a + 1] == hi[a]);
    assert(lo_r.remove(a) =~= lo.update(a, lo_r[a + 1]));
    assert(hi_r.remove(a) =~= hi.update(a, hi_r[a + 1]));
    lemma_sum_from_remove(lo_r, a, 0);
    lemma_sum_from_remove(hi_r, a, 0);
    lemma_sum_update(lo, a, lo_r[a + 1]);
    lemma_sum_update(hi, a, hi_r[a + 1]);
    if q != 1 {
        assert(-(isize::MAX as int) <= s * inner <= isize::MAX as int) by (nonlinear_arith)
            requires
                -(isize::MAX as int) <= (d - 1) * s <= isize::MAX as int,
                d == inner * q,
                q >= 2,
                inner >= 1,
        ;
    }
    assert forall|i: int| 0 <= i < r.strides.len() implies isize::MIN <= #[trigger] r.strides[i]
        <= isize::MAX by {
        if i < a {
            assert(r.strides[i] == m.strides[i]);
        } else if i > a {
            assert(r.strides[i] == m.strides[i - 1]);
        }
    }
}

/// Cutting an axis in two keeps every element where it is.
pub proof fn lemma_split_axis_linear(m: MappingView, a: int, inner: int, k: int)
    requires
        m.wf(),
        0 <= k < m.len(),
        0 <= a < m.rank(),
        inner > 0,
        m.dims[a] % inner == 0,
    ensures
        m.split_axis(a, inner).linear(k) == m.linear(k),
{
    let r = m.split_axis(a, inner);
    let d = m.dims[a];
    let q = d / inner;
    let s = m.strides[a];
    let so = r.strides[a];
    lemma_split_axis_wf(m, a, inner);
    lemma_nonempty_shape(m.dims);
    let u = unravel(m.dims, k);
    let v = unravel(r.dims, k);
    let t = dot_terms(u, m.strides);
    let w = dot_terms(v, r.strides);
    let p = prod_from(m.dims, a + 1);
    lemma_prod_from_positive(m.dims, a + 1);
    let x = k / p;
    assert forall|i: int| 0 <= i < r.dims.len() && i != a && i != a + 1 implies w[i] == (if i < a {
        t[i]
    } else {
        t[i - 1]
    }) by {
        if i < a {
            lemma_split_products(m.dims, a, inner, i + 1);
            assert(r.dims[i] == m.dims[i]);
            assert(r.strides[i] == m.strides[i]);
        } else {
            lemma_split_products(m.dims, a, inner, i);
            assert(r.dims[i] == m.dims[i - 1]);
            assert(r.strides[i] == m.strides[i - 1]);
        }
    }
    lemma_split_products(m.dims, a, inner, a + 1);
    assert(r.dims[a] == q && r.dims[a + 1] == inner);
    assert(r.strides[a + 1] == s);
    assert(prod_from(r.dims, a + 2) == p);
    assert(prod_from(r.dims, a + 1) == r.dims[a + 1] * prod_from(r.dims, a + 2));
    assert(u[a] == x % d);
    assert(v[a + 1] == x % inner);
    lemma_div_denominator(k, p, inner);
    assert(p * inner == inner * p) by (nonlinear_arith);
    assert(v[a] == (x / inner) % q);
    assert(0 <= x) by {
        vstd::arithmetic::div_mod::lemma_div_pos_is_pos(k, p);
    }
    lemma_mod_breakdown(x, inner, q);
    assert(u[a] == inner * v[a] + v[a + 1]);
    if q == 1 {
        lemma_mod_bound(x / inner, q);
        assert(v[a] == 0);
        assert(v[a] * so == 0) by (nonlinear_arith)
            requires
                v[a] == 0,
        ;
        assert(inner * v[a] == 0) by (nonlinear_arith)
            requires
                v[a] == 0,
        ;
    } else {
        assert(so == s * inner);
        assert(v[a] * (s * inner) + v[a + 1] * s == u[a] * s) by (nonlinear_arith)
            requires
                u[a] == inner * v[a] + v[a + 1],
        ;
    }
    assert(w[a] + w[a + 1] == t[a]);
    assert(w.remove(a) =~= t.update(a, w[a + 1]));
    lemma_sum_from_remove(w, a, 0);
    lemma_sum_update(t, a, w[a + 1]);
}

/// Cutting an axis in two keeps every element where it is, and gives a
/// mapping into the same memory.
pub proof fn lemma_split_axis(m: MappingView, a: int, inner: int)
    requires
        m.wf(),
        m.len() > 0,
        0 <= a < m.rank(),
        inner > 0,
        m.dims[a] % inner == 0,
    ensures
        m.split_axis(a, inner).wf(),
        m.split_axis(a, inner).len() > 0,
        m.split_axis(a, inner).same_elements(m),
{
    let r = m.split_axis(a, inner);
    lemma_split_axis_wf(m, a, inner);
    assert forall|k: int| 0 <= k < r.len() implies #[trigger] r.linear(k) == m.linear(k) by {
        lemma_split_axis_linear(m, a, inner, k);
    }
}

/// What one axis can move an offset lies within what the whole mapping can.
pub proof fn lemma_term_within_reach(m: MappingView, a: int)
    requires
        m.wf(),
        0 <= a < m.rank(),
    ensures
        -(isize::MAX as int) <= extent(m.dims[a]) * m.strides[a] <= isize::MAX as int,
{
    let lo = lo_terms(m.dims, m.strides);
    let hi = hi_terms(m.dims, m.strides);
    let rest_lo = lo_terms(m.dims.remove(a), m.strides.remove(a));
    let rest_hi = hi_terms(m.dims.remove(a), m.strides.remove(a));
    assert(rest_lo =~= lo.remove(a));
    assert(rest_hi =~= hi.remove(a));
    lemma_sum_from_remove(lo, a, 0);
    lemma_sum_from_remove(hi, a, 0);
    crate::geometry::lemma_signed_suffix(m.dims.remove(a), m.strides.remove(a), 0);
    crate::geometry::lemma_base_in_range(m);
    let e = extent(m.dims[a]);
    let s = m.strides[a];
    assert(s == 0 ==> e * s == 0) by (nonlinear_arith);
    assert(lo[a] == (if s < 0 { e * s } else { 0 }));
    assert(hi[a] == (if s > 0 { e * s } else { 0 }));
    assert(crate::geometry::lowest(m.dims, m.strides) <= lo[a]);
    assert(hi[a] <= crate::geometry::highest(m.dims, m.strides));
    assert(s < 0 ==> e * s <= 0) by (nonlinear_arith)
        requires
            e >= 0,
    ;
    assert(s > 0 ==> e * s >= 0) by (nonlinear_arith)
        requires
            e >= 0,
    ;
}

/// Taking an axis of extent one out of a mapping keeps every element where
/// it is.
pub proof fn lemma_drop_unit_axis(m: MappingView, a: int)
    requires
        m.wf(),
        m.len() > 0,
        0 <= a < m.rank(),
        m.dims[a] == 1,
    ensures
        m.axis_at(a, 0).wf(),
        m.axis_at(a, 0).len() > 0,
        m.axis_at(a, 0).same_elements(m),
{
    let r = m.axis_at(a, 0);
    lemma_axis_at_wf(m, a, 0);
    lemma_nonempty_shape(m.dims);
    lemma_nonempty_shape(r.dims);
    assert(r.len() * 1 == r.len());
    assert forall|k: int| 0 <= k < r.len() implies #[trigger] r.linear(k) == m.linear(k) by {
        let inner = unravel(r.dims, k);
        let full = inner.insert(a, 0);
        lemma_unravel_valid(r.dims, k);
        lemma_ravel_unravel(r.dims, k);
        lemma_axis_at_offset(m, a, 0, inner);
        let terms = dot_terms(full, dense_strides(m.dims));
        assert(terms.remove(a) =~= dot_terms(inner, dense_strides(r.dims))) by {
            assert forall|i: int| 0 <= i < r.dims.len() implies terms.remove(a)[i] == dot_terms(
                inner,
                dense_strides(r.dims),
            )[i] by {
                if i < a {
                    lemma_prod_from_remove(m.dims, a, i + 1);
                    assert(prod_from(r.dims, i + 1) * 1 == prod_from(r.dims, i + 1));
                    assert(full[i] == inner[i]);
                } else {
                    lemma_prod_from_remove(m.dims, a, i + 2);
                    assert(full[i + 1] == inner[i]);
                }
            }
        }
        lemma_sum_from_remove(terms, a, 0);
        assert(terms[a] == 0) by {
            assert(full[a] == 0);
            assert(0 * dense_strides(m.dims)[a] == 0);
        }
        lemma_unravel_ravel(m.dims, full);
        assert(0 * m.strides[a] == 0);
    }
}

impl MappingView {
    /// The mapping with one more axis, of extent one, after the others.
    pub open spec fn append_unit(self) -> MappingView {
        MappingView {
            dims: self.dims.push(1),
            strides: self.strides.push(1),
            layout: Layout::Strided,
            ..self
        }
    }

    /// The mapping without its axes of extent one from axis `a` on.
    pub open spec fn strip_from(self, a: int) -> MappingView
        decreases self.rank() - a,
    {
        if a < 0 || a >= self.rank() {
            self
        } else if self.dims[a] == 1 {
            self.axis_at(a, 0).strip_from(a)
        } else {
            self.strip_from(a + 1)
        }
    }

    /// The mapping brought to the shape `dims` from axis `a` on, where the
    /// axes before `a` have their extents already: an axis that is too long
    /// is cut, one that is too short is merged with the next where the two
    /// lie in memory like one, and an axis of extent one is added where none
    /// is left. Nothing where an axis would have to be merged with one that
    /// does not continue it.
    pub open spec fn regroup_from(self, dims: Seq<int>, a: int) -> Option<MappingView>
        decreases dims.len() - a, self.rank() - a,
    {
        if a < 0 || a >= dims.len() {
            if self.rank() == dims.len() {
                Some(self)
            } else {
                None
            }
        } else if a >= self.rank() {
            if dims[a] == 1 {
                self.append_unit().regroup_from(dims, a + 1)
            } else {
                None
            }
        } else if dims[a] == self.dims[a] {
            self.regroup_from(dims, a + 1)
        } else if dims[a] >= 1 && self.dims[a] % dims[a] == 0 {
            self.split_axis(a, self.dims[a] / dims[a]).regroup_from(dims, a + 1)
        } else if self.can_merge(a) {
            self.merge(a).regroup_from(dims, a)
        } else {
            None
        }
    }

    /// The mapping under the shape `dims`, reached by dropping the axes of
    /// extent one and then cutting and merging axes; nothing where the strides
    /// do not allow it.
    pub open spec fn regroup(self, dims: Seq<int>) -> Option<MappingView> {
        self.strip_from(0).regroup_from(dims, 0)
    }
}

/// Adding an axis of extent one keeps every element where it is.
pub proof fn lemma_append_unit(m: MappingView)
    requires
        m.wf(),
        m.len() > 0,
    ensures
        m.append_unit().wf(),
        m.append_unit().len() > 0,
        m.append_unit().same_elements(m),
{
    let r = m.append_unit();
    let n = m.rank();
    lemma_nonempty_shape(m.dims);
    lemma_prod_from_remove(r.dims, n, 0);
    assert(r.dims.remove(n) =~= m.dims);
    assert(prod_from(m.dims, 0) * 1 == prod_from(m.dims, 0));
    assert forall|i: int| 0 <= i < r.dims.len() implies #[trigger] r.dims[i] > 0 by {
        if i < n {
            assert(r.dims[i] == m.dims[i]);
        }
    }
    lemma_nonempty_shape(r.dims);
    assert(clipped(r.dims) =~= r.dims);
    assert(clipped(m.dims) =~= m.dims);
    let lo_r = lo_terms(r.dims, r.strides);
    let hi_r = hi_terms(r.dims, r.strides);
    assert(lo_r.remove(n) =~= lo_terms(m.dims, m.strides));
    assert(hi_r.remove(n) =~= hi_terms(m.dims, m.strides));
    lemma_sum_from_remove(lo_r, n, 0);
    lemma_sum_from_remove(hi_r, n, 0);
    assert(extent(1) * 1 == 0);
    assert forall|i: int| 0 <= i < r.strides.len() implies isize::MIN <= #[trigger] r.strides[i]
        <= isize::MAX by {
        if i < n {
            assert(r.strides[i] == m.strides[i]);
        }
    }
    assert forall|k: int| 0 <= k < r.len() implies #[trigger] r.linear(k) == m.linear(k) by {
        let u = unravel(m.dims, k);
        let v = unravel(r.dims, k);
        let t = dot_terms(u, m.strides);
        let w = dot_terms(v, r.strides);
        assert(w.remove(n) =~= t) by {
            assert forall|i: int| 0 <= i < n implies w[i] == t[i] by {
                lemma_prod_from_remove(r.dims, n, i + 1);
                assert(prod_from(m.dims, i + 1) * 1 == prod_from(m.dims, i + 1));
                assert(r.dims[i] == m.dims[i]);
                assert(r.strides[i] == m.strides[i]);
            }
        }
        lemma_sum_from_remove(w, n, 0);
        assert(v[n] == 0) by {
            lemma_mod_bound(k / prod_from(r.dims, n + 1), 1);
        }
        assert(w[n] == 0) by {
            assert(0 * r.strides[n] == 0);
        }
    }
}

/// Dropping the axes of extent one keeps every element where it is, and
/// leaves no such axis from `a` on.
pub proof fn lemma_strip_from(m: MappingView, a: int)
    requires
        m.wf(),
        m.len() > 0,
        0 <= a,
    ensures
        m.strip_from(a).wf(),
        m.strip_from(a).len() > 0,
        m.strip_from(a).same_elements(m),
    decreases m.rank() - a,
{
    if a < m.rank() {
        if m.dims[a] == 1 {
            lemma_drop_unit_axis(m, a);
            lemma_strip_from(m.axis_at(a, 0), a);
            lemma_same_elements_chain(m.strip_from(a), m.axis_at(a, 0), m);
        } else {
            lemma_strip_from(m, a + 1);
        }
    }
}

/// Having the same elements carries over from mapping to mapping.
pub proof fn lemma_same_elements_chain(x: MappingView, y: MappingView, z: MappingView)
    requires
        x.same_elements(y),
        y.same_elements(z),
    ensures
        x.same_elements(z),
{
}

/// Regrouping keeps every element where it is, and gives a mapping of the
/// shape asked for into the same memory.
pub proof fn lemma_regroup_from(m: MappingView, dims: Seq<int>, a: int)
    requires
        m.wf(),
        m.len() > 0,
        0 <= a <= m.rank(),
        a <= dims.len(),
        forall|i: int| 0 <= i < a ==> m.dims[i] == dims[i],
        m.regroup_from(dims, a) is Some,
    ensures
        m.regroup_from(dims, a)->0.wf(),
        m.regroup_from(dims, a)->0.same_elements(m),
        m.regroup_from(dims, a)->0.dims == dims,
    decreases dims.len() - a, m.rank() - a,
{
    let r = m.regroup_from(dims, a)->0;
    lemma_nonempty_shape(m.dims);
    if a >= dims.len() {
        assert(m.dims =~= dims);
    } else if a >= m.rank() {
        let next = m.append_unit();
        lemma_append_unit(m);
        assert forall|i: int| 0 <= i < a + 1 implies next.dims[i] == dims[i] by {
            if i < a {
                assert(next.dims[i] == m.dims[i]);
            }
        }
        lemma_regroup_from(next, dims, a + 1);
        lemma_same_elements_chain(r, next, m);
    } else if dims[a] == m.dims[a] {
        lemma_regroup_from(m, dims, a + 1);
    } else if dims[a] >= 1 && m.dims[a] % dims[a] == 0 {
        let d = m.dims[a];
        let want = dims[a];
        let inner = d / want;
        lemma_fundamental_div_mod(d, want);
        assert(d == want * inner);
        assert(inner > 0) by (nonlinear_arith)
            requires
                d == want * inner,
                d > 0,
                want > 0,
        ;
        vstd::arithmetic::div_mod::lemma_fundamental_div_mod_converse(d, inner, want, 0);
        let next = m.split_axis(a, inner);
        lemma_split_axis(m, a, inner);
        assert forall|i: int| 0 <= i < a + 1 implies next.dims[i] == dims[i] by {
            if i < a {
                assert(next.dims[i] == m.dims[i]);
            }
        }
        lemma_regroup_from(next, dims, a + 1);
        lemma_same_elements_chain(r, next, m);
    } else {
        let next = m.merge(a);
        lemma_merge(m, a);
        assert forall|i: int| 0 <= i < a implies next.dims[i] == dims[i] by {
            assert(next.dims[i] == m.dims[i]);
        }
        lemma_regroup_from(next, dims, a);
        lemma_same_elements_chain(r, next, m);
    }
}

/// Regrouping from the first axis on, after the axes of extent one are
/// dropped, keeps every element where it is.
pub proof fn lemma_regroup(m: MappingView, dims: Seq<int>)
    requires
        m.wf(),
        m.len() > 0,
        m.regroup(dims) is Some,
    ensures
        m.regroup(dims)->0.wf(),
        m.regroup(dims)->0.same_elements(m),
        m.regroup(dims)->0.dims == dims,
{
    lemma_strip_from(m, 0);
    lemma_regroup_from(m.strip_from(0), dims, 0);
    lemma_same_elements_chain(m.regroup(dims)->0, m.strip_from(0), m);
}

} // verus!
