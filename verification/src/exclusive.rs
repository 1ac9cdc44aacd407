//! Exclusive mappings: those in which no two index tuples name the same
//! position in memory, so that assigning one element leaves the others.
use vstd::prelude::*;
use crate::diagonal::{diag_col, diag_row, lemma_diag_offset};
use crate::geometry::MappingView;
use crate::index::{lemma_ravel_unravel, lemma_unravel_ravel, lemma_unravel_valid, ravel, unravel};
use crate::shape::lemma_nonempty_shape;
use crate::sums::{is_permutation, permuted};
use crate::transform::{
    is_inverse_order, lemma_axis_at_offset, lemma_permute_offset, lemma_permuted_inverse,
    lemma_split_offset,
};

verus! {

impl MappingView {
    /// No two index tuples name the same position in memory.
    pub open spec fn exclusive(self) -> bool {
        forall|a: Seq<int>, b: Seq<int>|
            #![trigger self.valid(a), self.valid(b)]
            self.valid(a) && self.valid(b) && self.offset(a) == self.offset(b) ==> a == b
    }
}

/// In an exclusive mapping the elements at two positions of the row-major
/// order lie at two positions in memory.
pub proof fn lemma_linear_injective(m: MappingView, j: int, k: int)
    requires
        m.wf(),
        m.exclusive(),
        0 <= j < m.len(),
        0 <= k < m.len(),
        m.linear(j) == m.linear(k),
    ensures
        j == k,
{
    lemma_unravel_valid(m.dims, j);
    lemma_unravel_valid(m.dims, k);
    assert(m.valid(unravel(m.dims, j)) && m.valid(unravel(m.dims, k)));
    lemma_ravel_unravel(m.dims, j);
    lemma_ravel_unravel(m.dims, k);
}

/// Contiguous memory is exclusive.
pub proof fn lemma_contiguous_exclusive(m: MappingView)
    requires
        m.is_contiguous(),
    ensures
        m.exclusive(),
{
    assert forall|a: Seq<int>, b: Seq<int>|
        #![trigger m.valid(a), m.valid(b)]
        m.valid(a) && m.valid(b) && m.offset(a) == m.offset(b) implies a == b by {
        lemma_unravel_ravel(m.dims, a);
        lemma_unravel_ravel(m.dims, b);
        assert(ravel(m.dims, a) == ravel(m.dims, b));
    }
}

/// A sub-array of an exclusive mapping is exclusive.
pub proof fn lemma_axis_at_exclusive(m: MappingView, axis: int, index: int)
    requires
        m.strides.len() == m.dims.len(),
        m.exclusive(),
        0 <= axis < m.rank(),
        0 <= index < m.dims[axis],
    ensures
        m.axis_at(axis, index).exclusive(),
{
    let r = m.axis_at(axis, index);
    assert forall|a: Seq<int>, b: Seq<int>|
        #![trigger r.valid(a), r.valid(b)]
        r.valid(a) && r.valid(b) && r.offset(a) == r.offset(b) implies a == b by {
        lemma_axis_at_offset(m, axis, index, a);
        lemma_axis_at_offset(m, axis, index, b);
        let fa = a.insert(axis, index);
        let fb = b.insert(axis, index);
        assert(m.valid(fa) && m.valid(fb));
        assert(fa == fb);
        assert(a =~= fa.remove(axis));
        assert(b =~= fb.remove(axis));
    }
}

/// Both parts of a split of an exclusive mapping are exclusive.
pub proof fn lemma_split_exclusive(m: MappingView, axis: int, mid: int)
    requires
        m.strides.len() == m.dims.len(),
        m.exclusive(),
        0 <= axis < m.rank(),
        0 <= mid <= m.dims[axis],
    ensures
        m.split_first(axis, mid).exclusive(),
        m.split_second(axis, mid).exclusive(),
{
    let first = m.split_first(axis, mid);
    let second = m.split_second(axis, mid);
    assert forall|a: Seq<int>, b: Seq<int>|
        #![trigger first.valid(a), first.valid(b)]
        first.valid(a) && first.valid(b) && first.offset(a) == first.offset(b) implies a == b by {
        lemma_split_offset(m, axis, mid, a);
        lemma_split_offset(m, axis, mid, b);
        assert(m.valid(a) && m.valid(b));
    }
    assert forall|a: Seq<int>, b: Seq<int>|
        #![trigger second.valid(a), second.valid(b)]
        second.valid(a) && second.valid(b) && second.offset(a) == second.offset(b) implies a
        == b by {
        lemma_split_offset(m, axis, mid, a);
        lemma_split_offset(m, axis, mid, b);
        let fa = a.update(axis, a[axis] + mid);
        let fb = b.update(axis, b[axis] + mid);
        assert(m.valid(fa) && m.valid(fb));
        assert(fa == fb);
        assert(a =~= fa.update(axis, fa[axis] - mid));
        assert(b =~= fb.update(axis, fb[axis] - mid));
    }
}

/// The order that undoes the permutation `p`.
pub open spec fn inverse_order(p: Seq<int>) -> Seq<int> {
    Seq::new(p.len(), |v: int| choose|j: int| 0 <= j < p.len() && p[j] == v)
}

/// The inverse order of a permutation undoes it.
pub proof fn lemma_inverse_order(p: Seq<int>)
    requires
        is_permutation(p),
    ensures
        is_inverse_order(p, inverse_order(p)),
        is_permutation(inverse_order(p)),
        is_inverse_order(inverse_order(p), p),
{
    let q = inverse_order(p);
    assert forall|i: int| 0 <= i < p.len() implies 0 <= #[trigger] p[i] < p.len() && q[p[i]]
        == i by {
        let v = p[i];
        assert(0 <= v < p.len());
        let j = choose|j: int| 0 <= j < p.len() && p[j] == v;
        assert(p[j] == p[i]);
        if j < i {
            assert(p[j] != p[i]);
        } else if i < j {
            assert(p[i] != p[j]);
        }
    }
    lemma_permuted_inverse(p, p, q);
}

/// A permutation of the axes of an exclusive mapping is exclusive.
pub proof fn lemma_permute_exclusive(m: MappingView, p: Seq<int>)
    requires
        m.strides.len() == m.dims.len(),
        m.exclusive(),
        is_permutation(p),
        p.len() == m.rank(),
    ensures
        m.permute(p).exclusive(),
{
    let r = m.permute(p);
    let q = inverse_order(p);
    lemma_inverse_order(p);
    assert forall|a: Seq<int>, b: Seq<int>|
        #![trigger r.valid(a), r.valid(b)]
        r.valid(a) && r.valid(b) && r.offset(a) == r.offset(b) implies a == b by {
        let sa = permuted(a, q);
        let sb = permuted(b, q);
        lemma_permuted_inverse(a, q, p);
        lemma_permuted_inverse(b, q, p);
        assert forall|i: int| 0 <= i < m.dims.len() implies 0 <= #[trigger] sa[i] < m.dims[i]
            && 0 <= sb[i] < m.dims[i] by {
            assert(0 <= q[i] < q.len() && p[q[i]] == i);
            assert(0 <= a[q[i]] < r.dims[q[i]]);
            assert(0 <= b[q[i]] < r.dims[q[i]]);
        }
        lemma_permute_offset(m, p, sa);
        lemma_permute_offset(m, p, sb);
        assert(m.valid(sa) && m.valid(sb));
        assert(sa == sb);
    }
}

/// A diagonal of an exclusive mapping is exclusive.
pub proof fn lemma_diag_exclusive(m: MappingView, k: int)
    requires
        m.strides.len() == m.dims.len(),
        m.exclusive(),
        m.has_diag(k),
    ensures
        m.diag(k).exclusive(),
{
    let r = m.diag(k);
    assert forall|a: Seq<int>, b: Seq<int>|
        #![trigger r.valid(a), r.valid(b)]
        r.valid(a) && r.valid(b) && r.offset(a) == r.offset(b) implies a == b by {
        assert(0 <= a[0] < r.dims[0] && 0 <= b[0] < r.dims[0]);
        lemma_diag_offset(m, k, a[0]);
        lemma_diag_offset(m, k, b[0]);
        assert(a =~= seq![a[0]]);
        assert(b =~= seq![b[0]]);
        let fa = seq![diag_row(k) + a[0], diag_col(k) + a[0]];
        let fb = seq![diag_row(k) + b[0], diag_col(k) + b[0]];
        assert(m.valid(fa) && m.valid(fb));
        assert(fa == fb);
        assert(fa[0] == fb[0]);
    }
}

/// Reshaping an exclusive mapping gives an exclusive mapping.
pub proof fn lemma_reshape_exclusive(m: MappingView, dims: Seq<int>)
    requires
        m.wf(),
        m.exclusive(),
        m.can_reshape(dims),
    ensures
        m.reshape(dims).exclusive(),
{
    let r = m.reshape(dims);
    if dims != m.dims {
        crate::reshape::lemma_reshape_wf(m, dims);
        assert forall|a: Seq<int>, b: Seq<int>|
            #![trigger r.valid(a), r.valid(b)]
            r.valid(a) && r.valid(b) && r.offset(a) == r.offset(b) implies a == b by {
            assert(r.dims == dims);
            crate::geometry::lemma_valid_nonempty(dims, a);
            lemma_nonempty_shape(m.dims);
            lemma_unravel_ravel(dims, a);
            lemma_unravel_ravel(dims, b);
            let j = ravel(dims, a);
            let k = ravel(dims, b);
            crate::reshape::lemma_reshape_linear(m, dims, j);
            crate::reshape::lemma_reshape_linear(m, dims, k);
            assert(r.linear(j) == r.offset(a));
            assert(r.linear(k) == r.offset(b));
            lemma_linear_injective(m, j, k);
        }
    }
}

} // verus!
