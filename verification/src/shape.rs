//! Shapes: the extents of an array along each of its axes.
use vstd::prelude::*;
use crate::dim::Dim;
use crate::reshape::{first_inferred, infer_dims, lemma_first_inferred};
use crate::sums::{
    is_permutation, lemma_prod_from_monotonic, lemma_prod_from_nonnegative,
    lemma_prod_from_positive, lemma_prod_from_remove, lemma_product_permuted,
    lemma_product_update, permuted, prod_from, product,
};

verus! {

/// The extents in `s` as mathematical integers.
pub open spec fn ints(s: Seq<usize>) -> Seq<int> {
    Seq::new(s.len(), |i: int| s[i] as int)
}

/// The signed values in `s` as mathematical integers.
pub open spec fn signed_ints(s: Seq<isize>) -> Seq<int> {
    Seq::new(s.len(), |i: int| s[i] as int)
}

/// The extents with every empty axis counted as one position.
pub open spec fn clipped(dims: Seq<int>) -> Seq<int> {
    Seq::new(dims.len(), |i: int| if dims[i] <= 0 { 1 } else { dims[i] })
}

/// The number of index tuples of a shape: the product of its extents.
pub open spec fn shape_len(dims: Seq<int>) -> int {
    product(dims)
}

/// The distance between neighbours along axis `i` in contiguous row-major
/// memory: the product of the extents after `i`.
pub open spec fn dense_stride(dims: Seq<int>, i: int) -> int {
    prod_from(dims, i + 1)
}

/// The strides of contiguous row-major memory for `dims`.
pub open spec fn dense_strides(dims: Seq<int>) -> Seq<int> {
    Seq::new(dims.len(), |i: int| dense_stride(dims, i))
}

/// A shape can be represented when no extent is negative and its size,
/// counting empty axes as one position, fits in `isize`.
pub open spec fn shape_fits(dims: Seq<int>) -> bool {
    &&& forall|i: int| 0 <= i < dims.len() ==> #[trigger] dims[i] >= 0
    &&& product(clipped(dims)) <= isize::MAX
}

/// Between non-negative sequences, entrywise smaller factors give the
/// smaller product.
pub proof fn lemma_prod_from_le(a: Seq<int>, b: Seq<int>, j: int)
    requires
        a.len() == b.len(),
        0 <= j,
        forall|i: int| j <= i < a.len() ==> 0 <= #[trigger] a[i] <= b[i],
    ensures
        0 <= prod_from(a, j) <= prod_from(b, j),
    decreases a.len() - j,
{
    if j < a.len() {
        lemma_prod_from_le(a, b, j + 1);
        let x = prod_from(a, j + 1);
        let y = prod_from(b, j + 1);
        assert(0 <= a[j] * x <= b[j] * y) by (nonlinear_arith)
            requires
                0 <= a[j] <= b[j],
                0 <= x <= y,
        ;
    }
}

/// What a representable shape bounds: every extent, every suffix product and
/// hence every contiguous stride and the length lie between 0 and
/// `isize::MAX`.
pub proof fn lemma_shape_fits_bounds(dims: Seq<int>, j: int)
    requires
        shape_fits(dims),
        0 <= j,
    ensures
        0 <= prod_from(dims, j) <= prod_from(clipped(dims), j) <= isize::MAX,
        1 <= prod_from(clipped(dims), j),
        j < dims.len() ==> 0 <= dims[j] <= isize::MAX,
{
    let c = clipped(dims);
    lemma_prod_from_le(dims, c, j);
    lemma_prod_from_monotonic(c, 0, j);
    if j < dims.len() {
        lemma_prod_from_monotonic(c, 0, j + 1);
        let rest = prod_from(c, j + 1);
        assert(c[j] * rest >= c[j]) by (nonlinear_arith)
            requires
                c[j] >= 1,
                rest >= 1,
        ;
        assert(dims[j] <= c[j]);
    }
}

/// A shape has an index tuple exactly when no axis is empty, and then
/// clipping changes nothing.
pub proof fn lemma_nonempty_shape(dims: Seq<int>)
    requires
        forall|i: int| 0 <= i < dims.len() ==> #[trigger] dims[i] >= 0,
    ensures
        shape_len(dims) >= 0,
        shape_len(dims) > 0 <==> (forall|i: int| 0 <= i < dims.len() ==> #[trigger] dims[i] > 0),
        shape_len(dims) > 0 ==> clipped(dims) == dims,
{
    lemma_prod_from_nonnegative(dims, 0);
    if forall|i: int| 0 <= i < dims.len() ==> #[trigger] dims[i] > 0 {
        lemma_prod_from_positive(dims, 0);
        assert(clipped(dims) =~= dims);
    }
}

/// Removing an axis of a representable shape leaves a representable shape,
/// whose length times the removed extent is the old length.
pub proof fn lemma_remove_axis_fits(dims: Seq<int>, axis: int)
    requires
        shape_fits(dims),
        0 <= axis < dims.len(),
    ensures
        shape_fits(dims.remove(axis)),
        shape_len(dims.remove(axis)) * dims[axis] == shape_len(dims),
        product(clipped(dims.remove(axis))) * clipped(dims)[axis] == product(clipped(dims)),
{
    let c = clipped(dims);
    let r = dims.remove(axis);
    assert(clipped(r) =~= c.remove(axis));
    lemma_prod_from_remove(c, axis, 0);
    lemma_prod_from_remove(dims, axis, 0);
    lemma_prod_from_positive(c.remove(axis), 0);
    let x = product(c.remove(axis));
    assert(x <= x * c[axis]) by (nonlinear_arith)
        requires
            x >= 1,
            c[axis] >= 1,
    ;
    assert forall|i: int| 0 <= i < r.len() implies #[trigger] r[i] >= 0 by {
        if i < axis {
            assert(r[i] == dims[i]);
        } else {
            assert(r[i] == dims[i + 1]);
        }
    }
}

/// Shrinking one extent of a representable shape leaves a representable
/// shape.
pub proof fn lemma_resize_axis_fits(dims: Seq<int>, axis: int, d: int)
    requires
        shape_fits(dims),
        0 <= axis < dims.len(),
        0 <= d <= dims[axis],
    ensures
        shape_fits(dims.update(axis, d)),
        shape_len(dims.update(axis, d)) == shape_len(dims.remove(axis)) * d,
{
    let c = clipped(dims);
    let u = dims.update(axis, d);
    let cd = if d <= 0 { 1 } else { d };
    assert(clipped(u) =~= c.update(axis, cd));
    lemma_product_update(c, axis, cd);
    lemma_product_update(dims, axis, d);
    lemma_prod_from_positive(c.remove(axis), 0);
    let x = product(c.remove(axis));
    assert(x * cd <= x * c[axis]) by (nonlinear_arith)
        requires
            x >= 1,
            1 <= cd <= c[axis],
    ;
}

/// The extents of an array, one per axis, outermost first.
pub struct Shape {
    dims: Vec<usize>,
}

impl View for Shape {
    type V = Seq<int>;

    closed spec fn view(&self) -> Seq<int> {
        ints(self.dims@)
    }
}

impl Shape {
    /// Whether the shape is one this library can hold: see [`shape_fits`].
    pub open spec fn wf(&self) -> bool {
        shape_fits(self@)
    }

    /// The number of axes.
    pub open spec fn spec_rank(&self) -> int {
        self@.len() as int
    }

    /// The number of elements: the product of the extents.
    pub open spec fn spec_len(&self) -> int {
        shape_len(self@)
    }

    /// Builds a shape from its extents, or nothing where the size would not
    /// fit in `isize`.
    pub fn new(dims: &[usize]) -> (r: Option<Shape>)
        ensures
            r is Some <==> shape_fits(ints(dims@)),
            r is Some ==> r->0@ == ints(dims@) && r->0.wf(),
    {
        let ghost d = ints(dims@);
        let ghost c = clipped(d);
        let n = dims.len();
        let out = copy_extents(dims);
        let mut acc: usize = 1;
        let mut k: usize = n;
        while k > 0
            invariant
                k <= n,
                n == dims@.len(),
                d == ints(dims@),
                c == clipped(d),
                acc == prod_from(c, k as int),
                1 <= acc <= isize::MAX,
            decreases k,
        {
            k -= 1;
            let e: usize = if dims[k] == 0 { 1 } else { dims[k] };
            assert(e == c[k as int]);
            let next = acc.checked_mul(e);
            proof {
                assert(prod_from(c, k as int) == c[k as int] * prod_from(c, k as int + 1));
                assert(e * acc == acc * e) by (nonlinear_arith);
                assert(e * acc >= 1) by (nonlinear_arith)
                    requires
                        e >= 1,
                        acc >= 1,
                ;
            }
            match next {
                Some(v) => {
                    if v > isize::MAX as usize {
                        proof {
                            lemma_prod_from_monotonic(c, 0, k as int);
                        }
                        return None;
                    }
                    acc = v;
                },
                None => {
                    proof {
                        lemma_prod_from_monotonic(c, 0, k as int);
                    }
                    return None;
                },
            }
        }
        let r = Shape { dims: out };
        assert(r@ == d);
        Some(r)
    }

    /// The shape with one more axis, of extent `dim`, after the others; or
    /// nothing where the size would not fit in `isize`.
    pub fn append<D: Dim>(&self, dim: &D) -> (r: Option<Shape>)
        ensures
            r is Some <==> shape_fits(self@.push(dim.spec_size())),
            r is Some ==> r->0@ == self@.push(dim.spec_size()) && r->0.wf(),
    {
        let mut dims = copy_extents(self.dims.as_slice());
        dims.push(dim.size());
        assert(ints(dims@) =~= self@.push(dim.spec_size()));
        Shape::new(dims.as_slice())
    }

    /// The number of axes.
    pub fn rank(&self) -> (r: usize)
        ensures
            r == self.spec_rank(),
    {
        self.dims.len()
    }

    /// The extent of axis `index`.
    pub fn dim(&self, index: usize) -> (r: usize)
        requires
            index < self.spec_rank(),
        ensures
            r == self@[index as int],
    {
        self.dims[index]
    }

    /// The extents of all axes, outermost first.
    pub fn dims(&self) -> (r: &[usize])
        ensures
            ints(r@) == self@,
    {
        self.dims.as_slice()
    }

    /// The number of elements.
    pub fn len(&self) -> (r: usize)
        requires
            self.wf(),
        ensures
            r == self.spec_len(),
    {
        let n = self.dims.len();
        let mut acc: usize = 1;
        let mut k: usize = n;
        while k > 0
            invariant
                k <= n,
                n == self.dims@.len(),
                self.wf(),
                acc == prod_from(self@, k as int),
            decreases k,
        {
            k -= 1;
            proof {
                lemma_shape_fits_bounds(self@, k as int);
                assert(prod_from(self@, k as int) == self@[k as int] * prod_from(self@, k as int + 1));
            }
            acc = self.dims[k] * acc;
        }
        acc
    }

    /// Whether the shape has no elements.
    pub fn is_empty(&self) -> (r: bool)
        requires
            self.wf(),
        ensures
            r <==> self.spec_len() == 0,
    {
        self.len() == 0
    }
    /// The shape without axis `axis`.
    pub fn remove_axis(&self, axis: usize) -> (r: Shape)
        requires
            self.wf(),
            axis < self.spec_rank(),
        ensures
            r.wf(),
            r@ == self@.remove(axis as int),
    {
        let mut dims = copy_extents(self.dims.as_slice());
        dims.remove(axis);
        proof {
            lemma_remove_axis_fits(self@, axis as int);
            assert(ints(dims@) =~= self@.remove(axis as int));
        }
        Shape { dims }
    }

    /// The shape with the extent of axis `axis` shrunk to `d`.
    pub fn resize_axis(&self, axis: usize, d: usize) -> (r: Shape)
        requires
            self.wf(),
            axis < self.spec_rank(),
            d <= self@[axis as int],
        ensures
            r.wf(),
            r@ == self@.update(axis as int, d as int),
    {
        let mut dims = copy_extents(self.dims.as_slice());
        dims[axis] = d;
        proof {
            lemma_resize_axis_fits(self@, axis as int, d as int);
            assert(ints(dims@) =~= self@.update(axis as int, d as int));
        }
        Shape { dims }
    }

    /// The shape with the axes in the order `order`.
    pub fn permute(&self, order: &[usize]) -> (r: Shape)
        requires
            self.wf(),
            is_permutation(ints(order@)),
            order@.len() == self.spec_rank(),
        ensures
            r.wf(),
            r@ == permuted(self@, ints(order@)),
    {
        let n = order.len();
        let ghost p = ints(order@);
        let mut dims: Vec<usize> = Vec::new();
        let mut i: usize = 0;
        while i < n
            invariant
                i <= n,
                n == order@.len(),
                n == self.dims@.len(),
                p == ints(order@),
                is_permutation(p),
                dims@.len() == i,
                forall|j: int| 0 <= j < i ==> dims@[j] == self.dims@[p[j]],
            decreases n - i,
        {
            assert(0 <= p[i as int] < p.len());
            dims.push(self.dims[order[i]]);
            i += 1;
        }
        proof {
            assert(ints(dims@) =~= permuted(self@, p));
            assert(clipped(permuted(self@, p)) =~= permuted(clipped(self@), p));
            lemma_product_permuted(clipped(self@), p);
            assert forall|j: int| 0 <= j < n implies #[trigger] permuted(self@, p)[j] >= 0 by {
                assert(0 <= p[j] < p.len());
            }
        }
        Shape { dims }
    }
}

/// A copy of the extents in `dims`.
pub fn copy_extents(dims: &[usize]) -> (r: Vec<usize>)
    ensures
        r@ == dims@,
{
    let n = dims.len();
    let mut out: Vec<usize> = Vec::new();
    let mut i: usize = 0;
    while i < n
        invariant
            i <= n,
            n == dims@.len(),
            out@ == dims@.subrange(0, i as int),
        decreases n - i,
    {
        out.push(dims[i]);
        assert(out@ =~= dims@.subrange(0, i as int + 1));
        i += 1;
    }
    assert(out@ =~= dims@);
    out
}

/// The extents that `dims` asks for in an array of `len` elements, with the
/// extent written as `usize::MAX` inferred, or nothing where it cannot be:
/// see [`infer_dims`].
pub fn resolve_extents(dims: &[usize], len: usize) -> (r: Option<Vec<usize>>)
    ensures
        r is Some <==> infer_dims(ints(dims@), len as int) is Some,
        r is Some ==> Some(ints(r->0@)) == infer_dims(ints(dims@), len as int),
{
    let ghost d = ints(dims@);
    let n = dims.len();
    let mut a: usize = 0;
    proof {
        lemma_first_inferred(d, 0);
    }
    while a < n && dims[a] != usize::MAX
        invariant
            a <= n,
            n == dims@.len(),
            d == ints(dims@),
            first_inferred(d, 0) == first_inferred(d, a as int),
        decreases n - a,
    {
        a += 1;
    }
    let mut out = copy_extents(dims);
    if a == n {
        return Some(out);
    }
    let mut b: usize = a + 1;
    while b < n && dims[b] != usize::MAX
        invariant
            a < b <= n,
            n == dims@.len(),
            d == ints(dims@),
            first_inferred(d, a as int + 1) == first_inferred(d, b as int),
        decreases n - b,
    {
        b += 1;
    }
    if b < n {
        return None;
    }
    let mut others = copy_extents(dims);
    others.remove(a);
    let ghost t = d.remove(a as int);
    assert(ints(others@) =~= t);
    let m = others.len();
    let mut acc: usize = 1;
    let mut k: usize = m;
    assert(first_inferred(d, 0) == a);
    while k > 0
        invariant
            k <= m,
            m == others@.len(),
            t == ints(others@),
            t == d.remove(a as int),
            d == ints(dims@),
            a < d.len(),
            first_inferred(d, 0) == a,
            acc == prod_from(t, k as int),
        decreases k,
    {
        k -= 1;
        match acc.checked_mul(others[k]) {
            Some(v) => {
                assert(v == t[k as int] * prod_from(t, k as int + 1)) by (nonlinear_arith)
                    requires
                        v == acc * others@[k as int],
                        acc == prod_from(t, k as int + 1),
                        t[k as int] == others@[k as int],
                ;
                acc = v;
            },
            None => {
                proof {
                    lemma_prod_from_nonnegative(t, 0);
                    if product(t) > 0 {
                        lemma_prod_from_monotonic(t, 0, k as int);
                        assert(prod_from(t, k as int) == t[k as int] * prod_from(t, k as int + 1));
                        assert(t[k as int] * acc == acc * others@[k as int]) by (nonlinear_arith)
                            requires
                                t[k as int] == others@[k as int],
                        ;
                    }
                }
                return None;
            },
        }
    }
    if acc == 0 || len % acc != 0 {
        return None;
    }
    out[a] = len / acc;
    assert(ints(out@) =~= d.update(a as int, (len as int) / (acc as int)));
    Some(out)
}

} // verus!
