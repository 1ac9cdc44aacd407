//! Mappings: from index tuples to positions in the memory behind an array.
use vstd::prelude::*;
use crate::broadcast::{broadcasts_to, common_shape, compatible, lemma_broadcast_wf};
use crate::diagonal::lemma_diag_wf;
use crate::geometry::{
    dot_terms, hi_terms, lemma_base_in_range, lemma_dense_reach, lemma_dot_bounds,
    lemma_reach_monotonic, lemma_valid_nonempty, lo_terms, MappingView,
};
use crate::lanes::lemma_lane_wf;
use crate::layout::Layout;
use crate::shape::{
    dense_stride, dense_strides, ints, lemma_nonempty_shape, lemma_shape_fits_bounds, shape_fits,
    shape_len, signed_ints, Shape,
};
use crate::index::{digit, lemma_unravel_valid, unravel};
use crate::regroup::{
    lemma_append_unit, lemma_drop_unit_axis, lemma_merge, lemma_regroup, lemma_split_axis,
    lemma_split_axis_wf,
};
use crate::reshape::{
    lemma_contiguous_uniform, lemma_reshape_wf, lemma_uniform_linear, representable,
    scaled_strides,
};
use crate::sums::{is_permutation, permuted, prod_from, sum_from};
use crate::transform::{
    identity_order, lemma_axis_at_wf, lemma_permute_wf, lemma_split_wf, lemma_standard_orders,
    reversed_order,
};

verus! {

/// A shape together with the strides, the base position and the length of
/// the memory that place its elements.
///
/// Strides are stored only for the strided layout; a dense mapping derives
/// them from its shape.
pub struct Mapping {
    shape: Shape,
    strides: Option<Vec<isize>>,
    base: usize,
    limit: usize,
}

impl View for Mapping {
    type V = MappingView;

    closed spec fn view(&self) -> MappingView {
        MappingView {
            dims: self.shape@,
            strides: match self.strides {
                Some(s) => signed_ints(s@),
                None => dense_strides(self.shape@),
            },
            layout: match self.strides {
                Some(_) => Layout::Strided,
                None => Layout::Dense,
            },
            base: self.base as int,
            limit: self.limit as int,
        }
    }
}

impl Mapping {
    /// The invariant of a mapping: see [`MappingView::wf`].
    pub open spec fn wf(&self) -> bool {
        self@.wf()
    }

    /// The dense mapping of `shape` onto memory of exactly its length.
    pub fn dense(shape: Shape) -> (r: Mapping)
        requires
            shape.wf(),
        ensures
            r.wf(),
            r@ == (MappingView {
                dims: shape@,
                strides: dense_strides(shape@),
                layout: Layout::Dense,
                base: 0,
                limit: shape_len(shape@),
            }),
    {
        let limit = shape.len();
        proof {
            lemma_dense_reach(shape@, 0);
            lemma_shape_fits_bounds(shape@, 0);
            lemma_nonempty_shape(shape@);
            assert forall|i: int| 0 <= i < shape@.len() implies isize::MIN <= #[trigger] dense_strides(
                shape@,
            )[i] <= isize::MAX by {
                lemma_shape_fits_bounds(shape@, i + 1);
            }
        }
        Mapping { shape, strides: None, base: 0, limit }
    }

    /// The shape.
    pub fn shape(&self) -> (r: &Shape)
        ensures
            r@ == self@.dims,
    {
        &self.shape
    }

    /// The layout.
    pub fn layout(&self) -> (r: Layout)
        ensures
            r == self@.layout,
    {
        match &self.strides {
            Some(_) => Layout::Strided,
            None => Layout::Dense,
        }
    }

    /// The position in memory of the element whose indices are all zero.
    pub fn base(&self) -> (r: usize)
        ensures
            r == self@.base,
    {
        self.base
    }

    /// The number of elements of the memory behind the mapping.
    pub fn limit(&self) -> (r: usize)
        ensures
            r == self@.limit,
    {
        self.limit
    }

    /// The number of axes.
    pub fn rank(&self) -> (r: usize)
        ensures
            r == self@.rank(),
    {
        self.shape.rank()
    }

    /// The extent of axis `index`.
    pub fn dim(&self, index: usize) -> (r: usize)
        requires
            index < self@.rank(),
        ensures
            r == self@.dims[index as int],
    {
        self.shape.dim(index)
    }

    /// The extents of all axes, outermost first.
    pub fn dims(&self) -> (r: &[usize])
        ensures
            ints(r@) == self@.dims,
    {
        self.shape.dims()
    }

    /// The number of elements.
    pub fn len(&self) -> (r: usize)
        requires
            self.wf(),
        ensures
            r == self@.len(),
    {
        self.shape.len()
    }

    /// Whether the mapping has no elements.
    pub fn is_empty(&self) -> (r: bool)
        requires
            self.wf(),
        ensures
            r <==> self@.len() == 0,
    {
        self.shape.is_empty()
    }

    /// The distance in memory between neighbours along axis `index`.
    pub fn stride(&self, index: usize) -> (r: isize)
        requires
            self.wf(),
            index < self@.rank(),
        ensures
            r == self@.strides[index as int],
    {
        match &self.strides {
            Some(s) => s[index],
            None => {
                let n = self.shape.rank();
                let mut acc: usize = 1;
                let mut k: usize = n;
                while k > index + 1
                    invariant
                        index < k <= n,
                        n == self.shape@.len(),
                        self.shape.wf(),
                        acc == prod_from(self.shape@, k as int),
                    decreases k,
                {
                    k -= 1;
                    proof {
                        lemma_shape_fits_bounds(self.shape@, k as int);
                    }
                    acc = self.shape.dim(k) * acc;
                }
                proof {
                    lemma_shape_fits_bounds(self.shape@, index as int + 1);
                }
                acc as isize
            },
        }
    }

    /// The strides of all axes, outermost first; derived from the shape for
    /// a dense mapping.
    pub fn strides(&self) -> (r: Vec<isize>)
        requires
            self.wf(),
        ensures
            signed_ints(r@) == self@.strides,
    {
        let n = self.shape.rank();
        let mut out: Vec<isize> = Vec::new();
        match &self.strides {
            Some(s) => {
                let mut i: usize = 0;
                while i < n
                    invariant
                        i <= n,
                        n == s@.len(),
                        out@ == s@.subrange(0, i as int),
                    decreases n - i,
                {
                    out.push(s[i]);
                    assert(out@ =~= s@.subrange(0, i as int + 1));
                    i += 1;
                }
                assert(out@ =~= s@);
            },
            None => {
                let mut i: usize = 0;
                while i < n
                    invariant
                        i <= n,
                        n == self.shape@.len(),
                        self.wf(),
                        self.strides is None,
                        out@.len() == i,
                        forall|j: int| 0 <= j < i ==> out@[j] == dense_stride(self.shape@, j),
                    decreases n - i,
                {
                    let s = self.stride(i);
                    out.push(s);
                    i += 1;
                }
                assert(signed_ints(out@) =~= dense_strides(self.shape@));
            },
        }
        out
    }

    /// Whether the strides are those of contiguous row-major memory.
    pub fn is_contiguous(&self) -> (r: bool)
        requires
            self.wf(),
        ensures
            r <==> self@.is_contiguous(),
    {
        match &self.strides {
            None => true,
            Some(s) => {
                let n = self.shape.rank();
                let mut acc: usize = 1;
                let mut k: usize = n;
                while k > 0
                    invariant
                        k <= n,
                        n == self.shape@.len(),
                        n == s@.len(),
                        self.shape.wf(),
                        self@.strides == signed_ints(s@),
                        self@.dims == self.shape@,
                        acc == prod_from(self.shape@, k as int),
                        forall|j: int| k <= j < n ==> s@[j] == dense_stride(self.shape@, j),
                    decreases k,
                {
                    k -= 1;
                    proof {
                        lemma_shape_fits_bounds(self.shape@, k as int);
                        lemma_shape_fits_bounds(self.shape@, k as int + 1);
                    }
                    if s[k] != acc as isize {
                        assert(self@.strides[k as int] != dense_strides(self@.dims)[k as int]);
                        return false;
                    }
                    acc = self.shape.dim(k) * acc;
                }
                assert(signed_ints(s@) =~= dense_strides(self.shape@));
                true
            },
        }
    }

    /// Whether `index` names an element: it has one entry per axis, each
    /// below the extent of its axis.
    pub fn contains_index(&self, index: &[usize]) -> (r: bool)
        ensures
            r <==> self@.valid(ints(index@)),
    {
        let n = self.shape.rank();
        if index.len() != n {
            return false;
        }
        let mut i: usize = 0;
        while i < n
            invariant
                i <= n,
                n == self@.rank(),
                n == index@.len(),
                self@.dims == self.shape@,
                forall|j: int| 0 <= j < i ==> 0 <= #[trigger] ints(index@)[j] < self@.dims[j],
            decreases n - i,
        {
            if index[i] >= self.shape.dim(i) {
                assert(!(0 <= ints(index@)[i as int] < self@.dims[i as int]));
                return false;
            }
            i += 1;
        }
        true
    }

    /// The position in memory of the element that `index` names.
    pub fn offset(&self, index: &[usize]) -> (r: usize)
        requires
            self.wf(),
            self@.valid(ints(index@)),
        ensures
            r == self@.offset(ints(index@)),
            r < self@.limit,
    {
        let ghost idx = ints(index@);
        let ghost t = dot_terms(idx, self@.strides);
        let n = self.shape.rank();
        let mut acc: i128 = self.base as i128;
        let mut step: usize = 1;
        let mut k: usize = n;
        proof {
            lemma_dot_bounds(self@.dims, self@.strides, idx, n as int);
            lemma_valid_nonempty(self@.dims, idx);
        }
        while k > 0
            invariant
                k <= n,
                n == self@.rank(),
                n == index@.len(),
                self.wf(),
                self@.valid(idx),
                idx == ints(index@),
                t == dot_terms(idx, self@.strides),
                step == prod_from(self@.dims, k as int),
                acc == self@.base + sum_from(t, k as int),
                self@.len() > 0,
                0 <= acc < self@.limit,
            decreases k,
        {
            k -= 1;
            proof {
                lemma_dot_bounds(self@.dims, self@.strides, idx, k as int);
                lemma_dot_bounds(self@.dims, self@.strides, idx, k as int + 1);
                lemma_shape_fits_bounds(self@.dims, k as int);
                lemma_shape_fits_bounds(self@.dims, k as int + 1);
                assert(t[k as int] == idx[k as int] * self@.strides[k as int]);
                assert(sum_from(t, k as int) == t[k as int] + sum_from(t, k as int + 1));
            }
            let s: i128 = match &self.strides {
                Some(v) => v[k] as i128,
                None => step as i128,
            };
            assert(s == self@.strides[k as int]);
            let i: i128 = index[k] as i128;
            assert(i == idx[k as int]);
            assert(-(isize::MAX as int) <= i * s <= isize::MAX as int);
            acc = acc + i * s;
            step = self.shape.dim(k) * step;
        }
        acc as usize
    }
    /// A copy of the mapping.
    pub fn duplicate(&self) -> (r: Mapping)
        requires
            self.wf(),
        ensures
            r.wf(),
            r@ == self@,
    {
        self.remap(self.layout())
    }

    /// The mapping of the sub-array at `index` along `axis`.
    pub fn axis_at(&self, axis: usize, index: usize) -> (r: Mapping)
        requires
            self.wf(),
            axis < self@.rank(),
            index < self@.dims[axis as int],
        ensures
            r.wf(),
            r@ == self@.axis_at(axis as int, index as int),
    {
        let ghost want = self@.axis_at(axis as int, index as int);
        proof {
            lemma_axis_at_wf(self@, axis as int, index as int);
            lemma_base_in_range(self@);
            lemma_base_in_range(want);
        }
        let stride = self.stride(axis);
        let base = (self.base as i128 + (index as i128) * (stride as i128)) as usize;
        let shape = self.shape.remove_axis(axis);
        let strides = if axis == 0 && self.strides.is_none() {
            None
        } else {
            let mut s = self.strides();
            s.remove(axis);
            assert(signed_ints(s@) =~= self@.strides.remove(axis as int));
            Some(s)
        };
        Mapping { shape, strides, base, limit: self.limit }
    }

    /// The mappings of the parts before `mid` and from `mid` on along `axis`.
    pub fn split_axis_at(&self, axis: usize, mid: usize) -> (r: (Mapping, Mapping))
        requires
            self.wf(),
            axis < self@.rank(),
            mid <= self@.dims[axis as int],
        ensures
            r.0.wf(),
            r.1.wf(),
            r.0@ == self@.split_first(axis as int, mid as int),
            r.1@ == self@.split_second(axis as int, mid as int),
    {
        let ghost second = self@.split_second(axis as int, mid as int);
        proof {
            lemma_split_wf(self@, axis as int, mid as int);
            lemma_base_in_range(self@);
            lemma_base_in_range(second);
        }
        let d = self.shape.dim(axis);
        let stride = self.stride(axis);
        let base = if mid < d {
            (self.base as i128 + (mid as i128) * (stride as i128)) as usize
        } else {
            self.base
        };
        let keep = axis == 0 && self.strides.is_none();
        let first = Mapping {
            shape: self.shape.resize_axis(axis, mid),
            strides: if keep {
                None
            } else {
                Some(self.strides())
            },
            base: self.base,
            limit: self.limit,
        };
        let second = Mapping {
            shape: self.shape.resize_axis(axis, d - mid),
            strides: if keep {
                None
            } else {
                Some(self.strides())
            },
            base,
            limit: self.limit,
        };
        (first, second)
    }

    /// The mapping with the axes in the order `order`: axis `i` of the
    /// result is axis `order[i]` of `self`.
    pub fn permute(&self, order: &[usize]) -> (r: Mapping)
        requires
            self.wf(),
            is_permutation(ints(order@)),
            order@.len() == self@.rank(),
        ensures
            r.wf(),
            r@ == self@.permute(ints(order@)),
    {
        let ghost p = ints(order@);
        proof {
            lemma_permute_wf(self@, p);
            lemma_standard_orders(self@.dims);
            lemma_standard_orders(self@.strides);
        }
        let n = order.len();
        let shape = self.shape.permute(order);
        if is_identity_order(order) {
            let strides = match &self.strides {
                None => None,
                Some(_) => Some(self.strides()),
            };
            return Mapping { shape, strides, base: self.base, limit: self.limit };
        }
        let old = self.strides();
        let mut strides: Vec<isize> = Vec::new();
        let mut i: usize = 0;
        while i < n
            invariant
                i <= n,
                n == order@.len(),
                n == old@.len(),
                p == ints(order@),
                is_permutation(p),
                strides@.len() == i,
                forall|j: int| 0 <= j < i ==> strides@[j] == old@[p[j]],
            decreases n - i,
        {
            assert(0 <= p[i as int] < p.len());
            strides.push(old[order[i]]);
            i += 1;
        }
        assert(signed_ints(strides@) =~= permuted(self@.strides, p));
        Mapping { shape, strides: Some(strides), base: self.base, limit: self.limit }
    }

    /// The mapping with the order of the axes reversed.
    pub fn transpose(&self) -> (r: Mapping)
        requires
            self.wf(),
        ensures
            r.wf(),
            r@ == self@.transpose(),
    {
        let n = self.shape.rank();
        let mut order: Vec<usize> = Vec::new();
        let mut i: usize = 0;
        while i < n
            invariant
                i <= n,
                order@.len() == i,
                forall|j: int| 0 <= j < i ==> order@[j] == n - 1 - j,
            decreases n - i,
        {
            order.push(n - 1 - i);
            i += 1;
        }
        proof {
            assert(ints(order@) =~= reversed_order(n as int));
            lemma_standard_orders(self@.dims);
        }
        self.permute(order.as_slice())
    }

    /// The same mapping under `layout`.
    pub fn remap(&self, layout: Layout) -> (r: Mapping)
        requires
            self.wf(),
            self@.can_remap(layout),
        ensures
            r.wf(),
            r@ == self@.remap(layout),
    {
        let shape = Shape::new(self.shape.dims());
        let strides = match layout {
            Layout::Dense => None,
            Layout::Strided => Some(self.strides()),
        };
        Mapping { shape: shape.unwrap(), strides, base: self.base, limit: self.limit }
    }

    /// The position in memory of the element at position `k` in row-major
    /// order.
    pub fn linear_offset(&self, k: usize) -> (r: usize)
        requires
            self.wf(),
            k < self@.len(),
        ensures
            r == self@.linear(k as int),
            r < self@.limit,
    {
        let ghost idx = unravel(self@.dims, k as int);
        let ghost t = dot_terms(idx, self@.strides);
        proof {
            lemma_unravel_valid(self@.dims, k as int);
            lemma_dot_bounds(self@.dims, self@.strides, idx, 0);
            lemma_valid_nonempty(self@.dims, idx);
        }
        match &self.strides {
            None => {
                proof {
                    lemma_contiguous_uniform(self@);
                    lemma_uniform_linear(self@, k as int);
                    assert(1 * (k as int) == k);
                    lemma_base_in_range(self@);
                }
                self.base + k
            },
            Some(s) => {
                let n = self.shape.rank();
                let mut acc: i128 = self.base as i128;
                let mut rest: usize = k;
                let mut j: usize = n;
                proof {
                    lemma_dot_bounds(self@.dims, self@.strides, idx, n as int);
                }
                while j > 0
                    invariant
                        j <= n,
                        n == self@.rank(),
                        n == s@.len(),
                        self.wf(),
                        self@.strides == signed_ints(s@),
                        self@.dims == self.shape@,
                        self@.valid(idx),
                        idx == unravel(self@.dims, k as int),
                        t == dot_terms(idx, self@.strides),
                        prod_from(self@.dims, j as int) > 0,
                        rest == (k as int) / prod_from(self@.dims, j as int),
                        acc == self@.base + sum_from(t, j as int),
                        self@.len() > 0,
                        0 <= acc < self@.limit,
                    decreases j,
                {
                    j -= 1;
                    let d = self.shape.dim(j);
                    proof {
                        lemma_dot_bounds(self@.dims, self@.strides, idx, j as int);
                        lemma_dot_bounds(self@.dims, self@.strides, idx, j as int + 1);
                        let p = prod_from(self@.dims, j as int + 1);
                        assert(0 <= idx[j as int] < self@.dims[j as int]);
                        vstd::arithmetic::div_mod::lemma_div_denominator(k as int, p, d as int);
                        assert(p * d == d * p) by (nonlinear_arith);
                        assert(d * p > 0) by (nonlinear_arith)
                            requires
                                d > 0,
                                p > 0,
                        ;
                        assert(idx[j as int] == digit(self@.dims, k as int, j as int));
                        assert(t[j as int] == idx[j as int] * self@.strides[j as int]);
                    }
                    let i: i128 = (rest % d) as i128;
                    let step: i128 = s[j] as i128;
                    assert(-(isize::MAX as int) <= i * step <= isize::MAX as int);
                    acc = acc + i * step;
                    rest = rest / d;
                }
                acc as usize
            },
        }
    }

    /// Whether consecutive elements in row-major order lie a constant step
    /// apart.
    pub fn is_uniform(&self) -> (r: bool)
        requires
            self.wf(),
        ensures
            r <==> self@.is_uniform(),
    {
        match &self.strides {
            None => {
                proof {
                    lemma_contiguous_uniform(self@);
                }
                true
            },
            Some(s) => {
                let n = self.shape.rank();
                let mut i: usize = 1;
                while i < n
                    invariant
                        1 <= i,
                        n == self@.rank(),
                        n == s@.len(),
                        self.wf(),
                        self@.strides == signed_ints(s@),
                        self@.dims == self.shape@,
                        forall|j: int|
                            0 <= j < i - 1 ==> #[trigger] self@.strides[j] == self@.strides[j + 1]
                                * self@.dims[j + 1],
                    decreases n - i,
                {
                    let a: i128 = s[i] as i128;
                    let d: i128 = self.shape.dim(i) as i128;
                    proof {
                        lemma_shape_fits_bounds(self@.dims, i as int);
                        assert(-0x8000_0000_0000_0000_0000_0000_0000_0000 < a * d
                            < 0x7fff_ffff_ffff_ffff_ffff_ffff_ffff_ffff) by (nonlinear_arith)
                            requires
                                -0x8000_0000_0000_0000 <= a <= 0x7fff_ffff_ffff_ffff,
                                0 <= d <= 0x7fff_ffff_ffff_ffff,
                        ;
                    }
                    if s[i - 1] as i128 != a * d {
                        assert(self@.strides[i - 1] != self@.strides[i - 1 + 1] * self@.dims[i - 1
                            + 1]);
                        return false;
                    }
                    i += 1;
                }
                true
            },
        }
    }

    /// The distance in memory between consecutive elements of a uniformly
    /// strided mapping.
    pub fn step(&self) -> (r: isize)
        requires
            self.wf(),
        ensures
            r == self@.step(),
    {
        let n = self.shape.rank();
        match &self.strides {
            None => {
                proof {
                    lemma_contiguous_uniform(self@);
                }
                1
            },
            Some(s) => if n == 0 {
                1
            } else {
                s[n - 1]
            },
        }
    }

    /// Whether the strides admit the shape `dims`: see
    /// [`MappingView::can_reshape`].
    pub fn can_reshape(&self, dims: &[usize]) -> (r: bool)
        requires
            self.wf(),
        ensures
            r <==> self@.can_reshape(ints(dims@)),
    {
        let shape = match Shape::new(dims) {
            Some(shape) => shape,
            None => {
                return false;
            },
        };
        if shape.len() != self.shape.len() {
            return false;
        }
        if same_extents(dims, self.shape.dims()) {
            return true;
        }
        if !self.is_uniform() {
            return shape.len() > 0 && self.regroup(dims).is_some();
        }
        scaled(&shape, self.step()).is_some()
    }

    /// The mapping of the same elements, in the same order, under the shape
    /// `dims`.
    pub fn reshape(&self, dims: &[usize]) -> (r: Mapping)
        requires
            self.wf(),
            self@.can_reshape(ints(dims@)),
        ensures
            r.wf(),
            r@ == self@.reshape(ints(dims@)),
            r@.dims == ints(dims@),
            r@.limit == self@.limit,
    {
        proof {
            lemma_reshape_wf(self@, ints(dims@));
        }
        let shape = Shape::new(dims).unwrap();
        if same_extents(dims, self.shape.dims()) {
            let strides = match &self.strides {
                None => None,
                Some(_) => Some(self.strides()),
            };
            return Mapping { shape, strides, base: self.base, limit: self.limit };
        }
        if self.shape.len() == 0 {
            let strides = match &self.strides {
                None => None,
                Some(_) => {
                    let s = scaled(&shape, 1);
                    proof {
                        assert(scaled_strides(shape@, 1) =~= dense_strides(shape@));
                        assert forall|i: int| 0 <= i < shape@.len() implies isize::MIN
                            <= #[trigger] dense_strides(shape@)[i] <= isize::MAX by {
                            lemma_shape_fits_bounds(shape@, i + 1);
                        }
                    }
                    s
                },
            };
            return Mapping { shape, strides, base: 0, limit: self.limit };
        }
        if !self.is_uniform() {
            proof {
                if self@.layout == Layout::Dense {
                    lemma_contiguous_uniform(self@);
                }
            }
            return self.regroup(dims).unwrap();
        }
        let strides = match &self.strides {
            None => {
                proof {
                    lemma_contiguous_uniform(self@);
                    assert(scaled_strides(shape@, 1) =~= dense_strides(shape@));
                }
                None
            },
            Some(_) => scaled(&shape, self.step()),
        };
        Mapping { shape, strides, base: self.base, limit: self.limit }
    }

    /// The strided mapping of the same elements under the shape `dims`,
    /// reached by dropping the axes of extent one and then cutting and
    /// merging axes; nothing where the strides do not allow it.
    pub fn regroup(&self, dims: &[usize]) -> (r: Option<Mapping>)
        requires
            self.wf(),
            self@.len() > 0,
        ensures
            r is Some <==> self@.regroup(ints(dims@)) is Some,
            r is Some ==> r->0.wf() && r->0@ == (MappingView {
                layout: Layout::Strided,
                ..self@.regroup(ints(dims@))->0
            }),
    {
        let ghost want = ints(dims@);
        let ghost mut cur = self@;
        let mut d = crate::shape::copy_extents(self.shape.dims());
        let mut s = self.strides();
        let mut a: usize = 0;
        assert(ints(d@) =~= cur.dims);
        while a < d.len()
            invariant
                a <= d@.len(),
                ints(d@) == cur.dims,
                signed_ints(s@) == cur.strides,
                cur.base == self@.base,
                cur.limit == self@.limit,
                cur.wf(),
                cur.len() > 0,
                cur.strip_from(a as int) == self@.strip_from(0),
            decreases d@.len() - a,
        {
            if d[a] == 1 {
                proof {
                    lemma_drop_unit_axis(cur, a as int);
                    assert(0 * cur.strides[a as int] == 0);
                    cur = cur.axis_at(a as int, 0);
                }
                d.remove(a);
                s.remove(a);
                assert(ints(d@) =~= cur.dims);
                assert(signed_ints(s@) =~= cur.strides);
            } else {
                a += 1;
            }
        }
        let n = dims.len();
        let mut a: usize = 0;
        let ghost start = cur;
        loop
            invariant
                n == dims@.len(),
                want == ints(dims@),
                a <= d@.len(),
                a <= n,
                ints(d@) == cur.dims,
                signed_ints(s@) == cur.strides,
                cur.base == self@.base,
                cur.limit == self@.limit,
                cur.wf(),
                cur.len() > 0,
                forall|i: int| 0 <= i < a ==> cur.dims[i] == want[i],
                start == self@.strip_from(0),
                cur.regroup_from(want, a as int) == start.regroup_from(want, 0),
            ensures
                a == n,
                d@.len() == n,
                ints(d@) == cur.dims,
                signed_ints(s@) == cur.strides,
                cur.base == self@.base,
                cur.limit == self@.limit,
                cur.wf(),
                Some(cur) == self@.regroup(want),
            decreases n - a, d@.len() - a,
        {
            proof {
                lemma_nonempty_shape(cur.dims);
            }
            if a >= n {
                if d.len() == n {
                    break ;
                }
                return None;
            } else if a >= d.len() {
                if dims[a] != 1 {
                    return None;
                }
                proof {
                    lemma_append_unit(cur);
                    cur = cur.append_unit();
                }
                d.push(1);
                s.push(1);
                assert(ints(d@) =~= cur.dims);
                assert(signed_ints(s@) =~= cur.strides);
                a += 1;
            } else if dims[a] == d[a] {
                a += 1;
            } else if dims[a] >= 1 && d[a] % dims[a] == 0 {
                let whole = d[a];
                let inner = whole / dims[a];
                proof {
                    vstd::arithmetic::div_mod::lemma_fundamental_div_mod(
                        whole as int,
                        want[a as int],
                    );
                    assert(inner > 0) by (nonlinear_arith)
                        requires
                            whole == dims@[a as int] * inner,
                            whole > 0,
                            dims@[a as int] > 0,
                    ;
                    vstd::arithmetic::div_mod::lemma_fundamental_div_mod_converse(
                        whole as int,
                        inner as int,
                        want[a as int],
                        0,
                    );
                    lemma_split_axis(cur, a as int, inner as int);
                    lemma_split_axis_wf(cur, a as int, inner as int);
                }
                let ghost next = cur.split_axis(a as int, inner as int);
                let outer = whole / inner;
                assert(isize::MIN <= next.strides[a as int] <= isize::MAX);
                let stride: isize = if outer == 1 {
                    s[a]
                } else {
                    ((s[a] as i128) * (inner as i128)) as isize
                };
                d[a] = inner;
                d.insert(a, outer);
                s.insert(a, stride);
                proof {
                    cur = next;
                    assert(ints(d@) =~= cur.dims);
                    assert(signed_ints(s@) =~= cur.strides);
                }
                a += 1;
            } else if a + 1 < d.len() {
                let next_stride: i128 = s[a + 1] as i128;
                let next_dim: i128 = d[a + 1] as i128;
                proof {
                    lemma_shape_fits_bounds(cur.dims, a as int + 1);
                    assert(-0x8000_0000_0000_0000_0000_0000_0000_0000 < next_stride * next_dim
                        < 0x7fff_ffff_ffff_ffff_ffff_ffff_ffff_ffff) by (nonlinear_arith)
                        requires
                            -0x8000_0000_0000_0000 <= next_stride <= 0x7fff_ffff_ffff_ffff,
                            0 <= next_dim <= 0x7fff_ffff_ffff_ffff,
                    ;
                }
                if s[a] as i128 != next_stride * next_dim {
                    return None;
                }
                proof {
                    lemma_merge(cur, a as int);
                    lemma_shape_fits_bounds(cur.merge(a as int).dims, a as int);
                }
                let merged = d[a] * d[a + 1];
                d.remove(a);
                d[a] = merged;
                s.remove(a);
                proof {
                    cur = cur.merge(a as int);
                    assert(ints(d@) =~= cur.dims);
                    assert(signed_ints(s@) =~= cur.strides);
                }
            } else {
                return None;
            }
        }
        proof {
            lemma_regroup(self@, want);
        }
        let shape = Shape::new(d.as_slice()).unwrap();
        Some(Mapping { shape, strides: Some(s), base: self.base, limit: self.limit })
    }

    /// The strided mapping with the given parts, or nothing where they do
    /// not make a mapping: see [`MappingView::wf`].
    pub fn strided(shape: Shape, strides: Vec<isize>, base: usize, limit: usize) -> (r: Option<
        Mapping,
    >)
        requires
            shape.wf(),
        ensures
            r is Some <==> (MappingView {
                dims: shape@,
                strides: signed_ints(strides@),
                layout: Layout::Strided,
                base: base as int,
                limit: limit as int,
            }).wf(),
            r is Some ==> r->0@ == (MappingView {
                dims: shape@,
                strides: signed_ints(strides@),
                layout: Layout::Strided,
                base: base as int,
                limit: limit as int,
            }),
    {
        let ghost want = MappingView {
            dims: shape@,
            strides: signed_ints(strides@),
            layout: Layout::Strided,
            base: base as int,
            limit: limit as int,
        };
        let n = shape.rank();
        if strides.len() != n || limit > isize::MAX as usize {
            return None;
        }
        let ghost lo = lo_terms(want.dims, want.strides);
        let ghost hi = hi_terms(want.dims, want.strides);
        let top: i128 = isize::MAX as i128;
        let mut low: i128 = 0;
        let mut high: i128 = 0;
        let mut j: usize = n;
        if base as i128 > top {
            proof {
                lemma_reach_monotonic(want.dims, want.strides, 0);
            }
            return None;
        }
        while j > 0
            invariant
                j <= n,
                n == shape@.len(),
                n == strides@.len(),
                shape.wf(),
                want.dims == shape@,
                want.strides == signed_ints(strides@),
                want.base == base,
                lo == lo_terms(want.dims, want.strides),
                hi == hi_terms(want.dims, want.strides),
                top == isize::MAX,
                low == sum_from(lo, j as int),
                high == sum_from(hi, j as int),
                0 <= base + low,
                base + high <= top,
                low <= 0 <= high,
            decreases j,
        {
            j -= 1;
            let d = shape.dim(j);
            let e: i128 = if d == 0 { 0 } else { (d - 1) as i128 };
            let s: i128 = strides[j] as i128;
            proof {
                lemma_shape_fits_bounds(want.dims, j as int);
                lemma_reach_monotonic(want.dims, want.strides, j as int);
                assert(e == crate::geometry::extent(want.dims[j as int]));
                assert(s == want.strides[j as int]);
                assert(-0x4000_0000_0000_0000_0000_0000_0000_0000 <= e * s
                    <= 0x4000_0000_0000_0000_0000_0000_0000_0000) by (nonlinear_arith)
                    requires
                        0 <= e <= 0x7fff_ffff_ffff_ffff,
                        -0x8000_0000_0000_0000 <= s <= 0x7fff_ffff_ffff_ffff,
                ;
                crate::geometry::lemma_term_bounds(want.dims[j as int], want.strides[j as int], 0);
            }
            let term: i128 = e * s;
            if s < 0 {
                low = low + term;
            } else if s > 0 {
                high = high + term;
            }
            if (base as i128) + low < 0 || (base as i128) + high > top {
                return None;
            }
        }
        let len = shape.len();
        if len > 0 && (base as i128) + high > (limit as i128) - 1 {
            return None;
        }
        Some(Mapping { shape, strides: Some(strides), base, limit })
    }

    /// The mapping of diagonal `index`: above the main diagonal for a
    /// positive index, below it for a negative one.
    pub fn diag(&self, index: isize) -> (r: Mapping)
        requires
            self.wf(),
            self@.has_diag(index as int),
        ensures
            r.wf(),
            r@ == self@.diag(index as int),
    {
        let ghost want = self@.diag(index as int);
        proof {
            lemma_diag_wf(self@, index as int);
            lemma_base_in_range(self@);
            lemma_base_in_range(want);
            lemma_shape_fits_bounds(self@.dims, 0);
            lemma_shape_fits_bounds(self@.dims, 1);
        }
        let d0 = self.shape.dim(0);
        let d1 = self.shape.dim(1);
        let s0 = self.stride(0);
        let s1 = self.stride(1);
        let row: usize = if index < 0 { (-index) as usize } else { 0 };
        let col: usize = if index > 0 { index as usize } else { 0 };
        let n = if d0 - row <= d1 - col { d0 - row } else { d1 - col };
        let stride: isize = if n > 1 { s0 + s1 } else { 1 };
        let base = if n == 0 {
            self.base
        } else if index < 0 {
            assert(col * s1 == 0);
            (self.base as i128 + (row as i128) * (s0 as i128)) as usize
        } else {
            assert(row * s0 == 0);
            (self.base as i128 + (col as i128) * (s1 as i128)) as usize
        };
        let mut dims: Vec<usize> = Vec::new();
        dims.push(n);
        let mut strides: Vec<isize> = Vec::new();
        strides.push(stride);
        assert(ints(dims@) =~= want.dims);
        assert(signed_ints(strides@) =~= want.strides);
        let shape = Shape::new(dims.as_slice());
        Mapping { shape: shape.unwrap(), strides: Some(strides), base, limit: self.limit }
    }

    /// The mapping that repeats this one to fill the shape `dims`.
    pub fn broadcast(&self, dims: &[usize]) -> (r: Mapping)
        requires
            self.wf(),
            shape_fits(ints(dims@)),
            broadcasts_to(self@.dims, ints(dims@)),
        ensures
            r.wf(),
            r@ == self@.broadcast(ints(dims@)),
    {
        let ghost want = self@.broadcast(ints(dims@));
        proof {
            lemma_broadcast_wf(self@, ints(dims@));
        }
        let shape = Shape::new(dims).unwrap();
        if same_extents(dims, self.shape.dims()) {
            assert(want.strides =~= self@.strides);
            let strides = match &self.strides {
                None => None,
                Some(_) => Some(self.strides()),
            };
            return Mapping { shape, strides, base: self.base, limit: self.limit };
        }
        let n = dims.len();
        let own = self.shape.rank();
        let old = self.strides();
        let mut strides: Vec<isize> = Vec::new();
        let mut i: usize = 0;
        while i < n
            invariant
                i <= n,
                n == dims@.len(),
                own == self@.rank(),
                signed_ints(old@) == self@.strides,
                self@.strides.len() == self@.dims.len(),
                broadcasts_to(self@.dims, ints(dims@)),
                want == self@.broadcast(ints(dims@)),
                strides@.len() == i,
                forall|j: int| 0 <= j < i ==> strides@[j] == want.strides[j],
            decreases n - i,
        {
            let s: isize = if own != 0 && self.shape.dim(i) == dims[i] { old[i] } else { 0 };
            assert(signed_ints(old@).len() == self@.dims.len());
            assert(own != 0 ==> signed_ints(old@)[i as int] == old@[i as int]);
            strides.push(s);
            i += 1;
        }
        assert(signed_ints(strides@) =~= want.strides);
        Mapping { shape, strides: Some(strides), base: self.base, limit: self.limit }
    }
    /// The number of lanes along `axis`.
    pub fn lane_count(&self, axis: usize) -> (r: usize)
        requires
            self.wf(),
            axis < self@.rank(),
        ensures
            r == self@.lane_count(axis as int),
    {
        self.shape.remove_axis(axis).len()
    }

    /// The mapping of lane `k` along `axis`.
    pub fn lane(&self, axis: usize, k: usize) -> (r: Mapping)
        requires
            self.wf(),
            axis < self@.rank(),
            k < self@.lane_count(axis as int),
        ensures
            r.wf(),
            r@ == self@.lane(axis as int, k as int),
    {
        let ghost want = self@.lane(axis as int, k as int);
        proof {
            lemma_lane_wf(self@, axis as int, k as int);
        }
        let d = self.shape.dim(axis);
        let base = if d > 0 {
            self.axis_at(axis, 0).linear_offset(k)
        } else {
            self.base
        };
        let mut dims: Vec<usize> = Vec::new();
        dims.push(d);
        assert(ints(dims@) =~= want.dims);
        let shape = Shape::new(dims.as_slice()).unwrap();
        let strides = if axis == self.shape.rank() - 1 && self.strides.is_none() {
            None
        } else {
            let mut s: Vec<isize> = Vec::new();
            s.push(self.stride(axis));
            assert(signed_ints(s@) =~= want.strides);
            Some(s)
        };
        Mapping { shape, strides, base, limit: self.limit }
    }
}

/// Whether the shape `from` can be repeated to fill the shape `to`.
pub fn can_broadcast(from: &[usize], to: &[usize]) -> (r: bool)
    ensures
        r <==> broadcasts_to(ints(from@), ints(to@)),
{
    let n = from.len();
    if n == 0 {
        return true;
    }
    if n != to.len() {
        return false;
    }
    let mut i: usize = 0;
    while i < n
        invariant
            i <= n,
            n == from@.len(),
            n == to@.len(),
            forall|j: int| 0 <= j < i ==> #[trigger] ints(from@)[j] == ints(to@)[j] || ints(from@)[j] == 1,
        decreases n - i,
    {
        if from[i] != to[i] && from[i] != 1 {
            assert(!(ints(from@)[i as int] == ints(to@)[i as int] || ints(from@)[i as int] == 1));
            return false;
        }
        i += 1;
    }
    true
}

/// The shape in which two shapes are traversed together, or nothing where
/// they are not compatible.
pub fn common_extents(a: &[usize], b: &[usize]) -> (r: Option<Vec<usize>>)
    ensures
        r is Some <==> compatible(ints(a@), ints(b@)),
        r is Some ==> ints(r->0@) == common_shape(ints(a@), ints(b@)),
{
    if a.len() == 0 {
        return Some(crate::shape::copy_extents(b));
    }
    if b.len() == 0 {
        return Some(crate::shape::copy_extents(a));
    }
    let n = a.len();
    if n != b.len() {
        return None;
    }
    let mut out: Vec<usize> = Vec::new();
    let mut i: usize = 0;
    while i < n
        invariant
            i <= n,
            n == a@.len(),
            n == b@.len(),
            out@.len() == i,
            forall|j: int|
                0 <= j < i ==> #[trigger] ints(a@)[j] == ints(b@)[j] || ints(a@)[j] == 1 || ints(
                    b@,
                )[j] == 1,
            forall|j: int| 0 <= j < i ==> out@[j] == common_shape(ints(a@), ints(b@))[j],
        decreases n - i,
    {
        if a[i] != b[i] && a[i] != 1 && b[i] != 1 {
            assert(!(ints(a@)[i as int] == ints(b@)[i as int] || ints(a@)[i as int] == 1 || ints(
                b@,
            )[i as int] == 1));
            return None;
        }
        out.push(if a[i] == 1 { b[i] } else { a[i] });
        i += 1;
    }
    assert(ints(out@) =~= common_shape(ints(a@), ints(b@)));
    Some(out)
}

/// The contiguous strides of `shape`, each multiplied by `step`, or nothing
/// where one of them does not fit in `isize`.
pub fn scaled(shape: &Shape, step: isize) -> (r: Option<Vec<isize>>)
    requires
        shape.wf(),
    ensures
        r is Some <==> representable(scaled_strides(shape@, step as int)),
        r is Some ==> signed_ints(r->0@) == scaled_strides(shape@, step as int),
{
    let n = shape.rank();
    let ghost want = scaled_strides(shape@, step as int);
    let mut out: Vec<isize> = Vec::new();
    let mut i: usize = 0;
    while i < n
        invariant
            i <= n,
            out@.len() == i,
        decreases n - i,
    {
        out.push(0);
        i += 1;
    }
    let mut acc: usize = 1;
    let mut k: usize = n;
    while k > 0
        invariant
            k <= n,
            n == shape@.len(),
            out@.len() == n,
            shape.wf(),
            want == scaled_strides(shape@, step as int),
            acc == prod_from(shape@, k as int),
            forall|j: int| k <= j < n ==> out@[j] == want[j],
        decreases k,
    {
        k -= 1;
        proof {
            lemma_shape_fits_bounds(shape@, k as int);
            lemma_shape_fits_bounds(shape@, k as int + 1);
        }
        match step.checked_mul(acc as isize) {
            Some(v) => {
                out[k] = v;
            },
            None => {
                assert(!(isize::MIN <= want[k as int] <= isize::MAX));
                return None;
            },
        }
        acc = shape.dim(k) * acc;
    }
    assert(signed_ints(out@) =~= want);
    Some(out)
}

/// Whether two lists of extents are the same.
pub fn same_extents(a: &[usize], b: &[usize]) -> (r: bool)
    ensures
        r <==> ints(a@) == ints(b@),
{
    if a.len() != b.len() {
        assert(ints(a@).len() != ints(b@).len());
        return false;
    }
    let n = a.len();
    let mut i: usize = 0;
    while i < n
        invariant
            i <= n,
            n == a@.len(),
            n == b@.len(),
            forall|j: int| 0 <= j < i ==> a@[j] == b@[j],
        decreases n - i,
    {
        if a[i] != b[i] {
            assert(ints(a@)[i as int] != ints(b@)[i as int]);
            return false;
        }
        i += 1;
    }
    assert(ints(a@) =~= ints(b@));
    true
}

/// Whether `order` lists each of `0, …, order.len() - 1` exactly once.
pub fn is_order(order: &[usize]) -> (r: bool)
    ensures
        r <==> is_permutation(ints(order@)),
{
    let n = order.len();
    let ghost p = ints(order@);
    let mut seen: Vec<bool> = Vec::new();
    let mut k: usize = 0;
    while k < n
        invariant
            k <= n,
            seen@.len() == k,
            forall|j: int| 0 <= j < k ==> !seen@[j],
        decreases n - k,
    {
        seen.push(false);
        k += 1;
    }
    let mut i: usize = 0;
    while i < n
        invariant
            i <= n,
            n == order@.len(),
            p == ints(order@),
            seen@.len() == n,
            forall|j: int| 0 <= j < i ==> 0 <= #[trigger] p[j] < n,
            forall|a: int, b: int| 0 <= a < b < i ==> p[a] != p[b],
            forall|v: int| 0 <= v < n ==> (#[trigger] seen@[v] <==> exists|j: int| 0 <= j < i && p[j] == v),
        decreases n - i,
    {
        let v = order[i];
        if v >= n {
            assert(!(0 <= p[i as int] < p.len()));
            return false;
        }
        if seen[v] {
            let ghost j = choose|j: int| 0 <= j < i && p[j] == v;
            assert(p[j] == p[i as int]);
            return false;
        }
        let ghost before = seen@;
        seen[v] = true;
        assert forall|w: int| 0 <= w < n implies (#[trigger] seen@[w] <==> exists|j: int|
            0 <= j < i + 1 && p[j] == w) by {
            if w == v {
                assert(p[i as int] == w);
            } else {
                assert(seen@[w] == before[w]);
                if before[w] {
                    let j = choose|j: int| 0 <= j < i && p[j] == w;
                    assert(0 <= j < i + 1 && p[j] == w);
                }
            }
        }
        assert forall|a: int, b: int| 0 <= a < b < i + 1 implies p[a] != p[b] by {
            if b == i {
                assert(!before[v as int]);
            }
        }
        i += 1;
    }
    true
}

/// Whether `order` is the identity order.
pub fn is_identity_order(order: &[usize]) -> (r: bool)
    ensures
        r <==> ints(order@) == identity_order(order@.len() as int),
{
    let n = order.len();
    let mut i: usize = 0;
    while i < n
        invariant
            i <= n,
            n == order@.len(),
            forall|j: int| 0 <= j < i ==> order@[j] == j,
        decreases n - i,
    {
        if order[i] != i {
            assert(ints(order@)[i as int] != identity_order(n as int)[i as int]);
            return false;
        }
        i += 1;
    }
    assert(ints(order@) =~= identity_order(n as int));
    true
}

} // verus!
