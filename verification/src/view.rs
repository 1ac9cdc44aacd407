//! Views: borrowed, read-only arrays.
use vstd::prelude::*;
use vstd::std_specs::cmp::PartialEqSpec;
use crate::broadcast::broadcasts_to;
use crate::geometry::{lemma_base_in_range, MappingView};
use crate::index::lemma_linear_outer;
use crate::reshape::{lemma_contiguous_uniform, lemma_uniform_linear};
use crate::layout::Layout;
use crate::mapping::Mapping;
use crate::model::ArrayModel;
use crate::reshape::infer_dims;
use crate::select::{valid_selection, DimIndex};
use crate::shape::{dense_strides, ints, resolve_extents, shape_fits, shape_len, signed_ints, Shape};
use crate::sums::is_permutation;

verus! {

/// A multidimensional array whose elements are borrowed from memory that
/// something else owns.
pub struct ArrayView<'a, T> {
    buf: &'a [T],
    map: Mapping,
}

impl<'a, T> View for ArrayView<'a, T> {
    type V = ArrayModel<T>;

    closed spec fn view(&self) -> ArrayModel<T> {
        ArrayModel { buffer: self.buf@, map: self.map@ }
    }
}

impl<'a, T> ArrayView<'a, T> {
    /// The invariant of a view: see [`ArrayModel::wf`].
    pub open spec fn wf(&self) -> bool {
        self@.wf()
    }

    /// The dense view of shape `dims` over `buf`, or nothing where the shape
    /// cannot be represented or its length is not that of `buf`.
    pub fn new(buf: &'a [T], dims: &[usize]) -> (r: Option<ArrayView<'a, T>>)
        ensures
            r is Some <==> shape_fits(ints(dims@)) && shape_len(ints(dims@)) == buf@.len(),
            r is Some ==> r->0.wf() && r->0@ == (ArrayModel {
                buffer: buf@,
                map: MappingView {
                    dims: ints(dims@),
                    strides: dense_strides(ints(dims@)),
                    layout: Layout::Dense,
                    base: 0,
                    limit: buf@.len() as int,
                },
            }),
    {
        match Shape::new(dims) {
            None => None,
            Some(shape) => {
                if shape.len() != buf.len() {
                    return None;
                }
                Some(ArrayView { buf, map: Mapping::dense(shape) })
            },
        }
    }

    /// The view of `buf` through `map`, or nothing where `map` speaks of
    /// memory of another length.
    pub fn from_parts(buf: &'a [T], map: Mapping) -> (r: Option<ArrayView<'a, T>>)
        requires
            map.wf(),
        ensures
            r is Some <==> map@.limit == buf@.len(),
            r is Some ==> r->0.wf() && r->0@ == (ArrayModel { buffer: buf@, map: map@ }),
    {
        if map.limit() != buf.len() {
            return None;
        }
        Some(ArrayView { buf, map })
    }

    /// The memory behind the view.
    pub fn buffer(&self) -> (r: &'a [T])
        ensures
            r@ == self@.buffer,
    {
        self.buf
    }

    /// The mapping.
    pub fn mapping(&self) -> (r: &Mapping)
        ensures
            r@ == self@.map,
    {
        &self.map
    }

    /// The shape.
    pub fn shape(&self) -> (r: &Shape)
        ensures
            r@ == self@.map.dims,
    {
        self.map.shape()
    }

    /// The extents of all axes, outermost first.
    pub fn dims(&self) -> (r: &[usize])
        ensures
            ints(r@) == self@.map.dims,
    {
        self.map.dims()
    }

    /// The number of axes.
    pub fn rank(&self) -> (r: usize)
        ensures
            r == self@.map.rank(),
    {
        self.map.rank()
    }

    /// The extent of axis `index`.
    pub fn dim(&self, index: usize) -> (r: usize)
        requires
            index < self@.map.rank(),
        ensures
            r == self@.map.dims[index as int],
    {
        self.map.dim(index)
    }

    /// The number of elements.
    pub fn len(&self) -> (r: usize)
        requires
            self.wf(),
        ensures
            r == self@.len(),
    {
        self.map.len()
    }

    /// Whether the view has no elements.
    pub fn is_empty(&self) -> (r: bool)
        requires
            self.wf(),
        ensures
            r <==> self@.len() == 0,
    {
        self.map.is_empty()
    }

    /// The distance in memory between neighbours along axis `index`.
    pub fn stride(&self, index: usize) -> (r: isize)
        requires
            self.wf(),
            index < self@.map.rank(),
        ensures
            r == self@.map.strides[index as int],
    {
        self.map.stride(index)
    }

    /// The strides of all axes, outermost first.
    pub fn strides(&self) -> (r: Vec<isize>)
        requires
            self.wf(),
        ensures
            signed_ints(r@) == self@.map.strides,
    {
        self.map.strides()
    }

    /// The layout.
    pub fn layout(&self) -> (r: Layout)
        ensures
            r == self@.map.layout,
    {
        self.map.layout()
    }

    /// Whether the strides are those of contiguous row-major memory.
    pub fn is_contiguous(&self) -> (r: bool)
        requires
            self.wf(),
        ensures
            r <==> self@.map.is_contiguous(),
    {
        self.map.is_contiguous()
    }

    /// The memory from the element whose indices are all zero on; empty
    /// where that position lies past the end.
    pub fn as_ptr(&self) -> (r: &'a [T])
        requires
            self.wf(),
        ensures
            r@ == (if self@.map.base <= self@.buffer.len() {
                self@.buffer.subrange(self@.map.base, self@.buffer.len() as int)
            } else {
                Seq::empty()
            }),
    {
        let base = self.map.base();
        let n = self.buf.len();
        if base <= n {
            vstd::slice::slice_subrange(self.buf, base, n)
        } else {
            vstd::slice::slice_subrange(self.buf, 0, 0)
        }
    }

    /// The element that `index` names, or nothing where `index` names none.
    pub fn get(&self, index: &[usize]) -> (r: Option<&'a T>)
        requires
            self.wf(),
        ensures
            r is Some <==> self@.map.valid(ints(index@)),
            r is Some ==> *r->0 == self@.at(ints(index@)),
    {
        if self.map.contains_index(index) {
            Some(&self.buf[self.map.offset(index)])
        } else {
            None
        }
    }

    /// The element that `index` names, without a test of `index`.
    pub fn get_unchecked(&self, index: &[usize]) -> (r: &'a T)
        requires
            self.wf(),
            self@.map.valid(ints(index@)),
        ensures
            *r == self@.at(ints(index@)),
    {
        &self.buf[self.map.offset(index)]
    }

    /// The element at position `k` in row-major order.
    pub fn item(&self, k: usize) -> (r: &'a T)
        requires
            self.wf(),
            k < self@.len(),
        ensures
            *r == self@.item(k as int),
    {
        &self.buf[self.map.linear_offset(k)]
    }

    /// A second view of the same elements.
    pub fn duplicate(&self) -> (r: ArrayView<'a, T>)
        requires
            self.wf(),
        ensures
            r.wf(),
            r@ == self@,
    {
        ArrayView { buf: self.buf, map: self.map.duplicate() }
    }

    /// The view of the sub-array at `index` along `axis`.
    pub fn axis_at(&self, axis: usize, index: usize) -> (r: ArrayView<'a, T>)
        requires
            self.wf(),
            axis < self@.map.rank(),
            index < self@.map.dims[axis as int],
        ensures
            r.wf(),
            r@ == self@.with_map(self@.map.axis_at(axis as int, index as int)),
    {
        ArrayView { buf: self.buf, map: self.map.axis_at(axis, index) }
    }

    /// The view of the sub-array at `index` along the first axis.
    pub fn at(&self, index: usize) -> (r: ArrayView<'a, T>)
        requires
            self.wf(),
            0 < self@.map.rank(),
            index < self@.map.dims[0],
        ensures
            r.wf(),
            r@ == self@.with_map(self@.map.axis_at(0, index as int)),
    {
        self.axis_at(0, index)
    }

    /// The views of the parts before `mid` and from `mid` on along `axis`.
    pub fn split_axis_at(&self, axis: usize, mid: usize) -> (r: (ArrayView<'a, T>, ArrayView<'a, T>))
        requires
            self.wf(),
            axis < self@.map.rank(),
            mid <= self@.map.dims[axis as int],
        ensures
            r.0.wf(),
            r.1.wf(),
            r.0@ == self@.with_map(self@.map.split_first(axis as int, mid as int)),
            r.1@ == self@.with_map(self@.map.split_second(axis as int, mid as int)),
    {
        let (first, second) = self.map.split_axis_at(axis, mid);
        (ArrayView { buf: self.buf, map: first }, ArrayView { buf: self.buf, map: second })
    }

    /// The views of the parts before `mid` and from `mid` on along the first
    /// axis.
    pub fn split_at(&self, mid: usize) -> (r: (ArrayView<'a, T>, ArrayView<'a, T>))
        requires
            self.wf(),
            0 < self@.map.rank(),
            mid <= self@.map.dims[0],
        ensures
            r.0.wf(),
            r.1.wf(),
            r.0@ == self@.with_map(self@.map.split_first(0, mid as int)),
            r.1@ == self@.with_map(self@.map.split_second(0, mid as int)),
    {
        self.split_axis_at(0, mid)
    }

    /// The view with the axes in the order `order`: axis `i` of the result
    /// is axis `order[i]` of this view.
    pub fn permute(&self, order: &[usize]) -> (r: ArrayView<'a, T>)
        requires
            self.wf(),
            is_permutation(ints(order@)),
            order@.len() == self@.map.rank(),
        ensures
            r.wf(),
            r@ == self@.with_map(self@.map.permute(ints(order@))),
    {
        ArrayView { buf: self.buf, map: self.map.permute(order) }
    }

    /// The view with the order of the axes reversed.
    pub fn transpose(&self) -> (r: ArrayView<'a, T>)
        requires
            self.wf(),
        ensures
            r.wf(),
            r@ == self@.with_map(self@.map.transpose()),
    {
        ArrayView { buf: self.buf, map: self.map.transpose() }
    }

    /// The same view under `layout`.
    pub fn remap(&self, layout: Layout) -> (r: ArrayView<'a, T>)
        requires
            self.wf(),
            self@.map.can_remap(layout),
        ensures
            r.wf(),
            r@ == self@.with_map(self@.map.remap(layout)),
    {
        ArrayView { buf: self.buf, map: self.map.remap(layout) }
    }

    /// The view of the same elements, in the same order, under the shape
    /// `dims`, in which one extent may be written as `usize::MAX` to have it
    /// inferred.
    pub fn reshape(&self, dims: &[usize]) -> (r: ArrayView<'a, T>)
        requires
            self.wf(),
            infer_dims(ints(dims@), self@.len()) is Some,
            self@.map.can_reshape(infer_dims(ints(dims@), self@.len())->0),
        ensures
            r.wf(),
            r@ == self@.with_map(self@.map.reshape(infer_dims(ints(dims@), self@.len())->0)),
    {
        let dims = resolve_extents(dims, self.map.len()).unwrap();
        ArrayView { buf: self.buf, map: self.map.reshape(dims.as_slice()) }
    }

    /// As `reshape`, but nothing where the length would change or the
    /// strides do not admit the shape.
    pub fn try_reshape(&self, dims: &[usize]) -> (r: Option<ArrayView<'a, T>>)
        requires
            self.wf(),
        ensures
            r is Some <==> infer_dims(ints(dims@), self@.len()) is Some && self@.map.can_reshape(
                infer_dims(ints(dims@), self@.len())->0,
            ),
            r is Some ==> r->0.wf() && r->0@ == self@.with_map(
                self@.map.reshape(infer_dims(ints(dims@), self@.len())->0),
            ),
    {
        match resolve_extents(dims, self.map.len()) {
            None => None,
            Some(dims) => {
                if self.map.can_reshape(dims.as_slice()) {
                    Some(ArrayView { buf: self.buf, map: self.map.reshape(dims.as_slice()) })
                } else {
                    None
                }
            },
        }
    }

    /// The view of all elements along one axis, in row-major order.
    pub fn flatten(&self) -> (r: ArrayView<'a, T>)
        requires
            self.wf(),
            self@.map.can_reshape(seq![self@.len()]),
        ensures
            r.wf(),
            r@ == self@.with_map(self@.map.reshape(seq![self@.len()])),
    {
        let mut dims: Vec<usize> = Vec::new();
        dims.push(self.map.len());
        assert(ints(dims@) =~= seq![self@.len()]);
        ArrayView { buf: self.buf, map: self.map.reshape(dims.as_slice()) }
    }

    /// The view of row `index` of a two-dimensional view.
    pub fn row(&self, index: usize) -> (r: ArrayView<'a, T>)
        requires
            self.wf(),
            self@.map.rank() == 2,
            index < self@.map.dims[0],
        ensures
            r.wf(),
            r@ == self@.with_map(self@.map.axis_at(0, index as int)),
    {
        self.axis_at(0, index)
    }

    /// The view of column `index` of a two-dimensional view.
    pub fn col(&self, index: usize) -> (r: ArrayView<'a, T>)
        requires
            self.wf(),
            self@.map.rank() == 2,
            index < self@.map.dims[1],
        ensures
            r.wf(),
            r@ == self@.with_map(self@.map.axis_at(1, index as int)),
    {
        self.axis_at(1, index)
    }

    /// The view of diagonal `index` of a two-dimensional view: above the
    /// main diagonal for a positive index, below it for a negative one.
    pub fn diag(&self, index: isize) -> (r: ArrayView<'a, T>)
        requires
            self.wf(),
            self@.map.has_diag(index as int),
        ensures
            r.wf(),
            r@ == self@.with_map(self@.map.diag(index as int)),
    {
        ArrayView { buf: self.buf, map: self.map.diag(index) }
    }

    /// The view that repeats this one to fill the shape `dims`.
    pub fn broadcast(&self, dims: &[usize]) -> (r: ArrayView<'a, T>)
        requires
            self.wf(),
            shape_fits(ints(dims@)),
            broadcasts_to(self@.map.dims, ints(dims@)),
        ensures
            r.wf(),
            r@ == self@.with_map(self@.map.broadcast(ints(dims@))),
    {
        ArrayView { buf: self.buf, map: self.map.broadcast(dims) }
    }
    /// The view of the sub-array that `index` selects, with one component
    /// per axis: an index, a range or the whole axis.
    pub fn select(&self, index: &[DimIndex]) -> (r: ArrayView<'a, T>)
        requires
            self.wf(),
            valid_selection(self@.map.dims, index@),
        ensures
            r.wf(),
            r@ == self@.with_map(self@.map.select(index@)),
    {
        proof {
            crate::select::lemma_valid_selection(self@.map, index@);
            crate::select::lemma_select_from(self@.map, index@, 0, 0);
        }
        ArrayView { buf: self.buf, map: self.map.select(index) }
    }

    /// As `select`, but nothing where a component does not fit its axis or
    /// their number is not the rank.
    pub fn try_select(&self, index: &[DimIndex]) -> (r: Option<ArrayView<'a, T>>)
        requires
            self.wf(),
        ensures
            r is Some <==> valid_selection(self@.map.dims, index@),
            r is Some ==> r->0.wf() && r->0@ == self@.with_map(self@.map.select(index@)),
    {
        if self.map.admits(index) {
            Some(self.select(index))
        } else {
            None
        }
    }

    /// The number of lanes along `axis`.
    pub fn lane_count(&self, axis: usize) -> (r: usize)
        requires
            self.wf(),
            axis < self@.map.rank(),
        ensures
            r == self@.map.lane_count(axis as int),
    {
        self.map.lane_count(axis)
    }

    /// The view of lane `k` along `axis`: the elements along `axis` at the
    /// `k`-th index tuple of the other axes, in row-major order.
    pub fn lane(&self, axis: usize, k: usize) -> (r: ArrayView<'a, T>)
        requires
            self.wf(),
            axis < self@.map.rank(),
            k < self@.map.lane_count(axis as int),
        ensures
            r.wf(),
            r@ == self@.with_map(self@.map.lane(axis as int, k as int)),
    {
        ArrayView { buf: self.buf, map: self.map.lane(axis, k) }
    }

    /// The elements, cloned, in row-major order.
    pub fn to_vec(&self) -> (r: Vec<T>) where T: Clone
        requires
            self.wf(),
        ensures
            r@.len() == self@.len(),
            forall|k: int| 0 <= k < self@.len() ==> cloned(self@.item(k), #[trigger] r@[k]),
    {
        let n = self.len();
        let mut out: Vec<T> = Vec::new();
        let mut k: usize = 0;
        while k < n
            invariant
                k <= n,
                n == self@.len(),
                self.wf(),
                out@.len() == k,
                forall|j: int| 0 <= j < k ==> cloned(self@.item(j), #[trigger] out@[j]),
            decreases n - k,
        {
            out.push(self.item(k).clone());
            k += 1;
        }
        out
    }

    /// Whether some element equals `x`.
    ///
    /// A dense view is searched as the flat memory that it is, a strided
    /// view of fewer than two axes element by element, and any other view
    /// sub-array by sub-array along its first axis.
    pub fn contains(&self, x: &T) -> (r: bool) where T: PartialEq
        requires
            self.wf(),
        ensures
            T::obeys_eq_spec() ==> (r <==> exists|k: int|
                0 <= k < self@.len() && #[trigger] self@.item(k).eq_spec(x)),
        decreases self@.map.rank(),
    {
        let n = self.len();
        if self.map.layout().is_dense() {
            let base = self.map.base();
            let mut k: usize = 0;
            proof {
                lemma_contiguous_uniform(self@.map);
                lemma_base_in_range(self@.map);
            }
            while k < n
                invariant
                    k <= n,
                    n == self@.len(),
                    self.wf(),
                    base == self@.map.base,
                    self@.map.is_uniform(),
                    self@.map.step() == 1,
                    T::obeys_eq_spec() ==> forall|j: int|
                        0 <= j < k ==> !(#[trigger] self@.item(j)).eq_spec(x),
                decreases n - k,
            {
                proof {
                    lemma_uniform_linear(self@.map, k as int);
                    assert(1 * (k as int) == k);
                    crate::index::lemma_unravel_valid(self@.map.dims, k as int);
                    crate::geometry::lemma_offset_in_bounds(
                        self@.map,
                        crate::index::unravel(self@.map.dims, k as int),
                    );
                }
                if self.buf[base + k] == *x {
                    assert(T::obeys_eq_spec() ==> self@.item(k as int).eq_spec(x));
                    return true;
                }
                k += 1;
            }
            false
        } else if self.map.rank() < 2 {
            let mut k: usize = 0;
            while k < n
                invariant
                    k <= n,
                    n == self@.len(),
                    self.wf(),
                    T::obeys_eq_spec() ==> forall|j: int|
                        0 <= j < k ==> !(#[trigger] self@.item(j)).eq_spec(x),
                decreases n - k,
            {
                if *self.item(k) == *x {
                    assert(T::obeys_eq_spec() ==> self@.item(k as int).eq_spec(x));
                    return true;
                }
                k += 1;
            }
            false
        } else {
            let rows = self.map.dim(0);
            let mut i: usize = 0;
            let ghost t: int = self@.map.axis_at(0, 0).len();
            while i < rows
                invariant
                    i <= rows,
                    rows == self@.map.dims[0],
                    self@.map.rank() >= 2,
                    self.wf(),
                    forall|a: int| 0 <= a < rows ==> #[trigger] self@.map.axis_at(0, a).len() == t,
                    T::obeys_eq_spec() ==> forall|j: int|
                        0 <= j < i * t ==> !(#[trigger] self@.item(j)).eq_spec(x),
                decreases rows - i,
            {
                let sub = self.at(i);
                let found = sub.contains(x);
                proof {
                    assert(self@.map.axis_at(0, i as int).len() == t);
                    crate::transform::lemma_axis_at_wf(self@.map, 0, i as int);
                    if T::obeys_eq_spec() {
                        if found {
                            let r = choose|r: int| 0 <= r < sub@.len() && #[trigger] sub@.item(r).eq_spec(x);
                            lemma_linear_outer(self@.map, i as int, r);
                            assert(self@.item(i * t + r).eq_spec(x));
                        } else {
                            assert forall|j: int| 0 <= j < (i + 1) * t implies !(#[trigger] self@.item(
                                j,
                            )).eq_spec(x) by {
                                if j >= i * t {
                                    let r = j - i * t;
                                    assert((i + 1) * t == i * t + t) by (nonlinear_arith);
                                    lemma_linear_outer(self@.map, i as int, r);
                                    assert(!sub@.item(r).eq_spec(x));
                                }
                            }
                        }
                    }
                }
                if found {
                    return true;
                }
                i += 1;
            }
            proof {
                if rows > 0 {
                    crate::transform::lemma_axis_at_wf(self@.map, 0, 0);
                    assert(self@.map.axis_at(0, 0).len() == t);
                    assert(t * rows == rows * t) by (nonlinear_arith);
                } else {
                    crate::shape::lemma_nonempty_shape(self@.map.dims);
                    assert(self@.len() == 0);
                }
            }
            false
        }
    }
}

} // verus!
