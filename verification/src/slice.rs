//! Slices: multidimensional arrays with their elements, from which views
//! are borrowed.
use vstd::prelude::*;
use vstd::std_specs::cmp::PartialEqSpec;
use crate::broadcast::{broadcasts_to, common_shape, compatible};
use crate::exclusive::lemma_contiguous_exclusive;
use crate::expr::{
    AxisExpr, AxisExprMut, BroadcastError, Expression, Iter, IterMut, Lanes, LanesMut, Mapped, Zip,
};
use crate::geometry::MappingView;
use crate::layout::Layout;
use crate::mapping::Mapping;
use crate::model::ArrayModel;
use crate::reshape::infer_dims;
use crate::select::{valid_selection, DimIndex};
use crate::shape::{dense_strides, ints, shape_fits, shape_len, signed_ints, Shape};
use crate::sums::is_permutation;
use crate::view::ArrayView;
use crate::view_mut::{ArrayViewMut, SplitMut};

verus! {

/// A multidimensional array slice: a block of elements and the mapping that
/// arranges them along axes.
///
/// Every operation that gives a part or a rearrangement of the slice gives a
/// view, which borrows the elements and copies none.
pub struct Slice<T> {
    data: Vec<T>,
    map: Mapping,
}

impl<T> View for Slice<T> {
    type V = ArrayModel<T>;

    closed spec fn view(&self) -> ArrayModel<T> {
        ArrayModel { buffer: self.data@, map: self.map@ }
    }
}

/// What `TryFrom<Vec<T>>` for `[T; N]` of the standard library returns: the
/// elements of the vector as an array where there are exactly `N` of them,
/// and the vector itself otherwise.
#[verifier::external_body]
fn vec_into_array<T, const N: usize>(v: Vec<T>) -> (r: Result<[T; N], Vec<T>>)
    ensures
        r is Ok <==> v@.len() == N,
        r is Ok ==> r->Ok_0@ == v@,
        r is Err ==> r->Err_0@ == v@,
{
    v.try_into()
}

impl<T> Slice<T> {
    /// The invariant of a slice: see [`ArrayModel::wf_mut`].
    pub open spec fn wf(&self) -> bool {
        self@.wf_mut()
    }

    /// The dense slice of shape `dims` with the elements of `data` in
    /// row-major order, or nothing where the shape cannot be represented or
    /// its length is not that of `data`.
    pub fn from_vec(data: Vec<T>, dims: &[usize]) -> (r: Option<Slice<T>>)
        ensures
            r is Some <==> shape_fits(ints(dims@)) && shape_len(ints(dims@)) == data@.len(),
            r is Some ==> r->0.wf() && r->0@ == (ArrayModel {
                buffer: data@,
                map: MappingView {
                    dims: ints(dims@),
                    strides: dense_strides(ints(dims@)),
                    layout: Layout::Dense,
                    base: 0,
                    limit: data@.len() as int,
                },
            }),
    {
        match Shape::new(dims) {
            None => None,
            Some(shape) => {
                if shape.len() != data.len() {
                    return None;
                }
                let map = Mapping::dense(shape);
                proof {
                    lemma_contiguous_exclusive(map@);
                }
                Some(Slice { data, map })
            },
        }
    }

    /// The memory behind the slice.
    pub fn into_vec(self) -> (r: Vec<T>)
        ensures
            r@ == self@.buffer,
    {
        self.data
    }

    /// The memory from the element whose indices are all zero on, for
    /// writing; empty where that position lies past the end.
    pub fn as_mut_ptr(&mut self) -> (r: &mut [T])
        requires
            old(self).wf(),
        ensures
            final(self)@.map == old(self)@.map,
            old(self)@.map.base <= old(self)@.buffer.len() ==> r@ == old(self)@.buffer.subrange(
                old(self)@.map.base,
                old(self)@.buffer.len() as int,
            ),
            old(self)@.map.base <= old(self)@.buffer.len() ==> final(self)@.buffer == old(
                self,
            )@.buffer.subrange(0, old(self)@.map.base) + final(r)@,
            old(self)@.map.base > old(self)@.buffer.len() ==> r@ == Seq::<T>::empty(),
            old(self)@.map.base > old(self)@.buffer.len() ==> final(self)@.buffer == old(
                self,
            )@.buffer + final(r)@,
    {
        let base = self.map.base();
        let n = self.data.len();
        let mid = if base <= n { base } else { n };
        let (head, tail) = self.data.as_mut_slice().split_at_mut(mid);
        proof {
            assert(old(self)@.buffer.subrange(0, n as int) =~= old(self)@.buffer);
            assert(old(self)@.buffer.subrange(n as int, n as int) =~= Seq::<T>::empty());
        }
        tail
    }

    /// The memory from the element whose indices are all zero on; empty
    /// where that position lies past the end.
    pub fn as_ptr(&self) -> (r: &[T])
        requires
            self.wf(),
        ensures
            r@ == (if self@.map.base <= self@.buffer.len() {
                self@.buffer.subrange(self@.map.base, self@.buffer.len() as int)
            } else {
                Seq::empty()
            }),
    {
        self.expr().as_ptr()
    }

    /// Assigns to every element a clone of the element of `expr` at the same
    /// indices, where `expr` is repeated to fill the shape of the slice.
    pub fn assign(&mut self, expr: &ArrayView<'_, T>) where T: Clone
        requires
            old(self).wf(),
            expr.wf(),
            broadcasts_to(expr@.map.dims, old(self)@.map.dims),
        ensures
            final(self).wf(),
            final(self)@.map == old(self)@.map,
            old(self)@.frames(final(self)@.buffer),
            forall|k: int|
                0 <= k < old(self)@.len() ==> cloned(
                    expr@.with_map(expr@.map.broadcast(old(self)@.map.dims)).item(k),
                    #[trigger] final(self)@.item(k),
                ),
    {
        self.expr_mut().assign(expr)
    }

    /// The view of the sub-array at `index` along the first axis.
    pub fn at(&self, index: usize) -> (r: ArrayView<'_, T>)
        requires
            self.wf(),
            0 < self@.map.rank(),
            index < self@.map.dims[0],
        ensures
            r.wf(),
            r@ == self@.with_map(self@.map.axis_at(0, index as int)),
    {
        self.expr().at(index)
    }

    /// The mutable view of the sub-array at `index` along the first axis.
    pub fn at_mut(&mut self, index: usize) -> (r: ArrayViewMut<'_, T>)
        requires
            old(self).wf(),
            0 < old(self)@.map.rank(),
            index < old(self)@.map.dims[0],
        ensures
            r.wf(),
            r@ == old(self)@.with_map(old(self)@.map.axis_at(0, index as int)),
            final(self)@.map == old(self)@.map,
            final(self)@.buffer == final(r.buf)@,
    {
        self.expr_mut().at(index)
    }

    /// The view of the sub-array at `index` along `axis`. Along the first
    /// axis it keeps the layout of the slice; along any other it is strided.
    pub fn axis_at(&self, axis: usize, index: usize) -> (r: ArrayView<'_, T>)
        requires
            self.wf(),
            axis < self@.map.rank(),
            index < self@.map.dims[axis as int],
        ensures
            r.wf(),
            r@ == self@.with_map(self@.map.axis_at(axis as int, index as int)),
    {
        self.expr().axis_at(axis, index)
    }

    /// The mutable view of the sub-array at `index` along `axis`.
    pub fn axis_at_mut(&mut self, axis: usize, index: usize) -> (r: ArrayViewMut<'_, T>)
        requires
            old(self).wf(),
            axis < old(self)@.map.rank(),
            index < old(self)@.map.dims[axis as int],
        ensures
            r.wf(),
            r@ == old(self)@.with_map(old(self)@.map.axis_at(axis as int, index as int)),
            final(self)@.map == old(self)@.map,
            final(self)@.buffer == final(r.buf)@,
    {
        self.expr_mut().axis_at(axis, index)
    }

    /// The sub-arrays along `axis`, one per index of that axis.
    pub fn axis_expr(&self, axis: usize) -> (r: AxisExpr<'_, T>)
        requires
            self.wf(),
            axis < self@.map.rank(),
        ensures
            r.valid(),
            r.view@ == self@,
            r.axis == axis,
    {
        AxisExpr { view: self.expr(), axis }
    }

    /// The sub-arrays along `axis`, for assignment.
    pub fn axis_expr_mut(&mut self, axis: usize) -> (r: AxisExprMut<'_, T>)
        requires
            old(self).wf(),
            axis < old(self)@.map.rank(),
        ensures
            r.wf(),
            r.view@ == old(self)@,
            r.axis == axis,
            final(self)@.map == old(self)@.map,
            final(self)@.buffer == final(r.view.buf)@,
    {
        AxisExprMut { view: self.expr_mut(), axis }
    }

    /// The view of column `index` of a two-dimensional slice.
    pub fn col(&self, index: usize) -> (r: ArrayView<'_, T>)
        requires
            self.wf(),
            self@.map.rank() == 2,
            index < self@.map.dims[1],
        ensures
            r.wf(),
            r@ == self@.with_map(self@.map.axis_at(1, index as int)),
    {
        self.expr().col(index)
    }

    /// The mutable view of column `index` of a two-dimensional slice.
    pub fn col_mut(&mut self, index: usize) -> (r: ArrayViewMut<'_, T>)
        requires
            old(self).wf(),
            old(self)@.map.rank() == 2,
            index < old(self)@.map.dims[1],
        ensures
            r.wf(),
            r@ == old(self)@.with_map(old(self)@.map.axis_at(1, index as int)),
            final(self)@.map == old(self)@.map,
            final(self)@.buffer == final(r.buf)@,
    {
        self.expr_mut().col(index)
    }

    /// The columns: the lanes along the last axis but one.
    pub fn cols(&self) -> (r: Lanes<'_, T>)
        requires
            self.wf(),
            self@.map.rank() >= 2,
        ensures
            r.valid(),
            r.view@ == self@,
            r.axis == self@.map.rank() - 2,
    {
        self.lanes(self.map.rank() - 2)
    }

    /// The columns, for assignment.
    pub fn cols_mut(&mut self) -> (r: LanesMut<'_, T>)
        requires
            old(self).wf(),
            old(self)@.map.rank() >= 2,
        ensures
            r.wf(),
            r.view@ == old(self)@,
            r.axis == old(self)@.map.rank() - 2,
            final(self)@.map == old(self)@.map,
            final(self)@.buffer == final(r.view.buf)@,
    {
        let axis = self.map.rank() - 2;
        self.lanes_mut(axis)
    }

    /// Whether some element equals `x`.
    pub fn contains(&self, x: &T) -> (r: bool) where T: PartialEq
        requires
            self.wf(),
        ensures
            T::obeys_eq_spec() ==> (r <==> exists|k: int|
                0 <= k < self@.len() && #[trigger] self@.item(k).eq_spec(x)),
    {
        contains(self, x)
    }

    /// The view of diagonal `index` of a two-dimensional slice: above the
    /// main diagonal for a positive index, below it for a negative one.
    pub fn diag(&self, index: isize) -> (r: ArrayView<'_, T>)
        requires
            self.wf(),
            self@.map.has_diag(index as int),
        ensures
            r.wf(),
            r@ == self@.with_map(self@.map.diag(index as int)),
    {
        self.expr().diag(index)
    }

    /// The mutable view of diagonal `index` of a two-dimensional slice.
    pub fn diag_mut(&mut self, index: isize) -> (r: ArrayViewMut<'_, T>)
        requires
            old(self).wf(),
            old(self)@.map.has_diag(index as int),
        ensures
            r.wf(),
            r@ == old(self)@.with_map(old(self)@.map.diag(index as int)),
            final(self)@.map == old(self)@.map,
            final(self)@.buffer == final(r.buf)@,
    {
        self.expr_mut().diag(index)
    }

    /// The extent of axis `index`.
    pub fn dim(&self, index: usize) -> (r: usize)
        requires
            index < self@.map.rank(),
        ensures
            r == self@.map.dims[index as int],
    {
        self.map.dim(index)
    }

    /// The view of the whole slice.
    pub fn expr(&self) -> (r: ArrayView<'_, T>)
        requires
            self.wf(),
        ensures
            r.wf(),
            r@ == self@,
    {
        ArrayView::from_parts(self.data.as_slice(), self.map.duplicate()).unwrap()
    }

    /// The mutable view of the whole slice.
    pub fn expr_mut(&mut self) -> (r: ArrayViewMut<'_, T>)
        requires
            old(self).wf(),
        ensures
            r.wf(),
            r@ == old(self)@,
            final(self)@.map == old(self)@.map,
            final(self)@.buffer == final(r.buf)@,
    {
        let map = self.map.duplicate();
        ArrayViewMut { buf: self.data.as_mut_slice(), map }
    }

    /// Assigns a clone of `value` to every element.
    pub fn fill(&mut self, value: T) where T: Clone
        requires
            old(self).wf(),
        ensures
            final(self).wf(),
            final(self)@.map == old(self)@.map,
            old(self)@.frames(final(self)@.buffer),
            forall|k: int|
                0 <= k < old(self)@.len() ==> cloned(value, #[trigger] final(self)@.item(k)),
    {
        self.expr_mut().fill(value)
    }

    /// Assigns to every element, in row-major order, what a call of `f`
    /// returns.
    pub fn fill_with<F: FnMut() -> T>(&mut self, f: F)
        requires
            old(self).wf(),
            call_requires(f, ()),
        ensures
            final(self).wf(),
            final(self)@.map == old(self)@.map,
            old(self)@.frames(final(self)@.buffer),
            forall|k: int|
                0 <= k < old(self)@.len() ==> call_ensures(f, (), #[trigger] final(self)@.item(k)),
    {
        self.expr_mut().fill_with(f)
    }

    /// The view of all elements along one axis, in row-major order.
    pub fn flatten(&self) -> (r: ArrayView<'_, T>)
        requires
            self.wf(),
            self@.map.can_reshape(seq![self@.len()]),
        ensures
            r.wf(),
            r@ == self@.with_map(self@.map.reshape(seq![self@.len()])),
    {
        self.expr().flatten()
    }

    /// The mutable view of all elements along one axis.
    pub fn flatten_mut(&mut self) -> (r: ArrayViewMut<'_, T>)
        requires
            old(self).wf(),
            old(self)@.map.can_reshape(seq![old(self)@.len()]),
        ensures
            r.wf(),
            r@ == old(self)@.with_map(old(self)@.map.reshape(seq![old(self)@.len()])),
            final(self)@.map == old(self)@.map,
            final(self)@.buffer == final(r.buf)@,
    {
        self.expr_mut().flatten()
    }

    /// The element that `index` names, or nothing where `index` names none.
    pub fn get(&self, index: &[usize]) -> (r: Option<&T>)
        requires
            self.wf(),
        ensures
            r is Some <==> self@.map.valid(ints(index@)),
            r is Some ==> *r->0 == self@.at(ints(index@)),
    {
        self.expr().get(index)
    }

    /// The element that `index` names for assignment, or nothing where
    /// `index` names none.
    pub fn get_mut(&mut self, index: &[usize]) -> (r: Option<&mut T>)
        requires
            old(self).wf(),
        ensures
            final(self)@.map == old(self)@.map,
            r is Some <==> old(self)@.map.valid(ints(index@)),
            r is Some ==> *r->0 == old(self)@.at(ints(index@)),
            r is Some ==> final(self)@.buffer == old(self)@.buffer.update(
                old(self)@.map.offset(ints(index@)),
                *final(r->0),
            ),
            r is None ==> final(self)@.buffer == old(self)@.buffer,
    {
        self.expr_mut().get_mut(index)
    }

    /// The element that `index` names, without a test of `index`.
    pub fn get_unchecked(&self, index: &[usize]) -> (r: &T)
        requires
            self.wf(),
            self@.map.valid(ints(index@)),
        ensures
            *r == self@.at(ints(index@)),
    {
        self.expr().get_unchecked(index)
    }

    /// The element that `index` names for assignment, without a test of
    /// `index`.
    pub fn get_unchecked_mut(&mut self, index: &[usize]) -> (r: &mut T)
        requires
            old(self).wf(),
            old(self)@.map.valid(ints(index@)),
        ensures
            final(self)@.map == old(self)@.map,
            *r == old(self)@.at(ints(index@)),
            final(self)@.buffer == old(self)@.buffer.update(
                old(self)@.map.offset(ints(index@)),
                *final(r),
            ),
    {
        self.expr_mut().get_unchecked_mut(index)
    }

    /// Whether the strides are those of contiguous row-major memory.
    pub fn is_contiguous(&self) -> (r: bool)
        requires
            self.wf(),
        ensures
            r <==> self@.map.is_contiguous(),
    {
        self.map.is_contiguous()
    }

    /// Whether the slice has no elements.
    pub fn is_empty(&self) -> (r: bool)
        requires
            self.wf(),
        ensures
            r <==> self@.len() == 0,
    {
        self.map.is_empty()
    }

    /// The elements one after the other, in row-major order.
    pub fn iter(&self) -> (r: Iter<'_, T>)
        requires
            self.wf(),
        ensures
            r.wf(),
            r.view@ == self@,
            r.pos == 0,
    {
        Iter::new(self.expr())
    }

    /// The elements one after the other, for assignment.
    pub fn iter_mut(&mut self) -> (r: IterMut<'_, T>)
        requires
            old(self).wf(),
        ensures
            r.wf(),
            r.view@ == old(self)@,
            r.pos == 0,
            final(self)@.map == old(self)@.map,
            final(self)@.buffer == final(r.view.buf)@,
    {
        proof {
            crate::shape::lemma_nonempty_shape(old(self)@.map.dims);
        }
        IterMut { view: self.expr_mut(), pos: 0 }
    }

    /// The lanes along `axis`, one per index tuple of the other axes. Along
    /// the last axis they keep the layout of the slice; along any other they
    /// are strided.
    pub fn lanes(&self, axis: usize) -> (r: Lanes<'_, T>)
        requires
            self.wf(),
            axis < self@.map.rank(),
        ensures
            r.valid(),
            r.view@ == self@,
            r.axis == axis,
    {
        Lanes { view: self.expr(), axis }
    }

    /// The lanes along `axis`, for assignment.
    pub fn lanes_mut(&mut self, axis: usize) -> (r: LanesMut<'_, T>)
        requires
            old(self).wf(),
            axis < old(self)@.map.rank(),
        ensures
            r.wf(),
            r.view@ == old(self)@,
            r.axis == axis,
            final(self)@.map == old(self)@.map,
            final(self)@.buffer == final(r.view.buf)@,
    {
        LanesMut { view: self.expr_mut(), axis }
    }

    /// The number of elements.
    pub fn len(&self) -> (r: usize)
        requires
            self.wf(),
        ensures
            r == self@.len(),
    {
        self.map.len()
    }

    /// The mapping.
    pub fn mapping(&self) -> (r: &Mapping)
        ensures
            r@ == self@.map,
    {
        &self.map
    }

    /// The sub-arrays along the first axis.
    pub fn outer_expr(&self) -> (r: AxisExpr<'_, T>)
        requires
            self.wf(),
            0 < self@.map.rank(),
        ensures
            r.valid(),
            r.view@ == self@,
            r.axis == 0,
    {
        self.axis_expr(0)
    }

    /// The sub-arrays along the first axis, for assignment.
    pub fn outer_expr_mut(&mut self) -> (r: AxisExprMut<'_, T>)
        requires
            old(self).wf(),
            0 < old(self)@.map.rank(),
        ensures
            r.wf(),
            r.view@ == old(self)@,
            r.axis == 0,
            final(self)@.map == old(self)@.map,
            final(self)@.buffer == final(r.view.buf)@,
    {
        self.axis_expr_mut(0)
    }

    /// The view with the axes in the order `perm`: axis `i` of the view is
    /// axis `perm[i]` of the slice. Only the identity order keeps a dense
    /// layout.
    pub fn permute(&self, perm: &[usize]) -> (r: ArrayView<'_, T>)
        requires
            self.wf(),
            is_permutation(ints(perm@)),
            perm@.len() == self@.map.rank(),
        ensures
            r.wf(),
            r@ == self@.with_map(self@.map.permute(ints(perm@))),
    {
        self.expr().permute(perm)
    }

    /// The mutable view with the axes in the order `perm`.
    pub fn permute_mut(&mut self, perm: &[usize]) -> (r: ArrayViewMut<'_, T>)
        requires
            old(self).wf(),
            is_permutation(ints(perm@)),
            perm@.len() == old(self)@.map.rank(),
        ensures
            r.wf(),
            r@ == old(self)@.with_map(old(self)@.map.permute(ints(perm@))),
            final(self)@.map == old(self)@.map,
            final(self)@.buffer == final(r.buf)@,
    {
        self.expr_mut().permute(perm)
    }

    /// The number of axes.
    pub fn rank(&self) -> (r: usize)
        ensures
            r == self@.map.rank(),
    {
        self.map.rank()
    }

    /// The view of the slice under `layout`.
    pub fn remap(&self, layout: Layout) -> (r: ArrayView<'_, T>)
        requires
            self.wf(),
            self@.map.can_remap(layout),
        ensures
            r.wf(),
            r@ == self@.with_map(self@.map.remap(layout)),
    {
        self.expr().remap(layout)
    }

    /// The mutable view of the slice under `layout`.
    pub fn remap_mut(&mut self, layout: Layout) -> (r: ArrayViewMut<'_, T>)
        requires
            old(self).wf(),
            old(self)@.map.can_remap(layout),
        ensures
            r.wf(),
            r@ == old(self)@.with_map(old(self)@.map.remap(layout)),
            final(self)@.map == old(self)@.map,
            final(self)@.buffer == final(r.buf)@,
    {
        self.expr_mut().remap(layout)
    }

    /// The view with the order of the axes reversed: an alias of
    /// `transpose`, which is the name to prefer.
    pub fn reorder(&self) -> (r: ArrayView<'_, T>)
        requires
            self.wf(),
        ensures
            r.wf(),
            r@ == self@.with_map(self@.map.transpose()),
    {
        self.expr().transpose()
    }

    /// The mutable view with the order of the axes reversed: an alias of
    /// `transpose_mut`, which is the name to prefer.
    pub fn reorder_mut(&mut self) -> (r: ArrayViewMut<'_, T>)
        requires
            old(self).wf(),
        ensures
            r.wf(),
            r@ == old(self)@.with_map(old(self)@.map.transpose()),
            final(self)@.map == old(self)@.map,
            final(self)@.buffer == final(r.buf)@,
    {
        self.expr_mut().transpose()
    }

    /// The view of the same elements, in the same order, under the shape
    /// `shape`, in which one extent may be written as `usize::MAX` to have it
    /// inferred from the length.
    pub fn reshape(&self, shape: &[usize]) -> (r: ArrayView<'_, T>)
        requires
            self.wf(),
            infer_dims(ints(shape@), self@.len()) is Some,
            self@.map.can_reshape(infer_dims(ints(shape@), self@.len())->0),
        ensures
            r.wf(),
            r@ == self@.with_map(self@.map.reshape(infer_dims(ints(shape@), self@.len())->0)),
    {
        self.expr().reshape(shape)
    }

    /// As `reshape`, but nothing where the length would change or the
    /// strides do not admit the shape.
    pub fn try_reshape(&self, shape: &[usize]) -> (r: Option<ArrayView<'_, T>>)
        requires
            self.wf(),
        ensures
            r is Some <==> infer_dims(ints(shape@), self@.len()) is Some && self@.map.can_reshape(
                infer_dims(ints(shape@), self@.len())->0,
            ),
            r is Some ==> r->0.wf() && r->0@ == self@.with_map(
                self@.map.reshape(infer_dims(ints(shape@), self@.len())->0),
            ),
    {
        self.expr().try_reshape(shape)
    }

    /// The mutable view of the same elements under the shape `shape`.
    pub fn reshape_mut(&mut self, shape: &[usize]) -> (r: ArrayViewMut<'_, T>)
        requires
            old(self).wf(),
            infer_dims(ints(shape@), old(self)@.len()) is Some,
            old(self)@.map.can_reshape(infer_dims(ints(shape@), old(self)@.len())->0),
        ensures
            r.wf(),
            r@ == old(self)@.with_map(
                old(self)@.map.reshape(infer_dims(ints(shape@), old(self)@.len())->0),
            ),
            final(self)@.map == old(self)@.map,
            final(self)@.buffer == final(r.buf)@,
    {
        self.expr_mut().reshape(shape)
    }

    /// The view of row `index` of a two-dimensional slice.
    pub fn row(&self, index: usize) -> (r: ArrayView<'_, T>)
        requires
            self.wf(),
            self@.map.rank() == 2,
            index < self@.map.dims[0],
        ensures
            r.wf(),
            r@ == self@.with_map(self@.map.axis_at(0, index as int)),
    {
        self.expr().row(index)
    }

    /// The mutable view of row `index` of a two-dimensional slice.
    pub fn row_mut(&mut self, index: usize) -> (r: ArrayViewMut<'_, T>)
        requires
            old(self).wf(),
            old(self)@.map.rank() == 2,
            index < old(self)@.map.dims[0],
        ensures
            r.wf(),
            r@ == old(self)@.with_map(old(self)@.map.axis_at(0, index as int)),
            final(self)@.map == old(self)@.map,
            final(self)@.buffer == final(r.buf)@,
    {
        self.expr_mut().row(index)
    }

    /// The rows: the lanes along the last axis.
    pub fn rows(&self) -> (r: Lanes<'_, T>)
        requires
            self.wf(),
            self@.map.rank() >= 1,
        ensures
            r.valid(),
            r.view@ == self@,
            r.axis == self@.map.rank() - 1,
    {
        self.lanes(self.map.rank() - 1)
    }

    /// The rows, for assignment.
    pub fn rows_mut(&mut self) -> (r: LanesMut<'_, T>)
        requires
            old(self).wf(),
            old(self)@.map.rank() >= 1,
        ensures
            r.wf(),
            r.view@ == old(self)@,
            r.axis == old(self)@.map.rank() - 1,
            final(self)@.map == old(self)@.map,
            final(self)@.buffer == final(r.view.buf)@,
    {
        let axis = self.map.rank() - 1;
        self.lanes_mut(axis)
    }

    /// The shape.
    pub fn shape(&self) -> (r: &Shape)
        ensures
            r@ == self@.map.dims,
    {
        self.map.shape()
    }

    /// The views of the parts before `mid` and from `mid` on along the first
    /// axis.
    pub fn split_at(&self, mid: usize) -> (r: (ArrayView<'_, T>, ArrayView<'_, T>))
        requires
            self.wf(),
            0 < self@.map.rank(),
            mid <= self@.map.dims[0],
        ensures
            r.0.wf(),
            r.1.wf(),
            r.0@ == self@.with_map(self@.map.split_first(0, mid as int)),
            r.1@ == self@.with_map(self@.map.split_second(0, mid as int)),
    {
        self.expr().split_at(mid)
    }

    /// The mutable parts before `mid` and from `mid` on along the first
    /// axis.
    pub fn split_at_mut(&mut self, mid: usize) -> (r: SplitMut<'_, T>)
        requires
            old(self).wf(),
            0 < old(self)@.map.rank(),
            mid <= old(self)@.map.dims[0],
        ensures
            r.wf(),
            r.buf@ == old(self)@.buffer,
            r.first@ == old(self)@.map.split_first(0, mid as int),
            r.second@ == old(self)@.map.split_second(0, mid as int),
            final(self)@.map == old(self)@.map,
            final(self)@.buffer == final(r.buf)@,
    {
        self.expr_mut().split_at(mid)
    }

    /// The views of the parts before `mid` and from `mid` on along `axis`.
    /// Along the first axis they keep the layout of the slice; along any
    /// other they are strided.
    pub fn split_axis_at(&self, axis: usize, mid: usize) -> (r: (
        ArrayView<'_, T>,
        ArrayView<'_, T>,
    ))
        requires
            self.wf(),
            axis < self@.map.rank(),
            mid <= self@.map.dims[axis as int],
        ensures
            r.0.wf(),
            r.1.wf(),
            r.0@ == self@.with_map(self@.map.split_first(axis as int, mid as int)),
            r.1@ == self@.with_map(self@.map.split_second(axis as int, mid as int)),
    {
        self.expr().split_axis_at(axis, mid)
    }

    /// The mutable parts before `mid` and from `mid` on along `axis`.
    pub fn split_axis_at_mut(&mut self, axis: usize, mid: usize) -> (r: SplitMut<'_, T>)
        requires
            old(self).wf(),
            axis < old(self)@.map.rank(),
            mid <= old(self)@.map.dims[axis as int],
        ensures
            r.wf(),
            r.buf@ == old(self)@.buffer,
            r.first@ == old(self)@.map.split_first(axis as int, mid as int),
            r.second@ == old(self)@.map.split_second(axis as int, mid as int),
            final(self)@.map == old(self)@.map,
            final(self)@.buffer == final(r.buf)@,
    {
        self.expr_mut().split_axis_at(axis, mid)
    }

    /// The distance in memory between neighbours along axis `index`.
    pub fn stride(&self, index: usize) -> (r: isize)
        requires
            self.wf(),
            index < self@.map.rank(),
        ensures
            r == self@.map.strides[index as int],
    {
        self.map.stride(index)
    }

    /// The elements, cloned, as an array of `N` elements in row-major
    /// order; nothing where the slice does not have `N` elements.
    pub fn to_array<const N: usize>(&self) -> (r: Option<[T; N]>) where T: Clone
        requires
            self.wf(),
        ensures
            r is Some <==> self@.len() == N,
            r is Some ==> forall|k: int|
                0 <= k < self@.len() ==> cloned(self@.item(k), #[trigger] r->0@[k]),
    {
        match vec_into_array(self.to_vec()) {
            Ok(array) => Some(array),
            Err(_) => None,
        }
    }

    /// The elements, cloned, as a dense slice of the same shape.
    pub fn to_tensor(&self) -> (r: Slice<T>) where T: Clone
        requires
            self.wf(),
        ensures
            r.wf(),
            r@.map == (MappingView {
                dims: self@.map.dims,
                strides: dense_strides(self@.map.dims),
                layout: Layout::Dense,
                base: 0,
                limit: self@.len(),
            }),
            r@.buffer.len() == self@.len(),
            forall|k: int| 0 <= k < self@.len() ==> cloned(self@.item(k), #[trigger] r@.buffer[k]),
    {
        let data = self.to_vec();
        Slice::from_vec(data, self.map.dims()).unwrap()
    }

    /// The elements, cloned, in row-major order.
    pub fn to_vec(&self) -> (r: Vec<T>) where T: Clone
        requires
            self.wf(),
        ensures
            r@.len() == self@.len(),
            forall|k: int| 0 <= k < self@.len() ==> cloned(self@.item(k), #[trigger] r@[k]),
    {
        self.expr().to_vec()
    }

    /// The view with the order of the axes reversed. A slice of fewer than
    /// two axes keeps its layout; any other becomes strided.
    pub fn transpose(&self) -> (r: ArrayView<'_, T>)
        requires
            self.wf(),
        ensures
            r.wf(),
            r@ == self@.with_map(self@.map.transpose()),
    {
        self.expr().transpose()
    }

    /// The mutable view with the order of the axes reversed.
    pub fn transpose_mut(&mut self) -> (r: ArrayViewMut<'_, T>)
        requires
            old(self).wf(),
        ensures
            r.wf(),
            r@ == old(self)@.with_map(old(self)@.map.transpose()),
            final(self)@.map == old(self)@.map,
            final(self)@.buffer == final(r.buf)@,
    {
        self.expr_mut().transpose()
    }

    /// The extents of all axes, outermost first.
    pub fn dims(&self) -> (r: &[usize])
        ensures
            ints(r@) == self@.map.dims,
    {
        self.map.dims()
    }

    /// The strides of all axes, outermost first.
    pub fn strides(&self) -> (r: Vec<isize>)
        requires
            self.wf(),
        ensures
            signed_ints(r@) == self@.map.strides,
    {
        self.map.strides()
    }

    /// The view of the sub-array that `index` selects, with one component
    /// per axis: an index, a range or the whole axis.
    pub fn select(&self, index: &[DimIndex]) -> (r: ArrayView<'_, T>)
        requires
            self.wf(),
            valid_selection(self@.map.dims, index@),
        ensures
            r.wf(),
            r@ == self@.with_map(self@.map.select(index@)),
    {
        self.expr().select(index)
    }

    /// The mutable view of the sub-array that `index` selects.
    pub fn select_mut(&mut self, index: &[DimIndex]) -> (r: ArrayViewMut<'_, T>)
        requires
            old(self).wf(),
            valid_selection(old(self)@.map.dims, index@),
        ensures
            r.wf(),
            r@ == old(self)@.with_map(old(self)@.map.select(index@)),
            final(self)@.map == old(self)@.map,
            final(self)@.buffer == final(r.buf)@,
    {
        self.expr_mut().select(index)
    }

    /// The elements passed through `f`, one at a time as they are asked
    /// for.
    pub fn apply<V, F: Fn(&T) -> V>(&self, f: F) -> (r: Mapped<ArrayView<'_, T>, F>)
        requires
            self.wf(),
        ensures
            r.inner@ == self@,
            r.inner.wf(),
            r.f == f,
    {
        Mapped { inner: self.expr(), f }
    }

    /// The pairs of an element of this slice and one of `expr`, both
    /// repeated to fill their common shape, passed through `f`; or why the
    /// shapes do not allow it.
    pub fn zip_with<'a, 'b, U, V, F: Fn((&'a T, &'b U)) -> V>(
        &'a self,
        expr: &ArrayView<'b, U>,
        f: F,
    ) -> (r: Result<Mapped<Zip<'a, 'b, T, U>, F>, BroadcastError>)
        requires
            self.wf(),
            expr.wf(),
        ensures
            r is Ok <==> compatible(self@.map.dims, expr@.map.dims) && shape_fits(
                common_shape(self@.map.dims, expr@.map.dims),
            ),
            r is Ok ==> r->Ok_0.f == f && r->Ok_0.inner.valid() && r->Ok_0.inner.left@
                == self@.with_map(
                self@.map.broadcast(common_shape(self@.map.dims, expr@.map.dims)),
            ) && r->Ok_0.inner.right@ == expr@.with_map(
                expr@.map.broadcast(common_shape(self@.map.dims, expr@.map.dims)),
            ),
    {
        match Zip::new(&self.expr(), expr) {
            Ok(inner) => Ok(Mapped { inner, f }),
            Err(e) => Err(e),
        }
    }
}

/// Whether some element of `this` equals `value`.
///
/// A dense slice is searched as the flat memory that it is, a strided one
/// of fewer than two axes element by element, and any other sub-array by
/// sub-array along its first axis.
pub fn contains<T: PartialEq>(this: &Slice<T>, value: &T) -> (r: bool)
    requires
        this.wf(),
    ensures
        T::obeys_eq_spec() ==> (r <==> exists|k: int|
            0 <= k < this@.len() && #[trigger] this@.item(k).eq_spec(value)),
{
    this.expr().contains(value)
}

} // verus!
