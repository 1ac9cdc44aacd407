//! Expressions: lazy traversals of views, composed by nesting.
use vstd::prelude::*;
use crate::broadcast::{common_shape, compatible, lemma_common_shape};
use crate::mapping::common_extents;
use crate::shape::{shape_fits, Shape};
use crate::view::ArrayView;
use crate::view_mut::ArrayViewMut;

verus! {

/// A finite sequence of items that is produced one position at a time,
/// without being stored.
pub trait Expression {
    /// What the expression produces at each position.
    type Item;

    /// The invariant of the expression.
    spec fn valid(&self) -> bool;

    /// The number of positions.
    spec fn count(&self) -> int;

    /// Whether `item` is what the expression may produce at position `k`.
    spec fn yields(&self, k: int, item: Self::Item) -> bool;

    /// The number of positions.
    fn len(&self) -> (r: usize)
        requires
            self.valid(),
        ensures
            r == self.count(),
    ;

    /// The item at position `k`.
    fn item(&self, k: usize) -> (r: Self::Item)
        requires
            self.valid(),
            k < self.count(),
        ensures
            self.yields(k as int, r),
    ;
}

/// All items of `expr`, in order.
pub fn collect<E: Expression>(expr: &E) -> (r: Vec<E::Item>)
    requires
        expr.valid(),
    ensures
        r@.len() == expr.count(),
        forall|k: int| 0 <= k < expr.count() ==> expr.yields(k, #[trigger] r@[k]),
{
    let n = expr.len();
    let mut out: Vec<E::Item> = Vec::new();
    let mut k: usize = 0;
    while k < n
        invariant
            k <= n,
            n == expr.count(),
            expr.valid(),
            out@.len() == k,
            forall|j: int| 0 <= j < k ==> expr.yields(j, #[trigger] out@[j]),
        decreases n - k,
    {
        out.push(expr.item(k));
        k += 1;
    }
    out
}

/// A view produces its elements in row-major order.
impl<'a, T> Expression for ArrayView<'a, T> {
    type Item = &'a T;

    open spec fn valid(&self) -> bool {
        self.wf()
    }

    open spec fn count(&self) -> int {
        self@.len()
    }

    open spec fn yields(&self, k: int, item: &'a T) -> bool {
        *item == self@.item(k)
    }

    fn len(&self) -> (r: usize) {
        ArrayView::len(self)
    }

    fn item(&self, k: usize) -> (r: &'a T) {
        ArrayView::item(self, k)
    }
}

/// The elements of a view, one after the other in row-major order.
pub struct Iter<'a, T> {
    /// The view that is traversed.
    pub view: ArrayView<'a, T>,
    /// The position of the next element.
    pub pos: usize,
}

impl<'a, T> Iter<'a, T> {
    /// The invariant of an iterator: it stands at or before the end of a
    /// well-formed view.
    pub open spec fn wf(&self) -> bool {
        &&& self.view.wf()
        &&& self.pos <= self.view@.len()
    }

    /// The elements that are still to come.
    pub open spec fn remaining(&self) -> Seq<T> {
        self.view@.elems().skip(self.pos as int)
    }

    /// The iterator at the start of `view`.
    pub fn new(view: ArrayView<'a, T>) -> (r: Iter<'a, T>)
        requires
            view.wf(),
        ensures
            r.wf(),
            r.view@ == view@,
            r.pos == 0,
    {
        proof {
            crate::shape::lemma_nonempty_shape(view@.map.dims);
        }
        Iter { view, pos: 0 }
    }

    /// The next element, or nothing at the end.
    pub fn next(&mut self) -> (r: Option<&'a T>)
        requires
            old(self).wf(),
        ensures
            final(self).wf(),
            final(self).view@ == old(self).view@,
            old(self).pos < old(self).view@.len() ==> r is Some && *r->0 == old(self).view@.item(
                old(self).pos as int,
            ) && final(self).pos == old(self).pos + 1,
            old(self).pos >= old(self).view@.len() ==> r is None && final(self).pos == old(
                self,
            ).pos,
    {
        if self.pos < self.view.len() {
            let r = self.view.item(self.pos);
            self.pos += 1;
            Some(r)
        } else {
            None
        }
    }
}

/// The sub-arrays of a view along one axis, one per index of that axis.
///
/// The sub-arrays along the first axis keep the layout of the view; those
/// along any other axis are strided.
pub struct AxisExpr<'a, T> {
    /// The view that is traversed.
    pub view: ArrayView<'a, T>,
    /// The axis along which it is traversed.
    pub axis: usize,
}

impl<'a, T> Expression for AxisExpr<'a, T> {
    type Item = ArrayView<'a, T>;

    open spec fn valid(&self) -> bool {
        &&& self.view.wf()
        &&& self.axis < self.view@.map.rank()
    }

    open spec fn count(&self) -> int {
        self.view@.map.dims[self.axis as int]
    }

    open spec fn yields(&self, k: int, item: ArrayView<'a, T>) -> bool {
        &&& item.wf()
        &&& item@ == self.view@.with_map(self.view@.map.axis_at(self.axis as int, k))
    }

    fn len(&self) -> (r: usize) {
        self.view.dim(self.axis)
    }

    fn item(&self, k: usize) -> (r: ArrayView<'a, T>) {
        self.view.axis_at(self.axis, k)
    }
}

/// The lanes of a view along one axis, one per index tuple of the other
/// axes, in row-major order of those.
///
/// The lanes along the last axis keep the layout of the view; those along
/// any other axis are strided.
pub struct Lanes<'a, T> {
    /// The view that is traversed.
    pub view: ArrayView<'a, T>,
    /// The axis along which the lanes lie.
    pub axis: usize,
}

impl<'a, T> Expression for Lanes<'a, T> {
    type Item = ArrayView<'a, T>;

    open spec fn valid(&self) -> bool {
        &&& self.view.wf()
        &&& self.axis < self.view@.map.rank()
    }

    open spec fn count(&self) -> int {
        self.view@.map.lane_count(self.axis as int)
    }

    open spec fn yields(&self, k: int, item: ArrayView<'a, T>) -> bool {
        &&& item.wf()
        &&& item@ == self.view@.with_map(self.view@.map.lane(self.axis as int, k))
    }

    fn len(&self) -> (r: usize) {
        self.view.lane_count(self.axis)
    }

    fn item(&self, k: usize) -> (r: ArrayView<'a, T>) {
        self.view.lane(self.axis, k)
    }
}

/// Why two views cannot be traversed together.
#[derive(Clone, Copy, PartialEq, Eq, Structural, Debug)]
pub enum BroadcastError {
    /// On some axis the extents differ and neither is one, or the ranks
    /// differ and neither is zero.
    Incompatible,
    /// The common shape is too large to be represented.
    TooLarge,
}

impl BroadcastError {
    /// The failure in words.
    pub fn describe(&self) -> (r: &'static str)
        ensures
            r@ == (match *self {
                BroadcastError::Incompatible => "shapes cannot be broadcast together"@,
                BroadcastError::TooLarge => "broadcast shape is too large"@,
            }),
    {
        match self {
            BroadcastError::Incompatible => "shapes cannot be broadcast together",
            BroadcastError::TooLarge => "broadcast shape is too large",
        }
    }
}

/// Two views traversed together, each repeated to fill their common shape.
pub struct Zip<'a, 'b, T, U> {
    /// The first view, repeated to fill the common shape.
    pub left: ArrayView<'a, T>,
    /// The second view, repeated to fill the common shape.
    pub right: ArrayView<'b, U>,
}

impl<'a, 'b, T, U> Zip<'a, 'b, T, U> {
    /// Pairs the elements of `left` and `right`, or says why their shapes do
    /// not allow it.
    pub fn new(left: &ArrayView<'a, T>, right: &ArrayView<'b, U>) -> (r: Result<
        Zip<'a, 'b, T, U>,
        BroadcastError,
    >)
        requires
            left.wf(),
            right.wf(),
        ensures
            r is Ok <==> compatible(left@.map.dims, right@.map.dims) && shape_fits(
                common_shape(left@.map.dims, right@.map.dims),
            ),
            r == Err::<Zip<'a, 'b, T, U>, BroadcastError>(BroadcastError::Incompatible)
                <==> !compatible(left@.map.dims, right@.map.dims),
            r is Ok ==> r->Ok_0.valid() && r->Ok_0.left@ == left@.with_map(
                left@.map.broadcast(common_shape(left@.map.dims, right@.map.dims)),
            ) && r->Ok_0.right@ == right@.with_map(
                right@.map.broadcast(common_shape(left@.map.dims, right@.map.dims)),
            ),
    {
        let dims = match common_extents(left.dims(), right.dims()) {
            Some(dims) => dims,
            None => {
                return Err(BroadcastError::Incompatible);
            },
        };
        if Shape::new(dims.as_slice()).is_none() {
            return Err(BroadcastError::TooLarge);
        }
        proof {
            lemma_common_shape(left@.map.dims, right@.map.dims);
        }
        Ok(Zip { left: left.broadcast(dims.as_slice()), right: right.broadcast(dims.as_slice()) })
    }
}

impl<'a, 'b, T, U> Expression for Zip<'a, 'b, T, U> {
    type Item = (&'a T, &'b U);

    open spec fn valid(&self) -> bool {
        &&& self.left.wf()
        &&& self.right.wf()
        &&& self.left@.map.dims == self.right@.map.dims
    }

    open spec fn count(&self) -> int {
        self.left@.len()
    }

    open spec fn yields(&self, k: int, item: (&'a T, &'b U)) -> bool {
        &&& *item.0 == self.left@.item(k)
        &&& *item.1 == self.right@.item(k)
    }

    fn len(&self) -> (r: usize) {
        self.left.len()
    }

    fn item(&self, k: usize) -> (r: (&'a T, &'b U)) {
        (self.left.item(k), self.right.item(k))
    }
}

/// An expression whose items are passed through a function.
pub struct Mapped<E, F> {
    /// The expression that produces the arguments.
    pub inner: E,
    /// The function that is applied to each of them.
    pub f: F,
}

impl<E: Expression, V, F: Fn(E::Item) -> V> Expression for Mapped<E, F> {
    type Item = V;

    open spec fn valid(&self) -> bool {
        &&& self.inner.valid()
        &&& forall|k: int, x: E::Item|
            0 <= k < self.inner.count() && #[trigger] self.inner.yields(k, x) ==> call_requires(
                self.f,
                (x,),
            )
    }

    open spec fn count(&self) -> int {
        self.inner.count()
    }

    open spec fn yields(&self, k: int, item: V) -> bool {
        exists|x: E::Item| #[trigger] self.inner.yields(k, x) && call_ensures(self.f, (x,), item)
    }

    fn len(&self) -> (r: usize) {
        self.inner.len()
    }

    fn item(&self, k: usize) -> (r: V) {
        let x = self.inner.item(k);
        (self.f)(x)
    }
}

/// The elements of a mutable view, one after the other in row-major order,
/// each handed out for assignment.
pub struct IterMut<'a, T> {
    /// The view that is traversed.
    pub view: ArrayViewMut<'a, T>,
    /// The position of the next element.
    pub pos: usize,
}

impl<'a, T> IterMut<'a, T> {
    /// The invariant of an iterator: it stands at or before the end of a
    /// well-formed view.
    pub open spec fn wf(&self) -> bool {
        &&& self.view.wf()
        &&& self.pos <= self.view@.len()
    }

    /// The next element, or nothing at the end.
    pub fn next(&mut self) -> (r: Option<&mut T>)
        requires
            old(self).wf(),
        ensures
            final(self).wf(),
            final(self).view.map@ == old(self).view.map@,
            final(final(self).view.buf)@ == final(old(self).view.buf)@,
            old(self).pos < old(self).view@.len() ==> r is Some && *r->0 == old(self).view@.item(
                old(self).pos as int,
            ) && final(self).pos == old(self).pos + 1 && final(self).view.buf@ == old(
                self,
            ).view.buf@.update(old(self).view@.map.linear(old(self).pos as int), *final(r->0)),
            old(self).pos >= old(self).view@.len() ==> r is None && final(self).pos == old(
                self,
            ).pos && final(self).view.buf@ == old(self).view.buf@,
    {
        if self.pos < self.view.map.len() {
            let o = self.view.map.linear_offset(self.pos);
            self.pos += 1;
            Some(&mut self.view.buf[o])
        } else {
            None
        }
    }
}

/// The sub-arrays of a mutable view along one axis, each handed out for
/// as long as no other is in use.
pub struct AxisExprMut<'a, T> {
    /// The view that is traversed.
    pub view: ArrayViewMut<'a, T>,
    /// The axis along which it is traversed.
    pub axis: usize,
}

impl<'a, T> AxisExprMut<'a, T> {
    /// The invariant: the axis is one of a well-formed view.
    pub open spec fn wf(&self) -> bool {
        &&& self.view.wf()
        &&& self.axis < self.view@.map.rank()
    }

    /// The number of sub-arrays.
    pub fn len(&self) -> (r: usize)
        requires
            self.wf(),
        ensures
            r == self.view@.map.dims[self.axis as int],
    {
        self.view.map.dim(self.axis)
    }

    /// The sub-array at index `k` of the axis.
    pub fn item_mut(&mut self, k: usize) -> (r: ArrayViewMut<'_, T>)
        requires
            old(self).wf(),
            k < old(self).view@.map.dims[old(self).axis as int],
        ensures
            r.wf(),
            r@ == old(self).view@.with_map(
                old(self).view@.map.axis_at(old(self).axis as int, k as int),
            ),
            final(self).axis == old(self).axis,
            final(self).view.map@ == old(self).view.map@,
            final(self).view.buf@ == final(r.buf)@,
            final(final(self).view.buf)@ == final(old(self).view.buf)@,
    {
        let axis = self.axis;
        self.view.reborrow().axis_at(axis, k)
    }
}

/// The lanes of a mutable view along one axis, each handed out for as long
/// as no other is in use.
pub struct LanesMut<'a, T> {
    /// The view that is traversed.
    pub view: ArrayViewMut<'a, T>,
    /// The axis along which the lanes lie.
    pub axis: usize,
}

impl<'a, T> LanesMut<'a, T> {
    /// The invariant: the axis is one of a well-formed view.
    pub open spec fn wf(&self) -> bool {
        &&& self.view.wf()
        &&& self.axis < self.view@.map.rank()
    }

    /// The number of lanes.
    pub fn len(&self) -> (r: usize)
        requires
            self.wf(),
        ensures
            r == self.view@.map.lane_count(self.axis as int),
    {
        self.view.map.lane_count(self.axis)
    }

    /// Lane `k`.
    pub fn item_mut(&mut self, k: usize) -> (r: ArrayViewMut<'_, T>)
        requires
            old(self).wf(),
            k < old(self).view@.map.lane_count(old(self).axis as int),
        ensures
            r.wf(),
            r@ == old(self).view@.with_map(old(self).view@.map.lane(old(self).axis as int, k as int)),
            final(self).axis == old(self).axis,
            final(self).view.map@ == old(self).view.map@,
            final(self).view.buf@ == final(r.buf)@,
            final(final(self).view.buf)@ == final(old(self).view.buf)@,
    {
        let axis = self.axis;
        self.view.reborrow().lane(axis, k)
    }
}

} // verus!
