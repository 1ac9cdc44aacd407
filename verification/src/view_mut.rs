//! Mutable views: borrowed arrays whose elements can be assigned.
use vstd::prelude::*;
use crate::broadcast::broadcasts_to;
use crate::exclusive::{
    lemma_axis_at_exclusive, lemma_contiguous_exclusive, lemma_diag_exclusive,
    lemma_linear_injective, lemma_permute_exclusive, lemma_reshape_exclusive,
    lemma_split_exclusive,
};
use crate::geometry::MappingView;
use crate::index::lemma_linear_in_bounds;
use crate::layout::Layout;
use crate::mapping::Mapping;
use crate::model::ArrayModel;
use crate::reshape::infer_dims;
use crate::select::{lemma_select_from, lemma_valid_selection, valid_selection, DimIndex};
use crate::shape::{dense_strides, ints, resolve_extents, shape_fits, shape_len, Shape};
use crate::sums::is_permutation;
use crate::transform::lemma_standard_orders;
use crate::view::ArrayView;

verus! {

/// A multidimensional array whose elements are borrowed, for reading and
/// writing, from memory that something else owns.
pub struct ArrayViewMut<'a, T> {
    /// The memory behind the view.
    pub buf: &'a mut [T],
    /// The mapping from index tuples to positions in `buf`.
    pub map: Mapping,
}

impl<'a, T> View for ArrayViewMut<'a, T> {
    type V = ArrayModel<T>;

    open spec fn view(&self) -> ArrayModel<T> {
        ArrayModel { buffer: self.buf@, map: self.map@ }
    }
}

impl<T> ArrayModel<T> {
    /// The invariant of a mutable array: that of an array, and no two index
    /// tuples name the same element.
    pub open spec fn wf_mut(self) -> bool {
        &&& self.wf()
        &&& self.map.exclusive()
    }

    /// What assigning through the mapping leaves of `self` in `after`: the
    /// length, and every position that the mapping does not reach.
    pub open spec fn frames(self, after: Seq<T>) -> bool {
        &&& after.len() == self.buffer.len()
        &&& forall|o: int|
            0 <= o < after.len() && !self.map.covers(o) ==> #[trigger] after[o] == self.buffer[o]
    }
}

impl MappingView {
    /// The mapping reaches position `o`: some element lies there.
    pub open spec fn covers(self, o: int) -> bool {
        exists|k: int| 0 <= k < self.len() && #[trigger] self.linear(k) == o
    }
}

impl<'a, T> ArrayViewMut<'a, T> {
    /// The invariant of a mutable view: see [`ArrayModel::wf_mut`].
    pub open spec fn wf(&self) -> bool {
        self@.wf_mut()
    }

    /// The dense view of shape `dims` over `buf`, or nothing where the shape
    /// cannot be represented or its length is not that of `buf`.
    pub fn new(buf: &'a mut [T], dims: &[usize]) -> (r: Option<ArrayViewMut<'a, T>>)
        ensures
            r is Some <==> shape_fits(ints(dims@)) && shape_len(ints(dims@)) == old(buf)@.len(),
            r is Some ==> r->0.wf() && final(buf)@ == final(r->0.buf)@ && r->0@ == (ArrayModel {
                buffer: old(buf)@,
                map: MappingView {
                    dims: ints(dims@),
                    strides: dense_strides(ints(dims@)),
                    layout: Layout::Dense,
                    base: 0,
                    limit: old(buf)@.len() as int,
                },
            }),
            r is None ==> final(buf)@ == old(buf)@,
    {
        match Shape::new(dims) {
            None => None,
            Some(shape) => {
                if shape.len() != buf.len() {
                    return None;
                }
                let map = Mapping::dense(shape);
                proof {
                    lemma_contiguous_exclusive(map@);
                }
                Some(ArrayViewMut { buf, map })
            },
        }
    }

    /// The read-only view of the same elements.
    pub fn as_view(&self) -> (r: ArrayView<'_, T>)
        requires
            self.wf(),
        ensures
            r.wf(),
            r@ == self@,
    {
        ArrayView::from_parts(&*self.buf, self.map.duplicate()).unwrap()
    }

    /// A mutable view of the same elements for a shorter time.
    pub fn reborrow(&mut self) -> (r: ArrayViewMut<'_, T>)
        requires
            old(self).wf(),
        ensures
            r.wf(),
            r@ == old(self)@,
            final(self).map@ == old(self).map@,
            final(self).buf@ == final(r.buf)@,
            final(final(self).buf)@ == final(old(self).buf)@,
    {
        ArrayViewMut { buf: &mut *self.buf, map: self.map.duplicate() }
    }

    /// The number of elements.
    pub fn len(&self) -> (r: usize)
        requires
            self.wf(),
        ensures
            r == self@.len(),
    {
        self.map.len()
    }

    /// The element that `index` names, without a test of `index`.
    pub fn get_unchecked_mut(self, index: &[usize]) -> (r: &'a mut T)
        requires
            self.wf(),
            self@.map.valid(ints(index@)),
        ensures
            *r == old(self.buf)@[self.map@.offset(ints(index@))],
            final(self.buf)@ == old(self.buf)@.update(
                self.map@.offset(ints(index@)),
                *final(r),
            ),
    {
        let ArrayViewMut { buf, map } = self;
        let o = map.offset(index);
        &mut buf[o]
    }

    /// The element that `index` names, or nothing where `index` names none.
    pub fn get_mut(self, index: &[usize]) -> (r: Option<&'a mut T>)
        requires
            self.wf(),
        ensures
            r is Some <==> self.map@.valid(ints(index@)),
            r is Some ==> *r->0 == old(self.buf)@[self.map@.offset(ints(index@))],
            r is Some ==> final(self.buf)@ == old(self.buf)@.update(
                self.map@.offset(ints(index@)),
                *final(r->0),
            ),
            r is None ==> final(self.buf)@ == old(self.buf)@,
    {
        if self.map.contains_index(index) {
            Some(self.get_unchecked_mut(index))
        } else {
            None
        }
    }

    /// The view of the sub-array at `index` along `axis`.
    pub fn axis_at(self, axis: usize, index: usize) -> (r: ArrayViewMut<'a, T>)
        requires
            self.wf(),
            axis < self@.map.rank(),
            index < self@.map.dims[axis as int],
        ensures
            r.wf(),
            r@ == self@.with_map(self@.map.axis_at(axis as int, index as int)),
            final(self.buf)@ == final(r.buf)@,
    {
        proof {
            lemma_axis_at_exclusive(self@.map, axis as int, index as int);
        }
        let ArrayViewMut { buf, map } = self;
        ArrayViewMut { buf, map: map.axis_at(axis, index) }
    }

    /// The view of the sub-array at `index` along the first axis.
    pub fn at(self, index: usize) -> (r: ArrayViewMut<'a, T>)
        requires
            self.wf(),
            0 < self@.map.rank(),
            index < self@.map.dims[0],
        ensures
            r.wf(),
            r@ == self@.with_map(self@.map.axis_at(0, index as int)),
            final(self.buf)@ == final(r.buf)@,
    {
        self.axis_at(0, index)
    }

    /// The view with the axes in the order `order`.
    pub fn permute(self, order: &[usize]) -> (r: ArrayViewMut<'a, T>)
        requires
            self.wf(),
            is_permutation(ints(order@)),
            order@.len() == self@.map.rank(),
        ensures
            r.wf(),
            r@ == self@.with_map(self@.map.permute(ints(order@))),
            final(self.buf)@ == final(r.buf)@,
    {
        proof {
            lemma_permute_exclusive(self@.map, ints(order@));
        }
        let ArrayViewMut { buf, map } = self;
        ArrayViewMut { buf, map: map.permute(order) }
    }

    /// The view with the order of the axes reversed.
    pub fn transpose(self) -> (r: ArrayViewMut<'a, T>)
        requires
            self.wf(),
        ensures
            r.wf(),
            r@ == self@.with_map(self@.map.transpose()),
            final(self.buf)@ == final(r.buf)@,
    {
        proof {
            lemma_standard_orders(self@.map.dims);
            lemma_permute_exclusive(
                self@.map,
                crate::transform::reversed_order(self@.map.rank()),
            );
        }
        let ArrayViewMut { buf, map } = self;
        ArrayViewMut { buf, map: map.transpose() }
    }

    /// The same view under `layout`.
    pub fn remap(self, layout: Layout) -> (r: ArrayViewMut<'a, T>)
        requires
            self.wf(),
            self@.map.can_remap(layout),
        ensures
            r.wf(),
            r@ == self@.with_map(self@.map.remap(layout)),
            final(self.buf)@ == final(r.buf)@,
    {
        let ghost before = self@.map;
        let ArrayViewMut { buf, map } = self;
        let map = map.remap(layout);
        proof {
            assert forall|a: Seq<int>, b: Seq<int>|
                #![trigger map@.valid(a), map@.valid(b)]
                map@.valid(a) && map@.valid(b) && map@.offset(a) == map@.offset(b) implies a
                == b by {
                assert(before.valid(a) && before.valid(b));
            }
        }
        ArrayViewMut { buf, map }
    }

    /// The view of the same elements, in the same order, under the shape
    /// `dims`, in which one extent may be written as `usize::MAX` to have it
    /// inferred.
    pub fn reshape(self, dims: &[usize]) -> (r: ArrayViewMut<'a, T>)
        requires
            self.wf(),
            infer_dims(ints(dims@), self@.len()) is Some,
            self@.map.can_reshape(infer_dims(ints(dims@), self@.len())->0),
        ensures
            r.wf(),
            r@ == self@.with_map(self@.map.reshape(infer_dims(ints(dims@), self@.len())->0)),
            final(self.buf)@ == final(r.buf)@,
    {
        proof {
            lemma_reshape_exclusive(self@.map, infer_dims(ints(dims@), self@.len())->0);
        }
        let ArrayViewMut { buf, map } = self;
        let dims = resolve_extents(dims, map.len()).unwrap();
        ArrayViewMut { buf, map: map.reshape(dims.as_slice()) }
    }

    /// The view of all elements along one axis, in row-major order.
    pub fn flatten(self) -> (r: ArrayViewMut<'a, T>)
        requires
            self.wf(),
            self@.map.can_reshape(seq![self@.len()]),
        ensures
            r.wf(),
            r@ == self@.with_map(self@.map.reshape(seq![self@.len()])),
            final(self.buf)@ == final(r.buf)@,
    {
        proof {
            lemma_reshape_exclusive(self@.map, seq![self@.len()]);
        }
        let ArrayViewMut { buf, map } = self;
        let mut dims: Vec<usize> = Vec::new();
        dims.push(map.len());
        assert(ints(dims@) =~= seq![map@.len()]);
        ArrayViewMut { buf, map: map.reshape(dims.as_slice()) }
    }

    /// The view of row `index` of a two-dimensional view.
    pub fn row(self, index: usize) -> (r: ArrayViewMut<'a, T>)
        requires
            self.wf(),
            self@.map.rank() == 2,
            index < self@.map.dims[0],
        ensures
            r.wf(),
            r@ == self@.with_map(self@.map.axis_at(0, index as int)),
            final(self.buf)@ == final(r.buf)@,
    {
        self.axis_at(0, index)
    }

    /// The view of column `index` of a two-dimensional view.
    pub fn col(self, index: usize) -> (r: ArrayViewMut<'a, T>)
        requires
            self.wf(),
            self@.map.rank() == 2,
            index < self@.map.dims[1],
        ensures
            r.wf(),
            r@ == self@.with_map(self@.map.axis_at(1, index as int)),
            final(self.buf)@ == final(r.buf)@,
    {
        self.axis_at(1, index)
    }

    /// The view of diagonal `index` of a two-dimensional view.
    pub fn diag(self, index: isize) -> (r: ArrayViewMut<'a, T>)
        requires
            self.wf(),
            self@.map.has_diag(index as int),
        ensures
            r.wf(),
            r@ == self@.with_map(self@.map.diag(index as int)),
            final(self.buf)@ == final(r.buf)@,
    {
        proof {
            lemma_diag_exclusive(self@.map, index as int);
        }
        let ArrayViewMut { buf, map } = self;
        ArrayViewMut { buf, map: map.diag(index) }
    }

    /// The view of the sub-array that `index` selects, with one component
    /// per axis: an index, a range or the whole axis.
    pub fn select(self, index: &[DimIndex]) -> (r: ArrayViewMut<'a, T>)
        requires
            self.wf(),
            valid_selection(self@.map.dims, index@),
        ensures
            r.wf(),
            r@ == self@.with_map(self@.map.select(index@)),
            final(self.buf)@ == final(r.buf)@,
    {
        proof {
            lemma_valid_selection(self@.map, index@);
            lemma_select_from(self@.map, index@, 0, 0);
        }
        let ArrayViewMut { buf, map } = self;
        ArrayViewMut { buf, map: map.select(index) }
    }

    /// The view of lane `k` along `axis`.
    pub fn lane(self, axis: usize, k: usize) -> (r: ArrayViewMut<'a, T>)
        requires
            self.wf(),
            axis < self@.map.rank(),
            k < self@.map.lane_count(axis as int),
        ensures
            r.wf(),
            r@ == self@.with_map(self@.map.lane(axis as int, k as int)),
            final(self.buf)@ == final(r.buf)@,
    {
        proof {
            crate::lanes::lemma_lane_exclusive(self@.map, axis as int, k as int);
        }
        let ArrayViewMut { buf, map } = self;
        ArrayViewMut { buf, map: map.lane(axis, k) }
    }

    /// Assigns a clone of `value` to every element, in row-major order.
    pub fn fill(self, value: T) where T: Clone
        requires
            self.wf(),
        ensures
            self@.frames(final(self.buf)@),
            forall|k: int|
                0 <= k < self@.len() ==> cloned(
                    value,
                    #[trigger] self@.with_buffer(final(self.buf)@).item(k),
                ),
    {
        let ghost start = self@;
        let ArrayViewMut { buf, map } = self;
        let n = map.len();
        let mut k: usize = 0;
        while k < n
            invariant
                k <= n,
                n == map@.len(),
                map@ == start.map,
                start.wf_mut(),
                buf@.len() == start.buffer.len(),
                forall|j: int| 0 <= j < k ==> cloned(value, buf@[#[trigger] map@.linear(j)]),
                forall|o: int|
                    0 <= o < buf@.len() && (forall|j: int| 0 <= j < k ==> map@.linear(j) != o)
                        ==> #[trigger] buf@[o] == start.buffer[o],
            decreases n - k,
        {
            let o = map.linear_offset(k);
            proof {
                assert forall|j: int| 0 <= j < n implies 0 <= #[trigger] map@.linear(j)
                    < buf@.len() by {
                    lemma_linear_in_bounds(map@, j);
                }
            }
            buf[o] = value.clone();
            k += 1;
        }
        proof {
            assert forall|o: int| 0 <= o < buf@.len() && !start.map.covers(o) implies #[trigger] buf@[o]
                == start.buffer[o] by {
                assert(forall|j: int| 0 <= j < n ==> map@.linear(j) != o);
            }
        }
    }
    /// Assigns to every element, in row-major order, what a call of `f`
    /// returns.
    pub fn fill_with<F: FnMut() -> T>(self, f: F)
        requires
            self.wf(),
            call_requires(f, ()),
        ensures
            self@.frames(final(self.buf)@),
            forall|k: int|
                0 <= k < self@.len() ==> call_ensures(
                    f,
                    (),
                    #[trigger] self@.with_buffer(final(self.buf)@).item(k),
                ),
    {
        let ghost start = self@;
        let ghost make = f;
        let mut f = f;
        let ArrayViewMut { buf, map } = self;
        let n = map.len();
        let mut k: usize = 0;
        while k < n
            invariant
                k <= n,
                n == map@.len(),
                map@ == start.map,
                start.wf_mut(),
                f == make,
                call_requires(make, ()),
                buf@.len() == start.buffer.len(),
                forall|j: int|
                    0 <= j < k ==> call_ensures(make, (), buf@[#[trigger] map@.linear(j)]),
                forall|o: int|
                    0 <= o < buf@.len() && (forall|j: int| 0 <= j < k ==> map@.linear(j) != o)
                        ==> #[trigger] buf@[o] == start.buffer[o],
            decreases n - k,
        {
            let o = map.linear_offset(k);
            proof {
                assert forall|j: int| 0 <= j < n implies 0 <= #[trigger] map@.linear(j)
                    < buf@.len() by {
                    lemma_linear_in_bounds(map@, j);
                }
                assert forall|j: int| 0 <= j < k implies #[trigger] map@.linear(j) != o by {
                    if map@.linear(j) == o {
                        lemma_linear_injective(map@, j, k as int);
                    }
                }
            }
            buf[o] = f();
            k += 1;
        }
        proof {
            assert forall|o: int| 0 <= o < buf@.len() && !start.map.covers(o) implies #[trigger] buf@[o]
                == start.buffer[o] by {
                assert(forall|j: int| 0 <= j < n ==> map@.linear(j) != o);
            }
        }
    }

    /// Assigns to every element a clone of the element of `source` at the
    /// same indices, where `source` is repeated to fill the shape of this
    /// view.
    pub fn assign(self, source: &ArrayView<'_, T>) where T: Clone
        requires
            self.wf(),
            source.wf(),
            broadcasts_to(source@.map.dims, self@.map.dims),
        ensures
            self@.frames(final(self.buf)@),
            forall|k: int|
                0 <= k < self@.len() ==> cloned(
                    source@.with_map(source@.map.broadcast(self@.map.dims)).item(k),
                    #[trigger] self@.with_buffer(final(self.buf)@).item(k),
                ),
    {
        let ghost start = self@;
        let ArrayViewMut { buf, map } = self;
        let from = source.broadcast(map.dims());
        let n = map.len();
        let mut k: usize = 0;
        while k < n
            invariant
                k <= n,
                n == map@.len(),
                map@ == start.map,
                start.wf_mut(),
                from.wf(),
                from@.len() == n,
                buf@.len() == start.buffer.len(),
                forall|j: int|
                    0 <= j < k ==> cloned(from@.item(j), buf@[#[trigger] map@.linear(j)]),
                forall|o: int|
                    0 <= o < buf@.len() && (forall|j: int| 0 <= j < k ==> map@.linear(j) != o)
                        ==> #[trigger] buf@[o] == start.buffer[o],
            decreases n - k,
        {
            let o = map.linear_offset(k);
            proof {
                assert forall|j: int| 0 <= j < n implies 0 <= #[trigger] map@.linear(j)
                    < buf@.len() by {
                    lemma_linear_in_bounds(map@, j);
                }
                assert forall|j: int| 0 <= j < k implies #[trigger] map@.linear(j) != o by {
                    if map@.linear(j) == o {
                        lemma_linear_injective(map@, j, k as int);
                    }
                }
            }
            buf[o] = from.item(k).clone();
            k += 1;
        }
        proof {
            assert forall|o: int| 0 <= o < buf@.len() && !start.map.covers(o) implies #[trigger] buf@[o]
                == start.buffer[o] by {
                assert(forall|j: int| 0 <= j < n ==> map@.linear(j) != o);
            }
        }
    }

    /// The two parts of the view before `mid` and from `mid` on along
    /// `axis`, held together: they borrow the same memory, so that one of
    /// them can be taken at a time.
    pub fn split_axis_at(self, axis: usize, mid: usize) -> (r: SplitMut<'a, T>)
        requires
            self.wf(),
            axis < self@.map.rank(),
            mid <= self@.map.dims[axis as int],
        ensures
            r.wf(),
            r.buf@ == old(self.buf)@,
            r.first@ == self@.map.split_first(axis as int, mid as int),
            r.second@ == self@.map.split_second(axis as int, mid as int),
            final(self.buf)@ == final(r.buf)@,
    {
        proof {
            lemma_split_exclusive(self@.map, axis as int, mid as int);
        }
        let ArrayViewMut { buf, map } = self;
        let (first, second) = map.split_axis_at(axis, mid);
        SplitMut { buf, first, second }
    }

    /// The two parts of the view before `mid` and from `mid` on along the
    /// first axis.
    pub fn split_at(self, mid: usize) -> (r: SplitMut<'a, T>)
        requires
            self.wf(),
            0 < self@.map.rank(),
            mid <= self@.map.dims[0],
        ensures
            r.wf(),
            r.buf@ == old(self.buf)@,
            r.first@ == self@.map.split_first(0, mid as int),
            r.second@ == self@.map.split_second(0, mid as int),
            final(self.buf)@ == final(r.buf)@,
    {
        self.split_axis_at(0, mid)
    }
}

/// The two parts of a mutable view that was split along an axis.
///
/// Both parts borrow the same memory, and their elements may lie between
/// one another in it: each part is handed out for as long as the other is
/// not in use.
pub struct SplitMut<'a, T> {
    /// The memory behind both parts.
    pub buf: &'a mut [T],
    /// The mapping of the part before the split point.
    pub first: Mapping,
    /// The mapping of the part from the split point on.
    pub second: Mapping,
}

impl<'a, T> SplitMut<'a, T> {
    /// The invariant of a split: both parts are mutable arrays over the
    /// memory.
    pub open spec fn wf(&self) -> bool {
        &&& (ArrayModel { buffer: self.buf@, map: self.first@ }).wf_mut()
        &&& (ArrayModel { buffer: self.buf@, map: self.second@ }).wf_mut()
    }

    /// The part before the split point.
    pub fn first_mut(&mut self) -> (r: ArrayViewMut<'_, T>)
        requires
            old(self).wf(),
        ensures
            r.wf(),
            r@ == (ArrayModel { buffer: old(self).buf@, map: old(self).first@ }),
            final(self).first@ == old(self).first@,
            final(self).second@ == old(self).second@,
            final(self).buf@ == final(r.buf)@,
            final(final(self).buf)@ == final(old(self).buf)@,
    {
        ArrayViewMut { buf: &mut *self.buf, map: self.first.duplicate() }
    }

    /// The part from the split point on.
    pub fn second_mut(&mut self) -> (r: ArrayViewMut<'_, T>)
        requires
            old(self).wf(),
        ensures
            r.wf(),
            r@ == (ArrayModel { buffer: old(self).buf@, map: old(self).second@ }),
            final(self).first@ == old(self).first@,
            final(self).second@ == old(self).second@,
            final(self).buf@ == final(r.buf)@,
            final(final(self).buf)@ == final(old(self).buf)@,
    {
        ArrayViewMut { buf: &mut *self.buf, map: self.second.duplicate() }
    }

    /// The part before the split point, for as long as the memory is
    /// borrowed.
    pub fn into_first(self) -> (r: ArrayViewMut<'a, T>)
        requires
            self.wf(),
        ensures
            r.wf(),
            r@ == (ArrayModel { buffer: old(self.buf)@, map: self.first@ }),
            final(self.buf)@ == final(r.buf)@,
    {
        let SplitMut { buf, first, second } = self;
        ArrayViewMut { buf, map: first }
    }

    /// The part from the split point on, for as long as the memory is
    /// borrowed.
    pub fn into_second(self) -> (r: ArrayViewMut<'a, T>)
        requires
            self.wf(),
        ensures
            r.wf(),
            r@ == (ArrayModel { buffer: old(self.buf)@, map: self.second@ }),
            final(self.buf)@ == final(r.buf)@,
    {
        let SplitMut { buf, first, second } = self;
        ArrayViewMut { buf, map: second }
    }
}

} // verus!
