//! The mathematical model of an array: the memory behind it and the mapping
//! that picks its elements out of that memory.
use vstd::prelude::*;
use crate::geometry::MappingView;

verus! {

/// The model of an array, a view or a mutable view.
pub struct ArrayModel<T> {
    /// The memory behind the array.
    pub buffer: Seq<T>,
    /// The mapping from index tuples to positions in `buffer`.
    pub map: MappingView,
}

impl<T> ArrayModel<T> {
    /// The invariant of an array: its mapping is well formed and speaks of
    /// exactly the memory behind the array.
    pub open spec fn wf(self) -> bool {
        &&& self.map.wf()
        &&& self.map.limit == self.buffer.len()
    }

    /// The extent of each axis.
    pub open spec fn dims(self) -> Seq<int> {
        self.map.dims
    }

    /// The number of elements.
    pub open spec fn len(self) -> int {
        self.map.len()
    }

    /// The element that `idx` names.
    pub open spec fn at(self, idx: Seq<int>) -> T {
        self.buffer[self.map.offset(idx)]
    }

    /// The element at position `k` in row-major order.
    pub open spec fn item(self, k: int) -> T {
        self.buffer[self.map.linear(k)]
    }

    /// The elements in row-major order: the last axis varies fastest.
    pub open spec fn elems(self) -> Seq<T> {
        Seq::new(self.len() as nat, |k: int| self.item(k))
    }

    /// The same mapping over other memory.
    pub open spec fn with_buffer(self, buffer: Seq<T>) -> ArrayModel<T> {
        ArrayModel { buffer, map: self.map }
    }

    /// The same memory under another mapping.
    pub open spec fn with_map(self, map: MappingView) -> ArrayModel<T> {
        ArrayModel { buffer: self.buffer, map }
    }
}

} // verus!
