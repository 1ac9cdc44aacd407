//! Compound indexing: one index, range or full-range marker per axis.
use vstd::prelude::*;
use crate::exclusive::{lemma_axis_at_exclusive, lemma_split_exclusive};
use crate::geometry::MappingView;
use crate::mapping::Mapping;
use crate::transform::{lemma_axis_at_wf, lemma_split_wf};

verus! {

/// What to take of one axis.
#[derive(Clone, Copy, PartialEq, Eq, Structural, Debug)]
pub enum DimIndex {
    /// The sub-array at one index: the axis is removed.
    At(usize),
    /// The indices from the first number up to, and without, the second.
    Range(usize, usize),
    /// The whole axis.
    Full,
}

/// Whether `c` can be taken of an axis of extent `d`.
pub open spec fn fits_axis(c: DimIndex, d: int) -> bool {
    match c {
        DimIndex::At(i) => i < d,
        DimIndex::Range(start, end) => start <= end <= d,
        DimIndex::Full => true,
    }
}

/// The axis on which the component after `c` acts, where `c` acts on
/// `axis`: the same one if `c` removes its axis, the next one otherwise.
pub open spec fn next_axis(axis: int, c: DimIndex) -> int {
    if c is At {
        axis
    } else {
        axis + 1
    }
}

/// Whether `index` has one component per axis of `dims`, each within the
/// extent of its axis.
pub open spec fn valid_selection(dims: Seq<int>, index: Seq<DimIndex>) -> bool {
    &&& index.len() == dims.len()
    &&& forall|j: int| 0 <= j < index.len() ==> fits_axis(#[trigger] index[j], dims[j])
}

impl MappingView {
    /// The mapping after `c` is taken of `axis`.
    pub open spec fn pick(self, axis: int, c: DimIndex) -> MappingView {
        match c {
            DimIndex::At(i) => self.axis_at(axis, i as int),
            DimIndex::Range(start, end) => self.split_first(axis, end as int).split_second(
                axis,
                start as int,
            ),
            DimIndex::Full => self,
        }
    }

    /// The mapping after the components of `index` from `j` on are taken,
    /// the first of them of `axis`.
    pub open spec fn select_from(self, index: Seq<DimIndex>, j: int, axis: int) -> MappingView
        decreases index.len() - j,
    {
        if j < 0 || j >= index.len() {
            self
        } else {
            self.pick(axis, index[j]).select_from(index, j + 1, next_axis(axis, index[j]))
        }
    }

    /// The mapping of the sub-array that `index` selects: its components are
    /// taken of the axes in turn, outermost first. The layout stays dense as
    /// long as only the first remaining axis is indexed or cut.
    pub open spec fn select(self, index: Seq<DimIndex>) -> MappingView {
        self.select_from(index, 0, 0)
    }

    /// Whether the components of `index` from `j` on fit the axes from
    /// `axis` on, one each.
    pub open spec fn admits_from(self, index: Seq<DimIndex>, j: int, axis: int) -> bool {
        &&& 0 <= axis
        &&& 0 <= j <= index.len()
        &&& self.rank() - axis == index.len() - j
        &&& forall|r: int|
            0 <= r < index.len() - j ==> fits_axis(#[trigger] index[j + r], self.dims[axis + r])
    }
}

/// Taking one component gives a mapping into the same memory, which the
/// components after it fit; it is exclusive where the mapping was.
pub proof fn lemma_pick(m: MappingView, index: Seq<DimIndex>, j: int, axis: int)
    requires
        m.wf(),
        m.admits_from(index, j, axis),
        j < index.len(),
    ensures
        m.pick(axis, index[j]).wf(),
        m.pick(axis, index[j]).limit == m.limit,
        m.pick(axis, index[j]).admits_from(index, j + 1, next_axis(axis, index[j])),
        m.exclusive() ==> m.pick(axis, index[j]).exclusive(),
{
    let c = index[j];
    let r = m.pick(axis, c);
    assert(fits_axis(index[j + 0], m.dims[axis + 0]));
    match c {
        DimIndex::At(i) => {
            lemma_axis_at_wf(m, axis, i as int);
            if m.exclusive() {
                lemma_axis_at_exclusive(m, axis, i as int);
            }
            assert forall|t: int| 0 <= t < index.len() - (j + 1) implies fits_axis(
                #[trigger] index[j + 1 + t],
                r.dims[axis + t],
            ) by {
                assert(fits_axis(index[j + (t + 1)], m.dims[axis + (t + 1)]));
                assert(r.dims[axis + t] == m.dims[axis + t + 1]);
            }
        },
        DimIndex::Range(start, end) => {
            let first = m.split_first(axis, end as int);
            lemma_split_wf(m, axis, end as int);
            lemma_split_wf(first, axis, start as int);
            if m.exclusive() {
                lemma_split_exclusive(m, axis, end as int);
                lemma_split_exclusive(first, axis, start as int);
            }
            assert forall|t: int| 0 <= t < index.len() - (j + 1) implies fits_axis(
                #[trigger] index[j + 1 + t],
                r.dims[axis + 1 + t],
            ) by {
                assert(fits_axis(index[j + (t + 1)], m.dims[axis + (t + 1)]));
                assert(r.dims[axis + 1 + t] == m.dims[axis + 1 + t]);
            }
        },
        DimIndex::Full => {
            assert forall|t: int| 0 <= t < index.len() - (j + 1) implies fits_axis(
                #[trigger] index[j + 1 + t],
                r.dims[axis + 1 + t],
            ) by {
                assert(fits_axis(index[j + (t + 1)], m.dims[axis + (t + 1)]));
            }
        },
    }
}

/// Selecting gives a mapping into the same memory, exclusive where the
/// mapping was.
pub proof fn lemma_select_from(m: MappingView, index: Seq<DimIndex>, j: int, axis: int)
    requires
        m.wf(),
        m.admits_from(index, j, axis),
    ensures
        m.select_from(index, j, axis).wf(),
        m.select_from(index, j, axis).limit == m.limit,
        m.exclusive() ==> m.select_from(index, j, axis).exclusive(),
    decreases index.len() - j,
{
    if j < index.len() {
        lemma_pick(m, index, j, axis);
        lemma_select_from(m.pick(axis, index[j]), index, j + 1, next_axis(axis, index[j]));
    }
}

/// A valid selection fits the axes of the mapping from the first on.
pub proof fn lemma_valid_selection(m: MappingView, index: Seq<DimIndex>)
    requires
        valid_selection(m.dims, index),
    ensures
        m.admits_from(index, 0, 0),
{
    assert forall|r: int| 0 <= r < index.len() implies fits_axis(
        #[trigger] index[0 + r],
        m.dims[0 + r],
    ) by {
        assert(fits_axis(index[r], m.dims[r]));
    }
}

impl Mapping {
    /// Whether `index` has one component per axis, each within the extent
    /// of its axis.
    pub fn admits(&self, index: &[DimIndex]) -> (r: bool)
        ensures
            r <==> valid_selection(self@.dims, index@),
    {
        let n = self.rank();
        if index.len() != n {
            return false;
        }
        let mut j: usize = 0;
        while j < n
            invariant
                j <= n,
                n == self@.rank(),
                n == index@.len(),
                forall|t: int| 0 <= t < j ==> fits_axis(#[trigger] index@[t], self@.dims[t]),
            decreases n - j,
        {
            let d = self.dim(j);
            let ok = match index[j] {
                DimIndex::At(i) => i < d,
                DimIndex::Range(start, end) => start <= end && end <= d,
                DimIndex::Full => true,
            };
            if !ok {
                assert(!fits_axis(index@[j as int], self@.dims[j as int]));
                return false;
            }
            j += 1;
        }
        true
    }

    /// The mapping of the sub-array that `index` selects.
    pub fn select(&self, index: &[DimIndex]) -> (r: Mapping)
        requires
            self.wf(),
            valid_selection(self@.dims, index@),
        ensures
            r.wf(),
            r@ == self@.select(index@),
    {
        let n = index.len();
        let mut cur = self.duplicate();
        let mut axis: usize = 0;
        let mut j: usize = 0;
        proof {
            lemma_valid_selection(self@, index@);
        }
        while j < n
            invariant
                j <= n,
                n == index@.len(),
                axis <= j,
                cur.wf(),
                cur@.admits_from(index@, j as int, axis as int),
                cur@.select_from(index@, j as int, axis as int) == self@.select(index@),
            decreases n - j,
        {
            proof {
                lemma_pick(cur@, index@, j as int, axis as int);
                assert(fits_axis(index@[j + 0], cur@.dims[axis + 0]));
            }
            match index[j] {
                DimIndex::At(i) => {
                    cur = cur.axis_at(axis, i);
                },
                DimIndex::Range(start, end) => {
                    let (first, _) = cur.split_axis_at(axis, end);
                    let (_, second) = first.split_axis_at(axis, start);
                    cur = second;
                    axis += 1;
                },
                DimIndex::Full => {
                    axis += 1;
                },
            }
            j += 1;
        }
        cur
    }
}

} // verus!
