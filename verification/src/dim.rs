//! Dimensions: the extent of one axis, fixed in the type or held as a value.
use vstd::prelude::*;

verus! {

/// The extent of one axis.
pub trait Dim {
    /// The extent.
    spec fn spec_size(&self) -> int;

    /// The extent.
    fn size(&self) -> (r: usize)
        ensures
            r == self.spec_size(),
    ;
}

/// An extent that is fixed in the type and takes no room in a value: it
/// reports the number that the type names.
#[derive(Clone, Copy, Debug)]
pub struct Const<const N: usize>;

impl<const N: usize> Dim for Const<N> {
    open spec fn spec_size(&self) -> int {
        N as int
    }

    fn size(&self) -> (r: usize) {
        N
    }
}

/// An extent that is known only when the program runs.
#[derive(Clone, Copy, PartialEq, Eq, Structural, Debug)]
pub struct Dyn(pub usize);

impl Dim for Dyn {
    open spec fn spec_size(&self) -> int {
        self.0 as int
    }

    fn size(&self) -> (r: usize) {
        self.0
    }
}

} // verus!
