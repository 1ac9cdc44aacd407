//! The two classes of memory regularity.
use vstd::prelude::*;

verus! {

/// How regular the memory behind a mapping is.
///
/// `Dense` memory is contiguous and row-major: the stride of an axis is the
/// product of the extents after it, and is never stored. `Strided` memory has
/// one explicit stride per axis. Every dense mapping can be read as a strided
/// one; the other direction needs the strides to be checked.
#[derive(Clone, Copy, PartialEq, Eq, Structural, Debug)]
pub enum Layout {
    Dense,
    Strided,
}

impl Layout {
    /// Whether this is the dense layout.
    pub fn is_dense(&self) -> (r: bool)
        ensures
            r <==> *self == Layout::Dense,
    {
        match self {
            Layout::Dense => true,
            Layout::Strided => false,
        }
    }
}

} // verus!
