use vstd::prelude::*;

verus! {

/// Errors reported by the chunk producer.
#[derive(Clone, Copy, Debug, PartialEq, Eq, Structural)]
pub enum Error {
    /// The inputs handed to the constructor do not describe one consistent
    /// snapshot: the entries are not strictly sorted by key, or a boundary
    /// key extracted from the trunk is out of order or absent from the
    /// entries, or there are too many boundary keys for the chunk count to
    /// fit in `usize`.
    ConstructionFailure,
    /// `chunk` was asked for an index at or past the chunk count.
    IndexOutOfBounds,
}

} // verus!
