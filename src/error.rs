use vstd::prelude::*;

verus! {

/// Failures reported by the store.
#[derive(Clone, Copy, Debug, PartialEq, Eq, Structural)]
pub enum DbError {
    /// A vector with (near) zero magnitude cannot be scaled to unit length.
    Domain,
    /// A snapshot's matrix does not hold one embedding per record:
    /// `expected` components were needed, `actual` were found.
    CorruptStore { expected: usize, actual: usize },
    /// The snapshot could not be read: here, its matrix is not valid base64.
    Io,
}

} // verus!
