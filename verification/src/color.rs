//! Which colour policy the renderer applies to a non-empty cell. The
//! policies interpolate between two endpoint colours; the interpolation
//! itself is floating-point work done by the rendering layer, outside this
//! library.

use vstd::prelude::*;

verus! {

#[derive(Debug, Clone, Copy, PartialEq, Eq, Structural)]
pub enum ColorMethod {
    /// Lerp by normalized Euclidean distance from the lattice center.
    DistToCenter,
    /// Lerp by the cell's visual level over `states - 1`.
    StateLerp,
    /// Lerp by neighbour count over the topology's maximum.
    Neighbour,
}

impl Default for ColorMethod {
    fn default() -> (c: ColorMethod)
        ensures
            c == ColorMethod::DistToCenter,
    {
        ColorMethod::DistToCenter
    }
}

} // verus!
