//! Where a phase derivative can be estimated from both sides, and where the
//! edge of the grid leaves one side only.

use vstd::prelude::*;

verus! {

/// How a phase derivative is estimated at a place of the grid.
#[derive(Clone, Copy, Debug, PartialEq, Eq, Structural)]
pub enum Stencil {
    /// A neighbour that the estimate would need lies outside the grid. The
    /// time derivative and the frequency derivative are then estimated from
    /// the place alone; for the forward and the backward derivative the
    /// frequency derivative of the place stands in.
    Edge,
    /// Every neighbour is there: the estimate is the mean of two differences.
    Interior,
}

/// Whether frame `frame` of `frames` has the neighbours that the time
/// derivative reads: the two frames before it and the frame after it, and a
/// frame more at the start.
pub open spec fn time_interior(frame: nat, frames: nat) -> bool {
    frame > 2 && frame + 1 < frames
}

/// Whether bin `bin` of `bins` has a neighbour on either side.
pub open spec fn frequency_interior(bin: nat, bins: nat) -> bool {
    bin >= 1 && bin + 1 < bins
}

/// Whether bin `bin` of `bins` has one neighbour below and two above.
pub open spec fn forward_interior(bin: nat, bins: nat) -> bool {
    bin >= 1 && bin + 2 < bins
}

/// Whether bin `bin` of `bins` has two neighbours below and one above.
pub open spec fn backward_interior(bin: nat, bins: nat) -> bool {
    bin >= 2 && bin + 1 < bins
}

/// The stencil of the time derivative in frame `frame` of `frames`.
pub fn time_stencil(frame: usize, frames: usize) -> (stencil: Stencil)
    ensures
        stencil is Interior <==> time_interior(frame as nat, frames as nat),
{
    if frame > 2 && frame < frames && frames - frame > 1 {
        Stencil::Interior
    } else {
        Stencil::Edge
    }
}

/// The stencil of the frequency derivative at bin `bin` of `bins`.
pub fn frequency_stencil(bin: usize, bins: usize) -> (stencil: Stencil)
    ensures
        stencil is Interior <==> frequency_interior(bin as nat, bins as nat),
{
    if bin >= 1 && bin < bins && bins - bin > 1 {
        Stencil::Interior
    } else {
        Stencil::Edge
    }
}

/// The stencil of the forward frequency derivative at bin `bin` of `bins`.
pub fn forward_stencil(bin: usize, bins: usize) -> (stencil: Stencil)
    ensures
        stencil is Interior <==> forward_interior(bin as nat, bins as nat),
{
    if bin >= 1 && bin < bins && bins - bin > 2 {
        Stencil::Interior
    } else {
        Stencil::Edge
    }
}

/// The stencil of the backward frequency derivative at bin `bin` of `bins`.
pub fn backward_stencil(bin: usize, bins: usize) -> (stencil: Stencil)
    ensures
        stencil is Interior <==> backward_interior(bin as nat, bins as nat),
{
    if bin >= 2 && bin < bins && bins - bin > 1 {
        Stencil::Interior
    } else {
        Stencil::Edge
    }
}

} // verus!
