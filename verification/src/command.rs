//! What a run is asked to do.

use vstd::prelude::*;

verus! {

/// Whether the duration or the pitch of the signal is changed.
#[derive(Clone, Copy, Debug, PartialEq, Eq, Structural)]
pub enum Mode {
    /// The duration is scaled; the pitch stays.
    TimeStretch,
    /// The pitch is scaled; the duration stays.
    PitchShift,
}

/// The frame size of a run that names none.
pub const DEFAULT_FRAME_SIZE: usize = 4096;

/// Why a configuration is refused.
#[derive(Clone, Copy, Debug, PartialEq, Eq, Structural)]
pub enum ConfigError {
    /// The frame size is not a power of two.
    FrameSize,
    /// The analysis hop is zero, so that no frame follows another.
    ZeroHop,
    /// A length or an offset of the run does not fit the machine word.
    TooLarge,
}

} // verus!
