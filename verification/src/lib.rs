//! The index arithmetic and the decisions of a phase vocoder that changes the
//! duration or the pitch of a recording: where the frames lie, how the
//! transform of a frame is scheduled, in which order the bins of a frame
//! receive their synthesis phase, and how a RIFF/WAVE image is taken apart and
//! put together.
//!
//! The library holds no floating-point number. Magnitudes enter it as order
//! keys, and what it decides comes back as indices and as lists of steps that
//! the caller carries out on its samples.

pub mod command;
pub mod derivative;
pub mod fft;
pub mod framing;
pub mod heap;
pub mod normalize;
pub mod pghi;
pub mod read;
pub mod write;
