//! The range of a PCM sample, by the width of the sample.

use std::ops::{Add, Mul, Sub};
use vstd::prelude::*;

verus! {

/// The least and the greatest value of a sample type.
pub trait MinMax {
    const MIN: Self;
    const MAX: Self;
}

impl MinMax for u8 {
    const MIN: u8 = u8::MIN;
    const MAX: u8 = u8::MAX;
}

impl MinMax for i16 {
    const MIN: i16 = i16::MIN;
    const MAX: i16 = i16::MAX;
}

/// A sample type: one with a range and with arithmetic.
pub trait GenericNormalize: MinMax + Add + Sub + Mul + Sized {}

impl GenericNormalize for u8 {}

impl GenericNormalize for i16 {}

} // verus!
