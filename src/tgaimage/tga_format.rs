//! Bytes per pixel of the supported pixel formats.
use vstd::prelude::*;

verus! {

/// One byte per pixel: a gray level.
pub const GRAYSCALE: i32 = 1;

/// Three bytes per pixel: blue, green, red.
pub const RGB: i32 = 3;

/// Four bytes per pixel: blue, green, red, alpha.
pub const RGBA: i32 = 4;

} // verus!
