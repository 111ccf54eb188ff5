//! Deterministic pixel-buffer transforms on flat RGBA byte buffers:
//! color inversion, palette quantization by deterministic K-means
//! clustering, and grayscale/blur/Sobel edge detection.
//!
//! Every buffer is an ordered sequence of 4-byte groups (R, G, B, A),
//! row-major, of length `width * height * 4`. Each transform is a pure
//! function from an input buffer to a freshly allocated output buffer of
//! the same length; the alpha channel is never clustered.

use vstd::prelude::*;

pub mod color;
pub mod edge;
pub mod invert;
pub mod quantize;

verus! {

/// The ways a transform can reject its input. All other paths are total:
/// a well-formed buffer always produces an output buffer.
#[derive(Clone, Copy, Debug, PartialEq, Eq, Structural)]
pub enum TransformError {
    /// The buffer length does not equal `width * height * 4`.
    LengthMismatch,
    /// Width or height is too small for a 3x3 neighborhood operation.
    ImageTooSmall,
}

/// The spec-level length a well-formed RGBA buffer must have.
pub open spec fn rgba_len(width: int, height: int) -> int {
    4 * width * height
}

/// True when the buffer length matches the stated dimensions.
pub open spec fn dims_match(data: Seq<u8>, width: int, height: int) -> bool {
    data.len() == rgba_len(width, height)
}

/// Runtime check that `data.len() == width * height * 4`, computed wide
/// enough that no intermediate product can overflow.
pub fn check_dims(data: &Vec<u8>, width: u32, height: u32) -> (ok: bool)
    ensures
        ok == dims_match(data@, width as int, height as int),
{
    proof {
        assert((4 * (width as int)) * (height as int) <= 0x3_ffff_ffff * 0xffff_ffff)
            by (nonlinear_arith)
            requires
                0 <= width as int <= 0xffff_ffff,
                0 <= height as int <= 0xffff_ffff,
        ;
    }
    let need: u128 = 4u128 * (width as u128) * (height as u128);
    (data.len() as u128) == need
}

} // verus!
