//! The ways in which a scramble request is rejected.

use vstd::prelude::*;

verus! {

/// Why an encrypt or decrypt call was refused.
#[derive(Debug, Clone, Copy, PartialEq, Eq, Structural)]
pub enum ScrambleError {
    /// The width or the height is not positive, or the buffer does not hold
    /// exactly `width * height` samples.
    InvalidDimensions,
    /// A logistic-map seed lies outside the open interval `(0, 1)`.
    InvalidKey,
}

/// Whether a buffer of `len` samples is a `width` by `height` image.
pub open spec fn valid_dimensions(len: nat, width: int, height: int) -> bool {
    width > 0 && height > 0 && len == width * height
}

/// Checks the dimensions of a buffer and returns them as sizes.
pub fn check_dimensions(len: usize, width: i32, height: i32) -> (r: Result<
    (usize, usize),
    ScrambleError,
>)
    ensures
        r is Ok <==> valid_dimensions(len as nat, width as int, height as int),
        r is Ok ==> r->Ok_0.0 == width && r->Ok_0.1 == height,
        r is Err ==> r->Err_0 == ScrambleError::InvalidDimensions,
{
    if width <= 0 || height <= 0 {
        return Err(ScrambleError::InvalidDimensions);
    }
    assert(width * height <= 0x7fff_ffff * 0x7fff_ffff) by (nonlinear_arith)
        requires
            0 < width <= 0x7fff_ffff,
            0 < height <= 0x7fff_ffff,
    ;
    let area: u64 = (width as u64) * (height as u64);
    if len as u64 != area {
        return Err(ScrambleError::InvalidDimensions);
    }
    Ok((width as usize, height as usize))
}

} // verus!
