//! The scripted input of a run without a screen.

use vstd::prelude::*;
use crate::types::Input;

verus! {

/// The script: walk right while zooming out, then down while zooming in.
pub open spec fn script(tick: u32) -> Input {
    Input {
        up: false,
        down: tick >= 120,
        left: false,
        right: tick < 120,
        a: false,
        b: false,
        start: false,
        select: false,
        zoom_in: tick >= 120,
        zoom_out: tick < 120,
    }
}

/// What is held at a tick of the script.
pub fn scripted(tick: u32) -> (i: Input)
    ensures
        i == script(tick),
{
    Input {
        right: tick < 120,
        down: tick >= 120,
        zoom_out: tick < 120,
        zoom_in: tick >= 120,
        ..Input::default()
    }
}

/// Whether an atlas has four bytes for each of its pixels.
pub open spec fn is_rgba(len: int, w: u32, h: u32) -> bool {
    len == w * h * 4
}

/// Whether an atlas has four bytes for each of its pixels.
pub fn is_atlas(rgba: &[u8], w: u32, h: u32) -> (b: bool)
    ensures
        b == is_rgba(rgba@.len() as int, w, h),
{
    assert(0 <= w * h <= 0xffff_ffff * 0xffff_ffff) by (nonlinear_arith)
        requires
            0 <= w <= 0xffff_ffff,
            0 <= h <= 0xffff_ffff,
    ;
    rgba.len() as u128 == w as u128 * h as u128 * 4
}

} // verus!
