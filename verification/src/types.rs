//! The seam between the game and every backend: plain data.

use vstd::prelude::*;

verus! {

/// Handle to an uploaded atlas.
#[derive(Clone, Copy, Debug, PartialEq, Eq, Hash, Structural)]
pub struct TextureId(pub u32);

impl TextureId {
    /// Reserved id: in a frame's screen pass, this samples the offscreen
    /// target the offscreen pass just rendered.
    pub fn target() -> (t: TextureId)
        ensures
            t.0 == u32::MAX,
    {
        TextureId(u32::MAX)
    }
}

/// Color multiply applied to a quad; white leaves the texture untouched.
#[derive(Clone, Copy, Debug, PartialEq, Eq, Structural)]
pub struct Rgba {
    pub r: u8,
    pub g: u8,
    pub b: u8,
    pub a: u8,
}

impl Rgba {
    pub open spec fn is_white(self) -> bool {
        self.r == 255 && self.g == 255 && self.b == 255 && self.a == 255
    }

    pub fn white() -> (c: Rgba)
        ensures
            c.is_white(),
    {
        Rgba { r: 255, g: 255, b: 255, a: 255 }
    }

    pub fn black() -> (c: Rgba)
        ensures
            c.r == 0,
            c.g == 0,
            c.b == 0,
            c.a == 255,
    {
        Rgba { r: 0, g: 0, b: 0, a: 255 }
    }
}

impl Default for Rgba {
    fn default() -> (c: Rgba)
        ensures
            c.is_white(),
    {
        Rgba::white()
    }
}

/// A left-facing sprite is the right frame flipped.
#[derive(Clone, Copy, Debug, PartialEq, Eq, Structural)]
pub enum Flip {
    Straight,
    H,
    V,
    Both,
}

impl Default for Flip {
    fn default() -> (f: Flip)
        ensures
            f == Flip::Straight,
    {
        Flip::Straight
    }
}

/// One frame's worth of input. Fields are "held this frame"; the game derives
/// presses by comparing against the previous frame's input.
#[derive(Clone, Copy, Debug, PartialEq, Eq, Structural)]
pub struct Input {
    pub up: bool,
    pub down: bool,
    pub left: bool,
    pub right: bool,
    pub a: bool,
    pub b: bool,
    pub start: bool,
    pub select: bool,
    pub zoom_in: bool,
    pub zoom_out: bool,
}

/// Nothing held.
pub open spec fn no_input() -> Input {
    Input {
        up: false,
        down: false,
        left: false,
        right: false,
        a: false,
        b: false,
        start: false,
        select: false,
        zoom_in: false,
        zoom_out: false,
    }
}

impl Default for Input {
    fn default() -> (i: Input)
        ensures
            i == no_input(),
    {
        Input {
            up: false,
            down: false,
            left: false,
            right: false,
            a: false,
            b: false,
            start: false,
            select: false,
            zoom_in: false,
            zoom_out: false,
        }
    }
}

/// The audio seam: a sink that samples are pushed into, two channels in turn.
pub trait AudioSink {
    fn queue(&mut self, samples: &[i16]);
}

} // verus!
