//! What the library reads of a V4L2 device: pixel formats, frame sizes and frame intervals.
use vstd::prelude::*;
use vstd::utf8::{decode_utf8, valid_utf8};

use crate::split::utf8_text;

verus! {

/// A four character code that names a pixel format.
#[derive(Debug, Clone, Copy)]
pub struct FourCC {
    pub repr: [u8; 4],
}

impl FourCC {
    /// The code with the given bytes.
    pub fn new(repr: &[u8; 4]) -> (r: Self)
        ensures
            r.repr@ == repr@,
    {
        FourCC { repr: *repr }
    }

    /// The code as text; empty where its bytes are not text.
    pub open spec fn text(self) -> Seq<char> {
        if valid_utf8(self.repr@) {
            decode_utf8(self.repr@)
        } else {
            Seq::empty()
        }
    }

    /// The code as text.
    pub fn name(&self) -> (r: String)
        ensures
            r@ == self.text(),
    {
        match utf8_text(&self.repr) {
            Some(s) => s,
            None => String::new(),
        }
    }
}

/// A ratio of two numbers.
#[derive(Debug, Clone, Copy, PartialEq, Eq, Structural)]
pub struct Fraction {
    pub numerator: u32,
    pub denominator: u32,
}

impl Fraction {
    /// The fraction `numerator / denominator`.
    pub fn new(numerator: u32, denominator: u32) -> (r: Self)
        ensures
            r.numerator == numerator,
            r.denominator == denominator,
    {
        Fraction { numerator, denominator }
    }
}

/// A range of frame intervals, in seconds.
#[derive(Debug, Clone, Copy, PartialEq, Eq, Structural)]
pub struct StepwiseInterval {
    pub min: Fraction,
    pub max: Fraction,
    pub step: Fraction,
}

/// The interval between two frames: one value or a range.
#[derive(Debug, Clone, Copy, PartialEq, Eq, Structural)]
pub enum FrameIntervalEnum {
    Discrete(Fraction),
    Stepwise(StepwiseInterval),
}

/// A frame interval that a device offers for one pixel format and size.
#[derive(Debug, Clone, Copy)]
pub struct FrameInterval {
    pub index: u32,
    pub fourcc: FourCC,
    pub width: u32,
    pub height: u32,
    pub typ: u32,
    pub interval: FrameIntervalEnum,
}

/// One frame size, in pixels.
#[derive(Debug, Clone, Copy, PartialEq, Eq, Structural)]
pub struct DiscreteSize {
    pub width: u32,
    pub height: u32,
}

/// A range of frame sizes, in pixels.
#[derive(Debug, Clone, Copy, PartialEq, Eq, Structural)]
pub struct StepwiseSize {
    pub min_width: u32,
    pub max_width: u32,
    pub step_width: u32,
    pub min_height: u32,
    pub max_height: u32,
    pub step_height: u32,
}

/// A frame size or a range of them.
#[derive(Debug, Clone, Copy, PartialEq, Eq, Structural)]
pub enum FrameSizeEnum {
    Discrete(DiscreteSize),
    Stepwise(StepwiseSize),
}

/// A frame size that a device offers for one pixel format.
#[derive(Debug, Clone, Copy)]
pub struct FrameSize {
    pub index: u32,
    pub fourcc: FourCC,
    pub typ: u32,
    pub size: FrameSizeEnum,
}

/// The pixel format and frame size that a stream runs with.
#[derive(Debug, Clone, Copy)]
pub struct Format {
    pub width: u32,
    pub height: u32,
    pub fourcc: FourCC,
}

/// What accompanies the bytes of a stream buffer.
#[derive(Debug, Clone, Copy, PartialEq, Eq, Structural)]
pub struct Metadata {
    /// How many bytes of the buffer hold data.
    pub bytesused: u32,
    /// The field order of the image.
    pub field: u32,
}

impl Default for Metadata {
    fn default() -> (r: Self)
        ensures
            r.bytesused == 0,
            r.field == 0,
    {
        Metadata { bytesused: 0, field: 0 }
    }
}

} // verus!
