//! What a lossless JPEG decoder hands over.

use vstd::prelude::*;

verus! {

/// What the frame header of a lossless JPEG says.
#[derive(Debug, Clone, Copy, PartialEq, Eq, Structural)]
pub struct LosslessHeader {
    pub components: usize,
    /// Bits a sample.
    pub precision: u32,
}

/// A decoded lossless JPEG: `components` samples a pixel, interleaved.
#[derive(Debug)]
pub struct LosslessFrame {
    pub width: usize,
    pub height: usize,
    pub components: usize,
    pub data: Vec<u16>,
}

/// [`LosslessFrame`] as a mathematical value.
pub struct LosslessModel {
    pub width: int,
    pub height: int,
    pub components: int,
    pub data: Seq<u16>,
}

impl View for LosslessFrame {
    type V = LosslessModel;

    open spec fn view(&self) -> LosslessModel {
        LosslessModel {
            width: self.width as int,
            height: self.height as int,
            components: self.components as int,
            data: self.data@,
        }
    }
}

} // verus!
