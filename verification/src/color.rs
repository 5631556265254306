//! Pixel depths and colour modes of documents.

use vstd::prelude::*;

verus! {

/// Bits per channel of a document.
#[derive(Debug, Clone, Copy, PartialEq, Eq, Hash, Structural)]
pub enum Depth {
    Eight,
    Sixteen,
    ThirtyTwo,
}

impl Depth {
    /// Bytes a sample takes.
    pub open spec fn bytes(self) -> int {
        match self {
            Depth::Eight => 1,
            Depth::Sixteen => 2,
            Depth::ThirtyTwo => 4,
        }
    }

    /// Bytes a sample takes.
    pub fn bytes_per_channel(self) -> (n: usize)
        ensures
            n == self.bytes(),
            1 <= n <= 4,
    {
        match self {
            Depth::Eight => 1,
            Depth::Sixteen => 2,
            Depth::ThirtyTwo => 4,
        }
    }
}

/// Colour mode of a document.
#[derive(Debug, Clone, Copy, PartialEq, Eq, Structural)]
pub enum ColorMode {
    Rgb,
    Grayscale,
}

impl ColorMode {
    /// Colour channels of the mode, before any alpha.
    pub open spec fn planes(self) -> int {
        match self {
            ColorMode::Rgb => 3,
            ColorMode::Grayscale => 1,
        }
    }

    /// Colour channels of the mode, before any alpha.
    pub fn channels(self) -> (n: usize)
        ensures
            n == self.planes(),
            1 <= n <= 3,
    {
        match self {
            ColorMode::Rgb => 3,
            ColorMode::Grayscale => 1,
        }
    }
}

} // verus!
