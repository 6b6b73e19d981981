//! A verified model of a coder bridge for a native image-processing library.
//!
//! The bridge lets independently written image-format codecs (a decoder and
//! an encoder per format) be installed into the host's format registry and
//! drive the host's image, pixel-buffer and byte-stream objects through a
//! narrow, safe surface.  The host's state is modelled here as plain data:
//! an image is a flat buffer of channel samples plus metadata, the attached
//! byte stream is a vector of bytes, and the exception record is an explicit
//! value.  Every operation the codecs rely on carries a contract, and the
//! two reference codecs (a uniform-colour generator and the WBMP bitmap
//! format) are verified end to end against those contracts.

use vstd::prelude::*;

pub mod blob;
pub mod exception;
pub mod image;
pub mod null;
pub mod registry;
pub mod wbmp;

verus! {

/// Number of channel samples each pixel occupies in a pixel buffer:
/// red, green, blue, alpha, and a palette index channel.
pub const CHANNELS: usize = 5;

/// Slot offset of the red channel within a pixel.
pub const RED_CHANNEL: usize = 0;

/// Slot offset of the green channel within a pixel.
pub const GREEN_CHANNEL: usize = 1;

/// Slot offset of the blue channel within a pixel.
pub const BLUE_CHANNEL: usize = 2;

/// Slot offset of the alpha channel within a pixel.
pub const ALPHA_CHANNEL: usize = 3;

/// Slot offset of the palette-index channel within a pixel.
pub const INDEX_CHANNEL: usize = 4;

/// Largest value a channel sample can take.
pub const QUANTUM_RANGE: u16 = 65535;

/// Alpha value of a fully transparent pixel.
pub const TRANSPARENT_ALPHA: u16 = 0;

/// Alpha value of a fully opaque pixel.
pub const OPAQUE_ALPHA: u16 = 65535;

/// One channel sample: the intensity of a single colour (or alpha, or
/// palette-index) channel of one pixel.
#[derive(Clone, Copy, Debug, PartialEq, Eq, Structural)]
pub struct Quantum(pub u16);

impl From<u8> for Quantum {
    /// Widens an eight-bit sample into a channel sample.
    fn from(v: u8) -> (r: Quantum) {
        Quantum(v as u16)
    }
}

impl vstd::std_specs::convert::FromSpecImpl<u8> for Quantum {
    open spec fn obeys_from_spec() -> bool {
        true
    }

    open spec fn from_spec(v: u8) -> Quantum {
        Quantum(v as u16)
    }
}

/// A single pixel's full channel values, used for bulk fills and for the
/// background colour carried by a decode request.
#[derive(Clone, Copy, Debug, PartialEq, Eq, Structural)]
pub struct PixelInfo {
    pub red: Quantum,
    pub green: Quantum,
    pub blue: Quantum,
    pub alpha: Quantum,
}

impl PixelInfo {
    /// Replaces the alpha channel, keeping the colour channels.
    pub fn set_alpha(&mut self, value: Quantum)
        ensures
            *final(self) == (PixelInfo { alpha: value, ..*old(self) }),
    {
        self.alpha = value;
    }

    /// The channel value this pixel holds at slot offset `c`; the palette
    /// index channel of a bulk-fill pixel is zero.
    pub open spec fn channel(self, c: nat) -> u16 {
        if c == RED_CHANNEL {
            self.red.0
        } else if c == GREEN_CHANNEL {
            self.green.0
        } else if c == BLUE_CHANNEL {
            self.blue.0
        } else if c == ALPHA_CHANNEL {
            self.alpha.0
        } else {
            0
        }
    }
}

} // verus!
