//! Options for raster rendering of cards: visual style, page layout and
//! resolution. The drawing itself is a rendering backend outside the
//! model; these types and the resolution policy are the part it is
//! configured by.

use vstd::prelude::*;

verus! {

/// Visual styles for raster rendering.
#[derive(Debug, Clone, Copy, PartialEq, Eq, Structural)]
pub enum CardImageStyle {
    Plain,
    Interpreter,
    Keypunch,
}

/// Target page layout for a rendered image.
#[derive(Debug, Clone, Copy, PartialEq, Eq, Structural)]
pub enum PageLayout {
    /// The image is exactly one card.
    Card,
    /// The card is centred on an A4 page.
    A4,
}

/// Lowest resolution a rendering may use.
pub const MIN_DPI: u32 = 72;

/// Highest resolution a rendering may use.
pub const MAX_DPI: u32 = 1200;

/// Options controlling raster rendering.
#[derive(Debug, Clone, Copy, PartialEq, Eq, Structural)]
pub struct ImageRenderOptions {
    pub style: CardImageStyle,
    /// Dots per inch; consumers clamp it to the sane range first.
    pub dpi: u32,
    pub layout: PageLayout,
}

/// `dpi` forced into the accepted range.
pub open spec fn spec_clamped_dpi(dpi: u32) -> u32 {
    if dpi < MIN_DPI {
        MIN_DPI
    } else if dpi > MAX_DPI {
        MAX_DPI
    } else {
        dpi
    }
}

impl ImageRenderOptions {
    /// The resolution a renderer must actually use: the requested value,
    /// clamped into the range 72 to 1200 dots per inch.
    pub fn clamped_dpi(&self) -> (r: u32)
        ensures
            r == spec_clamped_dpi(self.dpi),
            MIN_DPI <= r <= MAX_DPI,
    {
        if self.dpi < MIN_DPI {
            MIN_DPI
        } else if self.dpi > MAX_DPI {
            MAX_DPI
        } else {
            self.dpi
        }
    }
}

} // verus!
