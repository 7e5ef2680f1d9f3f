//! Errors constructing a grid.

use vstd::prelude::*;

verus! {

/// Errors constructing a grid.
#[derive(Debug, Clone, PartialEq)]
pub enum GridError<R> {
    /// A dimension has zero cells or zero block cells.
    EmptyDimension(usize),
    /// The domain is not evenly tiled by the requested block size.
    IndivisibleDimension {
        /// The offending dimension.
        dimension: usize,
        /// Interior cells requested in that dimension.
        cells: usize,
        /// Block cells requested in that dimension.
        block_cells: usize,
    },
    /// Cell spacing must be a positive finite number.
    InvalidSpacing {
        /// The offending dimension.
        dimension: usize,
        /// The rejected spacing value.
        spacing: R,
    },
    /// Refinement ratios must be at least 2, one per level transition.
    AmrRatio {
        /// Refined levels requested.
        levels: usize,
        /// Ratios supplied.
        ratios: usize,
    },
    /// A patch has zero cells.
    AmrEmptyPatch {
        /// The offending level.
        level: u8,
    },
    /// A patch's faces do not lie on faces of the level below.
    AmrMisaligned {
        /// The offending level.
        level: u8,
    },
    /// Two same-level patches overlap.
    AmrOverlap {
        /// The offending level.
        level: u8,
    },
    /// A patch violates proper nesting: coarsened and grown by one cell, it
    /// must lie in the union of the level below, except at the physical domain
    /// boundary.
    AmrNotNested {
        /// The offending level.
        level: u8,
    },
}

} // verus!
