use vstd::prelude::*;

verus! {

/// Why decoding or rendering a map failed.
#[derive(Debug, Clone, Copy, PartialEq, Eq, Structural)]
pub enum MapError {
    /// A read ran past the end of the data, or a seek went before its start.
    Io,
    /// A sprite catalog entry carried a stamp other than 6 or 9.
    UnexpectedMagic(i32),
    /// The header dimensions, or a size derived from them, do not fit in 32 bits.
    ArithmeticOverflow,
    /// The header declares a dimension that is zero or negative.
    InvalidDimensions,
    /// A count or a reference inside the file is out of range.
    InvalidData,
    /// An atlas tile lies outside the atlas image.
    AtlasOutOfBounds,
    /// The map store failed, or holds no cells for the map.
    StoreError,
}

} // verus!
