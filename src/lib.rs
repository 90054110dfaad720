use vstd::prelude::*;

/// Re-rendering a stored map from its rows and tile atlases.
pub mod atlas;
/// Little-endian integers read from a byte buffer with a movable position.
pub mod bytes;
/// RGBA canvases, pixel access and alpha compositing.
pub mod canvas;
/// Colours: 5-6-5 expansion, channel blending and tile tinting.
pub mod color;
/// Decoding of a map file into its grids, objects and sprite placements.
pub mod decode;
/// Errors of decoding and rendering.
pub mod error;
/// Map geometry derived from the header, and the isometric projection.
pub mod geometry;
/// Depth order of the object pass.
pub mod order;
/// Records of the game's auxiliary databases and their decoders.
pub mod records;
/// The three-pass compositor that renders a decoded map.
pub mod render;
/// Frame metadata of sprite sequences.
pub mod sprite;
/// The rows that persist a decoded map.
pub mod store;
/// Tilesets, the diamond mask and tile drawing.
pub mod tile;

verus! {

} // verus!
