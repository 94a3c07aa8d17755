//! Texture atlas packing: images are sorted, placed into a growing square by a
//! guillotine tree, composited into one pixel buffer and published, together
//! with their texture coordinates, in a name-indexed resource registry.

pub mod loader;
pub mod resource;
