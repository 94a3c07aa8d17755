//! Building a texture atlas out of decoded images.

pub mod image;
pub mod node;
pub mod compose;
pub mod texture;
pub mod publish;
pub mod sprite;
pub mod decode;
