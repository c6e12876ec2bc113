//! Squashes the newest layers of a Docker image archive into a single layer.
//!
//! The library holds the verified logic: replaying layer tarballs over a
//! virtual filesystem with the whiteout protocol, emitting the merged layer,
//! selecting which layers to merge, and keeping the manifest and the image
//! config consistent with the shortened layer chain.
pub mod archive;
pub mod error;
pub mod image;
pub mod layer;
pub mod paths;
pub mod text;

pub use error::{Result, SquashError};
