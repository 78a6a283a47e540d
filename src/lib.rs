//! Decoding of layered, run-length-encoded indexed-color sprites (and of the single-layer
//! indexed images that carry their palettes) into flat RGBA buffers.
pub mod atlas;
pub mod bytes;
pub mod compositor;
pub mod container;
pub mod error;
pub mod frame;
pub mod pcx;
pub mod stats;
pub mod tables;

pub use atlas::create_bmd_texture_array;
pub use compositor::{read_bmd, OutOfRangePolicy};
pub use error::DecodeError;
pub use pcx::{create_2d_texture, create_2d_texture_masked, pcx_read, pcx_read_palette_array, pcx_texture_array};
pub use stats::{bmd_stats, BmdStats};
