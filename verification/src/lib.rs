//! Reading, checking and laying out image data: camera raw containers and
//! their codecs, layered documents, and the geometry of compositing them.

pub mod blend;
pub mod bytes;
pub mod color;
pub mod compositor;
pub mod geom;
pub mod gpu;
pub mod grid;
pub mod layers;
pub mod path;
pub mod psd;
pub mod raw;
pub mod text;
pub mod tile;
