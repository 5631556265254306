//! One module per container.

pub mod cr2;
pub mod crw;
pub mod crx;
pub mod iiq;
pub mod kodak;
pub mod raf_compressed;
pub mod rw2;
pub mod srw;
pub mod x3f;
