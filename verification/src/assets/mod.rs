//! Boot textures, and what is looked up or fetched for an injected title.

pub mod gametdb;
pub mod images;
pub mod nintendont;

pub use gametdb::lookup_title;
pub use images::{png_to_tga, BootTexture};
