//! Builds TianMu file-system images in memory.
//!
//! The image is held as a byte vector that behaves like the image file:
//! a write past its end extends it (with zero bytes in any gap), and a read
//! must lie inside it.
use vstd::prelude::*;

pub mod entry;
pub mod fs_items;
pub mod image;
pub mod laws;
pub mod maker;
pub mod number;
pub mod path;
pub mod require;
pub mod tianmu;
