//! The Windows icon, packed from drawn images of the SVG mark.
//!
//! The mark is nothing but axis-aligned rectangles on a 64-unit grid, read
//! here from the SVG's text. What is drawn of it is packed into an `.ico`,
//! with no image library and no tool to install.

pub mod checksums;
pub mod ico;
pub mod layout;
pub mod png;
pub mod readback;
pub mod svg;

pub use ico::{can_pack, dib, ico};
pub use png::png;
pub use svg::parse;
