//! What a file is, by its name, for people.
//!
//! The colour categories in [`crate::classify`] say what a *place* holds and
//! are inherited, so a Java archive in a Maven cache is coloured as cache.
//! That is right for the mosaic and wrong as an answer to "what is this
//! file": this module answers that, from the extension or a well-known name.

pub mod describing;
pub mod extensions;
pub mod names;
pub mod words;

pub use describing::describe;
