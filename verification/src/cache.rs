//! The last finished scan of a root, kept on disk so the next start can show
//! it at once while a fresh walk runs.
//!
//! Only what a scan measures is stored: each entry's name and kind, and for
//! a leaf its bytes and last write. Everything derived — totals, direct
//! figures, order, colour, what is reclaimable — is recomputed on load by the
//! same [`aggregate`](crate::tree::aggregate) a scan uses and by the classifier
//! that loading is handed, so a cached tree cannot disagree with the rules of
//! the version reading it. Leaf bytes are stored after hardlink
//! de-duplication, so a second name stays free.
//!
//! The format is private and versioned; a file that is from another version,
//! for other options, truncated or otherwise off is ignored, never trusted.

pub mod cursor;
pub mod damage;
pub mod error;
pub mod file;
pub mod keys;
pub mod laws;
pub mod limits;
pub mod nodes;
pub mod numbers;
pub mod places;
pub mod pruning;

pub use cursor::{Reader, Writer};
pub use error::CacheError;
pub use file::{cacheable, load, save, Cached};
pub use keys::{file_name, key};
pub use pruning::stale;
