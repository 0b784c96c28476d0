//! What fills a disk: the scanned tree and everything worked out from it.
//!
//! A scan gives a [`tree`] of names and sizes. Its totals and its order are
//! worked out from the leaves; a [`filter`] says which of it to show, and a
//! [`cache`] keeps it for the next start. On NTFS the tree comes from the
//! volume's own file table, which [`mft`] reads. [`filetype`] says what a file
//! is, [`paths`] spells paths one way, [`args`] reads the command line, and
//! [`icon`] packs the program's icon.
//!
//! Nothing here touches a disk: bytes and values come in, and bytes and values
//! go out.

pub mod args;
pub mod bytes;
pub mod cache;
pub mod classify;
pub mod filetype;
pub mod filter;
pub mod icon;
pub mod mft;
pub mod paths;
pub mod scan;
pub mod sort;
pub mod text;
pub mod tree;
