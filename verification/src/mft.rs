//! Reading an NTFS volume from its master file table.
//!
//! Every file and directory on NTFS is a fixed-size record in one table,
//! `$MFT`. Reading that table front to back is a handful of large
//! sequential reads, where walking the directories is one kernel round trip
//! per directory and most of the scan's time is spent in the kernel. It is
//! how `WizTree` and Everything are fast, and it is what this module does.
//!
//! It also answers two things a directory listing cannot on Windows without
//! opening every file: the space each file really occupies (allocated
//! clusters, so compressed, sparse and cloud-placeholder files count at what
//! they cost), and which names are hardlinks of one file (one record, many
//! names), which the ordinary de-duplication pass then charges once.
//!
//! Nothing here reads a volume: it says which bytes to read, and what the
//! bytes that come back say. Whatever they are, every offset is checked.

pub mod boot;
pub mod branches;
pub mod coverage;
pub mod extent;
pub mod fixups;
pub mod folding;
pub mod growth;
pub mod index;
pub mod mapped;
pub mod parsing;
pub mod pieces;
pub mod placement;
pub mod reading;
pub mod record;
pub mod runs;
pub mod saying;
pub mod table;

pub use boot::{parse_boot, Geometry};
pub use extent::{table_extent, Extent, Stream};
pub use fixups::apply_fixups;
pub use index::{Index, ROOT_RECORD};
pub use pieces::{plan_pieces, Piece, Segment};
pub use record::{parse_record, Record};
pub use runs::{decode_runs, Run};
pub use table::Table;
