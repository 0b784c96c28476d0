//! Record zero: where the table itself lies on the volume.

use vstd::prelude::*;

use crate::bytes;
use crate::bytes::{read_u32, read_u64};
use crate::mft::fixups;
use crate::mft::fixups::apply_fixups;
use crate::mft::record;
use crate::mft::record::{attribute_runs, resident_value, split_attributes, ATTR_DATA};
use crate::mft::runs;
use crate::mft::runs::{count_clusters, Run};

verus! {

pub const ATTR_BITMAP: u32 = 0xb0;

/// A stream's bytes: inline in the record, or runs on the volume.
#[derive(Clone, Debug, PartialEq, Eq)]
pub enum Stream {
    Resident(Vec<u8>),
    NonResident { runs: Vec<Run>, size: u64 },
}

/// What a [`Stream`] holds.
pub enum StreamModel {
    Resident(Seq<u8>),
    NonResident { runs: Seq<Run>, size: u64 },
}

impl View for Stream {
    type V = StreamModel;

    open spec fn view(&self) -> StreamModel {
        match *self {
            Stream::Resident(bytes) => StreamModel::Resident(bytes@),
            Stream::NonResident { runs, size } => StreamModel::NonResident { runs: runs@, size },
        }
    }
}

/// Where `$MFT` lives, from its own record 0.
#[derive(Clone, Debug, PartialEq, Eq)]
pub struct Extent {
    /// The table: runs and length in bytes.
    pub runs: Vec<Run>,
    pub size: u64,
    /// One bit per record, set when it is in use; `None` if record 0 does
    /// not carry it, and then every record is read.
    pub bitmap: Option<Stream>,
}

/// What an [`Extent`] holds.
pub struct ExtentModel {
    pub runs: Seq<Run>,
    pub size: u64,
    pub bitmap: Option<StreamModel>,
}

/// What a stream that may be missing holds.
pub open spec fn stream_model(stream: Option<Stream>) -> Option<StreamModel> {
    match stream {
        Some(stream) => Some(stream@),
        None => None,
    }
}

impl View for Extent {
    type V = ExtentModel;

    open spec fn view(&self) -> ExtentModel {
        ExtentModel { runs: self.runs@, size: self.size, bitmap: stream_model(self.bitmap) }
    }
}

/// What an attribute of record zero says of a stream.
pub enum Mapping {
    /// Nothing: another attribute, or a later part of a stream.
    Skipped,
    /// The attribute cannot be read.
    Unreadable,
    /// Only part of the stream is mapped here; the rest is in an extension
    /// record.
    Partial,
    /// All of the stream.
    Whole(StreamModel),
}

/// What `attribute` of record zero says of the table or its bitmap.
pub open spec fn mapping(attribute: Seq<u8>) -> Mapping {
    let kind = record::kind(attribute);
    if record::is_named(attribute) || kind != ATTR_DATA && kind != ATTR_BITMAP {
        Mapping::Skipped
    } else if record::is_resident(attribute) {
        match record::value_of(attribute) {
            Some(value) => Mapping::Whole(StreamModel::Resident(value)),
            None => Mapping::Unreadable,
        }
    } else if attribute.len() < 0x18 {
        Mapping::Unreadable
    } else if !record::starts_stream(attribute) {
        Mapping::Skipped
    } else {
        match record::runs_of(attribute) {
            None => Mapping::Unreadable,
            Some(list) => if runs::clusters(list) != bytes::le_at(attribute, 0x18, 8) + 1
                || runs::clusters(list) > u64::MAX {
                Mapping::Partial
            } else if attribute.len() < 0x38 {
                Mapping::Unreadable
            } else {
                Mapping::Whole(
                    StreamModel::NonResident {
                        runs: list,
                        size: bytes::le_at(attribute, 0x30, 8) as u64,
                    },
                )
            },
        }
    }
}

/// The table and its bitmap, as far as they are known.
pub struct Streams {
    pub table: Option<StreamModel>,
    pub bitmap: Option<StreamModel>,
}

/// `streams` and what `attribute` adds. `None` if it cannot be read, or maps
/// only part of the table.
pub open spec fn with_mapping(streams: Streams, attribute: Seq<u8>) -> Option<Streams> {
    let is_table = record::kind(attribute) == ATTR_DATA;
    match mapping(attribute) {
        Mapping::Skipped => Some(streams),
        Mapping::Unreadable => None,
        Mapping::Partial => if is_table {
            None
        } else {
            Some(streams)
        },
        Mapping::Whole(stream) => if is_table {
            Some(Streams { table: Some(stream), ..streams })
        } else {
            Some(Streams { bitmap: Some(stream), ..streams })
        },
    }
}

/// The table and its bitmap, from the first `count` of `list`.
pub open spec fn with_mappings(list: Seq<Seq<u8>>, count: nat) -> Option<Streams>
    decreases count,
{
    if count == 0 {
        Some(Streams { table: None, bitmap: None })
    } else {
        match with_mappings(list, (count - 1) as nat) {
            Some(streams) => with_mapping(streams, list[count - 1]),
            None => None,
        }
    }
}

/// Where the table lies, from a record zero whose fixups are undone.
pub open spec fn mended_extent(zero: Seq<u8>) -> Option<ExtentModel> {
    match record::attributes(zero) {
        None => None,
        Some(list) => match with_mappings(list, list.len()) {
            Some(streams) => match streams.table {
                Some(StreamModel::NonResident { runs, size }) => Some(
                    ExtentModel { runs, size, bitmap: streams.bitmap },
                ),
                _ => None,
            },
            None => None,
        },
    }
}

/// Where the table lies, from a record zero as it is on the volume.
pub open spec fn extent_in(zero: Seq<u8>) -> Option<ExtentModel> {
    if fixups::intact(zero) {
        mended_extent(fixups::repaired(zero))
    } else {
        None
    }
}

proof fn lemma_unmapped(list: Seq<Seq<u8>>, few: nat, many: nat)
    requires
        few <= many,
        with_mappings(list, few) is None,
    ensures
        with_mappings(list, many) is None,
    decreases many,
{
    if few < many {
        lemma_unmapped(list, few, (many - 1) as nat);
    }
}

/// What an attribute of record zero says of a stream.
enum Mapped {
    Skipped,
    Unreadable,
    Partial,
    Whole(Stream),
}

impl Mapped {
    spec fn model(&self) -> Mapping {
        match *self {
            Mapped::Skipped => Mapping::Skipped,
            Mapped::Unreadable => Mapping::Unreadable,
            Mapped::Partial => Mapping::Partial,
            Mapped::Whole(stream) => Mapping::Whole(stream@),
        }
    }
}

fn map_attribute(attribute: &[u8], kind: u32) -> (mapped: Mapped)
    requires
        attribute@.len() >= 16,
        kind == record::kind(attribute@),
    ensures
        mapped.model() == mapping(attribute@),
{
    if attribute[9] != 0 || (kind != ATTR_DATA && kind != ATTR_BITMAP) {
        return Mapped::Skipped;
    }
    if attribute[8] == 0 {
        return match resident_value(attribute) {
            Some(value) => Mapped::Whole(Stream::Resident(vstd::slice::slice_to_vec(value))),
            None => Mapped::Unreadable,
        };
    }
    match read_u64(attribute, 0x10) {
        None => {
            return Mapped::Unreadable;
        },
        Some(cluster) => {
            if cluster != 0 {
                return Mapped::Skipped;
            }
        },
    }
    let list = match attribute_runs(attribute) {
        None => {
            return Mapped::Unreadable;
        },
        Some(list) => list,
    };
    let last: u64 = match read_u64(attribute, 0x18) {
        None => {
            return Mapped::Unreadable;
        },
        Some(last) => last,
    };
    match count_clusters(&list) {
        Some(count) => {
            if count == 0 || count - 1 != last {
                return Mapped::Partial;
            }
        },
        None => {
            return Mapped::Partial;
        },
    }
    match read_u64(attribute, 0x30) {
        Some(size) => Mapped::Whole(Stream::NonResident { runs: list, size }),
        None => Mapped::Unreadable,
    }
}

/// Read where the table and its in-use bitmap are. `None` if the table's
/// runs are not all in record 0, which only a very fragmented table does;
/// the directory walk handles that volume instead.
pub fn table_extent(record_zero: &mut [u8]) -> (extent: Option<Extent>)
    ensures
        final(record_zero)@ == fixups::repaired(old(record_zero)@),
        extent is Some <==> extent_in(old(record_zero)@) is Some,
        extent matches Some(extent) ==> extent_in(old(record_zero)@) == Some(extent@),
{
    let ghost before = record_zero@;
    if !apply_fixups(record_zero) {
        return None;
    }
    proof {
        fixups::lemma_repaired_keeps(before);
    }
    let ranges = split_attributes(record_zero)?;
    let ghost list = record::attributes(record_zero@).unwrap();
    let mut table: Option<Stream> = None;
    let mut bitmap: Option<Stream> = None;
    let mut at: usize = 0;
    while at < ranges.len()
        invariant
            record_zero@ == fixups::repaired(before),
            before == old(record_zero)@,
            fixups::intact(before),
            record::attributes(record_zero@) == Some(list),
            at <= ranges@.len() == list.len(),
            forall|i: int|
                #![trigger ranges@[i]]
                0 <= i < ranges@.len() ==> {
                    &&& ranges@[i].0 + 16 <= ranges@[i].1 <= record_zero@.len()
                    &&& record_zero@.subrange(ranges@[i].0 as int, ranges@[i].1 as int) == list[i]
                },
            with_mappings(list, at as nat) == Some(
                Streams { table: stream_model(table), bitmap: stream_model(bitmap) },
            ),
        decreases ranges@.len() - at,
    {
        let (from, to): (usize, usize) = ranges[at];
        let attribute = &record_zero[from..to];
        let kind: u32 = match read_u32(attribute, 0) {
            Some(kind) => kind,
            None => 0,
        };
        let mapped = map_attribute(attribute, kind);
        match mapped {
            Mapped::Skipped => {},
            Mapped::Unreadable => {
                proof {
                    lemma_unmapped(list, (at + 1) as nat, list.len());
                }
                return None;
            },
            Mapped::Partial => {
                if kind == ATTR_DATA {
                    proof {
                        lemma_unmapped(list, (at + 1) as nat, list.len());
                    }
                    return None;
                }
            },
            Mapped::Whole(stream) => {
                if kind == ATTR_DATA {
                    table = Some(stream);
                } else {
                    bitmap = Some(stream);
                }
            },
        }
        at = at + 1;
    }
    match table {
        Some(Stream::NonResident { runs, size }) => Some(Extent { runs, size, bitmap }),
        // A table small enough to sit in its own record is not a volume.
        _ => None,
    }
}

} // verus!
