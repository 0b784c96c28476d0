//! Where a volume says its table lies, and what is read of it.

use vstd::arithmetic::power2::pow2;
use vstd::prelude::*;

use crate::bytes;
use crate::mft::boot;
use crate::mft::boot::Geometry;
use crate::mft::extent;
use crate::mft::extent::{StreamModel, Streams};
use crate::mft::fixups;
use crate::mft::pieces;
use crate::mft::pieces::{PieceModel, Segment};
use crate::mft::reading;
use crate::mft::record;
use crate::mft::record::RecordModel;
use crate::mft::runs;
use crate::mft::runs::Run;
use crate::mft::table::TableModel;

verus! {

/// The end mark ends an array of runs; bytes that end without one are no
/// array.
pub proof fn lemma_runs_end(rest: Seq<u8>, start: int)
    ensures
        runs::runs_from(seq![0u8] + rest, start) == Some(Seq::<Run>::empty()),
        runs::runs_from(Seq::empty(), start) is None,
{
    assert((seq![0u8] + rest)[0] == 0);
}

/// A run is its two widths in one byte, its length and its start, which
/// counts from where the run before it starts; it is decoded as such, and
/// what follows as if it stood alone, from there.
pub proof fn lemma_run_decoded(length: Seq<u8>, delta: Seq<u8>, rest: Seq<u8>, start: int)
    requires
        1 <= length.len() <= 8,
        1 <= delta.len() <= 8,
    ensures
        ({
            let widths = (length.len() + 16 * delta.len()) as u8;
            let next = start + bytes::le_signed(delta);
            let found = runs::runs_from(seq![widths] + length + delta + rest, start);
            if 0 <= next <= i64::MAX {
                match runs::runs_from(rest, next) {
                    Some(more) => found == Some(
                        seq![Run { start: Some(next as u64), length: bytes::le(length) as u64 }]
                            + more,
                    ),
                    None => found is None,
                }
            } else {
                found is None
            }
        }),
{
    let widths = (length.len() + 16 * delta.len()) as u8;
    let pairs = seq![widths] + length + delta + rest;
    let size = 1 + length.len() + delta.len();
    assert(pairs[0] == widths);
    assert(widths % 16 == length.len());
    assert(widths / 16 == delta.len());
    assert(pairs.subrange(1, 1 + length.len() as int) =~= length);
    assert(pairs.subrange(1 + length.len() as int, size as int) =~= delta);
    assert(pairs.skip(size as int) =~= rest);
}

/// A run without a start is a hole, and the one after it counts from where
/// the one before it starts.
pub proof fn lemma_hole_decoded(length: Seq<u8>, rest: Seq<u8>, start: int)
    requires
        1 <= length.len() <= 8,
    ensures
        ({
            let found = runs::runs_from(seq![length.len() as u8] + length + rest, start);
            match runs::runs_from(rest, start) {
                Some(more) => found == Some(
                    seq![Run { start: None, length: bytes::le(length) as u64 }] + more,
                ),
                None => found is None,
            }
        }),
{
    let widths = length.len() as u8;
    let pairs = seq![widths] + length + rest;
    assert(pairs[0] == widths);
    assert(widths % 16 == length.len());
    assert(widths / 16 == 0);
    assert(pairs.subrange(1, 1 + length.len() as int) =~= length);
    assert(pairs.skip(1 + length.len() as int) =~= rest);
}

/// What a boot sector says of a volume: the table starts at a cluster, which
/// is so many sectors; a record is so many clusters, or, counted down from
/// 256, a power of two, as is a cluster of more than 128 sectors.
pub proof fn lemma_boot_says(sector: Seq<u8>)
    ensures
        boot::boot_geometry(sector) matches Some(geometry) ==> {
            let each = bytes::le_at(sector, 0x0b, 2);
            let (sectors, records) = (sector[0x0d] as int, sector[0x40] as int);
            &&& sector.len() > 0x40
            &&& sector.subrange(3, 11) == seq![0x4eu8, 0x54, 0x46, 0x53, 0x20, 0x20, 0x20, 0x20]
            &&& each == 256 || each == 512 || each == 1024 || each == 2048 || each == 4096
            &&& sectors <= 128 ==> geometry.cluster == each * sectors
            &&& sectors > 128 ==> geometry.cluster == each * pow2((256 - sectors) as nat)
            &&& geometry.cluster > 0
            &&& records < 128 ==> geometry.record == records * geometry.cluster
            &&& records >= 128 ==> geometry.record == pow2((256 - records) as nat)
            &&& 1024 <= geometry.record <= 65_536
            &&& geometry.record % 512 == 0
            &&& geometry.mft_offset == bytes::le_at(sector, 0x30, 8) * geometry.cluster
        },
{
}

/// A boot sector that says so is read: with NTFS's mark, sectors and records
/// of a size that they can have, and a table that lies on the volume.
pub proof fn lemma_boot_read(sector: Seq<u8>, cluster: nat, size: nat)
    requires
        sector.len() > 0x40,
        sector.subrange(3, 11) == seq![0x4eu8, 0x54, 0x46, 0x53, 0x20, 0x20, 0x20, 0x20],
        ({
            let each = bytes::le_at(sector, 0x0b, 2);
            each == 256 || each == 512 || each == 1024 || each == 2048 || each == 4096
        }),
        sector[0x0d] <= 128,
        cluster == bytes::le_at(sector, 0x0b, 2) * sector[0x0d],
        0 < cluster,
        sector[0x40] < 128 ==> size == sector[0x40] * cluster,
        192 < sector[0x40] ==> size == pow2((256 - sector[0x40]) as nat),
        !(128 <= sector[0x40] <= 192),
        1024 <= size <= 65_536,
        size % 512 == 0,
        bytes::le_at(sector, 0x30, 8) * cluster <= u64::MAX,
    ensures
        boot::boot_geometry(sector) == Some(
            Geometry {
                cluster: cluster as u64,
                record: size as usize,
                mft_offset: (bytes::le_at(sector, 0x30, 8) * cluster) as u64,
            },
        ),
{
    let each = bytes::le_at(sector, 0x0b, 2);
    let sectors = sector[0x0d] as nat;
    assert(each * sectors <= 4096 * 128) by (nonlinear_arith)
        requires
            each <= 4096,
            sectors <= 128,
    ;
}

/// Whether `attribute` maps all of a stream without a name, from its start:
/// its runs are as many clusters as it says.
pub open spec fn maps_all(attribute: Seq<u8>, list: Seq<Run>, size: u64) -> bool {
    &&& attribute[9] == 0
    &&& attribute[8] != 0
    &&& bytes::le_at(attribute, 0x10, 8) == 0
    &&& record::runs_of(attribute) == Some(list)
    &&& runs::clusters(list) == bytes::le_at(attribute, 0x18, 8) + 1
    &&& size == bytes::le_at(attribute, 0x30, 8)
}

/// Whether `streams` are what the attributes of `list` say, the last of each.
spec fn told(streams: Streams, list: Seq<Seq<u8>>) -> bool {
    &&& streams.table matches Some(StreamModel::NonResident { runs, size }) ==> exists|i: int|
        0 <= i < list.len() && bytes::le_at(#[trigger] list[i], 0, 4) == 0x80 && maps_all(
            list[i],
            runs,
            size,
        )
    &&& streams.bitmap matches Some(StreamModel::NonResident { runs, size }) ==> exists|i: int|
        0 <= i < list.len() && bytes::le_at(#[trigger] list[i], 0, 4) == 0xb0 && maps_all(
            list[i],
            runs,
            size,
        )
    &&& streams.bitmap matches Some(StreamModel::Resident(value)) ==> exists|i: int|
        0 <= i < list.len() && bytes::le_at(#[trigger] list[i], 0, 4) == 0xb0 && list[i][8] == 0
            && list[i][9] == 0 && record::value_of(list[i]) == Some(value)
}

proof fn lemma_told(list: Seq<Seq<u8>>, count: nat)
    requires
        count <= list.len(),
        forall|i: int| 0 <= i < list.len() ==> (#[trigger] list[i]).len() >= 16,
    ensures
        extent::with_mappings(list, count) matches Some(streams) ==> told(streams, list),
    decreases count,
{
    if count > 0 {
        let few = (count - 1) as nat;
        lemma_told(list, few);
        let attribute = list[few as int];
        bytes::lemma_le_bound(attribute.subrange(0, 4));
        bytes::lemma_span_values();
        if attribute.len() >= 0x38 {
            bytes::lemma_le_bound(attribute.subrange(0x30, 0x38));
        }
        assert(bytes::le_at(list[few as int], 0, 4) == bytes::le_at(attribute, 0, 4));
    }
}

/// The table lies where record zero says: in runs that map all of it, as long
/// as they say; and its bitmap, where there is one, in its own.
pub proof fn lemma_table_lies_where_said(zero: Seq<u8>)
    ensures
        extent::extent_in(zero) matches Some(found) ==> (record::attributes(
            fixups::repaired(zero),
        ) matches Some(list) && {
            &&& exists|i: int|
                0 <= i < list.len() && bytes::le_at(#[trigger] list[i], 0, 4) == 0x80 && maps_all(
                    list[i],
                    found.runs,
                    found.size,
                )
            &&& found.bitmap matches Some(StreamModel::NonResident { runs, size }) ==> exists|i: int|
                0 <= i < list.len() && bytes::le_at(#[trigger] list[i], 0, 4) == 0xb0 && maps_all(
                    list[i],
                    runs,
                    size,
                )
            &&& found.bitmap matches Some(StreamModel::Resident(value)) ==> exists|i: int|
                0 <= i < list.len() && bytes::le_at(#[trigger] list[i], 0, 4) == 0xb0 && list[i][8]
                    == 0 && list[i][9] == 0 && record::value_of(list[i]) == Some(value)
        }),
{
    if let Some(found) = extent::extent_in(zero) {
        let mended = fixups::repaired(zero);
        fixups::lemma_repaired_keeps(zero);
        if let Some(list) = record::attributes(mended) {
            crate::mft::saying::lemma_attributes_headed(
                mended,
                bytes::le_at(mended, 0x14, 2) as int,
                record::used_bytes(mended),
            );
            lemma_told(list, list.len());
        }
    }
}

/// One attribute that maps all of the table makes its runs known, and one that
/// maps all of the bitmap, or holds it, makes that known; what is about
/// neither, or has a name, changes nothing.
pub proof fn lemma_mapping_added(streams: Streams, attribute: Seq<u8>, list: Seq<Run>, size: u64)
    requires
        attribute.len() >= 0x40,
        runs::clusters(list) <= u64::MAX,
    ensures
        bytes::le_at(attribute, 0, 4) == 0x80 && maps_all(attribute, list, size)
            ==> extent::with_mapping(streams, attribute) == Some(
            Streams { table: Some(StreamModel::NonResident { runs: list, size }), ..streams },
        ),
        bytes::le_at(attribute, 0, 4) == 0xb0 && maps_all(attribute, list, size)
            ==> extent::with_mapping(streams, attribute) == Some(
            Streams { bitmap: Some(StreamModel::NonResident { runs: list, size }), ..streams },
        ),
        bytes::le_at(attribute, 0, 4) == 0xb0 && attribute[8] == 0 && attribute[9] == 0
            && record::value_of(attribute) is Some ==> extent::with_mapping(streams, attribute)
            == Some(
            Streams {
                bitmap: Some(StreamModel::Resident(record::value_of(attribute)->0)),
                ..streams
            },
        ),
        attribute[9] != 0 || bytes::le_at(attribute, 0, 4) != 0x80 && bytes::le_at(attribute, 0, 4)
            != 0xb0 ==> extent::with_mapping(streams, attribute) == Some(streams),
{
    bytes::lemma_le_bound(attribute.subrange(0, 4));
    bytes::lemma_span_values();
}

/// Bit `number % 8` of byte `number / 8`, the lowest first, says whether a
/// record may be in use; past the bitmap's end, and without one, it may.
pub proof fn lemma_bit_of_record(bits: Seq<u8>, number: int)
    requires
        0 <= number,
    ensures
        number / 8 < bits.len() ==> (pieces::may_be_used(Some(bits), number) <==> (
        bits[number / 8] as int / pow2((number % 8) as nat) as int) % 2 == 1),
        number / 8 >= bits.len() ==> pieces::may_be_used(Some(bits), number),
        pieces::may_be_used(None, number),
{
    if number / 8 < bits.len() {
        let (byte, bit) = (bits[number / 8], (number % 8) as u8);
        vstd::arithmetic::power2::lemma2_to64();
        assert(byte >> 0u8 == byte / 1 && byte >> 1u8 == byte / 2 && byte >> 2u8 == byte / 4
            && byte >> 3u8 == byte / 8 && byte >> 4u8 == byte / 16 && byte >> 5u8 == byte / 32
            && byte >> 6u8 == byte / 64 && byte >> 7u8 == byte / 128) by (bit_vector);
        let shifted = byte >> bit;
        assert((shifted & 1 != 0) <==> shifted % 2 == 1) by (bit_vector);
    }
}

/// A stretch of which no record is in use is not read, nor is a hole; one of
/// which some record may be in use is.
pub proof fn lemma_free_is_not_read(bits: Option<Seq<u8>>, piece: PieceModel, number: int, at: int)
    ensures
        (forall|any: int|
            piece.first_record <= any < piece.first_record + piece.records
                ==> !#[trigger] pieces::may_be_used(bits, any)) ==> !pieces::worth_reading(
            bits,
            piece,
        ),
        (forall|any: int|
            0 <= any < piece.segments.len() ==> (#[trigger] piece.segments[any]).offset is None)
            ==> !pieces::worth_reading(bits, piece),
        piece.first_record <= number < piece.first_record + piece.records && pieces::may_be_used(
            bits,
            number,
        ) && 0 <= at < piece.segments.len() && piece.segments[at].offset is Some
            ==> pieces::worth_reading(bits, piece),
{
    if pieces::worth_reading(bits, piece) {
        let any = choose|any: int|
            piece.first_record <= any < piece.first_record + piece.records
                && #[trigger] pieces::may_be_used(bits, any);
        assert(pieces::may_be_used(bits, any));
    }
}

/// The bytes of `segments`.
pub open spec fn bytes_in(segments: Seq<Segment>) -> nat
    decreases segments.len(),
{
    if segments.len() == 0 {
        0
    } else {
        segments[0].length as nat + bytes_in(segments.skip(1))
    }
}

/// Whether `segment` is where `run` lies on the volume, or a hole as long as
/// it.
pub open spec fn lies_at(segment: Segment, run: Run, cluster: u64) -> bool {
    &&& segment.length == run.length * cluster
    &&& match run.start {
        Some(start) => segment.offset matches Some(offset) && offset == start * cluster,
        None => segment.offset is None,
    }
}

/// A stream is read run by run from its first, each whole where it lies, until
/// there are as many bytes as it has, or no runs are left; and no run more.
pub proof fn lemma_stream_read(list: Seq<Run>, cluster: u64, size: u64, index: int, done: int)
    requires
        0 <= index <= list.len(),
        0 <= done,
    ensures
        reading::stream_from(list, cluster, size, index, done) matches Some(segments) ==> {
            &&& segments.len() <= list.len() - index
            &&& forall|i: int|
                0 <= i < segments.len() ==> lies_at(
                    #[trigger] segments[i],
                    list[index + i],
                    cluster,
                )
            &&& segments.len() == list.len() - index || done + bytes_in(segments) >= size
            &&& forall|few: int|
                0 < few < segments.len() ==> done + #[trigger] bytes_in(segments.take(few)) < size
        },
    decreases list.len() - index,
{
    if index < list.len() {
        let run = list[index];
        let length = run.length * cluster;
        assert(length >= 0) by (nonlinear_arith)
            requires
                length == run.length * cluster,
        ;
        if let Some(start) = run.start {
            assert(start * cluster >= 0) by (nonlinear_arith);
        }
        if length > usize::MAX || (run.start matches Some(start) && start * cluster > u64::MAX) {
        } else {
            let offset = match run.start {
                Some(start) => Some((start * cluster) as u64),
                None => None,
            };
            let segment = Segment { offset, length: length as usize };
            assert(segment.length == length);
            assert(lies_at(segment, run, cluster));
            if done + length >= size {
                let segments = seq![segment];
                assert(segments.skip(1) =~= Seq::empty());
                assert(bytes_in(segments.skip(1)) == 0);
            } else {
                lemma_stream_read(list, cluster, size, index + 1, done + length);
                if let Some(rest) = reading::stream_from(
                    list,
                    cluster,
                    size,
                    index + 1,
                    done + length,
                ) {
                    let segments = seq![segment] + rest;
                    assert(segments.skip(1) =~= rest);
                    assert forall|i: int| 0 <= i < segments.len() implies lies_at(
                        #[trigger] segments[i],
                        list[index + i],
                        cluster,
                    ) by {
                        if i > 0 {
                            assert(segments[i] == rest[i - 1]);
                        }
                    }
                    assert forall|few: int| 0 < few < segments.len() implies done
                        + #[trigger] bytes_in(segments.take(few)) < size by {
                        assert(segments.take(few).skip(1) =~= rest.take(few - 1));
                        assert(segments.take(few)[0] == segment);
                        assert(bytes_in(segments.take(few)) == length + bytes_in(
                            rest.take(few - 1),
                        ));
                        if few == 1 {
                            assert(rest.take(0) =~= Seq::empty());
                            assert(bytes_in(rest.take(0)) == 0);
                        }
                    }
                }
            }
        }
    }
}

/// The records of a piece are those that can be read of the stretches it is
/// cut into, each by its number.
pub proof fn lemma_records_of_piece(
    data: Seq<u8>,
    geometry: Geometry,
    first: u64,
    count: nat,
    number: u64,
    found: RecordModel,
)
    requires
        first + count <= u64::MAX,
    ensures
        reading::records_in(data, geometry, first, count).contains((number, found)) <==> {
            let at = number - first;
            &&& 0 <= at < count
            &&& record::record_in(
                data.subrange(at * geometry.record, (at + 1) * geometry.record),
                geometry.cluster,
            ) == Some(found)
        },
    decreases count,
{
    if count > 0 {
        let few = (count - 1) as nat;
        lemma_records_of_piece(data, geometry, first, few, number, found);
        let before = reading::records_in(data, geometry, first, few);
        let after = reading::records_in(data, geometry, first, count);
        let wanted = (number, found);
        let size = geometry.record as int;
        let last = data.subrange((count - 1) * size, count * size);
        if before.contains(wanted) {
            let i = choose|i: int| 0 <= i < before.len() && before[i] == wanted;
            assert(after[i] == wanted);
        }
        if after.contains(wanted) && !before.contains(wanted) {
            let i = choose|i: int| 0 <= i < after.len() && after[i] == wanted;
            assert(i == before.len());
        }
        if number == first + few && record::record_in(last, geometry.cluster) == Some(found) {
            assert(after[after.len() - 1] == wanted);
        }
    }
}

/// Records are added one after the other: those of two pieces are the first's
/// and then the second's. A number that no record can have is passed over.
pub proof fn lemma_records_added(
    table: TableModel,
    first: Seq<(u64, RecordModel)>,
    second: Seq<(u64, RecordModel)>,
    count: nat,
)
    requires
        count <= second.len(),
    ensures
        reading::with_records(table, first + second, first.len() + count) == (
        match reading::with_records(table, first, first.len()) {
            Some(middle) => reading::with_records(middle, second, count),
            None => None,
        }),
    decreases count,
{
    let all = first + second;
    if count > 0 {
        lemma_records_added(table, first, second, (count - 1) as nat);
        assert(all[first.len() + count - 1] == second[count - 1]);
    } else {
        lemma_same_start(table, first, second, first.len());
    }
}

proof fn lemma_same_start(
    table: TableModel,
    first: Seq<(u64, RecordModel)>,
    second: Seq<(u64, RecordModel)>,
    count: nat,
)
    requires
        count <= first.len(),
    ensures
        reading::with_records(table, first + second, count) == reading::with_records(
            table,
            first,
            count,
        ),
    decreases count,
{
    if count > 0 {
        lemma_same_start(table, first, second, (count - 1) as nat);
        assert((first + second)[count - 1] == first[count - 1]);
    }
}

/// An entry has the last tag that is known for it, or else the one it had;
/// and nothing else of a table changes.
pub proof fn lemma_tags_set(
    table: TableModel,
    tags: Seq<(u32, Option<u32>)>,
    count: nat,
    number: int,
    at: int,
)
    requires
        count <= tags.len(),
        0 <= number < table.entries.len(),
    ensures
        ({
            let after = reading::with_tags(table, tags, count);
            let (old, new) = (table.entries[number], after.entries[number]);
            &&& after.links == table.links
            &&& after.entries.len() == table.entries.len()
            &&& new == (crate::mft::table::Entry { reparse_tag: new.reparse_tag, ..old })
            &&& (forall|i: int|
                0 <= i < count && (#[trigger] tags[i]).0 == number ==> tags[i].1 is None)
                ==> new.reparse_tag == old.reparse_tag
            &&& 0 <= at < count && tags[at].0 == number && tags[at].1 is Some && (forall|i: int|
                at < i < count && (#[trigger] tags[i]).0 == number ==> tags[i].1 is None)
                ==> new.reparse_tag == tags[at].1
        }),
    decreases count,
{
    if count > 0 {
        let few = (count - 1) as nat;
        lemma_tags_set(table, tags, few, number, at);
        let last = tags[few as int];
    }
}

/// Each entry is counted once, by the record that puts it in use: as the
/// directory or the file that it makes of it, with the space it says.
pub proof fn lemma_counted_once(entry: crate::mft::table::Entry, record: RecordModel)
    requires
        !entry.in_use,
        entry.allocated == 0,
    ensures
        ({
            let after = crate::mft::table::folded(entry, record);
            let counted = reading::counts_as(record);
            &&& counted == reading::Counted::Nothing <==> !after.in_use
            &&& counted == reading::Counted::Directory <==> after.in_use && after.is_dir
            &&& counted == (reading::Counted::File { bytes: after.allocated }) <==> after.in_use
                && !after.is_dir
        }),
{
}

} // verus!
