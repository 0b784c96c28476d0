//! How a record is taken apart, byte by byte.

use vstd::prelude::*;

use crate::bytes;
use crate::mft::boot::Geometry;
use crate::mft::extent;
use crate::mft::extent::Streams;
use crate::mft::fixups;
use crate::mft::pieces;
use crate::mft::reading;
use crate::mft::record;
use crate::mft::record::{RecordModel, Said};
use crate::mft::runs;
use crate::mft::runs::Run;
use crate::mft::saying;
use crate::mft::table;
use crate::mft::table::TableModel;

verus! {

/// A record that was written whole starts with `FILE`, is whole strides of 512
/// bytes, and saves the end of each of them.
pub proof fn lemma_whole_record(whole: Seq<u8>)
    ensures
        fixups::intact(whole) ==> {
            &&& whole.len() >= 512
            &&& whole.len() % 512 == 0
            &&& whole.take(4) == seq![0x46u8, 0x49, 0x4c, 0x45]
            &&& bytes::le_at(whole, 6, 2) == whole.len() / 512 + 1
            &&& bytes::le_at(whole, 4, 2) + 2 * (whole.len() / 512 + 1) <= whole.len()
        },
{
}

/// Each stride ends in the check value where a record was written whole; where
/// every one does, and its header is in order, it was.
pub proof fn lemma_whole_strides(whole: Seq<u8>, number: int)
    requires
        1 <= number <= whole.len() as int / 512,
    ensures
        fixups::intact(whole) ==> {
            let check = bytes::le_at(whole, 4, 2) as int;
            &&& whole[512 * number - 2] == whole[check]
            &&& whole[512 * number - 1] == whole[check + 1]
        },
{
    if fixups::torn(whole, number) {
        fixups::lemma_torn_is_seen(whole, number);
    }
}

/// Attributes follow each other, each as long as it says, up to the end mark
/// or the end of what is in use: one that is shorter than its header, or runs
/// past that end, makes the record unreadable.
pub proof fn lemma_attributes_follow(whole: Seq<u8>, position: int, used: int)
    ensures
        ({
            let kind = bytes::le_at(whole, position, 4);
            let length = bytes::le_at(whole, position + 4, 4);
            let found = record::attributes_from(whole, position, used);
            if position + 8 > used || kind == 0xffff_ffff {
                found == Some(Seq::<Seq<u8>>::empty())
            } else if length < 16 || position + length > used {
                found is None
            } else {
                match record::attributes_from(whole, position + length, used) {
                    Some(rest) => found == Some(
                        seq![whole.subrange(position, position + length)] + rest,
                    ),
                    None => found is None,
                }
            }
        }),
{
}

/// The first attribute stands where the header says, and so many bytes are in
/// use as it says, or as there are.
pub proof fn lemma_attributes_start(whole: Seq<u8>)
    ensures
        record::attributes(whole) == record::attributes_from(
            whole,
            bytes::le_at(whole, 0x14, 2) as int,
            if bytes::le_at(whole, 0x18, 4) < whole.len() {
                bytes::le_at(whole, 0x18, 4) as int
            } else {
                whole.len() as int
            },
        ),
{
}

/// A resident value is as long as its attribute says and stands where it says,
/// if that is in the attribute; runs stand where it says, up to its end.
pub proof fn lemma_value_where_said(attribute: Seq<u8>)
    ensures
        ({
            let (length, offset) = (
                bytes::le_at(attribute, 0x10, 4),
                bytes::le_at(attribute, 0x14, 2),
            );
            record::value_of(attribute) == (if attribute.len() >= 0x16 && offset + length
                <= attribute.len() {
                Some(attribute.subrange(offset as int, (offset + length) as int))
            } else {
                None
            })
        }),
        ({
            let offset = bytes::le_at(attribute, 0x20, 2);
            record::runs_of(attribute) == (if attribute.len() >= 0x22 && offset
                <= attribute.len() {
                runs::runs_from(attribute.skip(offset as int), 0)
            } else {
                None
            })
        }),
{
}

/// A name's characters are two bytes each, the low one first.
pub proof fn lemma_units(name: Seq<u8>, number: int)
    requires
        0 <= number < name.len() as int / 2,
    ensures
        record::units_of(name).len() == name.len() / 2,
        record::units_of(name)[number] == name[2 * number] + 256 * name[2 * number + 1],
{
    let pair = name.subrange(2 * number, 2 * number + 2);
    reveal_with_fuel(bytes::le, 3);
    assert(pair.drop_first()[0] == pair[1]);
    assert(pair.drop_first().drop_first().len() == 0);
    assert(bytes::le(pair.drop_first().drop_first()) == 0);
    assert(bytes::le(pair.drop_first()) == pair[1]);
    assert(bytes::le(pair) == pair[0] + 256 * pair[1]);
}

/// What is said before attributes of other kinds is still said behind them.
proof fn lemma_still_said(
    list: Seq<Seq<u8>>,
    cluster: u64,
    before: Said,
    from: nat,
    count: nat,
)
    requires
        from <= count <= list.len(),
        saying::headed(list),
        record::with_attributes(Some(record::nothing_said()), list, from, cluster) == Some(before),
    ensures
        record::with_attributes(Some(record::nothing_said()), list, count, cluster) matches Some(
            after,
        ) ==> {
            &&& (forall|i: int|
                from <= i < count ==> bytes::le_at(#[trigger] list[i], 0, 4) != 0x10)
                ==> after.modified == before.modified
            &&& (forall|i: int|
                from <= i < count ==> bytes::le_at(#[trigger] list[i], 0, 4) != 0x30)
                ==> after.name_tag == before.name_tag
            &&& (forall|i: int|
                from <= i < count ==> bytes::le_at(#[trigger] list[i], 0, 4) != 0xc0)
                ==> after.reparse_tag == before.reparse_tag && after.reparse_cluster
                == before.reparse_cluster
        },
    decreases count,
{
    if from < count {
        let few = (count - 1) as nat;
        lemma_still_said(list, cluster, before, from, few);
        if let Some(middle) = record::with_attributes(
            Some(record::nothing_said()),
            list,
            few,
            cluster,
        ) {
            saying::lemma_nothing_else_said(middle, list[few as int], cluster);
            assert(list[few as int].len() >= 16);
        }
    }
}

proof fn lemma_read_so_far(list: Seq<Seq<u8>>, cluster: u64, few: nat, count: nat)
    requires
        few <= count,
        record::with_attributes(Some(record::nothing_said()), list, count, cluster) is Some,
    ensures
        record::with_attributes(Some(record::nothing_said()), list, few, cluster) is Some,
    decreases count,
{
    if few < count {
        lemma_read_so_far(list, cluster, few, (count - 1) as nat);
    }
}

proof fn lemma_list_of(whole: Seq<u8>, cluster: u64, found: RecordModel, list: Seq<Seq<u8>>) -> (
    said: Said)
    requires
        record::record_in(whole, cluster) == Some(found),
        record::attributes(fixups::repaired(whole)) == Some(list),
    ensures
        saying::headed(list),
        record::with_attributes(Some(record::nothing_said()), list, list.len(), cluster) == Some(
            said,
        ),
        found.modified == said.modified,
        found.reparse_cluster == said.reparse_cluster,
        said.reparse_tag is Some ==> found.reparse_tag == said.reparse_tag,
        said.reparse_tag is None ==> found.reparse_tag == said.name_tag,
{
    let mended = fixups::repaired(whole);
    fixups::lemma_repaired_keeps(whole);
    saying::lemma_attributes_headed(
        mended,
        bytes::le_at(mended, 0x14, 2) as int,
        record::used_bytes(mended),
    );
    record::with_attributes(Some(record::nothing_said()), list, list.len(), cluster)->0
}

/// A record's file was last written when its last `$STANDARD_INFORMATION`
/// says; without one, it does not say.
pub proof fn lemma_written_when_said(
    whole: Seq<u8>,
    cluster: u64,
    found: RecordModel,
    list: Seq<Seq<u8>>,
    at: int,
    value: Seq<u8>,
)
    requires
        record::record_in(whole, cluster) == Some(found),
        record::attributes(fixups::repaired(whole)) == Some(list),
        0 <= at < list.len(),
        bytes::le_at(list[at], 0, 4) == 0x10,
        list[at][8] == 0,
        record::value_of(list[at]) == Some(value),
        value.len() >= 16,
        forall|i: int| at < i < list.len() ==> bytes::le_at(#[trigger] list[i], 0, 4) != 0x10,
    ensures
        found.modified == Some((bytes::le_at(value, 8, 8) / 10_000_000 - 11_644_473_600) as i64),
{
    let said = lemma_list_of(whole, cluster, found, list);
    lemma_read_so_far(list, cluster, at as nat, list.len());
    lemma_read_so_far(list, cluster, (at + 1) as nat, list.len());
    let none = Some(record::nothing_said());
    let before = record::with_attributes(none, list, at as nat, cluster)->0;
    saying::lemma_last_write(before, list[at], cluster, value);
    let after = record::with_attributes(none, list, (at + 1) as nat, cluster)->0;
    assert(record::with_attributes(none, list, (at + 1) as nat, cluster)
        == record::with_attribute(before, list[at], cluster));
    lemma_still_said(list, cluster, after, (at + 1) as nat, list.len());
}

/// A record's reparse tag is what its last reparse point starts with, where
/// that is in the record, whatever its names carry; one without a reparse
/// point has the tag of its last name that carries one.
pub proof fn lemma_tag_of_record(
    whole: Seq<u8>,
    cluster: u64,
    found: RecordModel,
    list: Seq<Seq<u8>>,
    at: int,
    value: Seq<u8>,
)
    requires
        record::record_in(whole, cluster) == Some(found),
        record::attributes(fixups::repaired(whole)) == Some(list),
        0 <= at < list.len(),
        list[at][8] == 0,
        record::value_of(list[at]) == Some(value),
    ensures
        bytes::le_at(list[at], 0, 4) == 0xc0 && value.len() >= 4 && (forall|i: int|
            at < i < list.len() ==> bytes::le_at(#[trigger] list[i], 0, 4) != 0xc0)
            ==> found.reparse_tag == Some(bytes::le_at(value, 0, 4) as u32),
        bytes::le_at(list[at], 0, 4) == 0x30 && (bytes::le_at(value, 0x38, 4) / 0x400) % 2 == 1 && (
        forall|i: int| at < i < list.len() ==> bytes::le_at(#[trigger] list[i], 0, 4) != 0x30) && (
        forall|i: int| 0 <= i < list.len() ==> bytes::le_at(#[trigger] list[i], 0, 4) != 0xc0)
            ==> found.reparse_tag == Some(bytes::le_at(value, 0x3c, 4) as u32),
{
    let said = lemma_list_of(whole, cluster, found, list);
    lemma_read_so_far(list, cluster, at as nat, list.len());
    lemma_read_so_far(list, cluster, (at + 1) as nat, list.len());
    let none = Some(record::nothing_said());
    let before = record::with_attributes(none, list, at as nat, cluster)->0;
    saying::lemma_tag_said(before, list[at], cluster, value);
    let after = record::with_attributes(none, list, (at + 1) as nat, cluster)->0;
    assert(record::with_attributes(none, list, (at + 1) as nat, cluster)
        == record::with_attribute(before, list[at], cluster));
    lemma_still_said(list, cluster, after, (at + 1) as nat, list.len());
    lemma_still_said(list, cluster, record::nothing_said(), 0, list.len());
}

/// What is mapped only in part elsewhere is not known: of the table that
/// leaves nothing to read, of the bitmap only that it is not there.
pub proof fn lemma_mapped_in_part(streams: Streams, attribute: Seq<u8>, list: Seq<Run>)
    requires
        attribute.len() >= 0x40,
        attribute[8] != 0,
        attribute[9] == 0,
        bytes::le_at(attribute, 0x10, 8) == 0,
        record::runs_of(attribute) == Some(list),
        runs::clusters(list) != bytes::le_at(attribute, 0x18, 8) + 1,
    ensures
        bytes::le_at(attribute, 0, 4) == 0x80 ==> extent::with_mapping(streams, attribute) is None,
        bytes::le_at(attribute, 0, 4) == 0xb0 ==> extent::with_mapping(streams, attribute) == Some(
            streams,
        ),
{
    bytes::lemma_le_bound(attribute.subrange(0, 4));
    bytes::lemma_span_values();
}

/// A later piece of the table or its bitmap says nothing more of where it
/// starts.
pub proof fn lemma_later_piece(streams: Streams, attribute: Seq<u8>)
    requires
        attribute.len() >= 0x18,
        attribute[8] != 0,
        bytes::le_at(attribute, 0x10, 8) != 0,
    ensures
        extent::with_mapping(streams, attribute) == Some(streams),
{
}

/// A record can be added wherever its sizes fit beside those of its entry, and
/// memory counts its number.
pub proof fn lemma_addable(table: TableModel, number: u32, record: RecordModel)
    ensures
        ({
            let owner = match record.base {
                Some(base) => base,
                None => number,
            };
            let entry = if owner < table.entries.len() {
                table.entries[owner as int]
            } else {
                table::unused()
            };
            table::addable(table, number, record) <==> {
                &&& owner + 1 < usize::MAX
                &&& entry.allocated + record.allocated <= u64::MAX
                &&& entry.apparent + record.apparent <= u64::MAX
            }
        }),
{
}

/// A stream is read unless one of its runs does not fit in memory or on a
/// volume.
pub proof fn lemma_stream_fits(list: Seq<Run>, cluster: u64, size: u64, index: int, done: int)
    requires
        0 <= index <= list.len(),
        forall|i: int|
            #![trigger list[i]]
            index <= i < list.len() ==> list[i].length * cluster <= usize::MAX && (
            list[i].start matches Some(start) ==> start * cluster <= u64::MAX),
    ensures
        reading::stream_from(list, cluster, size, index, done) is Some,
    decreases list.len() - index,
{
    if index < list.len() {
        let run = list[index];
        lemma_stream_fits(list, cluster, size, index + 1, done + run.length * cluster);
    }
}

/// A table can be read wherever 64 bits hold where it and its runs end, and
/// memory a cluster.
pub proof fn lemma_addressable(list: Seq<Run>, geometry: Geometry, size: u64)
    requires
        0 < geometry.cluster <= usize::MAX,
        0 < geometry.record,
        size + geometry.cluster <= u64::MAX,
        forall|i: int|
            #![trigger list[i]]
            0 <= i < list.len() ==> list[i].length * geometry.cluster <= u64::MAX && (
            list[i].start matches Some(start) ==> start * geometry.cluster + list[i].length
                * geometry.cluster <= u64::MAX),
    ensures
        pieces::addressable(list, geometry, size),
{
    let cluster = geometry.cluster;
    let limit = pieces::whole_clusters(size as int, cluster as int);
    let (sum, step) = (size + cluster - 1, cluster as int);
    assert(sum / step * step <= sum) by (nonlinear_arith)
        requires
            0 < step,
            0 <= sum,
    ;
    assert forall|i: int|
        #![trigger list[i]]
        0 <= i < list.len() && list[i].start is Some implies pieces::run_begin(
        list,
        cluster,
        limit,
        i + 1,
    ) - pieces::run_begin(list, cluster, limit, i) <= list[i].length * cluster by {
        pieces::lemma_reach_step(list, cluster, i);
        let length = list[i].length * cluster;
        assert(length >= 0) by (nonlinear_arith)
            requires
                length == list[i].length * cluster,
        ;
    }
}

} // verus!
