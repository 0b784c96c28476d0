//! What each attribute of a record says of its file, and nothing more.

use vstd::prelude::*;

use crate::bytes;
use crate::mft::fixups;
use crate::mft::record;
use crate::mft::record::{RecordModel, Said};
use crate::mft::runs;
use crate::mft::runs::Run;
use crate::text;

verus! {

/// Whether `attribute` is a `$DATA`.
pub open spec fn is_data(attribute: Seq<u8>) -> bool {
    bytes::le_at(attribute, 0, 4) == 0x80
}

/// Whether `attribute` is the stream that a file is opened with: a `$DATA`
/// without a name.
pub open spec fn is_own_stream(attribute: Seq<u8>) -> bool {
    is_data(attribute) && attribute[9] == 0
}

/// The bytes of `runs` that are on the volume, each `cluster` bytes a cluster.
pub open spec fn on_volume(runs: Seq<Run>, cluster: u64) -> nat
    decreases runs.len(),
{
    if runs.len() == 0 {
        0
    } else {
        on_volume(runs.drop_last(), cluster) + (match runs.last().start {
            Some(_) => runs.last().length as nat * cluster as nat,
            None => 0,
        })
    }
}

/// A run on the volume takes its clusters, a hole takes none; both count for
/// the length of what they map.
pub proof fn lemma_holes_take_nothing(runs: Seq<Run>, cluster: u64)
    ensures
        runs::occupied(runs) * cluster == on_volume(runs, cluster),
        runs::occupied(runs) <= runs::clusters(runs),
        runs.len() > 0 ==> runs::clusters(runs) == runs::clusters(runs.drop_last())
            + runs.last().length,
    decreases runs.len(),
{
    if runs.len() > 0 {
        lemma_holes_take_nothing(runs.drop_last(), cluster);
        let (before, last) = (runs::occupied(runs.drop_last()), runs.last());
        let (length, size) = (last.length as nat, cluster as nat);
        assert((before + length) * size == before * size + length * size) by (nonlinear_arith);
        assert(runs::occupied(runs) == before + if last.start is Some {
            length
        } else {
            0
        });
    } else {
        assert(0 * cluster == 0) by (nonlinear_arith);
    }
}

/// The length that `attribute` gives its file: that of its value, if it is the
/// file's own stream and in the record; what its first piece says, if it is
/// not; and nothing, if it is anything else.
pub open spec fn length_given(attribute: Seq<u8>) -> nat {
    if !is_own_stream(attribute) {
        0
    } else if attribute[8] == 0 {
        match record::value_of(attribute) {
            Some(value) => value.len(),
            None => bytes::le_at(attribute, 0x10, 4),
        }
    } else if bytes::le_at(attribute, 0x10, 8) == 0 {
        bytes::le_at(attribute, 0x30, 8)
    } else {
        0
    }
}

/// The space that `attribute` takes of the volume: that of its runs which are
/// no holes, up to what 64 bits hold; where these cannot be read, what the
/// first piece says. What is in the record takes none beside it, nor does
/// anything but a stream.
pub open spec fn space_taken(attribute: Seq<u8>, cluster: u64) -> nat {
    if !is_data(attribute) || attribute[8] == 0 {
        0
    } else {
        match record::runs_of(attribute) {
            Some(list) => if on_volume(list, cluster) <= u64::MAX {
                on_volume(list, cluster)
            } else {
                u64::MAX as nat
            },
            None => if bytes::le_at(attribute, 0x10, 8) == 0 {
                bytes::le_at(attribute, 0x28, 8)
            } else {
                0
            },
        }
    }
}

proof fn lemma_value_length(attribute: Seq<u8>)
    ensures
        record::value_of(attribute) matches Some(value) ==> value.len() == bytes::le_at(
            attribute,
            0x10,
            4,
        ),
{
}

/// An attribute adds to a file's sizes the length that it gives and the space
/// that it takes.
pub proof fn lemma_sizes_added(said: Said, attribute: Seq<u8>, cluster: u64)
    requires
        attribute.len() >= 16,
    ensures
        record::with_attribute(said, attribute, cluster) matches Some(after) ==> {
            &&& after.apparent == said.apparent + length_given(attribute)
            &&& after.allocated == said.allocated + space_taken(attribute, cluster)
        },
{
    lemma_value_length(attribute);
    bytes::lemma_le_bound(attribute.subrange(0, 4));
    bytes::lemma_span_values();
    if let Some(list) = record::runs_of(attribute) {
        lemma_holes_take_nothing(list, cluster);
    }
}

/// Each attribute says only what is its own to say: the last write is in
/// `$STANDARD_INFORMATION`, names are in `$FILE_NAME`, sizes in `$DATA`, the
/// reparse tag in `$REPARSE_POINT` or with a name.
pub proof fn lemma_nothing_else_said(said: Said, attribute: Seq<u8>, cluster: u64)
    requires
        attribute.len() >= 16,
    ensures
        record::with_attribute(said, attribute, cluster) matches Some(after) ==> {
            let kind = bytes::le_at(attribute, 0, 4);
            &&& kind != 0x10 ==> after.modified == said.modified
            &&& kind != 0x30 ==> after.names == said.names && after.name_tag == said.name_tag
            &&& kind != 0x80 ==> after.allocated == said.allocated && after.apparent
                == said.apparent
            &&& kind != 0xc0 ==> after.reparse_tag == said.reparse_tag && after.reparse_cluster
                == said.reparse_cluster
        },
        ({
            let kind = bytes::le_at(attribute, 0, 4);
            kind != 0x10 && kind != 0x30 && kind != 0x80 && kind != 0xc0
                ==> record::with_attribute(said, attribute, cluster) == Some(said)
        }),
{
    bytes::lemma_le_bound(attribute.subrange(0, 4));
    bytes::lemma_span_values();
}

/// The link that `attribute` gives: none if it is no `$FILE_NAME` in the
/// record, or one of the names that DOS programs see; else the directory it is
/// in, by its number without the count of its reuses, and the name.
pub open spec fn link_given(attribute: Seq<u8>) -> Seq<(u32, Seq<char>)> {
    match record::value_of(attribute) {
        Some(value) => if bytes::le_at(attribute, 0, 4) == 0x30 && attribute[8] == 0 && value[0x41]
            != 2 {
            seq![
                (
                    bytes::le_at(value, 0, 6) as u32,
                    text::utf16_text(record::units_of(value.subrange(0x42, 0x42 + 2 * value[0x40]))),
                ),
            ]
        } else {
            Seq::empty()
        },
        None => Seq::empty(),
    }
}

/// The low six of eight bytes are what the number leaves over past them.
proof fn lemma_low_six(value: Seq<u8>)
    requires
        value.len() >= 8,
    ensures
        bytes::le_at(value, 0, 8) % 0x0001_0000_0000_0000 == bytes::le_at(value, 0, 6),
{
    let (low, high) = (value.subrange(0, 6), value.subrange(6, 8));
    assert(value.subrange(0, 8) =~= low + high);
    lemma_le_joined(low, high);
    bytes::lemma_le_bound(low);
    bytes::lemma_span_values();
    assert((bytes::le(low) + 0x0001_0000_0000_0000 * bytes::le(high)) % 0x0001_0000_0000_0000
        == bytes::le(low)) by (nonlinear_arith)
        requires
            bytes::le(low) < 0x0001_0000_0000_0000,
    ;
}

/// A number's later bytes count for as much more as the earlier ones span.
pub proof fn lemma_le_joined(low: Seq<u8>, high: Seq<u8>)
    ensures
        bytes::le(low + high) == bytes::le(low) + bytes::span(low.len()) * bytes::le(high),
    decreases low.len(),
{
    if low.len() == 0 {
        assert(low + high =~= high);
        assert(1 * bytes::le(high) == bytes::le(high)) by (nonlinear_arith);
    } else {
        let rest = low.drop_first();
        lemma_le_joined(rest, high);
        assert((low + high).drop_first() =~= rest + high);
        let (span, number) = (bytes::span(rest.len()), bytes::le(high));
        assert(256 * (span * number) == (256 * span) * number) by (nonlinear_arith);
    }
}

/// A number of one byte is that byte, and a signed one counts down from what
/// the bytes span where the highest bit is set.
pub proof fn lemma_le_values(number: Seq<u8>, only: u8)
    ensures
        bytes::le(seq![only]) == only,
        number.len() > 0 && number.last() < 128 ==> bytes::le_signed(number) == bytes::le(number),
        number.len() > 0 && number.last() >= 128 ==> bytes::le_signed(number) + bytes::span(
            number.len(),
        ) == bytes::le(number),
{
    let alone = seq![only];
    assert(alone.drop_first() =~= Seq::empty());
    assert(bytes::le(alone.drop_first()) == 0);
}

/// An attribute adds the link that it gives, if any, behind those before it.
pub proof fn lemma_links_added(said: Said, attribute: Seq<u8>, cluster: u64)
    requires
        attribute.len() >= 16,
    ensures
        record::with_attribute(said, attribute, cluster) matches Some(after) ==> after.names
            == said.names + link_given(attribute),
{
    bytes::lemma_le_bound(attribute.subrange(0, 4));
    bytes::lemma_span_values();
    if let Some(value) = record::value_of(attribute) {
        if value.len() >= 8 {
            lemma_low_six(value);
        }
    }
    if let Some(after) = record::with_attribute(said, attribute, cluster) {
        assert(after.names =~= said.names + link_given(attribute));
    }
}

/// A Windows file time counts ten million to the second, and 11,644,473,600
/// seconds from 1601 to 1970.
pub proof fn lemma_file_time(filetime: nat)
    ensures
        record::unix_seconds(filetime + 10_000_000) == record::unix_seconds(filetime) + 1,
        record::unix_seconds(116_444_736_000_000_000) == 0,
        filetime % 10_000_000 == 0 ==> record::unix_seconds(filetime) * 10_000_000
            + 116_444_736_000_000_000 == filetime,
{
}

/// A file was last written when its `$STANDARD_INFORMATION` says, in the
/// second of its times.
pub proof fn lemma_last_write(said: Said, attribute: Seq<u8>, cluster: u64, value: Seq<u8>)
    requires
        attribute.len() >= 16,
        bytes::le_at(attribute, 0, 4) == 0x10,
        attribute[8] == 0,
        record::value_of(attribute) == Some(value),
        value.len() >= 16,
    ensures
        record::with_attribute(said, attribute, cluster) matches Some(after) && after.modified
            == Some((bytes::le_at(value, 8, 8) / 10_000_000 - 11_644_473_600) as i64),
{
}

/// A reparse tag is the first number of a reparse point that is in the record;
/// where it is not, its first cluster is where the tag is found. Names carry
/// the tag too, where their flags say that they are a reparse point's.
pub proof fn lemma_tag_said(said: Said, attribute: Seq<u8>, cluster: u64, value: Seq<u8>)
    requires
        attribute.len() >= 16,
        attribute[8] == 0,
        record::value_of(attribute) == Some(value),
    ensures
        bytes::le_at(attribute, 0, 4) == 0xc0 && value.len() >= 4 ==> (record::with_attribute(
            said,
            attribute,
            cluster,
        ) matches Some(after) && after.reparse_tag == Some(bytes::le_at(value, 0, 4) as u32)),
        bytes::le_at(attribute, 0, 4) == 0x30 ==> (record::with_attribute(
            said,
            attribute,
            cluster,
        ) matches Some(after) ==> after.name_tag == if (bytes::le_at(value, 0x38, 4) / 0x400) % 2
            == 1 {
            Some(bytes::le_at(value, 0x3c, 4) as u32)
        } else {
            said.name_tag
        }),
{
}

/// Where the reparse data is not in the record, the cluster that its first
/// piece starts at is said; a later piece says nothing.
pub proof fn lemma_tag_elsewhere(said: Said, attribute: Seq<u8>, cluster: u64)
    requires
        attribute.len() >= 16,
        attribute[8] != 0,
        bytes::le_at(attribute, 0, 4) == 0xc0,
    ensures
        record::with_attribute(said, attribute, cluster) matches Some(after) ==> {
            &&& after.reparse_tag == said.reparse_tag
            &&& bytes::le_at(attribute, 0x10, 8) != 0 ==> after.reparse_cluster
                == said.reparse_cluster
            &&& bytes::le_at(attribute, 0x10, 8) == 0 ==> (record::runs_of(attribute) matches Some(
                list,
            ) && (list.len() > 0 ==> after.reparse_cluster == list[0].start))
        },
{
}

/// The length that all of `list` give.
pub open spec fn lengths_given(list: Seq<Seq<u8>>) -> nat
    decreases list.len(),
{
    if list.len() == 0 {
        0
    } else {
        lengths_given(list.drop_last()) + length_given(list.last())
    }
}

/// The space that all of `list` take.
pub open spec fn spaces_taken(list: Seq<Seq<u8>>, cluster: u64) -> nat
    decreases list.len(),
{
    if list.len() == 0 {
        0
    } else {
        spaces_taken(list.drop_last(), cluster) + space_taken(list.last(), cluster)
    }
}

/// The links that all of `list` give, in order.
pub open spec fn links_given(list: Seq<Seq<u8>>) -> Seq<(u32, Seq<char>)>
    decreases list.len(),
{
    if list.len() == 0 {
        Seq::empty()
    } else {
        links_given(list.drop_last()) + link_given(list.last())
    }
}

/// Whether `attribute` is whole: what its kind needs lies in it, and its
/// numbers can be held.
pub open spec fn well_formed(attribute: Seq<u8>) -> bool {
    let kind = bytes::le_at(attribute, 0, 4);
    if kind != 0x10 && kind != 0x30 && kind != 0x80 && kind != 0xc0 {
        true
    } else if attribute[8] == 0 {
        record::value_of(attribute) matches Some(value) && (kind == 0x30 ==> {
            &&& value.len() >= 0x42 + 2 * value[0x40]
            &&& value.len() >= 0x42
            &&& bytes::le_at(value, 0, 6) <= u32::MAX
        })
    } else {
        &&& attribute.len() >= 0x40
        &&& record::runs_of(attribute) matches Some(list)
        &&& runs::occupied(list) <= u64::MAX
    }
}

/// A whole attribute is read, unless the sizes do not fit in 64 bits.
pub proof fn lemma_whole_attribute_read(said: Said, attribute: Seq<u8>, cluster: u64)
    requires
        attribute.len() >= 16,
        well_formed(attribute),
        said.apparent + length_given(attribute) <= u64::MAX,
        said.allocated + space_taken(attribute, cluster) <= u64::MAX,
    ensures
        record::with_attribute(said, attribute, cluster) is Some,
{
    lemma_value_length(attribute);
    bytes::lemma_le_bound(attribute.subrange(0, 4));
    bytes::lemma_span_values();
    if let Some(list) = record::runs_of(attribute) {
        lemma_holes_take_nothing(list, cluster);
    }
    if let Some(value) = record::value_of(attribute) {
        if value.len() >= 8 {
            lemma_low_six(value);
        }
    }
}

proof fn lemma_sums_grow(list: Seq<Seq<u8>>, few: int, cluster: u64)
    requires
        0 <= few <= list.len(),
    ensures
        lengths_given(list.take(few)) <= lengths_given(list),
        spaces_taken(list.take(few), cluster) <= spaces_taken(list, cluster),
    decreases list.len(),
{
    if few < list.len() {
        lemma_sums_grow(list.drop_last(), few, cluster);
        assert(list.drop_last().take(few) =~= list.take(few));
    } else {
        assert(list.take(few) =~= list);
    }
}

proof fn lemma_all_read(list: Seq<Seq<u8>>, count: nat, cluster: u64)
    requires
        count <= list.len(),
        headed(list),
        forall|i: int| 0 <= i < list.len() ==> well_formed(#[trigger] list[i]),
        lengths_given(list) <= u64::MAX,
        spaces_taken(list, cluster) <= u64::MAX,
    ensures
        record::with_attributes(Some(record::nothing_said()), list, count, cluster) is Some,
    decreases count,
{
    if count > 0 {
        let before = (count - 1) as nat;
        lemma_all_read(list, before, cluster);
        lemma_all_added(list, before, cluster);
        lemma_sums_grow(list, count as int, cluster);
        let few = list.take(count as int);
        assert(few.drop_last() =~= list.take(before as int));
        assert(few.last() == list[before as int]);
        let said = record::with_attributes(
            Some(record::nothing_said()),
            list,
            before,
            cluster,
        )->0;
        lemma_whole_attribute_read(said, list[before as int], cluster);
    }
}

/// A record that was written whole, is in use and has whole attributes is
/// read, unless its sizes do not fit in 64 bits or the record that it extends
/// has too large a number.
pub proof fn lemma_whole_record_read(whole: Seq<u8>, cluster: u64, list: Seq<Seq<u8>>)
    requires
        fixups::intact(whole),
        bytes::le_at(fixups::repaired(whole), 0x16, 2) % 2 == 1,
        bytes::le_at(fixups::repaired(whole), 0x20, 6) <= u32::MAX,
        record::attributes(fixups::repaired(whole)) == Some(list),
        forall|i: int| 0 <= i < list.len() ==> well_formed(#[trigger] list[i]),
        lengths_given(list) <= u64::MAX,
        spaces_taken(list, cluster) <= u64::MAX,
    ensures
        record::record_in(whole, cluster) is Some,
{
    let mended = fixups::repaired(whole);
    fixups::lemma_repaired_keeps(whole);
    lemma_attributes_headed(
        mended,
        bytes::le_at(mended, 0x14, 2) as int,
        record::used_bytes(mended),
    );
    lemma_all_read(list, list.len(), cluster);
    lemma_low_six(mended.subrange(0x20, 0x28));
    assert(mended.subrange(0x20, 0x28).subrange(0, 8) =~= mended.subrange(0x20, 0x28));
    assert(mended.subrange(0x20, 0x28).subrange(0, 6) =~= mended.subrange(0x20, 0x26));
}

/// Whether each of `list` is as long as an attribute's header.
pub open spec fn headed(list: Seq<Seq<u8>>) -> bool {
    forall|i: int| 0 <= i < list.len() ==> (#[trigger] list[i]).len() >= 16
}

/// Every attribute of a record is as long as its header.
pub proof fn lemma_attributes_headed(whole: Seq<u8>, position: int, used: int)
    requires
        0 <= position,
        used <= whole.len(),
    ensures
        record::attributes_from(whole, position, used) matches Some(list) ==> headed(list),
    decreases used - position,
{
    let length = bytes::le_at(whole, position + 4, 4);
    if position + 8 > used || bytes::le_at(whole, position, 4) == record::ATTR_END {
    } else if length < 16 || position + length > used {
    } else {
        lemma_attributes_headed(whole, position + length, used);
        let first = whole.subrange(position, position + length);
        assert(first.len() == length);
        if let Some(rest) = record::attributes_from(whole, position + length, used) {
            let list = seq![first] + rest;
            assert forall|i: int| 0 <= i < list.len() implies (#[trigger] list[i]).len() >= 16 by {
                if i > 0 {
                    assert(list[i] == rest[i - 1]);
                }
            }
        }
    }
}

proof fn lemma_all_added(list: Seq<Seq<u8>>, count: nat, cluster: u64)
    requires
        count <= list.len(),
        headed(list),
    ensures
        record::with_attributes(Some(record::nothing_said()), list, count, cluster) matches Some(
            said,
        ) ==> {
            let few = list.take(count as int);
            &&& said.apparent == lengths_given(few)
            &&& said.allocated == spaces_taken(few, cluster)
            &&& said.names == links_given(few)
        },
    decreases count,
{
    if count > 0 {
        let before = (count - 1) as nat;
        lemma_all_added(list, before, cluster);
        let few = list.take(count as int);
        assert(few.drop_last() =~= list.take(before as int));
        assert(few.last() == list[before as int]);
        if let Some(said) = record::with_attributes(
            Some(record::nothing_said()),
            list,
            before,
            cluster,
        ) {
            lemma_sizes_added(said, list[before as int], cluster);
            lemma_links_added(said, list[before as int], cluster);
        }
    } else {
        assert(list.take(0) =~= Seq::empty());
    }
}

/// A record that can be read is made of its attributes: its file is as long
/// as they say, takes the space that they take, and has the names that they
/// give. It is in use, is a directory if its second flag says so, and extends
/// another if it names one.
pub proof fn lemma_record_is_its_attributes(whole: Seq<u8>, cluster: u64)
    ensures
        record::record_in(whole, cluster) matches Some(found) ==> {
            let mended = fixups::repaired(whole);
            let flags = bytes::le_at(mended, 0x16, 2);
            let base = bytes::le_at(mended, 0x20, 6);
            &&& record::attributes(mended) matches Some(list)
            &&& found.apparent == lengths_given(list)
            &&& found.allocated == spaces_taken(list, cluster)
            &&& found.names == links_given(list)
            &&& flags % 2 == 1
            &&& found.is_dir <==> (flags / 2) % 2 == 1
            &&& base == 0 ==> found.base is None
            &&& base != 0 ==> found.base == Some(base as u32)
        },
{
    if let Some(found) = record::record_in(whole, cluster) {
        let mended = fixups::repaired(whole);
        fixups::lemma_repaired_keeps(whole);
        if let Some(list) = record::attributes(mended) {
            lemma_attributes_headed(
                mended,
                bytes::le_at(mended, 0x14, 2) as int,
                record::used_bytes(mended),
            );
            lemma_all_added(list, list.len(), cluster);
            assert(list.take(list.len() as int) =~= list);
            lemma_low_six(mended.subrange(0x20, 0x28));
            assert(mended.subrange(0x20, 0x28).subrange(0, 8) =~= mended.subrange(0x20, 0x28));
            assert(mended.subrange(0x20, 0x28).subrange(0, 6) =~= mended.subrange(0x20, 0x26));
        }
    }
}

proof fn lemma_one_length(list: Seq<Seq<u8>>, at: int)
    requires
        0 <= at < list.len(),
        forall|i: int| 0 <= i < list.len() && i != at ==> !is_own_stream(#[trigger] list[i]),
    ensures
        lengths_given(list) == length_given(list[at]),
    decreases list.len(),
{
    let before = list.drop_last();
    if at < list.len() - 1 {
        assert(!is_own_stream(list[list.len() - 1]));
        assert forall|i: int| 0 <= i < before.len() && i != at implies !is_own_stream(
            #[trigger] before[i],
        ) by {
            assert(before[i] == list[i]);
        }
        lemma_one_length(before, at);
    } else {
        assert forall|i: int| 0 <= i < before.len() implies !is_own_stream(#[trigger] before[i]) by {
            assert(before[i] == list[i]);
        }
        lemma_no_length(before);
    }
}

proof fn lemma_no_length(list: Seq<Seq<u8>>)
    requires
        forall|i: int| 0 <= i < list.len() ==> !is_own_stream(#[trigger] list[i]),
    ensures
        lengths_given(list) == 0,
    decreases list.len(),
{
    if list.len() > 0 {
        assert(!is_own_stream(list[list.len() - 1]));
        let before = list.drop_last();
        assert forall|i: int| 0 <= i < before.len() implies !is_own_stream(#[trigger] before[i]) by {
            assert(before[i] == list[i]);
        }
        lemma_no_length(before);
    }
}

proof fn lemma_no_space(list: Seq<Seq<u8>>, cluster: u64)
    requires
        forall|i: int|
            0 <= i < list.len() ==> !is_data(#[trigger] list[i]) || list[i][8] == 0,
    ensures
        spaces_taken(list, cluster) == 0,
    decreases list.len(),
{
    if list.len() > 0 {
        assert(!is_data(list[list.len() - 1]) || list[list.len() - 1][8] == 0);
        let before = list.drop_last();
        assert forall|i: int| 0 <= i < before.len() implies !is_data(#[trigger] before[i])
            || before[i][8] == 0 by {
            assert(before[i] == list[i]);
        }
        lemma_no_space(before, cluster);
    }
}

/// A file whose own stream is in its record, as every small one's is, is as
/// long as the value there; and takes no space beside it, if no other stream
/// of it does.
pub proof fn lemma_small_file(
    whole: Seq<u8>,
    cluster: u64,
    found: RecordModel,
    list: Seq<Seq<u8>>,
    at: int,
    value: Seq<u8>,
)
    requires
        record::record_in(whole, cluster) == Some(found),
        record::attributes(fixups::repaired(whole)) == Some(list),
        0 <= at < list.len(),
        is_own_stream(list[at]),
        list[at][8] == 0,
        record::value_of(list[at]) == Some(value),
        forall|i: int| 0 <= i < list.len() && i != at ==> !is_own_stream(#[trigger] list[i]),
    ensures
        found.apparent == value.len(),
        (forall|i: int|
            0 <= i < list.len() ==> !is_data(#[trigger] list[i]) || list[i][8] == 0)
            ==> found.allocated == 0,
{
    lemma_record_is_its_attributes(whole, cluster);
    lemma_one_length(list, at);
    if forall|i: int| 0 <= i < list.len() ==> !is_data(#[trigger] list[i]) || list[i][8] == 0 {
        lemma_no_space(list, cluster);
    }
}

} // verus!
