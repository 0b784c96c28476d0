//! One record of the table: what it says of a file or directory.

use vstd::prelude::*;

use crate::bytes;
use crate::bytes::{read_u16, read_u32, read_u64};
use crate::mft::fixups;
use crate::mft::fixups::apply_fixups;
use crate::mft::runs;
use crate::mft::runs::{count_occupied, decode_runs, Run};
use crate::text;
use crate::text::{boxed, decode_utf16};

verus! {

pub const ATTR_STANDARD_INFORMATION: u32 = 0x10;

pub const ATTR_FILE_NAME: u32 = 0x30;

pub const ATTR_DATA: u32 = 0x80;

pub const ATTR_REPARSE_POINT: u32 = 0xc0;

pub const ATTR_END: u32 = 0xffff_ffff;

/// `$FILE_NAME` namespaces: the DOS 8.3 alias of a long name is a second
/// spelling of the same link, not a link of its own.
pub const NAMESPACE_DOS: u8 = 2;

/// Record references are 48 bits of record number under 16 bits of
/// sequence number.
pub const RECORD_SPAN: u64 = 0x0001_0000_0000_0000;

/// The file attribute that says a name belongs to a reparse point.
pub const FILE_ATTRIBUTE_REPARSE_POINT: u32 = 0x400;

/// Seconds from 1601, where Windows counts, to 1970.
pub const EPOCH_DIFFERENCE: i64 = 11_644_473_600;

/// What one record says, before extension records are merged into their
/// base.
#[derive(Clone, Debug, Default, PartialEq, Eq)]
pub struct Record {
    /// The base record this extends, or `None` for a base record.
    pub base: Option<u32>,
    pub is_dir: bool,
    /// Every link: the parent directory's record and the name in it.
    pub names: Vec<(u32, Box<str>)>,
    /// Last write, Unix seconds.
    pub modified: Option<i64>,
    /// Bytes the file's streams occupy on disk.
    pub allocated: u64,
    /// Length of the unnamed stream: what `dir` shows.
    pub apparent: u64,
    pub reparse_tag: Option<u32>,
    /// Where the reparse data starts when it did not fit in the record, so
    /// its tag can be read from there.
    pub reparse_cluster: Option<u64>,
}

/// What a [`Record`] holds, its names as text.
#[verifier::ext_equal]
pub struct RecordModel {
    pub base: Option<u32>,
    pub is_dir: bool,
    pub names: Seq<(u32, Seq<char>)>,
    pub modified: Option<i64>,
    pub allocated: u64,
    pub apparent: u64,
    pub reparse_tag: Option<u32>,
    pub reparse_cluster: Option<u64>,
}

/// Links as a parent and the text of a name.
pub open spec fn links_of(names: Seq<(u32, Box<str>)>) -> Seq<(u32, Seq<char>)> {
    names.map_values(|link: (u32, Box<str>)| (link.0, link.1@))
}

impl View for Record {
    type V = RecordModel;

    open spec fn view(&self) -> RecordModel {
        RecordModel {
            base: self.base,
            is_dir: self.is_dir,
            names: links_of(self.names@),
            modified: self.modified,
            allocated: self.allocated,
            apparent: self.apparent,
            reparse_tag: self.reparse_tag,
            reparse_cluster: self.reparse_cluster,
        }
    }
}

/// `rest` with `first` before it.
pub open spec fn attribute_then(first: Seq<u8>, rest: Option<Seq<Seq<u8>>>) -> Option<
    Seq<Seq<u8>>,
> {
    match rest {
        Some(rest) => Some(seq![first] + rest),
        None => None,
    }
}

/// The attributes in `record` from `position` to `used`, or to the end mark.
/// `None` if one is too short, or runs past `used`.
pub open spec fn attributes_from(record: Seq<u8>, position: int, used: int) -> Option<Seq<Seq<u8>>>
    decreases used - position,
{
    let length = bytes::le_at(record, position + 4, 4);
    if position + 8 > used || bytes::le_at(record, position, 4) == ATTR_END {
        Some(Seq::empty())
    } else if length < 16 || position + length > used {
        None
    } else {
        attribute_then(
            record.subrange(position, position + length),
            attributes_from(record, position + length, used),
        )
    }
}

/// The bytes of `record` that are in use.
pub open spec fn used_bytes(record: Seq<u8>) -> int {
    let used = bytes::le_at(record, 0x18, 4) as int;
    if used < record.len() {
        used
    } else {
        record.len() as int
    }
}

/// The attributes of `record`, which starts with a record's header.
pub open spec fn attributes(record: Seq<u8>) -> Option<Seq<Seq<u8>>> {
    attributes_from(record, bytes::le_at(record, 0x14, 2) as int, used_bytes(record))
}

/// What kind of attribute `attribute` is.
pub open spec fn kind(attribute: Seq<u8>) -> u32 {
    bytes::le_at(attribute, 0, 4) as u32
}

/// Whether the value of `attribute` is in the record.
pub open spec fn is_resident(attribute: Seq<u8>) -> bool {
    attribute[8] == 0
}

/// Whether `attribute` has a name, as every stream but a file's own has.
pub open spec fn is_named(attribute: Seq<u8>) -> bool {
    attribute[9] != 0
}

/// The value of a resident attribute, if it lies in the attribute.
pub open spec fn value_of(attribute: Seq<u8>) -> Option<Seq<u8>> {
    let length = bytes::le_at(attribute, 0x10, 4);
    let offset = bytes::le_at(attribute, 0x14, 2);
    if attribute.len() >= 0x16 && offset + length <= attribute.len() {
        Some(attribute.subrange(offset as int, (offset + length) as int))
    } else {
        None
    }
}

/// The runs of an attribute that is not resident, if it holds a whole array
/// of them.
pub open spec fn runs_of(attribute: Seq<u8>) -> Option<Seq<Run>> {
    let offset = bytes::le_at(attribute, 0x20, 2);
    if attribute.len() >= 0x22 && offset <= attribute.len() {
        runs::runs_from(attribute.skip(offset as int), 0)
    } else {
        None
    }
}

/// Whether an attribute that is not resident starts its stream.
pub open spec fn starts_stream(attribute: Seq<u8>) -> bool {
    bytes::le_at(attribute, 0x10, 8) == 0
}

/// Unix seconds of a Windows file time, which counts tenths of a microsecond
/// from 1601.
pub open spec fn unix_seconds(filetime: nat) -> int {
    filetime / 10_000_000 - EPOCH_DIFFERENCE
}

/// The UTF-16 units that `bytes` holds, two bytes each.
pub open spec fn units_of(bytes: Seq<u8>) -> Seq<u16> {
    Seq::new(bytes.len() / 2, |i: int| bytes::le_at(bytes, 2 * i, 2) as u16)
}

/// What the attributes of a record say.
#[verifier::ext_equal]
pub struct Said {
    pub names: Seq<(u32, Seq<char>)>,
    pub modified: Option<i64>,
    pub allocated: u64,
    pub apparent: u64,
    pub reparse_tag: Option<u32>,
    pub reparse_cluster: Option<u64>,
    /// The reparse tag that the last name of a reparse point carries.
    pub name_tag: Option<u32>,
}

/// `said` and what a `$STANDARD_INFORMATION` adds: the last write.
pub open spec fn with_information(said: Said, attribute: Seq<u8>) -> Option<Said> {
    match value_of(attribute) {
        None => None,
        Some(value) => Some(
            Said {
                modified: if value.len() >= 0x10 {
                    Some(unix_seconds(bytes::le_at(value, 0x08, 8)) as i64)
                } else {
                    None
                },
                ..said
            },
        ),
    }
}

/// `said` and what a `$FILE_NAME` adds: a link, unless it is a DOS alias, and
/// the reparse tag of a reparse point.
pub open spec fn with_name(said: Said, attribute: Seq<u8>) -> Option<Said> {
    match value_of(attribute) {
        None => None,
        Some(value) => {
            let parent = bytes::le_at(value, 0, 8) % RECORD_SPAN as nat;
            let end = 0x42 + 2 * value[0x40];
            let flags = bytes::le_at(value, 0x38, 4);
            let name_tag = if (flags / FILE_ATTRIBUTE_REPARSE_POINT as nat) % 2 == 1 {
                Some(bytes::le_at(value, 0x3c, 4) as u32)
            } else {
                said.name_tag
            };
            if value.len() < 0x42 {
                None
            } else if value[0x41] == NAMESPACE_DOS {
                Some(Said { name_tag, ..said })
            } else if value.len() < end || parent > u32::MAX {
                None
            } else {
                let name = text::utf16_text(units_of(value.subrange(0x42, end)));
                Some(Said { names: said.names.push((parent as u32, name)), name_tag, ..said })
            }
        },
    }
}

/// `said` with `allocated` and `apparent` bytes more, if they fit in 64 bits.
pub open spec fn with_sizes(said: Said, allocated: nat, apparent: nat) -> Option<Said> {
    if said.allocated + allocated <= u64::MAX && said.apparent + apparent <= u64::MAX {
        Some(
            Said {
                allocated: (said.allocated + allocated) as u64,
                apparent: (said.apparent + apparent) as u64,
                ..said
            },
        )
    } else {
        None
    }
}

/// The bytes that `count` clusters hold, at most the largest 64-bit number.
pub open spec fn cluster_bytes(count: nat, cluster: u64) -> nat {
    if count * cluster <= u64::MAX {
        count * cluster as nat
    } else {
        u64::MAX as nat
    }
}

/// `said` and what a `$DATA` adds: the space that a stream takes, and the
/// length of the unnamed stream.
///
/// What a stream occupies is its runs that are not holes. The header's
/// allocated size counts holes whenever the stream is not flagged sparse, so
/// it speaks only where the runs cannot be read. Only the piece starting at
/// cluster zero carries lengths.
pub open spec fn with_data(said: Said, attribute: Seq<u8>, cluster: u64) -> Option<Said> {
    if is_resident(attribute) {
        if is_named(attribute) {
            Some(said)
        } else if attribute.len() < 0x14 {
            None
        } else {
            with_sizes(said, 0, bytes::le_at(attribute, 0x10, 4))
        }
    } else if attribute.len() < 0x22 {
        None
    } else {
        let first = starts_stream(attribute);
        let own = first && !is_named(attribute);
        let apparent = if own {
            bytes::le_at(attribute, 0x30, 8)
        } else {
            0
        };
        match runs_of(attribute) {
            Some(list) => if runs::occupied(list) > u64::MAX || own && attribute.len() < 0x38 {
                None
            } else {
                with_sizes(said, cluster_bytes(runs::occupied(list), cluster), apparent)
            },
            None => if first && attribute.len() < 0x30 || own && attribute.len() < 0x38 {
                None
            } else if first {
                with_sizes(said, bytes::le_at(attribute, 0x28, 8), apparent)
            } else {
                with_sizes(said, 0, apparent)
            },
        }
    }
}

/// `said` and what a `$REPARSE_POINT` adds: the tag, or the cluster to read
/// it from when a long link target pushed the data out of the record.
pub open spec fn with_reparse(said: Said, attribute: Seq<u8>) -> Option<Said> {
    if is_resident(attribute) {
        match value_of(attribute) {
            None => None,
            Some(value) => Some(
                Said {
                    reparse_tag: if value.len() >= 4 {
                        Some(bytes::le_at(value, 0, 4) as u32)
                    } else {
                        None
                    },
                    ..said
                },
            ),
        }
    } else if attribute.len() < 0x18 {
        None
    } else if !starts_stream(attribute) {
        Some(said)
    } else {
        match runs_of(attribute) {
            None => None,
            Some(list) => Some(
                Said {
                    reparse_cluster: if list.len() > 0 {
                        list[0].start
                    } else {
                        None
                    },
                    ..said
                },
            ),
        }
    }
}

/// `said` and what `attribute` adds, or `None` if it cannot be read.
pub open spec fn with_attribute(said: Said, attribute: Seq<u8>, cluster: u64) -> Option<Said> {
    let kind = kind(attribute);
    if kind == ATTR_STANDARD_INFORMATION && is_resident(attribute) {
        with_information(said, attribute)
    } else if kind == ATTR_FILE_NAME && is_resident(attribute) {
        with_name(said, attribute)
    } else if kind == ATTR_DATA {
        with_data(said, attribute, cluster)
    } else if kind == ATTR_REPARSE_POINT {
        with_reparse(said, attribute)
    } else {
        Some(said)
    }
}

/// `said` and what the first `count` of `list` add, in order.
pub open spec fn with_attributes(
    said: Option<Said>,
    list: Seq<Seq<u8>>,
    count: nat,
    cluster: u64,
) -> Option<Said>
    decreases count,
{
    if count == 0 {
        said
    } else {
        match with_attributes(said, list, (count - 1) as nat, cluster) {
            Some(said) => with_attribute(said, list[count - 1], cluster),
            None => None,
        }
    }
}

/// What a record says before its attributes are read: nothing.
pub open spec fn nothing_said() -> Said {
    Said {
        names: Seq::empty(),
        modified: None,
        allocated: 0,
        apparent: 0,
        reparse_tag: None,
        reparse_cluster: None,
        name_tag: None,
    }
}

/// What the record in `record` says, whose fixups are undone. `None` if it is
/// free, or if some part of it cannot be read.
pub open spec fn mended_record(record: Seq<u8>, cluster: u64) -> Option<RecordModel> {
    let flags = bytes::le_at(record, 0x16, 2);
    let base = bytes::le_at(record, 0x20, 8) % RECORD_SPAN as nat;
    match attributes(record) {
        None => None,
        Some(list) => match with_attributes(Some(nothing_said()), list, list.len(), cluster) {
            None => None,
            Some(said) => if flags % 2 == 0 || base > u32::MAX {
                None
            } else {
                Some(
                    RecordModel {
                        base: if base == 0 {
                            None
                        } else {
                            Some(base as u32)
                        },
                        is_dir: (flags / 2) % 2 == 1,
                        names: said.names,
                        modified: said.modified,
                        allocated: said.allocated,
                        apparent: said.apparent,
                        reparse_tag: if said.reparse_tag is Some {
                            said.reparse_tag
                        } else {
                            said.name_tag
                        },
                        reparse_cluster: said.reparse_cluster,
                    },
                )
            },
        },
    }
}

/// What the record in `record` says, as it lies on the volume. `None` for one
/// that is free, torn or not a record.
pub open spec fn record_in(record: Seq<u8>, cluster: u64) -> Option<RecordModel> {
    if fixups::intact(record) {
        mended_record(fixups::repaired(record), cluster)
    } else {
        None
    }
}

/// Where the attributes of `record` lie in it, each from its first byte to
/// the one past its last.
pub fn split_attributes(record: &[u8]) -> (ranges: Option<Vec<(usize, usize)>>)
    requires
        record@.len() >= 0x1c,
    ensures
        ranges is Some <==> attributes(record@) is Some,
        ranges matches Some(ranges) ==> {
            &&& ranges@.len() == attributes(record@).unwrap().len()
            &&& forall|i: int|
                #![trigger ranges@[i]]
                0 <= i < ranges@.len() ==> {
                    &&& ranges@[i].0 + 16 <= ranges@[i].1 <= record@.len()
                    &&& record@.subrange(ranges@[i].0 as int, ranges@[i].1 as int) == attributes(
                        record@,
                    ).unwrap()[i]
                }
        },
{
    let mut used: usize = read_u32(record, 0x18)? as usize;
    if used > record.len() {
        used = record.len();
    }
    let mut position: usize = read_u16(record, 0x14)? as usize;
    let mut ranges: Vec<(usize, usize)> = Vec::new();
    let ghost all = attributes(record@);
    assert(forall|rest: Seq<Seq<u8>>| #[trigger] (Seq::<Seq<u8>>::empty() + rest) =~= rest);
    let ghost mut seen: Seq<Seq<u8>> = Seq::empty();
    while position < used && used - position >= 8
        invariant
            used <= record@.len(),
            ranges@.len() == seen.len(),
            forall|i: int|
                #![trigger ranges@[i]]
                0 <= i < ranges@.len() ==> {
                    &&& ranges@[i].0 + 16 <= ranges@[i].1 <= record@.len()
                    &&& record@.subrange(ranges@[i].0 as int, ranges@[i].1 as int) == seen[i]
                },
            all == attributes(record@),
            all is Some <==> attributes_from(record@, position as int, used as int) is Some,
            attributes_from(record@, position as int, used as int) matches Some(rest) ==> all
                == Some(seen + rest),
        decreases used - position,
    {
        let kind: u32 = read_u32(record, position)?;
        if kind == ATTR_END {
            assert(seen + Seq::<Seq<u8>>::empty() =~= seen);
            return Some(ranges);
        }
        let length: usize = read_u32(record, position + 4)? as usize;
        if length < 16 || length > used - position {
            return None;
        }
        ranges.push((position, position + length));
        proof {
            let attribute = record@.subrange(position as int, position + length);
            let before = seen;
            seen = seen.push(attribute);
            assert forall|rest: Seq<Seq<u8>>| #[trigger] (seen + rest) == before + (
            seq![attribute] + rest) by {
                assert(seen + rest =~= before + (seq![attribute] + rest));
            }
        }
        position = position + length;
    }
    assert(seen + Seq::<Seq<u8>>::empty() =~= seen);
    Some(ranges)
}

/// The value of a resident attribute, if it lies in the attribute.
pub fn resident_value(attribute: &[u8]) -> (value: Option<&[u8]>)
    ensures
        value is Some <==> value_of(attribute@) is Some,
        value matches Some(value) ==> value_of(attribute@) == Some(value@),
{
    let length: usize = read_u32(attribute, 0x10)? as usize;
    let offset: usize = read_u16(attribute, 0x14)? as usize;
    if offset > attribute.len() || length > attribute.len() - offset {
        return None;
    }
    Some(&attribute[offset..offset + length])
}

/// The runs of an attribute that is not resident, if it holds a whole array
/// of them.
pub fn attribute_runs(attribute: &[u8]) -> (list: Option<Vec<Run>>)
    ensures
        list is Some <==> runs_of(attribute@) is Some,
        list matches Some(list) ==> runs_of(attribute@) == Some(list@),
{
    let offset: usize = read_u16(attribute, 0x20)? as usize;
    if offset > attribute.len() {
        return None;
    }
    assert(attribute@.subrange(offset as int, attribute@.len() as int) =~= attribute@.skip(
        offset as int,
    ));
    decode_runs(&attribute[offset..attribute.len()])
}

fn filetime_to_unix(filetime: u64) -> (seconds: i64)
    ensures
        seconds == unix_seconds(filetime as nat),
{
    (filetime / 10_000_000) as i64 - EPOCH_DIFFERENCE
}

fn utf16(bytes: &[u8]) -> (name: String)
    ensures
        name@ == text::utf16_text(units_of(bytes@)),
{
    let mut units: Vec<u16> = Vec::new();
    let length: usize = bytes.len();
    let count: usize = length / 2;
    let mut at: usize = 0;
    while at < count
        invariant
            length == bytes@.len(),
            at <= count == length / 2,
            units@.len() == at,
            forall|i: int|
                0 <= i < at ==> #[trigger] units@[i] == bytes::le_at(bytes@, 2 * i, 2) as u16,
        decreases count - at,
    {
        let unit: u16 = match read_u16(bytes, 2 * at) {
            Some(unit) => unit,
            None => 0,
        };
        units.push(unit);
        at = at + 1;
    }
    assert(units@ =~= units_of(bytes@));
    decode_utf16(&units)
}

/// What the attributes read so far say.
struct Gathered {
    names: Vec<(u32, Box<str>)>,
    modified: Option<i64>,
    allocated: u64,
    apparent: u64,
    reparse_tag: Option<u32>,
    reparse_cluster: Option<u64>,
    name_tag: Option<u32>,
}

impl Gathered {
    closed spec fn said(&self) -> Said {
        Said {
            names: links_of(self.names@),
            modified: self.modified,
            allocated: self.allocated,
            apparent: self.apparent,
            reparse_tag: self.reparse_tag,
            reparse_cluster: self.reparse_cluster,
            name_tag: self.name_tag,
        }
    }

    fn add_information(&mut self, attribute: &[u8]) -> (read: bool)
        ensures
            read <==> with_information(old(self).said(), attribute@) is Some,
            read ==> with_information(old(self).said(), attribute@) == Some(final(self).said()),
    {
        match resident_value(attribute) {
            None => false,
            Some(value) => {
                proof {
                    if value@.len() >= 0x10 {
                        bytes::lemma_le_bound(value@.subrange(8, 16));
                        bytes::lemma_span_values();
                    }
                }
                self.modified = match read_u64(value, 0x08) {
                    Some(filetime) => Some(filetime_to_unix(filetime)),
                    None => None,
                };
                true
            },
        }
    }

    fn add_name(&mut self, attribute: &[u8]) -> (read: bool)
        ensures
            read <==> with_name(old(self).said(), attribute@) is Some,
            read ==> with_name(old(self).said(), attribute@) == Some(final(self).said()),
    {
        let value = match resident_value(attribute) {
            None => {
                return false;
            },
            Some(value) => value,
        };
        if value.len() < 0x42 {
            return false;
        }
        match (read_u64(value, 0), read_u32(value, 0x38), read_u32(value, 0x3c)) {
            (Some(reference), Some(flags), Some(tag)) => {
                let parent: u64 = reference % RECORD_SPAN;
                if (flags / FILE_ATTRIBUTE_REPARSE_POINT) % 2 == 1 {
                    self.name_tag = Some(tag);
                }
                if value[0x41] == NAMESPACE_DOS {
                    return true;
                }
                let end: usize = 0x42 + 2 * value[0x40] as usize;
                if value.len() < end || parent > u32::MAX as u64 {
                    return false;
                }
                let name = boxed(utf16(&value[0x42..end]));
                let ghost before = self.names@;
                self.names.push((parent as u32, name));
                assert(links_of(self.names@) =~= links_of(before).push((parent as u32, name@)));
                true
            },
            _ => false,
        }
    }

    fn add_sizes(&mut self, allocated: u64, apparent: u64) -> (read: bool)
        ensures
            read <==> with_sizes(old(self).said(), allocated as nat, apparent as nat) is Some,
            read ==> with_sizes(old(self).said(), allocated as nat, apparent as nat) == Some(
                final(self).said(),
            ),
    {
        match (self.allocated.checked_add(allocated), self.apparent.checked_add(apparent)) {
            (Some(allocated), Some(apparent)) => {
                self.allocated = allocated;
                self.apparent = apparent;
                true
            },
            _ => false,
        }
    }

    fn add_data(&mut self, attribute: &[u8], cluster: u64) -> (read: bool)
        requires
            attribute@.len() >= 16,
        ensures
            read <==> with_data(old(self).said(), attribute@, cluster) is Some,
            read ==> with_data(old(self).said(), attribute@, cluster) == Some(final(self).said()),
    {
        let named = attribute[9] != 0;
        if attribute[8] == 0 {
            if named {
                return true;
            }
            return match read_u32(attribute, 0x10) {
                Some(length) => self.add_sizes(0, length as u64),
                None => false,
            };
        }
        if attribute.len() < 0x22 {
            return false;
        }
        let first = match read_u64(attribute, 0x10) {
            Some(cluster) => cluster == 0,
            None => false,
        };
        let mut apparent: u64 = 0;
        if first && !named {
            apparent = match read_u64(attribute, 0x30) {
                Some(length) => length,
                None => {
                    return false;
                },
            };
        }
        match attribute_runs(attribute) {
            Some(list) => match count_occupied(&list) {
                Some(count) => {
                    let allocated: u64 = match count.checked_mul(cluster) {
                        Some(allocated) => allocated,
                        None => u64::MAX,
                    };
                    self.add_sizes(allocated, apparent)
                },
                None => false,
            },
            None => {
                let mut allocated: u64 = 0;
                if first {
                    allocated = match read_u64(attribute, 0x28) {
                        Some(allocated) => allocated,
                        None => {
                            return false;
                        },
                    };
                }
                self.add_sizes(allocated, apparent)
            },
        }
    }

    fn add_reparse(&mut self, attribute: &[u8]) -> (read: bool)
        requires
            attribute@.len() >= 16,
        ensures
            read <==> with_reparse(old(self).said(), attribute@) is Some,
            read ==> with_reparse(old(self).said(), attribute@) == Some(final(self).said()),
    {
        if attribute[8] == 0 {
            return match resident_value(attribute) {
                None => false,
                Some(value) => {
                    self.reparse_tag = read_u32(value, 0);
                    true
                },
            };
        }
        match read_u64(attribute, 0x10) {
            None => false,
            Some(cluster) => {
                if cluster != 0 {
                    return true;
                }
                match attribute_runs(attribute) {
                    None => false,
                    Some(list) => {
                        self.reparse_cluster = if list.len() > 0 {
                            list[0].start
                        } else {
                            None
                        };
                        true
                    },
                }
            },
        }
    }

    fn add_attribute(&mut self, attribute: &[u8], cluster: u64) -> (read: bool)
        requires
            attribute@.len() >= 16,
        ensures
            read <==> with_attribute(old(self).said(), attribute@, cluster) is Some,
            read ==> with_attribute(old(self).said(), attribute@, cluster) == Some(
                final(self).said(),
            ),
    {
        let kind: u32 = match read_u32(attribute, 0) {
            Some(kind) => kind,
            None => 0,
        };
        let resident = attribute[8] == 0;
        if kind == ATTR_STANDARD_INFORMATION && resident {
            self.add_information(attribute)
        } else if kind == ATTR_FILE_NAME && resident {
            self.add_name(attribute)
        } else if kind == ATTR_DATA {
            self.add_data(attribute, cluster)
        } else if kind == ATTR_REPARSE_POINT {
            self.add_reparse(attribute)
        } else {
            true
        }
    }
}

proof fn lemma_unreadable(said: Option<Said>, list: Seq<Seq<u8>>, few: nat, many: nat, cluster: u64)
    requires
        few <= many,
        with_attributes(said, list, few, cluster) is None,
    ensures
        with_attributes(said, list, many, cluster) is None,
    decreases many,
{
    if few < many {
        lemma_unreadable(said, list, few, (many - 1) as nat, cluster);
    }
}

/// Parse one record in place (fixups are applied to `record`). `None` for a
/// record that is free, torn or not a record, or whose sizes do not fit in 64
/// bits. `cluster` turns runs into bytes.
pub fn parse_record(record: &mut [u8], cluster: u64) -> (parsed: Option<Record>)
    ensures
        final(record)@ == fixups::repaired(old(record)@),
        parsed is Some <==> record_in(old(record)@, cluster) is Some,
        parsed matches Some(parsed) ==> record_in(old(record)@, cluster) == Some(parsed@),
{
    let ghost before = record@;
    if !apply_fixups(record) {
        return None;
    }
    proof {
        fixups::lemma_repaired_keeps(before);
    }
    let flags: u16 = read_u16(record, 0x16)?;
    if flags % 2 == 0 {
        return None;
    }
    let base: u64 = read_u64(record, 0x20)? % RECORD_SPAN;
    if base > u32::MAX as u64 {
        return None;
    }
    let ranges = split_attributes(record)?;
    let ghost list = attributes(record@).unwrap();
    let ghost start = Some(nothing_said());
    let mut gathered = Gathered {
        names: Vec::new(),
        modified: None,
        allocated: 0,
        apparent: 0,
        reparse_tag: None,
        reparse_cluster: None,
        name_tag: None,
    };
    assert(gathered.said() =~= nothing_said());
    let mut at: usize = 0;
    while at < ranges.len()
        invariant
            record@ == fixups::repaired(before),
            before == old(record)@,
            fixups::intact(before),
            attributes(record@) == Some(list),
            start == Some(nothing_said()),
            at <= ranges@.len() == list.len(),
            forall|i: int|
                #![trigger ranges@[i]]
                0 <= i < ranges@.len() ==> {
                    &&& ranges@[i].0 + 16 <= ranges@[i].1 <= record@.len()
                    &&& record@.subrange(ranges@[i].0 as int, ranges@[i].1 as int) == list[i]
                },
            with_attributes(start, list, at as nat, cluster) == Some(gathered.said()),
        decreases ranges@.len() - at,
    {
        let (from, to): (usize, usize) = ranges[at];
        if !gathered.add_attribute(&record[from..to], cluster) {
            proof {
                lemma_unreadable(start, list, (at + 1) as nat, list.len(), cluster);
            }
            return None;
        }
        at = at + 1;
    }
    let reparse_tag = if gathered.reparse_tag.is_some() {
        gathered.reparse_tag
    } else {
        gathered.name_tag
    };
    let parsed = Record {
        base: if base == 0 {
            None
        } else {
            Some(base as u32)
        },
        is_dir: (flags / 2) % 2 == 1,
        names: gathered.names,
        modified: gathered.modified,
        allocated: gathered.allocated,
        apparent: gathered.apparent,
        reparse_tag,
        reparse_cluster: gathered.reparse_cluster,
    };
    Some(parsed)
}

} // verus!
