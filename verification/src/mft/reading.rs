//! What is read of a volume, and what the bytes that come back say.

use vstd::prelude::*;
use vstd::slice::{slice_subrange, slice_to_vec};

use crate::bytes;
use crate::bytes::read_u32;
use crate::mft::boot::Geometry;
use crate::mft::pieces::Segment;
use crate::mft::record;
use crate::mft::record::{parse_record, Record, RecordModel};
use crate::mft::runs::Run;
use crate::mft::table;
use crate::mft::table::{Table, TableModel};

verus! {

/// `rest` with `first` before it.
pub open spec fn segment_then(first: Segment, rest: Option<Seq<Segment>>) -> Option<Seq<Segment>> {
    match rest {
        Some(rest) => Some(seq![first] + rest),
        None => None,
    }
}

/// The segments to read for a stream of `size` bytes, from run `index` of
/// `list` on, `done` bytes being read before: whole runs, until there are
/// enough. `None` where a run does not fit in memory or on a volume.
pub open spec fn stream_from(list: Seq<Run>, cluster: u64, size: u64, index: int, done: int) -> Option<
    Seq<Segment>,
>
    decreases list.len() - index,
{
    if index >= list.len() {
        Some(Seq::empty())
    } else {
        let run = list[index];
        let length = run.length * cluster;
        if length > usize::MAX || (run.start matches Some(start) && start * cluster > u64::MAX) {
            None
        } else {
            let offset = match run.start {
                Some(start) => Some((start * cluster) as u64),
                None => None,
            };
            let segment = Segment { offset, length: length as usize };
            if done + length >= size {
                Some(seq![segment])
            } else {
                segment_then(segment, stream_from(list, cluster, size, index + 1, done + length))
            }
        }
    }
}

/// The segments to read for a stream of `size` bytes laid out over `list`,
/// such as the in-use bitmap; `None` where one does not fit in memory or on
/// a volume.
pub fn plan_stream(list: &[Run], geometry: Geometry, size: u64) -> (segments: Option<Vec<Segment>>)
    ensures
        match segments {
            Some(segments) => stream_from(list@, geometry.cluster, size, 0, 0) == Some(segments@),
            None => stream_from(list@, geometry.cluster, size, 0, 0) is None,
        },
{
    let cluster: u64 = geometry.cluster;
    let ghost all = stream_from(list@, cluster, size, 0, 0);
    let mut segments: Vec<Segment> = Vec::new();
    let mut done: u64 = 0;
    let mut index: usize = 0;
    assert(all matches Some(rest) ==> segments@ + rest =~= rest);
    while index < list.len()
        invariant
            index <= list@.len(),
            done <= size,
            cluster == geometry.cluster,
            all == stream_from(list@, cluster, size, 0, 0),
            all is Some <==> stream_from(list@, cluster, size, index as int, done as int) is Some,
            stream_from(list@, cluster, size, index as int, done as int) matches Some(rest) ==> all
                == Some(segments@ + rest),
        decreases list@.len() - index,
    {
        let run = list[index];
        let ghost here = stream_from(list@, cluster, size, index as int, done as int);
        proof {
            let (length, count) = (run.length * cluster, run.length);
            assert(length >= 0) by (nonlinear_arith)
                requires
                    length == count * cluster,
                    count >= 0,
                    cluster >= 0,
            ;
        }
        let length: u64 = match run.length.checked_mul(cluster) {
            Some(length) => length,
            None => return None,
        };
        if length > usize::MAX as u64 {
            return None;
        }
        let offset = match run.start {
            Some(start) => {
                assert(start * cluster >= 0) by (nonlinear_arith)
                    requires
                        start >= 0,
                        cluster >= 0,
                ;
                match start.checked_mul(cluster) {
                    Some(offset) => Some(offset),
                    None => return None,
                }
            },
            None => None,
        };
        let segment = Segment { offset, length: length as usize };
        let ghost before = segments@;
        segments.push(segment);
        if length >= size - done {
            assert(here == Some(seq![segment]));
            assert(before + seq![segment] =~= segments@);
            return Some(segments);
        }
        proof {
            let rest = stream_from(list@, cluster, size, index + 1, done + length);
            assert(here == segment_then(segment, rest));
            if rest is Some {
                assert(before + (seq![segment] + rest->0) =~= segments@ + rest->0);
            }
        }
        done = done + length;
        index = index + 1;
    }
    assert(segments@ + Seq::<Segment>::empty() =~= segments@);
    Some(segments)
}

/// The records in the first `count` of those that `data` is cut into, numbered
/// from `first` on.
pub open spec fn records_in(
    data: Seq<u8>,
    geometry: Geometry,
    first: u64,
    count: nat,
) -> Seq<(u64, RecordModel)>
    decreases count,
{
    if count == 0 {
        Seq::empty()
    } else {
        let before = records_in(data, geometry, first, (count - 1) as nat);
        let size = geometry.record as int;
        let record = data.subrange((count - 1) * size, count * size);
        match record::record_in(record, geometry.cluster) {
            Some(parsed) => before.push(((first + count - 1) as u64, parsed)),
            None => before,
        }
    }
}

/// Numbered records, as what they say.
pub open spec fn numbered(records: Seq<(u64, Record)>) -> Seq<(u64, RecordModel)> {
    records.map_values(|record: (u64, Record)| (record.0, record.1@))
}

/// The records that a piece read off the volume holds: `data` is cut into
/// records, of which the first `records` are the table's, numbered from
/// `first_record` on.
pub fn parse_piece(data: &[u8], geometry: Geometry, first_record: u64, records: usize) -> (parsed:
    Vec<(u64, Record)>)
    requires
        geometry.record > 0,
        records * geometry.record <= data@.len(),
        first_record + records <= u64::MAX,
    ensures
        numbered(parsed@) == records_in(data@, geometry, first_record, records as nat),
{
    let (size, length): (usize, usize) = (geometry.record, data.len());
    let mut parsed: Vec<(u64, Record)> = Vec::new();
    let mut done: usize = 0;
    assert(numbered(parsed@) =~= Seq::empty());
    while done < records
        invariant
            done <= records,
            size == geometry.record,
            size > 0,
            records * size <= length == data@.len(),
            first_record + records <= u64::MAX,
            numbered(parsed@) == records_in(data@, geometry, first_record, done as nat),
        decreases records - done,
    {
        assert(done * size + size <= records * size && done * size >= 0 && (done + 1) * size == done
            * size + size) by (nonlinear_arith)
            requires
                done + 1 <= records,
                size >= 0,
        ;
        let start: usize = done * size;
        let mut bytes = slice_to_vec(slice_subrange(data, start, start + size));
        assert(bytes@ == data@.subrange(done * size, (done + 1) * size));
        let ghost before = parsed@;
        if let Some(record) = parse_record(bytes.as_mut_slice(), geometry.cluster) {
            let ghost shown = record@;
            parsed.push((first_record + done as u64, record));
            assert(numbered(parsed@) =~= numbered(before).push(
                ((first_record + done) as u64, shown),
            ));
        }
        done = done + 1;
    }
    parsed
}

/// `table` and the first `count` of `records`, those whose number no record
/// can have left out; `None` where one of them cannot be added.
pub open spec fn with_records(
    table: TableModel,
    records: Seq<(u64, RecordModel)>,
    count: nat,
) -> Option<TableModel>
    decreases count,
{
    if count == 0 {
        Some(table)
    } else {
        match with_records(table, records, (count - 1) as nat) {
            Some(before) => {
                let (number, record) = records[count - 1];
                if number > u32::MAX {
                    Some(before)
                } else if table::addable(before, number as u32, record) {
                    Some(table::with_record(before, number as u32, record))
                } else {
                    None
                }
            },
            None => None,
        }
    }
}

proof fn lemma_refused(
    table: TableModel,
    records: Seq<(u64, RecordModel)>,
    few: nat,
    count: nat,
)
    requires
        few <= count,
        with_records(table, records, few) is None,
    ensures
        with_records(table, records, count) is None,
    decreases count,
{
    if few < count {
        lemma_refused(table, records, few, (count - 1) as nat);
    }
}

impl Table {
    /// Add parsed records in order; a number that is no record's is passed
    /// over. Says whether all could be added: those before the first that
    /// could not are.
    pub fn add_all(&mut self, records: Vec<(u64, Record)>) -> (added: bool)
        ensures
            added ==> with_records(old(self)@, numbered(records@), records@.len()) == Some(
                final(self)@,
            ),
            !added ==> {
                &&& with_records(old(self)@, numbered(records@), records@.len()) is None
                &&& exists|count: nat|
                    count < records@.len() && #[trigger] with_records(
                        old(self)@,
                        numbered(records@),
                        count,
                    ) == Some(final(self)@) && with_records(
                        old(self)@,
                        numbered(records@),
                        count + 1,
                    ) is None
            },
    {
        let ghost before = self@;
        let ghost all = numbered(records@);
        for record in iter: records
            invariant
                iter.seq() == records@,
                all == numbered(records@),
                before == old(self)@,
                with_records(before, all, iter.index() as nat) == Some(self@),
        {
            let ghost done = iter.index() as int;
            let (number, record) = record;
            assert(all[done] == (number, record@));
            if number <= u32::MAX as u64 {
                if !self.can_add(number as u32, &record) {
                    proof {
                        assert(with_records(before, all, (done + 1) as nat) is None);
                        lemma_refused(before, all, (done + 1) as nat, all.len());
                    }
                    return false;
                }
                self.add(number as u32, record);
            }
        }
        true
    }

    /// Say what the reparse tags that could be read are.
    pub fn set_reparse_tags(&mut self, tags: &[(u32, Option<u32>)])
        ensures
            final(self)@ == with_tags(old(self)@, tags@, tags@.len()),
    {
        let ghost before = self@;
        let mut done: usize = 0;
        while done < tags.len()
            invariant
                done <= tags@.len(),
                before == old(self)@,
                self@ == with_tags(before, tags@, done as nat),
            decreases tags@.len() - done,
        {
            let (number, tag) = tags[done];
            if let Some(tag) = tag {
                self.set_reparse_tag(number, tag);
            }
            assert(self@ =~= with_tags(before, tags@, (done + 1) as nat));
            done = done + 1;
        }
    }
}

/// `table` with the first `count` of `tags`, of those that are known.
pub open spec fn with_tags(table: TableModel, tags: Seq<(u32, Option<u32>)>, count: nat) -> TableModel
    decreases count,
{
    if count == 0 {
        table
    } else {
        let before = with_tags(table, tags, (count - 1) as nat);
        let (number, tag) = tags[count - 1];
        if tag is Some && number < before.entries.len() {
            TableModel {
                entries: before.entries.update(
                    number as int,
                    table::Entry { reparse_tag: tag, ..before.entries[number as int] },
                ),
                ..before
            }
        } else {
            before
        }
    }
}

/// Where on the volume reparse data at `cluster` starts, if 64 bits hold that.
pub fn reparse_offset(cluster: u64, geometry: Geometry) -> (offset: Option<u64>)
    ensures
        match offset {
            Some(offset) => offset == cluster * geometry.cluster,
            None => cluster * geometry.cluster > u64::MAX,
        },
{
    assert(cluster * geometry.cluster >= 0) by (nonlinear_arith)
        requires
            cluster >= 0,
            geometry.cluster >= 0,
    ;
    cluster.checked_mul(geometry.cluster)
}

/// The tag that reparse data starts with.
pub fn reparse_tag(data: &[u8]) -> (tag: Option<u32>)
    ensures
        match tag {
            Some(tag) => data@.len() >= 4 && tag == bytes::le_at(data@, 0, 4),
            None => data@.len() < 4,
        },
{
    read_u32(data, 0)
}

/// How a record counts towards the progress of a scan.
#[derive(Clone, Copy, Debug, PartialEq, Eq, Structural)]
pub enum Counted {
    Directory,
    File { bytes: u64 },
    /// An extension: its base counts.
    Nothing,
}

/// How `record` counts towards the progress of a scan.
pub open spec fn counts_as(record: RecordModel) -> Counted {
    if record.base is Some {
        Counted::Nothing
    } else if record.is_dir {
        Counted::Directory
    } else {
        Counted::File { bytes: record.allocated }
    }
}

/// How `record` counts towards the progress of a scan.
pub fn counted(record: &Record) -> (as_what: Counted)
    ensures
        as_what == counts_as(record@),
{
    if record.base.is_some() {
        Counted::Nothing
    } else if record.is_dir {
        Counted::Directory
    } else {
        Counted::File { bytes: record.allocated }
    }
}

} // verus!
