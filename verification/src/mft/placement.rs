//! That what is read of the table is what it says.

use vstd::prelude::*;

use crate::mft::boot::Geometry;
use crate::mft::coverage;
use crate::mft::pieces;
use crate::mft::pieces::{PieceModel, Segment};
use crate::mft::runs;
use crate::mft::runs::Run;

verus! {

/// Where on the volume byte `at` of the table lies, when it is laid out over
/// `list`; `None` in a hole.
pub open spec fn table_place(list: Seq<Run>, cluster: u64, at: int) -> Option<int>
    decreases list.len(),
{
    if list.len() == 0 {
        None
    } else {
        let begin = pieces::reach(list.drop_last(), cluster);
        if at < begin {
            table_place(list.drop_last(), cluster, at)
        } else {
            match list.last().start {
                Some(start) => Some(start * cluster + (at - begin)),
                None => None,
            }
        }
    }
}

/// Where on the volume byte `at` of what `segments` are read as lies; `None`
/// in a hole.
pub open spec fn read_place(segments: Seq<Segment>, at: int) -> Option<int>
    decreases segments.len(),
{
    if segments.len() == 0 {
        None
    } else {
        let begin = pieces::total_length(segments.drop_last());
        if at < begin {
            read_place(segments.drop_last(), at)
        } else {
            match segments.last().offset {
                Some(offset) => Some(offset + (at - begin)),
                None => None,
            }
        }
    }
}

/// Whether `piece` is read from where the table has its records: its bytes are
/// those of the table from its first record on.
pub open spec fn in_place(piece: PieceModel, list: Seq<Run>, geometry: Geometry) -> bool {
    let begin = piece.first_record * geometry.record;
    forall|at: int|
        0 <= at < piece.length ==> #[trigger] read_place(piece.segments, at) == table_place(
            list,
            geometry.cluster,
            begin + at,
        )
}

/// The segments between two places of the table are where it lies.
proof fn lemma_segments_in_place(
    list: Seq<Run>,
    geometry: Geometry,
    size: u64,
    few: int,
    low: int,
    high: int,
    at: int,
)
    requires
        pieces::addressable(list, geometry, size),
        0 <= few <= list.len(),
        0 <= low,
        high - low <= usize::MAX,
        high <= pieces::whole_clusters(size as int, geometry.cluster as int),
        0 <= at < pieces::total_length(
            pieces::segments_between(list.take(few), geometry.cluster, low, high),
        ),
    ensures
        read_place(pieces::segments_between(list.take(few), geometry.cluster, low, high), at)
            == table_place(list.take(few), geometry.cluster, low + at),
    decreases few,
{
    let cluster = geometry.cluster;
    let limit = pieces::whole_clusters(size as int, cluster as int);
    let now = list.take(few);
    pieces::lemma_total_length(now, cluster, low, high);
    if few == 0 {
        assert(runs::clusters(now) == 0);
        assert(pieces::reach(now, cluster) == 0) by (nonlinear_arith)
            requires
                pieces::reach(now, cluster) == runs::clusters(now) * cluster,
                runs::clusters(now) == 0,
        ;
    } else {
        let earlier = list.take(few - 1);
        pieces::lemma_reach_step(list, cluster, few - 1);
        pieces::lemma_total_length(earlier, cluster, low, high);
        let before = pieces::segments_between(earlier, cluster, low, high);
        let segments = pieces::segments_between(now, cluster, low, high);
        let begin = pieces::reach(earlier, cluster);
        let from = pieces::most(begin, low);
        let to = pieces::least(pieces::reach(now, cluster), high);
        if from < to {
            assert(segments.drop_last() =~= before);
            if at < pieces::total_length(before) {
                lemma_segments_in_place(list, geometry, size, few - 1, low, high, at);
            } else if let Some(start) = now.last().start {
                assert(list[few - 1] == now.last());
                assert(pieces::run_begin(list, cluster, limit, few - 1) == begin);
                assert(start * cluster + (from - begin) <= u64::MAX);
                assert(0 <= start * cluster) by (nonlinear_arith)
                    requires
                        start >= 0,
                        cluster >= 0,
                ;
            }
        } else {
            assert(segments == before);
            lemma_segments_in_place(list, geometry, size, few - 1, low, high, at);
        }
    }
}

/// A segment more is read behind the others.
proof fn lemma_with_segment_in_place(segments: Seq<Segment>, next: Segment, at: int)
    requires
        pieces::total_length(segments) + next.length <= usize::MAX,
    ensures
        read_place(pieces::with_segment(segments, next), at) == (if at < pieces::total_length(
            segments,
        ) {
            read_place(segments, at)
        } else {
            match next.offset {
                Some(offset) => Some(offset + (at - pieces::total_length(segments))),
                None => None,
            }
        }),
{
    let after = pieces::with_segment(segments, next);
    pieces::lemma_with_segment(segments, next);
    if segments.len() > 0 && pieces::adjoins(segments.last(), next) {
        assert(after.drop_last() =~= segments.drop_last());
    } else {
        assert(after.drop_last() =~= segments);
    }
}

/// The segments of a piece that is joined are read behind the others.
proof fn lemma_with_segments_in_place(
    segments: Seq<Segment>,
    next: Seq<Segment>,
    count: nat,
    at: int,
)
    requires
        count <= next.len(),
        pieces::total_length(segments) + pieces::total_length(next) <= usize::MAX,
        at < pieces::total_length(segments) + pieces::total_length(next.take(count as int)),
    ensures
        read_place(pieces::with_segments(segments, next, count), at) == (if at
            < pieces::total_length(segments) {
            read_place(segments, at)
        } else {
            read_place(next.take(count as int), at - pieces::total_length(segments))
        }),
    decreases count,
{
    if count > 0 {
        let few = (count - 1) as nat;
        let before = pieces::with_segments(segments, next, few);
        pieces::lemma_total_length_grows(next, few as int);
        coverage::lemma_joined_segments(segments, next, few);
        lemma_with_segment_in_place(before, next[few as int], at);
        assert(next.take(count as int).drop_last() =~= next.take(few as int));
        if at < pieces::total_length(before) {
            lemma_with_segments_in_place(segments, next, few, at);
        }
    } else {
        assert(next.take(0) =~= Seq::empty());
    }
}

/// Each granule of the table is read from where the table has it.
proof fn lemma_granule_in_place(list: Seq<Run>, geometry: Geometry, size: u64, number: int)
    requires
        pieces::addressable(list, geometry, size),
        coverage::commensurate(geometry),
        0 <= number < pieces::granules_of(list, geometry, size).len(),
    ensures
        in_place(pieces::granules_of(list, geometry, size)[number], list, geometry),
{
    let granule = pieces::granules_of(list, geometry, size)[number];
    let whole = pieces::piece_bytes(geometry, pieces::GRANULE as int);
    let record = geometry.record as int;
    pieces::lemma_whole_piece(geometry, pieces::GRANULE as int);
    pieces::lemma_piece(list, geometry, size, whole, number);
    coverage::lemma_whole_records(geometry, pieces::GRANULE);
    vstd::arithmetic::div_mod::lemma_fundamental_div_mod(whole, record);
    let (low, each) = (number * whole, whole / record);
    assert(low == (number * each) * record) by (nonlinear_arith)
        requires
            low == number * whole,
            whole == record * each,
    ;
    let high = pieces::least(low + whole, pieces::table_bytes(list, geometry, size));
    assert(list.take(list.len() as int) =~= list);
    assert forall|at: int| 0 <= at < granule.length implies #[trigger] read_place(
        granule.segments,
        at,
    ) == table_place(list, geometry.cluster, granule.first_record * geometry.record + at) by {
        lemma_segments_in_place(list, geometry, size, list.len() as int, low, high, at);
    }
}

/// What is read of the table is what it says: the bytes of every piece of a
/// plan are those of the table from the piece's first record on, wherever they
/// lie on the volume.
pub proof fn lemma_plan_in_place(
    list: Seq<Run>,
    geometry: Geometry,
    size: u64,
    chunk: usize,
    bits: Option<Seq<u8>>,
    count: nat,
)
    requires
        pieces::addressable(list, geometry, size),
        coverage::commensurate(geometry),
        count <= pieces::granules_of(list, geometry, size).len(),
    ensures
        forall|i: int|
            0 <= i < coverage::planned(list, geometry, size, chunk, bits, count).len()
                ==> in_place(
                #[trigger] coverage::planned(list, geometry, size, chunk, bits, count)[i],
                list,
                geometry,
            ),
    decreases count,
{
    if count > 0 {
        let before = coverage::planned(list, geometry, size, chunk, bits, (count - 1) as nat);
        let next = pieces::granules_of(list, geometry, size)[count - 1];
        lemma_plan_in_place(list, geometry, size, chunk, bits, (count - 1) as nat);
        coverage::lemma_plan_readable(list, geometry, size, chunk, bits, (count - 1) as nat);
        lemma_granule_in_place(list, geometry, size, count - 1);
        coverage::lemma_granule(list, geometry, size, chunk, count - 1);
        if before.len() > 0 && pieces::joins(
            before.last(),
            next,
            geometry.record as int,
            chunk as int,
        ) {
            let last = before[before.len() - 1];
            assert(coverage::readable(last, geometry, chunk));
            assert(in_place(last, list, geometry));
            lemma_joined_in_place(last, next, list, geometry, chunk);
        }
    }
}

proof fn lemma_joined_in_place(
    piece: PieceModel,
    next: PieceModel,
    list: Seq<Run>,
    geometry: Geometry,
    chunk: usize,
)
    requires
        0 < geometry.cluster,
        0 < geometry.record,
        coverage::readable(piece, geometry, chunk),
        coverage::readable(next, geometry, chunk),
        pieces::joins(piece, next, geometry.record as int, chunk as int),
        in_place(piece, list, geometry),
        in_place(next, list, geometry),
    ensures
        in_place(pieces::joined(piece, next), list, geometry),
{
    let both = pieces::joined(piece, next);
    let record = geometry.record as int;
    coverage::lemma_joined(piece, next, geometry, chunk);
    let (first, records) = (piece.first_record as int, piece.records as int);
    assert((first + records) * record == first * record + records * record) by (nonlinear_arith);
    assert(next.segments.take(next.segments.len() as int) =~= next.segments);
    assert forall|at: int| 0 <= at < both.length implies #[trigger] read_place(both.segments, at)
        == table_place(list, geometry.cluster, both.first_record * geometry.record + at) by {
        lemma_with_segments_in_place(piece.segments, next.segments, next.segments.len(), at);
        if at < piece.length {
            assert(read_place(piece.segments, at) == table_place(
                list,
                geometry.cluster,
                first * record + at,
            ));
        } else {
            assert(read_place(next.segments, at - piece.length) == table_place(
                list,
                geometry.cluster,
                next.first_record * record + (at - piece.length),
            ));
        }
    }
}

proof fn lemma_some_segment(segments: Seq<Segment>, at: int) -> (index: int)
    requires
        read_place(segments, at) is Some,
    ensures
        0 <= index < segments.len(),
        segments[index].offset is Some,
    decreases segments.len(),
{
    if at < pieces::total_length(segments.drop_last()) {
        lemma_some_segment(segments.drop_last(), at)
    } else {
        segments.len() - 1
    }
}

/// Every record of the table that may be in use is read, where its runs hold
/// all of the table: a piece of the plan holds it, unless no byte of it is on
/// the volume.
pub proof fn lemma_used_record_read(
    list: Seq<Run>,
    geometry: Geometry,
    size: u64,
    chunk: usize,
    bits: Option<Seq<u8>>,
    number: int,
    byte: int,
)
    requires
        pieces::addressable(list, geometry, size),
        coverage::commensurate(geometry),
        pieces::whole_clusters(size as int, geometry.cluster as int) <= pieces::reach(
            list,
            geometry.cluster,
        ),
        0 <= number < size as int / geometry.record as int,
        pieces::may_be_used(bits, number),
        0 <= byte < geometry.record,
        table_place(list, geometry.cluster, number * geometry.record + byte) is Some,
    ensures
        ({
            let count = pieces::granules_of(list, geometry, size).len();
            let plan = coverage::planned(list, geometry, size, chunk, bits, count);
            exists|i: int| 0 <= i < plan.len() && coverage::holds(#[trigger] plan[i], number)
        }),
{
    let all = pieces::granules_of(list, geometry, size);
    let record = geometry.record as int;
    let index = coverage::lemma_cut_covers(list, geometry, size, pieces::GRANULE, number);
    let granule = all[index];
    let (first, records) = (granule.first_record as int, granule.records as int);
    coverage::lemma_granule(list, geometry, size, chunk, index);
    lemma_granule_in_place(list, geometry, size, index);
    let at = (number - first) * record + byte;
    assert(0 <= at < records * record && first * record + at == number * record + byte)
        by (nonlinear_arith)
        requires
            at == (number - first) * record + byte,
            first <= number < first + records,
            0 <= byte < record,
    ;
    assert(read_place(granule.segments, at) == table_place(
        list,
        geometry.cluster,
        granule.first_record * geometry.record + at,
    ));
    let segment = lemma_some_segment(granule.segments, at);
    assert(all[index].segments[segment].offset is Some);
    coverage::lemma_used_records_read(list, geometry, size, chunk, bits, index, number);
}

} // verus!
