//! What holds of every plan to read the table.

use vstd::prelude::*;

use crate::mft::boot::Geometry;
use crate::mft::pieces;
use crate::mft::pieces::{PieceModel, Segment};
use crate::mft::runs;
use crate::mft::runs::Run;

verus! {

/// Whether one of a cluster and a record is a whole number of the other.
pub open spec fn commensurate(geometry: Geometry) -> bool {
    let (cluster, record) = (geometry.cluster as int, geometry.record as int);
    cluster % record == 0 || record % cluster == 0
}

/// Whether `piece` holds record `number` of the table.
pub open spec fn holds(piece: PieceModel, number: int) -> bool {
    piece.first_record <= number < piece.first_record + piece.records
}

proof fn lemma_multiple(count: int, unit: int)
    requires
        0 < unit,
    ensures
        (count * unit) % unit == 0,
{
    vstd::arithmetic::div_mod::lemma_mod_multiples_basic(count, unit);
}

proof fn lemma_multiple_of_multiple(count: int, step: int, unit: int)
    requires
        0 < unit,
        step % unit == 0,
    ensures
        (count * step) % unit == 0,
{
    vstd::arithmetic::div_mod::lemma_fundamental_div_mod(step, unit);
    let times = step / unit;
    assert(count * step == (count * times) * unit) by (nonlinear_arith)
        requires
            step == unit * times,
    ;
    lemma_multiple(count * times, unit);
}

proof fn lemma_multiples_apart(left: int, right: int, unit: int)
    requires
        0 < unit,
        left % unit == 0,
        right % unit == 0,
    ensures
        (left - right) % unit == 0,
        (left + right) % unit == 0,
{
    vstd::arithmetic::div_mod::lemma_fundamental_div_mod(left, unit);
    vstd::arithmetic::div_mod::lemma_fundamental_div_mod(right, unit);
    let (a, b) = (left / unit, right / unit);
    assert(left - right == (a - b) * unit && left + right == (a + b) * unit) by (nonlinear_arith)
        requires
            left == unit * a,
            right == unit * b,
    ;
    lemma_multiple(a - b, unit);
    lemma_multiple(a + b, unit);
}

/// A piece that is not the last is whole records.
pub proof fn lemma_whole_records(geometry: Geometry, chunk: usize)
    requires
        0 < geometry.cluster <= usize::MAX,
        0 < geometry.record,
        commensurate(geometry),
    ensures
        pieces::piece_bytes(geometry, chunk as int) % geometry.record as int == 0,
{
    let (cluster, record) = (geometry.cluster as int, geometry.record as int);
    let step = pieces::most(cluster, record);
    assert(step % record == 0) by {
        if record >= cluster {
            assert(record % record == 0) by (nonlinear_arith)
                requires
                    0 < record,
            ;
        } else {
            assert(record % cluster == record) by (nonlinear_arith)
                requires
                    0 < record < cluster,
            ;
        }
    }
    lemma_multiple_of_multiple(pieces::most(chunk as int / step, 1), step, record);
}

/// The table is cut into pieces that are whole clusters, as a raw volume
/// requires: nothing is left over between them.
pub proof fn lemma_cut_whole_clusters(
    list: Seq<Run>,
    geometry: Geometry,
    size: u64,
    chunk: usize,
    number: int,
)
    requires
        pieces::addressable(list, geometry, size),
        commensurate(geometry),
        0 <= number < pieces::pieces_of(
            list,
            geometry,
            size,
            pieces::piece_bytes(geometry, chunk as int),
        ).len(),
    ensures
        pieces::pieces_of(
            list,
            geometry,
            size,
            pieces::piece_bytes(geometry, chunk as int),
        )[number].length as int % geometry.cluster as int == 0,
{
    let (cluster, record) = (geometry.cluster as int, geometry.record as int);
    let step = pieces::most(cluster, record);
    let count = pieces::most(chunk as int / step, 1);
    let whole = pieces::piece_bytes(geometry, chunk as int);
    pieces::lemma_whole_piece(geometry, chunk as int);
    assert(step % cluster == 0) by {
        if cluster >= record {
            assert(cluster % cluster == 0) by (nonlinear_arith)
                requires
                    0 < cluster,
            ;
        } else {
            assert(cluster % record == cluster) by (nonlinear_arith)
                requires
                    0 < cluster < record,
            ;
        }
    }
    pieces::lemma_piece(list, geometry, size, whole, number);
    let total = pieces::table_bytes(list, geometry, size);
    lemma_multiple_of_multiple(count, step, cluster);
    lemma_multiple_of_multiple(number, whole, cluster);
    lemma_multiple(runs::clusters(list) as int, cluster);
    lemma_multiple((size + cluster - 1) / cluster, cluster);
    assert(total % cluster == 0);
    lemma_multiples_apart(total, number * whole, cluster);
}

/// The pieces follow each other through the table: none overlaps the next.
pub proof fn lemma_cut_in_order(
    list: Seq<Run>,
    geometry: Geometry,
    size: u64,
    chunk: int,
    left: int,
    right: int,
)
    requires
        pieces::addressable(list, geometry, size),
        0 < chunk <= usize::MAX,
        0 <= left < right < pieces::pieces_of(list, geometry, size, chunk).len(),
    ensures
        ({
            let all = pieces::pieces_of(list, geometry, size, chunk);
            all[left].first_record + all[left].records <= all[right].first_record
        }),
{
    pieces::lemma_piece(list, geometry, size, chunk, left);
    pieces::lemma_piece(list, geometry, size, chunk, right);
    let record = geometry.record as int;
    let each = chunk / record;
    let length = pieces::pieces_of(list, geometry, size, chunk)[left].length as int;
    assert(length / record <= each) by (nonlinear_arith)
        requires
            0 <= length <= chunk,
            0 < record,
            each == chunk / record,
    ;
    assert(left * each + each <= right * each) by (nonlinear_arith)
        requires
            left + 1 <= right,
            each >= length / record,
            length / record >= 0,
    ;
}

/// What holds of each piece of a plan: it is whole clusters, its segments
/// are all of it, its records fit in it, and it is no longer than asked for
/// unless one granule is.
pub open spec fn readable(piece: PieceModel, geometry: Geometry, chunk: usize) -> bool {
    &&& piece.length as int % geometry.cluster as int == 0
    &&& piece.length > 0
    &&& pieces::total_length(piece.segments) == piece.length
    &&& piece.records * geometry.record <= piece.length
    &&& piece.length <= pieces::most(
        chunk as int,
        pieces::piece_bytes(geometry, pieces::GRANULE as int),
    )
}

/// Segments more are so many bytes more.
pub proof fn lemma_joined_segments(segments: Seq<Segment>, next: Seq<Segment>, count: nat)
    requires
        count <= next.len(),
        pieces::total_length(segments) + pieces::total_length(next) <= usize::MAX,
    ensures
        pieces::total_length(pieces::with_segments(segments, next, count))
            == pieces::total_length(segments) + pieces::total_length(next.take(count as int)),
    decreases count,
{
    if count > 0 {
        lemma_joined_segments(segments, next, (count - 1) as nat);
        pieces::lemma_total_length_grows(next, count - 1);
        pieces::lemma_with_segment(
            pieces::with_segments(segments, next, (count - 1) as nat),
            next[count - 1],
        );
    } else {
        assert(next.take(0) =~= Seq::empty());
    }
}

/// Two pieces that are joined are one that can be read.
pub proof fn lemma_joined(
    piece: PieceModel,
    next: PieceModel,
    geometry: Geometry,
    chunk: usize,
)
    requires
        0 < geometry.cluster,
        0 < geometry.record,
        readable(piece, geometry, chunk),
        readable(next, geometry, chunk),
        pieces::joins(piece, next, geometry.record as int, chunk as int),
    ensures
        readable(pieces::joined(piece, next), geometry, chunk),
        pieces::joined(piece, next).first_record == piece.first_record,
        pieces::joined(piece, next).records == piece.records + next.records,
{
    let record = geometry.record as int;
    let (few, more) = (piece.records as int, next.records as int);
    assert((few + more) * record == few * record + more * record && few <= few * record && more
        <= more * record) by (nonlinear_arith)
        requires
            few >= 0,
            more >= 0,
            record >= 1,
    ;
    lemma_multiples_apart(piece.length as int, next.length as int, geometry.cluster as int);
    lemma_joined_segments(piece.segments, next.segments, next.segments.len());
    assert(next.segments.take(next.segments.len() as int) =~= next.segments);
}

/// A plan to read the table, of `count` of its granules.
pub open spec fn planned(
    list: Seq<Run>,
    geometry: Geometry,
    size: u64,
    chunk: usize,
    bits: Option<Seq<u8>>,
    count: nat,
) -> Seq<PieceModel> {
    pieces::plan_of(
        pieces::granules_of(list, geometry, size),
        count,
        geometry.record as int,
        chunk as int,
        bits,
    )
}

/// Each granule can be read, and follows those before it.
pub proof fn lemma_granule(
    list: Seq<Run>,
    geometry: Geometry,
    size: u64,
    chunk: usize,
    number: int,
)
    requires
        pieces::addressable(list, geometry, size),
        commensurate(geometry),
        0 <= number < pieces::granules_of(list, geometry, size).len(),
    ensures
        readable(pieces::granules_of(list, geometry, size)[number], geometry, chunk),
        forall|earlier: int|
            0 <= earlier < number ==> (#[trigger] pieces::granules_of(
                list,
                geometry,
                size,
            )[earlier]).first_record + pieces::granules_of(list, geometry, size)[earlier].records
                <= pieces::granules_of(list, geometry, size)[number].first_record,
{
    let whole = pieces::piece_bytes(geometry, pieces::GRANULE as int);
    pieces::lemma_whole_piece(geometry, pieces::GRANULE as int);
    pieces::lemma_piece(list, geometry, size, whole, number);
    lemma_cut_whole_clusters(list, geometry, size, pieces::GRANULE, number);
    let granule = pieces::granules_of(list, geometry, size)[number];
    let (length, record) = (granule.length as int, geometry.record as int);
    let (records, fitting) = (granule.records as int, length / record);
    vstd::arithmetic::div_mod::lemma_fundamental_div_mod(length, record);
    assert(records * record <= length) by (nonlinear_arith)
        requires
            records <= fitting,
            length == record * fitting + length % record,
            length % record >= 0,
            record > 0,
    ;
    assert forall|earlier: int| 0 <= earlier < number implies (#[trigger] pieces::granules_of(
        list,
        geometry,
        size,
    )[earlier]).first_record + pieces::granules_of(list, geometry, size)[earlier].records
        <= pieces::granules_of(list, geometry, size)[number].first_record by {
        lemma_cut_in_order(list, geometry, size, whole, earlier, number);
    }
}

/// Every piece of a plan can be read as one: it is whole clusters, and its
/// segments follow each other to its end.
pub proof fn lemma_plan_readable(
    list: Seq<Run>,
    geometry: Geometry,
    size: u64,
    chunk: usize,
    bits: Option<Seq<u8>>,
    count: nat,
)
    requires
        pieces::addressable(list, geometry, size),
        commensurate(geometry),
        count <= pieces::granules_of(list, geometry, size).len(),
    ensures
        forall|i: int|
            0 <= i < planned(list, geometry, size, chunk, bits, count).len() ==> readable(
                #[trigger] planned(list, geometry, size, chunk, bits, count)[i],
                geometry,
                chunk,
            ),
    decreases count,
{
    if count > 0 {
        let before = planned(list, geometry, size, chunk, bits, (count - 1) as nat);
        let next = pieces::granules_of(list, geometry, size)[count - 1];
        lemma_plan_readable(list, geometry, size, chunk, bits, (count - 1) as nat);
        lemma_granule(list, geometry, size, chunk, count - 1);
        if before.len() > 0 && pieces::joins(
            before.last(),
            next,
            geometry.record as int,
            chunk as int,
        ) {
            assert(readable(before[before.len() - 1], geometry, chunk));
            lemma_joined(before.last(), next, geometry, chunk);
        }
    }
}

/// A plan reads just the granules that are worth it: a record of the table is
/// in some piece of the plan if and only if it is in such a granule.
pub proof fn lemma_plan_exact(
    list: Seq<Run>,
    geometry: Geometry,
    size: u64,
    chunk: usize,
    bits: Option<Seq<u8>>,
    count: nat,
    number: int,
)
    requires
        pieces::addressable(list, geometry, size),
        commensurate(geometry),
        count <= pieces::granules_of(list, geometry, size).len(),
    ensures
        (exists|i: int|
            0 <= i < planned(list, geometry, size, chunk, bits, count).len() && holds(
                #[trigger] planned(list, geometry, size, chunk, bits, count)[i],
                number,
            )) <==> (exists|granule: int|
            0 <= granule < count && pieces::worth_reading(
                bits,
                #[trigger] pieces::granules_of(list, geometry, size)[granule],
            ) && holds(pieces::granules_of(list, geometry, size)[granule], number)),
    decreases count,
{
    if count > 0 {
        let granules = pieces::granules_of(list, geometry, size);
        let before = planned(list, geometry, size, chunk, bits, (count - 1) as nat);
        let after = planned(list, geometry, size, chunk, bits, count);
        let next = granules[count - 1];
        lemma_plan_exact(list, geometry, size, chunk, bits, (count - 1) as nat, number);
        lemma_plan_readable(list, geometry, size, chunk, bits, (count - 1) as nat);
        lemma_granule(list, geometry, size, chunk, count - 1);
        let held = exists|i: int| 0 <= i < before.len() && holds(#[trigger] before[i], number);
        let now = exists|i: int| 0 <= i < after.len() && holds(#[trigger] after[i], number);
        let worth = pieces::worth_reading(bits, next);
        assert(now <==> held || worth && holds(next, number)) by {
            if worth {
                if before.len() > 0 && pieces::joins(
                    before.last(),
                    next,
                    geometry.record as int,
                    chunk as int,
                ) {
                    assert(readable(before[before.len() - 1], geometry, chunk));
                    lemma_joined(before.last(), next, geometry, chunk);
                    let both = pieces::joined(before.last(), next);
                    assert(holds(both, number) <==> holds(before.last(), number) || holds(
                        next,
                        number,
                    ));
                    assert forall|i: int| 0 <= i < before.len() - 1 implies after[i]
                        == #[trigger] before[i] by {}
                    assert(after[before.len() - 1] == both);
                    if held {
                        let i = choose|i: int|
                            0 <= i < before.len() && holds(#[trigger] before[i], number);
                        assert(holds(after[i], number));
                    }
                    if now {
                        let i = choose|i: int|
                            0 <= i < after.len() && holds(#[trigger] after[i], number);
                        assert(i == before.len() - 1 || after[i] == before[i]);
                        assert(i == before.len() - 1 ==> holds(before[i], number) || holds(
                            next,
                            number,
                        ));
                    }
                } else {
                    assert(after == before.push(next));
                    assert forall|i: int| 0 <= i < before.len() implies after[i]
                        == #[trigger] before[i] by {}
                    assert(after[before.len() as int] == next);
                    if held {
                        let i = choose|i: int|
                            0 <= i < before.len() && holds(#[trigger] before[i], number);
                        assert(holds(after[i], number));
                    }
                    if now {
                        let i = choose|i: int|
                            0 <= i < after.len() && holds(#[trigger] after[i], number);
                        assert(i == before.len() || after[i] == before[i]);
                    }
                }
            }
        }
        let earlier = exists|granule: int|
            0 <= granule < count - 1 && pieces::worth_reading(bits, #[trigger] granules[granule])
                && holds(granules[granule], number);
        let all = exists|granule: int|
            0 <= granule < count && pieces::worth_reading(bits, #[trigger] granules[granule])
                && holds(granules[granule], number);
        assert(all <==> earlier || worth && holds(next, number)) by {
            if worth && holds(next, number) {
                assert(holds(granules[count - 1], number));
            }
        }
    }
}

/// The pieces of a plan follow each other through the table: none overlaps
/// the next.
pub proof fn lemma_plan_in_order(
    list: Seq<Run>,
    geometry: Geometry,
    size: u64,
    chunk: usize,
    bits: Option<Seq<u8>>,
    count: nat,
)
    requires
        pieces::addressable(list, geometry, size),
        commensurate(geometry),
        count <= pieces::granules_of(list, geometry, size).len(),
    ensures
        forall|i: int, j: int|
            0 <= i < j < planned(list, geometry, size, chunk, bits, count).len() ==> (
            #[trigger] planned(list, geometry, size, chunk, bits, count)[i]).first_record
                + planned(list, geometry, size, chunk, bits, count)[i].records <= (
            #[trigger] planned(list, geometry, size, chunk, bits, count)[j]).first_record,
        forall|i: int|
            #![trigger planned(list, geometry, size, chunk, bits, count)[i]]
            0 <= i < planned(list, geometry, size, chunk, bits, count).len() ==> exists|
                granule: int,
            |
                0 <= granule < count && planned(
                    list,
                    geometry,
                    size,
                    chunk,
                    bits,
                    count,
                )[i].first_record + planned(list, geometry, size, chunk, bits, count)[i].records
                    == (#[trigger] pieces::granules_of(
                    list,
                    geometry,
                    size,
                )[granule]).first_record + pieces::granules_of(list, geometry, size)[granule].records,
    decreases count,
{
    if count > 0 {
        let granules = pieces::granules_of(list, geometry, size);
        let before = planned(list, geometry, size, chunk, bits, (count - 1) as nat);
        let after = planned(list, geometry, size, chunk, bits, count);
        let next = granules[count - 1];
        lemma_plan_in_order(list, geometry, size, chunk, bits, (count - 1) as nat);
        lemma_plan_readable(list, geometry, size, chunk, bits, (count - 1) as nat);
        lemma_granule(list, geometry, size, chunk, count - 1);
        if before.len() > 0 && pieces::joins(
            before.last(),
            next,
            geometry.record as int,
            chunk as int,
        ) {
            assert(readable(before[before.len() - 1], geometry, chunk));
            lemma_joined(before.last(), next, geometry, chunk);
        }
        assert forall|i: int| 0 <= i < before.len() implies (#[trigger] before[i]).first_record
            + before[i].records <= next.first_record by {
            let granule = choose|granule: int|
                0 <= granule < count - 1 && before[i].first_record + before[i].records == (
                #[trigger] granules[granule]).first_record + granules[granule].records;
            assert(granules[granule].first_record + granules[granule].records
                <= next.first_record);
        }
        assert forall|i: int| 0 <= i < after.len() implies exists|granule: int|
            0 <= granule < count && (#[trigger] after[i]).first_record + after[i].records == (
            #[trigger] granules[granule]).first_record + granules[granule].records by {
            if i < before.len() && after[i] == before[i] {
                let granule = choose|granule: int|
                    0 <= granule < count - 1 && before[i].first_record + before[i].records == (
                    #[trigger] granules[granule]).first_record + granules[granule].records;
                assert(granules[granule].first_record + granules[granule].records
                    == after[i].first_record + after[i].records);
            } else {
                assert(granules[count - 1] == next);
            }
        }
        assert forall|i: int, j: int| 0 <= i < j < after.len() implies (
        #[trigger] after[i]).first_record + after[i].records <= (
        #[trigger] after[j]).first_record by {
            assert(after[i] == before[i]);
            if j < before.len() {
                assert(before[i].first_record + before[i].records <= before[j].first_record);
            }
        }
    }
}

/// Pieces that follow each other leave no record of the table out, where its
/// runs hold all of it.
pub proof fn lemma_cut_covers(
    list: Seq<Run>,
    geometry: Geometry,
    size: u64,
    chunk: usize,
    number: int,
) -> (index: int)
    requires
        pieces::addressable(list, geometry, size),
        commensurate(geometry),
        pieces::whole_clusters(size as int, geometry.cluster as int) <= pieces::reach(
            list,
            geometry.cluster,
        ),
        0 <= number < size as int / geometry.record as int,
    ensures
        ({
            let all = pieces::pieces_of(
                list,
                geometry,
                size,
                pieces::piece_bytes(geometry, chunk as int),
            );
            0 <= index < all.len() && holds(all[index], number)
        }),
{
    let (cluster, record) = (geometry.cluster as int, geometry.record as int);
    let whole = pieces::piece_bytes(geometry, chunk as int);
    let total = pieces::table_bytes(list, geometry, size);
    pieces::lemma_whole_piece(geometry, chunk as int);
    lemma_whole_records(geometry, chunk);
    let each = whole / record;
    vstd::arithmetic::div_mod::lemma_fundamental_div_mod(whole, record);
    assert(each >= 1) by (nonlinear_arith)
        requires
            whole == record * each,
            whole > 0,
            record > 0,
    ;
    let index = number / each;
    let first = index * each;
    vstd::arithmetic::div_mod::lemma_fundamental_div_mod(number, each);
    assert(first <= number < first + each && index >= 0) by (nonlinear_arith)
        requires
            number == each * index + number % each,
            0 <= number % each < each,
            first == index * each,
            number >= 0,
    ;
    let low = index * whole;
    let records = size as int / record;
    vstd::arithmetic::div_mod::lemma_fundamental_div_mod(size as int, record);
    assert(low == first * record && (number + 1) * record <= size) by (nonlinear_arith)
        requires
            low == index * whole,
            whole == record * each,
            first == index * each,
            number + 1 <= records,
            size as int == record * records + size as int % record,
            size as int % record >= 0,
            record > 0,
    ;
    lemma_rounded_up(size as int, cluster);
    assert(total >= size);
    assert(low < total) by (nonlinear_arith)
        requires
            low == first * record,
            first <= number,
            (number + 1) * record <= size,
            total >= size,
            record > 0,
    ;
    let pieces_count = (total + whole - 1) / whole;
    assert(index < pieces_count) by (nonlinear_arith)
        requires
            index * whole < total,
            whole > 0,
            pieces_count == (total + whole - 1) / whole,
    ;
    pieces::lemma_piece(list, geometry, size, whole, index);
    let length = pieces::least(whole, total - low);
    assert((number - first + 1) * record <= whole && (number - first + 1) * record <= total - low)
        by (nonlinear_arith)
        requires
            number - first + 1 <= each,
            whole == record * each,
            low == first * record,
            (number + 1) * record <= size,
            total >= size,
            record > 0,
    ;
    assert(number - first + 1 <= length / record) by (nonlinear_arith)
        requires
            (number - first + 1) * record <= length,
            record > 0,
    {
        let few = number - first + 1;
        vstd::arithmetic::div_mod::lemma_div_is_ordered(few * record, length, record);
        vstd::arithmetic::div_mod::lemma_div_multiples_vanish(few, record);
        assert(few * record == record * few) by (nonlinear_arith);
    };
    index
}

proof fn lemma_rounded_up(size: int, cluster: int)
    requires
        0 < cluster,
        0 <= size,
    ensures
        pieces::whole_clusters(size, cluster) >= size,
{
    let up = (size + cluster - 1) / cluster;
    vstd::arithmetic::div_mod::lemma_fundamental_div_mod(size + cluster - 1, cluster);
    assert(up * cluster == cluster * up) by (nonlinear_arith);
    let rest = (size + cluster - 1) % cluster;
    assert(rest < cluster);
}

/// A record that may be in use is read, wherever the runs hold any of its
/// granule.
pub proof fn lemma_used_records_read(
    list: Seq<Run>,
    geometry: Geometry,
    size: u64,
    chunk: usize,
    bits: Option<Seq<u8>>,
    granule: int,
    number: int,
)
    requires
        pieces::addressable(list, geometry, size),
        commensurate(geometry),
        0 <= granule < pieces::granules_of(list, geometry, size).len(),
        holds(pieces::granules_of(list, geometry, size)[granule], number),
        pieces::may_be_used(bits, number),
        exists|i: int|
            0 <= i < pieces::granules_of(list, geometry, size)[granule].segments.len() && (
            #[trigger] pieces::granules_of(list, geometry, size)[granule].segments[i]).offset
                is Some,
    ensures
        exists|i: int|
            0 <= i < planned(
                list,
                geometry,
                size,
                chunk,
                bits,
                pieces::granules_of(list, geometry, size).len(),
            ).len() && holds(
                #[trigger] planned(
                    list,
                    geometry,
                    size,
                    chunk,
                    bits,
                    pieces::granules_of(list, geometry, size).len(),
                )[i],
                number,
            ),
{
    let count = pieces::granules_of(list, geometry, size).len();
    lemma_plan_exact(list, geometry, size, chunk, bits, count, number);
    assert(pieces::worth_reading(bits, pieces::granules_of(list, geometry, size)[granule]));
}

} // verus!
