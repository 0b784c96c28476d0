//! Which parts of the table to read, and where they lie.

use vstd::prelude::*;

use crate::mft::boot::Geometry;
use crate::mft::runs;
use crate::mft::runs::Run;

verus! {

/// A stretch of the volume that holds part of a piece; `None` is a hole.
#[derive(Clone, Copy, Debug, PartialEq, Eq, Structural)]
pub struct Segment {
    pub offset: Option<u64>,
    pub length: usize,
}

/// Whole clusters of the table read as one unit of work.
#[derive(Clone, Debug, PartialEq, Eq)]
pub struct Piece {
    pub first_record: u64,
    /// Bytes read: always whole clusters, as a raw volume requires.
    pub length: usize,
    /// Records in it that belong to the table; the table's last cluster
    /// may be only partly used.
    pub records: usize,
    pub segments: Vec<Segment>,
}

/// What a [`Piece`] holds.
#[verifier::ext_equal]
pub struct PieceModel {
    pub first_record: u64,
    pub length: usize,
    pub records: usize,
    pub segments: Seq<Segment>,
}

impl View for Piece {
    type V = PieceModel;

    open spec fn view(&self) -> PieceModel {
        PieceModel {
            first_record: self.first_record,
            length: self.length,
            records: self.records,
            segments: self.segments@,
        }
    }
}

/// What `pieces` hold.
pub open spec fn models(pieces: Seq<Piece>) -> Seq<PieceModel> {
    pieces.map_values(|piece: Piece| piece@)
}

/// Stretches this small are checked against the in-use bitmap on their
/// own, so a free stretch this long is not read at all.
pub const GRANULE: usize = 65_536;

pub open spec fn least(left: int, right: int) -> int {
    if left < right {
        left
    } else {
        right
    }
}

pub open spec fn most(left: int, right: int) -> int {
    if left < right {
        right
    } else {
        left
    }
}

/// `size` rounded up to whole clusters.
pub open spec fn whole_clusters(size: int, cluster: int) -> int {
    (size + cluster - 1) / cluster * cluster
}

/// The bytes of a piece: about `chunk`, in steps of the larger of a cluster
/// and a record, so that pieces end on the boundaries of both.
pub open spec fn piece_bytes(geometry: Geometry, chunk: int) -> int {
    let step = most(geometry.cluster as int, geometry.record as int);
    most(chunk / step, 1) * step
}

/// Where in the table `runs` end: what they hold, in bytes.
pub open spec fn reach(list: Seq<Run>, cluster: u64) -> int {
    runs::clusters(list) * cluster
}

/// The bytes of the table that its runs hold: `size` in whole clusters, or
/// less where the runs end before that.
pub open spec fn table_bytes(list: Seq<Run>, geometry: Geometry, size: u64) -> int {
    least(reach(list, geometry.cluster), whole_clusters(size as int, geometry.cluster as int))
}

/// Where the table's bytes from `low` to `high` lie on the volume: one
/// segment for each run that holds some of them, in order.
pub open spec fn segments_between(list: Seq<Run>, cluster: u64, low: int, high: int) -> Seq<Segment>
    decreases list.len(),
{
    if list.len() == 0 {
        Seq::empty()
    } else {
        let before = segments_between(list.drop_last(), cluster, low, high);
        let begin = reach(list.drop_last(), cluster);
        let from = most(begin, low);
        let to = least(reach(list, cluster), high);
        if from < to {
            let offset = match list.last().start {
                Some(start) => Some((start * cluster + (from - begin)) as u64),
                None => None,
            };
            before.push(Segment { offset, length: (to - from) as usize })
        } else {
            before
        }
    }
}

/// Piece `number` of the table, when a piece is `chunk` bytes.
pub open spec fn piece_at(
    list: Seq<Run>,
    geometry: Geometry,
    size: u64,
    chunk: int,
    number: int,
) -> PieceModel {
    let record = geometry.record as int;
    let low = number * chunk;
    let high = least(low + chunk, table_bytes(list, geometry, size));
    let first = number * (chunk / record);
    PieceModel {
        first_record: first as u64,
        length: (high - low) as usize,
        records: least((high - low) / record, most(size as int / record - first, 0)) as usize,
        segments: segments_between(list, geometry.cluster, low, high),
    }
}

/// The consecutive pieces of the table, when a piece is `chunk` bytes and the
/// last one is what is left.
pub open spec fn pieces_of(list: Seq<Run>, geometry: Geometry, size: u64, chunk: int) -> Seq<
    PieceModel,
> {
    Seq::new(
        ((table_bytes(list, geometry, size) + chunk - 1) / chunk) as nat,
        |number: int| piece_at(list, geometry, size, chunk, number),
    )
}

/// Piece `number` of pieces of `whole` bytes, when it holds `length` bytes and
/// the table `total` records.
spec fn whole_model(
    list: Seq<Run>,
    cluster: u64,
    whole: int,
    record: int,
    total: int,
    number: int,
    length: int,
) -> PieceModel {
    let first = number * (whole / record);
    PieceModel {
        first_record: first as u64,
        length: length as usize,
        records: least(length / record, most(total - first, 0)) as usize,
        segments: segments_between(list, cluster, number * whole, number * whole + length),
    }
}

/// How many records of a table of `total` are in the `length` bytes from
/// record `first` on.
fn count_records(length: u64, record: u64, total: u64, first: u64) -> (records: usize)
    requires
        0 < record,
        length <= usize::MAX,
    ensures
        records == least(length as int / record as int, most(total - first, 0)),
{
    let fits: u64 = length / record;
    let left: u64 = if total > first {
        total - first
    } else {
        0
    };
    proof {
        assert(fits <= length) by (nonlinear_arith)
            requires
                0 < record,
                fits == length / record,
        ;
    }
    if fits < left {
        fits as usize
    } else {
        left as usize
    }
}

/// Where in the table run `number` starts, at most `limit`.
pub open spec fn run_begin(list: Seq<Run>, cluster: u64, limit: int, number: int) -> int {
    least(reach(list.take(number), cluster), limit)
}

/// Whether the byte offsets of the table and of its runs fit in 64 bits, and
/// a cluster in memory.
pub open spec fn addressable(list: Seq<Run>, geometry: Geometry, size: u64) -> bool {
    let cluster = geometry.cluster;
    let limit = whole_clusters(size as int, cluster as int);
    &&& 0 < cluster <= usize::MAX
    &&& 0 < geometry.record
    &&& limit <= u64::MAX
    &&& forall|i: int|
        #![trigger list[i]]
        0 <= i < list.len() ==> {
            &&& list[i].length * cluster <= u64::MAX
            &&& list[i].start matches Some(start) ==> start * cluster + (run_begin(
                list,
                cluster,
                limit,
                i + 1,
            ) - run_begin(list, cluster, limit, i)) <= u64::MAX
        }
}

/// The runs reach further by one run.
pub proof fn lemma_reach_step(list: Seq<Run>, cluster: u64, number: int)
    requires
        0 <= number < list.len(),
    ensures
        list.take(number + 1).drop_last() == list.take(number),
        list.take(number + 1).last() == list[number],
        reach(list.take(number + 1), cluster) == reach(list.take(number), cluster)
            + list[number].length * cluster,
        list[number].length * cluster >= 0,
        reach(list.take(number), cluster) >= 0,
{
    let next = list.take(number + 1);
    assert(next.drop_last() =~= list.take(number));
    assert(runs::clusters(next) == runs::clusters(next.drop_last()) + list[number].length);
    let (before, length) = (runs::clusters(list.take(number)), list[number].length);
    assert((before + length) * cluster == before * cluster + length * cluster && length * cluster
        >= 0 && before * cluster >= 0) by (nonlinear_arith)
        requires
            before >= 0,
            length >= 0,
            cluster >= 0,
    ;
}

proof fn lemma_reach_grows(list: Seq<Run>, cluster: u64, few: int, many: int)
    requires
        0 <= few <= many <= list.len(),
    ensures
        0 <= reach(list.take(few), cluster) <= reach(list.take(many), cluster),
    decreases many,
{
    if few < many {
        lemma_reach_grows(list, cluster, few, many - 1);
        lemma_reach_step(list, cluster, many - 1);
    } else {
        let count = runs::clusters(list.take(few));
        assert(count * cluster >= 0) by (nonlinear_arith)
            requires
                count >= 0,
                cluster >= 0,
        ;
    }
}

/// Runs that start past `high` hold none of the bytes before it.
proof fn lemma_segments_settled(list: Seq<Run>, cluster: u64, few: int, low: int, high: int)
    requires
        0 <= few <= list.len(),
        high <= reach(list.take(few), cluster),
    ensures
        segments_between(list.take(few), cluster, low, high) == segments_between(
            list,
            cluster,
            low,
            high,
        ),
    decreases list.len(),
{
    if few < list.len() {
        let shorter = list.drop_last();
        assert(shorter.take(few) =~= list.take(few));
        lemma_segments_settled(shorter, cluster, few, low, high);
        lemma_reach_grows(shorter, cluster, few, shorter.len() as int);
        assert(shorter.take(shorter.len() as int) =~= shorter);
    } else {
        assert(list.take(few) =~= list);
    }
}

/// Past the end of the runs there is nothing to hold.
proof fn lemma_segments_past(list: Seq<Run>, cluster: u64, low: int, high: int, higher: int)
    requires
        reach(list, cluster) <= high,
        reach(list, cluster) <= higher,
    ensures
        segments_between(list, cluster, low, high) == segments_between(list, cluster, low, higher),
    decreases list.len(),
{
    if list.len() > 0 {
        let number = list.len() - 1;
        assert(list.take(number + 1) =~= list);
        assert(list.take(number) =~= list.drop_last());
        lemma_reach_step(list, cluster, number);
        lemma_segments_past(list.drop_last(), cluster, low, high, higher);
    }
}

proof fn lemma_segments_empty(list: Seq<Run>, cluster: u64, low: int, high: int)
    requires
        high <= low,
    ensures
        segments_between(list, cluster, low, high) == Seq::<Segment>::empty(),
    decreases list.len(),
{
    if list.len() > 0 {
        lemma_segments_empty(list.drop_last(), cluster, low, high);
    }
}

/// The steps that [`cut`] takes by arithmetic on whole pieces.
proof fn lemma_whole_pieces(count: int, whole: int, record: int)
    requires
        0 <= count,
        0 < whole,
        0 < record,
    ensures
        (count + 1) * whole == count * whole + whole,
        (count + 1) * (whole / record) == count * (whole / record) + whole / record,
        0 <= count * (whole / record) <= count * whole,
        0 <= whole / record <= whole,
        forall|i: int| 0 <= i < count ==> #[trigger] (i * whole) + whole <= count * whole,
        forall|i: int| 0 <= i < count ==> #[trigger] (i * (whole / record)) <= i * whole,
{
    let some = whole / record;
    assert(0 <= some <= whole) by (nonlinear_arith)
        requires
            0 < whole,
            0 < record,
            some == whole / record,
    ;
    assert((count + 1) * whole == count * whole + whole) by (nonlinear_arith);
    assert((count + 1) * some == count * some + some) by (nonlinear_arith);
    assert(0 <= count * some <= count * whole) by (nonlinear_arith)
        requires
            0 <= count,
            0 <= some <= whole,
    ;
    assert forall|i: int| 0 <= i < count implies #[trigger] (i * whole) + whole <= count * whole by {
        assert(i * whole + whole <= count * whole) by (nonlinear_arith)
            requires
                0 <= i < count,
                0 < whole,
        ;
    }
    assert forall|i: int| 0 <= i < count implies #[trigger] (i * some) <= i * whole by {
        assert(i * some <= i * whole) by (nonlinear_arith)
            requires
                0 <= i,
                0 <= some <= whole,
        ;
    }
}

/// How many pieces of `whole` bytes there are in `total`, which is `count` of
/// them and `left` bytes.
proof fn lemma_piece_count(total: int, whole: int, count: int, left: int)
    requires
        total == count * whole + left,
        0 <= left < whole,
        0 <= count,
    ensures
        (total + whole - 1) / whole == if left == 0 {
            count
        } else {
            count + 1
        },
{
    if left == 0 {
        vstd::arithmetic::div_mod::lemma_fundamental_div_mod_converse(
            total + whole - 1,
            whole,
            count,
            whole - 1,
        );
    } else {
        assert((count + 1) * whole == count * whole + whole) by (nonlinear_arith);
        vstd::arithmetic::div_mod::lemma_fundamental_div_mod_converse(
            total + whole - 1,
            whole,
            count + 1,
            left - 1,
        );
    }
}

/// The smallest whole number of clusters that holds `size`.
fn round_up(size: u64, cluster: u64) -> (limit: u64)
    requires
        0 < cluster,
        whole_clusters(size as int, cluster as int) <= u64::MAX,
    ensures
        limit == whole_clusters(size as int, cluster as int),
        limit >= size,
{
    let over: u64 = size % cluster;
    let count: u64 = size / cluster;
    proof {
        vstd::arithmetic::div_mod::lemma_fundamental_div_mod(size as int, cluster as int);
        assert(cluster * count == count * cluster) by (nonlinear_arith);
        lemma_piece_count(size as int, cluster as int, count as int, over as int);
        assert((count + 1) * cluster == count * cluster + cluster) by (nonlinear_arith);
    }
    if over == 0 {
        size
    } else {
        size - over + cluster
    }
}

/// The bytes of a piece, for pieces of about `chunk` bytes.
fn whole_piece(geometry: Geometry, chunk: usize) -> (whole: u64)
    requires
        0 < geometry.cluster <= usize::MAX,
        0 < geometry.record,
    ensures
        whole == piece_bytes(geometry, chunk as int),
        0 < whole <= usize::MAX,
{
    let step: u64 = if geometry.cluster < geometry.record as u64 {
        geometry.record as u64
    } else {
        geometry.cluster
    };
    let count: u64 = chunk as u64 / step;
    proof {
        vstd::arithmetic::div_mod::lemma_fundamental_div_mod(chunk as int, step as int);
        assert(step * count == count * step) by (nonlinear_arith);
        assert(count >= 1 ==> count * step >= step) by (nonlinear_arith)
            requires
                step > 0,
        ;
        assert(1 * step == step) by (nonlinear_arith);
        assert(step == most(geometry.cluster as int, geometry.record as int));
    }
    if count > 1 {
        count * step
    } else {
        step
    }
}

/// Cut the table into consecutive pieces of about `chunk` bytes, rounded to
/// whole clusters and records.
pub fn cut(list: &[Run], geometry: Geometry, size: u64, chunk: usize) -> (pieces: Vec<Piece>)
    requires
        addressable(list@, geometry, size),
    ensures
        models(pieces@) == pieces_of(
            list@,
            geometry,
            size,
            piece_bytes(geometry, chunk as int),
        ),
{
    let cluster: u64 = geometry.cluster;
    let record: u64 = geometry.record as u64;
    let total_records: u64 = size / record;
    let whole: u64 = whole_piece(geometry, chunk);
    let limit: u64 = round_up(size, cluster);
    let mut pieces: Vec<Piece> = Vec::new();
    let mut segments: Vec<Segment> = Vec::new();
    let mut length: u64 = 0;
    let mut first: u64 = 0;
    let mut position: u64 = 0;
    let mut at: usize = 0;
    proof {
        assert(list@.take(0).len() == 0);
        assert(0 * (whole as int / record as int) == 0) by (nonlinear_arith);
        assert(0 * whole == 0 && 0 * cluster == 0) by (nonlinear_arith);
        assert(runs::clusters(list@.take(0)) == 0);
    }
    while at < list.len()
        invariant
            at <= list@.len(),
            addressable(list@, geometry, size),
            cluster == geometry.cluster,
            record == geometry.record,
            0 < record,
            total_records == size / record,
            0 < whole <= usize::MAX,
            limit == whole_clusters(size as int, cluster as int),
            position == run_begin(list@, cluster, limit as int, at as int),
            position == pieces@.len() * whole + length,
            length < whole,
            first == pieces@.len() * (whole as int / record as int),
            segments@ == segments_between(
                list@.take(at as int),
                cluster,
                pieces@.len() * whole,
                position as int,
            ),
            forall|i: int|
                #![trigger pieces@[i]]
                0 <= i < pieces@.len() ==> pieces@[i]@ == whole_model(
                    list@,
                    cluster,
                    whole as int,
                    record as int,
                    total_records as int,
                    i,
                    whole as int,
                ),
        decreases list@.len() - at,
    {
        let run = list[at];
        let ghost begin = position;
        let ghost held = list@.take(at + 1);
        let ghost end = run_begin(list@, cluster, limit as int, at + 1);
        let from: u64 = position;
        let mut bytes: u64 = run.length * cluster;
        if bytes > limit - position {
            bytes = limit - position;
        }
        proof {
            lemma_reach_step(list@, cluster, at as int);
            if bytes > 0 {
                assert(begin == reach(list@.take(at as int), cluster));
            }
            assert(position + bytes == end);
            assert(segments@ == segments_between(
                held,
                cluster,
                pieces@.len() * whole,
                position as int,
            ));
        }
        while bytes > 0
            invariant
                at < list@.len(),
                addressable(list@, geometry, size),
                cluster == geometry.cluster,
                record == geometry.record,
                0 < record,
                total_records == size / record,
                0 < whole <= usize::MAX,
                limit == whole_clusters(size as int, cluster as int),
                run == list@[at as int],
                held == list@.take(at + 1),
                from == begin,
                begin == run_begin(list@, cluster, limit as int, at as int),
                end == run_begin(list@, cluster, limit as int, at + 1),
                bytes > 0 ==> begin == reach(list@.take(at as int), cluster),
                begin <= position,
                position + bytes == end,
                end <= limit,
                position == pieces@.len() * whole + length,
                length < whole,
                bytes > 0 ==> position == begin || length == 0,
                first == pieces@.len() * (whole as int / record as int),
                segments@ == segments_between(
                    held,
                    cluster,
                    pieces@.len() * whole,
                    position as int,
                ),
                forall|i: int|
                    #![trigger pieces@[i]]
                    0 <= i < pieces@.len() ==> pieces@[i]@ == whole_model(
                        list@,
                        cluster,
                        whole as int,
                        record as int,
                        total_records as int,
                        i,
                        whole as int,
                    ),
            decreases bytes,
        {
            let take: u64 = if bytes < whole - length {
                bytes
            } else {
                whole - length
            };
            let ghost low = pieces@.len() * whole;
            let ghost before = position;
            proof {
                lemma_reach_step(list@, cluster, at as int);
                lemma_whole_pieces(pieces@.len() as int, whole as int, record as int);
                assert(list@[at as int].length * cluster <= u64::MAX);
                assert(position == most(begin as int, low));
            }
            let offset: Option<u64> = match run.start {
                Some(start) => {
                    proof {
                        assert(start * cluster >= 0) by (nonlinear_arith);
                    }
                    Some(start * cluster + (position - from))
                },
                None => None,
            };
            segments.push(Segment { offset, length: take as usize });
            length = length + take;
            position = position + take;
            bytes = bytes - take;
            proof {
                lemma_segments_past(
                    list@.take(at as int),
                    cluster,
                    low,
                    before as int,
                    position as int,
                );
                lemma_segments_past(
                    list@.take(at as int),
                    cluster,
                    low,
                    before as int,
                    before as int,
                );
                assert(held.drop_last() == list@.take(at as int));
                assert(position <= reach(held, cluster));
                assert(segments@ == segments_between(held, cluster, low, position as int));
                lemma_segments_settled(list@, cluster, at + 1, low, position as int);
            }
            if length == whole {
                let done: usize = length as usize;
                let ghost number = pieces@.len() as int;
                let records: usize = count_records(length, record, total_records, first);
                pieces.push(Piece { first_record: first, length: done, records, segments });
                segments = Vec::new();
                length = 0;
                proof {
                    lemma_whole_pieces(number + 1, whole as int, record as int);
                    lemma_segments_empty(held, cluster, position as int, position as int);
                    assert(pieces@[number]@ == whole_model(
                        list@,
                        cluster,
                        whole as int,
                        record as int,
                        total_records as int,
                        number,
                        whole as int,
                    ));
                }
                first = first + whole / record;
            }
        }
        at = at + 1;
    }
    proof {
        assert(list@.take(at as int) =~= list@);
        lemma_whole_pieces(pieces@.len() as int, whole as int, record as int);
        lemma_piece_count(position as int, whole as int, pieces@.len() as int, length as int);
    }
    let ghost number = pieces@.len() as int;
    if length > 0 {
        let records: usize = count_records(length, record, total_records, first);
        pieces.push(Piece { first_record: first, length: length as usize, records, segments });
    }
    proof {
        let expected = pieces_of(list@, geometry, size, whole as int);
        assert(models(pieces@).len() == expected.len());
        assert forall|i: int| 0 <= i < expected.len() implies models(pieces@)[i] == expected[i] by {
            if i < number {
                assert(i * whole + whole <= position);
            }
        }
        assert(models(pieces@) =~= expected);
    }
    pieces
}

/// The bitmap's bytes, if there is one.
pub open spec fn bits_of(in_use: Option<&[u8]>) -> Option<Seq<u8>> {
    match in_use {
        Some(bits) => Some(bits@),
        None => None,
    }
}

/// Whether record `number` may be in use: its bit is set, or the bitmap does
/// not reach it.
pub open spec fn may_be_used(bits: Option<Seq<u8>>, number: int) -> bool {
    match bits {
        Some(bits) => number / 8 < bits.len() ==> (bits[number / 8] >> (number % 8) as u8) & 1 != 0,
        None => true,
    }
}

/// Whether `piece` is worth reading: some of it is on the volume, and some
/// record in it may be in use.
pub open spec fn worth_reading(bits: Option<Seq<u8>>, piece: PieceModel) -> bool {
    &&& exists|i: int|
        0 <= i < piece.segments.len() && (#[trigger] piece.segments[i]).offset is Some
    &&& exists|number: int|
        piece.first_record <= number < piece.first_record + piece.records && #[trigger] may_be_used(
            bits,
            number,
        )
}

/// Whether `next` follows right after `piece`, which is full, and both
/// together are at most `chunk` bytes.
pub open spec fn joins(piece: PieceModel, next: PieceModel, record: int, chunk: int) -> bool {
    &&& piece.first_record + piece.records == next.first_record
    &&& piece.records * record == piece.length
    &&& piece.length + next.length <= chunk
}

/// Whether `next` lies right after `segment` on the volume.
pub open spec fn adjoins(segment: Segment, next: Segment) -> bool {
    match (segment.offset, next.offset) {
        (Some(start), Some(following)) => start + segment.length == following,
        _ => false,
    }
}

/// `segments` and then `next`, as one segment with the last where it lies
/// right after it.
pub open spec fn with_segment(segments: Seq<Segment>, next: Segment) -> Seq<Segment> {
    if segments.len() > 0 && adjoins(segments.last(), next) {
        let last = segments.last();
        segments.update(
            segments.len() - 1,
            Segment { offset: last.offset, length: (last.length + next.length) as usize },
        )
    } else {
        segments.push(next)
    }
}

/// `segments` and then the first `count` of `next`.
pub open spec fn with_segments(segments: Seq<Segment>, next: Seq<Segment>, count: nat) -> Seq<
    Segment,
>
    decreases count,
{
    if count == 0 {
        segments
    } else {
        with_segment(with_segments(segments, next, (count - 1) as nat), next[count - 1])
    }
}

/// `piece` and `next` as one piece.
pub open spec fn joined(piece: PieceModel, next: PieceModel) -> PieceModel {
    PieceModel {
        first_record: piece.first_record,
        length: (piece.length + next.length) as usize,
        records: (piece.records + next.records) as usize,
        segments: with_segments(piece.segments, next.segments, next.segments.len()),
    }
}

/// The first `count` of `granules`, those not worth reading left out and the
/// others joined as far as they follow each other and fit in `chunk` bytes.
pub open spec fn plan_of(
    granules: Seq<PieceModel>,
    count: nat,
    record: int,
    chunk: int,
    bits: Option<Seq<u8>>,
) -> Seq<PieceModel>
    decreases count,
{
    if count == 0 {
        Seq::empty()
    } else {
        let before = plan_of(granules, (count - 1) as nat, record, chunk, bits);
        let next = granules[count - 1];
        if !worth_reading(bits, next) {
            before
        } else if before.len() > 0 && joins(before.last(), next, record, chunk) {
            before.update(before.len() - 1, joined(before.last(), next))
        } else {
            before.push(next)
        }
    }
}

/// The granules of the table: the stretches that are read or left out.
pub open spec fn granules_of(list: Seq<Run>, geometry: Geometry, size: u64) -> Seq<PieceModel> {
    pieces_of(list, geometry, size, piece_bytes(geometry, GRANULE as int))
}

/// Bytes in `segments`.
pub open spec fn total_length(segments: Seq<Segment>) -> nat
    decreases segments.len(),
{
    if segments.len() == 0 {
        0
    } else {
        total_length(segments.drop_last()) + segments.last().length as nat
    }
}

/// The segments between two places of the table hold all that lies there.
pub proof fn lemma_total_length(list: Seq<Run>, cluster: u64, low: int, high: int)
    requires
        0 <= low,
        high - low <= usize::MAX,
    ensures
        total_length(segments_between(list, cluster, low, high)) == most(
            0,
            least(reach(list, cluster), high) - low,
        ),
    decreases list.len(),
{
    if list.len() > 0 {
        let number = list.len() - 1;
        assert(list.take(number + 1) =~= list);
        assert(list.take(number) =~= list.drop_last());
        lemma_reach_step(list, cluster, number);
        lemma_total_length(list.drop_last(), cluster, low, high);
        let before = segments_between(list.drop_last(), cluster, low, high);
        let now = segments_between(list, cluster, low, high);
        if now.len() != before.len() {
            assert(now.drop_last() =~= before);
        }
    } else {
        assert(runs::clusters(list) == 0);
        assert(0 * cluster == 0) by (nonlinear_arith);
    }
}

/// A piece is something, and fits in memory.
pub proof fn lemma_whole_piece(geometry: Geometry, chunk: int)
    requires
        0 < geometry.cluster <= usize::MAX,
        0 < geometry.record,
        0 <= chunk <= usize::MAX,
    ensures
        0 < piece_bytes(geometry, chunk) <= usize::MAX,
{
    let step = most(geometry.cluster as int, geometry.record as int);
    let count = chunk / step;
    vstd::arithmetic::div_mod::lemma_fundamental_div_mod(chunk, step);
    assert(step * count == count * step) by (nonlinear_arith);
    assert(count >= 1 ==> count * step >= step) by (nonlinear_arith)
        requires
            step > 0,
    ;
    assert(1 * step == step) by (nonlinear_arith);
}

/// What holds of each piece of the table: its numbers are what they say, with
/// nothing cut off, and its segments hold its bytes.
pub proof fn lemma_piece(list: Seq<Run>, geometry: Geometry, size: u64, chunk: int, number: int)
    requires
        addressable(list, geometry, size),
        0 < chunk <= usize::MAX,
        0 <= number < pieces_of(list, geometry, size, chunk).len(),
    ensures
        ({
            let record = geometry.record as int;
            let total = table_bytes(list, geometry, size);
            let low = number * chunk;
            let first = number * (chunk / record);
            let piece = pieces_of(list, geometry, size, chunk)[number];
            &&& 0 <= low < total
            &&& piece.length == least(chunk, total - low)
            &&& piece.length > 0
            &&& piece.first_record == first
            &&& piece.records == least(
                piece.length as int / record,
                most(size as int / record - first, 0),
            )
            &&& 0 <= first <= low
            &&& piece.records <= piece.length
            &&& piece.first_record + piece.records <= u64::MAX
            &&& total_length(piece.segments) == piece.length
        }),
{
    let record = geometry.record as int;
    let total = table_bytes(list, geometry, size);
    let low = number * chunk;
    let count = (total + chunk - 1) / chunk;
    vstd::arithmetic::div_mod::lemma_fundamental_div_mod(total + chunk - 1, chunk);
    assert(number * chunk < total) by (nonlinear_arith)
        requires
            number < count,
            total + chunk - 1 == chunk * count + (total + chunk - 1) % chunk,
            (total + chunk - 1) % chunk >= 0,
            0 < chunk,
    ;
    lemma_whole_pieces(number, chunk, record);
    lemma_whole_pieces(number + 1, chunk, record);
    let high = least(low + chunk, total);
    let fits = (high - low) / record;
    assert(0 <= fits <= high - low) by (nonlinear_arith)
        requires
            0 < record,
            0 < high - low,
            fits == (high - low) / record,
    ;
    let all = size as int / record;
    assert(0 <= all <= size) by (nonlinear_arith)
        requires
            0 < record,
            0 <= size,
            all == size as int / record,
    ;
    lemma_total_length(list, geometry.cluster, low, high);
}

fn has_mapped(segments: &Vec<Segment>) -> (found: bool)
    ensures
        found == exists|i: int|
            0 <= i < segments@.len() && (#[trigger] segments@[i]).offset is Some,
{
    let mut at: usize = 0;
    while at < segments.len()
        invariant
            at <= segments@.len(),
            forall|i: int| 0 <= i < at ==> (#[trigger] segments@[i]).offset is None,
        decreases segments@.len() - at,
    {
        if segments[at].offset.is_some() {
            return true;
        }
        at = at + 1;
    }
    false
}

fn in_bitmap(in_use: Option<&[u8]>, number: u64) -> (used: bool)
    ensures
        used == may_be_used(bits_of(in_use), number as int),
{
    match in_use {
        Some(bits) => {
            let byte: u64 = number / 8;
            if byte >= bits.len() as u64 {
                return true;
            }
            (bits[byte as usize] >> (number % 8) as u8) & 1 != 0
        },
        None => true,
    }
}

fn is_used(in_use: Option<&[u8]>, piece: &Piece) -> (used: bool)
    requires
        piece.first_record + piece.records <= u64::MAX,
    ensures
        used == worth_reading(bits_of(in_use), piece@),
{
    if !has_mapped(&piece.segments) {
        return false;
    }
    let mut done: usize = 0;
    while done < piece.records
        invariant
            done <= piece.records,
            piece.first_record + piece.records <= u64::MAX,
            forall|number: int|
                piece.first_record <= number < piece.first_record + done
                    ==> !#[trigger] may_be_used(bits_of(in_use), number),
            exists|i: int|
                0 <= i < piece@.segments.len() && (#[trigger] piece@.segments[i]).offset is Some,
        decreases piece.records - done,
    {
        if in_bitmap(in_use, piece.first_record + done as u64) {
            assert(may_be_used(bits_of(in_use), piece.first_record + done));
            return true;
        }
        done = done + 1;
    }
    false
}

/// A segment more is so many bytes more.
pub proof fn lemma_with_segment(segments: Seq<Segment>, next: Segment)
    requires
        total_length(segments) + next.length <= usize::MAX,
    ensures
        total_length(with_segment(segments, next)) == total_length(segments) + next.length,
        segments.len() > 0 ==> segments.last().length <= total_length(segments),
{
    let after = with_segment(segments, next);
    if segments.len() > 0 && adjoins(segments.last(), next) {
        assert(after.drop_last() =~= segments.drop_last());
    } else {
        assert(after.drop_last() =~= segments);
    }
}

fn push_segment(segments: &mut Vec<Segment>, next: Segment)
    requires
        total_length(old(segments)@) + next.length <= usize::MAX,
    ensures
        final(segments)@ == with_segment(old(segments)@, next),
        total_length(final(segments)@) == total_length(old(segments)@) + next.length,
{
    proof {
        lemma_with_segment(segments@, next);
    }
    let count: usize = segments.len();
    if count > 0 {
        let last = segments[count - 1];
        let adjoins = match (last.offset, next.offset) {
            (Some(start), Some(following)) => start <= following && following - start
                == last.length as u64,
            _ => false,
        };
        if adjoins {
            segments.set(
                count - 1,
                Segment { offset: last.offset, length: last.length + next.length },
            );
            return;
        }
    }
    segments.push(next);
}

/// Lengths grow segment by segment.
pub proof fn lemma_total_length_grows(segments: Seq<Segment>, few: int)
    requires
        0 <= few < segments.len(),
    ensures
        total_length(segments.take(few + 1)) == total_length(segments.take(few))
            + segments[few].length,
        total_length(segments.take(few + 1)) <= total_length(segments),
    decreases segments.len(),
{
    let next = segments.take(few + 1);
    assert(next.drop_last() =~= segments.take(few));
    if few + 1 < segments.len() {
        let shorter = segments.drop_last();
        lemma_total_length_grows(shorter, few);
        assert(shorter.take(few + 1) =~= next);
        assert(shorter.take(few) =~= segments.take(few));
    } else {
        assert(next =~= segments);
    }
}

/// Add `next` to the end of `piece`.
fn join(piece: &mut Piece, next: Piece)
    requires
        old(piece).length + next.length <= usize::MAX,
        old(piece).records <= old(piece).length,
        next.records <= next.length,
        total_length(old(piece).segments@) == old(piece).length,
        total_length(next.segments@) == next.length,
    ensures
        final(piece)@ == joined(old(piece)@, next@),
        final(piece).records <= final(piece).length,
        total_length(final(piece).segments@) == final(piece).length,
        final(piece).length == old(piece).length + next.length,
{
    let ghost before = *piece;
    let mut at: usize = 0;
    assert(next.segments@.take(0).len() == 0);
    while at < next.segments.len()
        invariant
            at <= next.segments@.len(),
            before.length + next.length <= usize::MAX,
            total_length(next.segments@) == next.length,
            total_length(before.segments@) == before.length,
            piece.length == before.length,
            piece.records == before.records,
            piece.first_record == before.first_record,
            piece.segments@ == with_segments(before.segments@, next.segments@, at as nat),
            total_length(piece.segments@) == before.length + total_length(
                next.segments@.take(at as int),
            ),
        decreases next.segments@.len() - at,
    {
        proof {
            lemma_total_length_grows(next.segments@, at as int);
        }
        push_segment(&mut piece.segments, next.segments[at]);
        at = at + 1;
    }
    assert(next.segments@.take(at as int) =~= next.segments@);
    piece.length = piece.length + next.length;
    piece.records = piece.records + next.records;
}

/// Cut the table into pieces to read, leaving out what is free.
///
/// The table is `size` bytes laid out over `list`; pieces are about `chunk`
/// bytes, and stretches whose records are all free per `in_use` (the
/// table's own `$BITMAP`, one bit per record) are left out. Every piece is
/// whole clusters and whole records, so every read is aligned for the raw
/// volume; a piece that crosses runs or skips a free stretch is read as
/// several segments.
pub fn plan_pieces(
    list: &[Run],
    geometry: Geometry,
    size: u64,
    chunk: usize,
    in_use: Option<&[u8]>,
) -> (pieces: Vec<Piece>)
    requires
        addressable(list@, geometry, size),
    ensures
        models(pieces@) == ({
            let granules = granules_of(list@, geometry, size);
            plan_of(
                granules,
                granules.len(),
                geometry.record as int,
                chunk as int,
                bits_of(in_use),
            )
        }),
{
    let granules = cut(list, geometry, size, GRANULE);
    let ghost expected = granules_of(list@, geometry, size);
    let ghost whole = piece_bytes(geometry, GRANULE as int);
    let ghost bits = bits_of(in_use);
    proof {
        lemma_whole_piece(geometry, GRANULE as int);
    }
    let mut pieces: Vec<Piece> = Vec::new();
    let mut count: usize = 0;
    assert(models(pieces@) =~= Seq::empty());
    for granule in iter: granules
        invariant
            iter.seq() == granules@,
            models(granules@) == expected,
            expected == pieces_of(list@, geometry, size, whole),
            0 < whole <= usize::MAX,
            addressable(list@, geometry, size),
            bits == bits_of(in_use),
            models(pieces@) == plan_of(
                expected,
                iter.index() as nat,
                geometry.record as int,
                chunk as int,
                bits,
            ),
            forall|i: int|
                #![trigger pieces@[i]]
                0 <= i < pieces@.len() ==> {
                    &&& pieces@[i].records <= pieces@[i].length
                    &&& total_length(pieces@[i].segments@) == pieces@[i].length
                },
    {
        let ghost number = iter.index() as int;
        proof {
            lemma_piece(list@, geometry, size, whole, number);
            assert(granule@ == models(granules@)[number]);
        }
        let ghost before = pieces@;
        if is_used(in_use, &granule) {
            let held: usize = pieces.len();
            let mut follows = false;
            if held > 0 {
                let last = &pieces[held - 1];
                follows = last.first_record <= granule.first_record && granule.first_record
                    - last.first_record == last.records as u64 && granule.length <= chunk
                    && last.length <= chunk - granule.length && (match last.records.checked_mul(
                    geometry.record,
                ) {
                    Some(bytes) => bytes == last.length,
                    None => false,
                });
                proof {
                    let full = last.records * geometry.record;
                    assert(full >= 0) by (nonlinear_arith)
                        requires
                            full == last.records * geometry.record,
                    ;
                    assert(models(before).last() == before.last()@);
                }
            }
            if follows {
                if let Some(last) = pieces.pop() {
                    let mut last = last;
                    join(&mut last, granule);
                    pieces.push(last);
                    assert(models(pieces@) =~= models(before).update(
                        before.len() - 1,
                        joined(before.last()@, granule@),
                    ));
                }
            } else {
                pieces.push(granule);
                assert(models(pieces@) =~= models(before).push(granule@));
            }
        }
    }
    pieces
}

/// Whether the byte offsets of the table and of its runs fit in 64 bits, and
/// a cluster in memory: only then can pieces of it be planned.
pub fn is_addressable(list: &[Run], geometry: Geometry, size: u64) -> (fits: bool)
    ensures
        fits == addressable(list@, geometry, size),
{
    let cluster: u64 = geometry.cluster;
    if cluster == 0 || cluster > usize::MAX as u64 || geometry.record == 0 {
        return false;
    }
    let limit: u64 = match round_up_checked(size, cluster) {
        Some(limit) => limit,
        None => return false,
    };
    let mut begin: u64 = 0;
    let mut done: usize = 0;
    proof {
        assert(list@.take(0) =~= Seq::empty());
        assert(runs::clusters(list@.take(0)) == 0);
        assert(0 * cluster == 0) by (nonlinear_arith);
    }
    while done < list.len()
        invariant
            done <= list@.len(),
            cluster == geometry.cluster,
            0 < cluster <= usize::MAX,
            0 < geometry.record,
            limit == whole_clusters(size as int, cluster as int),
            begin <= limit,
            begin == run_begin(list@, cluster, limit as int, done as int),
            forall|i: int|
                #![trigger list@[i]]
                0 <= i < done ==> {
                    &&& list@[i].length * cluster <= u64::MAX
                    &&& list@[i].start matches Some(start) ==> start * cluster + (run_begin(
                        list@,
                        cluster,
                        limit as int,
                        i + 1,
                    ) - run_begin(list@, cluster, limit as int, i)) <= u64::MAX
                },
        decreases list@.len() - done,
    {
        let run = list[done];
        proof {
            lemma_reach_step(list@, cluster, done as int);
            assert(list@[done as int] == run);
        }
        let bytes: u64 = match run.length.checked_mul(cluster) {
            Some(bytes) => bytes,
            None => return false,
        };
        let taken: u64 = if bytes < limit - begin {
            bytes
        } else {
            limit - begin
        };
        assert(begin + taken == run_begin(list@, cluster, limit as int, done + 1));
        if let Some(start) = run.start {
            assert(start * cluster >= 0) by (nonlinear_arith)
                requires
                    start >= 0,
                    cluster >= 0,
            ;
            match start.checked_mul(cluster) {
                Some(offset) => if offset > u64::MAX - taken {
                    return false;
                },
                None => return false,
            }
        }
        begin = begin + taken;
        done = done + 1;
    }
    true
}

/// `size` rounded up to whole clusters, if 64 bits hold that.
fn round_up_checked(size: u64, cluster: u64) -> (whole: Option<u64>)
    requires
        0 < cluster,
    ensures
        match whole {
            Some(whole) => whole == whole_clusters(size as int, cluster as int),
            None => whole_clusters(size as int, cluster as int) > u64::MAX,
        },
{
    let (full, rest): (u64, u64) = (size / cluster, size % cluster);
    let clusters: u64 = if rest == 0 {
        full
    } else {
        assert(full < u64::MAX) by (nonlinear_arith)
            requires
                cluster >= 1,
                full == size / cluster,
                size % cluster != 0,
        ;
        full + 1
    };
    assert((size + cluster - 1) / cluster as int == clusters && clusters * cluster >= 0)
        by (nonlinear_arith)
        requires
            0 < cluster,
            full == size / cluster,
            rest == size % cluster,
            clusters == (if rest == 0 {
                full as int
            } else {
                full + 1
            }),
    ;
    clusters.checked_mul(cluster)
}

} // verus!
