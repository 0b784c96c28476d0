//! The update sequence, which shows whether a record was written whole.

use vstd::prelude::*;

use crate::bytes;
use crate::bytes::read_u16;
use crate::mft::boot::STRIDE;

verus! {

/// The four bytes that a record starts with: `FILE`.
pub open spec fn file_mark() -> Seq<u8> {
    seq![0x46, 0x49, 0x4c, 0x45]
}

/// Where the update sequence of `record` starts: its check value, then the
/// saved end of each stride.
pub open spec fn sequence_offset(record: Seq<u8>) -> int {
    bytes::le_at(record, 4, 2) as int
}

/// The strides of `record`.
pub open spec fn strides(record: Seq<u8>) -> nat {
    record.len() / STRIDE as nat
}

/// Whether `record` has the header of a record, with one saved end for each
/// of its strides.
pub open spec fn sealed(record: Seq<u8>) -> bool {
    &&& record.len() >= 48
    &&& record.len() % STRIDE as nat == 0
    &&& record.take(4) == file_mark()
    &&& bytes::le_at(record, 6, 2) == strides(record) + 1
    &&& sequence_offset(record) + 2 * (strides(record) + 1) <= record.len()
}

/// Whether stride `number`, counted from one, does not end in the check
/// value: a write that was cut off.
pub open spec fn torn(record: Seq<u8>, number: int) -> bool {
    let end = number * STRIDE;
    let check = sequence_offset(record);
    record[end - 2] != record[check] || record[end - 1] != record[check + 1]
}

/// How many of the first `limit` strides come before the first torn one.
pub open spec fn whole_strides(record: Seq<u8>, limit: nat) -> nat
    decreases limit,
{
    if limit == 0 {
        0
    } else {
        let before = whole_strides(record, (limit - 1) as nat);
        if before == limit - 1 && !torn(record, limit as int) {
            limit
        } else {
            before
        }
    }
}

/// Whether `record` was written whole: its header is in order and no stride
/// is torn.
pub open spec fn intact(record: Seq<u8>) -> bool {
    sealed(record) && whole_strides(record, strides(record)) == strides(record)
}

/// `record` with the saved ends of its first `count` strides put back.
pub open spec fn mended(record: Seq<u8>, count: nat) -> Seq<u8>
    decreases count,
{
    if count == 0 {
        record
    } else {
        let before = mended(record, (count - 1) as nat);
        let end = count * STRIDE as nat;
        let saved = sequence_offset(record) + 2 * count;
        let first = before.update(end - 2, before[saved]);
        first.update(end - 1, first[saved + 1])
    }
}

/// What undoing the update sequence leaves in `record`: the ends of the
/// strides before the first torn one are put back.
pub open spec fn repaired(record: Seq<u8>) -> Seq<u8> {
    if sealed(record) {
        mended(record, whole_strides(record, strides(record)))
    } else {
        record
    }
}

proof fn lemma_mended(record: Seq<u8>, count: nat)
    requires
        count * STRIDE as nat <= record.len(),
    ensures
        mended(record, count).len() == record.len(),
        forall|i: int|
            0 <= i < record.len() && (i / STRIDE as int >= count || i % STRIDE as int
                != STRIDE - 2 && i % STRIDE as int != STRIDE - 1) ==> mended(record, count)[i]
                == record[i],
    decreases count,
{
    if count > 0 {
        lemma_mended(record, (count - 1) as nat);
    }
}

proof fn lemma_whole_strides(record: Seq<u8>, number: nat, limit: nat)
    requires
        number <= limit,
    ensures
        whole_strides(record, number) <= number,
        whole_strides(record, number) < number ==> whole_strides(record, limit) == whole_strides(
            record,
            number,
        ),
    decreases limit,
{
    if number < limit {
        lemma_whole_strides(record, number, (limit - 1) as nat);
    } else if number > 0 {
        lemma_whole_strides(record, (number - 1) as nat, (number - 1) as nat);
    }
}

/// Undoing the update sequence keeps a record's length, and every byte that
/// does not end a stride.
pub proof fn lemma_repaired_keeps(record: Seq<u8>)
    ensures
        repaired(record).len() == record.len(),
        forall|i: int|
            0 <= i < record.len() && i % STRIDE as int != STRIDE - 2 && i % STRIDE as int != STRIDE
                - 1 ==> repaired(record)[i] == record[i],
{
    lemma_whole_strides(record, strides(record), strides(record));
    lemma_mended(record, whole_strides(record, strides(record)));
}

/// Undo the update sequence, or say the record is torn.
///
/// The last two bytes of every stride were swapped for a check value when
/// the record was written, and are put back here. A stride whose check
/// value is wrong was torn by a write in flight, and the record is not
/// trusted.
pub fn apply_fixups(record: &mut [u8]) -> (whole: bool)
    ensures
        whole == intact(old(record)@),
        final(record)@ == repaired(old(record)@),
{
    let ghost before = record@;
    let length: usize = record.len();
    if length < 48 || length % STRIDE != 0 {
        return false;
    }
    if !(record[0] == 0x46 && record[1] == 0x49 && record[2] == 0x4c && record[3] == 0x45) {
        proof {
            let start = before.take(4);
            assert(start[0] == before[0] && start[1] == before[1]);
            assert(start[2] == before[2] && start[3] == before[3]);
        }
        return false;
    }
    assert(before.take(4) =~= file_mark());
    let (offset, count): (usize, usize) = match (read_u16(record, 4), read_u16(record, 6)) {
        (Some(offset), Some(count)) => (offset as usize, count as usize),
        _ => {
            return false;
        },
    };
    if count != length / STRIDE + 1 || offset + count * 2 > length {
        return false;
    }
    let first: u8 = record[offset];
    let second: u8 = record[offset + 1];
    let mut stride: usize = 1;
    while stride < count
        invariant
            1 <= stride <= count,
            before == old(record)@,
            count == strides(before) + 1,
            length == before.len(),
            record@ == mended(before, (stride - 1) as nat),
            record@.len() == length,
            sealed(before),
            offset == sequence_offset(before),
            first == before[offset as int],
            second == before[offset + 1],
            whole_strides(before, (stride - 1) as nat) == stride - 1,
        decreases count - stride,
    {
        let end: usize = stride * STRIDE;
        proof {
            lemma_mended(before, (stride - 1) as nat);
            assert(end <= length);
            assert((end - 2) / STRIDE as int == stride - 1);
            assert((end - 1) / STRIDE as int == stride - 1);
            assert(record@[end - 2] == before[end - 2]);
            assert(record@[end - 1] == before[end - 1]);
        }
        if record[end - 2] != first || record[end - 1] != second {
            proof {
                lemma_whole_strides(before, stride as nat, strides(before));
            }
            return false;
        }
        record[end - 2] = record[offset + stride * 2];
        record[end - 1] = record[offset + stride * 2 + 1];
        stride = stride + 1;
    }
    true
}

/// Whether `written` is how `record` is written: the end of each stride is in
/// the update sequence, with the check value in its place. The update
/// sequence itself stands before the first of those ends.
pub open spec fn guards(written: Seq<u8>, record: Seq<u8>) -> bool {
    let offset = sequence_offset(written);
    &&& sealed(written)
    &&& record.len() == written.len()
    &&& offset + 2 * (strides(written) + 1) <= STRIDE - 2
    &&& forall|i: int|
        #![trigger written[i]]
        0 <= i < written.len() && i % STRIDE as int != STRIDE - 2 && i % STRIDE as int != STRIDE - 1
            ==> written[i] == record[i]
    &&& forall|number: int|
        #![trigger torn(written, number)]
        1 <= number <= strides(written) ==> {
            &&& !torn(written, number)
            &&& written[offset + 2 * number] == record[number * STRIDE - 2]
            &&& written[offset + 2 * number + 1] == record[number * STRIDE - 1]
        }
}

proof fn lemma_guarded(written: Seq<u8>, record: Seq<u8>, count: nat)
    requires
        guards(written, record),
        count <= strides(written),
    ensures
        whole_strides(written, count) == count,
        mended(written, count).len() == written.len(),
        forall|i: int|
            0 <= i < count * STRIDE ==> #[trigger] mended(written, count)[i] == record[i],
        forall|i: int|
            count * STRIDE <= i < written.len() ==> #[trigger] mended(written, count)[i]
                == written[i],
    decreases count,
{
    if count > 0 {
        lemma_guarded(written, record, (count - 1) as nat);
        let before = mended(written, (count - 1) as nat);
        let after = mended(written, count);
        let end = count * STRIDE;
        let saved = sequence_offset(written) + 2 * count;
        assert(!torn(written, count as int));
        assert(saved % STRIDE as int == saved && (saved + 1) % STRIDE as int == saved + 1);
        assert(before[saved] == written[saved]);
        assert(before[saved + 1] == written[saved + 1]);
        assert forall|i: int| 0 <= i < end implies #[trigger] after[i] == record[i] by {
            if i < end - STRIDE {
                assert(before[i] == record[i]);
            } else if i < end - 2 {
                assert(i % STRIDE as int == i - (end - STRIDE));
                assert(before[i] == written[i]);
            }
        }
        assert forall|i: int| end <= i < written.len() implies #[trigger] after[i]
            == written[i] by {
            assert(before[i] == written[i]);
        }
    }
}

/// What was written whole is read back as it was.
pub proof fn lemma_guarded_reads_back(written: Seq<u8>, record: Seq<u8>)
    requires
        guards(written, record),
    ensures
        intact(written),
        repaired(written) == record,
{
    lemma_guarded(written, record, strides(written));
    assert(strides(written) * STRIDE == written.len());
    assert(repaired(written) =~= record);
}

/// A write that was cut off is seen: a record with a torn stride is not
/// intact.
pub proof fn lemma_torn_is_seen(record: Seq<u8>, number: int)
    requires
        1 <= number <= strides(record),
        torn(record, number),
    ensures
        !intact(record),
{
    lemma_whole_strides(record, number as nat, strides(record));
    lemma_whole_strides(record, (number - 1) as nat, (number - 1) as nat);
}

} // verus!
