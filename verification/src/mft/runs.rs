//! Mapping pairs: where the pieces of a stream lie on the volume.

use vstd::prelude::*;

use crate::bytes;
use crate::bytes::{signed, unsigned};

verus! {

/// One run of a non-resident attribute: `length` clusters at `start`, or a
/// sparse hole of `length` clusters when `start` is `None`.
#[derive(Clone, Copy, Debug, PartialEq, Eq, Structural)]
pub struct Run {
    pub start: Option<u64>,
    pub length: u64,
}

/// `rest` with `run` before it.
pub open spec fn run_then(run: Run, rest: Option<Seq<Run>>) -> Option<Seq<Run>> {
    match rest {
        Some(rest) => Some(seq![run] + rest),
        None => None,
    }
}

/// The runs that a mapping-pairs array holds, when the run before it started
/// at cluster `start`. `None` if the array is cut short, or leaves the range
/// of cluster numbers.
///
/// Each run starts with a byte whose low nibble is the width of its length
/// and high nibble the width of its start, which is signed and relative to
/// the previous run's start; a zero byte ends the array.
pub open spec fn runs_from(pairs: Seq<u8>, start: int) -> Option<Seq<Run>>
    decreases pairs.len(),
{
    let length_width = pairs[0] % 16;
    let start_width = pairs[0] / 16;
    let length = bytes::le(pairs.subrange(1, 1 + length_width)) as u64;
    let size = 1 + length_width + start_width;
    let next = start + bytes::le_signed(pairs.subrange(1 + length_width, size));
    if pairs.len() == 0 {
        None
    } else if pairs[0] == 0 {
        Some(Seq::empty())
    } else if length_width == 0 || length_width > 8 || start_width > 8 || pairs.len() < size {
        None
    } else if start_width == 0 {
        run_then(Run { start: None, length }, runs_from(pairs.skip(size), start))
    } else if 0 <= next <= i64::MAX {
        run_then(Run { start: Some(next as u64), length }, runs_from(pairs.skip(size), next))
    } else {
        None
    }
}

/// Decode a mapping-pairs array. Each run starts with a byte whose low
/// nibble is the width of its length and high nibble the width of its
/// start, which is signed and relative to the previous run's start.
pub fn decode_runs(pairs: &[u8]) -> (runs: Option<Vec<Run>>)
    ensures
        runs is Some <==> runs_from(pairs@, 0) is Some,
        runs matches Some(runs) ==> runs_from(pairs@, 0) == Some(runs@),
{
    let mut runs: Vec<Run> = Vec::new();
    let mut position: usize = 0;
    let mut start: i64 = 0;
    assert(pairs@.skip(0) =~= pairs@);
    assert(forall|rest: Seq<Run>| #[trigger] (Seq::<Run>::empty() + rest) =~= rest);
    while position < pairs.len()
        invariant
            position <= pairs@.len(),
            start >= 0,
            runs_from(pairs@, 0) is Some <==> runs_from(pairs@.skip(position as int), start as int) is Some,
            runs_from(pairs@.skip(position as int), start as int) matches Some(rest)
                ==> runs_from(pairs@, 0) == Some(runs@ + rest),
        decreases pairs@.len() - position,
    {
        let ghost rest = pairs@.skip(position as int);
        let ghost before = runs@;
        let header: u8 = pairs[position];
        if header == 0 {
            assert(runs@ + Seq::<Run>::empty() =~= runs@);
            return Some(runs);
        }
        let length_width: usize = (header % 16) as usize;
        let start_width: usize = (header / 16) as usize;
        let left: usize = pairs.len() - position;
        if length_width == 0 || length_width > 8 || start_width > 8 || left < 1 + length_width
            + start_width {
            return None;
        }
        let at: usize = position + 1;
        let length: u64 = unsigned(&pairs[at..at + length_width]);
        let size: usize = 1 + length_width + start_width;
        assert(pairs@.subrange(at as int, at + length_width) =~= rest.subrange(1, 1 + length_width));
        assert(rest.skip(size as int) =~= pairs@.skip(position + size));
        if start_width == 0 {
            runs.push(Run { start: None, length });
        } else {
            let delta: i64 = signed(&pairs[at + length_width..at + length_width + start_width]);
            assert(pairs@.subrange(at + length_width, at + length_width + start_width)
                =~= rest.subrange(1 + length_width, size as int));
            start = start.checked_add(delta)?;
            if start < 0 {
                return None;
            }
            runs.push(Run { start: Some(start as u64), length });
        }
        position = position + size;
        assert forall|tail: Seq<Run>| #[trigger] (runs@ + tail) == before + (seq![runs@.last()] + tail) by {
            assert(runs@ + tail =~= before + (seq![runs@.last()] + tail));
        }
    }
    None
}

/// Clusters in `runs`, holes counted too.
pub open spec fn clusters(runs: Seq<Run>) -> nat
    decreases runs.len(),
{
    if runs.len() == 0 {
        0
    } else {
        clusters(runs.drop_last()) + runs.last().length as nat
    }
}

/// Clusters in the `runs` that are not holes: what a stream occupies.
pub open spec fn occupied(runs: Seq<Run>) -> nat
    decreases runs.len(),
{
    if runs.len() == 0 {
        0
    } else {
        occupied(runs.drop_last()) + if runs.last().start is Some {
            runs.last().length as nat
        } else {
            0
        }
    }
}

proof fn lemma_clusters_grow(runs: Seq<Run>, taken: int)
    requires
        0 <= taken <= runs.len(),
    ensures
        clusters(runs.take(taken)) <= clusters(runs),
        occupied(runs.take(taken)) <= occupied(runs),
    decreases runs.len(),
{
    if taken < runs.len() {
        lemma_clusters_grow(runs.drop_last(), taken);
        assert(runs.drop_last().take(taken) =~= runs.take(taken));
    } else {
        assert(runs.take(taken) =~= runs);
    }
}

/// How many clusters `runs` span; `None` if that does not fit in 64 bits.
pub fn count_clusters(runs: &Vec<Run>) -> (count: Option<u64>)
    ensures
        count is Some <==> clusters(runs@) <= u64::MAX,
        count matches Some(count) ==> count == clusters(runs@),
{
    let mut count: u64 = 0;
    let mut at: usize = 0;
    while at < runs.len()
        invariant
            at <= runs@.len(),
            count == clusters(runs@.take(at as int)),
        decreases runs@.len() - at,
    {
        proof {
            assert(runs@.take(at + 1).drop_last() =~= runs@.take(at as int));
            assert(runs@.take(at + 1).last() == runs@[at as int]);
            lemma_clusters_grow(runs@, at + 1);
        }
        count = count.checked_add(runs[at].length)?;
        at = at + 1;
    }
    assert(runs@.take(at as int) =~= runs@);
    Some(count)
}

/// How many clusters of `runs` are not holes; `None` if that does not fit in
/// 64 bits.
pub fn count_occupied(runs: &Vec<Run>) -> (count: Option<u64>)
    ensures
        count is Some <==> occupied(runs@) <= u64::MAX,
        count matches Some(count) ==> count == occupied(runs@),
{
    let mut count: u64 = 0;
    let mut at: usize = 0;
    while at < runs.len()
        invariant
            at <= runs@.len(),
            count == occupied(runs@.take(at as int)),
        decreases runs@.len() - at,
    {
        proof {
            assert(runs@.take(at + 1).drop_last() =~= runs@.take(at as int));
            assert(runs@.take(at + 1).last() == runs@[at as int]);
            lemma_clusters_grow(runs@, at + 1);
        }
        if runs[at].start.is_some() {
            count = count.checked_add(runs[at].length)?;
        }
        at = at + 1;
    }
    assert(runs@.take(at as int) =~= runs@);
    Some(count)
}

} // verus!
