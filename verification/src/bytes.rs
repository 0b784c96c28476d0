//! Little-endian numbers in byte sequences.

use vstd::prelude::*;

verus! {

/// The number whose little-endian bytes are `bytes`.
pub open spec fn le(bytes: Seq<u8>) -> nat
    decreases bytes.len(),
{
    if bytes.len() == 0 {
        0
    } else {
        bytes[0] as nat + 256 * le(bytes.drop_first())
    }
}

/// `256` to the power `count`: one more than the largest number of `count` bytes.
pub open spec fn span(count: nat) -> nat
    decreases count,
{
    if count == 0 {
        1
    } else {
        256 * span((count - 1) as nat)
    }
}

/// The `count`-byte little-endian number at offset `at` of `bytes`.
pub open spec fn le_at(bytes: Seq<u8>, at: int, count: int) -> nat {
    le(bytes.subrange(at, at + count))
}

/// The number whose little-endian two's-complement bytes are `bytes`.
pub open spec fn le_signed(bytes: Seq<u8>) -> int {
    if bytes.len() > 0 && bytes.last() >= 0x80 {
        le(bytes) - span(bytes.len())
    } else {
        le(bytes) as int
    }
}

/// A number of `count` bytes is below `span(count)`.
pub proof fn lemma_le_bound(bytes: Seq<u8>)
    ensures
        le(bytes) < span(bytes.len()),
    decreases bytes.len(),
{
    if bytes.len() > 0 {
        lemma_le_bound(bytes.drop_first());
    }
}

/// The last byte is the most significant: it says which half of the span the number is in.
proof fn lemma_le_top(bytes: Seq<u8>)
    requires
        bytes.len() > 0,
    ensures
        bytes.last() >= 0x80 <==> 2 * le(bytes) >= span(bytes.len()),
    decreases bytes.len(),
{
    lemma_span_values();
    if bytes.len() == 1 {
        assert(le(bytes.drop_first()) == 0);
    } else {
        let rest = bytes.drop_first();
        lemma_le_top(rest);
        assert(rest.last() == bytes.last());
        lemma_span_even(rest.len());
        assert(le(bytes) == bytes[0] as nat + 256 * le(rest));
        assert(span(bytes.len()) == 256 * span(rest.len()));
    }
}

proof fn lemma_span_even(count: nat)
    requires
        count > 0,
    ensures
        span(count) % 2 == 0,
{
    assert(span(count) == 256 * span((count - 1) as nat));
}

/// The spans of the widths that are read here.
pub proof fn lemma_span_values()
    ensures
        span(0) == 1,
        span(1) == 0x100,
        span(2) == 0x1_0000,
        span(3) == 0x100_0000,
        span(4) == 0x1_0000_0000,
        span(5) == 0x100_0000_0000,
        span(6) == 0x1_0000_0000_0000,
        span(7) == 0x100_0000_0000_0000,
        span(8) == 0x1_0000_0000_0000_0000,
{
    reveal_with_fuel(span, 9);
}

proof fn lemma_span_grows(fewer: nat, more: nat)
    requires
        fewer <= more,
    ensures
        span(fewer) <= span(more),
    decreases more - fewer,
{
    if fewer < more {
        lemma_span_grows(fewer, (more - 1) as nat);
        assert(span(more) == 256 * span((more - 1) as nat));
    }
}

/// The number in the low `bytes`, at most eight of them.
pub fn unsigned(bytes: &[u8]) -> (value: u64)
    requires
        bytes@.len() <= 8,
    ensures
        value == le(bytes@),
{
    let mut at: usize = bytes.len();
    let mut value: u64 = 0;
    while at > 0
        invariant
            at <= bytes@.len() <= 8,
            value == le(bytes@.skip(at as int)),
        decreases at,
    {
        at = at - 1;
        proof {
            let rest = bytes@.skip(at + 1);
            assert(bytes@.skip(at as int).drop_first() =~= rest);
            lemma_le_bound(rest);
            lemma_span_grows(rest.len(), 7);
            lemma_span_values();
        }
        value = value * 256 + bytes[at] as u64;
    }
    assert(bytes@.skip(0) =~= bytes@);
    value
}

/// The two's-complement number in the low `bytes`, one to eight of them.
pub fn signed(bytes: &[u8]) -> (value: i64)
    requires
        1 <= bytes@.len() <= 8,
    ensures
        value == le_signed(bytes@),
{
    let raw: u64 = unsigned(bytes);
    let count: usize = bytes.len();
    proof {
        lemma_le_bound(bytes@);
        lemma_le_top(bytes@);
        lemma_span_values();
        lemma_span_grows(bytes@.len(), 8);
    }
    let mut wide: i128 = 1;
    let mut done: usize = 0;
    while done < count
        invariant
            done <= count <= 8,
            wide == span(done as nat),
        decreases count - done,
    {
        proof {
            lemma_span_values();
            lemma_span_grows(done as nat, 7);
        }
        wide = wide * 256;
        done = done + 1;
    }
    if bytes[count - 1] >= 0x80 {
        (raw as i128 - wide) as i64
    } else {
        raw as i64
    }
}

/// The two bytes at `at`, little-endian, if they are there.
pub fn read_u16(bytes: &[u8], at: usize) -> (value: Option<u16>)
    ensures
        value is Some <==> at + 2 <= bytes@.len(),
        value matches Some(value) ==> value == le_at(bytes@, at as int, 2),
{
    let length: usize = bytes.len();
    if at > length || length - at < 2 {
        return None;
    }
    proof {
        lemma_le_bound(bytes@.subrange(at as int, at + 2));
        lemma_span_values();
    }
    Some(unsigned(&bytes[at..at + 2]) as u16)
}

/// The four bytes at `at`, little-endian, if they are there.
pub fn read_u32(bytes: &[u8], at: usize) -> (value: Option<u32>)
    ensures
        value is Some <==> at + 4 <= bytes@.len(),
        value matches Some(value) ==> value == le_at(bytes@, at as int, 4),
{
    let length: usize = bytes.len();
    if at > length || length - at < 4 {
        return None;
    }
    proof {
        lemma_le_bound(bytes@.subrange(at as int, at + 4));
        lemma_span_values();
    }
    Some(unsigned(&bytes[at..at + 4]) as u32)
}

/// The eight bytes at `at`, little-endian, if they are there.
pub fn read_u64(bytes: &[u8], at: usize) -> (value: Option<u64>)
    ensures
        value is Some <==> at + 8 <= bytes@.len(),
        value matches Some(value) ==> value == le_at(bytes@, at as int, 8),
{
    let length: usize = bytes.len();
    if at > length || length - at < 8 {
        return None;
    }
    Some(unsigned(&bytes[at..at + 8]))
}

} // verus!
