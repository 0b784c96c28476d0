//! A picture as a PNG.

use vstd::prelude::*;
use vstd::slice::slice_subrange;

use crate::icon::checksums;
use crate::icon::checksums::{adler32, crc32};

verus! {

/// The four bytes of `value`, the high one first.
pub open spec fn big(value: u32) -> Seq<u8> {
    seq![
        (value / 0x100_0000) as u8,
        (value / 0x1_0000 % 0x100) as u8,
        (value / 0x100 % 0x100) as u8,
        (value % 0x100) as u8,
    ]
}

/// The two bytes of `value`, the low one first.
pub open spec fn little_16(value: u16) -> Seq<u8> {
    seq![(value % 0x100) as u8, (value / 0x100) as u8]
}

/// The four bytes of `value`, the low one first.
pub open spec fn little(value: u32) -> Seq<u8> {
    seq![
        (value % 0x100) as u8,
        (value / 0x100 % 0x100) as u8,
        (value / 0x1_0000 % 0x100) as u8,
        (value / 0x100_0000) as u8,
    ]
}

/// `length` as 32 bits hold it, or else the most they hold.
pub open spec fn counted(length: nat) -> u32 {
    if length <= u32::MAX {
        length as u32
    } else {
        u32::MAX
    }
}

pub fn push_big(out: &mut Vec<u8>, value: u32)
    ensures
        final(out)@ == old(out)@ + big(value),
{
    let ghost before = out@;
    out.push((value / 0x100_0000) as u8);
    out.push((value / 0x1_0000 % 0x100) as u8);
    out.push((value / 0x100 % 0x100) as u8);
    out.push((value % 0x100) as u8);
    assert(out@ =~= before + big(value));
}

pub fn push_little(out: &mut Vec<u8>, value: u32)
    ensures
        final(out)@ == old(out)@ + little(value),
{
    let ghost before = out@;
    out.push((value % 0x100) as u8);
    out.push((value / 0x100 % 0x100) as u8);
    out.push((value / 0x1_0000 % 0x100) as u8);
    out.push((value / 0x100_0000) as u8);
    assert(out@ =~= before + little(value));
}

pub fn push_little_16(out: &mut Vec<u8>, value: u16)
    ensures
        final(out)@ == old(out)@ + little_16(value),
{
    let ghost before = out@;
    out.push((value % 0x100) as u8);
    out.push((value / 0x100) as u8);
    assert(out@ =~= before + little_16(value));
}

/// `length` as 32 bits hold it, or else the most they hold.
pub fn count_bytes(length: usize) -> (count: u32)
    ensures
        count == counted(length as nat),
{
    if length as u64 <= u32::MAX as u64 {
        length as u32
    } else {
        u32::MAX
    }
}

/// The first `count` pixels of `line` in red, green, blue and alpha, which
/// are in blue, green, red and alpha.
pub open spec fn recoloured(line: Seq<u8>, count: nat) -> Seq<u8>
    decreases count,
{
    if count == 0 {
        Seq::empty()
    } else {
        let at = 4 * (count - 1);
        recoloured(line, (count - 1) as nat) + seq![
            line[at + 2],
            line[at + 1],
            line[at],
            line[at + 3],
        ]
    }
}

/// Line `number` of `pixels`, whose lines are `width` pixels.
pub open spec fn line_of(pixels: Seq<u8>, width: int, number: int) -> Seq<u8> {
    pixels.subrange(number * (4 * width), (number + 1) * (4 * width))
}

/// The first `count` lines of `pixels` from the last to the first, each behind
/// a zero, which says that it is not filtered.
pub open spec fn flipped(pixels: Seq<u8>, width: int, count: nat) -> Seq<u8>
    decreases count,
{
    if count == 0 {
        Seq::empty()
    } else {
        seq![0u8] + recoloured(line_of(pixels, width, count - 1), width as nat) + flipped(
            pixels,
            width,
            (count - 1) as nat,
        )
    }
}

/// The bytes of a stored block, at most.
pub const BLOCK: usize = 65_535;

/// A stored block that holds `data`.
pub open spec fn block(data: Seq<u8>, last: bool) -> Seq<u8> {
    let flag: u8 = if last {
        1
    } else {
        0
    };
    seq![flag] + little_16(data.len() as u16) + little_16((0xffff - data.len()) as u16) + data
}

/// `data` in stored blocks.
pub open spec fn blocks(data: Seq<u8>) -> Seq<u8>
    decreases data.len(),
{
    if data.len() == 0 {
        Seq::empty()
    } else if data.len() <= BLOCK {
        block(data, true)
    } else {
        block(data.take(BLOCK as int), false) + blocks(data.skip(BLOCK as int))
    }
}

/// `data` deflated with stored blocks.
pub open spec fn deflated(data: Seq<u8>) -> Seq<u8> {
    seq![0x78u8, 0x01u8] + blocks(data) + big(checksums::adler(data) as u32)
}

/// A chunk of a PNG.
pub open spec fn chunk(kind: Seq<u8>, data: Seq<u8>) -> Seq<u8> {
    big(counted(data.len())) + (kind + data) + big(checksums::crc(kind + data))
}

/// What every PNG starts with.
pub open spec fn signature() -> Seq<u8> {
    seq![0x89u8, 0x50, 0x4e, 0x47, 0x0d, 0x0a, 0x1a, 0x0a]
}

/// What a PNG of `size` pixels a side says of itself: 8-bit RGBA, default
/// compression, filtering and no interlace.
pub open spec fn header(size: u32) -> Seq<u8> {
    big(size) + big(size) + seq![8u8, 6, 0, 0, 0]
}

/// A PNG of a bottom-up BGRA image of `size` pixels a side.
pub open spec fn png_of(size: u32, pixels: Seq<u8>) -> Seq<u8> {
    let lines = pixels.len() / (4 * size) as nat;
    signature() + chunk(seq![0x49u8, 0x48, 0x44, 0x52], header(size)) + chunk(
        seq![0x49u8, 0x44, 0x41, 0x54],
        deflated(flipped(pixels, size as int, lines)),
    ) + chunk(seq![0x49u8, 0x45, 0x4e, 0x44], Seq::empty())
}

fn push_recoloured(out: &mut Vec<u8>, line: &[u8], width: usize)
    requires
        4 * width == line@.len(),
    ensures
        final(out)@ == old(out)@ + recoloured(line@, width as nat),
{
    let ghost before = out@;
    let length: usize = line.len();
    let mut done: usize = 0;
    assert(out@ =~= before + recoloured(line@, 0));
    while done < width
        invariant
            done <= width,
            4 * width == length == line@.len(),
            before == old(out)@,
            out@ == before + recoloured(line@, done as nat),
        decreases width - done,
    {
        let at: usize = 4 * done;
        out.push(line[at + 2]);
        out.push(line[at + 1]);
        out.push(line[at]);
        out.push(line[at + 3]);
        assert(out@ =~= before + recoloured(line@, (done + 1) as nat));
        done = done + 1;
    }
}

/// The lines of `pixels` from the last to the first, each behind a zero.
fn flip(pixels: &[u8], width: usize, lines: usize) -> (raw: Vec<u8>)
    requires
        0 < width,
        4 * width <= usize::MAX,
        lines * (4 * width) <= pixels@.len(),
    ensures
        raw@ == flipped(pixels@, width as int, lines as nat),
{
    let row: usize = 4 * width;
    let length: usize = pixels.len();
    let mut raw: Vec<u8> = Vec::new();
    let mut left: usize = lines;
    let ghost all = flipped(pixels@, width as int, lines as nat);
    assert(raw@ + all =~= all);
    while left > 0
        invariant
            left <= lines,
            row == 4 * width,
            0 < width,
            length == pixels@.len(),
            lines * row <= length,
            all == flipped(pixels@, width as int, lines as nat),
            raw@ + flipped(pixels@, width as int, left as nat) == all,
        decreases left,
    {
        assert((left - 1) * row + row == left * row && left * row <= lines * row && (left - 1) * row
            >= 0) by (nonlinear_arith)
            requires
                1 <= left <= lines,
                row >= 0,
        ;
        let start: usize = (left - 1) * row;
        let line = slice_subrange(pixels, start, start + row);
        assert(line@ =~= line_of(pixels@, width as int, left - 1));
        let ghost before = raw@;
        raw.push(0);
        push_recoloured(&mut raw, line, width);
        assert(before + flipped(pixels@, width as int, left as nat) =~= raw@ + flipped(
            pixels@,
            width as int,
            (left - 1) as nat,
        ));
        left = left - 1;
    }
    assert(raw@ + flipped(pixels@, width as int, 0) =~= raw@);
    raw
}

fn push_block(out: &mut Vec<u8>, data: &[u8], last: bool)
    requires
        data@.len() <= BLOCK,
    ensures
        final(out)@ == old(out)@ + block(data@, last),
{
    let ghost before = out@;
    let flag: u8 = if last {
        1
    } else {
        0
    };
    out.push(flag);
    let length: u16 = data.len() as u16;
    push_little_16(out, length);
    push_little_16(out, 0xffff - length);
    out.extend_from_slice(data);
    assert(out@ =~= before + block(data@, last));
}

/// `data` deflated with stored blocks — larger than compressed, but with no
/// library to add.
fn deflate(data: &Vec<u8>) -> (out: Vec<u8>)
    ensures
        out@ == deflated(data@),
{
    let mut out: Vec<u8> = Vec::new();
    out.push(0x78);
    out.push(0x01);
    let ghost start = out@;
    assert(start =~= seq![0x78u8, 0x01u8]);
    let length: usize = data.len();
    let mut at: usize = 0;
    assert(data@.skip(0) =~= data@);
    while at < length
        invariant
            at <= length,
            length == data@.len(),
            out@ + blocks(data@.skip(at as int)) == start + blocks(data@),
        decreases length - at,
    {
        let ghost before = out@;
        let ghost rest = data@.skip(at as int);
        if length - at <= BLOCK {
            let part = slice_subrange(data.as_slice(), at, length);
            assert(part@ =~= rest);
            push_block(&mut out, part, true);
            at = length;
            assert(data@.skip(at as int) =~= Seq::empty());
            assert(before + blocks(rest) =~= out@ + blocks(data@.skip(at as int)));
        } else {
            let part = slice_subrange(data.as_slice(), at, at + BLOCK);
            assert(part@ =~= rest.take(BLOCK as int));
            push_block(&mut out, part, false);
            at = at + BLOCK;
            assert(rest.skip(BLOCK as int) =~= data@.skip(at as int));
            assert(before + blocks(rest) =~= out@ + blocks(data@.skip(at as int)));
        }
    }
    assert(data@.skip(at as int) =~= Seq::empty());
    assert(out@ + blocks(data@.skip(at as int)) =~= out@);
    push_big(&mut out, adler32(data.as_slice()));
    out
}

fn push_chunk(out: &mut Vec<u8>, kind: &[u8], data: &[u8])
    ensures
        final(out)@ == old(out)@ + chunk(kind@, data@),
{
    let ghost before = out@;
    push_big(out, count_bytes(data.len()));
    let mut body: Vec<u8> = Vec::new();
    body.extend_from_slice(kind);
    body.extend_from_slice(data);
    assert(body@ =~= kind@ + data@);
    out.extend_from_slice(body.as_slice());
    push_big(out, crc32(body.as_slice()));
    assert(out@ =~= before + chunk(kind@, data@));
}

/// A PNG of a bottom-up BGRA image: RGBA rows top first, deflated with
/// stored blocks.
pub fn png(size: u32, pixels: &[u8]) -> (out: Vec<u8>)
    requires
        0 < size,
        4 * size <= u32::MAX,
    ensures
        out@ == png_of(size, pixels@),
{
    let width: usize = size as usize;
    let row: usize = 4 * width;
    let lines: usize = pixels.len() / row;
    assert(lines * row <= pixels@.len()) by (nonlinear_arith)
        requires
            lines == pixels@.len() / row as nat,
            row > 0,
    ;
    let raw = flip(pixels, width, lines);
    let zlib = deflate(&raw);
    let mut head: Vec<u8> = Vec::new();
    push_big(&mut head, size);
    push_big(&mut head, size);
    head.extend_from_slice(&[8, 6, 0, 0, 0]);
    assert(head@ =~= header(size));
    let mut out: Vec<u8> = Vec::new();
    out.extend_from_slice(&[0x89, 0x50, 0x4e, 0x47, 0x0d, 0x0a, 0x1a, 0x0a]);
    assert(out@ =~= signature());
    push_chunk(&mut out, &[0x49, 0x48, 0x44, 0x52], head.as_slice());
    push_chunk(&mut out, &[0x49, 0x44, 0x41, 0x54], zlib.as_slice());
    let none: Vec<u8> = Vec::new();
    push_chunk(&mut out, &[0x49, 0x45, 0x4e, 0x44], none.as_slice());
    proof {
        assert(none@ =~= Seq::empty());
    }
    out
}

} // verus!
