//! Pictures as an `.ico`.

use vstd::prelude::*;

use crate::icon::png;
use crate::icon::png::{count_bytes, push_little, push_little_16};

verus! {

/// The bytes of a row of a mask that is `size` pixels wide, in fours.
pub open spec fn mask_row(size: nat) -> nat {
    (size + 31) / 32 * 4
}

/// A 32-bit DIB of an image of `size` pixels a side, with its mask. The
/// height covers both.
pub open spec fn dib_of(size: u32, pixels: Seq<u8>) -> Seq<u8> {
    png::little(40) + png::little(size) + png::little((2 * size) as u32) + png::little_16(1)
        + png::little_16(32) + Seq::new(24, |i: int| 0u8) + pixels + Seq::new(
        mask_row(size as nat) * size as nat,
        |i: int| 0u8,
    )
}

/// Whether a DIB of `size` pixels a side can be made.
pub open spec fn dib_fits(size: u32) -> bool {
    2 * size <= u32::MAX && mask_row(size as nat) * size as nat <= u32::MAX
}

/// A 32-bit DIB of an image of `size` pixels a side, with its (all-opaque,
/// since alpha rules) mask.
pub fn dib(size: u32, pixels: &[u8]) -> (out: Vec<u8>)
    requires
        dib_fits(size),
    ensures
        out@ == dib_of(size, pixels@),
{
    // Each mask row is padded to four bytes.
    let wide: u32 = if size % 32 == 0 {
        size / 32 * 4
    } else {
        (size / 32 + 1) * 4
    };
    assert(wide == mask_row(size as nat));
    assert(wide * size >= 0) by (nonlinear_arith)
        requires
            wide >= 0,
            size >= 0,
    ;
    let mask: u32 = wide * size;
    let mut out: Vec<u8> = Vec::new();
    push_little(&mut out, 40);
    push_little(&mut out, size);
    // The height covers the image and its mask.
    push_little(&mut out, size * 2);
    push_little_16(&mut out, 1);
    push_little_16(&mut out, 32);
    let ghost head = out@;
    assert(head =~= png::little(40) + png::little(size) + png::little((2 * size) as u32)
        + png::little_16(1) + png::little_16(32));
    push_zeros(&mut out, 24);
    out.extend_from_slice(pixels);
    push_zeros(&mut out, mask as usize);
    out
}

fn push_zeros(out: &mut Vec<u8>, count: usize)
    ensures
        final(out)@ == old(out)@ + Seq::new(count as nat, |i: int| 0u8),
{
    let ghost before = out@;
    let mut done: usize = 0;
    while done < count
        invariant
            done <= count,
            before == old(out)@,
            out@ == before + Seq::new(done as nat, |i: int| 0u8),
        decreases count - done,
    {
        out.push(0);
        done = done + 1;
        assert(out@ =~= before + Seq::new(done as nat, |i: int| 0u8));
    }
    assert(out@ =~= before + Seq::new(count as nat, |i: int| 0u8));
}

/// A picture as it stands in an `.ico`: the 256 px image is stored as PNG, as
/// Windows expects since Vista; the small ones as plain DIBs, which every
/// loader reads.
pub open spec fn packed(size: u32, pixels: Seq<u8>) -> Seq<u8> {
    if size >= 256 {
        png::png_of(size, pixels)
    } else {
        dib_of(size, pixels)
    }
}

/// The pictures, one after the other.
pub open spec fn all_packed(images: Seq<(u32, Seq<u8>)>, count: nat) -> Seq<u8>
    decreases count,
{
    if count == 0 {
        Seq::empty()
    } else {
        let (size, pixels) = images[count - 1];
        all_packed(images, (count - 1) as nat) + packed(size, pixels)
    }
}

/// Where the picture behind the first `count` starts.
pub open spec fn offset_after(images: Seq<(u32, Seq<u8>)>, count: nat) -> nat
    decreases count,
{
    if count == 0 {
        6 + 16 * listed(images.len())
    } else {
        let (size, pixels) = images[count - 1];
        offset_after(images, (count - 1) as nat) + png::counted(packed(size, pixels).len()) as nat
    }
}

/// How many pictures an `.ico` says it holds.
pub open spec fn listed(count: nat) -> nat {
    if count <= u16::MAX {
        count
    } else {
        u16::MAX as nat
    }
}

/// How an `.ico` lists a picture of `size` pixels a side that is `length`
/// bytes from `offset` on. A width or height of 256 is written as 0.
pub open spec fn entry(size: u32, length: u32, offset: u32) -> Seq<u8> {
    let side: u8 = if size <= 255 {
        size as u8
    } else {
        0
    };
    seq![side, side, 0u8, 0u8] + png::little_16(1) + png::little_16(32) + png::little(length)
        + png::little(offset)
}

/// How an `.ico` lists the first `count` pictures.
pub open spec fn directory(images: Seq<(u32, Seq<u8>)>, count: nat) -> Seq<u8>
    decreases count,
{
    if count == 0 {
        Seq::empty()
    } else {
        let (size, pixels) = images[count - 1];
        directory(images, (count - 1) as nat) + entry(
            size,
            png::counted(packed(size, pixels).len()),
            offset_after(images, (count - 1) as nat) as u32,
        )
    }
}

/// `images` as an `.ico`: a directory, then each image.
pub open spec fn ico_of(images: Seq<(u32, Seq<u8>)>) -> Seq<u8> {
    seq![0u8, 0u8, 1u8, 0u8] + png::little_16(listed(images.len()) as u16) + directory(
        images,
        images.len(),
    ) + all_packed(images, images.len())
}

/// Pictures and their pixels.
pub open spec fn pictures(images: Seq<(u32, Vec<u8>)>) -> Seq<(u32, Seq<u8>)> {
    images.map_values(|image: (u32, Vec<u8>)| (image.0, image.1@))
}

/// Whether `images` can be packed: each picture can be made, and 32 bits hold
/// where the last one ends.
pub open spec fn packable(images: Seq<(u32, Seq<u8>)>) -> bool {
    &&& offset_after(images, images.len()) <= u32::MAX
    &&& forall|i: int| 0 <= i < images.len() ==> 4 * (#[trigger] images[i]).0 <= u32::MAX
}

proof fn lemma_offset_grows(images: Seq<(u32, Seq<u8>)>, few: nat, count: nat)
    requires
        few <= count <= images.len(),
    ensures
        offset_after(images, few) <= offset_after(images, count),
    decreases count,
{
    if few < count {
        lemma_offset_grows(images, few, (count - 1) as nat);
    }
}

fn pack(size: u32, pixels: &[u8]) -> (data: Vec<u8>)
    requires
        4 * size <= u32::MAX,
    ensures
        data@ == packed(size, pixels@),
{
    if size >= 256 {
        png::png(size, pixels)
    } else {
        proof {
            let wide = mask_row(size as nat);
            assert(wide <= 32);
            assert(wide * size as nat <= 32 * 256) by (nonlinear_arith)
                requires
                    wide <= 32,
                    size < 256,
            ;
        }
        dib(size, pixels)
    }
}

/// Whether `images` can be packed into an `.ico`: 32 bits hold the bytes of
/// each row, and where the last one ends.
pub fn can_pack(images: &Vec<(u32, Vec<u8>)>) -> (can: bool)
    ensures
        can == packable(pictures(images@)),
{
    let ghost all = pictures(images@);
    let listed: u64 = if images.len() <= 0xffff {
        images.len() as u64
    } else {
        0xffff
    };
    let mut offset: u64 = 6 + 16 * listed;
    let mut done: usize = 0;
    while done < images.len()
        invariant
            done <= images@.len(),
            all == pictures(images@),
            offset == offset_after(all, done as nat),
            offset <= u32::MAX,
            forall|i: int| 0 <= i < done ==> 4 * (#[trigger] all[i]).0 <= u32::MAX,
        decreases images@.len() - done,
    {
        let size: u32 = images[done].0;
        assert(all[done as int] == (size, images@[done as int].1@));
        if size > u32::MAX / 4 {
            return false;
        }
        let data = pack(size, images[done].1.as_slice());
        offset = offset + count_bytes(data.len()) as u64;
        proof {
            lemma_offset_grows(all, (done + 1) as nat, all.len());
        }
        if offset > u32::MAX as u64 {
            return false;
        }
        done = done + 1;
    }
    true
}

/// Pack images into an `.ico`: a directory, then each image as a 32-bit
/// DIB with its mask, or as a PNG.
pub fn ico(images: &Vec<(u32, Vec<u8>)>) -> (out: Vec<u8>)
    requires
        packable(pictures(images@)),
    ensures
        out@ == ico_of(pictures(images@)),
{
    let ghost all = pictures(images@);
    let mut out: Vec<u8> = Vec::new();
    let count: u16 = if images.len() <= 0xffff {
        images.len() as u16
    } else {
        0xffff
    };
    out.extend_from_slice(&[0, 0, 1, 0]);
    push_little_16(&mut out, count);
    let ghost start = out@;
    assert(start =~= seq![0u8, 0u8, 1u8, 0u8] + png::little_16(listed(all.len()) as u16));
    let mut entries: Vec<Vec<u8>> = Vec::new();
    let mut offset: u32 = 6 + 16 * count as u32;
    let mut done: usize = 0;
    assert(out@ =~= start + directory(all, 0));
    while done < images.len()
        invariant
            done <= images@.len(),
            all == pictures(images@),
            packable(all),
            out@ == start + directory(all, done as nat),
            offset == offset_after(all, done as nat),
            entries@.len() == done,
            forall|i: int|
                0 <= i < done ==> (#[trigger] entries@[i])@ == packed(all[i].0, all[i].1),
        decreases images@.len() - done,
    {
        let size: u32 = images[done].0;
        let ghost before = out@;
        proof {
            assert(all[done as int] == (size, images@[done as int].1@));
            lemma_offset_grows(all, (done + 1) as nat, all.len());
        }
        let data = pack(size, images[done].1.as_slice());
        // A width or height of 256 is written as 0.
        let side: u8 = if size <= 255 {
            size as u8
        } else {
            0
        };
        let length: u32 = count_bytes(data.len());
        out.extend_from_slice(&[side, side, 0, 0]);
        push_little_16(&mut out, 1);
        push_little_16(&mut out, 32);
        push_little(&mut out, length);
        push_little(&mut out, offset);
        assert(out@ =~= before + entry(size, length, offset));
        assert(out@ =~= start + directory(all, (done + 1) as nat));
        offset = offset + length;
        entries.push(data);
        done = done + 1;
    }
    let ghost head = out@;
    let mut next: usize = 0;
    assert(out@ =~= head + all_packed(all, 0));
    while next < entries.len()
        invariant
            next <= entries@.len(),
            entries@.len() == all.len(),
            out@ == head + all_packed(all, next as nat),
            forall|i: int|
                0 <= i < all.len() ==> (#[trigger] entries@[i])@ == packed(all[i].0, all[i].1),
        decreases entries@.len() - next,
    {
        out.extend_from_slice(entries[next].as_slice());
        assert(out@ =~= head + all_packed(all, (next + 1) as nat));
        next = next + 1;
    }
    out
}

proof fn lemma_directory(images: Seq<(u32, Seq<u8>)>, count: nat, number: int)
    requires
        0 <= number < count <= images.len(),
    ensures
        directory(images, count).len() == 16 * count,
        ({
            let (size, pixels) = images[number];
            directory(images, count).subrange(16 * number, 16 * number + 16) == entry(
                size,
                png::counted(packed(size, pixels).len()),
                offset_after(images, number as nat) as u32,
            )
        }),
    decreases count,
{
    let few = (count - 1) as nat;
    let before = directory(images, few);
    let all = directory(images, count);
    if few == 0 {
        assert(before.len() == 0);
    } else if number < few {
        lemma_directory(images, few, number);
        assert(all.subrange(16 * number, 16 * number + 16) =~= before.subrange(
            16 * number,
            16 * number + 16,
        ));
    } else {
        lemma_directory(images, few, 0);
    }
    if number == few {
        let (size, pixels) = images[number];
        let last = entry(
            size,
            png::counted(packed(size, pixels).len()),
            offset_after(images, few) as u32,
        );
        assert(all.subrange(16 * number, 16 * number + 16) =~= last);
    }
}

proof fn lemma_all_packed(images: Seq<(u32, Seq<u8>)>, count: nat, number: int)
    requires
        0 <= number < count <= images.len() <= u16::MAX,
        packable(images),
    ensures
        all_packed(images, count).len() == offset_after(images, count) - 6 - 16 * images.len(),
        ({
            let (size, pixels) = images[number];
            let start = offset_after(images, number as nat) - 6 - 16 * images.len();
            &&& 0 <= start
            &&& start + packed(size, pixels).len() <= all_packed(images, count).len()
            &&& all_packed(images, count).subrange(start, start + packed(size, pixels).len())
                == packed(size, pixels)
        }),
    decreases count,
{
    let few = (count - 1) as nat;
    let before = all_packed(images, few);
    let all = all_packed(images, count);
    lemma_offset_grows(images, count, images.len());
    if few > 0 {
        lemma_all_packed(images, few, if number < few {
            number
        } else {
            0
        });
    }
    let (size, pixels) = images[number];
    let data = packed(size, pixels);
    let start = offset_after(images, number as nat) - 6 - 16 * images.len();
    if number < few {
        assert(all.subrange(start, start + data.len()) =~= before.subrange(
            start,
            start + data.len(),
        ));
    } else {
        assert(all.subrange(start, start + data.len()) =~= data);
    }
}

/// What stands in the second and third of three parts.
proof fn lemma_three_parts(
    head: Seq<u8>,
    listing: Seq<u8>,
    body: Seq<u8>,
    from: int,
    to: int,
    low: int,
    high: int,
)
    requires
        0 <= from <= to <= listing.len(),
        0 <= low <= high <= body.len(),
    ensures
        ({
            let all = head + listing + body;
            let (first, second) = (head.len() as int, (head.len() + listing.len()) as int);
            &&& all.len() == head.len() + listing.len() + body.len()
            &&& all.subrange(first + from, first + to) == listing.subrange(from, to)
            &&& all.subrange(second + low, second + high) == body.subrange(low, high)
        }),
{
    let all = head + listing + body;
    let (first, second) = (head.len() as int, (head.len() + listing.len()) as int);
    assert(all.subrange(first + from, first + to) =~= listing.subrange(from, to));
    assert(all.subrange(second + low, second + high) =~= body.subrange(low, high));
}

/// Pictures start behind the directory.
pub proof fn lemma_offset_after(images: Seq<(u32, Seq<u8>)>, count: nat)
    requires
        count <= images.len(),
    ensures
        offset_after(images, count) >= 6 + 16 * listed(images.len()),
{
    lemma_offset_grows(images, 0, count);
}

/// An `.ico` ends where its last picture does.
pub proof fn lemma_length(images: Seq<(u32, Seq<u8>)>)
    requires
        packable(images),
        images.len() <= u16::MAX,
    ensures
        ico_of(images).len() == offset_after(images, images.len()),
{
    if images.len() > 0 {
        lemma_directory(images, images.len(), 0);
        lemma_all_packed(images, images.len(), 0);
    }
}

/// Every picture stands where the directory of an `.ico` says, and is as long
/// as it says.
pub proof fn lemma_pictures_where_listed(images: Seq<(u32, Seq<u8>)>, number: int)
    requires
        packable(images),
        0 <= number < images.len() <= u16::MAX,
    ensures
        ({
            let (size, pixels) = images[number];
            let data = packed(size, pixels);
            let offset = offset_after(images, number as nat);
            let out = ico_of(images);
            &&& data.len() <= u32::MAX
            &&& offset + data.len() <= out.len() <= u32::MAX
            &&& out.subrange(6 + 16 * number, 22 + 16 * number) == entry(
                size,
                data.len() as u32,
                offset as u32,
            )
            &&& out.subrange(offset as int, (offset + data.len()) as int) == data
        }),
{
    let count = images.len();
    let (size, pixels) = images[number];
    let data = packed(size, pixels);
    let offset = offset_after(images, number as nat) as int;
    let out = ico_of(images);
    lemma_directory(images, count, number);
    lemma_all_packed(images, count, number);
    lemma_offset_grows(images, (number + 1) as nat, count);
    let head = seq![0u8, 0u8, 1u8, 0u8] + png::little_16(listed(count) as u16);
    let low = offset - 6 - 16 * count;
    lemma_three_parts(
        head,
        directory(images, count),
        all_packed(images, count),
        16 * number,
        16 * number + 16,
        low,
        low + data.len(),
    );
}

} // verus!
