//! Where everything in an `.ico` stands.

use vstd::prelude::*;

use crate::bytes;
use crate::icon::ico;
use crate::icon::png;

verus! {

/// How long the file `out` says that its picture `number` is.
pub open spec fn said_length(out: Seq<u8>, number: int) -> nat {
    bytes::le_at(out, 14 + 16 * number, 4)
}

/// Where the file `out` says that its picture `number` starts.
pub open spec fn said_offset(out: Seq<u8>, number: int) -> nat {
    bytes::le_at(out, 18 + 16 * number, 4)
}

/// How long the file `out` says that its first `count` pictures are together.
pub open spec fn said_lengths(out: Seq<u8>, count: nat) -> nat
    decreases count,
{
    if count == 0 {
        0
    } else {
        said_lengths(out, (count - 1) as nat) + said_length(out, count - 1)
    }
}

/// Whether picture `number` of `out`, which holds `images`, stands behind the
/// directory and the pictures before it, and is listed with its size, its
/// length and that place.
pub open spec fn well_placed(out: Seq<u8>, images: Seq<(u32, Seq<u8>)>, number: int) -> bool {
    let (size, pixels) = images[number];
    let (start, length) = (said_offset(out, number) as int, said_length(out, number) as int);
    let side: u8 = if size <= 255 {
        size as u8
    } else {
        0
    };
    &&& start == 6 + 16 * images.len() + said_lengths(out, number as nat)
    &&& start + length <= out.len()
    &&& out.subrange(start, start + length) == ico::packed(size, pixels)
    &&& out[6 + 16 * number] == side
    &&& out[7 + 16 * number] == side
}

/// The bytes of a number are the number's.
proof fn lemma_little(value: u32)
    ensures
        bytes::le(png::little(value)) == value,
{
    let all = png::little(value);
    reveal_with_fuel(bytes::le, 5);
    assert(all.drop_first().drop_first().drop_first().drop_first().len() == 0);
}

proof fn lemma_little_16(value: u16)
    ensures
        bytes::le(png::little_16(value)) == value,
{
    let all = png::little_16(value);
    reveal_with_fuel(bytes::le, 3);
    assert(all.drop_first().drop_first().len() == 0);
}

/// What stands where in a picture's entry.
proof fn lemma_entry(size: u32, length: u32, offset: u32)
    ensures
        ({
            let all = ico::entry(size, length, offset);
            &&& all.len() == 16
            &&& all.subrange(8, 12) == png::little(length)
            &&& all.subrange(12, 16) == png::little(offset)
            &&& all[0] == all[1]
            &&& all[0] == (if size <= 255 {
                size as u8
            } else {
                0
            })
        }),
{
    let all = ico::entry(size, length, offset);
    assert(all.subrange(8, 12) =~= png::little(length));
    assert(all.subrange(12, 16) =~= png::little(offset));
}

/// What an entry that stands at `at` says.
proof fn lemma_entry_at(out: Seq<u8>, at: int, size: u32, length: u32, offset: u32)
    requires
        0 <= at <= at + 16 <= out.len(),
        out.subrange(at, at + 16) == ico::entry(size, length, offset),
    ensures
        bytes::le_at(out, at + 8, 4) == length,
        bytes::le_at(out, at + 12, 4) == offset,
        out[at] == out[at + 1],
        out[at] == (if size <= 255 {
            size as u8
        } else {
            0
        }),
{
    lemma_entry(size, length, offset);
    lemma_little(length);
    lemma_little(offset);
    let listed = out.subrange(at, at + 16);
    assert(out.subrange(at + 8, at + 12) =~= listed.subrange(8, 12));
    assert(out.subrange(at + 12, at + 16) =~= listed.subrange(12, 16));
    assert(out[at] == listed[0]);
    assert(out[at + 1] == listed[1]);
}

proof fn lemma_said(images: Seq<(u32, Seq<u8>)>, out: Seq<u8>, number: int)
    requires
        ico::packable(images),
        0 <= number < images.len() <= u16::MAX,
        out == ico::ico_of(images),
    ensures
        ({
            let (size, pixels) = images[number];
            &&& said_length(out, number) == ico::packed(size, pixels).len()
            &&& said_offset(out, number) == ico::offset_after(images, number as nat)
            &&& out[6 + 16 * number] == out[7 + 16 * number]
            &&& out[6 + 16 * number] == (if size <= 255 {
                size as u8
            } else {
                0
            })
        }),
{
    let (size, pixels) = images[number];
    let length = ico::packed(size, pixels).len();
    let offset = ico::offset_after(images, number as nat);
    ico::lemma_pictures_where_listed(images, number);
    ico::lemma_offset_after(images, number as nat);
    lemma_entry_at(out, 6 + 16 * number, size, length as u32, offset as u32);
}

proof fn lemma_said_lengths(images: Seq<(u32, Seq<u8>)>, count: nat)
    requires
        ico::packable(images),
        count <= images.len() <= u16::MAX,
    ensures
        said_lengths(ico::ico_of(images), count) + 6 + 16 * images.len() == ico::offset_after(
            images,
            count,
        ),
    decreases count,
{
    if count > 0 {
        lemma_said_lengths(images, (count - 1) as nat);
        lemma_said(images, ico::ico_of(images), count - 1);
        ico::lemma_pictures_where_listed(images, count - 1);
    }
}

/// The whole of an `.ico`: its mark and the number of its pictures, an entry
/// for each picture with its size, its length and where it starts, and then the
/// pictures one after the other, with nothing between them or behind.
pub proof fn lemma_layout(images: Seq<(u32, Seq<u8>)>)
    requires
        ico::packable(images),
        images.len() <= u16::MAX,
    ensures
        ({
            let out = ico::ico_of(images);
            &&& out.take(4) == seq![0u8, 0u8, 1u8, 0u8]
            &&& bytes::le_at(out, 4, 2) == images.len()
            &&& out.len() == 6 + 16 * images.len() + said_lengths(out, images.len())
            &&& forall|number: int|
                0 <= number < images.len() ==> #[trigger] well_placed(out, images, number)
        }),
{
    let out = ico::ico_of(images);
    let count = images.len();
    let mark = png::little_16(count as u16);
    assert(out.take(4) =~= seq![0u8, 0u8, 1u8, 0u8]);
    assert(out.subrange(4, 6) =~= mark);
    lemma_little_16(count as u16);
    lemma_said_lengths(images, count);
    ico::lemma_length(images);
    assert forall|number: int| 0 <= number < count implies #[trigger] well_placed(
        out,
        images,
        number,
    ) by {
        lemma_said(images, out, number);
        lemma_said_lengths(images, number as nat);
        ico::lemma_pictures_where_listed(images, number);
    }
}

} // verus!
