//! What a reader finds in a picture that was packed, and in a mark.

use vstd::prelude::*;

use crate::bytes;
use crate::icon::checksums;
use crate::icon::ico;
use crate::icon::png;
use crate::icon::svg;
use crate::icon::svg::Wrong;
use crate::text;

verus! {

/// A number is read back from its bytes, whichever comes first.
pub proof fn lemma_numbers_read(value: u32, short: u16)
    ensures
        bytes::le(png::little(value)) == value,
        bytes::le(png::little_16(short)) == short,
        bytes::le(png::big(value).reverse()) == value,
{
    let all = png::little(value);
    reveal_with_fuel(bytes::le, 5);
    assert(all.drop_first().drop_first().drop_first().drop_first().len() == 0);
    assert(png::little_16(short).drop_first().drop_first().len() == 0);
    assert(png::big(value).reverse() =~= all);
}

/// Each pixel keeps its place in its line, and its colours change theirs: the
/// first and the third change places.
pub proof fn lemma_pixel(line: Seq<u8>, count: nat, pixel: int)
    requires
        0 <= pixel < count,
        4 * count <= line.len(),
    ensures
        png::recoloured(line, count).len() == 4 * count,
        png::recoloured(line, count)[4 * pixel] == line[4 * pixel + 2],
        png::recoloured(line, count)[4 * pixel + 1] == line[4 * pixel + 1],
        png::recoloured(line, count)[4 * pixel + 2] == line[4 * pixel],
        png::recoloured(line, count)[4 * pixel + 3] == line[4 * pixel + 3],
    decreases count,
{
    let few = (count - 1) as nat;
    if few > 0 {
        lemma_pixel(line, few, if pixel < few { pixel } else { 0 });
    } else {
        assert(png::recoloured(line, 0) =~= Seq::empty());
    }
}

proof fn lemma_recoloured_length(line: Seq<u8>, count: nat)
    ensures
        png::recoloured(line, count).len() == 4 * count,
    decreases count,
{
    if count > 0 {
        lemma_recoloured_length(line, (count - 1) as nat);
    }
}

/// The lines of a picture follow each other from the last to the first, each
/// behind the byte that says it is not filtered.
pub proof fn lemma_last_line_first(pixels: Seq<u8>, width: nat, count: nat, number: int)
    requires
        0 <= number < count,
    ensures
        ({
            let row = (4 * width + 1) as int;
            let start = (count - 1 - number) * row;
            let all = png::flipped(pixels, width as int, count);
            &&& all.len() == count * row
            &&& 0 <= start <= start + row <= all.len()
            &&& all.subrange(start, start + row) == seq![0u8] + png::recoloured(
                png::line_of(pixels, width as int, number),
                width,
            )
        }),
    decreases count,
{
    let row = (4 * width + 1) as int;
    let few = (count - 1) as nat;
    let line = png::recoloured(png::line_of(pixels, width as int, few as int), width);
    let first = seq![0u8] + line;
    let rest = png::flipped(pixels, width as int, few);
    let all = first + rest;
    lemma_recoloured_length(png::line_of(pixels, width as int, few as int), width);
    assert(png::flipped(pixels, width as int, count) =~= all);
    assert(few * row + row == count * row) by (nonlinear_arith)
        requires
            few == count - 1,
    ;
    if few > 0 {
        lemma_last_line_first(pixels, width, few, if number < few { number } else { 0 });
    } else {
        assert(0 * row == 0) by (nonlinear_arith);
    }
    if number == few {
        assert(0 * row == 0) by (nonlinear_arith);
        assert(all.subrange(0, row) =~= first);
    } else {
        let start = (few - 1 - number) * row;
        assert((count - 1 - number) * row == start + row) by (nonlinear_arith)
            requires
                start == (few - 1 - number) * row,
                few == count - 1,
        ;
        assert(all.subrange(start + row, start + row + row) =~= rest.subrange(start, start + row));
    }
}

/// What stored blocks hold: each says how long it is, and whether it is the
/// last.
pub open spec fn unpacked(stored: Seq<u8>) -> Seq<u8>
    decreases stored.len(),
{
    if stored.len() < 5 {
        Seq::empty()
    } else {
        let length = bytes::le_at(stored, 1, 2) as int;
        if 5 + length > stored.len() {
            Seq::empty()
        } else if stored[0] == 1 {
            stored.subrange(5, 5 + length)
        } else {
            stored.subrange(5, 5 + length) + unpacked(stored.skip(5 + length))
        }
    }
}

/// Data is read back from the blocks that it is stored in; each is checked by
/// the complement of its length.
pub proof fn lemma_blocks_read(data: Seq<u8>)
    ensures
        unpacked(png::blocks(data)) == data,
        data.len() > 0 ==> bytes::le_at(png::blocks(data), 1, 2) + bytes::le_at(
            png::blocks(data),
            3,
            2,
        ) == 0xffff,
    decreases data.len(),
{
    if data.len() > 0 {
        let last = data.len() <= png::BLOCK;
        let part = if last {
            data
        } else {
            data.take(png::BLOCK as int)
        };
        let rest = if last {
            Seq::empty()
        } else {
            png::blocks(data.skip(png::BLOCK as int))
        };
        let stored = png::block(part, last) + rest;
        let length = part.len() as int;
        assert(png::blocks(data) =~= stored);
        assert(stored.subrange(1, 3) =~= png::little_16(length as u16));
        assert(stored.subrange(3, 5) =~= png::little_16((0xffff - length) as u16));
        lemma_numbers_read(0, length as u16);
        lemma_numbers_read(0, (0xffff - length) as u16);
        assert(stored.subrange(5, 5 + length) =~= part);
        if last {
            assert(stored[0] == 1);
        } else {
            assert(stored[0] == 0);
            lemma_blocks_read(data.skip(png::BLOCK as int));
            assert(stored.skip(5 + length) =~= rest);
            assert(part + data.skip(png::BLOCK as int) =~= data);
        }
    } else {
        assert(unpacked(png::blocks(data)) =~= data);
    }
}

/// The sum of `bytes`.
pub open spec fn added(bytes: Seq<u8>) -> nat
    decreases bytes.len(),
{
    if bytes.len() == 0 {
        0
    } else {
        added(bytes.drop_last()) + bytes.last() as nat
    }
}

proof fn lemma_first_sum(bytes: Seq<u8>)
    ensures
        checksums::adler_first(bytes) == (1 + added(bytes)) % 65_521,
        checksums::adler_second(bytes) < 65_521,
    decreases bytes.len(),
{
    if bytes.len() > 0 {
        lemma_first_sum(bytes.drop_last());
        let (before, last) = (added(bytes.drop_last()), bytes.last() as nat);
        vstd::arithmetic::div_mod::lemma_add_mod_noop_right(
            last as int,
            1 + before as int,
            65_521,
        );
    }
}

proof fn lemma_halves(high: nat, low: nat)
    requires
        low < 65_536,
    ensures
        (high * 65_536 + low) % 65_536 == low,
        (high * 65_536 + low) / 65_536 == high,
{
}

/// The low half of Adler-32 is one more than the sum of the bytes, modulo
/// 65,521, the largest prime below 65,536; each byte adds that to the high
/// half.
pub proof fn lemma_adler_sum(bytes: Seq<u8>)
    ensures
        checksums::adler(bytes) % 65_536 == (1 + added(bytes)) % 65_521,
        bytes.len() == 0 ==> checksums::adler(bytes) / 65_536 == 0,
        bytes.len() > 0 ==> checksums::adler(bytes) / 65_536 == (checksums::adler(
            bytes.drop_last(),
        ) / 65_536 + checksums::adler(bytes) % 65_536) % 65_521,
{
    lemma_first_sum(bytes);
    lemma_halves(checksums::adler_second(bytes), checksums::adler_first(bytes));
    if bytes.len() > 0 {
        let before = bytes.drop_last();
        lemma_first_sum(before);
        lemma_halves(checksums::adler_second(before), checksums::adler_first(before));
    }
}

/// The mask of a picture has a bit for each pixel, each line in whole words of
/// four bytes, and no word more.
pub proof fn lemma_mask_row(size: nat)
    ensures
        ico::mask_row(size) % 4 == 0,
        size <= 8 * ico::mask_row(size) < size + 32,
{
}

/// A picture of 256 pixels a side or more is a PNG, whose mark it starts with;
/// a smaller one starts with the length of a bitmap's header.
pub proof fn lemma_large_is_png(size: u32, pixels: Seq<u8>)
    ensures
        size >= 256 ==> ico::packed(size, pixels).take(8) == seq![
            0x89u8,
            0x50,
            0x4e,
            0x47,
            0x0d,
            0x0a,
            0x1a,
            0x0a,
        ],
        size < 256 ==> ico::packed(size, pixels).take(4) == seq![40u8, 0, 0, 0],
        size < 256 ==> ico::packed(size, pixels).subrange(40, 40 + pixels.len() as int) == pixels,
{
    let all = ico::packed(size, pixels);
    if size >= 256 {
        assert(all.take(8) =~= png::signature());
    } else {
        assert(all.take(4) =~= png::little(40));
        assert(png::little(40) =~= seq![40u8, 0, 0, 0]);
        assert(all.subrange(40, 40 + pixels.len() as int) =~= pixels);
    }
}

/// `parts` with `<` between each two.
pub open spec fn rejoined(parts: Seq<Seq<char>>) -> Seq<char>
    decreases parts.len(),
{
    if parts.len() == 0 {
        Seq::empty()
    } else if parts.len() == 1 {
        parts[0]
    } else {
        rejoined(parts.drop_last()) + seq!['<'] + parts.last()
    }
}

/// A mark is cut at each `<` and nowhere else: its parts make it up, and none
/// holds one.
pub proof fn lemma_cut(text: Seq<char>)
    ensures
        svg::parts(text).len() >= 1,
        rejoined(svg::parts(text)) == text,
        forall|i: int|
            0 <= i < svg::parts(text).len() ==> !(#[trigger] svg::parts(text)[i]).contains('<'),
    decreases text.len(),
{
    if text.len() == 0 {
        assert(svg::parts(text) =~= seq![Seq::empty()]);
        assert(rejoined(svg::parts(text)) =~= text);
    } else {
        let (few, last) = (text.drop_last(), text.last());
        lemma_cut(few);
        let before = svg::parts(few);
        let after = svg::parts(text);
        assert(few.push(last) =~= text);
        if last == '<' {
            assert(after == before.push(Seq::empty()));
            assert(after.drop_last() =~= before);
            assert(rejoined(after) =~= few + seq!['<'] + Seq::empty());
            assert(rejoined(after) =~= text);
        } else {
            let end = before.len() - 1;
            let grown = before[end].push(last);
            assert(after == before.update(end, grown));
            assert(after.drop_last() =~= before.drop_last());
            assert(rejoined(after) =~= rejoined(before).push(last));
            assert(!grown.contains('<')) by {
                if grown.contains('<') {
                    let i = choose|i: int| 0 <= i < grown.len() && grown[i] == '<';
                    assert(i < before[end].len());
                    assert(before[end][i] == '<');
                    assert(before[end].contains('<'));
                }
            }
        }
    }
}

proof fn lemma_found_first(whole: Seq<char>, part: Seq<char>, at: int, place: int)
    requires
        0 <= at <= place,
        place + part.len() <= whole.len(),
        whole.subrange(place, place + part.len()) == part,
        forall|earlier: int|
            at <= earlier < place ==> #[trigger] whole.subrange(earlier, earlier + part.len())
                != part,
    ensures
        svg::find_from(whole, part, at) == Some(place),
    decreases place - at,
{
    if at < place {
        assert(whole.subrange(at, at + part.len()) != part);
        lemma_found_first(whole, part, at + 1, place);
    }
}

/// The value of an attribute is what stands between the quotes behind its
/// name, a space and an equals sign around that, where it first stands so.
pub proof fn lemma_attribute_read(
    before: Seq<char>,
    name: Seq<char>,
    value: Seq<char>,
    after: Seq<char>,
)
    requires
        !value.contains('"'),
        ({
            let opening = seq![' '] + name + seq!['=', '"'];
            let element = before + opening + value + seq!['"'] + after;
            forall|earlier: int|
                0 <= earlier < before.len() ==> #[trigger] element.subrange(
                    earlier,
                    earlier + opening.len(),
                ) != opening
        }),
    ensures
        svg::attribute_of(
            before + (seq![' '] + name + seq!['=', '"']) + value + seq!['"'] + after,
            name,
        ) == Some(value),
{
    reveal_strlit(" ");
    reveal_strlit("=\"");
    reveal_strlit("\"");
    let opening = seq![' '] + name + seq!['=', '"'];
    let element = before + opening + value + seq!['"'] + after;
    assert(svg::opening(name) =~= opening);
    assert("\""@ =~= seq!['"']);
    let at = before.len() as int;
    assert(element.subrange(at, at + opening.len()) =~= opening);
    lemma_found_first(element, opening, 0, at);
    let start = at + opening.len();
    let end = start + value.len();
    assert(element.subrange(end, end + 1) =~= seq!['"']);
    assert forall|earlier: int| start <= earlier < end implies #[trigger] element.subrange(
        earlier,
        earlier + 1,
    ) != seq!['"'] by {
        assert(element[earlier] == value[earlier - start]);
        assert(value.contains(value[earlier - start]));
        assert(element.subrange(earlier, earlier + 1)[0] == element[earlier]);
    }
    lemma_found_first(element, seq!['"'], start, end);
    assert(element.subrange(start, end) =~= value);
}

/// The hexadecimal digit worth `value`, small or not.
pub open spec fn hex(value: int, capital: bool) -> char {
    if value < 10 {
        ('0' as int + value) as char
    } else if capital {
        ('A' as int + value - 10) as char
    } else {
        ('a' as int + value - 10) as char
    }
}

/// Two digits of either case are what they are worth: a colour is read back
/// from its six.
pub proof fn lemma_colour_read(red: u8, green: u8, blue: u8, capital: bool)
    ensures
        svg::colour_of(
            seq![
                hex(red as int / 16, capital),
                hex(red as int % 16, capital),
                hex(green as int / 16, capital),
                hex(green as int % 16, capital),
                hex(blue as int / 16, capital),
                hex(blue as int % 16, capital),
            ],
        ) == Some((red, green, blue)),
{
    lemma_channel(red, capital);
    lemma_channel(green, capital);
    lemma_channel(blue, capital);
}

proof fn lemma_channel(value: u8, capital: bool)
    ensures
        svg::channel_of(hex(value as int / 16, capital), hex(value as int % 16, capital)) == Some(
            value,
        ),
{
    let (high, low) = (value as int / 16, value as int % 16);
    assert(16 * high + low == value);
    assert(svg::hex_digit(hex(high, capital)) == Some(high as nat));
    assert(svg::hex_digit(hex(low, capital)) == Some(low as nat));
}

/// A rectangle is drawn, the frame and comments are passed over, and the first
/// other element stops a mark: so does a fill that is none, and black fills
/// what says none.
pub proof fn lemma_element_drawn(
    elements: Seq<Seq<char>>,
    tags: Seq<Seq<char>>,
    count: nat,
)
    requires
        count < elements.len() == tags.len(),
    ensures
        ({
            let (before, stopped) = svg::rects_of(elements, tags, count);
            let after = svg::rects_of(elements, tags, count + 1);
            let (element, tag) = (elements[count as int], tags[count as int]);
            let frame = tag == "svg"@ || tag == "/svg"@ || tag == "?xml"@ || tag == "!--"@;
            let drawn = tag == "rect"@ || tag == "rect/"@;
            &&& stopped is Some ==> after == (before, stopped)
            &&& stopped is None && frame && !drawn ==> after == (before, stopped)
            &&& stopped is None && !frame && !drawn ==> after == (
                before,
                Some(Wrong::NotARectangle(tag)),
            )
            &&& stopped is None && drawn ==> {
                let fill = match svg::attribute_of(element, "fill"@) {
                    Some(fill) => fill,
                    None => "#000000"@,
                };
                let valid = fill.len() > 0 && fill[0] == '#' && vstd::utf8::encode_utf8(
                    fill.skip(1),
                ).len() == 6;
                &&& !valid ==> after == (before, Some(Wrong::NotAColour(fill)))
                &&& valid ==> {
                    &&& after.1 is None
                    &&& after.0.len() == before.len() + 1
                    &&& after.0.drop_last() == before
                    &&& after.0.last().fill == fill
                    &&& after.0.last().rgb == svg::colour_of(fill.skip(1))
                    &&& after.0.last().x == svg::attribute_of(element, "x"@)
                    &&& after.0.last().y == svg::attribute_of(element, "y"@)
                    &&& after.0.last().width == svg::attribute_of(element, "width"@)
                    &&& after.0.last().height == svg::attribute_of(element, "height"@)
                }
            }
        }),
{
    let (before, stopped) = svg::rects_of(elements, tags, count);
    let after = svg::rects_of(elements, tags, count + 1);
    if after.0.len() == before.len() + 1 {
        assert(after.0.drop_last() =~= before);
    }
}

/// Whether no character of `word` is white space.
pub open spec fn solid(word: Seq<char>) -> bool {
    forall|i: int| 0 <= i < word.len() ==> !text::is_white(#[trigger] word[i])
}

proof fn lemma_word_read(word: Seq<char>, rest: Seq<char>)
    requires
        solid(word),
        rest.len() > 0 ==> text::is_white(rest[0]),
    ensures
        svg::up_to_white(word + rest) == word,
    decreases word.len(),
{
    let all = word + rest;
    if word.len() > 0 {
        assert(!text::is_white(word[0]));
        assert(all.skip(1) =~= word.skip(1) + rest);
        assert forall|i: int| 0 <= i < word.skip(1).len() implies !text::is_white(
            #[trigger] word.skip(1)[i],
        ) by {
            assert(word[i + 1] == word.skip(1)[i]);
        }
        lemma_word_read(word.skip(1), rest);
        assert(seq![word[0]] + word.skip(1) =~= word);
    } else {
        assert(all =~= rest);
    }
}

/// An element is called by its first word, whatever white space stands before
/// it and whatever follows, without the marks that close it.
pub proof fn lemma_called(blank: Seq<char>, name: Seq<char>, closing: nat, rest: Seq<char>)
    requires
        text::laws::blank(blank),
        name.len() > 0,
        solid(name),
        name.last() != '>',
        rest.len() > 0 ==> text::is_white(rest[0]),
    ensures
        svg::tag_of(blank + name + Seq::new(closing, |i: int| '>') + rest) == name,
    decreases blank.len(),
{
    let marks = Seq::new(closing, |i: int| '>');
    let element = blank + name + marks + rest;
    if blank.len() > 0 {
        assert(text::is_white(blank[0]));
        assert(element[0] == blank[0]);
        assert(element.skip(1) =~= blank.skip(1) + name + marks + rest);
        assert forall|i: int| 0 <= i < blank.skip(1).len() implies text::is_white(
            #[trigger] blank.skip(1)[i],
        ) by {
            assert(blank[i + 1] == blank.skip(1)[i]);
        }
        lemma_called(blank.skip(1), name, closing, rest);
    } else {
        let word = name + marks;
        assert(element =~= word + rest);
        assert(!text::is_white(name[0]));
        assert(solid(word)) by {
            assert forall|i: int| 0 <= i < word.len() implies !text::is_white(
                #[trigger] word[i],
            ) by {
                if i < name.len() {
                    assert(word[i] == name[i]);
                }
            }
        }
        lemma_word_read(word, rest);
        lemma_closed(name, closing);
    }
}

proof fn lemma_closed(name: Seq<char>, closing: nat)
    requires
        name.len() > 0,
        name.last() != '>',
    ensures
        svg::unclosed(name + Seq::new(closing, |i: int| '>')) == name,
    decreases closing,
{
    let word = name + Seq::new(closing, |i: int| '>');
    if closing > 0 {
        let few = (closing - 1) as nat;
        assert(word.drop_last() =~= name + Seq::new(few, |i: int| '>'));
        lemma_closed(name, few);
    } else {
        assert(word =~= name);
    }
}

/// The bytes of the first `count` pictures.
pub open spec fn lengths(images: Seq<(u32, Seq<u8>)>, count: nat) -> nat
    decreases count,
{
    if count == 0 {
        0
    } else {
        lengths(images, (count - 1) as nat) + ico::packed(
            images[count - 1].0,
            images[count - 1].1,
        ).len()
    }
}

proof fn lemma_offset_within(images: Seq<(u32, Seq<u8>)>, count: nat)
    requires
        count <= images.len(),
    ensures
        ico::offset_after(images, count) <= 6 + 16 * images.len() + lengths(images, count),
    decreases count,
{
    if count > 0 {
        lemma_offset_within(images, (count - 1) as nat);
    }
}

/// Pictures can be packed where 32 bits hold the length of it all, and of a
/// line of each.
pub proof fn lemma_can_be_packed(images: Seq<(u32, Seq<u8>)>)
    requires
        6 + 16 * images.len() + lengths(images, images.len()) <= u32::MAX,
        forall|i: int| 0 <= i < images.len() ==> 4 * (#[trigger] images[i]).0 <= u32::MAX,
    ensures
        ico::packable(images),
{
    lemma_offset_within(images, images.len());
}

} // verus!
