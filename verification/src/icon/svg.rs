//! The rectangles of the SVG mark, as its text gives them.

use vstd::prelude::*;
use vstd::slice::{slice_subrange, slice_to_vec};

use crate::text;
use crate::text::{characters_of, same, string_of, white};

verus! {

/// `text` cut at each `<`; what stands before the first comes first.
pub open spec fn parts(text: Seq<char>) -> Seq<Seq<char>>
    decreases text.len(),
{
    if text.len() == 0 {
        seq![Seq::empty()]
    } else {
        let before = parts(text.drop_last());
        if text.last() == '<' {
            before.push(Seq::empty())
        } else {
            before.update(before.len() - 1, before.last().push(text.last()))
        }
    }
}

/// What `text` starts with, up to white space.
pub open spec fn up_to_white(text: Seq<char>) -> Seq<char>
    decreases text.len(),
{
    if text.len() == 0 || text::is_white(text[0]) {
        Seq::empty()
    } else {
        seq![text[0]] + up_to_white(text.skip(1))
    }
}

/// The first word of `text`; none if it is all white space.
pub open spec fn first_word(text: Seq<char>) -> Seq<char>
    decreases text.len(),
{
    if text.len() > 0 && text::is_white(text[0]) {
        first_word(text.skip(1))
    } else {
        up_to_white(text)
    }
}

/// `text` without the `>` that it ends with.
pub open spec fn unclosed(text: Seq<char>) -> Seq<char>
    decreases text.len(),
{
    if text.len() > 0 && text.last() == '>' {
        unclosed(text.drop_last())
    } else {
        text
    }
}

/// The name of an element.
pub open spec fn tag_of(element: Seq<char>) -> Seq<char> {
    unclosed(first_word(element))
}

/// Where `part` first stands in `text` from `at` on.
pub open spec fn find_from(text: Seq<char>, part: Seq<char>, at: int) -> Option<int>
    decreases text.len() + 1 - at,
{
    if at < 0 || at + part.len() > text.len() {
        None
    } else if text.subrange(at, at + part.len()) == part {
        Some(at)
    } else {
        find_from(text, part, at + 1)
    }
}

/// What stands before the value of an attribute.
pub open spec fn opening(name: Seq<char>) -> Seq<char> {
    " "@ + name + "=\""@
}

/// The value of the attribute `name` of `element`, if it has one.
pub open spec fn attribute_of(element: Seq<char>, name: Seq<char>) -> Option<Seq<char>> {
    match find_from(element, opening(name), 0) {
        Some(at) => {
            let start = at + opening(name).len();
            match find_from(element, "\""@, start) {
                Some(end) => Some(element.subrange(start, end)),
                None => None,
            }
        },
        None => None,
    }
}

/// What the hexadecimal digit `character` is worth.
pub open spec fn hex_digit(character: char) -> Option<nat> {
    if '0' <= character <= '9' {
        Some((character as nat - '0' as nat) as nat)
    } else if 'a' <= character <= 'f' {
        Some((character as nat - 'a' as nat + 10) as nat)
    } else if 'A' <= character <= 'F' {
        Some((character as nat - 'A' as nat + 10) as nat)
    } else {
        None
    }
}

/// What two characters are worth: two hexadecimal digits, or a plus and one.
pub open spec fn channel_of(first: char, second: char) -> Option<u8> {
    match hex_digit(second) {
        Some(low) => if first == '+' {
            Some(low as u8)
        } else {
            match hex_digit(first) {
                Some(high) => Some((16 * high + low) as u8),
                None => None,
            }
        },
        None => None,
    }
}

/// Red, green and blue, if `hex` is six characters that give them.
pub open spec fn colour_of(hex: Seq<char>) -> Option<(u8, u8, u8)> {
    if hex.len() != 6 {
        None
    } else {
        match (
            channel_of(hex[0], hex[1]),
            channel_of(hex[2], hex[3]),
            channel_of(hex[4], hex[5]),
        ) {
            (Some(red), Some(green), Some(blue)) => Some((red, green, blue)),
            _ => None,
        }
    }
}

/// What follows the `#` of a fill, if six bytes do.
pub open spec fn hex_of(fill: Seq<char>) -> Option<Seq<char>> {
    if text::starts(fill, '#') && vstd::utf8::encode_utf8(fill.skip(1)).len() == 6 {
        Some(fill.skip(1))
    } else {
        None
    }
}

/// One `<rect>`: its position and size as they are written, and its colour.
#[derive(Debug)]
pub struct RectText {
    pub x: Option<String>,
    pub y: Option<String>,
    pub width: Option<String>,
    pub height: Option<String>,
    /// The fill as it is written.
    pub fill: String,
    /// Red, green and blue; `None` where the fill does not give them.
    pub rgb: Option<(u8, u8, u8)>,
}

/// What a [`RectText`] says.
pub struct RectModel {
    pub x: Option<Seq<char>>,
    pub y: Option<Seq<char>>,
    pub width: Option<Seq<char>>,
    pub height: Option<Seq<char>>,
    pub fill: Seq<char>,
    pub rgb: Option<(u8, u8, u8)>,
}

impl View for RectText {
    type V = RectModel;

    open spec fn view(&self) -> RectModel {
        RectModel {
            x: text::maybe_text(self.x),
            y: text::maybe_text(self.y),
            width: text::maybe_text(self.width),
            height: text::maybe_text(self.height),
            fill: self.fill@,
            rgb: self.rgb,
        }
    }
}

/// Why a mark cannot be drawn.
#[derive(Debug)]
pub enum IconError {
    /// An element that is no rectangle: its name.
    NotARectangle(String),
    /// A fill that is not `#rrggbb`.
    NotAColour(String),
}

/// What an [`IconError`] says.
pub enum Wrong {
    NotARectangle(Seq<char>),
    NotAColour(Seq<char>),
}

impl View for IconError {
    type V = Wrong;

    open spec fn view(&self) -> Wrong {
        match self {
            IconError::NotARectangle(tag) => Wrong::NotARectangle(tag@),
            IconError::NotAColour(fill) => Wrong::NotAColour(fill@),
        }
    }
}

/// The fill of `element`: black where it has none.
pub open spec fn fill_of(element: Seq<char>) -> Seq<char> {
    match attribute_of(element, "fill"@) {
        Some(fill) => fill,
        None => "#000000"@,
    }
}

/// The rectangle that `element` is.
pub open spec fn rect_of(element: Seq<char>) -> Result<RectModel, Wrong> {
    let fill = fill_of(element);
    match hex_of(fill) {
        Some(hex) => Ok(
            RectModel {
                x: attribute_of(element, "x"@),
                y: attribute_of(element, "y"@),
                width: attribute_of(element, "width"@),
                height: attribute_of(element, "height"@),
                fill,
                rgb: colour_of(hex),
            },
        ),
        None => Err(Wrong::NotAColour(fill)),
    }
}

/// Whether an element called `tag` is a rectangle.
pub open spec fn is_rect(tag: Seq<char>) -> bool {
    tag == "rect"@ || tag == "rect/"@
}

/// Whether an element called `tag` draws nothing.
pub open spec fn is_frame(tag: Seq<char>) -> bool {
    tag == "svg"@ || tag == "/svg"@ || tag == "?xml"@ || tag == "!--"@
}

/// The rectangles of the first `count` of `elements`, in paint order, and what
/// stopped there, if anything: an element that is refused rather than silently
/// dropped, so a change to the mark cannot go unnoticed. `tags` are their
/// names.
pub open spec fn rects_of(elements: Seq<Seq<char>>, tags: Seq<Seq<char>>, count: nat) -> (
    Seq<RectModel>,
    Option<Wrong>,
)
    decreases count,
{
    if count == 0 {
        (Seq::empty(), None)
    } else {
        let (before, stopped) = rects_of(elements, tags, (count - 1) as nat);
        let (element, tag) = (elements[count - 1], tags[count - 1]);
        if stopped is Some {
            (before, stopped)
        } else if is_rect(tag) {
            match rect_of(element) {
                Ok(rect) => (before.push(rect), None),
                Err(wrong) => (before, Some(wrong)),
            }
        } else if is_frame(tag) {
            (before, None)
        } else {
            (before, Some(Wrong::NotARectangle(tag)))
        }
    }
}

/// The names of `elements`.
pub open spec fn tags_of(elements: Seq<Seq<char>>) -> Seq<Seq<char>> {
    elements.map_values(|element: Seq<char>| tag_of(element))
}

/// The elements of `svg`: what follows each `<`.
pub open spec fn elements_of(svg: Seq<char>) -> Seq<Seq<char>> {
    parts(svg).skip(1)
}

/// The rectangles of a mark, and what stopped there.
#[derive(Debug)]
pub struct Mark {
    pub rects: Vec<RectText>,
    pub stopped: Option<IconError>,
}

/// What `rects` say.
pub open spec fn models(rects: Seq<RectText>) -> Seq<RectModel> {
    rects.map_values(|rect: RectText| rect@)
}

/// What an error says, if there is one.
pub open spec fn maybe_wrong(error: Option<IconError>) -> Option<Wrong> {
    match error {
        Some(error) => Some(error@),
        None => None,
    }
}

/// `svg` cut at each `<`.
fn split(svg: &Vec<char>) -> (list: Vec<String>)
    ensures
        text::texts(list@) == parts(svg@),
{
    let mut list: Vec<String> = Vec::new();
    let mut last: Vec<char> = Vec::new();
    let mut at: usize = 0;
    proof {
        assert(svg@.take(0) =~= Seq::empty());
        assert(text::texts(list@).push(last@) =~= parts(svg@.take(0)));
    }
    while at < svg.len()
        invariant
            at <= svg@.len(),
            text::texts(list@).push(last@) == parts(svg@.take(at as int)),
        decreases svg@.len() - at,
    {
        let ghost held = list@;
        let ghost before = last@;
        proof {
            let more = svg@.take(at + 1);
            assert(more.drop_last() =~= svg@.take(at as int));
            assert(more.last() == svg@[at as int]);
        }
        if svg[at] == '<' {
            list.push(string_of(&last));
            last = Vec::new();
            assert(text::texts(list@) =~= text::texts(held).push(before));
            assert(text::texts(list@).push(last@) =~= parts(svg@.take(at + 1)));
        } else {
            last.push(svg[at]);
            assert(text::texts(list@).push(last@) =~= parts(svg@.take(at + 1)));
        }
        at = at + 1;
    }
    assert(svg@.take(at as int) =~= svg@);
    let ghost held = list@;
    list.push(string_of(&last));
    assert(text::texts(list@) =~= text::texts(held).push(last@));
    list
}

/// The name of `element`.
fn find_tag(element: &Vec<char>) -> (tag: Vec<char>)
    ensures
        tag@ == tag_of(element@),
{
    let mut start: usize = 0;
    assert(element@.skip(0) =~= element@);
    while start < element.len() && white(element[start])
        invariant
            start <= element@.len(),
            first_word(element@.skip(start as int)) == first_word(element@),
        decreases element@.len() - start,
    {
        assert(element@.skip(start as int).skip(1) =~= element@.skip(start + 1));
        start = start + 1;
    }
    let ghost rest = element@.skip(start as int);
    assert(first_word(rest) == up_to_white(rest));
    let mut word: Vec<char> = Vec::new();
    let mut at: usize = start;
    assert(word@ + up_to_white(element@.skip(at as int)) =~= up_to_white(rest));
    while at < element.len() && !white(element[at])
        invariant
            at <= element@.len(),
            word@ + up_to_white(element@.skip(at as int)) == up_to_white(rest),
        decreases element@.len() - at,
    {
        let ghost before = word@;
        let ghost here = element@.skip(at as int);
        word.push(element[at]);
        assert(here.skip(1) =~= element@.skip(at + 1));
        assert(before + up_to_white(here) =~= word@ + up_to_white(element@.skip(at + 1)));
        at = at + 1;
    }
    assert(word@ + up_to_white(element@.skip(at as int)) =~= word@);
    let ghost whole = word@;
    while word.len() > 0 && word[word.len() - 1] == '>'
        invariant
            unclosed(word@) == unclosed(whole),
        decreases word@.len(),
    {
        let ghost before = word@;
        word.pop();
        assert(before.drop_last() =~= word@);
    }
    word
}

/// Where `part` first stands in `text` from `at` on.
fn find(text: &Vec<char>, part: &Vec<char>, at: usize) -> (found: Option<usize>)
    ensures
        match found {
            Some(found) => find_from(text@, part@, at as int) == Some(found as int) && at <= found
                && found + part@.len() <= text@.len(),
            None => find_from(text@, part@, at as int) is None,
        },
{
    let (length, wanted): (usize, usize) = (text.len(), part.len());
    let mut here: usize = at;
    while here <= length && wanted <= length - here
        invariant
            at <= here,
            length == text@.len(),
            wanted == part@.len(),
            find_from(text@, part@, at as int) == find_from(text@, part@, here as int),
        decreases length + 1 - here,
    {
        let mut matched: usize = 0;
        while matched < wanted && text[here + matched] == part[matched]
            invariant
                length == text@.len(),
                wanted == part@.len(),
                here + wanted <= length,
                matched <= wanted,
                forall|i: int| 0 <= i < matched ==> text@[here + i] == part@[i],
            decreases wanted - matched,
        {
            matched = matched + 1;
        }
        if matched == wanted {
            assert(text@.subrange(here as int, here + wanted) =~= part@);
            return Some(here);
        }
        assert(text@.subrange(here as int, here + wanted)[matched as int] == text@[here
            + matched]);
        if here == usize::MAX {
            assert(wanted == 0);
            return None;
        }
        here = here + 1;
    }
    None
}

/// The value of the attribute `name` of `element`, if it has one.
fn attribute(element: &Vec<char>, name: &str) -> (value: Option<String>)
    ensures
        text::maybe_text(value) == attribute_of(element@, name@),
{
    let mut open = characters_of(" ");
    let mut label = characters_of(name);
    let mut equals = characters_of("=\"");
    open.append(&mut label);
    open.append(&mut equals);
    assert(open@ =~= opening(name@));
    let quote = characters_of("\"");
    let length: usize = element.len();
    match find(element, &open, 0) {
        Some(at) => {
            assert(at + open@.len() <= length);
            let start: usize = at + open.len();
            match find(element, &quote, start) {
                Some(end) => {
                    let value = slice_to_vec(slice_subrange(element.as_slice(), start, end));
                    assert(value@ =~= element@.subrange(start as int, end as int));
                    Some(string_of(&value))
                },
                None => None,
            }
        },
        None => None,
    }
}

fn to_digit(character: char) -> (digit: Option<u8>)
    ensures
        match digit {
            Some(digit) => digit < 16 && hex_digit(character) == Some(digit as nat),
            None => hex_digit(character) is None,
        },
{
    if '0' <= character && character <= '9' {
        Some(character as u8 - 0x30)
    } else if 'a' <= character && character <= 'f' {
        Some(character as u8 - 0x61 + 10)
    } else if 'A' <= character && character <= 'F' {
        Some(character as u8 - 0x41 + 10)
    } else {
        None
    }
}

fn to_channel(first: char, second: char) -> (channel: Option<u8>)
    ensures
        channel == channel_of(first, second),
{
    match to_digit(second) {
        Some(low) => if first == '+' {
            Some(low)
        } else {
            match to_digit(first) {
                Some(high) => Some(16 * high + low),
                None => None,
            }
        },
        None => None,
    }
}

/// Red, green and blue, if `hex` is six characters that give them.
fn to_colour(hex: &Vec<char>) -> (rgb: Option<(u8, u8, u8)>)
    ensures
        rgb == colour_of(hex@),
{
    if hex.len() != 6 {
        return None;
    }
    match (
        to_channel(hex[0], hex[1]),
        to_channel(hex[2], hex[3]),
        to_channel(hex[4], hex[5]),
    ) {
        (Some(red), Some(green), Some(blue)) => Some((red, green, blue)),
        _ => None,
    }
}

/// What follows the `#` of a fill, if six bytes do.
fn to_hex(fill: &str) -> (hex: Option<Vec<char>>)
    ensures
        match hex {
            Some(hex) => hex_of(fill@) == Some(hex@),
            None => hex_of(fill@) is None,
        },
{
    let characters = characters_of(fill);
    let count: usize = characters.len();
    if count == 0 || characters[0] != '#' {
        return None;
    }
    let hex = slice_to_vec(slice_subrange(characters.as_slice(), 1, count));
    assert(hex@ =~= fill@.skip(1));
    if string_of(&hex).as_str().as_bytes().len() != 6 {
        return None;
    }
    Some(hex)
}

/// The rectangle that `element` is.
fn rect(element: &Vec<char>) -> (result: Result<RectText, IconError>)
    ensures
        match rect_of(element@) {
            Ok(expected) => result matches Ok(rect) && rect@ == expected,
            Err(wrong) => result matches Err(error) && error@ == wrong,
        },
{
    let fill = match attribute(element, "fill") {
        Some(fill) => fill,
        None => "#000000".to_owned(),
    };
    assert(fill@ == fill_of(element@));
    match to_hex(fill.as_str()) {
        Some(hex) => Ok(
            RectText {
                x: attribute(element, "x"),
                y: attribute(element, "y"),
                width: attribute(element, "width"),
                height: attribute(element, "height"),
                rgb: to_colour(&hex),
                fill,
            },
        ),
        None => Err(IconError::NotAColour(fill)),
    }
}

/// The rectangles of `elements`, whose names are `tags`, in paint order.
/// Anything else is refused rather than silently dropped, so a change to the
/// mark cannot go unnoticed here.
pub fn gather_rects(elements: &Vec<String>, tags: &Vec<String>) -> (mark: Mark)
    requires
        elements@.len() == tags@.len(),
    ensures
        (models(mark.rects@), maybe_wrong(mark.stopped)) == rects_of(
            text::texts(elements@),
            text::texts(tags@),
            elements@.len(),
        ),
{
    let ghost (all, names) = (text::texts(elements@), text::texts(tags@));
    let mut rects: Vec<RectText> = Vec::new();
    let mut next: usize = 0;
    assert(models(rects@) =~= Seq::empty());
    while next < elements.len()
        invariant
            next <= elements@.len(),
            elements@.len() == tags@.len(),
            all == text::texts(elements@),
            names == text::texts(tags@),
            (models(rects@), None::<Wrong>) == rects_of(all, names, next as nat),
        decreases elements@.len() - next,
    {
        let name: &str = tags[next].as_str();
        assert(names[next as int] == name@);
        assert(all[next as int] == elements@[next as int]@);
        let ghost before = rects@;
        if same(name, "rect") || same(name, "rect/") {
            match rect(&characters_of(elements[next].as_str())) {
                Ok(rect) => {
                    let ghost shown = rect@;
                    rects.push(rect);
                    assert(models(rects@) =~= models(before).push(shown));
                },
                Err(error) => {
                    proof {
                        lemma_stopped(all, names, (next + 1) as nat, all.len());
                    }
                    return Mark { rects, stopped: Some(error) };
                },
            }
        } else if !(same(name, "svg") || same(name, "/svg") || same(name, "?xml") || same(
            name,
            "!--",
        )) {
            proof {
                lemma_stopped(all, names, (next + 1) as nat, all.len());
            }
            return Mark { rects, stopped: Some(IconError::NotARectangle(tags[next].clone())) };
        }
        next = next + 1;
    }
    Mark { rects, stopped: None }
}

/// Every `<rect>` in the SVG, in paint order, up to the first element that is
/// refused.
pub fn parse(svg: &str) -> (mark: Mark)
    ensures
        ({
            let elements = elements_of(svg@);
            (models(mark.rects@), maybe_wrong(mark.stopped)) == rects_of(
                elements,
                tags_of(elements),
                elements.len(),
            )
        }),
{
    let mut elements = split(&characters_of(svg));
    proof {
        lemma_some_part(svg@);
        assert(text::texts(elements@).len() == elements@.len());
    }
    let ghost whole = elements@;
    elements.remove(0);
    assert(text::texts(elements@) =~= elements_of(svg@));
    let mut tags: Vec<String> = Vec::new();
    let mut next: usize = 0;
    while next < elements.len()
        invariant
            next <= elements@.len(),
            tags@.len() == next,
            forall|i: int|
                0 <= i < next ==> (#[trigger] tags@[i])@ == tag_of(elements@[i]@),
        decreases elements@.len() - next,
    {
        tags.push(string_of(&find_tag(&characters_of(elements[next].as_str()))));
        next = next + 1;
    }
    assert(text::texts(tags@) =~= tags_of(text::texts(elements@)));
    gather_rects(&elements, &tags)
}

proof fn lemma_some_part(svg: Seq<char>)
    ensures
        parts(svg).len() >= 1,
    decreases svg.len(),
{
    if svg.len() > 0 {
        lemma_some_part(svg.drop_last());
    }
}

proof fn lemma_stopped(elements: Seq<Seq<char>>, tags: Seq<Seq<char>>, few: nat, count: nat)
    requires
        few <= count,
        rects_of(elements, tags, few).1 is Some,
    ensures
        rects_of(elements, tags, count) == rects_of(elements, tags, few),
    decreases count,
{
    if few < count {
        lemma_stopped(elements, tags, few, (count - 1) as nat);
    }
}

} // verus!
