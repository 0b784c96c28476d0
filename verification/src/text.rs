//! Text: names and words, character by character.

pub mod laws;

use vstd::prelude::*;

verus! {

/// `char::from_u32`: the character whose scalar value is `value`. Believed:
/// there is one for each number up to `0x10ffff` that is not a surrogate
/// (`0xd800` to `0xdfff`), and for no other.
pub assume_specification[ char::from_u32 ](value: u32) -> (result: Option<char>)
    ensures
        result is Some <==> value < 0xd800 || 0xdfff < value <= 0x10ffff,
        result matches Some(character) ==> character as u32 == value,
;

/// `String::from_iter` on a slice of characters. Believed: the string holds
/// those characters, in that order.
#[verifier::external_body]
pub(crate) fn string_of(characters: &[char]) -> (text: String)
    ensures
        text@ == characters@,
{
    String::from_iter(characters)
}

/// `String::from_utf8`. Believed: bytes that are UTF-8, and only those, are
/// text, and the text's bytes are the same.
#[verifier::external_body]
pub(crate) fn text_of(bytes: Vec<u8>) -> (text: Option<String>)
    ensures
        text is Some <==> vstd::utf8::valid_utf8(bytes@),
        text matches Some(text) ==> vstd::utf8::encode_utf8(text@) == bytes@,
{
    String::from_utf8(bytes).ok()
}

/// `String::into_boxed_str`. Believed: the text is the same.
#[verifier::external_body]
pub(crate) fn boxed(text: String) -> (name: Box<str>)
    ensures
        name@ == text@,
{
    text.into_boxed_str()
}

/// `Box::<str>::clone`. Believed: the text is the same.
pub assume_specification[ <Box<str> as Clone>::clone ](name: &Box<str>) -> (copy: Box<str>)
    ensures
        copy@ == name@,
;

/// What `str::to_lowercase` makes of `text`: each character by the Unicode
/// tables, whatever the machine and its locale.
pub uninterp spec fn lowercase(text: Seq<char>) -> Seq<char>;

/// Whether every character of `text` is ASCII.
pub open spec fn all_ascii(text: Seq<char>) -> bool {
    forall|i: int| 0 <= i < text.len() ==> (#[trigger] text[i]) as u32 <= 0x7f
}

/// `str::to_lowercase`. Believed: the result depends on the text alone, and
/// is [`lowercase`] of it; each character becomes one or more, so only empty
/// text becomes empty; and of ASCII text, the letters `A` to `Z` become `a` to
/// `z` and all else stays.
#[verifier::external_body]
pub(crate) fn lowercased(text: &str) -> (lower: String)
    ensures
        lower@ == lowercase(text@),
        lower@.len() == 0 <==> text@.len() == 0,
        all_ascii(text@) ==> lower@ == lower_text(text@),
{
    text.to_lowercase()
}

/// `text` in lower case.
pub open spec fn in_lower_case(text: Seq<char>) -> Seq<char> {
    if all_ascii(text) {
        lower_text(text)
    } else {
        lowercase(text)
    }
}

/// `text` in lower case.
pub(crate) fn lower_case(text: &str) -> (lower: String)
    ensures
        lower@ == in_lower_case(text@),
        lower@.len() == 0 <==> text@.len() == 0,
{
    lowercased(text)
}

/// Whether `character` has the Unicode property `White_Space`.
pub open spec fn is_white(character: char) -> bool {
    ||| '\u{9}' <= character <= '\u{d}'
    ||| character == '\u{20}'
    ||| character == '\u{85}'
    ||| character == '\u{a0}'
    ||| character == '\u{1680}'
    ||| '\u{2000}' <= character <= '\u{200a}'
    ||| character == '\u{2028}'
    ||| character == '\u{2029}'
    ||| character == '\u{202f}'
    ||| character == '\u{205f}'
    ||| character == '\u{3000}'
}

/// `char::is_whitespace`. Believed: it says whether the character has the
/// Unicode property `White_Space`, which [`is_white`] lists.
#[verifier::external_body]
pub(crate) fn white(character: char) -> (is: bool)
    ensures
        is == is_white(character),
{
    character.is_whitespace()
}

/// `text` without the white space it starts and ends with.
pub open spec fn trimmed(text: Seq<char>) -> Seq<char>
    decreases text.len(),
{
    if text.len() == 0 {
        text
    } else if is_white(text[0]) {
        trimmed(text.skip(1))
    } else if is_white(text.last()) {
        trimmed(text.drop_last())
    } else {
        text
    }
}

/// `text` without the white space it starts and ends with.
pub fn trim(text: &str) -> (rest: Vec<char>)
    ensures
        rest@ == trimmed(text@),
{
    let characters = characters_of(text);
    let mut end: usize = characters.len();
    let mut start: usize = 0;
    assert(characters@.subrange(0, end as int) =~= text@);
    while start < end && white(characters[start])
        invariant
            start <= end <= characters@.len(),
            trimmed(characters@.subrange(start as int, end as int)) == trimmed(text@),
        decreases end - start,
    {
        assert(characters@.subrange(start as int, end as int).skip(1) =~= characters@.subrange(
            start + 1,
            end as int,
        ));
        start = start + 1;
    }
    while start < end && white(characters[end - 1])
        invariant
            start <= end <= characters@.len(),
            start < end ==> !is_white(characters@[start as int]),
            trimmed(characters@.subrange(start as int, end as int)) == trimmed(text@),
        decreases end - start,
    {
        assert(characters@.subrange(start as int, end as int).drop_last() =~= characters@.subrange(
            start as int,
            end - 1,
        ));
        end = end - 1;
    }
    let rest = vstd::slice::slice_to_vec(
        vstd::slice::slice_subrange(characters.as_slice(), start, end),
    );
    assert(rest@ =~= characters@.subrange(start as int, end as int));
    rest
}

/// A name of its own for `text`.
pub fn name_of(text: &str) -> (name: Box<str>)
    ensures
        name@ == text@,
{
    boxed(text.to_owned())
}

/// The characters of `text`.
pub fn characters_of(text: &str) -> (characters: Vec<char>)
    ensures
        characters@ == text@,
{
    let mut characters: Vec<char> = Vec::new();
    for character in iter: text.chars()
        invariant
            iter.seq() == text@,
            characters@ == text@.take(iter.index() as int),
    {
        characters.push(character);
        assert(text@.take(iter.index() + 1) =~= text@.take(iter.index() as int).push(character));
    }
    assert(text@.take(text@.len() as int) =~= text@);
    characters
}

/// Text and its bytes determine each other.
pub proof fn lemma_bytes_are_text(left: Seq<char>, right: Seq<char>)
    ensures
        vstd::utf8::encode_utf8(left) == vstd::utf8::encode_utf8(right) <==> left == right,
{
    vstd::utf8::encode_utf8_decode_utf8(left);
    vstd::utf8::encode_utf8_decode_utf8(right);
}

/// Whether `text` starts with `first`.
pub open spec fn starts(text: Seq<char>, first: char) -> bool {
    text.len() > 0 && text[0] == first
}

/// Whether `text` starts with `first`.
pub fn begins_with(text: &str, first: char) -> (begins: bool)
    ensures
        begins == starts(text@, first),
{
    !text.is_empty() && text.get_char(0) == first
}

/// Whether `left` and `right` are the same text.
pub fn same(left: &str, right: &str) -> (equal: bool)
    ensures
        equal == (left@ == right@),
{
    let (left_bytes, right_bytes) = (left.as_bytes(), right.as_bytes());
    proof {
        lemma_bytes_are_text(left@, right@);
    }
    same_bytes(left_bytes, right_bytes)
}

/// Whether `left` and `right` hold the same bytes.
pub fn same_bytes(left: &[u8], right: &[u8]) -> (equal: bool)
    ensures
        equal == (left@ == right@),
{
    if left.len() != right.len() {
        return false;
    }
    let mut at: usize = 0;
    while at < left.len()
        invariant
            at <= left@.len() == right@.len(),
            forall|i: int| 0 <= i < at ==> left@[i] == right@[i],
        decreases left@.len() - at,
    {
        if left[at] != right[at] {
            return false;
        }
        at = at + 1;
    }
    assert(left@ =~= right@);
    true
}

/// The text of UTF-16 `units`: a surrogate pair is one character, and a
/// surrogate without its partner is U+FFFD.
pub open spec fn utf16_text(units: Seq<u16>) -> Seq<char>
    decreases units.len(),
{
    if units.len() == 0 {
        Seq::empty()
    } else if !(0xd800 <= units[0] <= 0xdfff) {
        seq![units[0] as char] + utf16_text(units.skip(1))
    } else if units[0] <= 0xdbff && units.len() >= 2 && 0xdc00 <= units[1] <= 0xdfff {
        seq![(0x10000 + (units[0] - 0xd800) * 0x400 + (units[1] - 0xdc00)) as char] + utf16_text(
            units.skip(2),
        )
    } else {
        seq!['\u{fffd}'] + utf16_text(units.skip(1))
    }
}

/// The text of UTF-16 `units`, U+FFFD standing for what is not text.
pub fn decode_utf16(units: &Vec<u16>) -> (text: String)
    ensures
        text@ == utf16_text(units@),
{
    let mut characters: Vec<char> = Vec::new();
    let mut at: usize = 0;
    assert(units@.skip(0) =~= units@);
    assert(characters@ + utf16_text(units@) =~= utf16_text(units@));
    while at < units.len()
        invariant
            at <= units@.len(),
            characters@ + utf16_text(units@.skip(at as int)) == utf16_text(units@),
        decreases units@.len() - at,
    {
        let ghost rest = units@.skip(at as int);
        let ghost before = characters@;
        let unit: u16 = units[at];
        let mut taken: usize = 1;
        let mut scalar: u32 = 0xfffd;
        if !(0xd800 <= unit && unit <= 0xdfff) {
            scalar = unit as u32;
        } else if unit <= 0xdbff && units.len() - at >= 2 && 0xdc00 <= units[at + 1] && units[at
            + 1] <= 0xdfff {
            scalar = 0x10000 + (unit as u32 - 0xd800) * 0x400 + (units[at + 1] as u32 - 0xdc00);
            taken = 2;
        }
        let character = match char::from_u32(scalar) {
            Some(character) => character,
            None => '\u{fffd}',
        };
        characters.push(character);
        at = at + taken;
        proof {
            assert(rest.skip(taken as int) =~= units@.skip(at as int));
            vstd::utf8::char_u32_cast(character, scalar);
            assert(utf16_text(rest) == seq![character] + utf16_text(rest.skip(taken as int)));
            assert(before + (seq![character] + utf16_text(rest.skip(taken as int)))
                =~= characters@ + utf16_text(rest.skip(taken as int)));
        }
    }
    assert(characters@ + utf16_text(units@.skip(at as int)) =~= characters@);
    string_of(&characters)
}

/// An upper-case ASCII letter in lower case; any other character as it is.
pub open spec fn lower_ascii(character: char) -> char {
    if 'A' <= character <= 'Z' {
        (character as int + 32) as char
    } else {
        character
    }
}

/// A lower-case ASCII letter in upper case; any other character as it is.
pub open spec fn upper_ascii(character: char) -> char {
    if 'a' <= character <= 'z' {
        (character as int - 32) as char
    } else {
        character
    }
}

/// `text` with its ASCII letters in lower case.
pub open spec fn lower_text(text: Seq<char>) -> Seq<char> {
    text.map_values(|character: char| lower_ascii(character))
}

/// `text` with its ASCII letters in upper case.
pub open spec fn upper_text(text: Seq<char>) -> Seq<char> {
    text.map_values(|character: char| upper_ascii(character))
}

/// `text` with its ASCII letters in lower case.
pub fn to_lower(text: &Vec<char>) -> (lower: Vec<char>)
    ensures
        lower@ == lower_text(text@),
{
    let mut lower: Vec<char> = Vec::new();
    let mut at: usize = 0;
    while at < text.len()
        invariant
            at <= text@.len(),
            lower@.len() == at,
            forall|i: int| 0 <= i < at ==> #[trigger] lower@[i] == lower_ascii(text@[i]),
        decreases text@.len() - at,
    {
        let character = text[at];
        if 'A' <= character && character <= 'Z' {
            lower.push((character as u8 + 32) as char);
        } else {
            lower.push(character);
        }
        at = at + 1;
    }
    assert(lower@ =~= lower_text(text@));
    lower
}

/// `text` with its ASCII letters in upper case.
pub fn to_upper(text: &Vec<char>) -> (upper: Vec<char>)
    ensures
        upper@ == upper_text(text@),
{
    let mut upper: Vec<char> = Vec::new();
    let mut at: usize = 0;
    while at < text.len()
        invariant
            at <= text@.len(),
            upper@.len() == at,
            forall|i: int| 0 <= i < at ==> #[trigger] upper@[i] == upper_ascii(text@[i]),
        decreases text@.len() - at,
    {
        let character = text[at];
        if 'a' <= character && character <= 'z' {
            upper.push((character as u8 - 32) as char);
        } else {
            upper.push(character);
        }
        at = at + 1;
    }
    assert(upper@ =~= upper_text(text@));
    upper
}

/// Whether `part` stands in `whole` without a gap.
pub open spec fn holds(whole: Seq<char>, part: Seq<char>) -> bool {
    exists|at: int|
        0 <= at <= whole.len() - part.len() && #[trigger] whole.subrange(at, at + part.len())
            == part
}

/// Whether `part` stands in `whole` without a gap.
pub fn contains(whole: &Vec<char>, part: &Vec<char>) -> (found: bool)
    ensures
        found == holds(whole@, part@),
{
    if part.len() > whole.len() {
        return false;
    }
    let length: usize = whole.len();
    let last: usize = length - part.len();
    let mut at: usize = 0;
    loop
        invariant
            length == whole@.len(),
            last == length - part@.len(),
            at <= last,
            forall|i: int| 0 <= i < at ==> #[trigger] whole@.subrange(i, i + part@.len()) != part@,
        decreases last - at,
    {
        let mut matched: usize = 0;
        while matched < part.len() && whole[at + matched] == part[matched]
            invariant
                length == whole@.len(),
                last == length - part@.len(),
                at <= last,
                matched <= part@.len(),
                forall|i: int| 0 <= i < matched ==> whole@[at + i] == part@[i],
            decreases part@.len() - matched,
        {
            matched = matched + 1;
        }
        if matched == part.len() {
            assert(whole@.subrange(at as int, at + part@.len()) =~= part@);
            return true;
        }
        assert(whole@.subrange(at as int, at + part@.len())[matched as int] == whole@[at + matched]);
        if at == last {
            return false;
        }
        at = at + 1;
    }
}

/// Whether `left` is `right` or comes before it, byte by byte.
pub open spec fn precedes(left: Seq<u8>, right: Seq<u8>) -> bool
    decreases left.len(),
{
    if left.len() == 0 {
        true
    } else if right.len() == 0 {
        false
    } else if left[0] != right[0] {
        left[0] < right[0]
    } else {
        precedes(left.skip(1), right.skip(1))
    }
}

/// Of two byte strings, one precedes the other, and both only if they are
/// the same.
pub proof fn lemma_precedes_total(left: Seq<u8>, right: Seq<u8>)
    ensures
        precedes(left, right) || precedes(right, left),
        precedes(left, right) && precedes(right, left) ==> left == right,
    decreases left.len(),
{
    if left.len() > 0 && right.len() > 0 {
        lemma_precedes_total(left.skip(1), right.skip(1));
        if left[0] == right[0] && left.skip(1) == right.skip(1) {
            assert(left =~= seq![left[0]] + left.skip(1));
            assert(right =~= seq![right[0]] + right.skip(1));
        }
    } else if left.len() == 0 && right.len() == 0 {
        assert(left =~= right);
    }
}

/// What precedes something precedes all that this precedes.
pub proof fn lemma_precedes_transitive(first: Seq<u8>, second: Seq<u8>, third: Seq<u8>)
    requires
        precedes(first, second),
        precedes(second, third),
    ensures
        precedes(first, third),
    decreases first.len(),
{
    if first.len() > 0 {
        if first[0] == second[0] && second[0] == third[0] {
            lemma_precedes_transitive(first.skip(1), second.skip(1), third.skip(1));
        }
    }
}

/// Whether `left` is `right` or comes before it, in the order of their
/// bytes.
pub fn not_after(left: &str, right: &str) -> (first: bool)
    ensures
        first == precedes(vstd::utf8::encode_utf8(left@), vstd::utf8::encode_utf8(right@)),
{
    let (left_bytes, right_bytes) = (left.as_bytes(), right.as_bytes());
    let mut at: usize = 0;
    assert(left_bytes@.skip(0) =~= left_bytes@);
    assert(right_bytes@.skip(0) =~= right_bytes@);
    while at < left_bytes.len()
        invariant
            at <= left_bytes@.len(),
            at <= right_bytes@.len(),
            left_bytes@ == vstd::utf8::encode_utf8(left@),
            right_bytes@ == vstd::utf8::encode_utf8(right@),
            precedes(left_bytes@, right_bytes@) == precedes(
                left_bytes@.skip(at as int),
                right_bytes@.skip(at as int),
            ),
        decreases left_bytes@.len() - at,
    {
        if at >= right_bytes.len() {
            return false;
        }
        if left_bytes[at] != right_bytes[at] {
            return left_bytes[at] < right_bytes[at];
        }
        assert(left_bytes@.skip(at as int).skip(1) =~= left_bytes@.skip(at + 1));
        assert(right_bytes@.skip(at as int).skip(1) =~= right_bytes@.skip(at + 1));
        at = at + 1;
    }
    true
}

/// The text of what is there, if anything.
pub open spec fn maybe_text(text: Option<String>) -> Option<Seq<char>> {
    match text {
        Some(text) => Some(text@),
        None => None,
    }
}

/// The texts of `names`.
pub open spec fn texts(names: Seq<String>) -> Seq<Seq<char>> {
    names.map_values(|name: String| name@)
}

/// The number that the decimal digits `digits` are; `None` if one is none.
pub open spec fn decimal(digits: Seq<char>) -> Option<nat>
    decreases digits.len(),
{
    if digits.len() == 0 {
        Some(0)
    } else {
        let last = digits.last();
        match decimal(digits.drop_last()) {
            Some(before) => if '0' <= last <= '9' {
                Some(10 * before + (last as nat - '0' as nat) as nat)
            } else {
                None
            },
            None => None,
        }
    }
}

/// The number that `text` is, in decimal digits behind a plus or nothing;
/// `None` if it is none, or more than 32 bits hold.
pub open spec fn number_in(text: Seq<char>) -> Option<nat> {
    let digits = if starts(text, '+') {
        text.skip(1)
    } else {
        text
    };
    if digits.len() == 0 {
        None
    } else {
        match decimal(digits) {
            Some(value) => if value <= u32::MAX {
                Some(value)
            } else {
                None
            },
            None => None,
        }
    }
}

proof fn lemma_decimal_grows(digits: Seq<char>, few: int)
    requires
        0 <= few <= digits.len(),
    ensures
        decimal(digits.take(few)) is None ==> decimal(digits) is None,
        decimal(digits.take(few)) matches Some(part) ==> (decimal(digits) matches Some(whole)
            ==> part <= whole),
    decreases digits.len(),
{
    if few < digits.len() {
        lemma_decimal_grows(digits.drop_last(), few);
        assert(digits.drop_last().take(few) =~= digits.take(few));
    } else {
        assert(digits.take(few) =~= digits);
    }
}

/// The number that `text` is, in decimal digits behind a plus or nothing;
/// `None` if it is none, or more than 32 bits hold.
pub fn to_number(text: &str) -> (number: Option<u32>)
    ensures
        match number {
            Some(number) => number_in(text@) == Some(number as nat),
            None => number_in(text@) is None,
        },
{
    let characters = characters_of(text);
    let count: usize = characters.len();
    let start: usize = if count > 0 && characters[0] == '+' {
        1
    } else {
        0
    };
    let ghost digits = text@.skip(start as int);
    assert(start == 0 ==> digits =~= text@);
    if start == count {
        return None;
    }
    let mut value: u32 = 0;
    let mut at: usize = start;
    assert(digits.take(0) =~= Seq::empty());
    while at < count
        invariant
            start <= at <= count,
            count == characters@.len(),
            characters@ == text@,
            digits == text@.skip(start as int),
            digits.len() > 0,
            number_in(text@) == (match decimal(digits) {
                Some(value) => if value <= u32::MAX {
                    Some(value)
                } else {
                    None
                },
                None => None,
            }),
            decimal(digits.take(at - start)) == Some(value as nat),
        decreases count - at,
    {
        let character = characters[at];
        proof {
            let more = digits.take(at + 1 - start);
            assert(more.drop_last() =~= digits.take(at - start));
            assert(more.last() == character);
            lemma_decimal_grows(digits, at + 1 - start);
        }
        if !('0' <= character && character <= '9') {
            return None;
        }
        let digit: u32 = character as u32 - '0' as u32;
        if value > (u32::MAX - digit) / 10 {
            return None;
        }
        value = 10 * value + digit;
        at = at + 1;
    }
    assert(digits.take(at - start) =~= digits);
    Some(value)
}

} // verus!
