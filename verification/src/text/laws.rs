//! What holds of every text that is compared, trimmed or read.

use vstd::prelude::*;

use crate::text;

verus! {

/// What two byte strings have in common does not order them: at the first
/// difference the smaller byte comes first, and what ends there comes before
/// what goes on.
pub proof fn lemma_first_difference(common: Seq<u8>, left: Seq<u8>, right: Seq<u8>)
    requires
        left.len() > 0 && right.len() > 0 ==> left[0] != right[0],
    ensures
        text::precedes(common + left, common + right) <==> {
            ||| left.len() == 0
            ||| right.len() > 0 && left[0] < right[0]
        },
    decreases common.len(),
{
    if common.len() > 0 {
        lemma_first_difference(common.skip(1), left, right);
        assert((common + left).skip(1) =~= common.skip(1) + left);
        assert((common + right).skip(1) =~= common.skip(1) + right);
    } else {
        assert(common + left =~= left);
        assert(common + right =~= right);
    }
}

/// Whether all of `text` is white space.
pub open spec fn blank(text: Seq<char>) -> bool {
    forall|i: int| 0 <= i < text.len() ==> text::is_white(#[trigger] text[i])
}

/// White space before and behind a text is trimmed, and nothing else.
pub proof fn lemma_trimmed(before: Seq<char>, middle: Seq<char>, after: Seq<char>)
    requires
        blank(before),
        blank(after),
        middle.len() > 0 ==> !text::is_white(middle[0]) && !text::is_white(middle.last()),
    ensures
        text::trimmed(before + middle + after) == middle,
    decreases before.len() + after.len(),
{
    let all = before + middle + after;
    if before.len() > 0 {
        assert(all[0] == before[0]);
        assert(all.skip(1) =~= before.skip(1) + middle + after);
        lemma_trimmed(before.skip(1), middle, after);
    } else if after.len() > 0 {
        assert(all.last() == after.last());
        if middle.len() == 0 {
            assert(all =~= after);
            assert(all.skip(1) =~= after.skip(1) + middle + before);
            lemma_trimmed(before, middle, after.skip(1));
            assert(before + middle + after.skip(1) =~= all.skip(1));
        } else {
            assert(all[0] == middle[0]);
            assert(all.drop_last() =~= before + middle + after.drop_last());
            lemma_trimmed(before, middle, after.drop_last());
        }
    } else {
        assert(all =~= middle);
    }
}

/// Spaces, tabs and line ends are white space; no visible ASCII character is.
pub proof fn lemma_white_space(character: char)
    ensures
        character == ' ' || character == '\t' || character == '\n' || character == '\r'
            ==> text::is_white(character),
        '!' <= character <= '~' ==> !text::is_white(character),
{
}

/// The letters `A` to `Z` stand 32 before their small ones, and only letters
/// change case: other characters keep theirs, and so does a text its length.
pub proof fn lemma_case(text: Seq<char>)
    ensures
        text::lower_text(text).len() == text.len(),
        text::upper_text(text).len() == text.len(),
        forall|i: int|
            #![trigger text[i]]
            0 <= i < text.len() ==> {
                &&& ('A' <= text[i] <= 'Z' ==> text::lower_text(text)[i] as int == text[i] as int
                    + 32)
                &&& (!('A' <= text[i] <= 'Z') ==> text::lower_text(text)[i] == text[i])
                &&& ('a' <= text[i] <= 'z' ==> text::upper_text(text)[i] as int == text[i] as int
                    - 32)
                &&& (!('a' <= text[i] <= 'z') ==> text::upper_text(text)[i] == text[i])
            },
{
}

/// Case does not tell texts apart once it is taken away: a text in either case
/// has the same small letters and the same capitals.
pub proof fn lemma_case_taken_away(text: Seq<char>)
    ensures
        text::lower_text(text::upper_text(text)) == text::lower_text(text),
        text::lower_text(text::lower_text(text)) == text::lower_text(text),
        text::upper_text(text::lower_text(text)) == text::upper_text(text),
        text::upper_text(text::upper_text(text)) == text::upper_text(text),
{
    let (lower, upper) = (text::lower_text(text), text::upper_text(text));
    assert forall|i: int| 0 <= i < text.len() implies {
        &&& text::lower_ascii(text::upper_ascii(#[trigger] text[i])) == text::lower_ascii(text[i])
        &&& text::lower_ascii(text::lower_ascii(text[i])) == text::lower_ascii(text[i])
        &&& text::upper_ascii(text::lower_ascii(text[i])) == text::upper_ascii(text[i])
        &&& text::upper_ascii(text::upper_ascii(text[i])) == text::upper_ascii(text[i])
    } by {
        let c = text[i];
        if 'A' <= c <= 'Z' {
            let small = text::lower_ascii(c);
            assert(small as int == c as int + 32);
            assert(text::upper_ascii(small) as int == c as int);
        }
        if 'a' <= c <= 'z' {
            let capital = text::upper_ascii(c);
            assert(capital as int == c as int - 32);
            assert(text::lower_ascii(capital) as int == c as int);
        }
    }
    assert(text::lower_text(upper) =~= lower);
    assert(text::lower_text(lower) =~= lower);
    assert(text::upper_text(lower) =~= upper);
    assert(text::upper_text(upper) =~= upper);
}

/// A text holds each part of itself, and nothing that it has to be changed
/// for.
pub proof fn lemma_holds_parts(whole: Seq<char>, part: Seq<char>)
    ensures
        text::holds(whole, part) <==> exists|before: Seq<char>, after: Seq<char>|
            whole == #[trigger] (before + part + after),
{
    if text::holds(whole, part) {
        let at = choose|at: int|
            0 <= at <= whole.len() - part.len() && #[trigger] whole.subrange(at, at + part.len())
                == part;
        let (before, after) = (whole.take(at), whole.skip(at + part.len()));
        assert forall|i: int| at <= i < at + part.len() implies whole[i] == part[i - at] by {
            assert(whole.subrange(at, at + part.len())[i - at] == whole[i]);
        }
        assert(whole =~= before + part + after);
    }
    if exists|before: Seq<char>, after: Seq<char>| whole == #[trigger] (before + part + after) {
        let (before, after) = choose|before: Seq<char>, after: Seq<char>|
            whole == #[trigger] (before + part + after);
        let at = before.len() as int;
        assert(whole.subrange(at, at + part.len()) =~= part);
    }
}

/// A character that one UTF-16 unit is stands for itself.
pub proof fn lemma_unit_is_character(unit: u16, rest: Seq<u16>)
    requires
        unit < 0xd800 || 0xdfff < unit,
    ensures
        text::utf16_text(seq![unit] + rest) == seq![unit as char] + text::utf16_text(rest),
{
    assert((seq![unit] + rest).skip(1) =~= rest);
}

/// The character `scalar` above U+FFFF is a high surrogate and a low one: what
/// it exceeds U+10000 by in two halves of ten bits.
pub proof fn lemma_pair_is_character(scalar: u32, rest: Seq<u16>)
    requires
        0x10000 <= scalar <= 0x10ffff,
    ensures
        ({
            let high = (0xd800 + (scalar - 0x10000) / 0x400) as u16;
            let low = (0xdc00 + (scalar - 0x10000) % 0x400) as u16;
            text::utf16_text(seq![high, low] + rest) == seq![scalar as char] + text::utf16_text(
                rest,
            )
        }),
{
    let high = (0xd800 + (scalar - 0x10000) / 0x400) as u16;
    let low = (0xdc00 + (scalar - 0x10000) % 0x400) as u16;
    let all = seq![high, low] + rest;
    assert(all.skip(2) =~= rest);
    assert(all[0] == high && all[1] == low);
    assert(0x10000 + (high - 0xd800) * 0x400 + (low - 0xdc00) == scalar);
}

/// A surrogate without its partner becomes U+FFFD, and what follows is read as
/// if it stood alone.
pub proof fn lemma_lone_surrogate(unit: u16, rest: Seq<u16>)
    requires
        0xd800 <= unit <= 0xdfff,
        unit <= 0xdbff && rest.len() > 0 ==> !(0xdc00 <= rest[0] <= 0xdfff),
    ensures
        text::utf16_text(seq![unit] + rest) == seq!['\u{fffd}'] + text::utf16_text(rest),
{
    let all = seq![unit] + rest;
    assert(all.skip(1) =~= rest);
    if rest.len() > 0 {
        assert(all[1] == rest[0]);
    }
}

/// The digit that stands for `value`.
pub open spec fn digit(value: int) -> char {
    ('0' as int + value) as char
}

/// `value` in decimal digits, at least one.
pub open spec fn in_digits(value: nat) -> Seq<char>
    decreases value,
{
    if value < 10 {
        seq![digit(value as int)]
    } else {
        in_digits(value / 10).push(digit((value % 10) as int))
    }
}

proof fn lemma_digits_read(value: nat)
    ensures
        text::decimal(in_digits(value)) == Some(value),
        in_digits(value).len() > 0,
        '0' <= in_digits(value)[0] <= '9',
    decreases value,
{
    let digits = in_digits(value);
    let last = digit((value % 10) as int);
    assert('0' <= last <= '9');
    assert(last as nat - '0' as nat == value % 10);
    if value < 10 {
        assert(digits.drop_last() =~= Seq::empty());
        assert(text::decimal(digits.drop_last()) == Some(0nat));
        assert(digits.last() == last);
    } else {
        lemma_digits_read(value / 10);
        assert(digits.drop_last() =~= in_digits(value / 10));
        assert(digits[0] == in_digits(value / 10)[0]);
    }
}

/// A number that 32 bits hold is read from its digits, a plus before them or
/// not; a larger one is not read.
pub proof fn lemma_number_read(value: nat)
    ensures
        value <= u32::MAX ==> text::number_in(in_digits(value)) == Some(value),
        value <= u32::MAX ==> text::number_in(seq!['+'] + in_digits(value)) == Some(value),
        value > u32::MAX ==> text::number_in(in_digits(value)) is None,
{
    lemma_digits_read(value);
    let signed = seq!['+'] + in_digits(value);
    assert(signed.skip(1) =~= in_digits(value));
    assert(signed[0] == '+');
}

proof fn lemma_not_decimal(digits: Seq<char>, at: int)
    requires
        0 <= at < digits.len(),
        !('0' <= digits[at] <= '9'),
    ensures
        text::decimal(digits) is None,
    decreases digits.len(),
{
    if at < digits.len() - 1 {
        lemma_not_decimal(digits.drop_last(), at);
    }
}

/// Whatever holds anything but digits is no number, a plus at its front aside;
/// nor is what holds nothing.
pub proof fn lemma_no_number(words: Seq<char>, at: int)
    requires
        0 <= at < words.len(),
        !('0' <= words[at] <= '9'),
        !(at == 0 && words[0] == '+'),
    ensures
        text::number_in(words) is None,
        text::number_in(Seq::empty()) is None,
        text::number_in(seq!['+']) is None,
{
    if text::starts(words, '+') {
        let digits = words.skip(1);
        assert(digits[at - 1] == words[at]);
        lemma_not_decimal(digits, at - 1);
    } else {
        lemma_not_decimal(words, at);
    }
}

} // verus!
