//! Numbers in as few bytes as they need.

use vstd::prelude::*;

use crate::cache::error::CacheError;

verus! {

/// `value` in LEB128: seven bits to a byte, the low ones first, with the top
/// bit of a byte set where more follow. Most sizes and counts fit in one to
/// four bytes.
pub open spec fn leb(value: nat) -> Seq<u8>
    decreases value,
{
    if value < 128 {
        seq![value as u8]
    } else {
        seq![(value % 128 + 128) as u8] + leb(value / 128)
    }
}

/// What is read: a value and where what follows it starts, or what is off.
pub type Outcome<T> = Result<(T, int), CacheError>;

/// The bytes of a number, at most.
pub const LONGEST: usize = 10;

/// The number that stands at `at`, `count` bytes of it being read before. Of
/// the last byte that a number can have, only the lowest bit is left.
pub open spec fn number_from(bytes: Seq<u8>, at: int, count: int) -> Outcome<nat>
    decreases LONGEST - count,
{
    if at >= bytes.len() {
        Err(CacheError::Truncated)
    } else {
        let last = count >= LONGEST - 1;
        let part = if last {
            (bytes[at] % 2) as nat
        } else {
            (bytes[at] % 128) as nat
        };
        if bytes[at] < 128 {
            Ok((part, at + 1))
        } else if last {
            Err(CacheError::NumberTooLong)
        } else {
            match number_from(bytes, at + 1, count + 1) {
                Ok((rest, next)) => Ok((part + 128 * rest, next)),
                Err(error) => Err(error),
            }
        }
    }
}

/// The number that stands at `at`.
pub open spec fn number_at(bytes: Seq<u8>, at: int) -> Outcome<nat> {
    number_from(bytes, at, 0)
}

/// Zigzag, so small negative times stay short: even numbers for those that
/// are not negative, odd ones for those that are.
pub open spec fn zigzag(value: i64) -> nat {
    if value >= 0 {
        (2 * value) as nat
    } else {
        (-2 * value - 1) as nat
    }
}

/// The number that zigzag makes `raw` of.
pub open spec fn unzigzag(raw: nat) -> int {
    if raw % 2 == 0 {
        (raw / 2) as int
    } else {
        -((raw / 2) as int) - 1
    }
}

/// The signed number that stands at `at`.
pub open spec fn signed_at(bytes: Seq<u8>, at: int) -> Outcome<i64> {
    match number_at(bytes, at) {
        Ok((raw, next)) => Ok((unzigzag(raw) as i64, next)),
        Err(error) => Err(error),
    }
}

/// The worth of byte `count` of a number.
pub open spec fn scale(count: int) -> nat
    decreases count,
{
    if count <= 0 {
        1
    } else {
        128 * scale(count - 1)
    }
}

/// The last byte of a number is worth the top bit of 64.
pub proof fn lemma_scale(count: int)
    requires
        0 <= count < LONGEST,
    ensures
        scale(9) == 0x8000_0000_0000_0000,
        1 <= scale(count) <= scale(9),
        count < 9 ==> scale(count + 1) == 128 * scale(count) && scale(count + 1) <= scale(9),
{
    reveal_with_fuel(scale, 11);
}

/// A number that is read fits in 64 bits, takes at least a byte, and ends
/// where the bytes do or before.
pub proof fn lemma_number_from(bytes: Seq<u8>, at: int, count: int)
    requires
        0 <= count < LONGEST,
    ensures
        number_from(bytes, at, count) matches Ok((value, next)) ==> {
            &&& value * scale(count) <= u64::MAX
            &&& at < next <= bytes.len()
        },
    decreases LONGEST - count,
{
    lemma_scale(count);
    if at < bytes.len() {
        let last = count >= LONGEST - 1;
        if bytes[at] >= 128 && !last {
            lemma_number_from(bytes, at + 1, count + 1);
            lemma_scale(count + 1);
            if let Ok((rest, next)) = number_from(bytes, at + 1, count + 1) {
                let part = (bytes[at] % 128) as nat;
                let unit = scale(count);
                // What the rest is worth is a whole number of units of the
                // next byte, below 2^64: one more of them at most reaches it.
                lemma_whole_units(rest, part, unit, scale(count + 1));
            }
        } else if let Ok((part, next)) = number_from(bytes, at, count) {
            let unit = scale(count);
            if last {
                assert(count == 9);
                assert(part * unit <= unit) by (nonlinear_arith)
                    requires
                        part <= 1,
                ;
            } else {
                assert(part * unit <= 127 * unit) by (nonlinear_arith)
                    requires
                        part <= 127,
                ;
            }
        }
    }
}

/// 2^64 is a whole number of units of each byte of a number.
proof fn lemma_whole_units(rest: nat, part: nat, unit: nat, larger: nat)
    requires
        part <= 127,
        larger == 128 * unit,
        exists|count: int| 0 < count < LONGEST && larger == #[trigger] scale(count),
        rest * larger <= u64::MAX,
    ensures
        (part + 128 * rest) * unit <= u64::MAX,
{
    let count = choose|count: int| 0 < count < LONGEST && larger == #[trigger] scale(count);
    let many = lemma_units(count);
    let limit: nat = 0x1_0000_0000_0000_0000;
    assert(rest + 1 <= many) by (nonlinear_arith)
        requires
            rest * larger < limit,
            many * larger == limit,
    ;
    assert((part + 128 * rest) * unit + unit <= (rest + 1) * larger) by (nonlinear_arith)
        requires
            part <= 127,
            larger == 128 * unit,
    ;
    assert((rest + 1) * larger <= many * larger) by (nonlinear_arith)
        requires
            rest + 1 <= many,
    ;
    lemma_scale(count - 1);
}

proof fn lemma_units(count: int) -> (many: nat)
    requires
        0 <= count < LONGEST,
    ensures
        many * scale(count) == 0x1_0000_0000_0000_0000,
    decreases LONGEST - count,
{
    lemma_scale(count);
    if count == 9 {
        2
    } else {
        let fewer = lemma_units(count + 1);
        let unit = scale(count);
        assert((fewer * 128) * unit == fewer * (128 * unit)) by (nonlinear_arith);
        fewer * 128
    }
}

/// A number that is written is read back, whatever follows it.
pub proof fn lemma_number_round_trip(value: nat, before: Seq<u8>, after: Seq<u8>, count: int)
    requires
        0 <= count < LONGEST,
        value * scale(count) <= u64::MAX,
    ensures
        number_from(before + leb(value) + after, before.len() as int, count) == Ok::<_, CacheError>(
            (value, (before.len() + leb(value).len()) as int),
        ),
    decreases value,
{
    let all = before + leb(value) + after;
    let at = before.len() as int;
    lemma_scale(count);
    if count == 9 {
        let unit = scale(9);
        assert(value <= 1) by (nonlinear_arith)
            requires
                value * unit <= u64::MAX,
                unit == 0x8000_0000_0000_0000,
        ;
    }
    if value < 128 {
        assert(all[at] == value as u8);
    } else {
        let first = (value % 128 + 128) as u8;
        let rest = leb(value / 128);
        assert(all[at] == leb(value)[0]);
        assert(all[at] == first);
        assert(first % 128 == value % 128);
        let unit = scale(count);
        assert((value / 128) * (128 * unit) <= value * unit) by (nonlinear_arith);
        lemma_number_round_trip(value / 128, before.push(first), after, count + 1);
        assert(before.push(first) + rest + after =~= all);
    }
}

/// Every signed number has a zigzag, which is undone.
pub proof fn lemma_zigzag(value: i64)
    ensures
        zigzag(value) <= u64::MAX,
        unzigzag(zigzag(value)) == value,
{
}

/// What a 64-bit zigzag stands for fits in 64 bits.
pub proof fn lemma_unzigzag(raw: nat)
    requires
        raw <= u64::MAX,
    ensures
        i64::MIN <= unzigzag(raw) <= i64::MAX,
{
}

/// `value` in LEB128, behind `bytes`.
pub fn write_number(bytes: &mut Vec<u8>, value: u64)
    ensures
        final(bytes)@ == old(bytes)@ + leb(value as nat),
{
    let ghost before = bytes@;
    let mut left: u64 = value;
    assert(bytes@ + leb(left as nat) =~= before + leb(value as nat));
    while left >= 128
        invariant
            before == old(bytes)@,
            bytes@ + leb(left as nat) == before + leb(value as nat),
        decreases left,
    {
        let ghost held = bytes@;
        let byte: u8 = (left % 128) as u8 + 128;
        bytes.push(byte);
        assert(held + leb(left as nat) =~= bytes@ + leb((left / 128) as nat));
        left = left / 128;
    }
    let ghost held = bytes@;
    bytes.push(left as u8);
    assert(held + leb(left as nat) =~= bytes@);
}

/// The number that stands at `at`, and where what follows it starts.
pub fn read_number(bytes: &[u8], at: usize) -> (outcome: Result<(u64, usize), CacheError>)
    ensures
        match outcome {
            Ok((value, next)) => number_at(bytes@, at as int) == Ok::<_, CacheError>(
                (value as nat, next as int),
            ),
            Err(error) => number_at(bytes@, at as int) == Err::<(nat, int), _>(error),
        },
{
    let mut value: u64 = 0;
    let mut unit: u64 = 1;
    let mut count: usize = 0;
    let mut position: usize = at;
    let ghost whole = number_at(bytes@, at as int);
    proof {
        reveal_with_fuel(scale, 1);
        if let Ok((rest, next)) = whole {
            assert(0 + 1 * rest == rest) by (nonlinear_arith);
        }
    }
    loop
        invariant
            count < LONGEST,
            whole == number_at(bytes@, at as int),
            unit == scale(count as int),
            value < unit,
            match number_from(bytes@, position as int, count as int) {
                Ok((rest, next)) => whole == Ok::<_, CacheError>(
                    ((value + unit * rest) as nat, next),
                ),
                Err(error) => whole == Err::<(nat, int), _>(error),
            },
        decreases LONGEST - count,
    {
        if position >= bytes.len() {
            return Err(CacheError::Truncated);
        }
        let byte: u8 = bytes[position];
        let last = count == LONGEST - 1;
        let part: u64 = if last {
            (byte % 2) as u64
        } else {
            (byte % 128) as u64
        };
        proof {
            lemma_scale(count as int);
            if last {
                assert(unit * part <= unit) by (nonlinear_arith)
                    requires
                        part <= 1,
                        unit >= 0,
                ;
            } else {
                assert(unit * part <= 127 * unit) by (nonlinear_arith)
                    requires
                        part <= 127,
                        unit >= 0,
                ;
            }
            assert(unit * part >= 0) by (nonlinear_arith);
        }
        let more: u64 = value + unit * part;
        if byte < 128 {
            return Ok((more, position + 1));
        }
        if last {
            return Err(CacheError::NumberTooLong);
        }
        proof {
            if let Ok((rest, next)) = number_from(bytes@, position + 1, count + 1) {
                assert(value + unit * (part + 128 * rest) == (value + unit * part) + (unit * 128)
                    * rest) by (nonlinear_arith);
            }
        }
        value = more;
        unit = unit * 128;
        count = count + 1;
        position = position + 1;
    }
}

/// `value` in zigzag.
pub fn to_zigzag(value: i64) -> (raw: u64)
    ensures
        raw == zigzag(value),
{
    if value >= 0 {
        value as u64 * 2
    } else {
        (-(value + 1)) as u64 * 2 + 1
    }
}

/// What `raw` is the zigzag of.
pub fn from_zigzag(raw: u64) -> (value: i64)
    ensures
        value == unzigzag(raw as nat),
{
    let half: i64 = (raw / 2) as i64;
    if raw % 2 == 0 {
        half
    } else {
        -half - 1
    }
}

} // verus!
