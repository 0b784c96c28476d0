//! How far a cache goes, and what its bytes are.

use vstd::prelude::*;
use vstd::utf8::encode_utf8;

use crate::cache::cursor;
use crate::cache::error::CacheError;
use crate::cache::file;
use crate::cache::keys;
use crate::cache::laws;
use crate::cache::nodes;
use crate::cache::numbers;
use crate::cache::places;
use crate::cache::places::Base;
use crate::mft::growth;
use crate::scan::ScanOptions;
use crate::tree::node;
use crate::tree::node::{NodeKind, Tree};

verus! {

/// A name of up to 65,536 bytes is read back, and a longer one is said to be
/// too long.
pub proof fn lemma_longest_name(text: Seq<char>, before: Seq<u8>, after: Seq<u8>)
    requires
        encode_utf8(text).len() <= u32::MAX,
    ensures
        ({
            let at = before.len() as int;
            let all = before + cursor::framed(text) + after;
            if encode_utf8(text).len() <= 65_536 {
                cursor::text_at(all, at) == Ok::<_, CacheError>(
                    (text, at + cursor::framed(text).len()),
                )
            } else {
                cursor::text_at(all, at) == Err::<(Seq<char>, int), _>(CacheError::NameTooLong)
            }
        }),
{
    if encode_utf8(text).len() <= 65_536 {
        laws::lemma_text_round_trip(text, before, after);
    } else {
        let raw = encode_utf8(text);
        let length = numbers::leb(raw.len());
        laws::lemma_number(raw.len(), before, raw + after);
        assert(before + length + (raw + after) =~= before + cursor::framed(text) + after);
    }
}

/// Whether no name in `tree` has more than 65,536 bytes, and no directory more
/// children than 64 bits count.
pub open spec fn ordinary(tree: Tree) -> bool
    decreases tree,
{
    &&& encode_utf8(tree.name).len() <= 65_536
    &&& tree.children.len() <= u64::MAX
    &&& forall|i: int| 0 <= i < tree.children.len() ==> ordinary(#[trigger] tree.children[i])
}

proof fn lemma_all_storable(children: Seq<Tree>, depth: int)
    requires
        0 <= depth,
        forall|i: int| 0 <= i < children.len() ==> ordinary(#[trigger] children[i]),
        children.len() > 0 ==> depth + node::levels(children) <= 4097,
    ensures
        laws::all_storable(children, depth),
    decreases children, 0int,
{
    if children.len() > 0 {
        let before = children.drop_last();
        assert forall|i: int| 0 <= i < before.len() implies ordinary(#[trigger] before[i]) by {
            assert(children[i] == before[i]);
        }
        assert(ordinary(children[children.len() - 1]));
        node::lemma_levels(children, children.len() - 1);
        assert(node::levels(before) <= node::levels(children));
        lemma_all_storable(before, depth);
        lemma_ordinary_tree_storable(children.last(), depth);
    }
}

/// Every tree of such names can be stored and read back, if nothing in it lies
/// deeper than 4,096 levels.
pub proof fn lemma_ordinary_tree_storable(tree: Tree, depth: int)
    requires
        0 <= depth,
        ordinary(tree),
        depth + node::height(tree) <= 4096,
    ensures
        laws::storable(tree, depth),
    decreases tree, 1int,
{
    reveal_with_fuel(ordinary, 2);
    reveal_with_fuel(node::height, 2);
    assert(node::height(tree) == node::levels(tree.children));
    lemma_all_storable(tree.children, depth + 1);
    reveal_with_fuel(laws::storable, 2);
    reveal_with_fuel(laws::all_storable, 2);
}

/// Beneath 4,096 levels nothing is read: it is too deep, whatever it is.
pub proof fn lemma_too_deep(bytes: Seq<u8>, at: int, depth: int)
    ensures
        depth > 4096 ==> nodes::node_at(bytes, at, depth) == Err::<(Tree, int), _>(
            CacheError::TooDeep,
        ),
{
}

/// A cache starts with the letters `DTRC` and its version, the first; an entry
/// with a number for its kind, from which a set top bit tells that it could
/// not be read.
pub proof fn lemma_first_bytes(key: Seq<char>, saved_at: i64, tree: Tree)
    ensures
        file::written(key, saved_at, tree).take(5) == seq![0x44u8, 0x54, 0x52, 0x43, 1],
        nodes::heading(tree)[0] == (match tree.kind {
            NodeKind::Directory => 0int,
            NodeKind::File => 1,
            NodeKind::Symlink => 2,
            NodeKind::Other => 3,
        }) + if tree.read_error {
            128int
        } else {
            0
        },
{
    let all = file::written(key, saved_at, tree);
    assert(numbers::leb(1) =~= seq![1u8]);
    assert(all.take(5) =~= file::magic() + numbers::leb(1));
    assert(file::magic() + seq![1u8] =~= seq![0x44u8, 0x54, 0x52, 0x43, 1]);
}

/// What hexadecimal digits are worth.
pub open spec fn hex_value(digits: Seq<char>) -> nat
    decreases digits.len(),
{
    if digits.len() == 0 {
        0
    } else {
        let last = digits.last();
        16 * hex_value(digits.drop_last()) + (if '0' <= last <= '9' {
            (last as nat - '0' as nat) as nat
        } else {
            (last as nat - 'a' as nat + 10) as nat
        })
    }
}

/// Sixteen to the power `count`.
pub open spec fn sixteens(count: nat) -> nat
    decreases count,
{
    if count == 0 {
        1
    } else {
        16 * sixteens((count - 1) as nat)
    }
}

proof fn lemma_digits(value: u64, count: nat)
    requires
        value < sixteens(count),
    ensures
        hex_value(keys::digits(value, count)) == value,
        keys::digits(value, count).len() == count,
        forall|i: int|
            0 <= i < count ==> {
                ||| '0' <= #[trigger] keys::digits(value, count)[i] <= '9'
                ||| 'a' <= keys::digits(value, count)[i] <= 'f'
            },
    decreases count,
{
    if count > 0 {
        let few = (count - 1) as nat;
        lemma_digits(value / 16, few);
        let digits = keys::digits(value, count);
        let last = keys::digit((value % 16) as int);
        assert(digits.drop_last() =~= keys::digits(value / 16, few));
        assert(digits.last() == last);
        assert forall|i: int| 0 <= i < count implies {
            ||| '0' <= #[trigger] digits[i] <= '9'
            ||| 'a' <= digits[i] <= 'f'
        } by {
            if i < few {
                assert(digits[i] == keys::digits(value / 16, few)[i]);
            }
        }
    }
}

/// A cache's file is named by sixteen digits, worth the hash of its key, and
/// `.tree`: so two caches have one name only if their hashes are one.
pub proof fn lemma_name_is_hash(key: Seq<char>, other: Seq<char>)
    ensures
        keys::name_of_key(key).len() == 21,
        hex_value(keys::name_of_key(key).take(16)) == keys::fnv(encode_utf8(key)),
        keys::name_of_key(key).skip(16) == ".tree"@,
        keys::name_of_key(key) == keys::name_of_key(other) <==> keys::fnv(encode_utf8(key))
            == keys::fnv(encode_utf8(other)),
{
    reveal_with_fuel(sixteens, 17);
    reveal_strlit(".tree");
    assert(sixteens(16) == 0x1_0000_0000_0000_0000);
    lemma_digits(keys::fnv(encode_utf8(key)), 16);
    lemma_digits(keys::fnv(encode_utf8(other)), 16);
    assert(keys::name_of_key(key).take(16) =~= keys::digits(keys::fnv(encode_utf8(key)), 16));
    assert(keys::name_of_key(other).take(16) =~= keys::digits(keys::fnv(encode_utf8(other)), 16));
    assert(keys::name_of_key(key).skip(16) =~= ".tree"@);
}

/// Caches live below a directory of this machine's kind, which is absolute:
/// the cache directory that is set where there is one, else the home.
pub proof fn lemma_base(
    windows: bool,
    local: Option<bool>,
    cache_home: Option<bool>,
    home: Option<bool>,
)
    ensures
        windows && local == Some(true) ==> places::base_of(windows, local, cache_home, home)
            == Some(Base::Local),
        windows && local != Some(true) ==> places::base_of(windows, local, cache_home, home)
            is None,
        !windows && cache_home == Some(true) ==> places::base_of(
            windows,
            local,
            cache_home,
            home,
        ) == Some(Base::CacheHome),
        !windows && cache_home != Some(true) && home == Some(true) ==> places::base_of(
            windows,
            local,
            cache_home,
            home,
        ) == Some(Base::Home),
        !windows && cache_home != Some(true) && home != Some(true) ==> places::base_of(
            windows,
            local,
            cache_home,
            home,
        ) is None,
        Base::Local.names() == seq!["disktree"@, "cache"@],
        Base::CacheHome.names() == seq!["disktree"@],
        Base::Home.names() == seq![".cache"@, "disktree"@],
{
}

/// A number ends at its first byte below 128, or at its tenth: of that only
/// the lowest bit counts, and where it says that more follow, the number is
/// too long.
pub proof fn lemma_ten_bytes(bytes: Seq<u8>, at: int)
    requires
        0 <= at,
        at + 9 < bytes.len(),
        forall|i: int| at <= i < at + 9 ==> #[trigger] bytes[i] >= 128,
    ensures
        bytes[at + 9] >= 128 ==> numbers::number_at(bytes, at) == Err::<(nat, int), _>(
            CacheError::NumberTooLong,
        ),
        bytes[at + 9] < 128 ==> (numbers::number_at(bytes, at) matches Ok((value, next)) && next
            == at + 10 && value / 0x8000_0000_0000_0000 == bytes[at + 9] % 2),
{
    reveal_with_fuel(numbers::number_from, 11);
    assert(bytes[at] >= 128 && bytes[at + 1] >= 128 && bytes[at + 2] >= 128);
    assert(bytes[at + 3] >= 128 && bytes[at + 4] >= 128 && bytes[at + 5] >= 128);
    assert(bytes[at + 6] >= 128 && bytes[at + 7] >= 128 && bytes[at + 8] >= 128);
}

/// A byte is seven bits of a number, those of the bytes behind it counting
/// 128 times as much; without its end a number is cut short.
pub proof fn lemma_first_byte(bytes: Seq<u8>, at: int, count: int)
    requires
        0 <= count < 9,
    ensures
        at >= bytes.len() ==> numbers::number_from(bytes, at, count) == Err::<(nat, int), _>(
            CacheError::Truncated,
        ),
        at < bytes.len() && bytes[at] < 128 ==> numbers::number_from(bytes, at, count) == Ok::<
            _,
            CacheError,
        >((bytes[at] as nat, at + 1)),
        at < bytes.len() && bytes[at] >= 128 ==> match numbers::number_from(
            bytes,
            at + 1,
            count + 1,
        ) {
            Ok((rest, next)) => numbers::number_from(bytes, at, count) == Ok::<_, CacheError>(
                ((bytes[at] - 128 + 128 * rest) as nat, next),
            ),
            Err(error) => numbers::number_from(bytes, at, count) == Err::<(nat, int), _>(error),
        },
{
}

/// An entry of a kind that there is none of is an error, and so is a name that
/// is no text.
pub proof fn lemma_not_an_entry(bytes: Seq<u8>, at: int, depth: int)
    requires
        0 <= at < bytes.len(),
        depth <= 4096,
    ensures
        bytes[at] % 128 > 3 && cursor::text_at(bytes, at + 1) is Ok ==> nodes::node_at(
            bytes,
            at,
            depth,
        ) == Err::<(Tree, int), _>(CacheError::UnknownKind),
        cursor::text_at(bytes, at + 1) matches Err(error) ==> nodes::node_at(bytes, at, depth)
            == Err::<(Tree, int), _>(error),
{
}

/// Text is read as far as it is long; what is none, or ends too soon, is said
/// so.
pub proof fn lemma_text_read(bytes: Seq<u8>, at: int, length: nat, next: int)
    requires
        numbers::number_at(bytes, at) == Ok::<_, CacheError>((length, next)),
        length <= 65_536,
    ensures
        next + length > bytes.len() ==> cursor::text_at(bytes, at) == Err::<(Seq<char>, int), _>(
            CacheError::Truncated,
        ),
        next + length <= bytes.len() && !vstd::utf8::valid_utf8(
            bytes.subrange(next, next + length),
        ) ==> cursor::text_at(bytes, at) == Err::<(Seq<char>, int), _>(CacheError::NameNotUtf8),
        next + length <= bytes.len() && vstd::utf8::valid_utf8(bytes.subrange(next, next + length))
            ==> (cursor::text_at(bytes, at) matches Ok((text, end)) && end == next + length
            && encode_utf8(text) == bytes.subrange(next, next + length)),
{
    let part = bytes.subrange(next, next + length);
    if next + length <= bytes.len() && vstd::utf8::valid_utf8(part) {
        vstd::utf8::decode_utf8_encode_utf8(part);
    }
}

/// The hash of a key starts from a number and takes in a byte at a time: the
/// lowest eight bits are changed by it, and all is multiplied, modulo what 64
/// bits hold.
pub proof fn lemma_hash(bytes: Seq<u8>, byte: u8)
    ensures
        keys::fnv(Seq::empty()) == 0xcbf2_9ce4_8422_2325,
        keys::fnv(bytes.push(byte)) == ((keys::fnv(bytes) ^ byte as u64) * 0x0100_0000_01b3)
            % 0x1_0000_0000_0000_0000,
{
    let all = bytes.push(byte);
    assert(all.drop_last() =~= bytes);
    assert(all.last() == byte);
}

/// What is cached has no holes: every directory is listed that lies within
/// 4,096 levels. A scan that is not cached leaves one out at its limit.
pub proof fn lemma_cached_is_whole(options: ScanOptions, depth: nat)
    ensures
        file::whole_tree(options) && depth < 4096 ==> growth::lists(depth, options),
        !file::whole_tree(options) ==> (options.max_depth matches Some(limit) && !growth::lists(
            limit as nat,
            options,
        )),
{
}

} // verus!
