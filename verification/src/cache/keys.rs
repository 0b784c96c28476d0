//! What a cache is kept under.

use vstd::prelude::*;
use vstd::string::StringExecFns;

use crate::scan::ScanOptions;
use crate::text;
use crate::text::string_of;

verus! {

/// What FNV-1a starts from.
pub const FNV_OFFSET: u64 = 0xcbf2_9ce4_8422_2325;

/// What FNV-1a multiplies by.
pub const FNV_PRIME: u64 = 0x0100_0000_01b3;

/// `flag` in a word.
pub open spec fn word(flag: bool) -> Seq<char> {
    if flag {
        "true"@
    } else {
        "false"@
    }
}

/// An option and what it is set to.
pub open spec fn stated(label: Seq<char>, flag: bool) -> Seq<char> {
    label + word(flag)
}

/// What is in a key of each option that changes what a scan measures.
pub open spec fn measures(options: ScanOptions) -> Seq<char> {
    stated("\0apparent="@, options.apparent_size) + (stated(" hidden="@, options.include_hidden) + (
    stated(" one_fs="@, options.one_filesystem) + (stated(" follow="@, options.follow_links)
        + stated(" dedup="@, options.dedup_hardlinks))))
}

/// The key of the scan of `root` with `options`.
pub open spec fn key_of(root: Seq<char>, options: ScanOptions) -> Seq<char> {
    root + measures(options)
}

fn flag(value: bool) -> (text: &'static str)
    ensures
        text@ == word(value),
{
    if value {
        "true"
    } else {
        "false"
    }
}

/// Put an option and what it is set to behind `key`.
fn state(key: &mut String, label: &str, value: bool)
    ensures
        final(key)@ == old(key)@ + stated(label@, value),
{
    let ghost before = key@;
    key.append(label);
    key.append(flag(value));
    assert(key@ =~= before + stated(label@, value));
}

proof fn lemma_nested(
    first: Seq<char>,
    a: Seq<char>,
    b: Seq<char>,
    c: Seq<char>,
    d: Seq<char>,
    e: Seq<char>,
)
    ensures
        first + a + b + c + d + e == first + (a + (b + (c + (d + e)))),
{
    assert(first + a + b + c + d + e =~= first + (a + (b + (c + (d + e)))));
}

/// Everything that changes what a scan measures. The metric is left out:
/// it only orders the tree, and ordering is redone on load.
pub fn key(root: &str, options: &ScanOptions) -> (key: String)
    ensures
        key@ == key_of(root@, *options),
{
    let mut key = root.to_owned();
    state(&mut key, "\0apparent=", options.apparent_size);
    state(&mut key, " hidden=", options.include_hidden);
    state(&mut key, " one_fs=", options.one_filesystem);
    state(&mut key, " follow=", options.follow_links);
    state(&mut key, " dedup=", options.dedup_hardlinks);
    proof {
        lemma_nested(
            root@,
            stated("\0apparent="@, options.apparent_size),
            stated(" hidden="@, options.include_hidden),
            stated(" one_fs="@, options.one_filesystem),
            stated(" follow="@, options.follow_links),
            stated(" dedup="@, options.dedup_hardlinks),
        );
    }
    key
}

/// FNV-1a of `bytes`.
pub open spec fn fnv(bytes: Seq<u8>) -> u64
    decreases bytes.len(),
{
    if bytes.len() == 0 {
        FNV_OFFSET
    } else {
        (fnv(bytes.drop_last()) ^ bytes.last() as u64).wrapping_mul(FNV_PRIME)
    }
}

/// The hexadecimal digit worth `value`.
pub open spec fn digit(value: int) -> char {
    if value < 10 {
        ('0' as int + value) as char
    } else {
        ('a' as int + value - 10) as char
    }
}

/// The last `count` hexadecimal digits of `value`.
pub open spec fn digits(value: u64, count: nat) -> Seq<char>
    decreases count,
{
    if count == 0 {
        Seq::empty()
    } else {
        digits(value / 16, (count - 1) as nat).push(digit((value % 16) as int))
    }
}

/// The name of the file of the cache with the key `key`.
pub open spec fn name_of_key(key: Seq<char>) -> Seq<char> {
    digits(fnv(vstd::utf8::encode_utf8(key)), 16) + ".tree"@
}

fn to_digits(value: u64, count: usize) -> (text: Vec<char>)
    ensures
        text@ == digits(value, count as nat),
    decreases count,
{
    if count == 0 {
        return Vec::new();
    }
    let mut text = to_digits(value / 16, count - 1);
    let last: u8 = (value % 16) as u8;
    if last < 10 {
        text.push((0x30 + last) as char);
    } else {
        text.push((0x61 + last - 10) as char);
    }
    text
}

/// FNV-1a, spelled out so the name of a cache file does not change with a
/// dependency's hasher.
pub fn file_name(key: &str) -> (name: String)
    ensures
        name@ == name_of_key(key@),
{
    let bytes = key.as_bytes();
    let mut hash: u64 = FNV_OFFSET;
    let mut at: usize = 0;
    assert(bytes@.take(0) =~= Seq::empty());
    while at < bytes.len()
        invariant
            at <= bytes@.len(),
            hash == fnv(bytes@.take(at as int)),
        decreases bytes@.len() - at,
    {
        proof {
            assert(bytes@.take(at + 1).drop_last() =~= bytes@.take(at as int));
            assert(bytes@.take(at + 1).last() == bytes@[at as int]);
        }
        hash = (hash ^ bytes[at] as u64).wrapping_mul(FNV_PRIME);
        at = at + 1;
    }
    assert(bytes@.take(at as int) =~= bytes@);
    let mut name = string_of(&to_digits(hash, 16));
    name.append(".tree");
    name
}

/// Of two options with one label, the text tells what they are set to, and
/// what follows.
proof fn lemma_peeled(
    label: Seq<char>,
    left: bool,
    left_rest: Seq<char>,
    right: bool,
    right_rest: Seq<char>,
)
    requires
        stated(label, left) + left_rest == stated(label, right) + right_rest,
    ensures
        left == right,
        left_rest == right_rest,
{
    let (first, second) = (stated(label, left) + left_rest, stated(label, right) + right_rest);
    let at = label.len() as int;
    assert(word(left)[0] != word(right)[0] || left == right) by {
        reveal_strlit("true");
        reveal_strlit("false");
    }
    assert(word(left).len() > 0 && word(right).len() > 0) by {
        reveal_strlit("true");
        reveal_strlit("false");
    }
    assert(first[at] == word(left)[0]);
    assert(second[at] == word(right)[0]);
    assert(left_rest =~= first.skip(at + word(left).len()));
    assert(right_rest =~= second.skip(at + word(right).len()));
}

/// Options have the same text in a key only if they measure the same.
proof fn lemma_measures(left: ScanOptions, right: ScanOptions)
    requires
        measures(left) == measures(right),
    ensures
        left.apparent_size == right.apparent_size,
        left.include_hidden == right.include_hidden,
        left.one_filesystem == right.one_filesystem,
        left.follow_links == right.follow_links,
        left.dedup_hardlinks == right.dedup_hardlinks,
{
    let left_fifth = stated(" dedup="@, left.dedup_hardlinks);
    let right_fifth = stated(" dedup="@, right.dedup_hardlinks);
    let left_fourth = stated(" follow="@, left.follow_links) + left_fifth;
    let right_fourth = stated(" follow="@, right.follow_links) + right_fifth;
    let left_third = stated(" one_fs="@, left.one_filesystem) + left_fourth;
    let right_third = stated(" one_fs="@, right.one_filesystem) + right_fourth;
    let left_second = stated(" hidden="@, left.include_hidden) + left_third;
    let right_second = stated(" hidden="@, right.include_hidden) + right_third;
    lemma_peeled(
        "\0apparent="@,
        left.apparent_size,
        left_second,
        right.apparent_size,
        right_second,
    );
    lemma_peeled(" hidden="@, left.include_hidden, left_third, right.include_hidden, right_third);
    lemma_peeled(
        " one_fs="@,
        left.one_filesystem,
        left_fourth,
        right.one_filesystem,
        right_fourth,
    );
    lemma_peeled(" follow="@, left.follow_links, left_fifth, right.follow_links, right_fifth);
    let none = Seq::<char>::empty();
    assert(left_fifth + none =~= left_fifth);
    assert(right_fifth + none =~= right_fifth);
    lemma_peeled(" dedup="@, left.dedup_hardlinks, none, right.dedup_hardlinks, none);
}

/// Of an option and what it is set to, only a NUL in the label is one.
proof fn lemma_stated(label: Seq<char>, flag: bool, index: int)
    requires
        0 <= index < stated(label, flag).len(),
        index < label.len() ==> label[index] != '\0',
    ensures
        stated(label, flag)[index] != '\0',
{
    reveal_strlit("true");
    reveal_strlit("false");
}

/// What follows a root in a key starts with a NUL, and holds no other.
proof fn lemma_measures_start(options: ScanOptions)
    ensures
        measures(options).len() > 0,
        measures(options)[0] == '\0',
        forall|i: int| 0 < i < measures(options).len() ==> #[trigger] measures(options)[i] != '\0',
{
    let all = measures(options);
    let first = stated("\0apparent="@, options.apparent_size);
    let second = stated(" hidden="@, options.include_hidden);
    let third = stated(" one_fs="@, options.one_filesystem);
    let fourth = stated(" follow="@, options.follow_links);
    let fifth = stated(" dedup="@, options.dedup_hardlinks);
    reveal_strlit("\0apparent=");
    assert(all[0] == first[0]);
    assert forall|i: int| 0 < i < all.len() implies #[trigger] all[i] != '\0' by {
        reveal_strlit(" hidden=");
        reveal_strlit(" one_fs=");
        reveal_strlit(" follow=");
        reveal_strlit(" dedup=");
        let to_second = first.len() as int;
        let to_third = to_second + second.len();
        let to_fourth = to_third + third.len();
        let to_fifth = to_fourth + fourth.len();
        if i < to_second {
            assert(all[i] == first[i]);
            lemma_stated("\0apparent="@, options.apparent_size, i);
        } else if i < to_third {
            assert(all[i] == second[i - to_second]);
            lemma_stated(" hidden="@, options.include_hidden, i - to_second);
        } else if i < to_fourth {
            assert(all[i] == third[i - to_third]);
            lemma_stated(" one_fs="@, options.one_filesystem, i - to_third);
        } else if i < to_fifth {
            assert(all[i] == fourth[i - to_fourth]);
            lemma_stated(" follow="@, options.follow_links, i - to_fourth);
        } else {
            assert(all[i] == fifth[i - to_fifth]);
            lemma_stated(" dedup="@, options.dedup_hardlinks, i - to_fifth);
        }
    }
}

/// A root ends where the last NUL is.
proof fn lemma_roots(
    left_root: Seq<char>,
    left: Seq<char>,
    right_root: Seq<char>,
    right: Seq<char>,
)
    requires
        left.len() > 0 && left[0] == '\0',
        right.len() > 0 && right[0] == '\0',
        forall|i: int| 0 < i < left.len() ==> #[trigger] left[i] != '\0',
        forall|i: int| 0 < i < right.len() ==> #[trigger] right[i] != '\0',
        left_root + left == right_root + right,
    ensures
        left_root == right_root,
        left == right,
{
    let (first, second) = (left_root + left, right_root + right);
    assert(first.len() == left_root.len() + left.len());
    assert(second.len() == right_root.len() + right.len());
    assert(first[left_root.len() as int] == left[0]);
    assert(second[right_root.len() as int] == right[0]);
    if left_root.len() < right_root.len() {
        assert(first[right_root.len() as int] == left[right_root.len() - left_root.len()]);
    }
    if right_root.len() < left_root.len() {
        assert(second[left_root.len() as int] == right[left_root.len() - right_root.len()]);
    }
    assert(left_root =~= first.take(left_root.len() as int));
    assert(right_root =~= second.take(right_root.len() as int));
    assert(left =~= first.skip(left_root.len() as int));
    assert(right =~= second.skip(right_root.len() as int));
}

/// Whether scans with `left` and with `right` measure the same: the metric,
/// the depth and how the volume is read do not count.
pub open spec fn measure_alike(left: ScanOptions, right: ScanOptions) -> bool {
    &&& left.apparent_size == right.apparent_size
    &&& left.include_hidden == right.include_hidden
    &&& left.one_filesystem == right.one_filesystem
    &&& left.follow_links == right.follow_links
    &&& left.dedup_hardlinks == right.dedup_hardlinks
}

/// Two scans have the same key if and only if they are of the same root and
/// measure the same.
pub proof fn lemma_key_tells_scans_apart(
    left_root: Seq<char>,
    left: ScanOptions,
    right_root: Seq<char>,
    right: ScanOptions,
)
    ensures
        key_of(left_root, left) == key_of(right_root, right) <==> left_root == right_root
            && measure_alike(left, right),
{
    if key_of(left_root, left) == key_of(right_root, right) {
        lemma_measures_start(left);
        lemma_measures_start(right);
        lemma_roots(left_root, measures(left), right_root, measures(right));
        lemma_measures(left, right);
    }
}

} // verus!
