//! What a cache gives back of what was saved.

use vstd::prelude::*;
use vstd::utf8::encode_utf8;

use crate::cache::cursor;
use crate::cache::error::CacheError;
use crate::cache::file;
use crate::cache::keys;
use crate::cache::nodes;
use crate::cache::numbers;
use crate::classify::Category;
use crate::scan::ScanOptions;
use crate::sort;
use crate::tree::node;
use crate::tree::node::{Metric, Node, Tree};
use crate::tree::totals;

verus! {

/// What is stored of `tree`: each entry's name and kind, of a leaf its bytes
/// and last write, of a directory what is in it and whether it could be read.
pub open spec fn measured(tree: Tree) -> Tree
    decreases tree,
{
    if tree.kind is Directory {
        Tree {
            read_error: tree.read_error,
            children: all_measured(tree.children),
            ..node::new_directory(tree.name)
        }
    } else {
        Tree {
            modified: tree.modified,
            ..node::new_entry(tree.name, tree.kind, tree.own_bytes)
        }
    }
}

/// What is stored of each of `children`.
pub open spec fn all_measured(children: Seq<Tree>) -> Seq<Tree>
    decreases children,
{
    if children.len() == 0 {
        Seq::empty()
    } else {
        all_measured(children.drop_last()).push(measured(children.last()))
    }
}

/// Whether `tree`, `depth` levels down, is one that a filesystem can hold:
/// no name is longer than is read, nor is anything deeper.
pub open spec fn storable(tree: Tree, depth: int) -> bool
    decreases tree,
{
    &&& 0 <= depth <= nodes::MAX_DEPTH
    &&& encode_utf8(tree.name).len() <= cursor::LONGEST_NAME
    &&& tree.kind is Directory ==> tree.children.len() <= u64::MAX && all_storable(
        tree.children,
        depth + 1,
    )
}

/// Whether each of `children`, `depth` levels down, is one that a filesystem
/// can hold.
pub open spec fn all_storable(children: Seq<Tree>, depth: int) -> bool
    decreases children,
{
    children.len() > 0 ==> all_storable(children.drop_last(), depth) && storable(
        children.last(),
        depth,
    )
}

proof fn lemma_measured(tree: Tree)
    requires
        tree.kind is Directory,
    ensures
        measured(tree) == (Tree {
            read_error: tree.read_error,
            children: all_measured(tree.children),
            ..node::new_directory(tree.name)
        }),
        nodes::stored(tree) == nodes::heading(tree) + numbers::leb(tree.children.len())
            + nodes::all_stored(tree.children),
        forall|depth: int|
            storable(tree, depth) ==> #[trigger] all_storable(tree.children, depth + 1),
{
    reveal_with_fuel(measured, 2);
    reveal_with_fuel(all_measured, 2);
    reveal_with_fuel(nodes::stored, 2);
    reveal_with_fuel(nodes::all_stored, 2);
    reveal_with_fuel(storable, 2);
    reveal_with_fuel(all_storable, 2);
    assert forall|depth: int| storable(tree, depth) implies #[trigger] all_storable(
        tree.children,
        depth + 1,
    ) by {
        lemma_storable(tree, depth);
    }
}

proof fn lemma_storable(tree: Tree, depth: int)
    requires
        tree.kind is Directory,
        storable(tree, depth),
    ensures
        all_storable(tree.children, depth + 1),
        tree.children.len() <= u64::MAX,
{
    reveal_with_fuel(storable, 2);
    reveal_with_fuel(all_storable, 2);
}

/// A number that is written is read back, whatever follows it.
pub proof fn lemma_number(value: nat, before: Seq<u8>, after: Seq<u8>)
    requires
        value <= u64::MAX,
    ensures
        numbers::number_at(before + numbers::leb(value) + after, before.len() as int) == Ok::<
            _,
            CacheError,
        >((value, (before.len() + numbers::leb(value).len()) as int)),
{
    reveal_with_fuel(numbers::scale, 1);
    assert(value * 1 == value);
    numbers::lemma_number_round_trip(value, before, after, 0);
}

/// A name that is written is read back, whatever follows it.
pub proof fn lemma_text_round_trip(text: Seq<char>, before: Seq<u8>, after: Seq<u8>)
    requires
        encode_utf8(text).len() <= cursor::LONGEST_NAME,
    ensures
        cursor::text_at(before + cursor::framed(text) + after, before.len() as int) == Ok::<
            _,
            CacheError,
        >((text, (before.len() + cursor::framed(text).len()) as int)),
{
    let raw = encode_utf8(text);
    let all = before + cursor::framed(text) + after;
    let length = numbers::leb(raw.len());
    lemma_number(raw.len(), before, raw + after);
    assert(before + length + (raw + after) =~= all);
    let next = (before.len() + length.len()) as int;
    assert(all.subrange(next, next + raw.len()) =~= raw);
    vstd::utf8::encode_utf8_valid_utf8(text);
    vstd::utf8::encode_utf8_decode_utf8(text);
}

/// A time that is written is read back, whatever follows it.
pub proof fn lemma_signed_round_trip(value: i64, before: Seq<u8>, after: Seq<u8>)
    ensures
        numbers::signed_at(
            before + numbers::leb(numbers::zigzag(value)) + after,
            before.len() as int,
        ) == Ok::<_, CacheError>(
            (value, (before.len() + numbers::leb(numbers::zigzag(value)).len()) as int),
        ),
{
    numbers::lemma_zigzag(value);
    lemma_number(numbers::zigzag(value), before, after);
}

proof fn lemma_heading(tree: Tree, before: Seq<u8>, after: Seq<u8>)
    requires
        encode_utf8(tree.name).len() <= cursor::LONGEST_NAME,
    ensures
        ({
            let all = before + nodes::heading(tree) + after;
            let tag = nodes::heading(tree)[0];
            let at = before.len() as int;
            &&& cursor::byte_at(all, at) == Ok::<_, CacheError>((tag, at + 1))
            &&& (tag >= nodes::READ_ERROR) == tree.read_error
            &&& nodes::kind_of((tag % nodes::READ_ERROR) as u8) == Some(tree.kind)
            &&& cursor::text_at(all, at + 1) == Ok::<_, CacheError>(
                (tree.name, at + nodes::heading(tree).len()),
            )
        }),
{
    let all = before + nodes::heading(tree) + after;
    let tag = nodes::heading(tree)[0];
    assert(all[before.len() as int] == tag);
    lemma_text_round_trip(tree.name, before.push(tag), after);
    assert(before.push(tag) + cursor::framed(tree.name) + after =~= all);
}

/// Three parts between what comes before and after, however they are put
/// together.
proof fn lemma_parts(before: Seq<u8>, a: Seq<u8>, b: Seq<u8>, c: Seq<u8>, after: Seq<u8>)
    ensures
        before + a + (b + c + after) == before + (a + b + c) + after,
        before + a + b + (c + after) == before + (a + b + c) + after,
        before + a + b + c + after == before + (a + b + c) + after,
{
    let all = before + (a + b + c) + after;
    assert(before + a + (b + c + after) =~= all);
    assert(before + a + b + (c + after) =~= all);
    assert(before + a + b + c + after =~= all);
}

proof fn lemma_leaf_round_trip(tree: Tree, before: Seq<u8>, after: Seq<u8>, depth: int)
    requires
        storable(tree, depth),
        !(tree.kind is Directory),
    ensures
        nodes::node_at(before + nodes::stored(tree) + after, before.len() as int, depth) == Ok::<
            _,
            CacheError,
        >((measured(tree), (before.len() + nodes::stored(tree).len()) as int)),
{
    let heading = nodes::heading(tree);
    let size = numbers::leb(tree.own_bytes as nat);
    let time = numbers::leb(numbers::zigzag(tree.modified));
    lemma_parts(before, heading, size, time, after);
    lemma_heading(tree, before, size + time + after);
    lemma_number(tree.own_bytes as nat, before + heading, time + after);
    lemma_signed_round_trip(tree.modified, before + heading + size, after);
}

/// An entry that is written is read back as what is stored of it, whatever
/// follows it.
pub proof fn lemma_node_round_trip(tree: Tree, before: Seq<u8>, after: Seq<u8>, depth: int)
    requires
        storable(tree, depth),
    ensures
        nodes::node_at(before + nodes::stored(tree) + after, before.len() as int, depth) == Ok::<
            _,
            CacheError,
        >((measured(tree), (before.len() + nodes::stored(tree).len()) as int)),
    decreases tree, 1int,
{
    if tree.kind is Directory {
        let heading = nodes::heading(tree);
        let count = numbers::leb(tree.children.len());
        let inner = nodes::all_stored(tree.children);
        lemma_measured(tree);
        lemma_storable(tree, depth);
        lemma_parts(before, heading, count, inner, after);
        lemma_heading(tree, before, count + inner + after);
        lemma_number(tree.children.len(), before + heading, inner + after);
        lemma_nodes_round_trip(tree.children, before + heading + count, after, depth + 1);
        nodes::lemma_directory_at(
            before + nodes::stored(tree) + after,
            before.len() as int,
            depth,
        );
    } else {
        lemma_leaf_round_trip(tree, before, after, depth);
    }
}

proof fn lemma_nodes_round_trip(
    children: Seq<Tree>,
    before: Seq<u8>,
    after: Seq<u8>,
    depth: int,
)
    requires
        0 <= depth <= nodes::MAX_DEPTH + 1,
        all_storable(children, depth),
    ensures
        nodes::nodes_at(
            before + nodes::all_stored(children) + after,
            before.len() as int,
            depth,
            children.len(),
        ) == Ok::<_, CacheError>(
            (all_measured(children), (before.len() + nodes::all_stored(children).len()) as int),
        ),
    decreases children, 0int,
{
    let all = before + nodes::all_stored(children) + after;
    if children.len() > 0 {
        let (first, last) = (nodes::all_stored(children.drop_last()), nodes::stored(
            children.last(),
        ));
        assert(nodes::all_stored(children) == first + last);
        lemma_nodes_round_trip(children.drop_last(), before, last + after, depth);
        assert(before + first + (last + after) =~= all);
        lemma_node_round_trip(children.last(), before + first, after, depth);
        assert(before + first + last + after =~= all);
    }
}

/// Where each part of a saved cache stands.
pub proof fn lemma_saved_layout(key: Seq<char>, saved_at: i64, tree: Tree)
    requires
        encode_utf8(key).len() <= cursor::LONGEST_NAME,
        storable(tree, 0),
    ensures
        ({
            let all = file::written(key, saved_at, tree);
            let after_version = (4 + numbers::leb(file::VERSION as nat).len()) as int;
            let after_key = after_version + cursor::framed(key).len();
            let after_time = after_key + numbers::leb(numbers::zigzag(saved_at)).len();
            &&& all.len() >= 4
            &&& all.take(4) == file::magic()
            &&& numbers::number_at(all, 4) == Ok::<_, CacheError>(
                (file::VERSION as nat, after_version),
            )
            &&& cursor::text_at(all, after_version) == Ok::<_, CacheError>((key, after_key))
            &&& numbers::signed_at(all, after_key) == Ok::<_, CacheError>((saved_at, after_time))
            &&& nodes::node_at(all, after_time, 0) == Ok::<_, CacheError>(
                (measured(tree), all.len() as int),
            )
        }),
{
    let all = file::written(key, saved_at, tree);
    let magic = file::magic();
    let version = numbers::leb(file::VERSION as nat);
    let text = cursor::framed(key);
    let time = numbers::leb(numbers::zigzag(saved_at));
    let stored = nodes::stored(tree);
    let none = Seq::<u8>::empty();
    assert(all.take(4) =~= magic);
    lemma_number(file::VERSION as nat, magic, text + time + stored);
    assert(magic + version + (text + time + stored) =~= all);
    lemma_text_round_trip(key, magic + version, time + stored);
    assert(magic + version + text + (time + stored) =~= all);
    lemma_signed_round_trip(saved_at, magic + version + text, stored);
    assert(magic + version + text + time + stored =~= all);
    lemma_node_round_trip(tree, magic + version + text + time, none, 0);
    assert(magic + version + text + time + stored + none =~= all);
}

/// What is saved is read back: the bytes of a cache hold, for its key, what is
/// stored of the tree and when it was saved.
pub proof fn lemma_saved_reads_back(key: Seq<char>, saved_at: i64, tree: Tree)
    requires
        encode_utf8(key).len() <= cursor::LONGEST_NAME,
        storable(tree, 0),
    ensures
        file::held(file::written(key, saved_at, tree), key) == Ok::<_, CacheError>(
            Some((measured(tree), saved_at)),
        ),
{
    lemma_saved_layout(key, saved_at, tree);
}

/// Another key is turned down before the tree is read: whatever was saved
/// under one key, no tree is held for any other. Nothing is, where the key is
/// short enough to be read; a longer one is an error.
pub proof fn lemma_other_key_sees_nothing(
    key: Seq<char>,
    saved_at: i64,
    tree: Tree,
    other: Seq<char>,
)
    requires
        encode_utf8(key).len() <= u64::MAX,
        other != key,
    ensures
        !(file::held(file::written(key, saved_at, tree), other) matches Ok(Some(_))),
        encode_utf8(key).len() <= cursor::LONGEST_NAME ==> file::held(
            file::written(key, saved_at, tree),
            other,
        ) == Ok::<Option<(Tree, i64)>, CacheError>(None),
{
    let all = file::written(key, saved_at, tree);
    let magic = file::magic();
    let version = numbers::leb(file::VERSION as nat);
    let text = encode_utf8(key);
    let rest = numbers::leb(numbers::zigzag(saved_at)) + nodes::stored(tree);
    assert(all.take(4) =~= magic);
    lemma_number(file::VERSION as nat, magic, cursor::framed(key) + rest);
    assert(magic + version + (cursor::framed(key) + rest) =~= all);
    let before = magic + version;
    if text.len() <= cursor::LONGEST_NAME {
        lemma_text_round_trip(key, before, rest);
        assert(before + cursor::framed(key) + rest =~= all);
    } else {
        lemma_number(text.len(), before, text + rest);
        assert(before + numbers::leb(text.len()) + (text + rest) =~= all);
    }
}

/// A scan of another root, or one that measures otherwise, does not see the
/// cache: its bytes hold nothing for it, whatever the tree.
pub proof fn lemma_other_scan_sees_nothing(
    root: Seq<char>,
    options: ScanOptions,
    saved_at: i64,
    tree: Tree,
    other_root: Seq<char>,
    other: ScanOptions,
)
    requires
        encode_utf8(keys::key_of(root, options)).len() <= cursor::LONGEST_NAME,
        other_root != root || !keys::measure_alike(options, other),
    ensures
        file::held(
            file::written(keys::key_of(root, options), saved_at, tree),
            keys::key_of(other_root, other),
        ) == Ok::<Option<(Tree, i64)>, CacheError>(None),
{
    keys::lemma_key_tells_scans_apart(root, options, other_root, other);
    lemma_other_key_sees_nothing(
        keys::key_of(root, options),
        saved_at,
        tree,
        keys::key_of(other_root, other),
    );
}

/// Bytes that do not start as a cache does, or are of another version, hold
/// nothing for any key.
pub proof fn lemma_foreign_bytes_hold_nothing(bytes: Seq<u8>, key: Seq<char>)
    requires
        bytes.len() >= 4,
        bytes.take(4) != file::magic() || (numbers::number_at(bytes, 4) matches Ok((version, _))
            && version != file::VERSION),
    ensures
        file::held(bytes, key) == Ok::<Option<(Tree, i64)>, CacheError>(None),
{
}

/// `tree` without what no cache stores: which files are one, and what kind of
/// data each is.
pub open spec fn bared(tree: Tree) -> Tree
    decreases tree,
{
    Tree {
        inode: None,
        category: Category::Other,
        reclaim: None,
        children: all_bared(tree.children),
        ..tree
    }
}

/// Each of `children` without what no cache stores.
pub open spec fn all_bared(children: Seq<Tree>) -> Seq<Tree>
    decreases children,
{
    if children.len() == 0 {
        Seq::empty()
    } else {
        all_bared(children.drop_last()).push(bared(children.last()))
    }
}

/// Whether each leaf of `tree` is as a scan makes it: nothing is beneath it,
/// it could be read, and it counts as a file if it is one.
pub open spec fn plain(tree: Tree) -> bool
    decreases tree,
{
    if tree.kind is Directory {
        all_plain(tree.children)
    } else {
        &&& tree.children.len() == 0
        &&& !tree.read_error
        &&& tree.own_files == (if tree.kind is File {
            1u64
        } else {
            0
        })
    }
}

/// Whether the leaves of each of `children` are as a scan makes them.
pub open spec fn all_plain(children: Seq<Tree>) -> bool
    decreases children,
{
    children.len() > 0 ==> all_plain(children.drop_last()) && plain(children.last())
}

proof fn lemma_bared(tree: Tree)
    ensures
        bared(tree) == (Tree {
            inode: None,
            category: Category::Other,
            reclaim: None,
            children: all_bared(tree.children),
            ..tree
        }),
        tree.kind is Directory && plain(tree) ==> all_plain(tree.children),
{
    reveal_with_fuel(bared, 2);
    reveal_with_fuel(all_bared, 2);
    reveal_with_fuel(plain, 2);
    reveal_with_fuel(all_plain, 2);
}

proof fn lemma_all_bared(children: Seq<Tree>)
    ensures
        all_bared(children).len() == children.len(),
        forall|i: int|
            0 <= i < children.len() ==> #[trigger] all_bared(children)[i] == bared(children[i]),
        totals::newest(all_bared(children)) == totals::newest(children),
    decreases children.len(),
{
    if children.len() > 0 {
        lemma_all_bared(children.drop_last());
        lemma_bared(children.last());
        assert(all_bared(children).last() == bared(children.last()));
        assert(all_bared(children).drop_last() =~= all_bared(children.drop_last()));
    }
}

/// Baring changes no order.
proof fn lemma_bared_ranked(children: Seq<Tree>, metric: Metric)
    ensures
        totals::ranked(all_bared(children), metric) == all_bared(totals::ranked(children, metric)),
{
    let ranking = totals::ranking(metric);
    let bare = |tree: Tree| bared(tree);
    assert forall|left: Tree, right: Tree| #[trigger]
        ranking(left, right) == ranking(bare(left), bare(right)) by {
        lemma_bared(left);
        lemma_bared(right);
    }
    sort::lemma_ordered_maps(children, ranking, bare, ranking);
    lemma_all_bared(children);
    lemma_all_bared(sort::ordered(children, ranking));
    assert(children.map_values(bare) =~= all_bared(children));
    assert(sort::ordered(children, ranking).map_values(bare) =~= all_bared(
        sort::ordered(children, ranking),
    ));
}

proof fn lemma_measured_totals(tree: Tree)
    requires
        plain(tree),
    ensures
        totals::totals(measured(tree)) == totals::totals(tree),
        measured(tree).kind == tree.kind,
    decreases tree, 1int,
{
    if tree.kind is Directory {
        lemma_measured(tree);
        lemma_bared(tree);
        lemma_all_measured_totals(tree.children);
        totals::lemma_aggregated_directory(tree, Metric::Bytes);
        totals::lemma_aggregated_directory(measured(tree), Metric::Bytes);
    }
}

proof fn lemma_all_measured_totals(children: Seq<Tree>)
    requires
        all_plain(children),
    ensures
        totals::sum(all_measured(children)) == totals::sum(children),
        totals::direct(all_measured(children)) == totals::direct(children),
        all_measured(children).len() == children.len(),
    decreases children, 0int,
{
    if children.len() > 0 {
        lemma_all_measured_totals(children.drop_last());
        lemma_measured_totals(children.last());
        assert(all_measured(children).drop_last() =~= all_measured(children.drop_last()));
    }
}

proof fn lemma_all_restored(children: Seq<Tree>, metric: Metric)
    requires
        all_plain(children),
    ensures
        totals::all_aggregated(all_measured(children), metric) == all_bared(
            totals::all_aggregated(children, metric),
        ),
    decreases children, 0int,
{
    if children.len() > 0 {
        let shorter = children.drop_last();
        lemma_all_restored(shorter, metric);
        lemma_restored(children.last(), metric);
        assert(all_measured(children).drop_last() =~= all_measured(shorter));
        assert(totals::all_aggregated(children, metric).drop_last() =~= totals::all_aggregated(
            shorter,
            metric,
        ));
    }
}

/// Working out the totals of what is stored of a tree comes to the same as
/// working out those of the tree: nothing but what no cache stores is lost,
/// whatever the metric.
pub proof fn lemma_restored(tree: Tree, metric: Metric)
    requires
        plain(tree),
    ensures
        totals::aggregated(measured(tree), metric) == bared(totals::aggregated(tree, metric)),
    decreases tree, 1int,
{
    let worked = totals::aggregated(tree, metric);
    lemma_bared(tree);
    lemma_bared(worked);
    if tree.kind is Directory {
        let children = totals::all_aggregated(tree.children, metric);
        lemma_measured(tree);
        totals::lemma_aggregated_directory(tree, metric);
        totals::lemma_aggregated_directory(measured(tree), metric);
        lemma_all_restored(tree.children, metric);
        lemma_all_bared(children);
        lemma_bared_ranked(children, metric);
        lemma_all_measured_totals(tree.children);
        lemma_measured_totals(tree);
    } else {
        assert(all_bared(worked.children) =~= Seq::empty());
        assert(tree.children =~= Seq::empty());
    }
}

/// A finished scan that is saved is loaded as the same tree: its bytes hold,
/// for its root and options, a tree that comes to what was saved once its
/// totals are worked out, and the time it was saved. What no cache stores is
/// all that is missing.
pub proof fn lemma_scan_restored(
    root: Seq<char>,
    options: ScanOptions,
    saved_at: i64,
    tree: Tree,
)
    requires
        encode_utf8(keys::key_of(root, options)).len() <= cursor::LONGEST_NAME,
        storable(tree, 0),
        plain(tree),
        totals::aggregated(tree, options.metric) == tree,
    ensures
        ({
            let key = keys::key_of(root, options);
            &&& file::held(file::written(key, saved_at, tree), key) == Ok::<_, CacheError>(
                Some((measured(tree), saved_at)),
            )
            &&& totals::totals(measured(tree)) == totals::totals(tree)
            &&& totals::aggregated(measured(tree), options.metric) == bared(tree)
        }),
{
    let key = keys::key_of(root, options);
    lemma_saved_reads_back(key, saved_at, tree);
    lemma_measured_totals(tree);
    lemma_restored(tree, options.metric);
}

/// The metric is applied when a scan is loaded: one that was saved under a
/// metric is found under the other, in the order of that one.
pub proof fn lemma_other_metric_restored(
    root: Seq<char>,
    options: ScanOptions,
    saved_at: i64,
    tree: Tree,
    metric: Metric,
)
    requires
        encode_utf8(keys::key_of(root, options)).len() <= cursor::LONGEST_NAME,
        storable(tree, 0),
        plain(tree),
    ensures
        ({
            let other = ScanOptions { metric, ..options };
            let bytes = file::written(keys::key_of(root, options), saved_at, tree);
            &&& file::held(bytes, keys::key_of(root, other)) == Ok::<_, CacheError>(
                Some((measured(tree), saved_at)),
            )
            &&& totals::aggregated(measured(tree), metric) == bared(
                totals::aggregated(tree, metric),
            )
        }),
{
    let key = keys::key_of(root, options);
    assert(keys::key_of(root, ScanOptions { metric, ..options }) == key);
    lemma_saved_reads_back(key, saved_at, tree);
    lemma_restored(tree, metric);
}

/// `tree` without which files are one, which no cache stores.
pub open spec fn unlinked(tree: Tree) -> Tree
    decreases tree,
{
    Tree { inode: None, children: all_unlinked(tree.children), ..tree }
}

/// Each of `children` without which files are one.
pub open spec fn all_unlinked(children: Seq<Tree>) -> Seq<Tree>
    decreases children,
{
    if children.len() == 0 {
        Seq::empty()
    } else {
        all_unlinked(children.drop_last()).push(unlinked(children.last()))
    }
}

/// Whether `tree` says of its nodes what `classes` says they are: stripped of
/// that, `classes` says it again.
pub open spec fn classified(tree: Tree, classes: spec_fn(Tree) -> Tree) -> bool {
    classes(bared(tree)) == unlinked(tree)
}

/// Whether `classify` makes of every tree what `classes` says.
pub open spec fn classifies<F: Fn(Node) -> Node>(
    classify: F,
    classes: spec_fn(Tree) -> Tree,
) -> bool {
    forall|before: Node, after: Node| #[trigger]
        call_ensures(classify, (before,), after) ==> after@ == classes(before@)
}

/// A finished and classified scan that is saved is loaded as the same tree,
/// down to what kind of data each node is and what can be had back: whatever
/// the rules that say so are, where loading uses those that the scan used. The
/// metric it is loaded with orders it.
pub proof fn lemma_classified_scan_restored<F: Fn(Node) -> Node>(
    root: Seq<char>,
    options: ScanOptions,
    saved_at: i64,
    tree: Tree,
    metric: Metric,
    classify: F,
    classes: spec_fn(Tree) -> Tree,
    loaded: Node,
)
    requires
        encode_utf8(keys::key_of(root, options)).len() <= cursor::LONGEST_NAME,
        storable(tree, 0),
        plain(tree),
        classifies(classify, classes),
        classified(totals::aggregated(tree, metric), classes),
        file::classified_by(classify, totals::aggregated(measured(tree), metric), loaded),
    ensures
        ({
            let other = ScanOptions { metric, ..options };
            let bytes = file::written(keys::key_of(root, options), saved_at, tree);
            &&& file::held(bytes, keys::key_of(root, other)) == Ok::<_, CacheError>(
                Some((measured(tree), saved_at)),
            )
            &&& totals::totals(measured(tree)) == totals::totals(tree)
            &&& loaded@ == unlinked(totals::aggregated(tree, metric))
            &&& totals::aggregated(tree, metric) == tree ==> loaded@ == unlinked(tree)
        }),
{
    lemma_other_metric_restored(root, options, saved_at, tree, metric);
    lemma_measured_totals(tree);
    let worked = choose|worked: Node|
        worked@ == totals::aggregated(measured(tree), metric) && #[trigger] call_ensures(
            classify,
            (worked,),
            loaded,
        );
    assert(loaded@ == classes(worked@));
}

} // verus!
