//! What becomes of a cache that was cut short.

use vstd::prelude::*;
use vstd::utf8::encode_utf8;

use crate::cache::cursor;
use crate::cache::error::CacheError;
use crate::cache::file;
use crate::cache::laws;
use crate::cache::nodes;
use crate::cache::numbers;
use crate::cache::numbers::Outcome;
use crate::tree::node::{NodeKind, Tree};

verus! {

/// What is read when only `length` bytes are left of those that `whole` was
/// read from: the same, or that they end too soon.
pub open spec fn cut_short<T>(whole: Outcome<T>, length: int) -> Outcome<T> {
    match whole {
        Ok((value, next)) => if next <= length {
            Ok((value, next))
        } else {
            Err(CacheError::Truncated)
        },
        Err(error) => Err(error),
    }
}

proof fn lemma_number_cut(bytes: Seq<u8>, at: int, count: int, length: int)
    requires
        0 <= count < numbers::LONGEST,
        0 <= at,
        0 <= length <= bytes.len(),
        numbers::number_from(bytes, at, count) is Ok,
    ensures
        numbers::number_from(bytes.take(length), at, count) == cut_short(
            numbers::number_from(bytes, at, count),
            length,
        ),
    decreases numbers::LONGEST - count,
{
    numbers::lemma_number_from(bytes, at, count);
    let few = bytes.take(length);
    if at < length {
        assert(few[at] == bytes[at]);
        if bytes[at] >= 128 {
            lemma_number_cut(bytes, at + 1, count + 1, length);
            numbers::lemma_number_from(bytes, at + 1, count + 1);
        }
    }
}

proof fn lemma_text_advances(bytes: Seq<u8>, at: int)
    ensures
        cursor::text_at(bytes, at) matches Ok((text, next)) ==> at < next <= bytes.len(),
{
    numbers::lemma_number_from(bytes, at, 0);
}

proof fn lemma_text_cut(bytes: Seq<u8>, at: int, length: int)
    requires
        0 <= at,
        0 <= length <= bytes.len(),
        cursor::text_at(bytes, at) is Ok,
    ensures
        cursor::text_at(bytes.take(length), at) == cut_short(cursor::text_at(bytes, at), length),
{
    lemma_number_cut(bytes, at, 0, length);
    numbers::lemma_number_from(bytes, at, 0);
    let (size, next) = numbers::number_at(bytes, at)->Ok_0;
    if next + size <= length {
        assert(bytes.take(length).subrange(next, next + size) =~= bytes.subrange(
            next,
            next + size,
        ));
    }
}

proof fn lemma_node_advances(bytes: Seq<u8>, at: int, depth: int)
    requires
        0 <= at,
        depth <= nodes::MAX_DEPTH + 1,
    ensures
        nodes::node_at(bytes, at, depth) matches Ok((tree, next)) ==> at < next <= bytes.len(),
    decreases nodes::MAX_DEPTH + 1 - depth, 0nat,
{
    if let Ok((tree, next)) = nodes::node_at(bytes, at, depth) {
        nodes::lemma_directory_at(bytes, at, depth);
        let (tag, after_tag) = cursor::byte_at(bytes, at)->Ok_0;
        let (name, after_name) = cursor::text_at(bytes, after_tag)->Ok_0;
        lemma_text_advances(bytes, after_tag);
        numbers::lemma_number_from(bytes, after_name, 0);
        let (count, after_count) = numbers::number_at(bytes, after_name)->Ok_0;
        if nodes::kind_of((tag % nodes::READ_ERROR) as u8) == Some(NodeKind::Directory) {
            lemma_nodes_advance(bytes, after_count, depth + 1, count);
        } else {
            numbers::lemma_number_from(bytes, after_count, 0);
        }
    }
}

proof fn lemma_nodes_advance(bytes: Seq<u8>, at: int, depth: int, count: nat)
    requires
        0 <= at <= bytes.len(),
        depth <= nodes::MAX_DEPTH + 1,
    ensures
        nodes::nodes_at(bytes, at, depth, count) matches Ok((trees, next)) ==> at <= next
            <= bytes.len(),
    decreases nodes::MAX_DEPTH + 1 - depth, count + 1,
{
    if count > 0 {
        lemma_nodes_advance(bytes, at, depth, (count - 1) as nat);
        if let Ok((before, here)) = nodes::nodes_at(bytes, at, depth, (count - 1) as nat) {
            lemma_node_advances(bytes, here, depth);
        }
    }
}

proof fn lemma_node_cut(bytes: Seq<u8>, at: int, depth: int, length: int)
    requires
        0 <= at,
        0 <= length <= bytes.len(),
        depth <= nodes::MAX_DEPTH + 1,
        nodes::node_at(bytes, at, depth) is Ok,
    ensures
        nodes::node_at(bytes.take(length), at, depth) == cut_short(
            nodes::node_at(bytes, at, depth),
            length,
        ),
    decreases nodes::MAX_DEPTH + 1 - depth, 0nat,
{
    let few = bytes.take(length);
    nodes::lemma_directory_at(bytes, at, depth);
    nodes::lemma_directory_at(few, at, depth);
    lemma_node_advances(bytes, at, depth);
    let (tag, after_tag) = cursor::byte_at(bytes, at)->Ok_0;
    let (name, after_name) = cursor::text_at(bytes, after_tag)->Ok_0;
    lemma_text_advances(bytes, after_tag);
    lemma_text_cut(bytes, after_tag, length);
    numbers::lemma_number_from(bytes, after_name, 0);
    lemma_number_cut(bytes, after_name, 0, length);
    let (count, after_count) = numbers::number_at(bytes, after_name)->Ok_0;
    if at < length {
        assert(few[at] == bytes[at]);
        if nodes::kind_of((tag % nodes::READ_ERROR) as u8) == Some(NodeKind::Directory) {
            lemma_nodes_advance(bytes, after_count, depth + 1, count);
            lemma_nodes_cut(bytes, after_count, depth + 1, count, length);
        } else {
            numbers::lemma_number_from(bytes, after_count, 0);
            lemma_number_cut(bytes, after_count, 0, length);
        }
    }
}

proof fn lemma_nodes_cut(bytes: Seq<u8>, at: int, depth: int, count: nat, length: int)
    requires
        0 <= at <= bytes.len(),
        0 <= length <= bytes.len(),
        depth <= nodes::MAX_DEPTH + 1,
        nodes::nodes_at(bytes, at, depth, count) is Ok,
    ensures
        at <= length ==> nodes::nodes_at(bytes.take(length), at, depth, count) == cut_short(
            nodes::nodes_at(bytes, at, depth, count),
            length,
        ),
    decreases nodes::MAX_DEPTH + 1 - depth, count + 1,
{
    if count > 0 {
        let fewer = (count - 1) as nat;
        lemma_nodes_cut(bytes, at, depth, fewer, length);
        lemma_nodes_advance(bytes, at, depth, fewer);
        let (before, here) = nodes::nodes_at(bytes, at, depth, fewer)->Ok_0;
        lemma_node_advances(bytes, here, depth);
        lemma_node_cut(bytes, here, depth, length);
    }
}

/// A cache that was cut short is an error, wherever it was cut: no tree is
/// made of what is left.
pub proof fn lemma_truncated_is_an_error(
    key: Seq<char>,
    saved_at: i64,
    tree: Tree,
    length: int,
)
    requires
        encode_utf8(key).len() <= cursor::LONGEST_NAME,
        laws::storable(tree, 0),
        0 <= length < file::written(key, saved_at, tree).len(),
    ensures
        file::held(file::written(key, saved_at, tree).take(length), key) == Err::<
            Option<(Tree, i64)>,
            _,
        >(CacheError::Truncated),
{
    let all = file::written(key, saved_at, tree);
    let few = all.take(length);
    laws::lemma_saved_layout(key, saved_at, tree);
    if length >= 4 {
        assert(few.take(4) =~= all.take(4));
        lemma_number_cut(all, 4, 0, length);
        numbers::lemma_number_from(all, 4, 0);
        let (version, after_version) = numbers::number_at(all, 4)->Ok_0;
        lemma_text_cut(all, after_version, length);
        lemma_text_advances(all, after_version);
        let (text, after_key) = cursor::text_at(all, after_version)->Ok_0;
        lemma_number_cut(all, after_key, 0, length);
        numbers::lemma_number_from(all, after_key, 0);
        let (time, after_time) = numbers::signed_at(all, after_key)->Ok_0;
        lemma_node_cut(all, after_time, 0, length);
        lemma_node_advances(all, after_time, 0);
    }
}

} // verus!
