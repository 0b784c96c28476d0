//! A cache as a file holds it.

use vstd::prelude::*;

use crate::cache::cursor;
use crate::cache::cursor::{Reader, Writer};
use crate::cache::error::CacheError;
use crate::cache::keys;
use crate::cache::keys::key;
use crate::cache::nodes;
use crate::cache::numbers;
use crate::scan::ScanOptions;
use crate::text::same;
use crate::tree::node::{Node, Tree};
use crate::tree::totals;
use crate::tree::totals::{aggregate, count};

verus! {

/// Bump when the layout changes.
pub const VERSION: u32 = 1;

/// What every cache starts with: `DTRC`.
pub open spec fn magic() -> Seq<u8> {
    seq![0x44, 0x54, 0x52, 0x43]
}

/// A tree read back from the cache.
#[derive(Debug)]
pub struct Cached {
    pub tree: Node,
    /// Unix seconds when it was written, for "from 2 h ago".
    pub saved_at: i64,
}

/// Whether a scan with `options` finds a whole tree.
pub open spec fn whole_tree(options: ScanOptions) -> bool {
    options.max_depth is None
}

/// Whether a scan with these options is a whole tree worth caching. A
/// depth-limited scan has holes, and showing one as the last state of the
/// disk would be wrong.
pub fn cacheable(options: &ScanOptions) -> (whole: bool)
    ensures
        whole == whole_tree(*options),
{
    options.max_depth.is_none()
}

/// The bytes of the cache of `tree` under the key `key`.
pub open spec fn written(key: Seq<char>, saved_at: i64, tree: Tree) -> Seq<u8> {
    magic() + numbers::leb(VERSION as nat) + cursor::framed(key) + numbers::leb(
        numbers::zigzag(saved_at),
    ) + nodes::stored(tree)
}

/// What `bytes` hold for the key `key`: nothing, where they are of another
/// version or for another key.
pub open spec fn held(bytes: Seq<u8>, key: Seq<char>) -> Result<Option<(Tree, i64)>, CacheError> {
    if bytes.len() < 4 {
        Err(CacheError::Truncated)
    } else if bytes.take(4) != magic() {
        Ok(None)
    } else {
        match numbers::number_at(bytes, 4) {
            Ok((version, after_version)) => if version != VERSION {
                Ok(None)
            } else {
                match cursor::text_at(bytes, after_version) {
                    Ok((text, after_key)) => if text != key {
                        Ok(None)
                    } else {
                        match numbers::signed_at(bytes, after_key) {
                            Ok((saved_at, after_time)) => match nodes::node_at(
                                bytes,
                                after_time,
                                0,
                            ) {
                                Ok((tree, next)) => Ok(Some((tree, saved_at))),
                                Err(error) => Err(error),
                            },
                            Err(error) => Err(error),
                        }
                    },
                    Err(error) => Err(error),
                }
            },
            Err(error) => Err(error),
        }
    }
}

/// The bytes of the cached scan of `root` with `options`, which found `tree`.
pub fn save(root: &str, options: &ScanOptions, tree: &Node, saved_at: i64) -> (bytes: Vec<u8>)
    ensures
        bytes@ == written(keys::key_of(root@, *options), saved_at, tree@),
{
    let key = key(root, options);
    let mut writer = Writer::new();
    writer.byte(0x44);
    writer.byte(0x54);
    writer.byte(0x52);
    writer.byte(0x43);
    assert(writer@ =~= magic());
    writer.varint(VERSION as u64);
    writer.string(key.as_str());
    writer.signed(saved_at);
    writer.node(tree);
    writer.into_bytes()
}

/// What `bytes` hold for the key `key`.
fn unpack(bytes: &[u8], key: &str) -> (result: Result<Option<Cached>, CacheError>)
    ensures
        match result {
            Ok(Some(cached)) => held(bytes@, key@) == Ok::<_, CacheError>(
                Some((cached.tree@, cached.saved_at)),
            ),
            Ok(None) => held(bytes@, key@) == Ok::<Option<(Tree, i64)>, CacheError>(None),
            Err(error) => held(bytes@, key@) == Err::<Option<(Tree, i64)>, _>(error),
        },
{
    let mut reader = Reader::new(bytes);
    let mut mark: Vec<u8> = Vec::new();
    while mark.len() < 4
        invariant
            mark@.len() <= 4,
            mark@.len() <= bytes@.len(),
            reader.all() == bytes@,
            reader.at() == mark@.len(),
            mark@ == bytes@.take(mark@.len() as int),
        decreases 4 - mark@.len(),
    {
        match reader.byte() {
            Ok(byte) => {
                let ghost before = mark@;
                mark.push(byte);
                assert(mark@ =~= bytes@.take(before.len() as int + 1));
            },
            Err(error) => return Err(error),
        }
    }
    if !(mark[0] == 0x44 && mark[1] == 0x54 && mark[2] == 0x52 && mark[3] == 0x43) {
        assert(mark@ != magic());
        return Ok(None);
    }
    assert(mark@ =~= magic());
    match reader.varint() {
        Ok(version) => if version != VERSION as u64 {
            return Ok(None);
        },
        Err(error) => return Err(error),
    }
    // The file name is a hash; the full key inside rules out a collision.
    match reader.string() {
        Ok(text) => if !same(text.as_str(), key) {
            return Ok(None);
        },
        Err(error) => return Err(error),
    }
    let saved_at: i64 = match reader.signed() {
        Ok(saved_at) => saved_at,
        Err(error) => return Err(error),
    };
    match reader.node(0) {
        Ok(tree) => Ok(Some(Cached { tree, saved_at })),
        Err(error) => Err(error),
    }
}

/// Whether `loaded` is what `classify` makes of `tree`.
pub open spec fn classified_by<F: Fn(Node) -> Node>(
    classify: F,
    tree: Tree,
    loaded: Node,
) -> bool {
    exists|worked: Node| worked@ == tree && #[trigger] call_ensures(classify, (worked,), loaded)
}

/// The cached tree for `root` scanned with `options` that `bytes` hold,
/// ordered by `options.metric` and classified. `Ok(None)` when they do not
/// match.
///
/// No cache stores what kind of data a node is or whether it can be had back.
/// Saying so is the caller's step, handed in as `classify`: it takes the tree
/// with its totals worked out and with category and reclaim as
/// [`Node::directory`] and [`Node::entry`] make them, and gives the tree that
/// is returned. A `classify` that hands its tree back leaves them so.
pub fn load<F: Fn(Node) -> Node>(
    bytes: &[u8],
    root: &str,
    options: &ScanOptions,
    classify: F,
) -> (result: Result<Option<Cached>, CacheError>)
    requires
        forall|tree: Node| call_requires(classify, (tree,)),
    ensures
        match held(bytes@, keys::key_of(root@, *options)) {
            Ok(Some((tree, saved_at))) => if totals::totals(tree).fit() {
                result matches Ok(Some(cached)) && cached.saved_at == saved_at && classified_by(
                    classify,
                    totals::aggregated(tree, options.metric),
                    cached.tree,
                )
            } else {
                result matches Err(error) && error == CacheError::TooLarge
            },
            Ok(None) => result matches Ok(None),
            Err(wrong) => result matches Err(error) && error == wrong,
        },
{
    let key = key(root, options);
    match unpack(bytes, key.as_str()) {
        Ok(Some(cached)) => {
            let saved_at: i64 = cached.saved_at;
            let mut tree = cached.tree;
            if count(&tree).is_none() {
                return Err(CacheError::TooLarge);
            }
            aggregate(&mut tree, options.metric);
            Ok(Some(Cached { tree: classify(tree), saved_at }))
        },
        Ok(None) => Ok(None),
        Err(error) => Err(error),
    }
}

} // verus!
