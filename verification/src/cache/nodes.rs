//! Entries in a cache.

use vstd::prelude::*;

use crate::cache::cursor;
use crate::cache::cursor::{Reader, Writer};
use crate::cache::error::CacheError;
use crate::cache::numbers;
use crate::cache::numbers::Outcome;
use crate::tree::node;
use crate::tree::node::{Node, NodeKind, Tree};

verus! {

broadcast use crate::tree::node::group_trees;

/// Deeper than any real filesystem nests; a corrupt count cannot recurse
/// the reader into a stack overflow.
pub const MAX_DEPTH: usize = 4096;

/// Set on the tag of a directory that could not be read.
pub const READ_ERROR: u8 = 0x80;

/// The number of each kind of entry.
pub open spec fn tag_of(kind: NodeKind) -> u8 {
    match kind {
        NodeKind::Directory => 0,
        NodeKind::File => 1,
        NodeKind::Symlink => 2,
        NodeKind::Other => 3,
    }
}

/// The kind of entry whose number is `tag`.
pub open spec fn kind_of(tag: u8) -> Option<NodeKind> {
    if tag == 0 {
        Some(NodeKind::Directory)
    } else if tag == 1 {
        Some(NodeKind::File)
    } else if tag == 2 {
        Some(NodeKind::Symlink)
    } else if tag == 3 {
        Some(NodeKind::Other)
    } else {
        None
    }
}

/// The number of each kind of entry.
pub fn kind_tag(kind: NodeKind) -> (tag: u8)
    ensures
        tag == tag_of(kind),
{
    match kind {
        NodeKind::Directory => 0,
        NodeKind::File => 1,
        NodeKind::Symlink => 2,
        NodeKind::Other => 3,
    }
}

/// The kind of entry whose number is `tag`.
fn tagged_kind(tag: u8) -> (kind: Option<NodeKind>)
    ensures
        kind == kind_of(tag),
{
    if tag == 0 {
        Some(NodeKind::Directory)
    } else if tag == 1 {
        Some(NodeKind::File)
    } else if tag == 2 {
        Some(NodeKind::Symlink)
    } else if tag == 3 {
        Some(NodeKind::Other)
    } else {
        None
    }
}

/// What an entry starts with: its kind and whether it could not be read, and
/// its name.
pub open spec fn heading(tree: Tree) -> Seq<u8> {
    let tag = if tree.read_error {
        (tag_of(tree.kind) + READ_ERROR) as u8
    } else {
        tag_of(tree.kind)
    };
    seq![tag] + cursor::framed(tree.name)
}

/// `tree` as it is stored: of a directory what is in it, of a leaf its bytes
/// and its last write.
pub open spec fn stored(tree: Tree) -> Seq<u8>
    decreases tree,
{
    if tree.kind is Directory {
        heading(tree) + numbers::leb(tree.children.len()) + all_stored(tree.children)
    } else {
        heading(tree) + numbers::leb(tree.own_bytes as nat) + numbers::leb(
            numbers::zigzag(tree.modified),
        )
    }
}

/// `children` as they are stored, one after the other.
pub open spec fn all_stored(children: Seq<Tree>) -> Seq<u8>
    decreases children,
{
    if children.len() == 0 {
        Seq::empty()
    } else {
        all_stored(children.drop_last()) + stored(children.last())
    }
}

/// The entry that stands at `at`, `depth` levels down.
pub open spec fn node_at(bytes: Seq<u8>, at: int, depth: int) -> Outcome<Tree>
    decreases MAX_DEPTH + 1 - depth, 0nat,
{
    if depth > MAX_DEPTH {
        Err(CacheError::TooDeep)
    } else {
        match cursor::byte_at(bytes, at) {
            Ok((tag, after_tag)) => match cursor::text_at(bytes, after_tag) {
                Ok((name, after_name)) => match kind_of((tag % READ_ERROR) as u8) {
                    Some(NodeKind::Directory) => match numbers::number_at(bytes, after_name) {
                        Ok((count, after_count)) => match nodes_at(
                            bytes,
                            after_count,
                            depth + 1,
                            count,
                        ) {
                            Ok((children, next)) => Ok(
                                (
                                    Tree {
                                        read_error: tag >= READ_ERROR,
                                        children,
                                        ..node::new_directory(name)
                                    },
                                    next,
                                ),
                            ),
                            Err(error) => Err(error),
                        },
                        Err(error) => Err(error),
                    },
                    Some(kind) => match numbers::number_at(bytes, after_name) {
                        Ok((size, after_size)) => match numbers::signed_at(bytes, after_size) {
                            Ok((modified, next)) => Ok(
                                (
                                    Tree {
                                        modified,
                                        ..node::new_entry(name, kind, size as u64)
                                    },
                                    next,
                                ),
                            ),
                            Err(error) => Err(error),
                        },
                        Err(error) => Err(error),
                    },
                    None => Err(CacheError::UnknownKind),
                },
                Err(error) => Err(error),
            },
            Err(error) => Err(error),
        }
    }
}

/// The `count` entries that stand from `at` on, `depth` levels down.
pub open spec fn nodes_at(bytes: Seq<u8>, at: int, depth: int, count: nat) -> Outcome<Seq<Tree>>
    decreases MAX_DEPTH + 1 - depth, count + 1,
{
    if count == 0 {
        Ok((Seq::empty(), at))
    } else {
        match nodes_at(bytes, at, depth, (count - 1) as nat) {
            Ok((before, here)) => match node_at(bytes, here, depth) {
                Ok((last, next)) => Ok((before.push(last), next)),
                Err(error) => Err(error),
            },
            Err(error) => Err(error),
        }
    }
}

proof fn lemma_stored_directory(tree: Tree)
    requires
        tree.kind is Directory,
    ensures
        stored(tree) == heading(tree) + numbers::leb(tree.children.len()) + all_stored(
            tree.children,
        ),
{
    reveal_with_fuel(stored, 2);
    reveal_with_fuel(all_stored, 2);
}

proof fn lemma_nodes_off(bytes: Seq<u8>, at: int, depth: int, few: nat, count: nat)
    requires
        few <= count,
        depth <= MAX_DEPTH + 1,
        nodes_at(bytes, at, depth, few) is Err,
    ensures
        nodes_at(bytes, at, depth, count) == nodes_at(bytes, at, depth, few),
    decreases count,
{
    if few < count {
        lemma_nodes_off(bytes, at, depth, few, (count - 1) as nat);
    }
}

/// A directory is read as what its bytes say and what stands behind them.
pub proof fn lemma_directory_at(bytes: Seq<u8>, at: int, depth: int)
    requires
        depth <= MAX_DEPTH,
    ensures
        cursor::byte_at(bytes, at) matches Ok((tag, after_tag)) ==> (cursor::text_at(
            bytes,
            after_tag,
        ) matches Ok((name, after_name)) ==> (kind_of((tag % READ_ERROR) as u8) == Some(
            NodeKind::Directory,
        ) ==> (numbers::number_at(bytes, after_name) matches Ok((count, after_count)) ==> node_at(
            bytes,
            at,
            depth,
        ) == match nodes_at(bytes, after_count, depth + 1, count) {
            Ok((children, next)) => Ok::<_, CacheError>(
                (
                    Tree {
                        read_error: tag >= READ_ERROR,
                        children,
                        ..node::new_directory(name)
                    },
                    next,
                ),
            ),
            Err(error) => Err(error),
        }))),
{
    reveal_with_fuel(node_at, 2);
    reveal_with_fuel(nodes_at, 2);
}

impl Writer {
    pub fn node(&mut self, entry: &Node)
        ensures
            final(self)@ == old(self)@ + stored(entry@),
        decreases entry,
    {
        let ghost before = self@;
        let ghost tree = entry@;
        let tag: u8 = if entry.read_error {
            kind_tag(entry.kind) + READ_ERROR
        } else {
            kind_tag(entry.kind)
        };
        self.byte(tag);
        self.string(&entry.name);
        assert(self@ =~= before + heading(tree));
        if entry.is_dir() {
            self.varint(entry.children.len() as u64);
            let ghost start = self@;
            let mut next: usize = 0;
            assert(tree.children.take(0) =~= Seq::empty());
            assert(self@ =~= start + all_stored(tree.children.take(0)));
            while next < entry.children.len()
                invariant
                    next <= entry.children@.len(),
                    tree == entry@,
                    self@ == start + all_stored(tree.children.take(next as int)),
                decreases entry.children@.len() - next,
            {
                let ghost held = self@;
                let ghost more = tree.children.take(next + 1);
                self.node(&entry.children[next]);
                proof {
                    assert(more.drop_last() =~= tree.children.take(next as int));
                    assert(more.last() == entry.children@[next as int]@);
                    assert(self@ =~= start + all_stored(more));
                }
                next = next + 1;
            }
            proof {
                assert(tree.children.take(next as int) =~= tree.children);
                lemma_stored_directory(tree);
                assert(self@ =~= before + stored(tree));
            }
        } else {
            self.varint(entry.own_bytes);
            self.signed(entry.modified);
            assert(self@ =~= before + stored(tree));
        }
    }
}

impl<'a> Reader<'a> {
    pub fn node(&mut self, depth: usize) -> (result: Result<Node, CacheError>)
        ensures
            final(self).read(
                *old(self),
                node_at(old(self).all(), old(self).at(), depth as int),
                result,
                |entry: Node| entry@,
            ),
        decreases MAX_DEPTH + 1 - depth,
    {
        let ghost bytes = self.all();
        let ghost start = self.at();
        if depth > MAX_DEPTH {
            return Err(CacheError::TooDeep);
        }
        proof {
            lemma_directory_at(bytes, start, depth as int);
        }
        let tag: u8 = match self.byte() {
            Ok(tag) => tag,
            Err(error) => return Err(error),
        };
        let name = match self.string() {
            Ok(name) => name,
            Err(error) => return Err(error),
        };
        let kind = match tagged_kind(tag % READ_ERROR) {
            Some(kind) => kind,
            None => return Err(CacheError::UnknownKind),
        };
        let ghost after_name = self.at();
        if kind.is_dir() {
            let count: u64 = match self.varint() {
                Ok(count) => count,
                Err(error) => return Err(error),
            };
            let mut entry = Node::directory(name.as_str());
            entry.read_error = tag >= READ_ERROR;
            let ghost bare = entry;
            let ghost from = self.at();
            let mut done: u64 = 0;
            assert(node::trees(entry.children@) =~= Seq::empty());
            // Grown as children arrive, not reserved from a count that
            // might be corrupt.
            while done < count
                invariant
                    done <= count,
                    depth <= MAX_DEPTH,
                    self.all() == bytes,
                    bytes == old(self).all(),
                    entry == (Node { children: entry.children, ..bare }),
                    nodes_at(bytes, from, depth + 1, done as nat) == Ok::<_, CacheError>(
                        (node::trees(entry.children@), self.at()),
                    ),
                    node_at(bytes, old(self).at(), depth as int) == match nodes_at(
                        bytes,
                        from,
                        depth + 1,
                        count as nat,
                    ) {
                        Ok((children, next)) => Ok::<_, CacheError>(
                            (
                                Tree {
                                    read_error: tag >= READ_ERROR,
                                    children,
                                    ..node::new_directory(name@)
                                },
                                next,
                            ),
                        ),
                        Err(error) => Err(error),
                    },
                decreases count - done,
            {
                match self.node(depth + 1) {
                    Ok(child) => {
                        let ghost held = entry.children@;
                        entry.children.push(child);
                        assert(node::trees(entry.children@) =~= node::trees(held).push(child@));
                    },
                    Err(error) => {
                        proof {
                            lemma_nodes_off(
                                bytes,
                                from,
                                depth + 1,
                                (done + 1) as nat,
                                count as nat,
                            );
                        }
                        return Err(error);
                    },
                }
                done = done + 1;
            }
            Ok(entry)
        } else {
            let size: u64 = match self.varint() {
                Ok(size) => size,
                Err(error) => return Err(error),
            };
            let mut entry = Node::entry(name.as_str(), kind, size);
            entry.modified = match self.signed() {
                Ok(modified) => modified,
                Err(error) => return Err(error),
            };
            Ok(entry)
        }
    }
}

} // verus!
