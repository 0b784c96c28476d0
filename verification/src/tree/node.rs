//! One entry of the tree, and what lies beneath it.

use vstd::prelude::*;

use crate::classify::{Category, Reclaim};

verus! {

/// What a node represents on disk.
#[derive(Clone, Copy, Debug, PartialEq, Eq, Structural)]
pub enum NodeKind {
    Directory,
    File,
    Symlink,
    /// Sockets, fifos and devices: addressable, but not space.
    Other,
}

impl NodeKind {
    pub fn is_dir(self) -> (directory: bool)
        ensures
            directory == (self is Directory),
    {
        matches!(self, NodeKind::Directory)
    }
}

/// How a node's importance is measured.
#[derive(Clone, Copy, Debug, PartialEq, Eq, Structural)]
pub enum Metric {
    /// Bytes, apparent or on-disk depending on [`crate::scan::ScanOptions`].
    Bytes,
    /// Number of files at or beneath the node.
    Files,
}

impl Default for Metric {
    fn default() -> (metric: Self)
        ensures
            metric == Metric::Bytes,
    {
        Metric::Bytes
    }
}

impl Metric {
    /// The other metric.
    pub open spec fn other(self) -> Metric {
        match self {
            Metric::Bytes => Metric::Files,
            Metric::Files => Metric::Bytes,
        }
    }

    pub fn label(self) -> (label: &'static str)
        ensures
            label@ == match self {
                Metric::Bytes => "size"@,
                Metric::Files => "files"@,
            },
    {
        match self {
            Metric::Bytes => "size",
            Metric::Files => "files",
        }
    }

    #[must_use]
    pub fn toggled(self) -> (metric: Self)
        ensures
            metric == self.other(),
    {
        match self {
            Metric::Bytes => Metric::Files,
            Metric::Files => Metric::Bytes,
        }
    }
}

/// Toggling twice is no change.
pub proof fn lemma_toggled_twice(metric: Metric)
    ensures
        metric.other().other() == metric,
        metric.other() != metric,
{
}

/// One entry in the scanned tree.
///
/// Totals and direct figures are both kept: `own_bytes` and `own_files` are
/// what sits directly in a directory, `bytes` and `files` are the subtree
/// totals the treemap draws. The selection line needs both, and keeping them means
/// no second traversal when one of them is displayed.
#[derive(Debug)]
pub struct Node {
    pub name: Box<str>,
    pub kind: NodeKind,
    /// Subtree total: direct contents plus every descendant.
    pub bytes: u64,
    /// Bytes of the leaf entries directly in this directory, or this file's
    /// own size. Derived by [`crate::tree::aggregate`].
    pub own_bytes: u64,
    /// Files at or beneath this node; `1` for a file.
    pub files: u64,
    /// Files directly in this directory; `1` for a file. Derived by
    /// [`crate::tree::aggregate`].
    pub own_files: u64,
    /// Directories at or beneath this node; `1` for a directory.
    pub dirs: u64,
    /// `(device, inode)` for files, used to de-duplicate hardlinks.
    pub inode: Option<(u64, u64)>,
    /// The directory could not be read; its contents are unknown.
    pub read_error: bool,
    /// Newest write time at or beneath this node, in Unix seconds; `0` when
    /// unknown. Derived for directories by [`crate::tree::aggregate`].
    pub modified: i64,
    /// What kind of data this is, for colour.
    pub category: Category,
    /// Why this space can be had back, if it can; inherited by everything
    /// beneath.
    pub reclaim: Option<Reclaim>,
    /// Children, ordered by [`Metric`] value, descending.
    pub children: Vec<Node>,
}

/// What a [`Node`] says.
#[verifier::ext_equal]
pub struct Tree {
    pub name: Seq<char>,
    pub kind: NodeKind,
    pub bytes: u64,
    pub own_bytes: u64,
    pub files: u64,
    pub own_files: u64,
    pub dirs: u64,
    pub inode: Option<(u64, u64)>,
    pub read_error: bool,
    pub modified: i64,
    pub category: Category,
    pub reclaim: Option<Reclaim>,
    pub children: Seq<Tree>,
}

impl View for Node {
    type V = Tree;

    open spec fn view(&self) -> Tree {
        tree_of(*self)
    }
}

/// What `node` says.
pub open spec fn tree_of(node: Node) -> Tree
    decreases node,
{
    Tree {
        name: node.name@,
        kind: node.kind,
        bytes: node.bytes,
        own_bytes: node.own_bytes,
        files: node.files,
        own_files: node.own_files,
        dirs: node.dirs,
        inode: node.inode,
        read_error: node.read_error,
        modified: node.modified,
        category: node.category,
        reclaim: node.reclaim,
        children: trees(node.children@),
    }
}

/// What each of `nodes` says.
pub open spec fn trees(nodes: Seq<Node>) -> Seq<Tree>
    decreases nodes,
{
    if nodes.len() == 0 {
        Seq::empty()
    } else {
        trees(nodes.drop_last()).push(tree_of(nodes.last()))
    }
}

/// A node says of its children what they say.
pub broadcast proof fn lemma_children(node: Node)
    ensures
        #[trigger] tree_of(node).children == trees(node.children@),
{
    reveal_with_fuel(tree_of, 2);
    reveal_with_fuel(trees, 2);
}

/// There are as many trees as nodes.
pub broadcast proof fn lemma_trees_len(nodes: Seq<Node>)
    ensures
        #[trigger] trees(nodes).len() == nodes.len(),
    decreases nodes.len(),
{
    if nodes.len() > 0 {
        lemma_trees_len(nodes.drop_last());
    }
}

/// Each tree is what its node says.
pub broadcast proof fn lemma_trees_index(nodes: Seq<Node>, index: int)
    requires
        0 <= index < nodes.len(),
    ensures
        #[trigger] trees(nodes)[index] == nodes[index]@,
    decreases nodes.len(),
{
    lemma_trees_len(nodes.drop_last());
    if index < nodes.len() - 1 {
        lemma_trees_index(nodes.drop_last(), index);
    }
}

pub broadcast group group_trees {
    lemma_children,
    lemma_trees_len,
    lemma_trees_index,
}

/// The value a treemap weights `tree` by.
pub open spec fn weight(tree: Tree, metric: Metric) -> u64 {
    match metric {
        Metric::Bytes => tree.bytes,
        Metric::Files => tree.files,
    }
}

/// Which child of `tree` is the largest: the first, children being ordered.
pub open spec fn largest(tree: Tree) -> Option<usize> {
    if tree.children.len() == 0 {
        None
    } else {
        Some(0)
    }
}

/// A directory with no children.
pub open spec fn new_directory(name: Seq<char>) -> Tree {
    Tree {
        name,
        kind: NodeKind::Directory,
        bytes: 0,
        own_bytes: 0,
        files: 0,
        own_files: 0,
        dirs: 1,
        inode: None,
        read_error: false,
        modified: 0,
        category: Category::Other,
        reclaim: None,
        children: Seq::empty(),
    }
}

/// A leaf entry of `bytes`, with no write time known.
pub open spec fn new_entry(name: Seq<char>, kind: NodeKind, bytes: u64) -> Tree {
    let files: u64 = if kind is File {
        1
    } else {
        0
    };
    Tree {
        name,
        kind,
        bytes,
        own_bytes: bytes,
        files,
        own_files: files,
        dirs: 0,
        inode: None,
        read_error: false,
        modified: 0,
        category: Category::Other,
        reclaim: None,
        children: Seq::empty(),
    }
}

/// What lies at `crumbs` beneath `tree`: the crumbs are child indices, one
/// for each level down.
pub open spec fn at(tree: Tree, crumbs: Seq<usize>) -> Option<Tree>
    decreases crumbs.len(),
{
    if crumbs.len() == 0 {
        Some(tree)
    } else {
        match at(tree, crumbs.drop_last()) {
            Some(parent) => if crumbs.last() < parent.children.len() {
                Some(parent.children[crumbs.last() as int])
            } else {
                None
            },
            None => None,
        }
    }
}

/// The trees from `tree` down to the last that `crumbs` lead to.
pub open spec fn chain(tree: Tree, crumbs: Seq<usize>) -> Seq<Tree>
    decreases crumbs.len(),
{
    if crumbs.len() == 0 {
        seq![tree]
    } else {
        match at(tree, crumbs) {
            Some(last) => chain(tree, crumbs.drop_last()).push(last),
            None => chain(tree, crumbs.drop_last()),
        }
    }
}

/// Levels beneath `tree`.
pub open spec fn height(tree: Tree) -> nat
    decreases tree,
{
    levels(tree.children)
}

/// Levels in `children`, these included.
pub open spec fn levels(children: Seq<Tree>) -> nat
    decreases children,
{
    if children.len() == 0 {
        0
    } else {
        let before = levels(children.drop_last());
        let last = height(children.last()) + 1;
        if before >= last {
            before
        } else {
            last
        }
    }
}

/// Each child is less high than its parent.
pub proof fn lemma_levels(children: Seq<Tree>, index: int)
    requires
        0 <= index < children.len(),
    ensures
        height(children[index]) + 1 <= levels(children),
    decreases children.len(),
{
    if index < children.len() - 1 {
        lemma_levels(children.drop_last(), index);
    }
}

/// What lies beneath a tree is less high by the levels above it.
pub proof fn lemma_at_height(tree: Tree, crumbs: Seq<usize>)
    requires
        at(tree, crumbs) is Some,
    ensures
        crumbs.len() + height(at(tree, crumbs)->0) <= height(tree),
    decreases crumbs.len(),
{
    if crumbs.len() > 0 {
        lemma_at_height(tree, crumbs.drop_last());
        let parent = at(tree, crumbs.drop_last())->0;
        lemma_levels(parent.children, crumbs.last() as int);
    }
}

/// Crumbs that lead on from where others lead.
pub proof fn lemma_at_joined(tree: Tree, first: Seq<usize>, second: Seq<usize>)
    ensures
        at(tree, first + second) == match at(tree, first) {
            Some(middle) => at(middle, second),
            None => None,
        },
    decreases second.len(),
{
    if second.len() == 0 {
        assert(first + second =~= first);
    } else {
        assert((first + second).drop_last() =~= first + second.drop_last());
        lemma_at_joined(tree, first, second.drop_last());
    }
}

/// The chain ends at what lies at `crumbs`, and holds one tree more than
/// there are crumbs, whenever they lead somewhere.
pub proof fn lemma_chain(tree: Tree, crumbs: Seq<usize>)
    ensures
        chain(tree, crumbs).len() >= 1,
        chain(tree, crumbs)[0] == tree,
        at(tree, crumbs) matches Some(last) ==> {
            &&& chain(tree, crumbs).last() == last
            &&& chain(tree, crumbs).len() == crumbs.len() + 1
        },
    decreases crumbs.len(),
{
    if crumbs.len() > 0 {
        lemma_chain(tree, crumbs.drop_last());
    }
}

/// Crumbs that lead nowhere do so however they go on.
pub proof fn lemma_astray(tree: Tree, crumbs: Seq<usize>, few: int)
    requires
        0 <= few <= crumbs.len(),
        at(tree, crumbs.take(few)) is None,
    ensures
        at(tree, crumbs) is None,
        chain(tree, crumbs) == chain(tree, crumbs.take(few)),
    decreases crumbs.len(),
{
    if few < crumbs.len() {
        assert(crumbs.drop_last().take(few) =~= crumbs.take(few));
        lemma_astray(tree, crumbs.drop_last(), few);
    } else {
        assert(crumbs.take(few) =~= crumbs);
    }
}

/// The names of a chain below its first tree.
pub open spec fn names_below(tree: Tree, crumbs: Seq<usize>) -> Seq<Seq<char>> {
    chain(tree, crumbs).skip(1).map_values(|tree: Tree| tree.name)
}

} // verus!
