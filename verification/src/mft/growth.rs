//! Building the scanned tree from the file table.

use vstd::prelude::*;

use crate::mft::index;
use crate::mft::index::{Index, IndexModel};
use crate::mft::table::Entry;
use crate::scan::ScanOptions;
use crate::text;
use crate::text::begins_with;
use crate::tree::node;
use crate::tree::node::{Node, NodeKind, Tree};

verus! {

broadcast use crate::tree::node::group_trees;

/// Deeper than any real volume nests; a corrupt table cannot recurse the
/// builder into a stack overflow.
pub const MAX_DEPTH: usize = 4096;

/// The leaf that `entry`, numbered `number`, makes under the name `name`.
pub open spec fn leaf(entry: Entry, number: u32, name: Seq<char>, options: ScanOptions) -> Tree {
    let kind = if entry.links_elsewhere() {
        NodeKind::Symlink
    } else if entry.is_dir {
        NodeKind::Other
    } else {
        NodeKind::File
    };
    let bytes = if options.apparent_size {
        entry.apparent
    } else {
        entry.allocated
    };
    Tree {
        modified: entry.modified,
        inode: if entry.links > 1 {
            Some((u64::MAX, number as u64))
        } else {
            None
        },
        ..node::new_entry(name, kind, bytes)
    }
}

/// Whether a directory `depth` levels down is listed.
pub open spec fn lists(depth: nat, options: ScanOptions) -> bool {
    depth < MAX_DEPTH && (options.max_depth matches Some(limit) ==> depth < limit)
}

/// Whether a name is left out.
pub open spec fn left_out(name: Seq<char>, options: ScanOptions) -> bool {
    !options.include_hidden && text::starts(name, '.')
}

/// The tree that entry `number` makes `depth` levels down under the name
/// `name`, and which directories have been entered then, `entered` being
/// those before. A directory has one parent: one that is met again is not
/// entered again.
pub open spec fn built(
    index: IndexModel,
    number: u32,
    name: Seq<char>,
    depth: nat,
    options: ScanOptions,
    entered: Seq<bool>,
) -> (Tree, Seq<bool>)
    decreases MAX_DEPTH - depth, 0nat,
    when depth <= MAX_DEPTH
{
    let entry = index.entries[number as int];
    if entry.is_dir && !entry.links_elsewhere() {
        let now = entered.update(number as int, true);
        if !entered[number as int] && lists(depth, options) {
            let (children, after) = built_all(
                index,
                index::listed(index, number),
                depth + 1,
                options,
                now,
            );
            (Tree { children, ..node::new_directory(name) }, after)
        } else {
            (node::new_directory(name), now)
        }
    } else {
        (leaf(entry, number, name, options), entered)
    }
}

/// The trees that `children` make `depth` levels down, one after the other,
/// without those that are left out.
pub open spec fn built_all(
    index: IndexModel,
    children: Seq<(u32, Seq<char>)>,
    depth: nat,
    options: ScanOptions,
    entered: Seq<bool>,
) -> (Seq<Tree>, Seq<bool>)
    decreases MAX_DEPTH - depth, children.len() + 1,
    when depth <= MAX_DEPTH
{
    if children.len() == 0 {
        (Seq::empty(), entered)
    } else {
        let (before, now) = built_all(index, children.drop_last(), depth, options, entered);
        let (number, name) = children.last();
        if left_out(name, options) {
            (before, now)
        } else {
            let (tree, after) = built(index, number, name, depth, options, now);
            (before.push(tree), after)
        }
    }
}

/// The tree below entry `root`, named `name`.
pub open spec fn tree_at(
    index: IndexModel,
    root: u32,
    name: Seq<char>,
    options: ScanOptions,
) -> Tree {
    built(index, root, name, 0, options, Seq::new(index.entries.len(), |i: int| false)).0
}

/// What a directory that is listed becomes.
pub proof fn lemma_built_directory(
    index: IndexModel,
    number: u32,
    name: Seq<char>,
    depth: nat,
    options: ScanOptions,
    entered: Seq<bool>,
)
    requires
        depth < MAX_DEPTH,
        index.entries[number as int].is_dir,
        !index.entries[number as int].links_elsewhere(),
        !entered[number as int],
        lists(depth, options),
    ensures
        built(index, number, name, depth, options, entered) == ({
            let (children, after) = built_all(
                index,
                index::listed(index, number),
                depth + 1,
                options,
                entered.update(number as int, true),
            );
            (Tree { children, ..node::new_directory(name) }, after)
        }),
{
    reveal_with_fuel(built, 2);
    reveal_with_fuel(built_all, 2);
}

impl Index {
    /// Build the tree below `root`, named `name`, as the directory walk
    /// would: same hidden rule, same depth limit, links not entered.
    /// Totals are left to [`crate::tree::aggregate`].
    pub fn build(&self, root: u32, name: &str, options: &ScanOptions) -> (tree: Node)
        requires
            root < self@.entries.len(),
        ensures
            tree@ == tree_at(self@, root, name@, *options),
    {
        let mut entered: Vec<bool> = Vec::new();
        entered.resize(self.len(), false);
        assert(entered@ =~= Seq::new(self@.entries.len(), |i: int| false));
        self.node(root, name, 0, options, &mut entered)
    }

    fn node(
        &self,
        number: u32,
        name: &str,
        depth: usize,
        options: &ScanOptions,
        entered: &mut Vec<bool>,
    ) -> (tree: Node)
        requires
            number < self@.entries.len(),
            depth <= MAX_DEPTH,
            old(entered)@.len() == self@.entries.len(),
        ensures
            (tree@, final(entered)@) == built(
                self@,
                number,
                name@,
                depth as nat,
                *options,
                old(entered)@,
            ),
            final(entered)@.len() == self@.entries.len(),
        decreases MAX_DEPTH - depth,
    {
        let place: usize = number as usize;
        let entry = self.entry(place);
        if entry.is_dir && !entry.is_link() {
            let mut node = Node::directory(name);
            let ghost before = entered@;
            // A directory has one parent; seeing one twice is a corrupt
            // table, and entering it again could never end.
            let first_visit = !entered[place];
            entered.set(place, true);
            let within = match options.max_depth {
                Some(limit) => depth < limit,
                None => true,
            };
            if first_visit && depth < MAX_DEPTH && within {
                let ghost start = entered@;
                let list = self.children(number);
                let ghost all = index::named(list@);
                proof {
                    lemma_built_directory(
                        self@,
                        number,
                        name@,
                        depth as nat,
                        *options,
                        before,
                    );
                    assert(all == index::listed(self@, number));
                    assert(all.take(0) =~= Seq::empty());
                    assert(node@.children == node::trees(node.children@));
                    assert(node::trees(node.children@) =~= Seq::empty());
                }
                let ghost bare = node;
                let mut next: usize = 0;
                while next < list.len()
                    invariant
                        next <= list@.len(),
                        depth < MAX_DEPTH,
                        all == index::named(list@),
                        forall|i: int|
                            0 <= i < list@.len() ==> (#[trigger] list@[i]).0
                                < self@.entries.len(),
                        entered@.len() == self@.entries.len(),
                        (node::trees(node.children@), entered@) == built_all(
                            self@,
                            all.take(next as int),
                            (depth + 1) as nat,
                            *options,
                            start,
                        ),
                        node == (Node { children: node.children, ..bare }),
                    decreases list@.len() - next,
                {
                    let (child, child_name) = (list[next].0, &list[next].1);
                    let child_text: &str = child_name;
                    proof {
                        assert(all.take(next + 1).drop_last() =~= all.take(next as int));
                        assert(all.take(next + 1).last() == (child, child_text@));
                    }
                    if options.include_hidden || !begins_with(child_text, '.') {
                        let tree = self.node(child, child_text, depth + 1, options, entered);
                        let ghost held = node.children@;
                        node.children.push(tree);
                        assert(node::trees(node.children@) =~= node::trees(held).push(tree@));
                    }
                    next = next + 1;
                }
                assert(all.take(next as int) =~= all);
            }
            return node;
        }
        let kind = if entry.is_link() {
            NodeKind::Symlink
        } else if entry.is_dir {
            NodeKind::Other
        } else {
            NodeKind::File
        };
        let bytes: u64 = if options.apparent_size {
            entry.apparent
        } else {
            entry.allocated
        };
        let mut node = Node::entry(name, kind, bytes);
        node.modified = entry.modified;
        // One record under several names: the finishing pass charges it
        // once. The device half of the key is unused, as this is one volume.
        if entry.links > 1 {
            node.inode = Some((u64::MAX, number as u64));
        }
        node
    }
}

/// Levels that may be listed below a directory `depth` levels down.
pub open spec fn levels_left(depth: nat, options: ScanOptions) -> nat {
    let limit = match options.max_depth {
        Some(limit) => if limit < MAX_DEPTH {
            limit as int
        } else {
            MAX_DEPTH as int
        },
        None => MAX_DEPTH as int,
    };
    if depth < limit {
        (limit - depth) as nat
    } else {
        0
    }
}

/// Whether only directories hold anything in `tree`, and nothing beneath it
/// is left out by `options`.
pub open spec fn kept_to(tree: Tree, options: ScanOptions) -> bool
    decreases tree,
{
    &&& !(tree.kind is Directory) ==> tree.children.len() == 0
    &&& forall|i: int|
        0 <= i < tree.children.len() ==> {
            &&& !left_out((#[trigger] tree.children[i]).name, options)
            &&& kept_to(tree.children[i], options)
        }
}

proof fn lemma_built(
    index: IndexModel,
    number: u32,
    name: Seq<char>,
    depth: nat,
    options: ScanOptions,
    entered: Seq<bool>,
)
    requires
        depth <= MAX_DEPTH,
    ensures
        ({
            let tree = built(index, number, name, depth, options, entered).0;
            &&& tree.name == name
            &&& kept_to(tree, options)
            &&& node::height(tree) <= levels_left(depth, options)
        }),
    decreases MAX_DEPTH - depth, 0nat,
{
    let entry = index.entries[number as int];
    let tree = built(index, number, name, depth, options, entered).0;
    if entry.is_dir && !entry.links_elsewhere() && !entered[number as int] && lists(
        depth,
        options,
    ) {
        lemma_built_directory(index, number, name, depth, options, entered);
        lemma_built_all(
            index,
            index::listed(index, number),
            depth + 1,
            options,
            entered.update(number as int, true),
        );
    } else {
        assert(tree.children.len() == 0);
    }
    reveal_with_fuel(node::height, 2);
    reveal_with_fuel(node::levels, 2);
    assert(node::height(tree) == node::levels(tree.children));
}

proof fn lemma_built_all(
    index: IndexModel,
    children: Seq<(u32, Seq<char>)>,
    depth: nat,
    options: ScanOptions,
    entered: Seq<bool>,
)
    requires
        1 <= depth <= MAX_DEPTH,
        lists((depth - 1) as nat, options),
    ensures
        ({
            let trees = built_all(index, children, depth, options, entered).0;
            &&& forall|i: int|
                0 <= i < trees.len() ==> {
                    &&& !left_out((#[trigger] trees[i]).name, options)
                    &&& kept_to(trees[i], options)
                }
            &&& node::levels(trees) <= levels_left((depth - 1) as nat, options)
        }),
    decreases MAX_DEPTH - depth, children.len() + 1,
{
    if children.len() > 0 {
        let (before, now) = built_all(index, children.drop_last(), depth, options, entered);
        let (number, name) = children.last();
        lemma_built_all(index, children.drop_last(), depth, options, entered);
        if !left_out(name, options) {
            lemma_built(index, number, name, depth, options, now);
            let tree = built(index, number, name, depth, options, now).0;
            let trees = before.push(tree);
            assert(built_all(index, children, depth, options, entered).0 == trees);
            assert(trees.drop_last() =~= before);
        }
    }
}

proof fn lemma_kept_to_at(tree: Tree, options: ScanOptions, crumbs: Seq<usize>)
    requires
        kept_to(tree, options),
        node::at(tree, crumbs) is Some,
    ensures
        kept_to(node::at(tree, crumbs)->0, options),
        crumbs.len() > 0 ==> !left_out(node::at(tree, crumbs)->0.name, options),
    decreases crumbs.len(),
{
    if crumbs.len() > 0 {
        lemma_kept_to_at(tree, options, crumbs.drop_last());
        let parent = node::at(tree, crumbs.drop_last())->0;
        let child = parent.children[crumbs.last() as int];
        assert(!left_out(child.name, options) && kept_to(child, options));
    }
}

/// The tree that is built keeps to the options: nothing lies deeper than they
/// allow, no name that they leave out stands in it, and what is no directory,
/// a link among them, has nothing beneath it.
pub proof fn lemma_tree_keeps_to_options(
    index: IndexModel,
    root: u32,
    name: Seq<char>,
    options: ScanOptions,
    crumbs: Seq<usize>,
)
    requires
        node::at(tree_at(index, root, name, options), crumbs) is Some,
    ensures
        crumbs.len() <= levels_left(0, options),
        crumbs.len() > 0 ==> !left_out(
            node::at(tree_at(index, root, name, options), crumbs)->0.name,
            options,
        ),
        ({
            let found = node::at(tree_at(index, root, name, options), crumbs)->0;
            !(found.kind is Directory) ==> found.children.len() == 0
        }),
{
    let tree = tree_at(index, root, name, options);
    lemma_built(index, root, name, 0, options, Seq::new(index.entries.len(), |i: int| false));
    node::lemma_at_height(tree, crumbs);
    lemma_kept_to_at(tree, options, crumbs);
}

/// Names of one file can be told: each leaf of an entry with several names has
/// the same key, and leaves of two entries never do, so a file is charged
/// once however many names it has.
pub proof fn lemma_hardlinks_share_a_key(
    left: Entry,
    left_number: u32,
    left_name: Seq<char>,
    right: Entry,
    right_number: u32,
    right_name: Seq<char>,
    options: ScanOptions,
)
    requires
        left.links > 1,
        right.links > 1,
    ensures
        leaf(left, left_number, left_name, options).inode is Some,
        leaf(left, left_number, left_name, options).inode == leaf(
            right,
            right_number,
            right_name,
            options,
        ).inode <==> left_number == right_number,
{
}

} // verus!
