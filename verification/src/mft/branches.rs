//! What each entry of the table becomes in the tree that is built.

use vstd::prelude::*;

use crate::mft::growth;
use crate::mft::index;
use crate::mft::index::IndexModel;
use crate::mft::table::Entry;
use crate::scan::ScanOptions;
use crate::tree::node::Tree;

verus! {

/// Whether bit 29 of an entry's reparse tag is set: the tag stands for another
/// name.
pub open spec fn tagged_as_name(entry: Entry) -> bool {
    entry.reparse_tag matches Some(tag) && (tag / 0x2000_0000) % 2 == 1
}

/// An entry is a link if and only if it has a reparse tag with the bit that
/// says so; other tags, such as those of cloud files, make none.
pub proof fn lemma_link_by_its_bit(entry: Entry)
    ensures
        entry.links_elsewhere() <==> tagged_as_name(entry),
        entry.reparse_tag is None ==> !entry.links_elsewhere(),
{
    if let Some(tag) = entry.reparse_tag {
        assert((tag & 0x2000_0000 != 0) <==> (tag / 0x2000_0000) % 2 == 1) by (bit_vector);
    }
}

/// Whether a directory at `depth` may be listed: the options set no limit that
/// is reached, nor is the deepest level there is.
pub open spec fn within_limit(depth: nat, options: ScanOptions) -> bool {
    depth < 4096 && (options.max_depth matches Some(limit) ==> depth < limit)
}

/// Every entry becomes what it is: a link if its tag says so, else a directory
/// or a file. What is no directory has nothing beneath it, the size that is
/// asked for, its own last write, and counts as a file unless it is a link.
pub proof fn lemma_what_it_becomes(
    index: IndexModel,
    number: u32,
    name: Seq<char>,
    depth: nat,
    options: ScanOptions,
    entered: Seq<bool>,
)
    requires
        depth <= 4096,
        number < index.entries.len(),
    ensures
        ({
            let entry = index.entries[number as int];
            let tree = growth::built(index, number, name, depth, options, entered).0;
            &&& tree.name == name
            &&& tree.kind is Symlink <==> tagged_as_name(entry)
            &&& tree.kind is Directory <==> entry.is_dir && !tagged_as_name(entry)
            &&& tree.kind is File <==> !entry.is_dir && !tagged_as_name(entry)
            &&& !(tree.kind is Directory) ==> {
                &&& tree.children.len() == 0
                &&& tree.bytes == tree.own_bytes
                &&& tree.bytes == if options.apparent_size {
                    entry.apparent
                } else {
                    entry.allocated
                }
                &&& tree.modified == entry.modified
                &&& tree.files == tree.own_files
                &&& tree.files == (if tree.kind is File { 1int } else { 0 })
                &&& tree.dirs == 0
                &&& tree.inode is Some <==> entry.links > 1
            }
        }),
{
    lemma_link_by_its_bit(index.entries[number as int]);
}

/// The names that are shown of `children`: all, or all that start with no dot.
pub open spec fn shown(children: Seq<(u32, Seq<char>)>, options: ScanOptions) -> Seq<
    (u32, Seq<char>),
> {
    children.filter(
        |child: (u32, Seq<char>)| options.include_hidden || child.1.len() == 0 || child.1[0] != '.',
    )
}

/// Whether `tree` is what `child` becomes `depth` levels down.
pub open spec fn becomes(
    tree: Tree,
    index: IndexModel,
    child: (u32, Seq<char>),
    depth: nat,
    options: ScanOptions,
) -> bool {
    exists|entered: Seq<bool>|
        tree == (#[trigger] growth::built(index, child.0, child.1, depth, options, entered)).0
}

/// Whether `trees` are what `children` become, one for one, `depth` levels
/// down.
pub open spec fn grown_from(
    trees: Seq<Tree>,
    index: IndexModel,
    children: Seq<(u32, Seq<char>)>,
    depth: nat,
    options: ScanOptions,
) -> bool {
    &&& trees.len() == children.len()
    &&& forall|i: int|
        0 <= i < trees.len() ==> becomes(#[trigger] trees[i], index, children[i], depth, options)
}

proof fn lemma_all_shown(
    index: IndexModel,
    children: Seq<(u32, Seq<char>)>,
    depth: nat,
    options: ScanOptions,
    entered: Seq<bool>,
)
    requires
        depth <= 4096,
    ensures
        grown_from(
            growth::built_all(index, children, depth, options, entered).0,
            index,
            shown(children, options),
            depth,
            options,
        ),
    decreases children.len(),
{
    reveal(Seq::filter);
    let trees = growth::built_all(index, children, depth, options, entered).0;
    let visible = shown(children, options);
    if children.len() > 0 {
        let few = children.drop_last();
        let (before, now) = growth::built_all(index, few, depth, options, entered);
        lemma_all_shown(index, few, depth, options, entered);
        let (number, name) = children.last();
        let some = shown(few, options);
        if growth::left_out(name, options) {
            assert(visible =~= some);
            assert(trees == before);
        } else {
            assert(visible =~= some.push((number, name)));
            let last = growth::built(index, number, name, depth, options, now);
            assert(trees == before.push(last.0));
            assert(becomes(last.0, index, (number, name), depth, options));
            assert forall|i: int| 0 <= i < trees.len() implies becomes(
                #[trigger] trees[i],
                index,
                visible[i],
                depth,
                options,
            ) by {
                if i < before.len() {
                    assert(trees[i] == before[i]);
                    assert(visible[i] == some[i]);
                }
            }
        }
    } else {
        assert(visible =~= Seq::empty());
    }
}

/// A directory that is met for the first time, within the limit, has all that
/// it lists beneath it, in that order, but for hidden names where these are
/// not asked for; one that is met again, or lies too deep, has nothing.
pub proof fn lemma_directory_holds_what_it_lists(
    index: IndexModel,
    number: u32,
    name: Seq<char>,
    depth: nat,
    options: ScanOptions,
    entered: Seq<bool>,
)
    requires
        depth <= 4096,
        number < index.entries.len(),
        index.entries[number as int].is_dir,
        !tagged_as_name(index.entries[number as int]),
    ensures
        ({
            let tree = growth::built(index, number, name, depth, options, entered).0;
            if !entered[number as int] && within_limit(depth, options) {
                grown_from(
                    tree.children,
                    index,
                    shown(index.lists[number as int], options),
                    depth + 1,
                    options,
                )
            } else {
                tree.children.len() == 0
            }
        }),
{
    lemma_link_by_its_bit(index.entries[number as int]);
    if !entered[number as int] && within_limit(depth, options) {
        growth::lemma_built_directory(index, number, name, depth, options, entered);
        lemma_all_shown(
            index,
            index::listed(index, number),
            depth + 1,
            options,
            entered.update(number as int, true),
        );
    }
}

/// The tree of a directory has all that it lists, under the name it is given,
/// unless no level at all is asked for.
pub proof fn lemma_root_holds_what_it_lists(
    index: IndexModel,
    root: u32,
    name: Seq<char>,
    options: ScanOptions,
)
    requires
        root < index.entries.len(),
        index.entries[root as int].is_dir,
        !tagged_as_name(index.entries[root as int]),
        within_limit(0, options),
    ensures
        ({
            let tree = growth::tree_at(index, root, name, options);
            &&& tree.kind is Directory
            &&& tree.name == name
            &&& grown_from(
                tree.children,
                index,
                shown(index.lists[root as int], options),
                1,
                options,
            )
        }),
{
    let none = Seq::new(index.entries.len(), |i: int| false);
    lemma_what_it_becomes(index, root, name, 0, options, none);
    lemma_directory_holds_what_it_lists(index, root, name, 0, options, none);
}

} // verus!
