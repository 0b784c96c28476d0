//! Totals, and the order of what they are drawn from.

use vstd::prelude::*;
use vstd::utf8::encode_utf8;

use crate::sort;
use crate::text;
use crate::tree::node;
use crate::tree::node::{Metric, Node, Tree};

verus! {

broadcast use crate::tree::node::group_trees;

/// 1980-01-02: a day past the zip epoch, to allow for time zones.
pub const ZIP_EPOCH: i64 = 315_619_200;

/// npm's fixed stamp for unpacked package files.
pub const NPM_STAMP: i64 = 499_162_500;

/// Whether `seconds` says when a file was written.
pub open spec fn tells_time(seconds: i64) -> bool {
    seconds > ZIP_EPOCH && seconds != NPM_STAMP
}

/// Whether a write time, in Unix seconds, says when the file was written.
///
/// Tools that build reproducibly stamp every file with a fixed date: zip's
/// epoch of 1980 or thereabouts, the Unix epoch, and npm's 1985-10-26
/// 08:15:00 for everything it unpacks. Those files were put there recently,
/// and counting them as decades old would fill the oldest age band with
/// fresh installs. Such times are treated as unknown.
pub fn known_time(seconds: i64) -> (known: bool)
    ensures
        known == tells_time(seconds),
{
    seconds > ZIP_EPOCH && seconds != NPM_STAMP
}

/// Bytes, files and directories.
pub struct Totals {
    pub bytes: nat,
    pub files: nat,
    pub dirs: nat,
}

impl Totals {
    /// Nothing.
    pub open spec fn none() -> Totals {
        Totals { bytes: 0, files: 0, dirs: 0 }
    }

    /// These and `more`.
    pub open spec fn and(self, more: Totals) -> Totals {
        Totals {
            bytes: self.bytes + more.bytes,
            files: self.files + more.files,
            dirs: self.dirs + more.dirs,
        }
    }

    /// No more than `limit` of anything.
    pub open spec fn within(self, limit: Totals) -> bool {
        self.bytes <= limit.bytes && self.files <= limit.files && self.dirs <= limit.dirs
    }

    /// Numbers that 64 bits hold.
    pub open spec fn fit(self) -> bool {
        self.bytes <= u64::MAX && self.files <= u64::MAX && self.dirs <= u64::MAX
    }
}

/// What `tree` amounts to: a leaf is what it holds itself, a directory is
/// itself and all that its children amount to.
pub open spec fn totals(tree: Tree) -> Totals
    decreases tree,
{
    if tree.kind is Directory {
        (Totals { bytes: 0, files: 0, dirs: 1 }).and(sum(tree.children))
    } else {
        Totals { bytes: tree.own_bytes as nat, files: tree.own_files as nat, dirs: 0 }
    }
}

/// What `children` amount to together.
pub open spec fn sum(children: Seq<Tree>) -> Totals
    decreases children,
{
    if children.len() == 0 {
        Totals::none()
    } else {
        sum(children.drop_last()).and(totals(children.last()))
    }
}

/// What those of `children` that are not directories amount to.
pub open spec fn direct(children: Seq<Tree>) -> Totals
    decreases children.len(),
{
    if children.len() == 0 {
        Totals::none()
    } else {
        let before = direct(children.drop_last());
        if children.last().kind is Directory {
            before
        } else {
            before.and(totals(children.last()))
        }
    }
}

/// The latest write time among `children`, of those that say when; `0` when
/// none does.
pub open spec fn newest(children: Seq<Tree>) -> i64
    decreases children.len(),
{
    if children.len() == 0 {
        0
    } else {
        let before = newest(children.drop_last());
        let last = children.last().modified;
        if tells_time(last) && last > before {
            last
        } else {
            before
        }
    }
}

/// Whether `left` may stand before `right`: the larger first, and by name
/// where they are as large.
pub open spec fn ranks_before(left: Tree, right: Tree, metric: Metric) -> bool {
    let (left_weight, right_weight) = (node::weight(left, metric), node::weight(right, metric));
    left_weight > right_weight || left_weight == right_weight && text::precedes(
        encode_utf8(left.name),
        encode_utf8(right.name),
    )
}

/// The order of children by `metric`.
pub open spec fn ranking(metric: Metric) -> spec_fn(Tree, Tree) -> bool {
    |left: Tree, right: Tree| ranks_before(left, right, metric)
}

/// `children` by `metric`, largest first.
pub open spec fn ranked(children: Seq<Tree>, metric: Metric) -> Seq<Tree> {
    sort::ordered(children, ranking(metric))
}

/// `tree` with its totals worked out from its leaves, and its children in
/// order.
pub open spec fn aggregated(tree: Tree, metric: Metric) -> Tree
    decreases tree,
{
    if tree.kind is Directory {
        let children = all_aggregated(tree.children, metric);
        Tree {
            bytes: totals(tree).bytes as u64,
            files: totals(tree).files as u64,
            dirs: totals(tree).dirs as u64,
            own_bytes: direct(tree.children).bytes as u64,
            own_files: direct(tree.children).files as u64,
            modified: newest(children),
            children: ranked(children, metric),
            ..tree
        }
    } else {
        Tree { bytes: tree.own_bytes, files: tree.own_files, dirs: 0, ..tree }
    }
}

/// Each of `children` with its totals worked out.
pub open spec fn all_aggregated(children: Seq<Tree>, metric: Metric) -> Seq<Tree>
    decreases children,
{
    if children.len() == 0 {
        Seq::empty()
    } else {
        all_aggregated(children.drop_last(), metric).push(aggregated(children.last(), metric))
    }
}

/// What aggregating a directory makes of it.
pub proof fn lemma_aggregated_directory(tree: Tree, metric: Metric)
    requires
        tree.kind is Directory,
    ensures
        aggregated(tree, metric) == (Tree {
            bytes: totals(tree).bytes as u64,
            files: totals(tree).files as u64,
            dirs: totals(tree).dirs as u64,
            own_bytes: direct(tree.children).bytes as u64,
            own_files: direct(tree.children).files as u64,
            modified: newest(all_aggregated(tree.children, metric)),
            children: ranked(all_aggregated(tree.children, metric), metric),
            ..tree
        }),
        totals(tree) == (Totals { bytes: 0, files: 0, dirs: 1 }).and(sum(tree.children)),
{
    reveal_with_fuel(aggregated, 2);
    reveal_with_fuel(all_aggregated, 2);
    reveal_with_fuel(totals, 2);
    reveal_with_fuel(sum, 2);
}

/// Children are aggregated one by one.
pub proof fn lemma_all_aggregated(children: Seq<Tree>, metric: Metric)
    ensures
        all_aggregated(children, metric).len() == children.len(),
        forall|i: int|
            0 <= i < children.len() ==> #[trigger] all_aggregated(children, metric)[i]
                == aggregated(children[i], metric),
    decreases children.len(),
{
    if children.len() > 0 {
        lemma_all_aggregated(children.drop_last(), metric);
    }
}

/// Sums grow child by child.
pub proof fn lemma_sum_grows(children: Seq<Tree>, few: int)
    requires
        0 <= few < children.len(),
    ensures
        sum(children.take(few + 1)) == sum(children.take(few)).and(totals(children[few])),
        sum(children.take(few + 1)).within(sum(children)),
        totals(children[few]).within(sum(children)),
        direct(children.take(few + 1)).bytes <= sum(children.take(few + 1)).bytes,
        direct(children.take(few + 1)).files <= sum(children.take(few + 1)).files,
    decreases children.len(),
{
    let next = children.take(few + 1);
    assert(next.drop_last() =~= children.take(few));
    lemma_direct(next);
    if few + 1 < children.len() {
        let shorter = children.drop_last();
        lemma_sum_grows(shorter, few);
        assert(shorter.take(few + 1) =~= next);
    } else {
        assert(next =~= children);
    }
}

/// What is direct is part of all.
pub proof fn lemma_direct(children: Seq<Tree>)
    ensures
        direct(children).bytes <= sum(children).bytes,
        direct(children).files <= sum(children).files,
    decreases children.len(),
{
    if children.len() > 0 {
        lemma_direct(children.drop_last());
    }
}

/// Children can be ranked: of any two, one may stand before the other.
pub proof fn lemma_ranking(metric: Metric)
    ensures
        sort::orders(ranking(metric)),
{
    let leq = ranking(metric);
    assert forall|left: Tree, right: Tree| #[trigger] leq(left, right) || leq(right, left) by {
        text::lemma_precedes_total(encode_utf8(left.name), encode_utf8(right.name));
        assert(leq(left, right) == ranks_before(left, right, metric));
    }
    assert forall|first: Tree, second: Tree, third: Tree|
        #[trigger] leq(first, second) && #[trigger] leq(second, third) implies leq(
        first,
        third,
    ) by {
        assert(ranks_before(first, second, metric) && ranks_before(second, third, metric));
        let (a, b, c) = (encode_utf8(first.name), encode_utf8(second.name), encode_utf8(third.name));
        if text::precedes(a, b) && text::precedes(b, c) {
            text::lemma_precedes_transitive(a, b, c);
        }
        assert(ranks_before(first, third, metric));
    }
}

proof fn lemma_trees_map(nodes: Seq<Node>)
    ensures
        nodes.map_values(|node: Node| node@) == node::trees(nodes),
{
    assert(nodes.map_values(|node: Node| node@) =~= node::trees(nodes));
}

/// `children` ordered by `metric`, largest first.
fn rank(children: Vec<Node>, metric: Metric) -> (in_order: Vec<Node>)
    ensures
        node::trees(in_order@) == ranked(node::trees(children@), metric),
{
    let le = |left: &Node, right: &Node| -> (first: bool)
        ensures
            first == ranks_before(left@, right@, metric),
        {
            let (left_weight, right_weight): (u64, u64) = (left.value(metric), right.value(metric));
            left_weight > right_weight || left_weight == right_weight && text::not_after(
                &left.name,
                &right.name,
            )
        };
    let ghost leq = |left: Node, right: Node| ranks_before(left@, right@, metric);
    proof {
        lemma_ranking(metric);
        let by_view = ranking(metric);
        assert forall|left: Node, right: Node| #[trigger] leq(left, right) || leq(right, left) by {
            assert(by_view(left@, right@) || by_view(right@, left@));
        }
        assert forall|first: Node, second: Node, third: Node|
            #[trigger] leq(first, second) && #[trigger] leq(second, third) implies leq(
            first,
            third,
        ) by {
            assert(by_view(first@, second@) && by_view(second@, third@));
        }
        let view = |node: Node| node@;
        assert forall|left: Node, right: Node| #[trigger]
            leq(left, right) == by_view(view(left), view(right)) by {}
        sort::lemma_ordered_maps(children@, leq, view, by_view);
        lemma_trees_map(children@);
        lemma_trees_map(sort::ordered(children@, leq));
    }
    sort::sort(children, &le, Ghost(leq))
}

/// Recompute `bytes`, `files`, `dirs` and the direct totals bottom-up, then
/// order children by `metric`, largest first.
///
/// `bytes` and `files` are the subtree totals; `own_bytes` and `own_files` are
/// the direct contents, derived from the leaf children rather than tracked
/// separately. Deriving them is what keeps the two consistent: hardlink
/// de-duplication rewrites a leaf's weight, and every total above it —
/// including its parent's "direct" figure — follows without a second pass.
pub fn aggregate(node: &mut Node, metric: Metric)
    requires
        totals(old(node)@).fit(),
    ensures
        final(node)@ == aggregated(old(node)@, metric),
    decreases *old(node),
{
    let ghost before = node@;
    if !node.is_dir() {
        node.bytes = node.own_bytes;
        node.files = node.own_files;
        node.dirs = 0;
        assert(node@.children == before.children);
        return;
    }
    proof {
        lemma_aggregated_directory(before, metric);
        lemma_direct(before.children);
        lemma_all_aggregated(before.children, metric);
    }
    let count: usize = node.children.len();
    let mut bytes: u64 = 0;
    let mut files: u64 = 0;
    let mut own_bytes: u64 = 0;
    let mut own_files: u64 = 0;
    let mut dirs: u64 = 1;
    let mut modified: i64 = 0;
    let mut next: usize = 0;
    let ghost children = all_aggregated(before.children, metric);
    while next < count
        invariant
            next <= count,
            count == node.children@.len(),
            count == before.children.len(),
            before == old(node)@,
            before.kind is Directory,
            totals(before).fit(),
            totals(before) == (Totals { bytes: 0, files: 0, dirs: 1 }).and(sum(before.children)),
            children.len() == count,
            forall|i: int|
                0 <= i < count ==> #[trigger] children[i] == aggregated(
                    before.children[i],
                    metric,
                ),
            forall|i: int| 0 <= i < next ==> (#[trigger] node.children@[i])@ == children[i],
            forall|i: int|
                next <= i < count ==> #[trigger] node.children@[i] == old(node).children@[i],
            *node == (Node { children: node.children, ..*old(node) }),
            bytes == sum(before.children.take(next as int)).bytes,
            files == sum(before.children.take(next as int)).files,
            dirs == 1 + sum(before.children.take(next as int)).dirs,
            own_bytes == direct(before.children.take(next as int)).bytes,
            own_files == direct(before.children.take(next as int)).files,
            modified == newest(children.take(next as int)),
        decreases count - next,
    {
        proof {
            lemma_sum_grows(before.children, next as int);
            assert(before.children.take(next + 1).drop_last() =~= before.children.take(
                next as int,
            ));
            assert(children.take(next + 1).drop_last() =~= children.take(next as int));
            assert(node.children@[next as int]@ == before.children[next as int]);
        }
        aggregate(&mut node.children[next], metric);
        let child = &node.children[next];
        // A placeholder stamp would pass for the folder's newest write.
        if known_time(child.modified) && child.modified > modified {
            modified = child.modified;
        }
        bytes = bytes + child.bytes;
        files = files + child.files;
        dirs = dirs + child.dirs;
        if !child.is_dir() {
            own_bytes = own_bytes + child.bytes;
            own_files = own_files + child.files;
        }
        next = next + 1;
    }
    proof {
        assert(before.children.take(next as int) =~= before.children);
        assert(children.take(next as int) =~= children);
        assert(node::trees(node.children@) =~= children);
    }
    node.bytes = bytes;
    node.files = files;
    node.own_bytes = own_bytes;
    node.own_files = own_files;
    node.dirs = dirs;
    node.modified = modified;
    // Largest first: a treemap lays out big tiles best, and the order is what
    // makes "descend into the largest child" meaningful.
    let mut children: Vec<Node> = Vec::new();
    std::mem::swap(&mut children, &mut node.children);
    node.children = rank(children, metric);
}

/// The bytes, files and directories at or beneath `node`, worked out from its
/// leaves; `None` where 64 bits do not hold one of them, and then
/// [`aggregate`] cannot be asked for it.
pub fn count(node: &Node) -> (counted: Option<(u64, u64, u64)>)
    ensures
        match counted {
            Some((bytes, files, dirs)) => totals(node@) == (Totals {
                bytes: bytes as nat,
                files: files as nat,
                dirs: dirs as nat,
            }),
            None => !totals(node@).fit(),
        },
    decreases node,
{
    if !node.is_dir() {
        return Some((node.own_bytes, node.own_files, 0));
    }
    let ghost children = node@.children;
    proof {
        reveal_with_fuel(totals, 2);
        reveal_with_fuel(sum, 2);
        assert(totals(node@) == (Totals { bytes: 0, files: 0, dirs: 1 }).and(sum(children)));
    }
    let mut bytes: u64 = 0;
    let mut files: u64 = 0;
    let mut dirs: u64 = 1;
    let mut next: usize = 0;
    while next < node.children.len()
        invariant
            next <= node.children@.len(),
            children == node@.children,
            totals(node@) == (Totals { bytes: 0, files: 0, dirs: 1 }).and(sum(children)),
            bytes == sum(children.take(next as int)).bytes,
            files == sum(children.take(next as int)).files,
            dirs == 1 + sum(children.take(next as int)).dirs,
        decreases node.children@.len() - next,
    {
        proof {
            lemma_sum_grows(children, next as int);
        }
        match count(&node.children[next]) {
            Some((child_bytes, child_files, child_dirs)) => {
                match (
                    bytes.checked_add(child_bytes),
                    files.checked_add(child_files),
                    dirs.checked_add(child_dirs),
                ) {
                    (Some(all_bytes), Some(all_files), Some(all_dirs)) => {
                        bytes = all_bytes;
                        files = all_files;
                        dirs = all_dirs;
                    },
                    _ => return None,
                }
            },
            None => return None,
        }
        next = next + 1;
    }
    assert(children.take(next as int) =~= children);
    Some((bytes, files, dirs))
}

} // verus!
