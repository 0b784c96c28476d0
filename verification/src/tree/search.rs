//! Searching a tree by name, nearest first.

use vstd::prelude::*;

use crate::text;
use crate::text::{characters_of, contains, lower_case};
use crate::tree::node;
use crate::tree::node::{Node, Tree};

verus! {

broadcast use crate::tree::node::group_trees;

/// Whether a search of `tree` looks into what lies at `crumbs`: the root, and
/// every directory that it comes across.
pub open spec fn entered(tree: Tree, crumbs: Seq<usize>) -> bool
    decreases crumbs.len(),
{
    crumbs.len() == 0 || {
        &&& entered(tree, crumbs.drop_last())
        &&& node::at(tree, crumbs) matches Some(found) && found.kind is Directory
    }
}

/// Whether a search of `tree` comes across what lies at `crumbs`: everything
/// directly in what it enters.
pub open spec fn reached(tree: Tree, crumbs: Seq<usize>) -> bool {
    &&& crumbs.len() > 0
    &&& entered(tree, crumbs.drop_last())
    &&& node::at(tree, crumbs) is Some
}

/// Whether `left` comes first of two crumbs of one length.
pub open spec fn left_of(left: Seq<usize>, right: Seq<usize>) -> bool
    decreases left.len(),
{
    left.len() == right.len() && left.len() > 0 && (left_of(left.drop_last(), right.drop_last())
        || left.drop_last() == right.drop_last() && left.last() < right.last())
}

/// Whether a search comes to `left` before `right`: level by level, and from
/// the first child to the last in each.
pub open spec fn sooner(left: Seq<usize>, right: Seq<usize>) -> bool {
    left.len() < right.len() || left_of(left, right)
}

/// Whether `takes` turns down a name that reads `text`.
pub open spec fn refused<F: Fn(&str) -> bool>(takes: F, text: Seq<char>) -> bool {
    exists|name: &str| name@ == text && #[trigger] call_ensures(takes, (name,), false)
}

/// A place to look into: the way to it, and what is there.
struct Place<'a> {
    crumbs: Vec<usize>,
    node: &'a Node,
}

/// Whether `places` are all that a search of `tree` enters `depth` levels
/// down, in order.
spec fn level(tree: Tree, places: Seq<Place>, depth: nat) -> bool {
    &&& forall|i: int|
        0 <= i < places.len() ==> {
            &&& (#[trigger] places[i]).crumbs@.len() == depth
            &&& entered(tree, places[i].crumbs@)
            &&& node::at(tree, places[i].crumbs@) == Some(places[i].node@)
        }
    &&& forall|crumbs: Seq<usize>| #[trigger]
        entered(tree, crumbs) && crumbs.len() == depth ==> exists|i: int|
            0 <= i < places.len() && (#[trigger] places[i]).crumbs@ == crumbs
    &&& forall|i: int, j: int|
        0 <= i < j < places.len() ==> left_of(
            (#[trigger] places[i]).crumbs@,
            (#[trigger] places[j]).crumbs@,
        )
}

/// Whether `next` are the places to enter a level further down than `places`,
/// in order, of the first `done` places and the first `seen` children of the
/// next one.
spec fn growing(
    tree: Tree,
    places: Seq<Place>,
    next: Seq<Place>,
    depth: nat,
    done: int,
    seen: int,
) -> bool {
    &&& forall|i: int|
        0 <= i < next.len() ==> {
            &&& (#[trigger] next[i]).crumbs@.len() == depth + 1
            &&& entered(tree, next[i].crumbs@)
            &&& node::at(tree, next[i].crumbs@) == Some(next[i].node@)
            &&& exists|k: int|
                0 <= k <= done && k < places.len() && (#[trigger] places[k]).crumbs@
                    == next[i].crumbs@.drop_last() && (k == done ==> next[i].crumbs@.last() < seen)
        }
    &&& forall|k: int, index: usize|
        0 <= k < places.len() && (k < done || k == done && index < seen) && #[trigger] entered(
            tree,
            (#[trigger] places[k]).crumbs@.push(index),
        ) ==> exists|i: int|
            0 <= i < next.len() && (#[trigger] next[i]).crumbs@ == places[k].crumbs@.push(index)
    &&& forall|i: int, j: int|
        0 <= i < j < next.len() ==> left_of(
            (#[trigger] next[i]).crumbs@,
            (#[trigger] next[j]).crumbs@,
        )
}

/// Whether nothing is taken of what a search of `tree` comes across up to
/// `depth` levels down.
spec fn none_within<F: Fn(&str) -> bool>(tree: Tree, takes: F, depth: nat) -> bool {
    forall|crumbs: Seq<usize>| #[trigger]
        reached(tree, crumbs) && crumbs.len() <= depth ==> refused(
            takes,
            node::at(tree, crumbs)->0.name,
        )
}

/// Whether nothing is taken of the children of the first `done` places and of
/// the first `seen` children of the next one.
spec fn none_among<F: Fn(&str) -> bool>(
    tree: Tree,
    takes: F,
    places: Seq<Place>,
    done: int,
    seen: int,
) -> bool {
    forall|k: int, index: usize|
        0 <= k < places.len() && (k < done || k == done && index < seen) && #[trigger] reached(
            tree,
            (#[trigger] places[k]).crumbs@.push(index),
        ) ==> refused(takes, node::at(tree, places[k].crumbs@.push(index))->0.name)
}

proof fn lemma_pushed(crumbs: Seq<usize>, index: usize)
    ensures
        crumbs.push(index).drop_last() == crumbs,
        crumbs.push(index).last() == index,
        crumbs.push(index).len() == crumbs.len() + 1,
{
    assert(crumbs.push(index).drop_last() =~= crumbs);
}

proof fn lemma_split(crumbs: Seq<usize>)
    requires
        crumbs.len() > 0,
    ensures
        crumbs.drop_last().push(crumbs.last()) == crumbs,
{
    assert(crumbs.drop_last().push(crumbs.last()) =~= crumbs);
}

/// What follows the last level there is: nothing.
proof fn lemma_no_deeper(tree: Tree, depth: nat, crumbs: Seq<usize>)
    requires
        forall|crumbs: Seq<usize>| #[trigger] entered(tree, crumbs) ==> crumbs.len() != depth,
        entered(tree, crumbs),
    ensures
        crumbs.len() < depth,
    decreases crumbs.len(),
{
    if crumbs.len() > 0 {
        lemma_no_deeper(tree, depth, crumbs.drop_last());
    }
}

proof fn lemma_found<F: Fn(&str) -> bool>(
    tree: Tree,
    takes: F,
    places: Seq<Place>,
    depth: nat,
    done: int,
    seen: usize,
    other: Seq<usize>,
)
    requires
        level(tree, places, depth),
        none_within(tree, takes, depth),
        none_among(tree, takes, places, done, seen as int),
        0 <= done < places.len(),
        reached(tree, other),
        sooner(other, places[done].crumbs@.push(seen)),
    ensures
        refused(takes, node::at(tree, other)->0.name),
{
    let here = places[done].crumbs@;
    lemma_pushed(here, seen);
    if other.len() == depth + 1 {
        lemma_split(other);
        let above = other.drop_last();
        let k = choose|k: int| 0 <= k < places.len() && (#[trigger] places[k]).crumbs@ == above;
        assert(reached(tree, places[k].crumbs@.push(other.last())));
        assert(left_of(other, here.push(seen)));
        if k > done {
            assert(left_of(places[done].crumbs@, places[k].crumbs@));
            lemma_left_of_irreflexive(here, above);
        } else if k == done {
            lemma_left_of_irreflexive(here, here);
        }
    }
}

proof fn lemma_left_of_irreflexive(left: Seq<usize>, right: Seq<usize>)
    ensures
        left_of(left, right) ==> !left_of(right, left) && left != right,
    decreases left.len(),
{
    if left.len() > 0 && right.len() > 0 {
        lemma_left_of_irreflexive(left.drop_last(), right.drop_last());
    }
}

impl Node {
    /// The first node beneath this one, level by level, whose name `takes`
    /// accepts, and the way to it.
    pub fn find_where<'a, F: Fn(&str) -> bool>(&'a self, takes: F) -> (found: Option<
        (Vec<usize>, &'a Node),
    >)
        requires
            forall|name: &str| call_requires(takes, (name,)),
        ensures
            match found {
                Some((crumbs, node)) => {
                    &&& reached(self@, crumbs@)
                    &&& node::at(self@, crumbs@) == Some(node@)
                    &&& exists|name: &str|
                        name@ == node@.name && #[trigger] call_ensures(takes, (name,), true)
                    &&& forall|other: Seq<usize>| #[trigger]
                        reached(self@, other) && sooner(other, crumbs@) ==> refused(
                            takes,
                            node::at(self@, other)->0.name,
                        )
                },
                None => forall|other: Seq<usize>| #[trigger]
                    reached(self@, other) ==> refused(takes, node::at(self@, other)->0.name),
            },
    {
        let ghost tree = self@;
        let mut places: Vec<Place<'a>> = Vec::new();
        places.push(Place { crumbs: Vec::new(), node: self });
        let ghost mut depth: nat = 0;
        proof {
            assert(places@[0].crumbs@ =~= Seq::empty());
            assert forall|crumbs: Seq<usize>| #[trigger]
                entered(tree, crumbs) && crumbs.len() == 0 implies exists|i: int|
                0 <= i < places@.len() && (#[trigger] places@[i]).crumbs@ == crumbs by {
                assert(crumbs =~= places@[0].crumbs@);
            }
        }
        while places.len() > 0
            invariant
                forall|name: &str| call_requires(takes, (name,)),
                tree == self@,
                level(tree, places@, depth),
                none_within(tree, takes, depth),
            decreases
                    if places@.len() > 0 {
                        node::height(tree) - depth + 1
                    } else {
                        0
                    },
        {
            proof {
                assert(places@[0].crumbs@.len() == depth);
                node::lemma_at_height(tree, places@[0].crumbs@);
            }
            let mut next: Vec<Place<'a>> = Vec::new();
            let mut done: usize = 0;
            while done < places.len()
                invariant
                    done <= places@.len(),
                    forall|name: &str| call_requires(takes, (name,)),
                    tree == self@,
                    level(tree, places@, depth),
                    none_within(tree, takes, depth),
                    none_among(tree, takes, places@, done as int, 0),
                    growing(tree, places@, next@, depth, done as int, 0),
                decreases places@.len() - done,
            {
                let node = places[done].node;
                let ghost here = places@[done as int].crumbs@;
                let mut seen: usize = 0;
                while seen < node.children.len()
                    invariant
                        done < places@.len(),
                        seen <= node.children@.len(),
                        node == places@[done as int].node,
                        here == places@[done as int].crumbs@,
                        forall|name: &str| call_requires(takes, (name,)),
                        tree == self@,
                        level(tree, places@, depth),
                        none_within(tree, takes, depth),
                        none_among(tree, takes, places@, done as int, seen as int),
                        growing(tree, places@, next@, depth, done as int, seen as int),
                    decreases node.children@.len() - seen,
                {
                    let child = &node.children[seen];
                    let name: &str = &child.name;
                    let ghost way = here.push(seen);
                    proof {
                        lemma_pushed(here, seen);
                        assert(node::at(tree, way) == Some(child@));
                        assert(reached(tree, way));
                    }
                    if takes(name) {
                        let mut crumbs = places[done].crumbs.clone();
                        crumbs.push(seen);
                        proof {
                            assert(crumbs@ =~= way);
                            assert forall|other: Seq<usize>| #[trigger]
                                reached(self@, other) && sooner(other, crumbs@) implies refused(
                                takes,
                                node::at(self@, other)->0.name,
                            ) by {
                                lemma_found(
                                    tree,
                                    takes,
                                    places@,
                                    depth,
                                    done as int,
                                    seen,
                                    other,
                                );
                            }
                        }
                        return Some((crumbs, child));
                    }
                    assert(refused(takes, child@.name));
                    let ghost before = next@;
                    if child.is_dir() {
                        let mut crumbs = places[done].crumbs.clone();
                        crumbs.push(seen);
                        assert(crumbs@ =~= way);
                        next.push(Place { crumbs, node: child });
                        assert(next@.drop_last() =~= before);
                    }
                    proof {
                        lemma_grows(
                            tree,
                            places@,
                            before,
                            next@,
                            depth,
                            done as int,
                            seen,
                        );
                        assert(none_among(tree, takes, places@, done as int, seen + 1)) by {
                            assert forall|k: int, index: usize|
                                0 <= k < places@.len() && (k < done || k == done && index < seen
                                    + 1) && #[trigger] reached(
                                    tree,
                                    (#[trigger] places@[k]).crumbs@.push(index),
                                ) implies refused(
                                takes,
                                node::at(tree, places@[k].crumbs@.push(index))->0.name,
                            ) by {
                                if k == done && index == seen {
                                    assert(places@[k].crumbs@.push(index) == way);
                                }
                            }
                        }
                    }
                    seen = seen + 1;
                }
                proof {
                    lemma_next_place(
                        tree,
                        takes,
                        places@,
                        next@,
                        depth,
                        done as int,
                        seen as int,
                    );
                }
                done = done + 1;
            }
            proof {
                lemma_next_level(tree, takes, places@, next@, depth);
                depth = depth + 1;
                if next@.len() > 0 {
                    assert(next@[0].crumbs@.len() == depth);
                    node::lemma_at_height(tree, next@[0].crumbs@);
                }
            }
            places = next;
        }
        proof {
            assert forall|other: Seq<usize>| #[trigger] reached(self@, other) implies refused(
                takes,
                node::at(self@, other)->0.name,
            ) by {
                lemma_no_deeper(tree, depth, other.drop_last());
            }
        }
        None
    }

    /// Breadth-first search for the first node whose name contains `needle`
    /// (case-insensitive), returning its crumbs and the node.
    pub fn find(&self, needle: &str) -> (found: Option<(Vec<usize>, &Node)>)
        ensures
            match found {
                Some((crumbs, node)) => {
                    &&& needle@.len() > 0
                    &&& reached(self@, crumbs@)
                    &&& node::at(self@, crumbs@) == Some(node@)
                    &&& text::holds(text::in_lower_case(node@.name), text::in_lower_case(needle@))
                    &&& forall|other: Seq<usize>| #[trigger]
                        reached(self@, other) && sooner(other, crumbs@) ==> !text::holds(
                            text::in_lower_case(node::at(self@, other)->0.name),
                            text::in_lower_case(needle@),
                        )
                },
                None => needle@.len() == 0 || forall|other: Seq<usize>| #[trigger]
                    reached(self@, other) ==> !text::holds(
                        text::in_lower_case(node::at(self@, other)->0.name),
                        text::in_lower_case(needle@),
                    ),
            },
    {
        let lower = characters_of(lower_case(needle).as_str());
        if lower.len() == 0 {
            return None;
        }
        let takes = |name: &str| -> (taken: bool)
            ensures
                taken == text::holds(text::in_lower_case(name@), lower@),
            { contains(&characters_of(lower_case(name).as_str()), &lower) };
        self.find_where(takes)
    }
}

proof fn lemma_grows(
    tree: Tree,
    places: Seq<Place>,
    before: Seq<Place>,
    after: Seq<Place>,
    depth: nat,
    done: int,
    seen: usize,
)
    requires
        level(tree, places, depth),
        growing(tree, places, before, depth, done, seen as int),
        0 <= done < places.len(),
        seen < places[done].node@.children.len(),
        seen < usize::MAX,
        ({
            let child = places[done].node@.children[seen as int];
            if child.kind is Directory {
                &&& after.len() == before.len() + 1
                &&& after.drop_last() == before
                &&& after.last().crumbs@ == places[done].crumbs@.push(seen)
                &&& after.last().node@ == child
            } else {
                after == before
            }
        }),
    ensures
        growing(tree, places, after, depth, done, seen + 1),
{
    let here = places[done].crumbs@;
    let way = here.push(seen);
    let child = places[done].node@.children[seen as int];
    lemma_pushed(here, seen);
    assert(node::at(tree, way) == Some(child));
    assert forall|i: int| 0 <= i < before.len() implies after[i] == #[trigger] before[i] by {
        if child.kind is Directory {
            assert(after.drop_last()[i] == before[i]);
        }
    }
    assert forall|i: int| 0 <= i < after.len() implies {
        &&& (#[trigger] after[i]).crumbs@.len() == depth + 1
        &&& entered(tree, after[i].crumbs@)
        &&& node::at(tree, after[i].crumbs@) == Some(after[i].node@)
        &&& exists|k: int|
            0 <= k <= done && k < places.len() && (#[trigger] places[k]).crumbs@
                == after[i].crumbs@.drop_last() && (k == done ==> after[i].crumbs@.last() < seen
                + 1)
    } by {
        if i < before.len() {
            assert(after[i] == before[i]);
        } else {
            assert(places[done].crumbs@ == after[i].crumbs@.drop_last());
        }
    }
    assert forall|k: int, index: usize|
        0 <= k < places.len() && (k < done || k == done && index < seen + 1) && #[trigger] entered(
            tree,
            (#[trigger] places[k]).crumbs@.push(index),
        ) implies exists|i: int|
        0 <= i < after.len() && (#[trigger] after[i]).crumbs@ == places[k].crumbs@.push(index) by {
        if k == done && index == seen {
            assert(after[after.len() - 1].crumbs@ == places[k].crumbs@.push(index));
        } else {
            let i = choose|i: int|
                0 <= i < before.len() && (#[trigger] before[i]).crumbs@ == places[k].crumbs@.push(
                    index,
                );
            assert(after[i] == before[i]);
        }
    }
    assert forall|i: int, j: int| 0 <= i < j < after.len() implies left_of(
        (#[trigger] after[i]).crumbs@,
        (#[trigger] after[j]).crumbs@,
    ) by {
        assert(after[i] == before[i]);
        if j < before.len() {
            assert(after[j] == before[j]);
        } else {
            let k = choose|k: int|
                0 <= k <= done && k < places.len() && (#[trigger] places[k]).crumbs@
                    == before[i].crumbs@.drop_last() && (k == done ==> before[i].crumbs@.last()
                    < seen);
            if k < done {
                assert(left_of(places[k].crumbs@, places[done].crumbs@));
            }
        }
    }
}

proof fn lemma_next_place<F: Fn(&str) -> bool>(
    tree: Tree,
    takes: F,
    places: Seq<Place>,
    next: Seq<Place>,
    depth: nat,
    done: int,
    seen: int,
)
    requires
        level(tree, places, depth),
        0 <= done < places.len(),
        seen == places[done].node@.children.len(),
        none_among(tree, takes, places, done, seen),
        growing(tree, places, next, depth, done, seen),
    ensures
        none_among(tree, takes, places, done + 1, 0),
        growing(tree, places, next, depth, done + 1, 0),
{
    assert forall|k: int, index: usize|
        0 <= k < places.len() && k < done + 1 && #[trigger] reached(
            tree,
            (#[trigger] places[k]).crumbs@.push(index),
        ) implies refused(takes, node::at(tree, places[k].crumbs@.push(index))->0.name) by {
        lemma_pushed(places[k].crumbs@, index);
    }
    assert forall|k: int, index: usize|
        0 <= k < places.len() && k < done + 1 && #[trigger] entered(
            tree,
            (#[trigger] places[k]).crumbs@.push(index),
        ) implies exists|i: int|
        0 <= i < next.len() && (#[trigger] next[i]).crumbs@ == places[k].crumbs@.push(index) by {
        lemma_pushed(places[k].crumbs@, index);
    }
    assert forall|i: int| 0 <= i < next.len() implies exists|k: int|
        0 <= k <= done + 1 && k < places.len() && (#[trigger] places[k]).crumbs@ == (
        #[trigger] next[i]).crumbs@.drop_last() && (k == done + 1 ==> next[i].crumbs@.last()
            < 0) by {
        let k = choose|k: int|
            0 <= k <= done && k < places.len() && (#[trigger] places[k]).crumbs@
                == next[i].crumbs@.drop_last() && (k == done ==> next[i].crumbs@.last() < seen);
        assert(places[k].crumbs@ == next[i].crumbs@.drop_last());
    }
}

proof fn lemma_next_level<F: Fn(&str) -> bool>(
    tree: Tree,
    takes: F,
    places: Seq<Place>,
    next: Seq<Place>,
    depth: nat,
)
    requires
        level(tree, places, depth),
        none_within(tree, takes, depth),
        none_among(tree, takes, places, places.len() as int, 0),
        growing(tree, places, next, depth, places.len() as int, 0),
    ensures
        level(tree, next, depth + 1),
        none_within(tree, takes, depth + 1),
{
    assert forall|crumbs: Seq<usize>| #[trigger]
        entered(tree, crumbs) && crumbs.len() == depth + 1 implies exists|i: int|
        0 <= i < next.len() && (#[trigger] next[i]).crumbs@ == crumbs by {
        lemma_split(crumbs);
        let above = crumbs.drop_last();
        assert(entered(tree, above));
        let k = choose|k: int| 0 <= k < places.len() && (#[trigger] places[k]).crumbs@ == above;
        assert(entered(tree, places[k].crumbs@.push(crumbs.last())));
    }
    assert forall|crumbs: Seq<usize>| #[trigger]
        reached(tree, crumbs) && crumbs.len() <= depth + 1 implies refused(
        takes,
        node::at(tree, crumbs)->0.name,
    ) by {
        if crumbs.len() == depth + 1 {
            lemma_split(crumbs);
            let above = crumbs.drop_last();
            assert(entered(tree, above));
            let k = choose|k: int|
                0 <= k < places.len() && (#[trigger] places[k]).crumbs@ == above;
            assert(reached(tree, places[k].crumbs@.push(crumbs.last())));
        }
    }
}

} // verus!
