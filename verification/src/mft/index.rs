//! The table as a tree: the children of each directory, by record number.

use vstd::prelude::*;

use crate::mft::table;
use crate::mft::table::{Entry, Link, Table};
use crate::sort;
use crate::text;
use crate::text::{lower_case, same};

verus! {

/// The root directory's record number, fixed by the format.
pub const ROOT_RECORD: u32 = 5;

/// The table as a tree: children of each directory, by record number.
#[derive(Debug)]
pub struct Index {
    entries: Vec<Entry>,
    /// Where the children of each entry start, and after the last where they
    /// end.
    offsets: Vec<usize>,
    children: Vec<(u32, Box<str>)>,
}

/// What an [`Index`] holds: the entries, and the children of each.
#[verifier::ext_equal]
pub struct IndexModel {
    pub entries: Seq<Entry>,
    pub lists: Seq<Seq<(u32, Seq<char>)>>,
}

/// Children, their names as text.
pub open spec fn named(children: Seq<(u32, Box<str>)>) -> Seq<(u32, Seq<char>)> {
    children.map_values(|child: (u32, Box<str>)| (child.0, child.1@))
}

/// Whether `number` is an entry in use.
pub open spec fn live(entries: Seq<Entry>, number: u32) -> bool {
    number < entries.len() && entries[number as int].in_use
}

/// The first `count` of `links` whose two ends are both in use.
pub open spec fn live_links(entries: Seq<Entry>, links: Seq<Link>, count: nat) -> Seq<Link>
    decreases count,
{
    if count == 0 {
        Seq::empty()
    } else {
        let before = live_links(entries, links, (count - 1) as nat);
        let link = links[count - 1];
        if live(entries, link.parent) && live(entries, link.child) {
            before.push(link)
        } else {
            before
        }
    }
}

/// The children that `links` give `parent`, in the order they came.
pub open spec fn children_of(links: Seq<Link>, parent: int) -> Seq<(u32, Seq<char>)>
    decreases links.len(),
{
    if links.len() == 0 {
        Seq::empty()
    } else {
        let before = children_of(links.drop_last(), parent);
        if links.last().parent == parent {
            before.push((links.last().child, links.last().name))
        } else {
            before
        }
    }
}

/// `table` as a tree: under each entry the links to it that are live at both
/// ends.
pub open spec fn indexed(table: table::TableModel) -> IndexModel {
    let links = live_links(table.entries, table.links, table.links.len());
    IndexModel {
        entries: table.entries,
        lists: Seq::new(table.entries.len(), |parent: int| children_of(links, parent)),
    }
}

/// Whether links by `left`'s parent may stand before those by `right`'s.
spec fn by_parent() -> spec_fn(Link, Link) -> bool {
    |left: Link, right: Link| left.parent <= right.parent
}

/// Links whose parent is below `parent`.
spec fn below(links: Seq<Link>, parent: int) -> nat
    decreases links.len(),
{
    if links.len() == 0 {
        0
    } else {
        below(links.drop_last(), parent) + if links.last().parent < parent {
            1nat
        } else {
            0nat
        }
    }
}

/// Links whose parent is `parent`.
spec fn equal(links: Seq<Link>, parent: int) -> nat
    decreases links.len(),
{
    if links.len() == 0 {
        0
    } else {
        equal(links.drop_last(), parent) + if links.last().parent == parent {
            1nat
        } else {
            0nat
        }
    }
}

proof fn lemma_below(links: Seq<Link>, parent: int)
    ensures
        below(links, parent + 1) == below(links, parent) + equal(links, parent),
        below(links, parent) <= links.len(),
        equal(links, parent) <= links.len(),
    decreases links.len(),
{
    if links.len() > 0 {
        lemma_below(links.drop_last(), parent);
    }
}

proof fn lemma_below_all(links: Seq<Link>, parent: int)
    requires
        forall|i: int| 0 <= i < links.len() ==> (#[trigger] links[i]).parent < parent,
    ensures
        below(links, parent) == links.len(),
    decreases links.len(),
{
    if links.len() > 0 {
        assert(links[links.len() - 1].parent < parent);
        assert forall|i: int| 0 <= i < links.drop_last().len() implies (
        #[trigger] links.drop_last()[i]).parent < parent by {
            assert(links[i].parent < parent);
        }
        lemma_below_all(links.drop_last(), parent);
    }
}

proof fn lemma_below_none(links: Seq<Link>)
    ensures
        below(links, 0) == 0,
    decreases links.len(),
{
    if links.len() > 0 {
        lemma_below_none(links.drop_last());
    }
}

proof fn lemma_inserted_children(sorted: Seq<Link>, link: Link, parent: int)
    ensures
        children_of(sort::inserted(sorted, link, by_parent()), parent) == children_of(
            sorted.push(link),
            parent,
        ),
    decreases sorted.len(),
{
    let after = sort::inserted(sorted, link, by_parent());
    if !(sorted.len() == 0 || by_parent()(sorted.last(), link)) {
        let shorter = sorted.drop_last();
        lemma_inserted_children(shorter, link, parent);
        assert(after.drop_last() =~= sort::inserted(shorter, link, by_parent()));
        assert(shorter.push(link).drop_last() =~= shorter);
        assert(sorted.push(link).drop_last() =~= sorted);
        assert(children_of(shorter.push(link), parent) == if link.parent == parent {
            children_of(shorter, parent).push((link.child, link.name))
        } else {
            children_of(shorter, parent)
        });
        assert(children_of(sorted, parent) == if sorted.last().parent == parent {
            children_of(shorter, parent).push((sorted.last().child, sorted.last().name))
        } else {
            children_of(shorter, parent)
        });
    }
}

proof fn lemma_ordered_children(links: Seq<Link>, parent: int)
    ensures
        children_of(sort::ordered(links, by_parent()), parent) == children_of(links, parent),
    decreases links.len(),
{
    if links.len() > 0 {
        let shorter = links.drop_last();
        let sorted = sort::ordered(shorter, by_parent());
        lemma_ordered_children(shorter, parent);
        lemma_inserted_children(sorted, links.last(), parent);
        assert(sorted.push(links.last()).drop_last() =~= sorted);
    }
}

/// The children that `links` give, whatever their parents.
spec fn all_children(links: Seq<Link>) -> Seq<(u32, Seq<char>)> {
    links.map_values(|link: Link| (link.child, link.name))
}

proof fn lemma_parents_apart(links: Seq<Link>, parent: int)
    requires
        sort::in_order(links, by_parent()),
    ensures
        children_of(links, parent) == all_children(links).subrange(
            below(links, parent) as int,
            below(links, parent + 1) as int,
        ),
        below(links, parent) <= below(links, parent + 1) <= links.len(),
    decreases links.len(),
{
    lemma_below(links, parent);
    lemma_below(links, parent + 1);
    let (low, high) = (below(links, parent) as int, below(links, parent + 1) as int);
    if links.len() > 0 {
        let shorter = links.drop_last();
        let last = links.last();
        assert(sort::in_order(shorter, by_parent())) by {
            assert forall|i: int, j: int| 0 <= i < j < shorter.len() implies by_parent()(
                #[trigger] shorter[i],
                #[trigger] shorter[j],
            ) by {
                assert(by_parent()(links[i], links[j]));
            }
        }
        lemma_parents_apart(shorter, parent);
        assert(all_children(shorter) =~= all_children(links).drop_last());
        if last.parent < parent {
            assert forall|i: int| 0 <= i < links.len() implies (#[trigger] links[i]).parent
                < parent by {
                if i < links.len() - 1 {
                    assert(by_parent()(links[i], links[links.len() - 1]));
                }
            }
            lemma_below_all(links, parent);
            assert forall|i: int| 0 <= i < links.len() implies (#[trigger] links[i]).parent < parent
                + 1 by {}
            lemma_below_all(links, parent + 1);
            assert(all_children(links).subrange(low, high) =~= Seq::empty());
            lemma_below_all(shorter, parent);
            lemma_below_all(shorter, parent + 1);
            assert(all_children(shorter).subrange(
                shorter.len() as int,
                shorter.len() as int,
            ) =~= Seq::empty());
        } else if last.parent == parent {
            assert forall|i: int| 0 <= i < shorter.len() implies (#[trigger] shorter[i]).parent
                < parent + 1 by {
                assert(by_parent()(links[i], links[links.len() - 1]));
            }
            lemma_below_all(shorter, parent + 1);
            assert(all_children(links).subrange(low, high) =~= all_children(shorter).subrange(
                low,
                high - 1,
            ).push((last.child, last.name)));
        } else {
            assert(all_children(links).subrange(low, high) =~= all_children(shorter).subrange(
                low,
                high,
            ));
        }
    } else {
        assert(all_children(links).subrange(low, high) =~= Seq::empty());
    }
}

impl Index {
    /// The offsets are those of lists that follow each other, one for each
    /// entry, and every child is an entry.
    #[verifier::type_invariant]
    spec fn well_formed(self) -> bool {
        &&& self.offsets@.len() == self.entries@.len() + 1
        &&& forall|i: int| 0 <= i <= self.entries@.len() ==> #[trigger] self.offsets@[i]
            <= self.children@.len()
        &&& forall|i: int|
            0 <= i < self.entries@.len() ==> #[trigger] self.offsets@[i] <= self.offsets@[i + 1]
        &&& forall|i: int|
            0 <= i < self.children@.len() ==> (#[trigger] self.children@[i]).0
                < self.entries@.len()
    }

    spec fn list(self, parent: int) -> Seq<(u32, Seq<char>)> {
        named(
            self.children@.subrange(
                self.offsets@[parent] as int,
                self.offsets@[parent + 1] as int,
            ),
        )
    }

    /// The children of entry `parent`, in order; none for a number that is no
    /// entry.
    pub(crate) fn children(&self, parent: u32) -> (children: &[(u32, Box<str>)])
        ensures
            named(children@) == (if parent < self@.entries.len() {
                self@.lists[parent as int]
            } else {
                Seq::empty()
            }),
            forall|i: int|
                0 <= i < children@.len() ==> (#[trigger] children@[i]).0 < self@.entries.len(),
    {
        proof {
            use_type_invariant(self);
        }
        let parent: usize = parent as usize;
        if parent < self.entries.len() {
            let (start, end): (usize, usize) = (self.offsets[parent], self.offsets[parent + 1]);
            let slice = vstd::slice::slice_subrange(self.children.as_slice(), start, end);
            assert(named(slice@) =~= self.list(parent as int));
            slice
        } else {
            let slice = vstd::slice::slice_subrange(self.children.as_slice(), 0, 0);
            assert(named(slice@) =~= Seq::empty());
            slice
        }
    }

    /// How many entries there are.
    pub fn len(&self) -> (count: usize)
        ensures
            count == self@.entries.len(),
    {
        self.entries.len()
    }

    /// Entry `number`.
    pub(crate) fn entry(&self, number: usize) -> (entry: Entry)
        requires
            number < self@.entries.len(),
        ensures
            entry == self@.entries[number as int],
    {
        self.entries[number]
    }
}

impl View for Index {
    type V = IndexModel;

    closed spec fn view(&self) -> IndexModel {
        IndexModel {
            entries: self.entries@,
            lists: Seq::new(self.entries@.len(), |parent: int| self.list(parent)),
        }
    }
}

/// `links` whose two ends are both in use.
fn retain_live(entries: &Vec<Entry>, links: Vec<(u32, u32, Box<str>)>) -> (kept: Vec<
    (u32, u32, Box<str>),
>)
    ensures
        table::links_of(kept@) == live_links(
            entries@,
            table::links_of(links@),
            links@.len(),
        ),
        forall|i: int|
            0 <= i < kept@.len() ==> live(entries@, (#[trigger] kept@[i]).0) && live(
                entries@,
                kept@[i].1,
            ),
{
    let ghost all = table::links_of(links@);
    let mut kept: Vec<(u32, u32, Box<str>)> = Vec::new();
    assert(table::links_of(kept@) =~= Seq::empty());
    for link in iter: links
        invariant
            iter.seq() == links@,
            all == table::links_of(links@),
            table::links_of(kept@) == live_links(entries@, all, iter.index() as nat),
            forall|i: int|
                0 <= i < kept@.len() ==> live(entries@, (#[trigger] kept@[i]).0) && live(
                    entries@,
                    kept@[i].1,
                ),
    {
        let ghost before = kept@;
        assert(all[iter.index() as int] == table::link_of(link));
        let (parent, child): (usize, usize) = (link.0 as usize, link.1 as usize);
        if parent < entries.len() && entries[parent].in_use && child < entries.len()
            && entries[child].in_use {
            let ghost shown = table::link_of(link);
            kept.push(link);
            assert(table::links_of(kept@) =~= table::links_of(before).push(shown));
        }
    }
    kept
}

/// `links` by their parents, those of one parent in the order they came.
fn sort_by_parent(links: Vec<(u32, u32, Box<str>)>) -> (sorted: Vec<(u32, u32, Box<str>)>)
    ensures
        table::links_of(sorted@) == sort::ordered(table::links_of(links@), by_parent()),
{
    let le = |left: &(u32, u32, Box<str>), right: &(u32, u32, Box<str>)| -> (first: bool)
        ensures
            first == (left.0 <= right.0),
        { left.0 <= right.0 };
    let ghost leq = |left: (u32, u32, Box<str>), right: (u32, u32, Box<str>)| left.0 <= right.0;
    proof {
        let view = |link: (u32, u32, Box<str>)| table::link_of(link);
        assert forall|left: (u32, u32, Box<str>), right: (u32, u32, Box<str>)| #[trigger]
            leq(left, right) == by_parent()(view(left), view(right)) by {}
        sort::lemma_ordered_maps(links@, leq, view, by_parent());
        assert(links@.map_values(view) =~= table::links_of(links@));
        assert(sort::ordered(links@, leq).map_values(view) =~= table::links_of(
            sort::ordered(links@, leq),
        ));
    }
    sort::sort(links, &le, Ghost(leq))
}

/// Where the children of each of `count` parents start among `links`, which
/// are in order, and where the last of them end.
fn offsets_of(links: &Vec<(u32, u32, Box<str>)>, count: usize) -> (offsets: Vec<usize>)
    requires
        count < usize::MAX,
        forall|i: int| 0 <= i < links@.len() ==> (#[trigger] links@[i]).0 < count,
    ensures
        offsets@.len() == count + 1,
        forall|parent: int|
            0 <= parent <= count ==> #[trigger] offsets@[parent] == below(
                table::links_of(links@),
                parent,
            ),
{
    let ghost all = table::links_of(links@);
    let mut offsets: Vec<usize> = Vec::new();
    offsets.resize(count + 1, 0);
    let mut next: usize = 0;
    assert(all.take(0) =~= Seq::empty());
    while next < links.len()
        invariant
            next <= links@.len(),
            count < usize::MAX,
            all == table::links_of(links@),
            forall|i: int| 0 <= i < links@.len() ==> (#[trigger] links@[i]).0 < count,
            offsets@.len() == count + 1,
            offsets@[0] == 0,
            forall|parent: int|
                1 <= parent <= count ==> #[trigger] offsets@[parent] == equal(
                    all.take(next as int),
                    parent - 1,
                ),
        decreases links@.len() - next,
    {
        let parent: usize = links[next].0 as usize;
        let ghost done = all.take(next as int);
        proof {
            assert(all.take(next + 1).drop_last() =~= done);
            assert(all.take(next + 1).last() == table::link_of(links@[next as int]));
            lemma_below(done, parent as int);
        }
        assert(offsets@[parent + 1] == equal(done, parent as int));
        let counted: usize = offsets[parent + 1] + 1;
        offsets.set(parent + 1, counted);
        next = next + 1;
    }
    assert(all.take(next as int) =~= all);
    proof {
        lemma_below_none(all);
    }
    let mut index: usize = 1;
    while index <= count
        invariant
            1 <= index <= count + 1,
            count < usize::MAX,
            all.len() <= usize::MAX,
            offsets@.len() == count + 1,
            forall|parent: int|
                0 <= parent < index ==> #[trigger] offsets@[parent] == below(all, parent),
            forall|parent: int|
                index <= parent <= count ==> #[trigger] offsets@[parent] == equal(
                    all,
                    parent - 1,
                ),
        decreases count + 1 - index,
    {
        proof {
            lemma_below(all, index - 1);
            lemma_below(all, index as int);
            assert(offsets@[index - 1] == below(all, index - 1));
        }
        let start: usize = offsets[index] + offsets[index - 1];
        offsets.set(index, start);
        index = index + 1;
    }
    offsets
}

impl Table {
    /// Index the links by parent, ready to build trees from.
    pub fn index(self) -> (index: Index)
        ensures
            index@ == indexed(self@),
    {
        let ghost model = self@;
        let (entries, links) = self.into_parts();
        let kept = retain_live(&entries, links);
        let ghost alive = table::links_of(kept@);
        let links = sort_by_parent(kept);
        let ghost sorted = table::links_of(links@);
        proof {
            assert(alive == live_links(model.entries, model.links, model.links.len()));
            sort::lemma_ordered(alive, by_parent());
            assert forall|i: int| 0 <= i < links@.len() implies (#[trigger] links@[i]).0
                < entries@.len() && links@[i].1 < entries@.len() by {
                broadcast use vstd::seq_lib::group_to_multiset_ensures;

                assert(sorted[i].parent == links@[i].0 && sorted[i].child == links@[i].1);
                assert(sorted.contains(sorted[i]));
                assert(sorted.to_multiset().count(sorted[i]) > 0);
                assert(alive.contains(sorted[i]));
                let k = choose|k: int| 0 <= k < alive.len() && alive[k] == sorted[i];
                assert(alive[k].parent == kept@[k].0 && alive[k].child == kept@[k].1);
            }
        }
        let offsets = offsets_of(&links, entries.len());
        let mut children: Vec<(u32, Box<str>)> = Vec::with_capacity(links.len());
        assert(named(children@) =~= all_children(sorted).take(0));
        for link in iter: links
            invariant
                iter.seq() == links@,
                sorted == table::links_of(links@),
                named(children@) == all_children(sorted).take(iter.index() as int),
                forall|i: int|
                    0 <= i < links@.len() ==> (#[trigger] links@[i]).1 < entries@.len(),
                forall|i: int|
                    0 <= i < children@.len() ==> (#[trigger] children@[i]).0 < entries@.len(),
        {
            let ghost before = children@;
            let ghost done = iter.index() as int;
            let (_, child, name) = link;
            assert(all_children(sorted)[done] == (child, name@));
            children.push((child, name));
            assert(named(children@) =~= named(before).push((child, name@)));
            assert(all_children(sorted).take(done + 1) =~= all_children(sorted).take(done).push(
                (child, name@),
            ));
        }
        assert(all_children(sorted).take(sorted.len() as int) =~= all_children(sorted));
        proof {
            assert(named(children@).len() == children@.len());
            assert forall|parent: int| 0 <= parent <= entries@.len() implies
                #[trigger] offsets@[parent] <= children@.len() by {
                lemma_below(sorted, parent);
            }
            assert forall|parent: int| 0 <= parent < entries@.len() implies
                #[trigger] offsets@[parent] <= offsets@[parent + 1] by {
                lemma_below(sorted, parent);
                assert(offsets@[parent + 1] == below(sorted, parent + 1));
            }
        }
        let index = Index { entries, offsets, children };
        proof {
            assert forall|parent: int| 0 <= parent < entries@.len() implies index@.lists[parent]
                == #[trigger] indexed(model).lists[parent] by {
                lemma_parents_apart(sorted, parent);
                lemma_ordered_children(alive, parent);
                assert(offsets@[parent] == below(sorted, parent));
                assert(offsets@[parent + 1] == below(sorted, parent + 1));
                assert(index.list(parent) =~= named(children@).subrange(
                    below(sorted, parent) as int,
                    below(sorted, parent + 1) as int,
                ));
            }
            assert(index@.lists =~= indexed(model).lists);
        }
        index
    }
}

/// The first of `children` whose name `takes` accepts.
pub open spec fn first_child(
    children: Seq<(u32, Seq<char>)>,
    takes: spec_fn(Seq<char>) -> bool,
) -> Option<u32>
    decreases children.len(),
{
    if children.len() == 0 {
        None
    } else if takes(children[0].1) {
        Some(children[0].0)
    } else {
        first_child(children.skip(1), takes)
    }
}

/// Names that are spelled just as `name`.
pub open spec fn spelled(name: Seq<char>) -> spec_fn(Seq<char>) -> bool {
    |text: Seq<char>| text == name
}

/// Names that are `name`, whatever their case.
pub open spec fn alike(name: Seq<char>) -> spec_fn(Seq<char>) -> bool {
    |text: Seq<char>| text::in_lower_case(text) == text::in_lower_case(name)
}

/// The child called `name`: spelled just so, or else in other cases.
pub open spec fn child_called(children: Seq<(u32, Seq<char>)>, name: Seq<char>) -> Option<u32> {
    match first_child(children, spelled(name)) {
        Some(child) => Some(child),
        None => first_child(children, alike(name)),
    }
}

/// The children of entry `parent` in `index`.
pub open spec fn listed(index: IndexModel, parent: u32) -> Seq<(u32, Seq<char>)> {
    if parent < index.entries.len() {
        index.lists[parent as int]
    } else {
        Seq::empty()
    }
}

/// The record that the first `count` of `components` lead to from the root.
pub open spec fn resolved(index: IndexModel, components: Seq<Seq<char>>, count: nat) -> Option<u32>
    decreases count,
{
    if count == 0 {
        Some(ROOT_RECORD)
    } else {
        match resolved(index, components, (count - 1) as nat) {
            Some(parent) => child_called(listed(index, parent), components[count - 1]),
            None => None,
        }
    }
}

/// The first of `names` that is `wanted`.
pub fn position(names: &Vec<String>, wanted: &str) -> (found: Option<usize>)
    ensures
        match found {
            Some(index) => index < names@.len() && names@[index as int]@ == wanted@ && forall|
                earlier: int,
            |
                0 <= earlier < index ==> (#[trigger] names@[earlier])@ != wanted@,
            None => forall|index: int|
                0 <= index < names@.len() ==> (#[trigger] names@[index])@ != wanted@,
        },
{
    let mut next: usize = 0;
    while next < names.len()
        invariant
            next <= names@.len(),
            forall|index: int| 0 <= index < next ==> (#[trigger] names@[index])@ != wanted@,
        decreases names@.len() - next,
    {
        if same(names[next].as_str(), wanted) {
            return Some(next);
        }
        next = next + 1;
    }
    None
}

proof fn lemma_first_child(
    children: Seq<(u32, Seq<char>)>,
    takes: spec_fn(Seq<char>) -> bool,
    index: int,
)
    requires
        0 <= index <= children.len(),
        forall|i: int| 0 <= i < index ==> !takes((#[trigger] children[i]).1),
        index < children.len() ==> takes(children[index].1),
    ensures
        first_child(children, takes) == (if index < children.len() {
            Some(children[index].0)
        } else {
            None
        }),
    decreases children.len(),
{
    if children.len() > 0 {
        if index > 0 {
            assert(!takes(children[0].1));
            assert forall|i: int| 0 <= i < index - 1 implies !takes(
                (#[trigger] children.skip(1)[i]).1,
            ) by {
                assert(!takes(children[i + 1].1));
            }
            lemma_first_child(children.skip(1), takes, index - 1);
        }
    }
}

/// The child called `name`: spelled just so, or else in other cases.
fn find_child(children: &[(u32, Box<str>)], name: &str) -> (found: Option<u32>)
    ensures
        found == child_called(named(children@), name@),
{
    let ghost all = named(children@);
    let ghost exact = spelled(name@);
    let mut next: usize = 0;
    while next < children.len()
        invariant
            next <= children@.len(),
            all == named(children@),
            exact == spelled(name@),
            forall|i: int| 0 <= i < next ==> !exact((#[trigger] all[i]).1),
        decreases children@.len() - next,
    {
        assert(all[next as int].1 == children@[next as int].1@);
        if same(&children[next].1, name) {
            proof {
                lemma_first_child(all, exact, next as int);
            }
            return Some(children[next].0);
        }
        next = next + 1;
    }
    proof {
        lemma_first_child(all, exact, all.len() as int);
    }
    let wanted = lower_case(name);
    let mut lower: Vec<String> = Vec::with_capacity(children.len());
    next = 0;
    while next < children.len()
        invariant
            next <= children@.len(),
            lower@.len() == next,
            all == named(children@),
            forall|i: int| 0 <= i < next ==> (#[trigger] lower@[i])@ == text::in_lower_case(all[i].1),
        decreases children@.len() - next,
    {
        assert(all[next as int].1 == children@[next as int].1@);
        lower.push(lower_case(&children[next].1));
        next = next + 1;
    }
    let ghost folded = alike(name@);
    match position(&lower, wanted.as_str()) {
        Some(index) => {
            proof {
                assert forall|i: int| 0 <= i < index implies !folded((#[trigger] all[i]).1) by {
                    assert(lower@[i]@ != wanted@);
                }
                assert(lower@[index as int]@ == wanted@);
                lemma_first_child(all, folded, index as int);
            }
            Some(children[index].0)
        },
        None => {
            proof {
                assert forall|i: int| 0 <= i < all.len() implies !folded((#[trigger] all[i]).1) by {
                    assert(lower@[i]@ != wanted@);
                }
                lemma_first_child(all, folded, all.len() as int);
            }
            None
        },
    }
}

proof fn lemma_unresolved(index: IndexModel, components: Seq<Seq<char>>, few: nat, count: nat)
    requires
        few <= count,
        resolved(index, components, few) is None,
    ensures
        resolved(index, components, count) is None,
    decreases count,
{
    if few < count {
        lemma_unresolved(index, components, few, (count - 1) as nat);
    }
}

impl Index {
    /// The record of the directory at `components` below the root, matched
    /// without regard to case, as Windows resolves a path.
    pub fn resolve(&self, components: &[&str]) -> (found: Option<u32>)
        ensures
            found == resolved(
                self@,
                components@.map_values(|component: &str| component@),
                components@.len(),
            ),
    {
        let ghost wanted = components@.map_values(|component: &str| component@);
        let mut current: u32 = ROOT_RECORD;
        let mut done: usize = 0;
        while done < components.len()
            invariant
                done <= components@.len(),
                wanted == components@.map_values(|component: &str| component@),
                resolved(self@, wanted, done as nat) == Some(current),
            decreases components@.len() - done,
        {
            let component: &str = components[done];
            assert(wanted[done as int] == component@);
            match find_child(self.children(current), component) {
                Some(child) => current = child,
                None => {
                    proof {
                        lemma_unresolved(self@, wanted, (done + 1) as nat, wanted.len());
                    }
                    return None;
                },
            }
            done = done + 1;
        }
        Some(current)
    }
}

proof fn lemma_children_of(links: Seq<Link>, parent: int, child: (u32, Seq<char>))
    ensures
        children_of(links, parent).contains(child) <==> exists|i: int|
            0 <= i < links.len() && (#[trigger] links[i]).parent == parent && (
                links[i].child,
                links[i].name,
            ) == child,
    decreases links.len(),
{
    if links.len() > 0 {
        let shorter = links.drop_last();
        let (before, after) = (children_of(shorter, parent), children_of(links, parent));
        let last = links.last();
        lemma_children_of(shorter, parent, child);
        if before.contains(child) {
            let i = choose|i: int|
                0 <= i < shorter.len() && (#[trigger] shorter[i]).parent == parent && (
                    shorter[i].child,
                    shorter[i].name,
                ) == child;
            assert(links[i] == shorter[i]);
            let k = choose|k: int| 0 <= k < before.len() && before[k] == child;
            assert(after[k] == child);
        }
        if last.parent == parent && (last.child, last.name) == child {
            assert(links[links.len() - 1] == last);
            assert(after[after.len() - 1] == child);
        }
        if after.contains(child) && !before.contains(child) {
            let k = choose|k: int| 0 <= k < after.len() && after[k] == child;
            assert(k < before.len() ==> before[k] == child);
            assert(links[links.len() - 1] == last);
        }
        if exists|i: int|
            0 <= i < links.len() && (#[trigger] links[i]).parent == parent && (
                links[i].child,
                links[i].name,
            ) == child {
            let i = choose|i: int|
                0 <= i < links.len() && (#[trigger] links[i]).parent == parent && (
                    links[i].child,
                    links[i].name,
                ) == child;
            if i < shorter.len() {
                assert(shorter[i] == links[i]);
            }
        }
    }
}

proof fn lemma_live_links(entries: Seq<Entry>, links: Seq<Link>, count: nat, link: Link)
    requires
        count <= links.len(),
    ensures
        live_links(entries, links, count).contains(link) <==> live(entries, link.parent) && live(
            entries,
            link.child,
        ) && exists|i: int| 0 <= i < count && #[trigger] links[i] == link,
    decreases count,
{
    if count > 0 {
        let before = live_links(entries, links, (count - 1) as nat);
        let after = live_links(entries, links, count);
        let last = links[count - 1];
        lemma_live_links(entries, links, (count - 1) as nat, link);
        if before.contains(link) {
            let k = choose|k: int| 0 <= k < before.len() && before[k] == link;
            assert(after[k] == link);
        }
        if last == link && live(entries, link.parent) && live(entries, link.child) {
            assert(after[after.len() - 1] == link);
        }
        if after.contains(link) && !before.contains(link) {
            let k = choose|k: int| 0 <= k < after.len() && after[k] == link;
            assert(k < before.len() ==> before[k] == link);
        }
    }
}

/// A name is listed under a directory if and only if a record gave it that
/// name there, and both are in use.
pub proof fn lemma_listed(
    table: table::TableModel,
    parent: u32,
    child: u32,
    name: Seq<char>,
)
    requires
        parent < table.entries.len(),
    ensures
        indexed(table).lists[parent as int].contains((child, name)) <==> live(
            table.entries,
            parent,
        ) && live(table.entries, child) && exists|i: int|
            0 <= i < table.links.len() && #[trigger] table.links[i] == (Link {
                parent,
                child,
                name,
            }),
{
    let links = live_links(table.entries, table.links, table.links.len());
    let link = Link { parent, child, name };
    lemma_children_of(links, parent as int, (child, name));
    lemma_live_links(table.entries, table.links, table.links.len(), link);
    if links.contains(link) {
        let k = choose|k: int| 0 <= k < links.len() && links[k] == link;
        assert(links[k].parent == parent);
    }
    if indexed(table).lists[parent as int].contains((child, name)) {
        let i = choose|i: int|
            0 <= i < links.len() && (#[trigger] links[i]).parent == parent && (
                links[i].child,
                links[i].name,
            ) == (child, name);
        assert(links[i] == link);
    }
}

proof fn lemma_first_child_listed(
    children: Seq<(u32, Seq<char>)>,
    takes: spec_fn(Seq<char>) -> bool,
)
    ensures
        first_child(children, takes) matches Some(child) ==> exists|i: int|
            0 <= i < children.len() && (#[trigger] children[i]).0 == child && takes(children[i].1),
    decreases children.len(),
{
    if children.len() > 0 {
        let rest = children.skip(1);
        lemma_first_child_listed(rest, takes);
        if takes(children[0].1) {
            assert(children[0].0 == children[0].0);
        } else if let Some(child) = first_child(rest, takes) {
            let i = choose|i: int|
                0 <= i < rest.len() && (#[trigger] rest[i]).0 == child && takes(rest[i].1);
            assert(children[i + 1] == rest[i]);
        }
    }
}

/// What a path leads to below the root of a table is an entry in use: so a
/// tree can be built there.
pub proof fn lemma_resolved_in_use(
    table: table::TableModel,
    components: Seq<Seq<char>>,
    count: nat,
)
    requires
        0 < count <= components.len(),
    ensures
        resolved(indexed(table), components, count) matches Some(found) ==> live(
            table.entries,
            found,
        ),
{
    let index = indexed(table);
    if let Some(parent) = resolved(index, components, (count - 1) as nat) {
        let children = listed(index, parent);
        let name = components[count - 1];
        lemma_first_child_listed(children, spelled(name));
        lemma_first_child_listed(children, alike(name));
        if let Some(found) = child_called(children, name) {
            let i = choose|i: int| 0 <= i < children.len() && (#[trigger] children[i]).0 == found;
            assert(children.contains(children[i]));
            lemma_listed(table, parent, found, children[i].1);
        }
    }
}

/// The case of a name does not matter where no child is spelled just so.
pub proof fn lemma_case_does_not_matter(
    children: Seq<(u32, Seq<char>)>,
    left: Seq<char>,
    right: Seq<char>,
)
    requires
        text::in_lower_case(left) == text::in_lower_case(right),
        forall|i: int|
            0 <= i < children.len() ==> (#[trigger] children[i]).1 != left && children[i].1
                != right,
    ensures
        child_called(children, left) == child_called(children, right),
{
    lemma_first_child_listed(children, spelled(left));
    lemma_first_child_listed(children, spelled(right));
    lemma_first_child_same(children, alike(left), alike(right));
}

proof fn lemma_first_child_same(
    children: Seq<(u32, Seq<char>)>,
    left: spec_fn(Seq<char>) -> bool,
    right: spec_fn(Seq<char>) -> bool,
)
    requires
        forall|text: Seq<char>| #[trigger] left(text) == right(text),
    ensures
        first_child(children, left) == first_child(children, right),
    decreases children.len(),
{
    if children.len() > 0 {
        lemma_first_child_same(children.skip(1), left, right);
    }
}

} // verus!
