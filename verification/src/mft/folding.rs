//! What records come to once they are folded into a table, and what the table
//! lists.

use vstd::prelude::*;

use crate::mft::index;
use crate::mft::index::IndexModel;
use crate::mft::record::RecordModel;
use crate::mft::table;
use crate::mft::table::{Entry, Link, TableModel};
use crate::text;

verus! {

/// A base record says what its entry is, whichever comes first, it or an
/// extension of it: a directory or not, and when it was last written, which is
/// 0 where it does not say.
pub proof fn lemma_base_decides(entry: Entry, base: RecordModel, extension: RecordModel)
    requires
        base.base is None,
        extension.base is Some,
    ensures
        ({
            let first = table::folded(table::folded(entry, base), extension);
            let last = table::folded(table::folded(entry, extension), base);
            &&& first.in_use && last.in_use
            &&& first.is_dir == base.is_dir && last.is_dir == base.is_dir
            &&& first.modified == last.modified
            &&& base.modified matches Some(modified) ==> first.modified == modified
            &&& base.modified is None ==> first.modified == 0
        }),
{
}

/// A reparse tag is what some record says, and the cluster to read it from
/// too: one that says nothing changes neither.
pub proof fn lemma_tags_kept(entry: Entry, record: RecordModel)
    ensures
        ({
            let after = table::folded(entry, record);
            &&& record.reparse_tag is Some ==> after.reparse_tag == record.reparse_tag
            &&& record.reparse_tag is None ==> after.reparse_tag == entry.reparse_tag
            &&& record.reparse_cluster is Some ==> after.reparse_cluster == record.reparse_cluster
            &&& record.reparse_cluster is None ==> after.reparse_cluster == entry.reparse_cluster
        }),
{
}

/// Each name counts as a link, up to 65,535 of them; and sizes add up.
pub proof fn lemma_links_counted(entry: Entry, record: RecordModel)
    requires
        entry.allocated + record.allocated <= u64::MAX,
        entry.apparent + record.apparent <= u64::MAX,
    ensures
        ({
            let after = table::folded(entry, record);
            let names = entry.links + record.names.len();
            &&& after.links == (if names <= 65_535 { names } else { 65_535 })
            &&& after.allocated == entry.allocated + record.allocated
            &&& after.apparent == entry.apparent + record.apparent
        }),
{
}

/// Nothing is known of an entry before its record is read: it is not in use,
/// and holds nothing.
pub proof fn lemma_unused()
    ensures
        !table::unused().in_use,
        table::unused().allocated == 0,
        table::unused().apparent == 0,
        table::unused().links == 0,
        table::unused().reparse_tag is None,
        table::unused().reparse_cluster is None,
{
}

/// The links that `names` give `owner`: one for each, but for those in itself.
pub open spec fn links_by(owner: u32, names: Seq<(u32, Seq<char>)>) -> Seq<Link> {
    names.filter(|name: (u32, Seq<char>)| name.0 != owner).map_values(
        |name: (u32, Seq<char>)| Link { parent: name.0, child: owner, name: name.1 },
    )
}

proof fn lemma_links_by(owner: u32, names: Seq<(u32, Seq<char>)>, count: nat)
    requires
        count <= names.len(),
    ensures
        table::links_to(owner, names, count) == links_by(owner, names.take(count as int)),
    decreases count,
{
    reveal(Seq::filter);
    if count > 0 {
        let few = (count - 1) as nat;
        lemma_links_by(owner, names, few);
        let some = names.take(count as int);
        assert(some.drop_last() =~= names.take(few as int));
        assert(some.last() == names[few as int]);
        assert(table::links_to(owner, names, count) =~= links_by(owner, some));
    } else {
        assert(names.take(0) =~= Seq::empty());
        assert(links_by(owner, names.take(0)) =~= Seq::empty());
    }
}

/// A record changes the entry it is of, its base's if it extends one, and
/// nothing else; and adds a link for each of its names, but for a directory's
/// name in itself, which the root has.
pub proof fn lemma_record_added(table: TableModel, number: u32, record: RecordModel)
    requires
        table::addable(table, number, record),
    ensures
        ({
            let after = table::with_record(table, number, record);
            let owner = match record.base {
                Some(base) => base,
                None => number,
            };
            &&& owner < after.entries.len()
            &&& after.entries.len() >= table.entries.len()
            &&& after.entries[owner as int] == table::folded(
                if owner < table.entries.len() {
                    table.entries[owner as int]
                } else {
                    table::unused()
                },
                record,
            )
            &&& forall|other: int|
                0 <= other < after.entries.len() && other != owner ==> (
                #[trigger] after.entries[other]) == (if other < table.entries.len() {
                    table.entries[other]
                } else {
                    table::unused()
                })
            &&& after.links == table.links + links_by(owner, record.names)
        }),
{
    let owner = table::owner_of(number, record);
    lemma_links_by(owner, record.names, record.names.len());
    assert(record.names.take(record.names.len() as int) =~= record.names);
}

proof fn lemma_unresolved_in(entries: Seq<Entry>, count: nat, number: u32, cluster: u64)
    requires
        count <= entries.len(),
    ensures
        table::unresolved(entries, count).contains((number, cluster)) <==> {
            &&& number < count
            &&& entries[number as int].in_use
            &&& entries[number as int].reparse_tag is None
            &&& entries[number as int].reparse_cluster == Some(cluster)
        },
    decreases count,
{
    if count > 0 {
        let few = (count - 1) as nat;
        lemma_unresolved_in(entries, few, number, cluster);
        let before = table::unresolved(entries, few);
        let after = table::unresolved(entries, count);
        let wanted = (number, cluster);
        if before.contains(wanted) {
            let i = choose|i: int| 0 <= i < before.len() && before[i] == wanted;
            assert(after[i] == wanted);
        }
        if after.contains(wanted) && !before.contains(wanted) {
            let i = choose|i: int| 0 <= i < after.len() && after[i] == wanted;
            assert(i == before.len());
        }
        if number == few && entries[few as int].in_use && entries[few as int].reparse_tag is None
            && entries[few as int].reparse_cluster == Some(cluster) {
            assert(after.last() == wanted);
            assert(after[after.len() - 1] == wanted);
        }
    }
}

/// The tags that are still to be read are those of entries in use that have
/// none but say which cluster it is in, and no others.
pub proof fn lemma_tags_to_read(entries: Seq<Entry>, number: u32, cluster: u64)
    ensures
        table::unresolved(entries, entries.len()).contains((number, cluster)) <==> {
            &&& number < entries.len()
            &&& entries[number as int].in_use
            &&& entries[number as int].reparse_tag is None
            &&& entries[number as int].reparse_cluster == Some(cluster)
        },
{
    lemma_unresolved_in(entries, entries.len(), number, cluster);
}

/// Whether `number` is an entry that is in use.
pub open spec fn in_use(entries: Seq<Entry>, number: u32) -> bool {
    number < entries.len() && entries[number as int].in_use
}

proof fn lemma_live_kept(entries: Seq<Entry>, links: Seq<Link>, count: nat)
    requires
        count <= links.len(),
    ensures
        index::live_links(entries, links, count) == links.take(count as int).filter(
            |link: Link| in_use(entries, link.parent) && in_use(entries, link.child),
        ),
    decreases count,
{
    reveal(Seq::filter);
    if count > 0 {
        let few = (count - 1) as nat;
        lemma_live_kept(entries, links, few);
        let some = links.take(count as int);
        assert(some.drop_last() =~= links.take(few as int));
        assert(some.last() == links[few as int]);
    } else {
        assert(links.take(0) =~= Seq::empty());
    }
}

proof fn lemma_children_kept(links: Seq<Link>, parent: int)
    ensures
        index::children_of(links, parent) == links.filter(
            |link: Link| link.parent == parent,
        ).map_values(|link: Link| (link.child, link.name)),
    decreases links.len(),
{
    reveal(Seq::filter);
    let kept = links.filter(|link: Link| link.parent == parent);
    let shown = kept.map_values(|link: Link| (link.child, link.name));
    if links.len() > 0 {
        lemma_children_kept(links.drop_last(), parent);
    }
    assert(index::children_of(links, parent) =~= shown);
}

/// A directory lists, in the order they came, each link into it of which both
/// ends are in use, and nothing else.
pub proof fn lemma_directory_lists(table: TableModel, parent: int)
    requires
        0 <= parent < table.entries.len(),
    ensures
        index::indexed(table).entries == table.entries,
        index::indexed(table).lists[parent] == table.links.filter(
            |link: Link| in_use(table.entries, link.parent) && in_use(table.entries, link.child),
        ).filter(|link: Link| link.parent == parent).map_values(
            |link: Link| (link.child, link.name),
        ),
{
    lemma_live_kept(table.entries, table.links, table.links.len());
    assert(table.links.take(table.links.len() as int) =~= table.links);
    lemma_children_kept(
        index::live_links(table.entries, table.links, table.links.len()),
        parent,
    );
}

/// Whether `at` is the first of `children` that `takes` accepts.
pub open spec fn is_first(
    children: Seq<(u32, Seq<char>)>,
    takes: spec_fn(Seq<char>) -> bool,
    at: int,
) -> bool {
    &&& 0 <= at < children.len()
    &&& takes(children[at].1)
    &&& forall|earlier: int| 0 <= earlier < at ==> !takes((#[trigger] children[earlier]).1)
}

proof fn lemma_first(children: Seq<(u32, Seq<char>)>, takes: spec_fn(Seq<char>) -> bool)
    ensures
        match index::first_child(children, takes) {
            Some(child) => exists|at: int| #[trigger]
                is_first(children, takes, at) && children[at].0 == child,
            None => forall|at: int| 0 <= at < children.len() ==> !takes((#[trigger] children[at]).1),
        },
    decreases children.len(),
{
    if children.len() > 0 {
        if takes(children[0].1) {
            assert(is_first(children, takes, 0));
        } else {
            let rest = children.skip(1);
            lemma_first(rest, takes);
            match index::first_child(rest, takes) {
                Some(child) => {
                    let at = choose|at: int| #[trigger]
                        is_first(rest, takes, at) && rest[at].0 == child;
                    assert(children[at + 1] == rest[at]);
                    assert forall|earlier: int| 0 <= earlier < at + 1 implies !takes(
                        (#[trigger] children[earlier]).1,
                    ) by {
                        if earlier > 0 {
                            assert(rest[earlier - 1] == children[earlier]);
                        }
                    }
                    assert(is_first(children, takes, at + 1));
                },
                None => {
                    assert forall|at: int| 0 <= at < children.len() implies !takes(
                        (#[trigger] children[at]).1,
                    ) by {
                        if at > 0 {
                            assert(rest[at - 1] == children[at]);
                        }
                    }
                },
            }
        }
    }
}

/// The child called a name is the first spelled just so; without one, the
/// first that differs only in case; without that, none.
pub proof fn lemma_called(children: Seq<(u32, Seq<char>)>, name: Seq<char>)
    ensures
        ({
            let exact = |other: Seq<char>| other == name;
            let alike = |other: Seq<char>| text::in_lower_case(other) == text::in_lower_case(name);
            match index::child_called(children, name) {
                Some(child) => exists|at: int|
                    0 <= at < children.len() && (#[trigger] children[at]).0 == child && (is_first(
                        children,
                        exact,
                        at,
                    ) || is_first(children, alike, at) && forall|other: int|
                        0 <= other < children.len() ==> (#[trigger] children[other]).1 != name),
                None => forall|at: int|
                    0 <= at < children.len() ==> text::in_lower_case((#[trigger] children[at]).1)
                        != text::in_lower_case(name),
            }
        }),
{
    let exact = |other: Seq<char>| other == name;
    let alike = |other: Seq<char>| text::in_lower_case(other) == text::in_lower_case(name);
    lemma_first(children, index::spelled(name));
    lemma_first(children, index::alike(name));
    match index::first_child(children, index::spelled(name)) {
        Some(child) => {
            let at = choose|at: int| #[trigger]
                is_first(children, index::spelled(name), at) && children[at].0 == child;
            assert forall|earlier: int| 0 <= earlier < at implies !exact(
                (#[trigger] children[earlier]).1,
            ) by {
                assert(!index::spelled(name)(children[earlier].1));
            }
            assert(is_first(children, exact, at));
        },
        None => {
            assert forall|other: int| 0 <= other < children.len() implies (
            #[trigger] children[other]).1 != name by {
                assert(!index::spelled(name)(children[other].1));
            }
            match index::first_child(children, index::alike(name)) {
                Some(child) => {
                    let at = choose|at: int| #[trigger]
                        is_first(children, index::alike(name), at) && children[at].0 == child;
                    assert forall|earlier: int| 0 <= earlier < at implies !alike(
                        (#[trigger] children[earlier]).1,
                    ) by {
                        assert(!index::alike(name)(children[earlier].1));
                    }
                    assert(is_first(children, alike, at));
                    assert(children[at].0 == child);
                },
                None => {
                    assert forall|at: int| 0 <= at < children.len() implies text::in_lower_case(
                        (#[trigger] children[at]).1,
                    ) != text::in_lower_case(name) by {
                        assert(!index::alike(name)(children[at].1));
                    }
                },
            }
        },
    }
}

/// A path leads from the root, which is record 5, one name at a time: to the
/// child called that in what the names before it lead to, or nowhere.
pub proof fn lemma_path_step(index: IndexModel, components: Seq<Seq<char>>, count: nat)
    ensures
        index::resolved(index, components, 0) == Some(5u32),
        match index::resolved(index, components, count) {
            Some(parent) => index::resolved(index, components, count + 1) == (if parent
                < index.entries.len() {
                index::child_called(index.lists[parent as int], components[count as int])
            } else {
                None
            }),
            None => index::resolved(index, components, count + 1) is None,
        },
{
}

} // verus!
