//! The whole table, its extension records folded into their bases.

use vstd::prelude::*;

use crate::mft::record::{Record, RecordModel};

verus! {

/// Reparse tags with this bit stand for another name — symlinks, junctions,
/// volumes mounted in a folder — and are links, not files.
pub const NAME_SURROGATE: u32 = 0x2000_0000;

/// A file or directory once its extension records are folded in.
#[derive(Clone, Copy, Debug, PartialEq, Eq, Structural)]
pub struct Entry {
    pub in_use: bool,
    pub is_dir: bool,
    /// Links: several means hardlinks, charged once.
    pub links: u16,
    pub modified: i64,
    pub allocated: u64,
    pub apparent: u64,
    pub reparse_tag: Option<u32>,
    pub reparse_cluster: Option<u64>,
}

impl Default for Entry {
    fn default() -> (entry: Self)
        ensures
            entry == unused(),
    {
        Entry {
            in_use: false,
            is_dir: false,
            links: 0,
            modified: 0,
            allocated: 0,
            apparent: 0,
            reparse_tag: None,
            reparse_cluster: None,
        }
    }
}

impl Entry {
    /// Whether this stands for another name.
    pub open spec fn links_elsewhere(self) -> bool {
        self.reparse_tag matches Some(tag) && tag & NAME_SURROGATE != 0
    }

    pub fn is_link(&self) -> (link: bool)
        ensures
            link == self.links_elsewhere(),
    {
        match self.reparse_tag {
            Some(tag) => tag & NAME_SURROGATE != 0,
            None => false,
        }
    }
}

/// An entry of which nothing is known.
pub open spec fn unused() -> Entry {
    Entry {
        in_use: false,
        is_dir: false,
        links: 0,
        modified: 0,
        allocated: 0,
        apparent: 0,
        reparse_tag: None,
        reparse_cluster: None,
    }
}

/// A name: the directory it is in, what it names, and its text.
pub struct Link {
    pub parent: u32,
    pub child: u32,
    pub name: Seq<char>,
}

/// The whole table, merged: every entry by record number, and every name
/// under its parent.
#[derive(Debug)]
pub struct Table {
    pub(crate) entries: Vec<Entry>,
    /// `(parent, child, name)` for every link, gathered as records land.
    pub(crate) links: Vec<(u32, u32, Box<str>)>,
}

/// What a [`Table`] holds.
#[verifier::ext_equal]
pub struct TableModel {
    pub entries: Seq<Entry>,
    pub links: Seq<Link>,
}

/// A link, its name as text.
pub open spec fn link_of(link: (u32, u32, Box<str>)) -> Link {
    Link { parent: link.0, child: link.1, name: link.2@ }
}

/// Links, their names as text.
pub open spec fn links_of(links: Seq<(u32, u32, Box<str>)>) -> Seq<Link> {
    links.map_values(|link: (u32, u32, Box<str>)| link_of(link))
}

impl View for Table {
    type V = TableModel;

    closed spec fn view(&self) -> TableModel {
        TableModel { entries: self.entries@, links: links_of(self.links@) }
    }
}

/// The entry that `record`, numbered `number`, belongs to.
pub open spec fn owner_of(number: u32, record: RecordModel) -> u32 {
    match record.base {
        Some(base) => base,
        None => number,
    }
}

/// `entries`, and unused ones up to `count`.
pub open spec fn grown(entries: Seq<Entry>, count: int) -> Seq<Entry> {
    if entries.len() >= count {
        entries
    } else {
        entries + Seq::new((count - entries.len()) as nat, |i: int| unused())
    }
}

/// `links` and `more`, up to as many as are counted.
pub open spec fn counted_links(links: u16, more: nat) -> u16 {
    if links + more <= u16::MAX {
        (links + more) as u16
    } else {
        u16::MAX
    }
}

/// `entry` with what `record` says of it: a base record says what it is, and
/// every record adds sizes and names.
pub open spec fn folded(entry: Entry, record: RecordModel) -> Entry {
    let is_base = record.base is None;
    Entry {
        in_use: entry.in_use || is_base,
        is_dir: if is_base {
            record.is_dir
        } else {
            entry.is_dir
        },
        links: counted_links(entry.links, record.names.len()),
        modified: if !is_base {
            entry.modified
        } else if record.modified is Some {
            record.modified->0
        } else {
            0
        },
        allocated: (entry.allocated + record.allocated) as u64,
        apparent: (entry.apparent + record.apparent) as u64,
        reparse_tag: if record.reparse_tag is Some {
            record.reparse_tag
        } else {
            entry.reparse_tag
        },
        reparse_cluster: if record.reparse_cluster is Some {
            record.reparse_cluster
        } else {
            entry.reparse_cluster
        },
    }
}

/// The links of `owner` by the first `count` of `names`. The root lists
/// itself as its own parent, which is no link.
pub open spec fn links_to(owner: u32, names: Seq<(u32, Seq<char>)>, count: nat) -> Seq<Link>
    decreases count,
{
    if count == 0 {
        Seq::empty()
    } else {
        let before = links_to(owner, names, (count - 1) as nat);
        let (parent, name) = names[count - 1];
        if parent != owner {
            before.push(Link { parent, child: owner, name })
        } else {
            before
        }
    }
}

/// `table` and `record`, numbered `number`.
pub open spec fn with_record(table: TableModel, number: u32, record: RecordModel) -> TableModel {
    let owner = owner_of(number, record);
    let entries = grown(table.entries, owner + 1);
    TableModel {
        entries: entries.update(owner as int, folded(entries[owner as int], record)),
        links: table.links + links_to(owner, record.names, record.names.len()),
    }
}

/// Whether `record`, numbered `number`, can be added to `table`: its number
/// counts memory, and 64 bits hold the sizes.
pub open spec fn addable(table: TableModel, number: u32, record: RecordModel) -> bool {
    let owner = owner_of(number, record);
    let entry = grown(table.entries, owner + 1)[owner as int];
    &&& owner + 1 < usize::MAX
    &&& entry.allocated + record.allocated <= u64::MAX
    &&& entry.apparent + record.apparent <= u64::MAX
}

/// The entries among the first `count` that are in use and whose reparse tag
/// is not known, but where it is.
pub open spec fn unresolved(entries: Seq<Entry>, count: nat) -> Seq<(u32, u64)>
    decreases count,
{
    if count == 0 {
        Seq::empty()
    } else {
        let before = unresolved(entries, (count - 1) as nat);
        let (number, entry) = (count - 1, entries[count - 1]);
        if entry.in_use && entry.reparse_tag is None && entry.reparse_cluster is Some && number
            <= u32::MAX {
            before.push((number as u32, entry.reparse_cluster->0))
        } else {
            before
        }
    }
}

impl Default for Table {
    fn default() -> (table: Self)
        ensures
            table@ == (TableModel { entries: Seq::empty(), links: Seq::empty() }),
    {
        let table = Table { entries: Vec::new(), links: Vec::new() };
        assert(table@.links =~= Seq::empty());
        table
    }
}

impl Table {
    /// There is room for one entry more.
    #[verifier::type_invariant]
    spec fn well_formed(self) -> bool {
        self.entries@.len() < usize::MAX
    }

    /// Whether `record`, numbered `number`, can be added.
    pub fn can_add(&self, number: u32, record: &Record) -> (can: bool)
        ensures
            can == addable(self@, number, record@),
    {
        let owner: u32 = match record.base {
            Some(base) => base,
            None => number,
        };
        let index: usize = owner as usize;
        if index >= usize::MAX - 1 {
            return false;
        }
        if index >= self.entries.len() {
            return true;
        }
        let entry = &self.entries[index];
        entry.allocated <= u64::MAX - record.allocated && entry.apparent <= u64::MAX
            - record.apparent
    }

    /// Add one parsed record, numbered `number`.
    pub fn add(&mut self, number: u32, record: Record)
        requires
            addable(old(self)@, number, record@),
        ensures
            final(self)@ == with_record(old(self)@, number, record@),
    {
        proof {
            use_type_invariant(&*self);
        }
        let ghost before = self@;
        let mut entries: Vec<Entry> = Vec::new();
        let mut links: Vec<(u32, u32, Box<str>)> = Vec::new();
        std::mem::swap(&mut entries, &mut self.entries);
        std::mem::swap(&mut links, &mut self.links);
        let ghost said = record@;
        let owner: u32 = match record.base {
            Some(base) => base,
            None => number,
        };
        let index: usize = owner as usize;
        let ghost wanted = grown(before.entries, owner + 1);
        while entries.len() <= index
            invariant
                index + 1 < usize::MAX,
                index == owner,
                links_of(links@) == before.links,
                wanted == grown(before.entries, owner + 1),
                before.entries.len() <= entries@.len() <= wanted.len(),
                entries@ == wanted.take(entries@.len() as int),
            decreases wanted.len() - entries@.len(),
        {
            let ghost held = entries@;
            entries.push(Entry::default());
            assert(entries@ =~= wanted.take(held.len() as int + 1));
        }
        assert(entries@ =~= wanted);
        let mut entry = entries[index];
        if record.base.is_none() {
            entry.in_use = true;
            entry.is_dir = record.is_dir;
            entry.modified = match record.modified {
                Some(modified) => modified,
                None => 0,
            };
        }
        entry.allocated = entry.allocated + record.allocated;
        entry.apparent = entry.apparent + record.apparent;
        if record.reparse_tag.is_some() {
            entry.reparse_tag = record.reparse_tag;
        }
        if record.reparse_cluster.is_some() {
            entry.reparse_cluster = record.reparse_cluster;
        }
        let ghost settled = entry;
        let names = record.names;
        for link in iter: names
            invariant
                iter.seq() == names@,
                crate::mft::record::links_of(names@) == said.names,
                entry == (Entry { links: entry.links, ..settled }),
                entry.links == counted_links(settled.links, iter.index() as nat),
                links_of(links@) == before.links + links_to(
                    owner,
                    said.names,
                    iter.index() as nat,
                ),
                entries@ == wanted,
        {
            let ghost held = links@;
            let ghost done = iter.index();
            let (parent, name) = link;
            assert(said.names[done as int] == (parent, name@));
            entry.links = entry.links.saturating_add(1);
            // The root lists itself as its own parent.
            if parent != owner {
                links.push((parent, owner, name));
                assert(links_of(links@) =~= links_of(held).push(
                    Link { parent, child: owner, name: name@ },
                ));
            }
            assert(links_of(links@) =~= before.links + links_to(
                owner,
                said.names,
                (done + 1) as nat,
            ));
        }
        entries.set(index, entry);
        self.entries = entries;
        self.links = links;
        assert(self@.entries =~= with_record(before, number, said).entries);
    }

    /// Entries whose reparse tag lives outside the record: the entry and
    /// the cluster to read it from.
    pub fn unresolved_reparse(&self) -> (list: Vec<(u32, u64)>)
        ensures
            list@ == unresolved(self@.entries, self@.entries.len()),
    {
        let mut list: Vec<(u32, u64)> = Vec::new();
        let mut number: usize = 0;
        while number < self.entries.len()
            invariant
                number <= self.entries@.len(),
                list@ == unresolved(self.entries@, number as nat),
            decreases self.entries@.len() - number,
        {
            let entry = &self.entries[number];
            if entry.in_use && entry.reparse_tag.is_none() && number as u64 <= u32::MAX as u64 {
                if let Some(cluster) = entry.reparse_cluster {
                    list.push((number as u32, cluster));
                }
            }
            number = number + 1;
        }
        list
    }

    /// Say what the reparse tag of entry `number` is; nothing changes if
    /// there is no such entry.
    pub fn set_reparse_tag(&mut self, number: u32, tag: u32)
        ensures
            final(self)@.links == old(self)@.links,
            final(self)@.entries == (if number < old(self)@.entries.len() {
                old(self)@.entries.update(
                    number as int,
                    Entry { reparse_tag: Some(tag), ..old(self)@.entries[number as int] },
                )
            } else {
                old(self)@.entries
            }),
    {
        proof {
            use_type_invariant(&*self);
        }
        let index: usize = number as usize;
        if index < self.entries.len() {
            let mut entries: Vec<Entry> = Vec::new();
            std::mem::swap(&mut entries, &mut self.entries);
            let mut entry = entries[index];
            entry.reparse_tag = Some(tag);
            entries.set(index, entry);
            self.entries = entries;
        }
    }

    /// The entries, and the links.
    pub(crate) fn into_parts(self) -> (parts: (Vec<Entry>, Vec<(u32, u32, Box<str>)>))
        ensures
            parts.0@ == self@.entries,
            parts.0@.len() < usize::MAX,
            links_of(parts.1@) == self@.links,
    {
        proof {
            use_type_invariant(&self);
        }
        (self.entries, self.links)
    }
}

/// Sizes and links add up whichever of two records of one entry comes first.
pub proof fn lemma_either_order(entry: Entry, left: RecordModel, right: RecordModel)
    requires
        entry.allocated + left.allocated + right.allocated <= u64::MAX,
        entry.apparent + left.apparent + right.apparent <= u64::MAX,
    ensures
        folded(folded(entry, left), right).allocated == entry.allocated + left.allocated
            + right.allocated,
        folded(folded(entry, left), right).apparent == entry.apparent + left.apparent
            + right.apparent,
        folded(folded(entry, left), right).allocated == folded(
            folded(entry, right),
            left,
        ).allocated,
        folded(folded(entry, left), right).apparent == folded(folded(entry, right), left).apparent,
        folded(folded(entry, left), right).links == folded(folded(entry, right), left).links,
        folded(folded(entry, left), right).in_use == folded(folded(entry, right), left).in_use,
{
}

/// An extension record is no file of its own: only a base record puts its
/// entry in use, and an extension changes nothing but its base's entry.
pub proof fn lemma_extension_is_no_file(table: TableModel, number: u32, record: RecordModel)
    requires
        addable(table, number, record),
        record.base is Some,
    ensures
        ({
            let after = with_record(table, number, record);
            &&& forall|other: int|
                0 <= other < after.entries.len() && other != owner_of(number, record) ==> (
                #[trigger] after.entries[other]) == (if other < table.entries.len() {
                    table.entries[other]
                } else {
                    unused()
                })
            &&& forall|other: int|
                0 <= other < after.entries.len() && (#[trigger] after.entries[other]).in_use
                    ==> other < table.entries.len() && table.entries[other].in_use
        }),
{
}

} // verus!
