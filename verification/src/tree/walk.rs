//! Making nodes, and finding the way to those beneath them.

use vstd::prelude::*;

use crate::classify::Category;
use crate::text;
use crate::text::{name_of, same};
use crate::tree::node;
use crate::tree::node::{Metric, Node, NodeKind};

verus! {

broadcast use crate::tree::node::group_trees;

impl Clone for Node {
    fn clone(&self) -> (copy: Self)
        ensures
            copy@ == self@,
        decreases self,
    {
        let mut children: Vec<Node> = Vec::with_capacity(self.children.len());
        let mut next: usize = 0;
        while next < self.children.len()
            invariant
                next <= self.children@.len(),
                children@.len() == next,
                forall|i: int| 0 <= i < next ==> (#[trigger] children@[i])@ == self.children@[i]@,
            decreases self.children@.len() - next,
        {
            let child = &self.children[next];
            children.push(child.clone());
            next = next + 1;
        }
        let copy = Node {
            name: self.name.clone(),
            kind: self.kind,
            bytes: self.bytes,
            own_bytes: self.own_bytes,
            files: self.files,
            own_files: self.own_files,
            dirs: self.dirs,
            inode: self.inode,
            read_error: self.read_error,
            modified: self.modified,
            category: self.category,
            reclaim: self.reclaim,
            children,
        };
        assert(copy@.children =~= self@.children);
        copy
    }
}

impl Node {
    /// A directory with no children yet.
    pub fn directory(name: &str) -> (node: Self)
        ensures
            node@ == node::new_directory(name@),
    {
        let node = Node {
            name: name_of(name),
            kind: NodeKind::Directory,
            bytes: 0,
            own_bytes: 0,
            files: 0,
            own_files: 0,
            dirs: 1,
            inode: None,
            read_error: false,
            modified: 0,
            category: Category::Other,
            reclaim: None,
            children: Vec::new(),
        };
        assert(node@.children =~= Seq::empty());
        node
    }

    /// A leaf entry.
    pub fn entry(name: &str, kind: NodeKind, bytes: u64) -> (node: Self)
        ensures
            node@ == node::new_entry(name@, kind, bytes),
    {
        let files: u64 = if matches!(kind, NodeKind::File) {
            1
        } else {
            0
        };
        let node = Node {
            name: name_of(name),
            kind,
            bytes,
            own_bytes: bytes,
            files,
            own_files: files,
            dirs: 0,
            inode: None,
            read_error: false,
            modified: 0,
            category: Category::Other,
            reclaim: None,
            children: Vec::new(),
        };
        assert(node@.children =~= Seq::empty());
        node
    }

    pub fn is_dir(&self) -> (directory: bool)
        ensures
            directory == (self@.kind is Directory),
    {
        self.kind.is_dir()
    }

    /// The value a treemap should weight this node by.
    pub fn value(&self, metric: Metric) -> (value: u64)
        ensures
            value == node::weight(self@, metric),
    {
        match metric {
            Metric::Bytes => self.bytes,
            Metric::Files => self.files,
        }
    }

    /// The first child with this name, if there is one.
    pub fn child_named(&self, name: &str) -> (found: Option<&Self>)
        ensures
            match found {
                Some(child) => exists|index: int|
                    {
                        &&& 0 <= index < self@.children.len()
                        &&& child@ == #[trigger] self@.children[index]
                        &&& child@.name == name@
                        &&& forall|earlier: int|
                            0 <= earlier < index ==> (#[trigger] self@.children[earlier]).name
                                != name@
                    },
                None => forall|index: int|
                    0 <= index < self@.children.len() ==> (#[trigger] self@.children[index]).name
                        != name@,
            },
    {
        let mut next: usize = 0;
        while next < self.children.len()
            invariant
                next <= self.children@.len(),
                forall|index: int|
                    0 <= index < next ==> (#[trigger] self@.children[index]).name != name@,
            decreases self.children@.len() - next,
        {
            let child = &self.children[next];
            assert(child@ == self@.children[next as int]);
            if same(&child.name, name) {
                return Some(child);
            }
            next = next + 1;
        }
        None
    }

    pub fn child(&self, index: usize) -> (found: Option<&Self>)
        ensures
            match found {
                Some(child) => index < self@.children.len() && child@
                    == self@.children[index as int],
                None => index >= self@.children.len(),
            },
    {
        if index < self.children.len() {
            Some(&self.children[index])
        } else {
            None
        }
    }

    /// Follow `crumbs` from this node. Crumbs are child indices, so they stay
    /// valid across re-sorting only for the tree they were produced from.
    pub fn resolve(&self, crumbs: &[usize]) -> (found: Option<&Self>)
        ensures
            match found {
                Some(node) => node::at(self@, crumbs@) == Some(node@),
                None => node::at(self@, crumbs@) is None,
            },
    {
        let mut here = self;
        let mut done: usize = 0;
        assert(crumbs@.take(0) =~= Seq::empty());
        while done < crumbs.len()
            invariant
                done <= crumbs@.len(),
                node::at(self@, crumbs@.take(done as int)) == Some(here@),
            decreases crumbs@.len() - done,
        {
            let index: usize = crumbs[done];
            let ghost further = crumbs@.take(done + 1);
            assert(further.drop_last() =~= crumbs@.take(done as int));
            if index >= here.children.len() {
                proof {
                    node::lemma_astray(self@, crumbs@, done + 1);
                }
                return None;
            }
            here = &here.children[index];
            done = done + 1;
        }
        assert(crumbs@.take(done as int) =~= crumbs@);
        Some(here)
    }

    /// The chain of nodes ending at `crumbs`, including this node; where they
    /// lead nowhere, as far as they lead.
    pub fn resolve_chain<'a>(&'a self, crumbs: &[usize]) -> (nodes: Vec<&'a Self>)
        ensures
            nodes@.map_values(|node: &Node| node@) == node::chain(self@, crumbs@),
    {
        let mut nodes: Vec<&'a Node> = Vec::new();
        nodes.push(self);
        let ghost views = |node: &Node| node@;
        let mut here = self;
        let mut done: usize = 0;
        assert(crumbs@.take(0) =~= Seq::empty());
        assert(nodes@.map_values(views) =~= seq![self@]);
        while done < crumbs.len()
            invariant
                done <= crumbs@.len(),
                node::at(self@, crumbs@.take(done as int)) == Some(here@),
                views == (|node: &Node| node@),
                nodes@.map_values(views) == node::chain(self@, crumbs@.take(done as int)),
            decreases crumbs@.len() - done,
        {
            let index: usize = crumbs[done];
            let ghost further = crumbs@.take(done + 1);
            assert(further.drop_last() =~= crumbs@.take(done as int));
            if index >= here.children.len() {
                proof {
                    node::lemma_astray(self@, crumbs@, done + 1);
                }
                return nodes;
            }
            here = &here.children[index];
            let ghost before = nodes@;
            nodes.push(here);
            assert(nodes@.map_values(views) =~= before.map_values(views).push(here@));
            done = done + 1;
        }
        assert(crumbs@.take(done as int) =~= crumbs@);
        nodes
    }

    /// Index of the largest child, used to pick a useful descent target: the
    /// first, because children are ordered.
    pub fn largest_child(&self) -> (index: Option<usize>)
        ensures
            index == node::largest(self@),
    {
        if self.children.len() == 0 {
            None
        } else {
            Some(0)
        }
    }

    /// Depth of the deepest descendant.
    pub fn depth(&self) -> (depth: u32)
        requires
            node::height(self@) <= u32::MAX,
        ensures
            depth == node::height(self@),
        decreases self,
    {
        let mut deepest: u32 = 0;
        let mut next: usize = 0;
        assert(self@.children.take(0).len() == 0);
        while next < self.children.len()
            invariant
                next <= self.children@.len(),
                node::height(self@) <= u32::MAX,
                self@.children == node::trees(self.children@),
                deepest == node::levels(self@.children.take(next as int)),
            decreases self.children@.len() - next,
        {
            let child = &self.children[next];
            proof {
                node::lemma_levels(self@.children, next as int);
                assert(self@.children.take(next + 1).drop_last() =~= self@.children.take(
                    next as int,
                ));
                assert(self@.children.take(next + 1).last() == child@);
            }
            let below: u32 = child.depth() + 1;
            if below > deepest {
                deepest = below;
            }
            next = next + 1;
        }
        assert(self@.children.take(next as int) =~= self@.children);
        deepest
    }
}

/// Absolute path of the node at `crumbs` beneath a scanned root, one name
/// for each step; `root_path` is the way to the root.
pub fn path_of(root_path: &[String], root: &Node, crumbs: &[usize]) -> (path: Vec<String>)
    ensures
        text::texts(path@) == text::texts(root_path@) + node::names_below(root@, crumbs@),
{
    let mut path: Vec<String> = Vec::new();
    let mut done: usize = 0;
    while done < root_path.len()
        invariant
            done <= root_path@.len(),
            text::texts(path@) == text::texts(root_path@).take(done as int),
        decreases root_path@.len() - done,
    {
        let ghost before = path@;
        path.push(root_path[done].clone());
        assert(text::texts(path@) =~= text::texts(before).push(root_path@[done as int]@));
        done = done + 1;
    }
    assert(text::texts(path@) =~= text::texts(root_path@));
    let nodes = root.resolve_chain(crumbs);
    let ghost views = |node: &Node| node@;
    let ghost below = node::names_below(root@, crumbs@);
    proof {
        node::lemma_chain(root@, crumbs@);
        assert(nodes@.map_values(views).len() == nodes@.len());
    }
    let mut next: usize = 1;
    assert(text::texts(path@) =~= text::texts(root_path@) + below.take(0));
    while next < nodes.len()
        invariant
            1 <= next <= nodes@.len(),
            views == (|node: &Node| node@),
            nodes@.map_values(views) == node::chain(root@, crumbs@),
            below == node::names_below(root@, crumbs@),
            below.len() == nodes@.len() - 1,
            text::texts(path@) == text::texts(root_path@) + below.take(next - 1),
        decreases nodes@.len() - next,
    {
        let node = nodes[next];
        let ghost before = path@;
        let name: &str = &node.name;
        path.push(name.to_owned());
        proof {
            assert(node@ == nodes@.map_values(views)[next as int]);
            assert(below[next - 1] == node@.name);
            assert(text::texts(path@) =~= text::texts(before).push(node@.name));
            assert(below.take(next as int) =~= below.take(next - 1).push(node@.name));
        }
        next = next + 1;
    }
    assert(below.take(next - 1) =~= below);
    path
}

} // verus!
