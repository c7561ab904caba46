//! Page store: the arena that owns every page of the tree, addressed by a
//! 32-bit page id starting at 1 (id 0 is reserved as null and holds a dummy
//! page). Pages are immutable once written: a mutation writes its result to
//! a freshly appended page, so every page a snapshot can reach keeps its
//! bytes for as long as the snapshot lives.

use vstd::prelude::*;

use crate::node::{subtree_entries, subtree_wf, LeafNode, Node};
use crate::PageId;

verus! {

/// Key capacity of a leaf page: what remains after the header, divided by
/// the joint size of an encoded key and value.
pub open spec fn spec_leaf_cap(ps: u16) -> int {
    ((ps as int) - 8) / 16
}

/// Key capacity of an internal page: what remains after the header and the
/// one extra child id, divided by the joint size of an encoded key and a
/// child id.
pub open spec fn spec_internal_cap(ps: u16) -> int {
    ((ps as int) - 12) / 12
}

/// A page size the tree can operate with: both capacities are at least 2.
pub open spec fn valid_page_size(ps: u16) -> bool {
    ps >= 40
}

pub struct PageStore {
    pub pages: Vec<Node>,
    pub page_size: u16,
}

impl PageStore {
    pub open spec fn leaf_cap(self) -> int {
        spec_leaf_cap(self.page_size)
    }

    pub open spec fn internal_cap(self) -> int {
        spec_internal_cap(self.page_size)
    }

    /// Well-formedness of the subtree rooted at `id` within this store.
    pub open spec fn wf_subtree(self, id: PageId, h: nat, lo: int, hi: int, is_root: bool) -> bool {
        subtree_wf(self.pages@, self.leaf_cap(), self.internal_cap(), id, h, lo, hi, is_root)
    }

    /// Entries of the subtree rooted at `id` within this store.
    pub open spec fn entries_of(self, id: PageId, h: nat) -> Seq<(u64, u64)> {
        subtree_entries(self.pages@, id, h)
    }

    /// A fresh store holding only the null page.
    pub fn new(page_size: u16) -> (s: PageStore)
        requires
            valid_page_size(page_size),
        ensures
            s.page_size == page_size,
            s.pages@.len() == 1,
            s.pages@[0] is Leaf,
            s.pages@[0]->Leaf_0.keys@.len() == 0,
            s.pages@[0]->Leaf_0.values@.len() == 0,
    {
        let mut pages: Vec<Node> = Vec::new();
        pages.push(Node::Leaf(LeafNode { keys: Vec::new(), values: Vec::new() }));
        PageStore { pages, page_size }
    }

    pub fn leaf_capacity(&self) -> (c: usize)
        requires
            valid_page_size(self.page_size),
        ensures
            c as int == self.leaf_cap(),
            c >= 2,
    {
        (self.page_size as usize - 8) / 16
    }

    pub fn internal_capacity(&self) -> (c: usize)
        requires
            valid_page_size(self.page_size),
        ensures
            c as int == self.internal_cap(),
            c >= 2,
    {
        (self.page_size as usize - 12) / 12
    }

    /// A shared view of the page at `id`.
    pub fn get_page(&self, id: PageId) -> (n: &Node)
        requires
            (id as int) < self.pages@.len(),
        ensures
            *n == self.pages@[id as int],
    {
        &self.pages[id as usize]
    }

    /// Install a node on a fresh page and hand back its id.
    pub fn append_page(&mut self, n: Node) -> (id: PageId)
        requires
            old(self).pages@.len() < u32::MAX as int,
        ensures
            final(self).pages@ == old(self).pages@.push(n),
            id as int == old(self).pages@.len(),
            final(self).page_size == old(self).page_size,
    {
        let id = self.pages.len() as u32;
        self.pages.push(n);
        id
    }

    /// Number of pages the store holds, the null page included.
    pub fn len(&self) -> (n: usize)
        ensures
            n == self.pages@.len(),
    {
        self.pages.len()
    }
}

} // verus!
