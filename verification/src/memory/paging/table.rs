//! A tree of page tables in the arena, and what a walk through it finds.

use super::entry::{vpn, PageEntry, PageEntryType};
use crate::memory::arena::PhysicalMemory;
use crate::memory::frames::BitmapAllocator;
use vstd::prelude::*;

verus! {

/// Entries in one page table.
pub const PAGE_TABLE_LEN: usize = 512;

/// Where a table hangs in its tree: its level (2 for the root, 0 for the
/// lowest tables) and the slot of the table above that points to it.
pub ghost struct TableNode {
    pub level: int,
    pub parent: usize,
    pub index: int,
}

/// A tree of page tables in the arena, named by the address of the frame that
/// holds its root. Each table fills one 4 KiB frame with 512 entries.
pub struct PageTable {
    root: usize,
    tree: Ghost<Map<usize, TableNode>>,
}

/// The entry in slot `index` of the table at `table`.
pub open spec fn entry_at(memory: &PhysicalMemory, table: usize, index: int) -> PageEntry {
    PageEntry(memory.word(table + 8 * index))
}

impl PageTable {
    /// The address of the root table.
    pub closed spec fn addr(&self) -> usize {
        self.root
    }

    /// The tables of the tree, each by its address.
    pub closed spec fn tree(&self) -> Map<usize, TableNode> {
        self.tree@
    }

    /// Every table of the tree lies in the arena, and every branch entry of
    /// a table points to a table of the tree, one level down, that no other
    /// entry points to.
    pub open spec fn wf(&self, memory: &PhysicalMemory) -> bool {
        &&& memory.wf()
        &&& self.tree().dom().contains(self.addr())
        &&& self.tree()[self.addr()].level == 2
        &&& forall|table: usize| #[trigger]
            self.tree().dom().contains(table) ==> memory.holds_frame(table as int) && 0
                <= self.tree()[table].level <= 2
        &&& forall|table: usize, index: int|
            self.tree().dom().contains(table) && 0 <= index < 512 && (#[trigger] entry_at(
                memory,
                table,
                index,
            )).kind() is Branch ==> {
                let child = entry_at(memory, table, index).address();
                &&& self.tree()[table].level > 0
                &&& child != self.addr()
                &&& self.tree().dom().contains(child)
                &&& self.tree()[child] == TableNode {
                    level: self.tree()[table].level - 1,
                    parent: table,
                    index,
                }
            }
    }

    /// Every table of the tree fills a frame that `frames` tracks and marks
    /// as used.
    pub open spec fn owned(&self, frames: &BitmapAllocator) -> bool {
        forall|table: usize| #[trigger]
            self.tree().dom().contains(table) ==> {
                &&& frames.start() <= table
                &&& frames.frame_of(table as int) < frames.num_frames()
                &&& frames.bits()[frames.frame_of(table as int)]
            }
    }

    /// The address of the root table.
    pub fn address(&self) -> (root: usize)
        ensures
            root == self.addr(),
    {
        self.root
    }

    /// The tree that consists of a root table at `root` alone.
    pub(crate) fn rooted(root: usize) -> (table: Self)
        ensures
            table.addr() == root,
            table.tree() == Map::<usize, TableNode>::empty().insert(
                root,
                TableNode { level: 2, parent: root, index: 0 },
            ),
    {
        PageTable {
            root,
            tree: Ghost(
                Map::<usize, TableNode>::empty().insert(
                    root,
                    TableNode { level: 2, parent: root, index: 0 },
                ),
            ),
        }
    }

    /// Takes the table at `table` into the tree, at the place `node`.
    pub(crate) fn adopt(&mut self, table: usize, Ghost(node): Ghost<TableNode>)
        ensures
            final(self).addr() == old(self).addr(),
            final(self).tree() == old(self).tree().insert(table, node),
    {
        self.tree = Ghost(self.tree@.insert(table, node));
    }
}

/// The leaf entry that the walk for `address` ends in, if it ends in one: the
/// walk starts in the root, follows branch entries down, and stops at the
/// first entry that is no branch.
pub open spec fn lookup(memory: &PhysicalMemory, root: usize, address: usize) -> Option<PageEntry> {
    let top = entry_at(memory, root, vpn(address, 2));
    match top.kind() {
        PageEntryType::Invalid => None,
        PageEntryType::Leaf => Some(top),
        PageEntryType::Branch(middle_table) => {
            let middle = entry_at(memory, middle_table, vpn(address, 1));
            match middle.kind() {
                PageEntryType::Invalid => None,
                PageEntryType::Leaf => Some(middle),
                PageEntryType::Branch(low_table) => {
                    let low = entry_at(memory, low_table, vpn(address, 0));
                    match low.kind() {
                        PageEntryType::Leaf => Some(low),
                        _ => None,
                    }
                },
            }
        },
    }
}

/// The physical address that the tree maps `address` to: the address of the
/// frame or page that the leaf for `address` names.
pub open spec fn translate(memory: &PhysicalMemory, root: usize, address: usize) -> Option<usize> {
    match lookup(memory, root, address) {
        Some(entry) => Some(entry.address()),
        None => None,
    }
}

} // verus!
