//! The walk through a tree of tables, and what a write to a table does to
//! it.

use super::entry::{vpn, PageEntry, PageEntryType};
use super::flags::PageEntryFlags;
use super::level::PageEntryLevel;
use super::table::{entry_at, lookup, PageTable, TableNode};
use crate::memory::arena::PhysicalMemory;
use vstd::prelude::*;

verus! {

/// The table that the walk for `address` reads at `level`, if it gets that
/// far down.
pub open spec fn table_at(memory: &PhysicalMemory, root: usize, address: usize, level: int) -> Option<
    usize,
> {
    if level >= 2 {
        Some(root)
    } else {
        match entry_at(memory, root, vpn(address, 2)).kind() {
            PageEntryType::Branch(middle) => if level == 1 {
                Some(middle)
            } else {
                match entry_at(memory, middle, vpn(address, 1)).kind() {
                    PageEntryType::Branch(low) => Some(low),
                    _ => None,
                }
            },
            _ => None,
        }
    }
}

/// Whether a page of `level` holds both addresses: they select the same
/// entry at that level and at each level above.
pub open spec fn same_page(a: usize, b: usize, level: PageEntryLevel) -> bool {
    forall|l: int| level.number() <= l <= 2 ==> #[trigger] vpn(a, l) == vpn(b, l)
}

/// Where the words of the table at `table` start in the arena.
pub open spec fn table_start(memory: &PhysicalMemory, table: usize) -> int {
    memory.index_of(table as int)
}

/// The words of a table in the arena: 512 of them, from a multiple of 512 on,
/// one per entry.
#[verifier::spinoff_prover]
pub proof fn lemma_table_words(memory: &PhysicalMemory, table: usize, index: int)
    requires
        memory.wf(),
        memory.holds_frame(table as int),
        0 <= index < 512,
    ensures
        memory.holds_range(table + 8 * index, 8),
        memory.index_of(table + 8 * index) == table_start(memory, table) + index,
        0 <= table_start(memory, table),
        table_start(memory, table) + 512 <= memory.words().len(),
        table_start(memory, table) % 512 == 0,
        memory.index_of(table + 0x1000) == table_start(memory, table) + 512,
        table as int == memory.base() + 8 * table_start(memory, table),
{
    let offset = table - memory.base();
    assert(offset % 0x1000 == 0);
    assert(offset == 0x1000 * (offset / 0x1000));
    assert(offset / 8 == 512 * (offset / 0x1000));
}

/// Two tables of the arena share no word.
#[verifier::spinoff_prover]
pub proof fn lemma_tables_apart(memory: &PhysicalMemory, a: usize, b: usize)
    requires
        memory.wf(),
        memory.holds_frame(a as int),
        memory.holds_frame(b as int),
        a != b,
    ensures
        table_start(memory, a) + 512 <= table_start(memory, b) || table_start(memory, b) + 512
            <= table_start(memory, a),
{
    lemma_table_words(memory, a, 0);
    lemma_table_words(memory, b, 0);
}

/// Writing one entry changes that entry and no other.
#[verifier::spinoff_prover]
pub proof fn lemma_entry_after_write(
    before: &PhysicalMemory,
    after: &PhysicalMemory,
    table: usize,
    index: int,
    value: u64,
    other: usize,
    position: int,
)
    requires
        before.wf(),
        before.holds_frame(table as int),
        before.holds_frame(other as int),
        0 <= index < 512,
        0 <= position < 512,
        after.base() == before.base(),
        after.words() == before.words().update(before.index_of(table + 8 * index), value),
    ensures
        entry_at(after, other, position) == if other == table && position == index {
            PageEntry(value)
        } else {
            entry_at(before, other, position)
        },
{
    lemma_table_words(before, table, index);
    lemma_table_words(before, other, position);
    if other != table {
        lemma_tables_apart(before, table, other);
    }
}

/// Clearing one frame clears the entries of a table in it and changes no
/// entry of another table.
#[verifier::spinoff_prover]
pub proof fn lemma_entry_after_zero(
    before: &PhysicalMemory,
    after: &PhysicalMemory,
    fresh: usize,
    other: usize,
    position: int,
)
    requires
        before.wf(),
        before.holds_frame(fresh as int),
        before.holds_frame(other as int),
        0 <= position < 512,
        before.same_outside(after, fresh as int, 0x1000),
        forall|i: int|
            before.index_of(fresh as int) <= i < before.index_of(fresh + 0x1000)
                ==> after.words()[i] == 0,
    ensures
        entry_at(after, other, position) == if other == fresh {
            PageEntry(0)
        } else {
            entry_at(before, other, position)
        },
{
    lemma_table_words(before, fresh, 0);
    lemma_table_words(before, other, position);
    if other != fresh {
        lemma_tables_apart(before, fresh, other);
    }
}

/// The walk of a well-formed tree stays in the tree: the table that it reads
/// at a level is a table of the tree, of that level.
#[verifier::spinoff_prover]
pub proof fn lemma_walk_in_tree(
    root: &PageTable,
    memory: &PhysicalMemory,
    address: usize,
    level: int,
)
    requires
        root.wf(memory),
        0 <= level <= 2,
        table_at(memory, root.addr(), address, level) is Some,
    ensures
        root.tree().dom().contains(table_at(memory, root.addr(), address, level)->Some_0),
        root.tree()[table_at(memory, root.addr(), address, level)->Some_0].level == level,
        level < 2 ==> root.tree()[table_at(memory, root.addr(), address, level)->Some_0].parent
            == table_at(memory, root.addr(), address, level + 1)->Some_0,
        level < 2 ==> root.tree()[table_at(memory, root.addr(), address, level)->Some_0].index
            == vpn(address, level + 1),
        level < 2 ==> table_at(memory, root.addr(), address, level + 1) is Some,
{
    lemma_vpn_range(address);
    if level < 2 {
        let top = entry_at(memory, root.addr(), vpn(address, 2));
        assert(top.kind() is Branch);
        let middle = top.address();
        assert(root.tree().dom().contains(middle));
        if level == 0 {
            let next = entry_at(memory, middle, vpn(address, 1));
            assert(next.kind() is Branch);
        }
    }
}

/// Each index of an address is one of the 512 slots of a table.
#[verifier::spinoff_prover]
pub proof fn lemma_vpn_range(address: usize)
    ensures
        forall|l: int| 0 <= #[trigger] vpn(address, l) < 512,
{
}

/// In a well-formed tree the walks for two addresses read the same table at
/// a level exactly when the addresses select the same entries above it.
#[verifier::spinoff_prover]
pub proof fn lemma_shared_table(
    root: &PageTable,
    memory: &PhysicalMemory,
    a: usize,
    b: usize,
    level: int,
)
    requires
        root.wf(memory),
        0 <= level <= 2,
        table_at(memory, root.addr(), a, level) is Some,
    ensures
        table_at(memory, root.addr(), b, level) == table_at(memory, root.addr(), a, level) <==> (
        forall|l: int| level < l <= 2 ==> #[trigger] vpn(a, l) == vpn(b, l)),
{
    lemma_vpn_range(a);
    lemma_vpn_range(b);
    lemma_walk_in_tree(root, memory, a, level);
    if table_at(memory, root.addr(), b, level) == table_at(memory, root.addr(), a, level) {
        lemma_walk_in_tree(root, memory, b, level);
        if level < 2 {
            assert(vpn(a, level + 1) == vpn(b, level + 1));
            if level == 0 {
                lemma_walk_in_tree(root, memory, a, 1);
                lemma_walk_in_tree(root, memory, b, 1);
                assert(vpn(a, 2) == vpn(b, 2));
            }
        }
        assert forall|l: int| level < l <= 2 implies #[trigger] vpn(a, l) == vpn(b, l) by {}
    }
    if forall|l: int| level < l <= 2 ==> #[trigger] vpn(a, l) == vpn(b, l) {
        if level < 2 {
            assert(vpn(a, 2) == vpn(b, 2));
            if level == 0 {
                assert(vpn(a, 1) == vpn(b, 1));
            }
        }
    }
}

/// Whether every valid entry of a table of the tree is in `after` what it was
/// in `before`.
pub open spec fn keeps_entries(
    root: &PageTable,
    before: &PhysicalMemory,
    after: &PhysicalMemory,
) -> bool {
    forall|table: usize, index: int|
        #![trigger entry_at(after, table, index)]
        root.tree().dom().contains(table) && 0 <= index < 512 && entry_at(
            before,
            table,
            index,
        ).holds_valid() ==> entry_at(after, table, index) == entry_at(before, table, index)
}

/// Whether a slot that held `old` can hold `new` after tables were hung in
/// and leaves planted: it holds what it held, or it was empty and holds a
/// valid entry now, with the reserved bits that it had. An entry that was
/// written as a branch has the valid bit for its only flag.
pub open spec fn slot_written(old: PageEntry, new: PageEntry) -> bool {
    new == old || (!old.holds_valid() && new.holds_valid() && new.reserved() == old.reserved()
        && (!new.holds_access() ==> new.flags() == PageEntryFlags(0x01)))
}

/// What slot `index` of the table at `table` held in `memory`, where the
/// tree held that table then, and the empty word that a new table starts
/// with where it did not.
pub open spec fn slot_before(root: &PageTable, memory: &PhysicalMemory, table: usize, index: int) -> PageEntry {
    if root.tree().dom().contains(table) {
        entry_at(memory, table, index)
    } else {
        PageEntry(0)
    }
}

/// Whether every slot of every table of the grown tree holds in `after` what
/// `slot_written` allows, seen from the tree `root` in `before`: no slot was
/// written twice, none was cleared, and each new table started with cleared
/// words.
#[verifier::opaque]
pub open spec fn written_once(
    root: &PageTable,
    before: &PhysicalMemory,
    grown: &PageTable,
    after: &PhysicalMemory,
) -> bool {
    forall|table: usize, index: int|
        #![trigger entry_at(after, table, index)]
        grown.tree().dom().contains(table) && 0 <= index < 512 ==> slot_written(
            slot_before(root, before, table, index),
            entry_at(after, table, index),
        )
}

/// An arena with the same words and the same tree has no slot written.
#[verifier::spinoff_prover]
pub proof fn lemma_nothing_written_once(
    root: &PageTable,
    before: &PhysicalMemory,
    grown: &PageTable,
    after: &PhysicalMemory,
)
    requires
        after.base() == before.base(),
        after.words() == before.words(),
        grown.tree() == root.tree(),
    ensures
        written_once(root, before, grown, after),
{
    reveal(written_once);
    assert forall|table: usize, index: int| #[trigger]
        entry_at(after, table, index) == entry_at(before, table, index) by {}
}

/// Slots written once, and then once again at most, were written once: a
/// slot that was written the first time holds a valid entry, and is left
/// alone the second time.
#[verifier::spinoff_prover]
pub proof fn lemma_written_once_on(
    first_root: &PageTable,
    first: &PhysicalMemory,
    second_root: &PageTable,
    second: &PhysicalMemory,
    third_root: &PageTable,
    third: &PhysicalMemory,
)
    requires
        written_once(first_root, first, second_root, second),
        written_once(second_root, second, third_root, third),
        first_root.tree().submap_of(second_root.tree()),
        second_root.tree().submap_of(third_root.tree()),
    ensures
        written_once(first_root, first, third_root, third),
{
    reveal(written_once);
    assert(PageEntry(0).holds_valid() == false) by {
        assert(0u64 & 0x01 == 0) by (bit_vector);
    }
    assert forall|table: usize, index: int|
        #![trigger entry_at(third, table, index)]
        third_root.tree().dom().contains(table) && 0 <= index < 512 implies slot_written(
        slot_before(first_root, first, table, index),
        entry_at(third, table, index),
    ) by {
        let last = entry_at(third, table, index);
        if second_root.tree().dom().contains(table) {
            let middle = entry_at(second, table, index);
            assert(slot_written(slot_before(first_root, first, table, index), middle));
            assert(slot_written(middle, last));
        } else {
            assert(!first_root.tree().dom().contains(table));
        }
    }
}

/// Where every valid entry is kept, the walk for an address reads the tables
/// that it read before.
#[verifier::spinoff_prover]
pub proof fn lemma_path_kept(
    root: &PageTable,
    before: &PhysicalMemory,
    after: &PhysicalMemory,
    address: usize,
    level: int,
)
    requires
        root.wf(before),
        keeps_entries(root, before, after),
        0 <= level <= 2,
        table_at(before, root.addr(), address, level) is Some,
    ensures
        table_at(after, root.addr(), address, level) == table_at(
            before,
            root.addr(),
            address,
            level,
        ),
{
    lemma_vpn_range(address);
    if level < 2 {
        lemma_walk_in_tree(root, before, address, level);
        lemma_walk_in_tree(root, before, address, level + 1);
        assert(entry_at(before, root.addr(), vpn(address, 2)).holds_valid());
        assert(entry_at(after, root.addr(), vpn(address, 2)) == entry_at(
            before,
            root.addr(),
            vpn(address, 2),
        ));
        if level < 1 {
            lemma_walk_in_tree(root, before, address, 1);
            let middle = table_at(before, root.addr(), address, 1)->Some_0;
            assert(entry_at(before, middle, vpn(address, 1)).holds_valid());
            assert(entry_at(after, middle, vpn(address, 1)) == entry_at(
                before,
                middle,
                vpn(address, 1),
            ));
        }
    }
}

/// An arena with the same words holds the same tree.
#[verifier::spinoff_prover]
pub proof fn lemma_same_words(root: &PageTable, before: &PhysicalMemory, after: &PhysicalMemory)
    requires
        root.wf(before),
        after.base() == before.base(),
        after.words() == before.words(),
    ensures
        root.wf(after),
        forall|address: usize|
            #![trigger lookup(after, root.addr(), address)]
            lookup(after, root.addr(), address) == lookup(before, root.addr(), address),
        forall|address: usize, l: int|
            #![trigger table_at(after, root.addr(), address, l)]
            table_at(after, root.addr(), address, l) == table_at(before, root.addr(), address, l),
        keeps_entries(root, before, after),
{
    assert forall|table: usize, index: int| #[trigger]
        entry_at(after, table, index) == entry_at(before, table, index) by {}
}

/// What a new leaf does to a tree. The entry replaces an empty one in a table
/// that the walk for `mapped` reads at `level`: the tree stays well formed,
/// the walks that share the page of `mapped` end in the new leaf, and all
/// others end as before.
#[verifier::spinoff_prover]
pub proof fn lemma_leaf_written(
    root: &PageTable,
    before: &PhysicalMemory,
    after: &PhysicalMemory,
    mapped: usize,
    level: PageEntryLevel,
    leaf: PageEntry,
)
    requires
        root.wf(before),
        table_at(before, root.addr(), mapped, level.number()) is Some,
        !entry_at(
            before,
            table_at(before, root.addr(), mapped, level.number())->Some_0,
            vpn(mapped, level.number()),
        ).holds_valid(),
        leaf.kind() is Leaf,
        after.base() == before.base(),
        after.words() == before.words().update(
            before.index_of(
                table_at(before, root.addr(), mapped, level.number())->Some_0 + 8 * vpn(
                    mapped,
                    level.number(),
                ),
            ),
            leaf.0,
        ),
    ensures
        root.wf(after),
        forall|address: usize|
            #![trigger lookup(after, root.addr(), address)]
            lookup(after, root.addr(), address) == if same_page(address, mapped, level) {
                Some(leaf)
            } else {
                lookup(before, root.addr(), address)
            },
        table_at(after, root.addr(), mapped, level.number()) == table_at(
            before,
            root.addr(),
            mapped,
            level.number(),
        ),
        entry_at(
            after,
            table_at(before, root.addr(), mapped, level.number())->Some_0,
            vpn(mapped, level.number()),
        ) == leaf,
        keeps_entries(root, before, after),
{
    let number = level.number();
    let table = table_at(before, root.addr(), mapped, number)->Some_0;
    let index = vpn(mapped, number);
    lemma_vpn_range(mapped);
    lemma_walk_in_tree(root, before, mapped, number);
    lemma_table_words(before, table, index);
    if number < 2 {
        lemma_walk_in_tree(root, before, mapped, number + 1);
    }
    assert forall|other: usize, position: int|
        root.tree().dom().contains(other) && 0 <= position < 512 implies #[trigger] entry_at(
        after,
        other,
        position,
    ) == if other == table && position == index {
        leaf
    } else {
        entry_at(before, other, position)
    } by {
        lemma_entry_after_write(before, after, table, index, leaf.0, other, position);
    }
    assert(root.wf(after));
    assert forall|address: usize|
        #![trigger lookup(after, root.addr(), address)]
        lookup(after, root.addr(), address) == if same_page(address, mapped, level) {
            Some(leaf)
        } else {
            lookup(before, root.addr(), address)
        } by {
        lemma_vpn_range(address);
        lemma_shared_table(root, before, mapped, address, number);
        let here = table_at(before, root.addr(), address, number);
        let hits = here == Some(table) && vpn(address, number) == index;
        assert(same_page(address, mapped, level) == hits) by {
            if hits {
                assert forall|l: int| number <= l <= 2 implies #[trigger] vpn(address, l) == vpn(
                    mapped,
                    l,
                ) by {}
            }
            if same_page(address, mapped, level) {
                assert(vpn(address, number) == vpn(mapped, number));
                assert forall|l: int| number < l <= 2 implies #[trigger] vpn(mapped, l) == vpn(
                    address,
                    l,
                ) by {}
            }
        }
        let top = entry_at(before, root.addr(), vpn(address, 2));
        if top.kind() is Branch {
            lemma_walk_in_tree(root, before, address, 1);
            let middle = entry_at(before, top.address(), vpn(address, 1));
            if middle.kind() is Branch {
                lemma_walk_in_tree(root, before, address, 0);
            }
        }
    }
}

/// What a new, empty table does to a tree. A frame outside the tree is
/// cleared and an empty entry of a table above the lowest level is made a
/// branch to it: with the new table added the tree stays well formed, and
/// every walk ends as before.
#[verifier::spinoff_prover]
pub proof fn lemma_table_added(
    root: &PageTable,
    grown: &PageTable,
    before: &PhysicalMemory,
    cleared: &PhysicalMemory,
    after: &PhysicalMemory,
    table: usize,
    index: int,
    fresh: usize,
    branch: PageEntry,
)
    requires
        root.wf(before),
        root.tree().dom().contains(table),
        root.tree()[table].level > 0,
        0 <= index < 512,
        !entry_at(before, table, index).holds_valid(),
        before.holds_frame(fresh as int),
        !root.tree().dom().contains(fresh),
        before.same_outside(cleared, fresh as int, 0x1000),
        forall|i: int|
            before.index_of(fresh as int) <= i < before.index_of(fresh + 0x1000)
                ==> cleared.words()[i] == 0,
        branch.kind() == PageEntryType::Branch(fresh),
        after.base() == before.base(),
        after.words() == cleared.words().update(before.index_of(table + 8 * index), branch.0),
        grown.addr() == root.addr(),
        grown.tree() == root.tree().insert(
            fresh,
            TableNode { level: root.tree()[table].level - 1, parent: table, index },
        ),
    ensures
        grown.wf(after),
        forall|address: usize|
            #![trigger lookup(after, root.addr(), address)]
            lookup(after, root.addr(), address) == lookup(before, root.addr(), address),
        forall|address: usize, l: int|
            #![trigger table_at(after, root.addr(), address, l)]
            table_at(before, root.addr(), address, l) is Some ==> table_at(
                after,
                root.addr(),
                address,
                l,
            ) == table_at(before, root.addr(), address, l),
        forall|position: int|
            0 <= position < 512 ==> !(#[trigger] entry_at(after, fresh, position)).holds_valid(),
        entry_at(after, table, index) == branch,
        keeps_entries(root, before, after),
{
    assert(PageEntry(0).kind() is Invalid) by {
        assert(0u64 & 0x01 == 0) by (bit_vector);
    }
    lemma_table_words(before, table, index);
    lemma_table_words(before, fresh, 0);
    assert(cleared.wf() && after.wf());
    assert forall|other: usize, position: int|
        grown.tree().dom().contains(other) && 0 <= position < 512 implies #[trigger] entry_at(
        after,
        other,
        position,
    ) == if other == table && position == index {
        branch
    } else if other == fresh {
        PageEntry(0)
    } else {
        entry_at(before, other, position)
    } by {
        lemma_entry_after_zero(before, cleared, fresh, other, position);
        lemma_entry_after_write(cleared, after, table, index, branch.0, other, position);
    }
    assert forall|other: usize, position: int|
        grown.tree().dom().contains(other) && 0 <= position < 512 && (#[trigger] entry_at(
            after,
            other,
            position,
        )).kind() is Branch implies {
        let child = entry_at(after, other, position).address();
        &&& grown.tree()[other].level > 0
        &&& child != grown.addr()
        &&& grown.tree().dom().contains(child)
        &&& grown.tree()[child] == TableNode {
            level: grown.tree()[other].level - 1,
            parent: other,
            index: position,
        }
    } by {
        if !(other == table && position == index) {
            assert(entry_at(before, other, position).kind() is Branch);
        }
    }
    assert(grown.wf(after));
    assert forall|address: usize|
        #![trigger lookup(after, root.addr(), address)]
        lookup(after, root.addr(), address) == lookup(before, root.addr(), address) by {
        lemma_walk_unchanged(root, grown, before, after, table, index, fresh, branch, address);
    }
    assert forall|address: usize, l: int|
        #![trigger table_at(after, root.addr(), address, l)]
        table_at(before, root.addr(), address, l) is Some implies table_at(
        after,
        root.addr(),
        address,
        l,
    ) == table_at(before, root.addr(), address, l) by {
        lemma_walk_unchanged(root, grown, before, after, table, index, fresh, branch, address);
    }
}

/// The walk for one address after a new, empty table was hung into an empty
/// entry: it reads the tables it read before, and ends as before.
#[verifier::spinoff_prover]
proof fn lemma_walk_unchanged(
    root: &PageTable,
    grown: &PageTable,
    before: &PhysicalMemory,
    after: &PhysicalMemory,
    table: usize,
    index: int,
    fresh: usize,
    branch: PageEntry,
    address: usize,
)
    requires
        root.wf(before),
        grown.wf(after),
        grown.addr() == root.addr(),
        root.tree().dom().contains(table),
        root.tree()[table].level > 0,
        0 <= index < 512,
        !entry_at(before, table, index).holds_valid(),
        !root.tree().dom().contains(fresh),
        branch.kind() == PageEntryType::Branch(fresh),
        forall|other: usize, position: int|
            root.tree().dom().contains(other) && 0 <= position < 512 ==> #[trigger] entry_at(
                after,
                other,
                position,
            ) == if other == table && position == index {
                branch
            } else {
                entry_at(before, other, position)
            },
        forall|position: int|
            0 <= position < 512 ==> #[trigger] entry_at(after, fresh, position) == PageEntry(0),
    ensures
        lookup(after, root.addr(), address) == lookup(before, root.addr(), address),
        forall|l: int|
            table_at(before, root.addr(), address, l) is Some ==> #[trigger] table_at(
                after,
                root.addr(),
                address,
                l,
            ) == table_at(before, root.addr(), address, l),
{
    assert(PageEntry(0).kind() is Invalid) by {
        assert(0u64 & 0x01 == 0) by (bit_vector);
    }
    lemma_vpn_range(address);
    let top = entry_at(before, root.addr(), vpn(address, 2));
    let top_after = entry_at(after, root.addr(), vpn(address, 2));
    if top.kind() is Branch {
        lemma_walk_in_tree(root, before, address, 1);
        let middle_table = top.address();
        let middle = entry_at(before, middle_table, vpn(address, 1));
        let middle_after = entry_at(after, middle_table, vpn(address, 1));
        if middle.kind() is Branch {
            lemma_walk_in_tree(root, before, address, 0);
            let low_table = middle.address();
            assert(entry_at(after, low_table, vpn(address, 0)) == entry_at(
                before,
                low_table,
                vpn(address, 0),
            ));
        } else if middle_table == table && vpn(address, 1) == index {
            assert(middle_after == branch);
            assert(entry_at(after, fresh, vpn(address, 0)) == PageEntry(0));
        }
    } else if root.addr() == table && vpn(address, 2) == index {
        assert(top_after == branch);
        assert(entry_at(after, fresh, vpn(address, 1)) == PageEntry(0));
    }
}

} // verus!
