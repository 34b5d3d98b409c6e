//! Page tables of three levels, Sv39 style: a tree of tables of 512 entries
//! in frames of the arena. `map` adds a leaf, `virtual_to_physical` walks to
//! one, and `unmap` gives frames of tables back.

pub mod entry;
pub mod flags;
pub mod level;
pub mod mapping;
pub mod table;
pub mod unmapping;
pub mod walk;

pub use entry::{PageEntry, PageEntryType};
pub use flags::PageEntryFlags;
pub use level::PageEntryLevel;
pub use table::{PageTable, PAGE_TABLE_LEN};
pub use unmapping::unmap;

use super::arena::PhysicalMemory;
use super::frames::BitmapAllocator;
use super::MemoryError;
use entry::vpn;
use mapping::{
    descended, grown, installed, lemma_frame_there, lemma_grown_ends, lemma_grown_starts,
    lemma_grown_steps, lemma_grown_stops, lemma_nothing_written, lemma_step_creates,
    lemma_step_leaves, lemma_turned_down, lemma_walk_ends, lemma_walk_holds, lemma_walk_starts,
    lemma_walk_steps, lemma_walk_stops, machine, map_outcome, mapped, maps, walking,
};
use table::{entry_at, lookup, translate, TableNode};
use vstd::prelude::*;
use walk::{
    lemma_leaf_written, lemma_table_words, lemma_vpn_range, lemma_walk_in_tree, same_page,
    table_at, table_start,
};

verus! {

/// Writes a leaf for `from_addr` into slot `index` of `table`, which the walk
/// for `address` reads at `level`, unless the slot is taken.
#[verifier::spinoff_prover]
fn install(
    memory: &mut PhysicalMemory,
    root: &PageTable,
    table: usize,
    index: usize,
    from_addr: usize,
    entry_flags: &PageEntryFlags,
    Ghost(address): Ghost<usize>,
    Ghost(level): Ghost<PageEntryLevel>,
) -> (result: Result<(), MemoryError>)
    requires
        root.wf(old(memory)),
        table_at(old(memory), root.addr(), address, level.number()) == Some(table),
        index == vpn(address, level.number()),
        entry_flags.describes_leaf(),
    ensures
        installed(
            root,
            old(memory),
            final(memory),
            table,
            index as int,
            from_addr,
            *entry_flags,
            address,
            level,
            result,
        ),
{
    reveal(installed);
    proof {
        lemma_vpn_range(address);
        lemma_walk_in_tree(root, memory, address, level.number());
        lemma_table_words(memory, table, index as int);
    }
    let slot: usize = table + 8 * index;
    let mut entry = PageEntry(memory.read(slot));
    if entry.is_valid() {
        return Err(MemoryError::AlreadyMapped);
    }
    let flags = PageEntryFlags(entry_flags.0 | 0x01);
    proof {
        let bits = entry_flags.0;
        assert((bits | 0x01) & 0x01 != 0 && ((bits | 0x01) & 0x0e != 0) == (bits & 0x0e != 0))
            by (bit_vector);
    }
    entry.set_flags(&flags);
    entry.set_ppn(from_addr);
    let ghost before = *memory;
    memory.write(slot, entry.0);
    proof {
        lemma_leaf_written(root, &before, memory, address, level, entry);
        assert(same_page(address, address, level));
    }
    Ok(())
}

/// Hangs a new, cleared table into the empty slot `index` of `table`, which
/// the walk for `address` reads at `level`, and returns its address.
#[verifier::spinoff_prover]
fn hang_table(
    memory: &mut PhysicalMemory,
    frames: &mut BitmapAllocator,
    root: &mut PageTable,
    table: usize,
    index: usize,
    needed: usize,
    Ghost(address): Ghost<usize>,
    Ghost(level): Ghost<int>,
) -> (result: Result<usize, MemoryError>)
    requires
        machine(old(memory), old(frames), old(root)).wf(),
        1 <= needed <= 2,
        1 <= level <= 2,
        table_at(old(memory), old(root).addr(), address, level) == Some(table),
        index == vpn(address, level),
        entry_at(old(memory), table, index as int).kind() is Invalid,
    ensures
        descended(
            machine(old(memory), old(frames), old(root)),
            machine(final(memory), final(frames), final(root)),
            table,
            index as int,
            address,
            level,
            needed as int,
            result,
        ),
{
    let ghost before = machine(memory, frames, root);
    proof {
        lemma_vpn_range(address);
        lemma_walk_in_tree(root, memory, address, level);
        lemma_table_words(memory, table, index as int);
    }
    // No table is hung in unless there is a frame for each that is missing
    if !frames.can_take(needed) {
        proof {
            lemma_step_leaves(
                before,
                before,
                table,
                index as int,
                address,
                level,
                needed as int,
                Err(MemoryError::AllocationExhausted),
            );
        }
        return Err(MemoryError::AllocationExhausted);
    }
    let slot: usize = table + 8 * index;
    let mut entry = PageEntry(memory.read(slot));
    let subtable: usize = match frames.zero_alloc(memory, 1, PageEntryLevel::KiB4) {
        Ok(subtable) => subtable,
        Err(error) => {
            proof {
                lemma_frame_there(old(frames), frames, needed as int, Err(error));
            }
            return Err(error);
        },
    };
    let ghost cleared = *memory;
    entry.set_flags(&PageEntryFlags::valid());
    entry.set_ppn(subtable);
    proof {
        assert(0x01u8 & 0x01 != 0 && 0x01u8 & 0x0e == 0) by (bit_vector);
    }
    memory.write(slot, entry.0);
    root.adopt(
        subtable,
        Ghost(TableNode { level: level - 1, parent: table, index: index as int }),
    );
    proof {
        lemma_step_creates(
            before,
            machine(memory, frames, root),
            &cleared,
            table,
            index as int,
            subtable,
            entry,
            address,
            level,
            needed as int,
        );
    }
    Ok(subtable)
}

/// The table that slot `index` of `table` leads to. Where the slot is empty,
/// a new, cleared table is hung into it first. `table` is the table that the
/// walk for `address` reads at `level`.
#[verifier::spinoff_prover]
fn descend(
    memory: &mut PhysicalMemory,
    frames: &mut BitmapAllocator,
    root: &mut PageTable,
    table: usize,
    index: usize,
    needed: usize,
    Ghost(address): Ghost<usize>,
    Ghost(level): Ghost<int>,
) -> (result: Result<usize, MemoryError>)
    requires
        machine(old(memory), old(frames), old(root)).wf(),
        1 <= needed <= 2,
        1 <= level <= 2,
        table_at(old(memory), old(root).addr(), address, level) == Some(table),
        index == vpn(address, level),
    ensures
        descended(
            machine(old(memory), old(frames), old(root)),
            machine(final(memory), final(frames), final(root)),
            table,
            index as int,
            address,
            level,
            needed as int,
            result,
        ),
{
    let ghost before = machine(memory, frames, root);
    proof {
        lemma_vpn_range(address);
        lemma_walk_in_tree(root, memory, address, level);
        lemma_table_words(memory, table, index as int);
    }
    let entry = PageEntry(memory.read(table + 8 * index));
    match entry.get_type() {
        PageEntryType::Leaf => {
            proof {
                lemma_step_leaves(
                    before,
                    before,
                    table,
                    index as int,
                    address,
                    level,
                    needed as int,
                    Err(MemoryError::StructuralInconsistency),
                );
            }
            Err(MemoryError::StructuralInconsistency)
        },
        PageEntryType::Branch(next_addr) => {
            proof {
                lemma_step_leaves(
                    before,
                    before,
                    table,
                    index as int,
                    address,
                    level,
                    needed as int,
                    Ok(next_addr),
                );
            }
            Ok(next_addr)
        },
        PageEntryType::Invalid => hang_table(
            memory,
            frames,
            root,
            table,
            index,
            needed,
            Ghost(address),
            Ghost(level),
        ),
    }
}

/// Maps the page of `level` at the virtual address `to_addr` to the physical
/// address `from_addr`, with the given flags and the valid bit.
///
/// Both addresses must lie on a page boundary of `level`, and the flags must
/// hold one of read, write and execute. The walk starts in the root and
/// takes the index of `to_addr` for each level: a branch leads one table
/// down, an empty entry above `level` gets a new, cleared table from `frames`
/// first, and a leaf above `level` stops the walk. At `level` the slot must
/// be empty, and it receives the leaf.
///
/// A call that fails writes nothing: not a word of the arena, not a frame.
/// It hangs in no table unless a frame is free for each table that the walk
/// lacks.
///
/// `mapped` states what the call has done, to the translations and word by
/// word; `lemma_mapped_holds` spells it out.
#[verifier::spinoff_prover]
pub fn map(
    memory: &mut PhysicalMemory,
    frames: &mut BitmapAllocator,
    root: &mut PageTable,
    from_addr: usize,
    to_addr: usize,
    entry_flags: &PageEntryFlags,
    level: PageEntryLevel,
) -> (result: Result<(), MemoryError>)
    requires
        old(root).wf(old(memory)),
        old(root).owned(old(frames)),
        old(frames).wf(),
        old(frames).within(old(memory)),
    ensures
        mapped(
            machine(old(memory), old(frames), old(root)),
            machine(final(memory), final(frames), final(root)),
            from_addr,
            to_addr,
            *entry_flags,
            level,
            result,
        ),
{
    let ghost start = machine(memory, frames, root);
    if level.assert_aligned(to_addr).is_err() || level.assert_aligned(from_addr).is_err() {
        proof {
            lemma_turned_down(start, from_addr, to_addr, *entry_flags, level);
            lemma_nothing_written(
                start,
                from_addr,
                to_addr,
                *entry_flags,
                level,
                MemoryError::MisalignedAddress,
            );
        }
        return Err(MemoryError::MisalignedAddress);
    }
    if !entry_flags.is_leaf() {
        proof {
            lemma_turned_down(start, from_addr, to_addr, *entry_flags, level);
            lemma_nothing_written(
                start,
                from_addr,
                to_addr,
                *entry_flags,
                level,
                MemoryError::StructuralInconsistency,
            );
        }
        return Err(MemoryError::StructuralInconsistency);
    }
    // Extract the parts of the VPN.
    let vpns = PageEntry::extract_vpns(to_addr);

    let mut table: usize = root.address();
    let mut current_level = PageEntryLevel::top();  // Start from the top level
    let ghost mut created: int = 0;
    proof {
        lemma_walk_starts(start, to_addr, level);
        lemma_grown_starts(start, to_addr);
    }

    // Traverse the page table (the root is expected to be valid, but the rest can be created)
    loop
        invariant
            start == machine(old(memory), old(frames), old(root)),
            walking(
                start,
                machine(memory, frames, root),
                table,
                current_level.number(),
                to_addr,
                level,
                created,
            ),
            grown(start, machine(memory, frames, root), to_addr, current_level.number(), created),
            level.aligned(to_addr),
            level.aligned(from_addr),
            entry_flags.describes_leaf(),
            vpns@[0] == vpn(to_addr, 0),
            vpns@[1] == vpn(to_addr, 1),
            vpns@[2] == vpn(to_addr, 2),
        decreases current_level.number(),
    {
        let ghost now = machine(memory, frames, root);
        proof {
            lemma_walk_holds(start, now, table, current_level.number(), to_addr, level, created);
        }
        let vpn: usize = vpns[current_level.val()];
        if current_level == level {
            let result = install(
                memory,
                root,
                table,
                vpn,
                from_addr,
                entry_flags,
                Ghost(to_addr),
                Ghost(level),
            );
            proof {
                let end = machine(memory, frames, root);
                lemma_walk_ends(
                    start,
                    now,
                    end,
                    table,
                    from_addr,
                    to_addr,
                    *entry_flags,
                    level,
                    created,
                    result,
                );
                lemma_grown_ends(
                    start,
                    now,
                    end,
                    table,
                    from_addr,
                    to_addr,
                    *entry_flags,
                    level,
                    created,
                    result,
                );
            }
            return result;
        }
        match descend(
            memory,
            frames,
            root,
            table,
            vpn,
            current_level.val() - level.val(),
            Ghost(to_addr),
            Ghost(current_level.number()),
        ) {
            Ok(next) => {
                proof {
                    let after = machine(memory, frames, root);
                    lemma_walk_steps(
                        start,
                        now,
                        after,
                        table,
                        current_level.number(),
                        to_addr,
                        level,
                        created,
                        next,
                    );
                    lemma_grown_steps(
                        start,
                        now,
                        after,
                        table,
                        current_level.number(),
                        to_addr,
                        level,
                        created,
                        next,
                    );
                    created = created + if entry_at(&now.memory, table, vpn as int).kind()
                        is Invalid {
                        1int
                    } else {
                        0int
                    };
                }
                table = next;
            },
            Err(error) => {
                proof {
                    let after = machine(memory, frames, root);
                    lemma_walk_stops(
                        start,
                        now,
                        after,
                        table,
                        current_level.number(),
                        from_addr,
                        to_addr,
                        *entry_flags,
                        level,
                        created,
                        error,
                    );
                    lemma_grown_stops(
                        start,
                        now,
                        after,
                        table,
                        current_level.number(),
                        from_addr,
                        to_addr,
                        *entry_flags,
                        level,
                        created,
                        error,
                    );
                }
                return Err(error);
            },
        }
        current_level = match current_level.next_level() {
            Some(lower) => lower,
            None => {
                // There is no page size smaller than 4KiB
                proof {
                    lemma_nothing_written(
                        start,
                        from_addr,
                        to_addr,
                        *entry_flags,
                        level,
                        MemoryError::StructuralInconsistency,
                    );
                }
                return Err(MemoryError::StructuralInconsistency);
            },
        };
    }
}

/// Convert a virtual address to a physical address by walking the page table.
/// Returns the address that the leaf for `virtual_addr` names, and `None`
/// where the walk meets an empty entry before it meets a leaf.
#[verifier::spinoff_prover]
pub fn virtual_to_physical(memory: &PhysicalMemory, root: &PageTable, virtual_addr: usize) -> (found:
    Option<usize>)
    requires
        root.wf(memory),
    ensures
        found == translate(memory, root.addr(), virtual_addr),
{
    let mut table: usize = root.address();
    let mut current_level = PageEntryLevel::top();

    // Extract the parts of the VPN.
    let vpns = PageEntry::extract_vpns(virtual_addr);
    proof {
        lemma_vpn_range(virtual_addr);
    }

    // Traverse the page table
    loop
        invariant
            root.wf(memory),
            table_at(memory, root.addr(), virtual_addr, current_level.number()) == Some(table),
            vpns@[0] == vpn(virtual_addr, 0),
            vpns@[1] == vpn(virtual_addr, 1),
            vpns@[2] == vpn(virtual_addr, 2),
            forall|l: int| 0 <= #[trigger] vpn(virtual_addr, l) < 512,
        decreases current_level.number(),
    {
        proof {
            lemma_walk_in_tree(root, memory, virtual_addr, current_level.number());
            lemma_table_words(memory, table, vpn(virtual_addr, current_level.number()));
        }
        // The current entry that we're on (can be level 2, 1 or 0)
        let entry = PageEntry(memory.read(table + 8 * vpns[current_level.val()]));

        match entry.get_type() {
            PageEntryType::Leaf => {
                return Some(entry.get_ppn());
            },
            PageEntryType::Branch(next_addr) => {
                table = next_addr;
            },
            PageEntryType::Invalid => {
                return None;
            },
        }
        current_level = match current_level.next_level() {
            Some(lower) => lower,
            None => {
                return None;
            },
        };
    }
}

/// Takes one frame from `frames`, clears it and makes it the root of a new
/// tree, in which no address is mapped: the 512 words of the frame are 0,
/// and every other word of the arena is what it was.
#[verifier::spinoff_prover]
pub fn create_root_table(memory: &mut PhysicalMemory, frames: &mut BitmapAllocator) -> (result:
    Result<PageTable, MemoryError>)
    requires
        old(memory).wf(),
        old(frames).wf(),
        old(frames).within(old(memory)),
    ensures
        final(memory).wf(),
        final(frames).wf(),
        final(frames).within(final(memory)),
        match result {
            Ok(root) => {
                &&& BitmapAllocator::allocates(
                    old(frames),
                    final(frames),
                    1,
                    PageEntryLevel::KiB4,
                    Ok(root.addr()),
                )
                &&& root.wf(final(memory))
                &&& root.owned(final(frames))
                &&& root.tree().dom() == Set::<usize>::empty().insert(root.addr())
                &&& old(memory).holds_frame(root.addr() as int)
                &&& old(memory).same_outside(final(memory), root.addr() as int, 0x1000)
                &&& forall|i: int|
                    table_start(old(memory), root.addr()) <= i < table_start(
                        old(memory),
                        root.addr(),
                    ) + 512 ==> #[trigger] final(memory).words()[i] == 0
                &&& forall|address: usize|
                    #![trigger lookup(final(memory), root.addr(), address)]
                    lookup(final(memory), root.addr(), address) is None
            },
            Err(error) => {
                &&& BitmapAllocator::allocates(
                    old(frames),
                    final(frames),
                    1,
                    PageEntryLevel::KiB4,
                    Err(error),
                )
                &&& final(memory).words() == old(memory).words()
                &&& final(memory).base() == old(memory).base()
            },
        },
{
    let table: usize = frames.zero_alloc(memory, 1, PageEntryLevel::KiB4)?;
    let root = PageTable::rooted(table);
    proof {
        super::frames::lemma_allocated_run(old(frames), frames, 1, PageEntryLevel::KiB4, table);
        let frame = old(frames).frame_of(table as int);
        assert(frames.bits()[frame]);
        assert(table as int == 0x1000 * (table as int / 0x1000));
        assert(old(memory).holds_frame(table as int));
        lemma_table_words(old(memory), table, 0);
        assert(PageEntry(0).kind() is Invalid) by {
            assert(0u64 & 0x01 == 0) by (bit_vector);
        }
        assert forall|position: int| 0 <= position < 512 implies #[trigger] entry_at(
            memory,
            table,
            position,
        ) == PageEntry(0) by {
            walk::lemma_entry_after_zero(old(memory), memory, table, table, position);
        }
        assert(root.tree().dom() =~= Set::<usize>::empty().insert(table));
        assert forall|address: usize|
            #![trigger lookup(memory, root.addr(), address)]
            lookup(memory, root.addr(), address) is None by {
            lemma_vpn_range(address);
        }
    }
    Ok(root)
}

/// After a successful `map` of a physical address that an entry can hold,
/// every address in the mapped page translates to that physical address: so
/// `virtual_to_physical` finds what `map` was given, at each of the three
/// levels and whatever tables the walk had to create.
#[verifier::spinoff_prover]
pub proof fn lemma_map_then_translate(
    before: &PhysicalMemory,
    after: &PhysicalMemory,
    root: usize,
    from_addr: usize,
    to_addr: usize,
    flags: PageEntryFlags,
    level: PageEntryLevel,
    address: usize,
)
    requires
        maps(before, after, root, from_addr, to_addr, flags, level, Ok(())),
        level.aligned(from_addr),
        from_addr < super::arena::ADDRESS_SPACE,
        same_page(address, to_addr, level),
    ensures
        translate(after, root, address) == Some(from_addr),
        translate(after, root, to_addr) == Some(from_addr),
{
    entry::lemma_address_field(from_addr as u64);
    level::lemma_page_boundary_is_frame_boundary(level, from_addr);
    let leaf = lookup(after, root, to_addr)->Some_0;
    assert(leaf.address() as u64 == from_addr as u64);
    assert(lookup(after, root, address) == lookup(after, root, to_addr));
}

/// After a successful `map`, a second `map` of the same virtual address at
/// the same level fails, for the slot is taken, whatever physical address
/// and flags it brings.
#[verifier::spinoff_prover]
pub proof fn lemma_map_twice(
    before: &PhysicalMemory,
    after: &PhysicalMemory,
    frames: &BitmapAllocator,
    root: usize,
    from_addr: usize,
    to_addr: usize,
    flags: PageEntryFlags,
    level: PageEntryLevel,
    second_from: usize,
    second_flags: PageEntryFlags,
)
    requires
        maps(before, after, root, from_addr, to_addr, flags, level, Ok(())),
        level.aligned(to_addr),
        level.aligned(second_from),
        second_flags.describes_leaf(),
    ensures
        map_outcome(after, frames, root, second_from, to_addr, second_flags, level) == Err::<
            (),
            MemoryError,
        >(MemoryError::AlreadyMapped),
{
    let number = level.number();
    let table = table_at(after, root, to_addr, number)->Some_0;
    let leaf = entry_at(after, table, vpn(to_addr, number));
    assert(lookup(after, root, to_addr) == Some(leaf));
    assert(leaf.kind() is Leaf);
    assert(leaf.holds_valid());
}

} // verus!
