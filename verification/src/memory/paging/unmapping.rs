//! Giving the frames of tables back to the frame allocator.

use super::level::PageEntryLevel;
use super::table::{entry_at, PageTable};
use super::walk::{lemma_table_words};
use super::{PageEntry, PAGE_TABLE_LEN};
use crate::memory::arena::PhysicalMemory;
use crate::memory::frames::{released_bits, BitmapAllocator};
use crate::memory::MemoryError;
use vstd::prelude::*;

verus! {

/// The steps that `unmap` takes for one slot of the table: one for each entry
/// of the table below it, and one for that table itself.
pub const STEPS_PER_SLOT: usize = 513;

/// The release that `unmap` makes at step `step` for slot `slot` of the table
/// at `table`, if it makes one. Where the slot holds a branch, each of the
/// first 512 steps releases the frame that the entry of that number in the
/// table below names, if that entry is a branch, as one frame; the last step
/// releases the frame of the table below itself, as one page of 2 MiB.
pub open spec fn release_at(memory: &PhysicalMemory, table: usize, slot: int, step: int) -> Option<
    (usize, PageEntryLevel),
> {
    let top = entry_at(memory, table, slot);
    if top.holds_valid() && !top.holds_access() {
        if step < 512 {
            let low = entry_at(memory, top.address(), step);
            if low.holds_valid() && !low.holds_access() {
                Some((low.address(), PageEntryLevel::KiB4))
            } else {
                None
            }
        } else {
            Some((top.address(), PageEntryLevel::MiB2))
        }
    } else {
        None
    }
}

/// The steps that `unmap` takes in all: 513 for each of the 512 slots.
pub open spec fn all_steps() -> int {
    262_656
}

/// How `unmap` ends, and with which bits, when it finds the bits `bits` before
/// the step of number `position`. Steps count through the slots of the
/// table, 513 to a slot, and each release is made as `dealloc` makes it, in a
/// region of `frames` frames from `start` on. The first release that fails
/// ends the walk and leaves the bits as the releases before it have left them.
pub open spec fn unmap_outcome(
    memory: &PhysicalMemory,
    table: usize,
    start: usize,
    frames: int,
    bits: Seq<bool>,
    position: int,
) -> (Seq<bool>, Result<(), MemoryError>)
    decreases all_steps() - position,
{
    if position >= all_steps() {
        (bits, Ok(()))
    } else {
        match release_at(memory, table, position / 513, position % 513) {
            None => unmap_outcome(memory, table, start, frames, bits, position + 1),
            Some((address, level)) => match released_bits(start, frames, bits, address, 1, level) {
                Ok(cleared) => unmap_outcome(memory, table, start, frames, cleared, position + 1),
                Err(error) => (bits, Err(error)),
            },
        }
    }
}

/// Unmap and free all of the memory of this table (doesn't have to be root).
///
/// Goes through the slots of the table. For each branch it releases the
/// frames that the branches of the table below name, each as one frame, and
/// then the frame of the table below, as one page of 2 MiB. No entry is
/// cleared. The first release that fails ends the walk with its error.
#[verifier::spinoff_prover]
pub fn unmap(memory: &PhysicalMemory, frames: &mut BitmapAllocator, table: &PageTable) -> (result:
    Result<(), MemoryError>)
    requires
        table.wf(memory),
        old(frames).wf(),
    ensures
        final(frames).wf(),
        final(frames).start() == old(frames).start(),
        final(frames).end() == old(frames).end(),
        (final(frames).bits(), result) == unmap_outcome(
            memory,
            table.addr(),
            old(frames).start(),
            old(frames).num_frames(),
            old(frames).bits(),
            0,
        ),
{
    let root: usize = table.address();
    let mut level2: usize = 0;
    while level2 < PAGE_TABLE_LEN
        invariant
            table.wf(memory),
            root == table.addr(),
            frames.wf(),
            level2 <= 512,
            frames.start() == old(frames).start(),
            frames.end() == old(frames).end(),
            finishes_alike(memory, root, old(frames), frames, 513 * level2),
        decreases 512 - level2,
    {
        proof {
            lemma_table_words(memory, root, level2 as int);
        }
        let entry_level2 = PageEntry(memory.read(root + 8 * level2));
        if entry_level2.is_valid() && entry_level2.is_branch() {
            // This is a branch, free all of the other entries
            let ptr_level1: usize = entry_level2.get_ppn();
            let mut level1: usize = 0;
            while level1 < PAGE_TABLE_LEN
                invariant
                    table.wf(memory),
                    root == table.addr(),
                    frames.wf(),
                    level2 < 512,
                    level1 <= 512,
                    entry_level2 == entry_at(memory, root, level2 as int),
                    entry_level2.holds_valid() && !entry_level2.holds_access(),
                    ptr_level1 == entry_level2.address(),
                    frames.start() == old(frames).start(),
                frames.end() == old(frames).end(),
                finishes_alike(memory, root, old(frames), frames, 513 * level2 + level1),
                decreases 512 - level1,
            {
                proof {
                    assert(table.tree().dom().contains(root));
                    assert(entry_at(memory, root, level2 as int).kind() is Branch);
                    assert(table.tree().dom().contains(ptr_level1));
                    lemma_table_words(memory, ptr_level1, level1 as int);
                }
                let entry_level1 = PageEntry(memory.read(ptr_level1 + 8 * level1));
                let ghost between = *frames;
                let ghost position = 513 * level2 + level1;
                if entry_level1.is_valid() && entry_level1.is_branch() {
                    // This is a branch, free all of the other entries
                    let ptr_level0: usize = entry_level1.get_ppn();
                    let released = frames.dealloc(ptr_level0, 1, PageEntryLevel::KiB4);
                    proof {
                        assert(position / 513 == level2 && position % 513 == level1);
                        lemma_step_taken(
                            memory,
                            root,
                            old(frames),
                            &between,
                            frames,
                            position,
                            released,
                        );
                    }
                    if let Err(error) = released {
                        return Err(error);
                    }
                } else {
                    proof {
                        assert(position / 513 == level2 && position % 513 == level1);
                        lemma_step_taken(memory, root, old(frames), &between, frames, position, Ok(()));
                    }
                }
                level1 += 1;
            }
            let ghost between = *frames;
            let ghost position = 513 * level2 + 512;
            let released = frames.dealloc(ptr_level1, 1, PageEntryLevel::MiB2);
            proof {
                assert(position / 513 == level2 && position % 513 == 512);
                lemma_step_taken(memory, root, old(frames), &between, frames, position, released);
            }
            if let Err(error) = released {
                return Err(error);
            }
        } else {
            proof {
                lemma_slot_skipped(memory, root, old(frames), frames, level2 as int, 513);
            }
        }
        level2 += 1;
    }
    Ok(())
}

/// Whether `unmap` ends from the bits of `now` before step `position` as it
/// ends from the bits of `before` before the first step.
pub open spec fn finishes_alike(
    memory: &PhysicalMemory,
    table: usize,
    before: &BitmapAllocator,
    now: &BitmapAllocator,
    position: int,
) -> bool {
    unmap_outcome(memory, table, before.start(), before.num_frames(), now.bits(), position)
        == unmap_outcome(memory, table, before.start(), before.num_frames(), before.bits(), 0)
}

/// One more step of `unmap`: a release that succeeds, or none, lets it go
/// on, and a release that fails ends it.
#[verifier::spinoff_prover]
proof fn lemma_step_taken(
    memory: &PhysicalMemory,
    table: usize,
    before: &BitmapAllocator,
    between: &BitmapAllocator,
    after: &BitmapAllocator,
    position: int,
    result: Result<(), MemoryError>,
)
    requires
        0 <= position < all_steps(),
        between.start() == before.start(),
        between.end() == before.end(),
        finishes_alike(memory, table, before, between, position),
        match release_at(memory, table, position / 513, position % 513) {
            None => result is Ok && after.bits() == between.bits(),
            Some((address, level)) => BitmapAllocator::releases(
                between,
                after,
                address,
                1,
                level,
                result,
            ),
        },
    ensures
        result is Ok ==> finishes_alike(memory, table, before, after, position + 1),
        result matches Err(error) ==> (after.bits(), Err::<(), MemoryError>(error))
            == unmap_outcome(
            memory,
            table,
            before.start(),
            before.num_frames(),
            before.bits(),
            0,
        ),
{
    match release_at(memory, table, position / 513, position % 513) {
        None => {},
        Some((address, level)) => {
            crate::memory::frames::lemma_release_outcome(between, after, address, 1, level, result);
        },
    }
}

/// A slot that holds no branch takes its 513 steps without a release.
#[verifier::spinoff_prover]
proof fn lemma_slot_skipped(
    memory: &PhysicalMemory,
    table: usize,
    before: &BitmapAllocator,
    now: &BitmapAllocator,
    slot: int,
    step: int,
)
    requires
        0 <= slot < 512,
        0 <= step <= 513,
        now.start() == before.start(),
        now.end() == before.end(),
        !(entry_at(memory, table, slot).holds_valid() && !entry_at(
            memory,
            table,
            slot,
        ).holds_access()),
        finishes_alike(memory, table, before, now, 513 * slot),
    ensures
        finishes_alike(memory, table, before, now, 513 * slot + step),
    decreases step,
{
    if step > 0 {
        lemma_slot_skipped(memory, table, before, now, slot, step - 1);
        let position = 513 * slot + step - 1;
        assert(position / 513 == slot && position % 513 == step - 1);
        lemma_step_taken(memory, table, before, now, now, position, Ok(()));
    }
}

} // verus!
