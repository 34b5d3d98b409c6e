//! The regions of the kernel and their mapping at start-up.

use super::arena::PhysicalMemory;
use super::consts::{
    BSS_END, BSS_START, DATA_END, DATA_START, HEAP_END, HEAP_START, RODATA_END, RODATA_START,
    STACK_END, STACK_START, TEXT_END, TEXT_START,
};
use super::frames::BitmapAllocator;
use super::identity::{
    holds_identity, identity_map_range, identity_mapped, is_page, lemma_identity_kept, page_start,
};
use super::paging::mapping::{lemma_grows_on, machine, map_outcome, Machine};
use super::paging::entry::vpn;
use super::paging::table::{lookup, translate};
use super::paging::walk::same_page;
use super::paging::{PageEntryFlags, PageEntryLevel, PageTable};
use super::MemoryError;
use vstd::prelude::*;

verus! {

/// The regions of the kernel, lowest first: where each starts and ends, and
/// the flags of its pages. Text can be read and executed, constants can be
/// read, and data, zeroed data, stack and heap can be read and written.
/// Every page counts as accessed and dirty from the start.
pub open spec fn kernel_region(index: int) -> (usize, usize, PageEntryFlags) {
    if index == 0 {
        (TEXT_START, TEXT_END, PageEntryFlags(0xca))
    } else if index == 1 {
        (RODATA_START, RODATA_END, PageEntryFlags(0xc2))
    } else if index == 2 {
        (DATA_START, DATA_END, PageEntryFlags(0xc6))
    } else if index == 3 {
        (BSS_START, BSS_END, PageEntryFlags(0xc6))
    } else if index == 4 {
        (STACK_START, STACK_END, PageEntryFlags(0xc6))
    } else {
        (HEAP_START, HEAP_END, PageEntryFlags(0xc6))
    }
}

/// Whether `after` is `before` with the first `count` regions of the kernel
/// mapped to themselves, in pages of 4 KiB: each page of these regions holds
/// its identity with the flags of its region, and every address outside the
/// pages of the kernel leads where it led before.
pub open spec fn kernel_mapped(
    before: &PhysicalMemory,
    after: &PhysicalMemory,
    root: usize,
    count: int,
) -> bool {
    &&& forall|index: int, page: usize|
        #![trigger is_page(page, kernel_region(index).0 as int, kernel_region(index).1 as int, PageEntryLevel::KiB4)]
        0 <= index < count && is_page(
            page,
            kernel_region(index).0 as int,
            kernel_region(index).1 as int,
            PageEntryLevel::KiB4,
        ) ==> holds_identity(after, root, page, kernel_region(index).2, PageEntryLevel::KiB4)
    &&& forall|address: usize|
        #![trigger lookup(after, root, address)]
        (forall|page: usize| #[trigger]
            is_page(page, TEXT_START as int, HEAP_END as int, PageEntryLevel::KiB4) ==> !same_page(
                address,
                page,
                PageEntryLevel::KiB4,
            )) ==> lookup(after, root, address) == lookup(before, root, address)
}

/// The region of the kernel that holds `address`, for an address below the
/// end of the heap.
pub open spec fn region_of(address: usize) -> int {
    if address < TEXT_END {
        0
    } else if address < RODATA_END {
        1
    } else if address < DATA_END {
        2
    } else if address < BSS_END {
        3
    } else if address < STACK_END {
        4
    } else {
        5
    }
}

/// Once the kernel is mapped, every address of its regions translates to the
/// start of its own page.
pub proof fn lemma_kernel_translates(
    before: &PhysicalMemory,
    after: &PhysicalMemory,
    root: usize,
    address: usize,
)
    requires
        kernel_mapped(before, after, root, 6),
        address < HEAP_END,
    ensures
        translate(after, root, address) == Some((address / 0x1000 * 0x1000) as usize),
{
    let level = PageEntryLevel::KiB4;
    let page = (address / 0x1000 * 0x1000) as usize;
    let index = region_of(address);
    assert(page as int / 0x1000 == address as int / 0x1000);
    assert(page as int / 0x20_0000 == 0 && address as int / 0x20_0000 == 0);
    assert(page as int / 0x4000_0000 == 0 && address as int / 0x4000_0000 == 0);
    assert(same_page(address, page, level)) by {
        assert forall|l: int| level.number() <= l <= 2 implies #[trigger] vpn(address, l) == vpn(
            page,
            l,
        ) by {}
    }
    assert(is_page(page, kernel_region(index).0 as int, kernel_region(index).1 as int, level));
    super::identity::lemma_identity_translates(
        after,
        root,
        page,
        address,
        kernel_region(index).2,
        level,
    );
}

/// What holds while the kernel is mapped region by region.
#[verifier::opaque]
pub open spec fn kernel_upto(first: Machine, now: Machine, count: int) -> bool {
    &&& now.wf()
    &&& first.grows_to(now)
    &&& kernel_mapped(&first.memory, &now.memory, first.root.addr(), count)
}

/// Whether the mapping of the kernel has stopped with `error`, at a page of
/// the region of number `index`: the pages of the region below that page
/// are mapped, and `map` fails for that page with the error.
pub open spec fn kernel_stopped(now: Machine, index: int, error: MemoryError) -> bool {
    exists|failed: usize|
        {
            &&& #[trigger] is_page(
                failed,
                kernel_region(index).0 as int,
                kernel_region(index).1 as int,
                PageEntryLevel::KiB4,
            )
            &&& forall|page: usize| #[trigger]
                is_page(page, kernel_region(index).0 as int, failed as int, PageEntryLevel::KiB4)
                    ==> holds_identity(
                    &now.memory,
                    now.root.addr(),
                    page,
                    kernel_region(index).2,
                    PageEntryLevel::KiB4,
                )
            &&& map_outcome(
                &now.memory,
                &now.frames,
                now.root.addr(),
                failed,
                failed,
                kernel_region(index).2,
                PageEntryLevel::KiB4,
            ) == Err::<(), MemoryError>(error)
        }
}

/// Whether the mapping of the kernel has failed with `error` in the region
/// of number `index`: the regions before it are mapped, and the region is
/// mapped up to the page at which the mapping has stopped.
pub open spec fn kernel_failed(first: Machine, now: Machine, index: int, error: MemoryError) -> bool {
    &&& kernel_mapped(&first.memory, &now.memory, first.root.addr(), index)
    &&& kernel_stopped(now, index, error)
}

/// What `kernel_upto` says, spelled out.
#[verifier::spinoff_prover]
proof fn lemma_kernel_holds(first: Machine, now: Machine, count: int)
    requires
        kernel_upto(first, now, count),
    ensures
        now.wf(),
        first.grows_to(now),
        kernel_mapped(&first.memory, &now.memory, first.root.addr(), count),
{
    reveal(kernel_upto);
}

/// What holds before the first region is mapped.
#[verifier::spinoff_prover]
proof fn lemma_kernel_starts(first: Machine)
    requires
        first.wf(),
    ensures
        kernel_upto(first, first, 0),
{
    super::paging::mapping::lemma_grows_to_self(first);
    reveal(kernel_upto);
}

/// One more region: what holds after the pages of the region of number
/// `index` were mapped to themselves, after the regions before it.
#[verifier::spinoff_prover]
proof fn lemma_kernel_next(first: Machine, before: Machine, after: Machine, index: int)
    requires
        0 <= index < 6,
        kernel_upto(first, before, index),
        after.wf(),
        before.grows_to(after),
        identity_mapped(
            &before.memory,
            &after.memory,
            before.root.addr(),
            kernel_region(index).0 as int,
            kernel_region(index).1 as int,
            kernel_region(index).2,
            PageEntryLevel::KiB4,
        ),
    ensures
        kernel_upto(first, after, index + 1),
{
    reveal(kernel_upto);
    let level = PageEntryLevel::KiB4;
    let root = first.root.addr();
    lemma_grows_on(first, before, after);
    assert forall|other: int, page: usize|
        #![trigger is_page(page, kernel_region(other).0 as int, kernel_region(other).1 as int, level)]
        0 <= other < index + 1 && is_page(
            page,
            kernel_region(other).0 as int,
            kernel_region(other).1 as int,
            level,
        ) implies holds_identity(&after.memory, root, page, kernel_region(other).2, level) by {
        if other < index {
            lemma_identity_kept(before, after, page, kernel_region(other).2, level);
        }
    }
    assert forall|address: usize|
        #![trigger lookup(&after.memory, root, address)]
        (forall|page: usize| #[trigger]
            is_page(page, TEXT_START as int, HEAP_END as int, level) ==> !same_page(
                address,
                page,
                level,
            )) implies lookup(&after.memory, root, address) == lookup(
        &first.memory,
        root,
        address,
    ) by {
        assert forall|page: usize| #[trigger]
            is_page(
                page,
                kernel_region(index).0 as int,
                kernel_region(index).1 as int,
                level,
            ) implies !same_page(address, page, level) by {
            assert(is_page(page, TEXT_START as int, HEAP_END as int, level));
        }
        assert(lookup(&before.memory, root, address) == lookup(&first.memory, root, address));
    }
}

/// A region that was mapped in part: the regions before it stay mapped, and
/// nothing outside the pages of the kernel has changed.
#[verifier::spinoff_prover]
proof fn lemma_kernel_stays(
    first: Machine,
    before: Machine,
    after: Machine,
    index: int,
    failed: usize,
)
    requires
        0 <= index < 6,
        kernel_upto(first, before, index),
        after.wf(),
        before.grows_to(after),
        is_page(
            failed,
            kernel_region(index).0 as int,
            kernel_region(index).1 as int,
            PageEntryLevel::KiB4,
        ),
        identity_mapped(
            &before.memory,
            &after.memory,
            before.root.addr(),
            kernel_region(index).0 as int,
            failed as int,
            kernel_region(index).2,
            PageEntryLevel::KiB4,
        ),
    ensures
        kernel_upto(first, after, index),
{
    reveal(kernel_upto);
    let level = PageEntryLevel::KiB4;
    let root = first.root.addr();
    lemma_grows_on(first, before, after);
    assert forall|other: int, page: usize|
        #![trigger is_page(page, kernel_region(other).0 as int, kernel_region(other).1 as int, level)]
        0 <= other < index && is_page(
            page,
            kernel_region(other).0 as int,
            kernel_region(other).1 as int,
            level,
        ) implies holds_identity(&after.memory, root, page, kernel_region(other).2, level) by {
        lemma_identity_kept(before, after, page, kernel_region(other).2, level);
    }
    assert forall|address: usize|
        #![trigger lookup(&after.memory, root, address)]
        (forall|page: usize| #[trigger]
            is_page(page, TEXT_START as int, HEAP_END as int, level) ==> !same_page(
                address,
                page,
                level,
            )) implies lookup(&after.memory, root, address) == lookup(
        &first.memory,
        root,
        address,
    ) by {
        assert forall|page: usize| #[trigger]
            is_page(page, kernel_region(index).0 as int, failed as int, level) implies !same_page(
            address,
            page,
            level,
        ) by {
            assert(is_page(page, TEXT_START as int, HEAP_END as int, level));
        }
        assert(lookup(&before.memory, root, address) == lookup(&first.memory, root, address));
    }
}

/// Maps the pages of one region of the kernel to themselves, with the flags
/// of the region and as accessed and dirty.
#[verifier::spinoff_prover]
fn map_region(
    memory: &mut PhysicalMemory,
    frames: &mut BitmapAllocator,
    root: &mut PageTable,
    start: usize,
    end: usize,
    flags: PageEntryFlags,
    Ghost(first): Ghost<Machine>,
    Ghost(index): Ghost<int>,
) -> (result: Result<(), MemoryError>)
    requires
        0 <= index < 6,
        start == kernel_region(index).0,
        end == kernel_region(index).1,
        PageEntryFlags(flags.0 | 0xc0) == kernel_region(index).2,
        kernel_upto(first, machine(old(memory), old(frames), old(root)), index),
    ensures
        final(root).wf(final(memory)),
        final(root).owned(final(frames)),
        final(frames).wf(),
        final(frames).within(final(memory)),
        first.grows_to(machine(final(memory), final(frames), final(root))),
        match result {
            Ok(()) => kernel_upto(
                first,
                machine(final(memory), final(frames), final(root)),
                index + 1,
            ),
            Err(error) => kernel_failed(
                first,
                machine(final(memory), final(frames), final(root)),
                index,
                error,
            ),
        },
{
    let ghost before = machine(memory, frames, root);
    proof {
        lemma_kernel_holds(first, before, index);
        assert(page_start(start, PageEntryLevel::KiB4) == start);
        assert(page_start(end, PageEntryLevel::KiB4) == end);
    }
    let result = identity_map_range(
        memory,
        frames,
        root,
        start,
        end,
        flags | PageEntryFlags::accessed_dirty(),
        PageEntryLevel::from_size(end - start),
    );
    proof {
        let after = machine(memory, frames, root);
        lemma_grows_on(first, before, after);
        if result is Ok {
            lemma_kernel_next(first, before, after, index);
        } else {
            let failed = choose|failed: usize|
                {
                    &&& #[trigger] is_page(failed, start as int, end as int, PageEntryLevel::KiB4)
                    &&& identity_mapped(
                        &before.memory,
                        &after.memory,
                        before.root.addr(),
                        start as int,
                        failed as int,
                        PageEntryFlags(flags.0 | 0xc0),
                        PageEntryLevel::KiB4,
                    )
                    &&& map_outcome(
                        &after.memory,
                        &after.frames,
                        before.root.addr(),
                        failed,
                        failed,
                        PageEntryFlags(flags.0 | 0xc0),
                        PageEntryLevel::KiB4,
                    ) == Err::<(), MemoryError>(result->Err_0)
                };
            lemma_kernel_stays(first, before, after, index, failed);
            lemma_kernel_holds(first, after, index);
            assert(is_page(
                failed,
                kernel_region(index).0 as int,
                kernel_region(index).1 as int,
                PageEntryLevel::KiB4,
            ));
            assert(kernel_stopped(after, index, result->Err_0));
        }
    }
    result
}

/// Maps the regions of the kernel to themselves, in pages of 4 KiB and the
/// lowest region first: text, constants, data, zeroed data, stack and heap.
/// The first page that cannot be mapped ends the work with its error; the
/// pages before it stay mapped. What `grows_to` says holds of the whole
/// work: no slot is cleared or written twice, a new table starts with
/// cleared words, every word outside the tables of the tree stays, and
/// frames are taken for new tables alone.
#[verifier::spinoff_prover]
pub fn map_kernel(
    memory: &mut PhysicalMemory,
    frames: &mut BitmapAllocator,
    root: &mut PageTable,
) -> (result: Result<(), MemoryError>)
    requires
        old(root).wf(old(memory)),
        old(root).owned(old(frames)),
        old(frames).wf(),
        old(frames).within(old(memory)),
    ensures
        final(root).wf(final(memory)),
        final(root).owned(final(frames)),
        final(frames).wf(),
        final(frames).within(final(memory)),
        machine(old(memory), old(frames), old(root)).grows_to(
            machine(final(memory), final(frames), final(root)),
        ),
        match result {
            Ok(()) => kernel_mapped(old(memory), final(memory), old(root).addr(), 6),
            Err(error) => exists|index: int|
                0 <= index < 6 && #[trigger] kernel_failed(
                    machine(old(memory), old(frames), old(root)),
                    machine(final(memory), final(frames), final(root)),
                    index,
                    error,
                ),
        },
{
    let ghost first = machine(memory, frames, root);
    proof {
        lemma_kernel_starts(first);
        assert(0x0au8 | 0xc0 == 0xca && 0x02u8 | 0xc0 == 0xc2 && 0x06u8 | 0xc0 == 0xc6)
            by (bit_vector);
    }
    // Map text (code)
    map_region(
        memory,
        frames,
        root,
        TEXT_START,
        TEXT_END,
        PageEntryFlags::read_execute(),
        Ghost(first),
        Ghost(0),
    )?;
    // Map read-only-data (constants)
    map_region(
        memory,
        frames,
        root,
        RODATA_START,
        RODATA_END,
        PageEntryFlags::read(),
        Ghost(first),
        Ghost(1),
    )?;
    // Map data (initialized variables)
    map_region(
        memory,
        frames,
        root,
        DATA_START,
        DATA_END,
        PageEntryFlags::read_write(),
        Ghost(first),
        Ghost(2),
    )?;
    // Map block-starting-symbol (zero-initialized variables)
    map_region(
        memory,
        frames,
        root,
        BSS_START,
        BSS_END,
        PageEntryFlags::read_write(),
        Ghost(first),
        Ghost(3),
    )?;
    // Map stack
    map_region(
        memory,
        frames,
        root,
        STACK_START,
        STACK_END,
        PageEntryFlags::read_write(),
        Ghost(first),
        Ghost(4),
    )?;
    // Map heap
    map_region(
        memory,
        frames,
        root,
        HEAP_START,
        HEAP_END,
        PageEntryFlags::read_write(),
        Ghost(first),
        Ghost(5),
    )?;
    proof {
        lemma_kernel_holds(first, machine(memory, frames, root), 6);
    }
    Ok(())
}

} // verus!
