//! Mapping a range of addresses to itself, page by page.

use super::arena::{PhysicalMemory, ADDRESS_SPACE};
use super::frames::BitmapAllocator;
use super::paging::entry::{lemma_address_field, vpn, ADDRESS_FIELD};
use super::paging::level::lemma_page_boundary_is_frame_boundary;
use super::paging::mapping::{
    lemma_grows_on, lemma_mapped_holds, machine, map_outcome, mapped, maps, Machine,
};
use super::paging::table::{entry_at, lookup, translate};
use super::paging::walk::{lemma_vpn_range, lemma_walk_in_tree, same_page, table_at};
use super::paging::{PageEntryFlags, PageEntryLevel, PageTable};
use super::{align_order, is_aligned_up, MemoryError};
use vstd::prelude::*;

verus! {

/// Whether `page` is the address of a page of `level` that starts in the
/// range from `start` up to `end`.
pub open spec fn is_page(page: usize, start: int, end: int, level: PageEntryLevel) -> bool {
    start <= page < end && level.aligned(page)
}

/// Whether the tree maps the page of `level` at `page` to itself: the slot
/// for `page` at that level holds a leaf with the given flags and the valid
/// bit, which names the stored bits of `page`.
pub open spec fn holds_identity(
    memory: &PhysicalMemory,
    root: usize,
    page: usize,
    flags: PageEntryFlags,
    level: PageEntryLevel,
) -> bool {
    &&& table_at(memory, root, page, level.number()) is Some
    &&& ({
        let leaf = entry_at(
            memory,
            table_at(memory, root, page, level.number())->Some_0,
            vpn(page, level.number()),
        );
        &&& leaf.kind() is Leaf
        &&& leaf.flags() == PageEntryFlags(flags.0 | 0x01)
        &&& leaf.address() as u64 == (page as u64) & ADDRESS_FIELD
        &&& lookup(memory, root, page) == Some(leaf)
    })
}

/// Whether `after` is `before` with each page of `level` from `start` up to
/// `end` mapped to itself: each of these pages holds its identity, and every
/// address outside them leads where it led before.
pub open spec fn identity_mapped(
    before: &PhysicalMemory,
    after: &PhysicalMemory,
    root: usize,
    start: int,
    end: int,
    flags: PageEntryFlags,
    level: PageEntryLevel,
) -> bool {
    &&& forall|page: usize| #[trigger]
        is_page(page, start, end, level) ==> holds_identity(after, root, page, flags, level)
    &&& forall|address: usize|
        #![trigger lookup(after, root, address)]
        (forall|page: usize| #[trigger]
            is_page(page, start, end, level) ==> !same_page(address, page, level)) ==> lookup(
            after,
            root,
            address,
        ) == lookup(before, root, address)
}

/// The walk for an address ends in the leaf of its page: where the slot for
/// `page` at `level` holds a leaf, every address of that page leads to it.
#[verifier::spinoff_prover]
pub proof fn lemma_page_leads_to_leaf(
    memory: &PhysicalMemory,
    root: usize,
    page: usize,
    address: usize,
    level: PageEntryLevel,
)
    requires
        table_at(memory, root, page, level.number()) is Some,
        entry_at(
            memory,
            table_at(memory, root, page, level.number())->Some_0,
            vpn(page, level.number()),
        ).kind() is Leaf,
        same_page(address, page, level),
    ensures
        table_at(memory, root, address, level.number()) == table_at(
            memory,
            root,
            page,
            level.number(),
        ),
        lookup(memory, root, address) == Some(
            entry_at(
                memory,
                table_at(memory, root, page, level.number())->Some_0,
                vpn(page, level.number()),
            ),
        ),
{
    let number = level.number();
    assert(vpn(address, number) == vpn(page, number));
    if number < 2 {
        assert(vpn(address, 2) == vpn(page, 2));
    }
    if number < 1 {
        assert(vpn(address, 1) == vpn(page, 1));
    }
}

/// A page that holds its identity keeps it while the tree grows.
#[verifier::spinoff_prover]
pub proof fn lemma_identity_kept(
    before: Machine,
    after: Machine,
    page: usize,
    flags: PageEntryFlags,
    level: PageEntryLevel,
)
    requires
        before.root.wf(&before.memory),
        before.grows_to(after),
        holds_identity(&before.memory, before.root.addr(), page, flags, level),
    ensures
        holds_identity(&after.memory, before.root.addr(), page, flags, level),
{
    let root = before.root.addr();
    let number = level.number();
    lemma_vpn_range(page);
    lemma_walk_in_tree(&before.root, &before.memory, page, number);
    if number < 2 {
        lemma_walk_in_tree(&before.root, &before.memory, page, number + 1);
        assert(entry_at(&before.memory, root, vpn(page, 2)).holds_valid());
        assert(entry_at(&after.memory, root, vpn(page, 2)) == entry_at(
            &before.memory,
            root,
            vpn(page, 2),
        ));
    }
    if number < 1 {
        lemma_walk_in_tree(&before.root, &before.memory, page, 1);
        let middle = table_at(&before.memory, root, page, 1)->Some_0;
        assert(entry_at(&before.memory, middle, vpn(page, 1)).holds_valid());
        assert(entry_at(&after.memory, middle, vpn(page, 1)) == entry_at(
            &before.memory,
            middle,
            vpn(page, 1),
        ));
    }
    let table = table_at(&before.memory, root, page, number)->Some_0;
    assert(table_at(&after.memory, root, page, number) == Some(table));
    assert(entry_at(&before.memory, table, vpn(page, number)).holds_valid());
    assert(entry_at(&after.memory, table, vpn(page, number)) == entry_at(
        &before.memory,
        table,
        vpn(page, number),
    ));
    lemma_page_leads_to_leaf(&after.memory, root, page, page, level);
}

/// The pages mapped so far and one more: after a successful `map` of the page
/// at `next` to itself, the pages from `start` up to the end of that page are
/// mapped to themselves.
#[verifier::spinoff_prover]
pub proof fn lemma_identity_grows(
    first: &PhysicalMemory,
    before: Machine,
    after: Machine,
    start: int,
    next: usize,
    flags: PageEntryFlags,
    level: PageEntryLevel,
)
    requires
        before.root.wf(&before.memory),
        before.grows_to(after),
        start <= next,
        level.aligned(next),
        identity_mapped(first, &before.memory, before.root.addr(), start, next as int, flags, level),
        maps(
            &before.memory,
            &after.memory,
            before.root.addr(),
            next,
            next,
            flags,
            level,
            Ok(()),
        ),
    ensures
        identity_mapped(
            first,
            &after.memory,
            before.root.addr(),
            start,
            next + level.bytes(),
            flags,
            level,
        ),
{
    let root = before.root.addr();
    let end = next + level.bytes();
    assert forall|page: usize| #[trigger] is_page(page, start, end, level) implies holds_identity(
        &after.memory,
        root,
        page,
        flags,
        level,
    ) by {
        if page < next {
            assert(is_page(page, start, next as int, level));
            lemma_identity_kept(before, after, page, flags, level);
        } else {
            assert(page == next) by {
                lemma_next_page(next, page, level);
            }
        }
    }
    assert forall|address: usize|
        #![trigger lookup(&after.memory, root, address)]
        (forall|page: usize| #[trigger]
            is_page(page, start, end, level) ==> !same_page(address, page, level)) implies lookup(
        &after.memory,
        root,
        address,
    ) == lookup(first, root, address) by {
        assert(is_page(next, start, end, level));
        assert(!same_page(address, next, level));
        assert forall|page: usize| #[trigger]
            is_page(page, start, next as int, level) implies !same_page(address, page, level) by {
            assert(is_page(page, start, end, level));
        }
        assert(lookup(&before.memory, root, address) == lookup(first, root, address));
    }
}

/// A page that starts in the bytes of the page at `next` is that page.
#[verifier::spinoff_prover]
proof fn lemma_next_page(next: usize, page: usize, level: PageEntryLevel)
    requires
        level.aligned(next),
        level.aligned(page),
        next <= page < next + level.bytes(),
    ensures
        page == next,
{
    let bytes = level.bytes();
    assert(next as int == bytes * (next as int / bytes));
    assert(page as int == bytes * (page as int / bytes));
}

/// Where a page holds its identity and an entry can hold its address, the
/// tree translates every address of the page to the address of the page.
#[verifier::spinoff_prover]
pub proof fn lemma_identity_translates(
    memory: &PhysicalMemory,
    root: usize,
    page: usize,
    address: usize,
    flags: PageEntryFlags,
    level: PageEntryLevel,
)
    requires
        holds_identity(memory, root, page, flags, level),
        level.aligned(page),
        page < ADDRESS_SPACE,
        same_page(address, page, level),
    ensures
        translate(memory, root, address) == Some(page),
{
    lemma_page_leads_to_leaf(memory, root, page, address, level);
    lemma_address_field(page as u64);
    lemma_page_boundary_is_frame_boundary(level, page);
    let leaf = lookup(memory, root, page)->Some_0;
    assert(leaf.address() as u64 == page as u64);
}

/// What holds while a range is mapped page by page: the state has grown from
/// the first one, and the pages from `start` up to `done` are mapped to
/// themselves.
#[verifier::opaque]
pub open spec fn identity_upto(
    first: Machine,
    now: Machine,
    start: int,
    done: int,
    flags: PageEntryFlags,
    level: PageEntryLevel,
) -> bool {
    &&& now.wf()
    &&& first.grows_to(now)
    &&& identity_mapped(&first.memory, &now.memory, first.root.addr(), start, done, flags, level)
}

/// What holds once no page is mapped yet.
#[verifier::spinoff_prover]
proof fn lemma_identity_starts(first: Machine, start: int, flags: PageEntryFlags, level: PageEntryLevel)
    requires
        first.wf(),
    ensures
        identity_upto(first, first, start, start, flags, level),
{
    super::paging::mapping::lemma_grows_to_self(first);
    reveal(identity_upto);
}

/// What `identity_upto` says, spelled out.
#[verifier::spinoff_prover]
proof fn lemma_identity_holds(
    first: Machine,
    now: Machine,
    start: int,
    done: int,
    flags: PageEntryFlags,
    level: PageEntryLevel,
)
    requires
        identity_upto(first, now, start, done, flags, level),
    ensures
        now.wf(),
        first.grows_to(now),
        identity_mapped(&first.memory, &now.memory, first.root.addr(), start, done, flags, level),
{
    reveal(identity_upto);
}

/// One more page: what holds after `map` was called for the page at `next`,
/// to map it to itself, after the pages from `start` up to it.
#[verifier::spinoff_prover]
proof fn lemma_identity_next(
    first: Machine,
    before: Machine,
    after: Machine,
    start: int,
    next: usize,
    flags: PageEntryFlags,
    level: PageEntryLevel,
    result: Result<(), MemoryError>,
)
    requires
        identity_upto(first, before, start, next as int, flags, level),
        first.root.addr() == before.root.addr(),
        start <= next,
        level.aligned(next),
        mapped(before, after, next, next, flags, level, result),
    ensures
        after.root.addr() == first.root.addr(),
        match result {
            Ok(()) => identity_upto(first, after, start, next + level.bytes(), flags, level),
            Err(error) => {
                &&& identity_upto(first, after, start, next as int, flags, level)
                &&& map_outcome(
                    &after.memory,
                    &after.frames,
                    first.root.addr(),
                    next,
                    next,
                    flags,
                    level,
                ) == Err::<(), MemoryError>(error)
            },
        },
{
    lemma_identity_holds(first, before, start, next as int, flags, level);
    lemma_mapped_holds(before, after, next, next, flags, level, result);
    lemma_grows_on(first, before, after);
    match result {
        Ok(unit) => {
            assert(unit == ());
            lemma_identity_grows(&first.memory, before, after, start, next, flags, level);
        },
        Err(error) => {
            lemma_identity_stays(&first.memory, before, after, start, next, flags, level);
        },
    }
    reveal(identity_upto);
}

/// Maps the page at `addr` to itself, after the pages from `start` up to it.
#[verifier::spinoff_prover]
fn map_next(
    memory: &mut PhysicalMemory,
    frames: &mut BitmapAllocator,
    root: &mut PageTable,
    addr: usize,
    flags: &PageEntryFlags,
    level: PageEntryLevel,
    Ghost(first): Ghost<Machine>,
    Ghost(start): Ghost<int>,
) -> (result: Result<(), MemoryError>)
    requires
        identity_upto(
            first,
            machine(old(memory), old(frames), old(root)),
            start,
            addr as int,
            *flags,
            level,
        ),
        first.root.addr() == old(root).addr(),
        start <= addr,
        level.aligned(addr),
    ensures
        first.root.addr() == final(root).addr(),
        match result {
            Ok(()) => identity_upto(
                first,
                machine(final(memory), final(frames), final(root)),
                start,
                addr + level.bytes(),
                *flags,
                level,
            ),
            Err(error) => {
                &&& identity_upto(
                    first,
                    machine(final(memory), final(frames), final(root)),
                    start,
                    addr as int,
                    *flags,
                    level,
                )
                &&& map_outcome(
                    final(memory),
                    final(frames),
                    first.root.addr(),
                    addr,
                    addr,
                    *flags,
                    level,
                ) == Err::<(), MemoryError>(error)
            },
        },
{
    let ghost before = machine(memory, frames, root);
    proof {
        lemma_identity_holds(first, before, start, addr as int, *flags, level);
    }
    let result = crate::memory::paging::map(memory, frames, root, addr, addr, flags, level);
    proof {
        let after = machine(memory, frames, root);
        lemma_identity_next(first, before, after, start, addr, *flags, level, result);
    }
    result
}

/// Identity map means that the virtual address is equal to the physical address.
///
/// Rounds `start` and `end` up to page boundaries of `level` and maps each
/// page between them to itself, the lowest first, until one cannot be
/// mapped. Then the pages below it stay mapped, and the error is the one
/// with which `map` fails for that page; that call has written nothing.
///
/// What `grows_to` says holds of the whole work: no slot is cleared or
/// written twice, a slot that is written keeps its reserved bits, a new
/// table starts with cleared words, every word outside the tables of the
/// tree stays, and frames are taken for new tables alone.
#[verifier::spinoff_prover]
pub fn identity_map_range(
    memory: &mut PhysicalMemory,
    frames: &mut BitmapAllocator,
    root: &mut PageTable,
    start: usize,
    end: usize,
    flags: PageEntryFlags,
    level: PageEntryLevel,
) -> (result: Result<(), MemoryError>)
    requires
        old(root).wf(old(memory)),
        old(root).owned(old(frames)),
        old(frames).wf(),
        old(frames).within(old(memory)),
        start + level.bytes() - 1 <= usize::MAX,
        end + level.bytes() - 1 <= usize::MAX,
    ensures
        final(root).wf(final(memory)),
        final(root).owned(final(frames)),
        final(frames).wf(),
        final(frames).within(final(memory)),
        machine(old(memory), old(frames), old(root)).grows_to(
            machine(final(memory), final(frames), final(root)),
        ),
        match result {
            Ok(()) => identity_mapped(
                old(memory),
                final(memory),
                old(root).addr(),
                page_start(start, level),
                page_start(end, level),
                flags,
                level,
            ),
            Err(error) => exists|failed: usize|
                {
                    &&& #[trigger] is_page(
                        failed,
                        page_start(start, level),
                        page_start(end, level),
                        level,
                    )
                    &&& identity_mapped(
                        old(memory),
                        final(memory),
                        old(root).addr(),
                        page_start(start, level),
                        failed as int,
                        flags,
                        level,
                    )
                    &&& map_outcome(
                        final(memory),
                        final(frames),
                        old(root).addr(),
                        failed,
                        failed,
                        flags,
                        level,
                    ) == Err::<(), MemoryError>(error)
                },
        },
{
    let page_size: usize = level.size();
    let ghost first = machine(memory, frames, root);

    let from: usize = align_order(start, level.order());
    let until: usize = align_order(end, level.order());
    proof {
        lemma_page_start(start, level, from);
        lemma_page_start(end, level, until);
        lemma_identity_starts(first, from as int, flags, level);
    }
    if from >= until {
        proof {
            lemma_identity_holds(first, first, from as int, from as int, flags, level);
            lemma_no_pages(
                old(memory),
                old(root).addr(),
                from as int,
                until as int,
                flags,
                level,
            );
        }
        return Ok(());
    }
    let mut addr: usize = from;
    while addr < until
        invariant
            first == machine(old(memory), old(frames), old(root)),
            identity_upto(
                first,
                machine(memory, frames, root),
                from as int,
                addr as int,
                flags,
                level,
            ),
            first.root.addr() == root.addr(),
            from == page_start(start, level),
            until == page_start(end, level),
            page_size == level.bytes(),
            from <= addr <= until,
            level.aligned(addr),
            level.aligned(until),
        decreases until - addr,
    {
        proof {
            lemma_page_fits(addr, until, level);
        }
        match map_next(memory, frames, root, addr, &flags, level, Ghost(first), Ghost(from as int)) {
            Ok(()) => {},
            Err(error) => {
                proof {
                    lemma_identity_holds(
                        first,
                        machine(memory, frames, root),
                        from as int,
                        addr as int,
                        flags,
                        level,
                    );
                    assert(is_page(addr, from as int, until as int, level));
                }
                return Err(error);
            },
        }
        addr += page_size;
    }
    proof {
        lemma_identity_holds(
            first,
            machine(memory, frames, root),
            from as int,
            addr as int,
            flags,
            level,
        );
    }
    Ok(())
}

/// A range without pages is mapped as it stands.
#[verifier::spinoff_prover]
proof fn lemma_no_pages(
    memory: &PhysicalMemory,
    root: usize,
    start: int,
    end: int,
    flags: PageEntryFlags,
    level: PageEntryLevel,
)
    requires
        start >= end,
    ensures
        identity_mapped(memory, memory, root, start, end, flags, level),
{
}

/// `address` rounded up to a page boundary of `level`.
pub open spec fn page_start(address: usize, level: PageEntryLevel) -> int {
    (address + level.bytes() - 1) / level.bytes() * level.bytes()
}

/// The least page boundary that is not below `address` is `page_start`.
#[verifier::spinoff_prover]
proof fn lemma_page_start(address: usize, level: PageEntryLevel, aligned: usize)
    requires
        is_aligned_up(address as int, level.bytes(), aligned as int),
    ensures
        aligned == page_start(address, level),
        level.aligned(aligned),
{
    let bytes = level.bytes();
    let whole = aligned as int / bytes;
    assert(aligned as int == bytes * whole);
    assert((address + bytes - 1) / bytes == whole);
}

/// A page that starts below a page boundary ends at or below it.
#[verifier::spinoff_prover]
proof fn lemma_page_fits(page: usize, end: usize, level: PageEntryLevel)
    requires
        level.aligned(page),
        level.aligned(end),
        page < end,
    ensures
        page + level.bytes() <= end,
        (page + level.bytes()) % level.bytes() == 0,
{
    let bytes = level.bytes();
    assert(page as int == bytes * (page as int / bytes));
    assert(end as int == bytes * (end as int / bytes));
    assert(page + bytes == bytes * (page as int / bytes + 1));
}

/// The pages mapped so far stay mapped over a `map` that fails.
#[verifier::spinoff_prover]
proof fn lemma_identity_stays(
    first: &PhysicalMemory,
    before: Machine,
    after: Machine,
    start: int,
    next: usize,
    flags: PageEntryFlags,
    level: PageEntryLevel,
)
    requires
        before.root.wf(&before.memory),
        before.grows_to(after),
        identity_mapped(first, &before.memory, before.root.addr(), start, next as int, flags, level),
        forall|address: usize|
            #![trigger lookup(&after.memory, before.root.addr(), address)]
            lookup(&after.memory, before.root.addr(), address) == lookup(
                &before.memory,
                before.root.addr(),
                address,
            ),
    ensures
        identity_mapped(first, &after.memory, before.root.addr(), start, next as int, flags, level),
{
    let root = before.root.addr();
    assert forall|page: usize| #[trigger]
        is_page(page, start, next as int, level) implies holds_identity(
        &after.memory,
        root,
        page,
        flags,
        level,
    ) by {
        lemma_identity_kept(before, after, page, flags, level);
    }
}

} // verus!
