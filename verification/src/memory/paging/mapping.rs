//! What `map` does, step by step: the state that it works on, the outcome
//! of its walk, and the proofs that each step keeps the tree in order.

use super::entry::{
    lemma_address_field, lemma_with_address, lemma_with_flags, vpn, PageEntry, PageEntryType,
    ADDRESS_FIELD,
};
use super::flags::PageEntryFlags;
use super::level::PageEntryLevel;
use super::table::{entry_at, lookup, PageTable, TableNode};
use super::walk::{
    keeps_entries, lemma_nothing_written_once, lemma_path_kept, lemma_same_words,
    lemma_table_added, lemma_table_words, lemma_tables_apart, lemma_vpn_range,
    lemma_walk_in_tree, lemma_written_once_on, same_page, slot_before, slot_written, table_at,
    table_start, written_once,
};
use crate::memory::arena::PhysicalMemory;
use crate::memory::frames::{lemma_allocated_run, BitmapAllocator};
use crate::memory::MemoryError;
use vstd::prelude::*;

verus! {

/// The arena, the bookkeeping of its frames and a tree of page tables in it,
/// taken together.
pub ghost struct Machine {
    pub memory: PhysicalMemory,
    pub frames: BitmapAllocator,
    pub root: PageTable,
}

impl Machine {
    /// The tree is well formed, its tables fill frames that are in use, and
    /// the region of the frames lies in the arena.
    pub open spec fn wf(self) -> bool {
        &&& self.root.wf(&self.memory)
        &&& self.root.owned(&self.frames)
        &&& self.frames.wf()
        &&& self.frames.within(&self.memory)
    }

    /// `later` holds the same arena and the same tree, the tree grown by
    /// tables at most, every valid entry kept, and the arena changed in
    /// words of its tables at most. No slot of a table was cleared or
    /// written twice: a slot that has changed was empty and holds a valid
    /// entry now, with the reserved bits that it had, and a table that the
    /// tree has gained started with cleared words. No frame was released,
    /// and each frame that was taken holds a table that the tree has gained.
    pub open spec fn grows_to(self, later: Machine) -> bool {
        &&& later.root.addr() == self.root.addr()
        &&& later.memory.base() == self.memory.base()
        &&& later.memory.words().len() == self.memory.words().len()
        &&& self.root.tree().submap_of(later.root.tree())
        &&& keeps_entries(&self.root, &self.memory, &later.memory)
        &&& written_once(&self.root, &self.memory, &later.root, &later.memory)
        &&& frames_kept(&self.root, &self.frames, &later.root, &later.frames)
        &&& forall|i: int|
            0 <= i < self.memory.words().len() && #[trigger] later.memory.words()[i]
                != self.memory.words()[i] ==> exists|changed: usize| #[trigger]
                later.root.tree().dom().contains(changed) && table_start(&self.memory, changed)
                    <= i < table_start(&self.memory, changed) + 512
    }
}

/// Whether the region has `count` free frames, for a count of up to two.
pub open spec fn has_free(frames: &BitmapAllocator, count: int) -> bool {
    frames.has_free_frames(count)
}

/// The number of tables that the walk for `address` lacks on its way down to
/// `level`.
pub open spec fn missing_tables(
    memory: &PhysicalMemory,
    root: usize,
    address: usize,
    level: PageEntryLevel,
) -> int {
    if table_at(memory, root, address, level.number()) is Some {
        0
    } else if table_at(memory, root, address, level.number() + 1) is Some {
        1
    } else {
        2
    }
}

/// Whether the walk for `address` meets a leaf at `level`.
pub open spec fn leaf_at(memory: &PhysicalMemory, root: usize, address: usize, level: int) -> bool {
    table_at(memory, root, address, level) is Some && entry_at(
        memory,
        table_at(memory, root, address, level)->Some_0,
        vpn(address, level),
    ).kind() is Leaf
}

/// How the walk down to the slot for `address` at `level` ends: in a leaf
/// above that level, in a slot that is taken, for want of a frame for a
/// table that is missing, or well.
pub open spec fn walk_outcome(
    memory: &PhysicalMemory,
    frames: &BitmapAllocator,
    root: usize,
    address: usize,
    level: PageEntryLevel,
) -> Result<(), MemoryError> {
    let number = level.number();
    if (number < 2 && leaf_at(memory, root, address, 2)) || (number < 1 && leaf_at(
        memory,
        root,
        address,
        1,
    )) {
        Err(MemoryError::StructuralInconsistency)
    } else if table_at(memory, root, address, number) is Some {
        if entry_at(
            memory,
            table_at(memory, root, address, number)->Some_0,
            vpn(address, number),
        ).holds_valid() {
            Err(MemoryError::AlreadyMapped)
        } else {
            Ok(())
        }
    } else if has_free(frames, missing_tables(memory, root, address, level)) {
        Ok(())
    } else {
        Err(MemoryError::AllocationExhausted)
    }
}

/// How `map` ends for the given arguments in the given state.
pub open spec fn map_outcome(
    memory: &PhysicalMemory,
    frames: &BitmapAllocator,
    root: usize,
    from_addr: usize,
    to_addr: usize,
    flags: PageEntryFlags,
    level: PageEntryLevel,
) -> Result<(), MemoryError> {
    if !level.aligned(to_addr) || !level.aligned(from_addr) {
        Err(MemoryError::MisalignedAddress)
    } else if !flags.describes_leaf() {
        Err(MemoryError::StructuralInconsistency)
    } else {
        walk_outcome(memory, frames, root, to_addr, level)
    }
}

/// Whether `after` is `before` with `count` single frames allocated, one
/// after the other, for a count of up to two.
pub open spec fn tables_taken(before: &BitmapAllocator, after: &BitmapAllocator, count: int) -> bool {
    if count <= 0 {
        &&& after.start() == before.start()
        &&& after.end() == before.end()
        &&& after.words().len() == before.words().len()
        &&& after.bits() == before.bits()
    } else if count == 1 {
        exists|table: usize|
            BitmapAllocator::allocates(before, after, 1, PageEntryLevel::KiB4, Ok(table))
    } else {
        exists|between: BitmapAllocator, first: usize, second: usize|
            BitmapAllocator::allocates(before, &between, 1, PageEntryLevel::KiB4, Ok(first))
                && BitmapAllocator::allocates(
                &between,
                after,
                1,
                PageEntryLevel::KiB4,
                Ok(second),
            )
    }
}

/// The number of tables that a call of `map` creates: all that are missing
/// where it succeeds, and none where it fails.
pub open spec fn tables_created(
    memory: &PhysicalMemory,
    frames: &BitmapAllocator,
    root: usize,
    address: usize,
    level: PageEntryLevel,
    result: Result<(), MemoryError>,
) -> int {
    if result is Ok {
        missing_tables(memory, root, address, level)
    } else {
        0
    }
}

/// `words` with the 512 words from `first` on cleared.
pub open spec fn cleared_at(words: Seq<u64>, first: int) -> Seq<u64> {
    Seq::new(
        words.len(),
        |i: int|
            if first <= i < first + 512 {
                0u64
            } else {
                words[i]
            },
    )
}

/// The words of an arena at `base` after a new table at `child` was hung
/// into slot `index` of the table at `table`: the frame of the new table is
/// cleared, and the slot holds what it held, but for its flags, which are
/// the valid bit alone, and its page number, which is that of the new table.
pub open spec fn hang(base: usize, words: Seq<u64>, table: usize, index: int, child: usize) -> Seq<
    u64,
> {
    let slot = (table - base) / 8 + index;
    cleared_at(words, (child - base) / 8).update(
        slot,
        PageEntry(words[slot]).with_flags(PageEntryFlags(0x01)).with_address(child).0,
    )
}

/// The words of an arena at `base` after a leaf for `from_addr` was written
/// into slot `index` of the table at `table`: the slot holds what it held,
/// but for its flags, which are the given ones and the valid bit, and its
/// page number, which is that of `from_addr`.
pub open spec fn plant(
    base: usize,
    words: Seq<u64>,
    table: usize,
    index: int,
    flags: PageEntryFlags,
    from_addr: usize,
) -> Seq<u64> {
    let slot = (table - base) / 8 + index;
    words.update(
        slot,
        PageEntry(words[slot]).with_flags(PageEntryFlags(flags.0 | 0x01)).with_address(
            from_addr,
        ).0,
    )
}

/// The table that the walk for `address` reads at `level`, where it gets
/// that far down.
pub open spec fn path_table(memory: &PhysicalMemory, root: usize, address: usize, level: int) -> usize {
    table_at(memory, root, address, level)->Some_0
}

/// The words of the arena `start` after the walk for `address` has hung in
/// `count` new tables, down to the level `bottom`: the tables are those that
/// the walk reads in `path` at the `count` levels from `bottom` up, and each
/// was hung into the slot for `address` of the table above it, the upper one
/// first.
pub open spec fn grown_words(
    start: &PhysicalMemory,
    path: &PhysicalMemory,
    root: usize,
    address: usize,
    bottom: int,
    count: int,
) -> Seq<u64> {
    let top = bottom + count;
    let base = start.base();
    let first = if count >= 1 {
        hang(
            base,
            start.words(),
            path_table(path, root, address, top),
            vpn(address, top),
            path_table(path, root, address, top - 1),
        )
    } else {
        start.words()
    };
    if count >= 2 {
        hang(
            base,
            first,
            path_table(path, root, address, top - 1),
            vpn(address, top - 1),
            path_table(path, root, address, top - 2),
        )
    } else {
        first
    }
}

/// The tree `tree` grown by the `count` new tables that the walk for
/// `address` reads in `path` at the levels from `bottom` up.
pub open spec fn grown_tree(
    tree: Map<usize, TableNode>,
    path: &PhysicalMemory,
    root: usize,
    address: usize,
    bottom: int,
    count: int,
) -> Map<usize, TableNode> {
    let top = bottom + count;
    let first = if count >= 1 {
        tree.insert(
            path_table(path, root, address, top - 1),
            TableNode {
                level: top - 1,
                parent: path_table(path, root, address, top),
                index: vpn(address, top),
            },
        )
    } else {
        tree
    };
    if count >= 2 {
        first.insert(
            path_table(path, root, address, top - 2),
            TableNode {
                level: top - 2,
                parent: path_table(path, root, address, top - 1),
                index: vpn(address, top - 1),
            },
        )
    } else {
        first
    }
}

/// Whether `after` is `before` with the frames of the `count` new tables
/// taken, one after the other and the upper table first: each was the lowest
/// free frame when it was taken.
pub open spec fn frames_taken(
    before: &BitmapAllocator,
    after: &BitmapAllocator,
    path: &PhysicalMemory,
    root: usize,
    address: usize,
    bottom: int,
    count: int,
) -> bool {
    let top = bottom + count;
    if count <= 0 {
        tables_taken(before, after, 0)
    } else if count == 1 {
        BitmapAllocator::allocates(
            before,
            after,
            1,
            PageEntryLevel::KiB4,
            Ok(path_table(path, root, address, top - 1)),
        )
    } else {
        exists|between: BitmapAllocator|
            #![trigger BitmapAllocator::allocates(before, &between, 1, PageEntryLevel::KiB4, Ok(path_table(path, root, address, top - 1)))]
            BitmapAllocator::allocates(
                before,
                &between,
                1,
                PageEntryLevel::KiB4,
                Ok(path_table(path, root, address, top - 1)),
            ) && BitmapAllocator::allocates(
                &between,
                after,
                1,
                PageEntryLevel::KiB4,
                Ok(path_table(path, root, address, top - 2)),
            )
    }
}

/// What `map` does to the translations of the tree at `root`. A success adds
/// one leaf, in the slot for `to_addr` at `level`: every address in the page
/// of `to_addr` now leads to it, and the leaf holds the flags, with the valid
/// bit, and the stored bits of `from_addr`. Every other address leads where
/// it led before, as does every address after a failure.
pub open spec fn maps(
    before: &PhysicalMemory,
    after: &PhysicalMemory,
    root: usize,
    from_addr: usize,
    to_addr: usize,
    flags: PageEntryFlags,
    level: PageEntryLevel,
    result: Result<(), MemoryError>,
) -> bool {
    match result {
        Ok(()) => {
            &&& lookup(after, root, to_addr) matches Some(leaf) && leaf.kind() is Leaf
                && leaf.flags() == PageEntryFlags(flags.0 | 0x01) && leaf.address() as u64 == (
            from_addr as u64) & ADDRESS_FIELD
            &&& table_at(after, root, to_addr, level.number()) matches Some(table) && Some(
                entry_at(after, table, vpn(to_addr, level.number())),
            ) == lookup(after, root, to_addr)
            &&& forall|address: usize|
                #![trigger lookup(after, root, address)]
                lookup(after, root, address) == if same_page(address, to_addr, level) {
                    lookup(after, root, to_addr)
                } else {
                    lookup(before, root, address)
                }
        },
        Err(_) => forall|address: usize|
            #![trigger lookup(after, root, address)]
            lookup(after, root, address) == lookup(before, root, address),
    }
}

/// What one step of the walk for `address` does, from slot `index` of `table`
/// at `level` one table down, with `needed` tables to go: it follows a
/// branch, hangs a new table into an empty slot first, or stops at a leaf.
/// It hangs no table in unless a frame is free for each table that the walk
/// still needs, and stops with nothing changed otherwise. No translation
/// changes.
#[verifier::opaque]
pub open spec fn descended(
    before: Machine,
    after: Machine,
    table: usize,
    index: int,
    address: usize,
    level: int,
    needed: int,
    result: Result<usize, MemoryError>,
) -> bool {
    let root = before.root.addr();
    let found = entry_at(&before.memory, table, index).kind();
    &&& after.wf()
    &&& before.grows_to(after)
    &&& forall|other: usize|
        #![trigger lookup(&after.memory, root, other)]
        lookup(&after.memory, root, other) == lookup(&before.memory, root, other)
    &&& forall|other: usize, l: int|
        #![trigger table_at(&after.memory, root, other, l)]
        table_at(&before.memory, root, other, l) is Some ==> table_at(
            &after.memory,
            root,
            other,
            l,
        ) == table_at(&before.memory, root, other, l)
    &&& match result {
        Ok(child) => {
            &&& table_at(&after.memory, root, address, level - 1) == Some(child)
            &&& match found {
                PageEntryType::Branch(next) => {
                    &&& next == child
                    &&& after.memory.words() == before.memory.words()
                    &&& after.root.tree() == before.root.tree()
                    &&& tables_taken(&before.frames, &after.frames, 0)
                },
                PageEntryType::Invalid => {
                    &&& has_free(&before.frames, needed)
                    &&& BitmapAllocator::allocates(
                        &before.frames,
                        &after.frames,
                        1,
                        PageEntryLevel::KiB4,
                        Ok(child),
                    )
                    &&& after.memory.words() == hang(
                        before.memory.base(),
                        before.memory.words(),
                        table,
                        index,
                        child,
                    )
                    &&& after.root.tree() == before.root.tree().insert(
                        child,
                        TableNode { level: level - 1, parent: table, index },
                    )
                    &&& forall|position: int|
                        0 <= position < 512 ==> !(#[trigger] entry_at(
                            &after.memory,
                            child,
                            position,
                        )).holds_valid()
                },
                PageEntryType::Leaf => false,
            }
        },
        Err(error) => {
            &&& after.memory.words() == before.memory.words()
            &&& after.root.tree() == before.root.tree()
            &&& tables_taken(&before.frames, &after.frames, 0)
            &&& match found {
                PageEntryType::Leaf => error == MemoryError::StructuralInconsistency,
                PageEntryType::Invalid => error == MemoryError::AllocationExhausted && !has_free(
                    &before.frames,
                    needed,
                ),
                PageEntryType::Branch(_) => false,
            }
        },
    }
}

/// What the last step of the walk for `address` does, at slot `index` of
/// `table` at `level`: it writes the leaf into an empty slot, and changes
/// nothing where the slot is taken.
#[verifier::opaque]
pub open spec fn installed(
    root: &PageTable,
    before: &PhysicalMemory,
    after: &PhysicalMemory,
    table: usize,
    index: int,
    from_addr: usize,
    flags: PageEntryFlags,
    address: usize,
    level: PageEntryLevel,
    result: Result<(), MemoryError>,
) -> bool {
    &&& root.wf(after)
    &&& after.base() == before.base()
    &&& after.words().len() == before.words().len()
    &&& keeps_entries(root, before, after)
    &&& result is Ok <==> !entry_at(before, table, index).holds_valid()
    &&& result matches Err(error) ==> error == MemoryError::AlreadyMapped && after.words()
        == before.words()
    &&& result is Ok ==> after.words() == plant(
        before.base(),
        before.words(),
        table,
        index,
        flags,
        from_addr,
    )
    &&& maps(before, after, root.addr(), from_addr, address, flags, level, result)
    &&& forall|i: int|
        0 <= i < before.words().len() && #[trigger] after.words()[i] != before.words()[i]
            ==> table_start(before, table) <= i < table_start(before, table) + 512
}

/// The three parts of a state, taken together.
pub open spec fn machine(
    memory: &PhysicalMemory,
    frames: &BitmapAllocator,
    root: &PageTable,
) -> Machine {
    Machine { memory: *memory, frames: *frames, root: *root }
}

/// What holds while `map` walks down: the walk for `to_addr` has come to
/// `table` at level `at`, `created` tables were hung in on the way, and
/// nothing else differs from the start.
#[verifier::opaque]
pub open spec fn walking(
    start: Machine,
    now: Machine,
    table: usize,
    at: int,
    to_addr: usize,
    level: PageEntryLevel,
    created: int,
) -> bool {
    let root = start.root.addr();
    &&& start.wf()
    &&& now.wf()
    &&& start.grows_to(now)
    &&& level.number() <= at <= 2
    &&& table_at(&now.memory, root, to_addr, at) == Some(table)
    &&& forall|other: usize|
        #![trigger lookup(&now.memory, root, other)]
        lookup(&now.memory, root, other) == lookup(&start.memory, root, other)
    &&& walk_outcome(&now.memory, &now.frames, root, to_addr, level) == walk_outcome(
        &start.memory,
        &start.frames,
        root,
        to_addr,
        level,
    )
    &&& 0 <= created <= 2
    &&& created == missing_tables(&start.memory, root, to_addr, level) - missing_tables(
        &now.memory,
        root,
        to_addr,
        level,
    )
    &&& tables_taken(&start.frames, &now.frames, created)
    &&& has_free(&start.frames, created)
    &&& created > 0 ==> has_free(
        &now.frames,
        missing_tables(&now.memory, root, to_addr, level),
    )
    &&& created > 0 ==> forall|position: int|
        0 <= position < 512 ==> !(#[trigger] entry_at(&now.memory, table, position)).holds_valid()
}

/// What `map` has done to the translations when it returns: the state is in
/// order and has grown from the one before, the call has ended as
/// `map_outcome` tells, the translations have changed as `maps` tells, one
/// frame was taken for each table created, and a call that failed would fail
/// again.
#[verifier::opaque]
pub open spec fn translated(
    start: Machine,
    end: Machine,
    from_addr: usize,
    to_addr: usize,
    flags: PageEntryFlags,
    level: PageEntryLevel,
    result: Result<(), MemoryError>,
) -> bool {
    let root = start.root.addr();
    &&& end.wf()
    &&& start.grows_to(end)
    &&& result == map_outcome(
        &start.memory,
        &start.frames,
        root,
        from_addr,
        to_addr,
        flags,
        level,
    )
    &&& maps(&start.memory, &end.memory, root, from_addr, to_addr, flags, level, result)
    &&& tables_taken(
        &start.frames,
        &end.frames,
        tables_created(&start.memory, &start.frames, root, to_addr, level, result),
    )
    &&& result is Err ==> map_outcome(
        &end.memory,
        &end.frames,
        root,
        from_addr,
        to_addr,
        flags,
        level,
    ) == result
}

/// Whether `now` is `start` grown by the `count` tables that stand on the
/// walk for `address` at the levels from `bottom` up, and by nothing else:
/// the words of the arena, the tree and the frames in use are those of
/// `start` with these tables hung in.
#[verifier::opaque]
pub open spec fn grown(start: Machine, now: Machine, address: usize, bottom: int, count: int) -> bool {
    let root = start.root.addr();
    &&& now.memory.words() == grown_words(
        &start.memory,
        &now.memory,
        root,
        address,
        bottom,
        count,
    )
    &&& now.root.tree() == grown_tree(
        start.root.tree(),
        &now.memory,
        root,
        address,
        bottom,
        count,
    )
    &&& frames_taken(&start.frames, &now.frames, &now.memory, root, address, bottom, count)
}

/// What `map` has written when it returns, word by word.
///
/// A call that fails leaves every word of the arena, the tree and the frames
/// as they were. A call that succeeds hangs in the tables that the walk for
/// `to_addr` lacked, the upper first, and plants the leaf: each new table
/// fills the lowest frame that was free when it was taken, its words are 0
/// but for the slot on the walk, the slot above it holds what it held but
/// for the valid bit and the address of the new table, and the slot of the
/// leaf holds what it held but for the flags, the valid bit and the address
/// of `from_addr`. Every other word of the arena is what it was, and the
/// tree has grown by the new tables and by nothing else.
#[verifier::opaque]
pub open spec fn written(
    start: Machine,
    end: Machine,
    from_addr: usize,
    to_addr: usize,
    flags: PageEntryFlags,
    level: PageEntryLevel,
    result: Result<(), MemoryError>,
) -> bool {
    let root = start.root.addr();
    let number = level.number();
    let missing = missing_tables(&start.memory, root, to_addr, level);
    if result is Ok {
        &&& end.memory.words() == plant(
            start.memory.base(),
            grown_words(&start.memory, &end.memory, root, to_addr, number, missing),
            path_table(&end.memory, root, to_addr, number),
            vpn(to_addr, number),
            flags,
            from_addr,
        )
        &&& end.root.tree() == grown_tree(
            start.root.tree(),
            &end.memory,
            root,
            to_addr,
            number,
            missing,
        )
        &&& frames_taken(&start.frames, &end.frames, &end.memory, root, to_addr, number, missing)
    } else {
        &&& end.memory.words() == start.memory.words()
        &&& end.root.tree() == start.root.tree()
        &&& tables_taken(&start.frames, &end.frames, 0)
    }
}

/// What `map` has done when it returns: what `translated` says of the
/// translations, and what `written` says of the words of the arena, the tree
/// and the frames.
pub open spec fn mapped(
    start: Machine,
    end: Machine,
    from_addr: usize,
    to_addr: usize,
    flags: PageEntryFlags,
    level: PageEntryLevel,
    result: Result<(), MemoryError>,
) -> bool {
    &&& translated(start, end, from_addr, to_addr, flags, level, result)
    &&& written(start, end, from_addr, to_addr, flags, level, result)
}

/// Whether the frames `after` are the frames `before` with one frame taken
/// for each table that the tree has gained, and with no frame released: the
/// region is the same, every frame that was in use is in use, every frame
/// that has come into use holds a new table, and every new table fills a
/// frame that was free.
#[verifier::opaque]
pub open spec fn frames_kept(
    root: &PageTable,
    before: &BitmapAllocator,
    grown: &PageTable,
    after: &BitmapAllocator,
) -> bool {
    &&& after.start() == before.start()
    &&& after.end() == before.end()
    &&& after.words().len() == before.words().len()
    &&& forall|frame: int|
        0 <= frame < before.bits().len() && #[trigger] before.bits()[frame] ==> after.bits()[frame]
    &&& forall|frame: int|
        0 <= frame < before.bits().len() && #[trigger] after.bits()[frame] && !before.bits()[frame]
            ==> exists|table: usize|
            #![trigger grown.tree().dom().contains(table)]
            grown.tree().dom().contains(table) && !root.tree().dom().contains(table)
                && before.frame_of(table as int) == frame
    &&& forall|table: usize|
        #![trigger grown.tree().dom().contains(table)]
        grown.tree().dom().contains(table) && !root.tree().dom().contains(table) ==> 0
            <= before.frame_of(table as int) < before.bits().len() && !before.bits()[before.frame_of(
            table as int,
        )]
}

/// Frames with the same bits under the same tree: none was taken.
#[verifier::spinoff_prover]
pub proof fn lemma_frames_kept_same(
    root: &PageTable,
    before: &BitmapAllocator,
    grown: &PageTable,
    after: &BitmapAllocator,
)
    requires
        tables_taken(before, after, 0),
        grown.tree() == root.tree(),
    ensures
        frames_kept(root, before, grown, after),
{
    reveal(frames_kept);
}

/// One frame taken for one table that the tree has gained.
#[verifier::spinoff_prover]
pub proof fn lemma_frames_kept_step(
    root: &PageTable,
    before: &BitmapAllocator,
    grown: &PageTable,
    after: &BitmapAllocator,
    fresh: usize,
)
    requires
        before.wf(),
        BitmapAllocator::allocates(before, after, 1, PageEntryLevel::KiB4, Ok(fresh)),
        !root.tree().dom().contains(fresh),
        grown.tree().dom() =~= root.tree().dom().insert(fresh),
    ensures
        frames_kept(root, before, grown, after),
{
    reveal(frames_kept);
    lemma_allocated_run(before, after, 1, PageEntryLevel::KiB4, fresh);
    let taken = before.frame_of(fresh as int);
    assert(before.run_free(taken, 1) && after.run_used(taken, 1));
    assert(!before.bits()[taken]);
    assert(after.bits()[taken]);
    assert forall|frame: int|
        0 <= frame < before.bits().len() && #[trigger] after.bits()[frame]
            && !before.bits()[frame] implies exists|table: usize|
        #![trigger grown.tree().dom().contains(table)]
        grown.tree().dom().contains(table) && !root.tree().dom().contains(table)
            && before.frame_of(table as int) == frame by {
        assert(frame == taken);
        assert(grown.tree().dom().contains(fresh));
    }
}

/// Frames taken for new tables, and then more of them, were taken for new
/// tables.
#[verifier::spinoff_prover]
pub proof fn lemma_frames_kept_on(
    first_root: &PageTable,
    first: &BitmapAllocator,
    second_root: &PageTable,
    second: &BitmapAllocator,
    third_root: &PageTable,
    third: &BitmapAllocator,
)
    requires
        frames_kept(first_root, first, second_root, second),
        frames_kept(second_root, second, third_root, third),
        first_root.tree().submap_of(second_root.tree()),
        second_root.tree().submap_of(third_root.tree()),
    ensures
        frames_kept(first_root, first, third_root, third),
{
    reveal(frames_kept);
    assert(first.bits().len() == second.bits().len() && second.bits().len() == third.bits().len());
    assert forall|table: usize| #[trigger] first.frame_of(table as int) == second.frame_of(
        table as int,
    ) by {}
    assert forall|frame: int|
        0 <= frame < first.bits().len() && #[trigger] third.bits()[frame]
            && !first.bits()[frame] implies exists|table: usize|
        #![trigger third_root.tree().dom().contains(table)]
        third_root.tree().dom().contains(table) && !first_root.tree().dom().contains(table)
            && first.frame_of(table as int) == frame by {
        if second.bits()[frame] {
            let table = choose|table: usize|
                #![trigger second_root.tree().dom().contains(table)]
                second_root.tree().dom().contains(table) && !first_root.tree().dom().contains(
                    table,
                ) && first.frame_of(table as int) == frame;
            assert(third_root.tree().dom().contains(table));
        } else {
            let table = choose|table: usize|
                #![trigger third_root.tree().dom().contains(table)]
                third_root.tree().dom().contains(table) && !second_root.tree().dom().contains(
                    table,
                ) && second.frame_of(table as int) == frame;
            assert(first.frame_of(table as int) == second.frame_of(table as int));
            if first_root.tree().dom().contains(table) {
                assert(second_root.tree().dom().contains(table));
            }
        }
    }
    assert forall|table: usize|
        #![trigger third_root.tree().dom().contains(table)]
        third_root.tree().dom().contains(table) && !first_root.tree().dom().contains(
            table,
        ) implies 0 <= first.frame_of(table as int) < first.bits().len() && !first.bits()[first.frame_of(
        table as int,
    )] by {
        assert(first.frame_of(table as int) == second.frame_of(table as int));
        if !second_root.tree().dom().contains(table) {
            let frame = second.frame_of(table as int);
            assert(!second.bits()[frame]);
            if first.bits()[frame] {
                assert(second.bits()[frame]);
            }
        }
    }
}

/// While a state grows, every slot of its tables keeps its reserved bits,
/// and a slot that holds an entry keeps the entry. A table that the tree has
/// gained counts as cleared before.
#[verifier::spinoff_prover]
pub proof fn lemma_slots_kept(start: Machine, later: Machine, table: usize, index: int)
    requires
        start.grows_to(later),
        later.root.tree().dom().contains(table),
        0 <= index < 512,
    ensures
        entry_at(&later.memory, table, index).reserved() == slot_before(
            &start.root,
            &start.memory,
            table,
            index,
        ).reserved(),
        slot_before(&start.root, &start.memory, table, index).holds_valid() ==> entry_at(
            &later.memory,
            table,
            index,
        ) == slot_before(&start.root, &start.memory, table, index),
        !entry_at(&later.memory, table, index).holds_valid() ==> entry_at(
            &later.memory,
            table,
            index,
        ) == slot_before(&start.root, &start.memory, table, index),
        entry_at(&later.memory, table, index).kind() is Branch && !slot_before(
            &start.root,
            &start.memory,
            table,
            index,
        ).holds_valid() ==> entry_at(&later.memory, table, index).flags() == PageEntryFlags(0x01),
{
    reveal(written_once);
    assert(slot_written(
        slot_before(&start.root, &start.memory, table, index),
        entry_at(&later.memory, table, index),
    ));
}

/// A state has grown to itself.
#[verifier::spinoff_prover]
pub proof fn lemma_grows_to_self(state: Machine)
    ensures
        state.grows_to(state),
{
    lemma_nothing_written_once(&state.root, &state.memory, &state.root, &state.memory);
    lemma_frames_kept_same(&state.root, &state.frames, &state.root, &state.frames);
}

/// A state that grew from one that grew from a first one grew from the first.
#[verifier::spinoff_prover]
pub proof fn lemma_grows_on(a: Machine, b: Machine, c: Machine)
    requires
        a.grows_to(b),
        b.grows_to(c),
    ensures
        a.grows_to(c),
{
    lemma_written_once_on(&a.root, &a.memory, &b.root, &b.memory, &c.root, &c.memory);
    lemma_frames_kept_on(&a.root, &a.frames, &b.root, &b.frames, &c.root, &c.frames);
    assert(keeps_entries(&a.root, &a.memory, &c.memory)) by {
        assert forall|table: usize, index: int|
            #![trigger entry_at(&c.memory, table, index)]
            a.root.tree().dom().contains(table) && 0 <= index < 512 && entry_at(
                &a.memory,
                table,
                index,
            ).holds_valid() implies entry_at(&c.memory, table, index) == entry_at(
            &a.memory,
            table,
            index,
        ) by {
            assert(b.root.tree().dom().contains(table));
            assert(entry_at(&b.memory, table, index) == entry_at(&a.memory, table, index));
        }
    }
    assert(a.root.tree().submap_of(c.root.tree())) by {
        assert forall|table: usize| #[trigger]
            a.root.tree().dom().contains(table) implies c.root.tree().dom().contains(table)
            && a.root.tree()[table] == c.root.tree()[table] by {
            assert(b.root.tree().dom().contains(table));
        }
    }
    assert forall|i: int|
        0 <= i < a.memory.words().len() && #[trigger] c.memory.words()[i]
            != a.memory.words()[i] implies exists|changed: usize| #[trigger]
        c.root.tree().dom().contains(changed) && table_start(&a.memory, changed) <= i
            < table_start(&a.memory, changed) + 512 by {
        if c.memory.words()[i] != b.memory.words()[i] {
            let changed = choose|changed: usize| #[trigger]
                c.root.tree().dom().contains(changed) && table_start(&b.memory, changed) <= i
                    < table_start(&b.memory, changed) + 512;
            assert(table_start(&a.memory, changed) == table_start(&b.memory, changed));
        } else {
            assert(b.memory.words()[i] != a.memory.words()[i]);
            let changed = choose|changed: usize| #[trigger]
                b.root.tree().dom().contains(changed) && table_start(&a.memory, changed) <= i
                    < table_start(&a.memory, changed) + 512;
            assert(c.root.tree().dom().contains(changed));
        }
    }
}

/// One allocation of a single frame uses up one free frame: the region had
/// one, and it has one left exactly if it had two.
#[verifier::spinoff_prover]
pub proof fn lemma_frame_used_up(before: &BitmapAllocator, after: &BitmapAllocator, table: usize)
    requires
        before.wf(),
        BitmapAllocator::allocates(before, after, 1, PageEntryLevel::KiB4, Ok(table)),
    ensures
        has_free(before, 1),
        has_free(after, 1) == has_free(before, 2),
{
    let level = PageEntryLevel::KiB4;
    let first = before.frame_of(table as int);
    assert(before.fits(first, 1, level));
    assert(!before.bits()[first]);
    assert(after.bits()[first]);
    if has_free(after, 1) {
        let other = choose|other: int| after.fits(other, 1, level);
        assert(!after.bits()[other]);
        assert(!before.bits()[other]);
        assert(before.fits(other, 1, level));
        assert(other != first);
    }
    if has_free(before, 2) {
        let (one, two) = choose|one: int, two: int|
            one != two && before.fits(one, 1, level) && before.fits(two, 1, level);
        let other = if one == first {
            two
        } else {
            one
        };
        assert(!before.bits()[other]);
        assert(!after.bits()[other]);
        assert(after.fits(other, 1, level));
    }
}

/// Frames that hold the same bits have the same frames free, and an
/// allocation from one is an allocation from the other.
#[verifier::spinoff_prover]
pub proof fn lemma_same_frames(before: &BitmapAllocator, after: &BitmapAllocator)
    requires
        tables_taken(before, after, 0),
    ensures
        forall|count: int| #[trigger] has_free(after, count) == has_free(before, count),
        forall|first: int| #[trigger]
            after.fits(first, 1, PageEntryLevel::KiB4) == before.fits(
                first,
                1,
                PageEntryLevel::KiB4,
            ),
{
    let level = PageEntryLevel::KiB4;
    assert forall|first: int| #[trigger]
        after.fits(first, 1, level) == before.fits(first, 1, level) by {
        if before.fits(first, 1, level) {
            assert(!before.bits()[first]);
        }
        if after.fits(first, 1, level) {
            assert(!after.bits()[first]);
        }
    }
    assert forall|count: int| #[trigger] has_free(after, count) == has_free(before, count) by {
        if count == 1 {
            if has_free(before, 1) {
                let first = choose|first: int| before.fits(first, 1, level);
                assert(after.fits(first, 1, level));
            }
            if has_free(after, 1) {
                let first = choose|first: int| after.fits(first, 1, level);
                assert(before.fits(first, 1, level));
            }
        } else if count >= 2 {
            if has_free(before, count) {
                let (one, two) = choose|one: int, two: int|
                    one != two && before.fits(one, 1, level) && before.fits(two, 1, level);
                assert(after.fits(one, 1, level) && after.fits(two, 1, level));
            }
            if has_free(after, count) {
                let (one, two) = choose|one: int, two: int|
                    one != two && after.fits(one, 1, level) && after.fits(two, 1, level);
                assert(before.fits(one, 1, level) && before.fits(two, 1, level));
            }
        }
    }
}

/// Allocations of single frames add up, and steps that allocate nothing
/// count for nothing.
#[verifier::spinoff_prover]
pub proof fn lemma_tables_add_up(
    before: &BitmapAllocator,
    between: &BitmapAllocator,
    after: &BitmapAllocator,
    first: int,
    second: int,
)
    requires
        0 <= first,
        0 <= second,
        first + second <= 2,
        tables_taken(before, between, first),
        tables_taken(between, after, second),
    ensures
        tables_taken(before, after, first + second),
{
    let level = PageEntryLevel::KiB4;
    if first == 0 {
        lemma_same_frames(before, between);
        if second == 1 {
            let table = choose|table: usize|
                BitmapAllocator::allocates(between, after, 1, level, Ok(table));
            lemma_allocates_from_same(before, between, after, table);
        } else if second == 2 {
            let (middle, one, two) = choose|middle: BitmapAllocator, one: usize, two: usize|
                BitmapAllocator::allocates(between, &middle, 1, level, Ok(one))
                    && BitmapAllocator::allocates(&middle, after, 1, level, Ok(two));
            lemma_allocates_from_same(before, between, &middle, one);
        }
    } else if second == 0 {
        if first == 1 {
            let table = choose|table: usize|
                BitmapAllocator::allocates(before, between, 1, level, Ok(table));
            assert(BitmapAllocator::allocates(before, after, 1, level, Ok(table)));
        } else {
            let (middle, one, two) = choose|middle: BitmapAllocator, one: usize, two: usize|
                BitmapAllocator::allocates(before, &middle, 1, level, Ok(one))
                    && BitmapAllocator::allocates(&middle, between, 1, level, Ok(two));
            assert(BitmapAllocator::allocates(&middle, after, 1, level, Ok(two)));
        }
    } else {
        let one = choose|one: usize| BitmapAllocator::allocates(before, between, 1, level, Ok(one));
        let two = choose|two: usize| BitmapAllocator::allocates(between, after, 1, level, Ok(two));
        assert(BitmapAllocator::allocates(before, between, 1, level, Ok(one))
            && BitmapAllocator::allocates(between, after, 1, level, Ok(two)));
    }
}

/// An allocation from frames with the same bits as `before` is one from
/// `before`.
#[verifier::spinoff_prover]
proof fn lemma_allocates_from_same(
    before: &BitmapAllocator,
    same: &BitmapAllocator,
    after: &BitmapAllocator,
    table: usize,
)
    requires
        tables_taken(before, same, 0),
        BitmapAllocator::allocates(same, after, 1, PageEntryLevel::KiB4, Ok(table)),
    ensures
        BitmapAllocator::allocates(before, after, 1, PageEntryLevel::KiB4, Ok(table)),
{
    let level = PageEntryLevel::KiB4;
    lemma_same_frames(before, same);
    let first = same.frame_of(table as int);
    assert(same.fits(first, 1, level));
    assert(before.fits(first, 1, level));
    assert forall|lower: int| 0 <= lower < first implies !before.fits(lower, 1, level) by {
        assert(!same.fits(lower, 1, level));
    }
}

/// The frame that an allocation hands out for a new table: it lies in the
/// arena, no table of the tree fills it, and with it the tables of the tree
/// still fill frames that are in use.
#[verifier::spinoff_prover]
pub proof fn lemma_fresh_frame(
    root: &PageTable,
    grown: &PageTable,
    frames: &BitmapAllocator,
    taken: &BitmapAllocator,
    memory: &PhysicalMemory,
    fresh: usize,
    node: TableNode,
)
    requires
        memory.wf(),
        root.owned(frames),
        frames.wf(),
        frames.within(memory),
        BitmapAllocator::allocates(frames, taken, 1, PageEntryLevel::KiB4, Ok(fresh)),
        grown.tree() == root.tree().insert(fresh, node),
    ensures
        memory.holds_frame(fresh as int),
        !root.tree().dom().contains(fresh),
        grown.owned(taken),
        taken.within(memory),
{
    lemma_allocated_run(frames, taken, 1, PageEntryLevel::KiB4, fresh);
    let frame = frames.frame_of(fresh as int);
    assert(frames.run_free(frame, 1) && taken.run_used(frame, 1));
    assert(!frames.bits()[frame]);
    assert(taken.bits()[frame]);
    assert(memory.holds_frame(fresh as int)) by {
        assert(fresh as int % 0x1000 == 0);
        assert(fresh as int == 0x1000 * (fresh as int / 0x1000));
    }
    assert(taken.bits() == crate::memory::frames::with_run(frames.bits(), frame, 1, true));
    assert forall|other: usize| #[trigger] grown.tree().dom().contains(other) implies taken.start()
        <= other && taken.frame_of(other as int) < taken.num_frames() && taken.bits()[taken.frame_of(
        other as int,
    )] by {
        if other != fresh {
            assert(root.tree().dom().contains(other));
            let place = frames.frame_of(other as int);
            assert(frames.bits()[place]);
            assert(taken.bits()[place]);
        }
    }
}

/// What holds once a new table hangs in an empty slot of `table`, which the
/// walk for `address` reads at `level`: the frame `fresh` was cleared and the
/// slot made a branch to it.
#[verifier::spinoff_prover]
pub proof fn lemma_table_hung(
    root: &PageTable,
    grown: &PageTable,
    before: &PhysicalMemory,
    cleared: &PhysicalMemory,
    after: &PhysicalMemory,
    table: usize,
    index: int,
    fresh: usize,
    branch: PageEntry,
    address: usize,
    level: int,
)
    requires
        root.wf(before),
        1 <= level <= 2,
        table_at(before, root.addr(), address, level) == Some(table),
        index == vpn(address, level),
        entry_at(before, table, index).kind() is Invalid,
        before.holds_frame(fresh as int),
        !root.tree().dom().contains(fresh),
        before.same_outside(cleared, fresh as int, 0x1000),
        forall|i: int|
            before.index_of(fresh as int) <= i < before.index_of(fresh + 0x1000)
                ==> cleared.words()[i] == 0,
        branch.kind() is Branch,
        branch.address() as u64 == (fresh as u64) & ADDRESS_FIELD,
        after.base() == before.base(),
        after.words() == cleared.words().update(before.index_of(table + 8 * index), branch.0),
        grown.addr() == root.addr(),
        grown.tree() == root.tree().insert(fresh, TableNode { level: level - 1, parent: table, index }),
    ensures
        grown.wf(after),
        after.words().len() == before.words().len(),
        forall|other: usize|
            #![trigger lookup(after, root.addr(), other)]
            lookup(after, root.addr(), other) == lookup(before, root.addr(), other),
        forall|other: usize, l: int|
            #![trigger table_at(after, root.addr(), other, l)]
            table_at(before, root.addr(), other, l) is Some ==> table_at(
                after,
                root.addr(),
                other,
                l,
            ) == table_at(before, root.addr(), other, l),
        root.tree().submap_of(grown.tree()),
        keeps_entries(root, before, after),
        forall|i: int|
            0 <= i < before.words().len() && #[trigger] after.words()[i] != before.words()[i]
                ==> exists|changed: usize| #[trigger]
                grown.tree().dom().contains(changed) && table_start(before, changed) <= i
                    < table_start(before, changed) + 512,
        table_at(after, root.addr(), address, level - 1) == Some(fresh),
        forall|position: int|
            0 <= position < 512 ==> !(#[trigger] entry_at(after, fresh, position)).holds_valid(),
{
    lemma_vpn_range(address);
    lemma_walk_in_tree(root, before, address, level);
    assert(branch.kind() == PageEntryType::Branch(fresh)) by {
        lemma_address_field(fresh as u64);
    }
    lemma_table_words(before, table, index);
    lemma_table_words(before, fresh, 0);
    lemma_table_added(root, grown, before, cleared, after, table, index, fresh, branch);
    assert forall|i: int|
        0 <= i < before.words().len() && #[trigger] after.words()[i]
            != before.words()[i] implies exists|changed: usize| #[trigger]
        grown.tree().dom().contains(changed) && table_start(before, changed) <= i < table_start(
            before,
            changed,
        ) + 512 by {
        if table_start(before, fresh) <= i < table_start(before, fresh) + 512 {
            assert(grown.tree().dom().contains(fresh));
        } else {
            assert(cleared.words()[i] == before.words()[i]);
            assert(i == table_start(before, table) + index);
            assert(grown.tree().dom().contains(table));
        }
    }
    assert(table_at(after, root.addr(), address, level - 1) == Some(fresh)) by {
        assert(table_at(after, root.addr(), address, level) == Some(table));
        assert(entry_at(after, table, index) == branch);
    }
}

/// The words after a frame was cleared and a branch to it written are the
/// words that `hang` names.
#[verifier::spinoff_prover]
proof fn lemma_hung_words(
    before: &PhysicalMemory,
    cleared: &PhysicalMemory,
    after: &PhysicalMemory,
    table: usize,
    index: int,
    fresh: usize,
    branch: PageEntry,
)
    requires
        before.wf(),
        before.holds_frame(table as int),
        before.holds_frame(fresh as int),
        0 <= index < 512,
        branch == entry_at(before, table, index).with_flags(PageEntryFlags(0x01)).with_address(
            fresh,
        ),
        before.same_outside(cleared, fresh as int, 0x1000),
        forall|i: int|
            before.index_of(fresh as int) <= i < before.index_of(fresh + 0x1000)
                ==> cleared.words()[i] == 0,
        after.words() == cleared.words().update(before.index_of(table + 8 * index), branch.0),
    ensures
        after.words() == hang(before.base(), before.words(), table, index, fresh),
{
    lemma_table_words(before, table, index);
    lemma_table_words(before, fresh, 0);
    let target = hang(before.base(), before.words(), table, index, fresh);
    assert forall|i: int| 0 <= i < after.words().len() implies after.words()[i] == target[i] by {}
    assert(after.words() =~= target);
}

/// A slot that got a branch, and the new table below it, were written once.
#[verifier::spinoff_prover]
pub proof fn lemma_hung_once(
    root: &PageTable,
    grown: &PageTable,
    before: &PhysicalMemory,
    after: &PhysicalMemory,
    table: usize,
    index: int,
    fresh: usize,
)
    requires
        root.wf(before),
        root.tree().dom().contains(table),
        0 <= index < 512,
        !entry_at(before, table, index).holds_valid(),
        before.holds_frame(fresh as int),
        !root.tree().dom().contains(fresh),
        after.base() == before.base(),
        after.words() == hang(before.base(), before.words(), table, index, fresh),
        grown.tree().dom() =~= root.tree().dom().insert(fresh),
    ensures
        written_once(root, before, grown, after),
{
    reveal(written_once);
    let old = entry_at(before, table, index);
    let branch = old.with_flags(PageEntryFlags(0x01)).with_address(fresh);
    lemma_with_flags(old.0, 0x01);
    lemma_with_address(old.with_flags(PageEntryFlags(0x01)).0, fresh as u64);
    assert(0x01u8 & 0x01 != 0 && 0x01u8 & 0x0e == 0) by (bit_vector);
    assert(slot_written(old, branch));
    lemma_table_words(before, table, index);
    lemma_table_words(before, fresh, 0);
    assert forall|other: usize, position: int|
        #![trigger entry_at(after, other, position)]
        grown.tree().dom().contains(other) && 0 <= position < 512 implies slot_written(
        slot_before(root, before, other, position),
        entry_at(after, other, position),
    ) by {
        lemma_table_words(before, other, position);
        if other != fresh {
            lemma_tables_apart(before, fresh, other);
        }
        if other != table {
            lemma_tables_apart(before, table, other);
        }
    }
}

/// A slot that got a leaf was written once.
#[verifier::spinoff_prover]
pub proof fn lemma_planted_once(
    root: &PageTable,
    before: &PhysicalMemory,
    after: &PhysicalMemory,
    table: usize,
    index: int,
    flags: PageEntryFlags,
    from_addr: usize,
)
    requires
        root.wf(before),
        root.tree().dom().contains(table),
        0 <= index < 512,
        !entry_at(before, table, index).holds_valid(),
        flags.describes_leaf(),
        after.base() == before.base(),
        after.words() == plant(before.base(), before.words(), table, index, flags, from_addr),
    ensures
        written_once(root, before, root, after),
{
    reveal(written_once);
    let old = entry_at(before, table, index);
    let with = PageEntryFlags(flags.0 | 0x01);
    let leaf = old.with_flags(with).with_address(from_addr);
    lemma_with_flags(old.0, with.0);
    lemma_with_address(old.with_flags(with).0, from_addr as u64);
    let bits = flags.0;
    assert((bits | 0x01) & 0x01 != 0 && ((bits | 0x01) & 0x0e != 0) == (bits & 0x0e != 0))
        by (bit_vector);
    assert(slot_written(old, leaf));
    lemma_table_words(before, table, index);
    assert forall|other: usize, position: int|
        #![trigger entry_at(after, other, position)]
        root.tree().dom().contains(other) && 0 <= position < 512 implies slot_written(
        slot_before(root, before, other, position),
        entry_at(after, other, position),
    ) by {
        lemma_table_words(before, other, position);
        if other != table {
            lemma_tables_apart(before, table, other);
        }
    }
}

/// A step down into an empty slot that got a new table.
#[verifier::spinoff_prover]
pub proof fn lemma_step_creates(
    before: Machine,
    after: Machine,
    cleared: &PhysicalMemory,
    table: usize,
    index: int,
    fresh: usize,
    branch: PageEntry,
    address: usize,
    level: int,
    needed: int,
)
    requires
        before.wf(),
        after.frames.wf(),
        has_free(&before.frames, needed),
        branch == entry_at(&before.memory, table, index).with_flags(
            PageEntryFlags(0x01),
        ).with_address(fresh),
        1 <= level <= 2,
        table_at(&before.memory, before.root.addr(), address, level) == Some(table),
        index == vpn(address, level),
        entry_at(&before.memory, table, index).kind() is Invalid,
        BitmapAllocator::allocates(
            &before.frames,
            &after.frames,
            1,
            PageEntryLevel::KiB4,
            Ok(fresh),
        ),
        before.memory.same_outside(cleared, fresh as int, 0x1000),
        forall|i: int|
            before.memory.index_of(fresh as int) <= i < before.memory.index_of(fresh + 0x1000)
                ==> cleared.words()[i] == 0,
        branch.kind() is Branch,
        branch.address() as u64 == (fresh as u64) & ADDRESS_FIELD,
        after.memory.base() == before.memory.base(),
        after.memory.words() == cleared.words().update(
            before.memory.index_of(table + 8 * index),
            branch.0,
        ),
        after.root.addr() == before.root.addr(),
        after.root.tree() == before.root.tree().insert(
            fresh,
            TableNode { level: level - 1, parent: table, index },
        ),
    ensures
        descended(before, after, table, index, address, level, needed, Ok(fresh)),
{
    let node = TableNode { level: level - 1, parent: table, index };
    lemma_fresh_frame(
        &before.root,
        &after.root,
        &before.frames,
        &after.frames,
        &before.memory,
        fresh,
        node,
    );
    lemma_table_hung(
        &before.root,
        &after.root,
        &before.memory,
        cleared,
        &after.memory,
        table,
        index,
        fresh,
        branch,
        address,
        level,
    );
    assert(after.frames.within(&after.memory));
    lemma_vpn_range(address);
    lemma_walk_in_tree(&before.root, &before.memory, address, level);
    lemma_hung_words(&before.memory, cleared, &after.memory, table, index, fresh, branch);
    lemma_hung_once(&before.root, &after.root, &before.memory, &after.memory, table, index, fresh);
    lemma_frames_kept_step(&before.root, &before.frames, &after.root, &after.frames, fresh);
    reveal(descended);
}

/// Where a frame is free, the allocation of one frame does not fail.
#[verifier::spinoff_prover]
pub proof fn lemma_frame_there(
    before: &BitmapAllocator,
    after: &BitmapAllocator,
    needed: int,
    result: Result<usize, MemoryError>,
)
    requires
        1 <= needed <= 2,
        has_free(before, needed),
        BitmapAllocator::allocates(before, after, 1, PageEntryLevel::KiB4, result),
    ensures
        result is Ok,
{
    let level = PageEntryLevel::KiB4;
    if needed == 1 {
        let first = choose|first: int| before.fits(first, 1, level);
        assert(before.fits(first, 1, level));
    } else {
        let (first, second) = choose|first: int, second: int|
            first != second && before.fits(first, 1, level) && before.fits(second, 1, level);
        assert(before.fits(first, 1, level));
    }
}

/// A step down that changes nothing: it follows a branch, or it stops at a
/// leaf or for want of a frame.
#[verifier::spinoff_prover]
pub proof fn lemma_step_leaves(
    before: Machine,
    after: Machine,
    table: usize,
    index: int,
    address: usize,
    level: int,
    needed: int,
    result: Result<usize, MemoryError>,
)
    requires
        before.wf(),
        1 <= level <= 2,
        table_at(&before.memory, before.root.addr(), address, level) == Some(table),
        index == vpn(address, level),
        after.root == before.root,
        after.memory.base() == before.memory.base(),
        after.memory.words() == before.memory.words(),
        after.frames.wf(),
        tables_taken(&before.frames, &after.frames, 0),
        match entry_at(&before.memory, table, index).kind() {
            PageEntryType::Leaf => result == Err::<usize, MemoryError>(
                MemoryError::StructuralInconsistency,
            ),
            PageEntryType::Branch(next) => result == Ok::<usize, MemoryError>(next),
            PageEntryType::Invalid => result == Err::<usize, MemoryError>(
                MemoryError::AllocationExhausted,
            ) && !has_free(&before.frames, needed),
        },
    ensures
        descended(before, after, table, index, address, level, needed, result),
{
    lemma_same_words(&before.root, &before.memory, &after.memory);
    assert(after.root.owned(&after.frames)) by {
        assert forall|other: usize| #[trigger]
            after.root.tree().dom().contains(other) implies after.frames.start() <= other
            && after.frames.frame_of(other as int) < after.frames.num_frames()
            && after.frames.bits()[after.frames.frame_of(other as int)] by {
            assert(before.frames.bits()[before.frames.frame_of(other as int)]);
        }
    }
    lemma_nothing_written_once(&before.root, &before.memory, &after.root, &after.memory);
    lemma_frames_kept_same(&before.root, &before.frames, &after.root, &after.frames);
    assert(before.grows_to(after));
    reveal(descended);
}

/// What the walk leaves as it was: the state it starts in.
#[verifier::spinoff_prover]
pub proof fn lemma_walk_starts(start: Machine, to_addr: usize, level: PageEntryLevel)
    requires
        start.wf(),
    ensures
        walking(start, start, start.root.addr(), 2, to_addr, level, 0),
{
    lemma_grows_to_self(start);
    reveal(walking);
}

/// What the walk can rely on at each table it comes to.
#[verifier::spinoff_prover]
pub proof fn lemma_walk_holds(
    start: Machine,
    now: Machine,
    table: usize,
    at: int,
    to_addr: usize,
    level: PageEntryLevel,
    created: int,
)
    requires
        walking(start, now, table, at, to_addr, level, created),
    ensures
        now.wf(),
        start.grows_to(now),
        level.number() <= at <= 2,
        table_at(&now.memory, now.root.addr(), to_addr, at) == Some(table),
{
    reveal(walking);
}

/// The walk after a step down: it has come to the next table.
#[verifier::spinoff_prover]
pub proof fn lemma_walk_steps(
    start: Machine,
    now: Machine,
    next: Machine,
    table: usize,
    at: int,
    to_addr: usize,
    level: PageEntryLevel,
    created: int,
    child: usize,
)
    requires
        walking(start, now, table, at, to_addr, level, created),
        at > level.number(),
        descended(
            now,
            next,
            table,
            vpn(to_addr, at),
            to_addr,
            at,
            at - level.number(),
            Ok(child),
        ),
    ensures
        walking(
            start,
            next,
            child,
            at - 1,
            to_addr,
            level,
            created + if entry_at(&now.memory, table, vpn(to_addr, at)).kind() is Invalid {
                1int
            } else {
                0int
            },
        ),
{
    reveal(walking);
    reveal(descended);
    let root = start.root.addr();
    let index = vpn(to_addr, at);
    let found = entry_at(&now.memory, table, index).kind();
    let number = level.number();
    lemma_vpn_range(to_addr);
    lemma_grows_on(start, now, next);
    assert(table_at(&next.memory, root, to_addr, at) == Some(table));
    if found is Invalid {
        lemma_frame_used_up(&now.frames, &next.frames, child);
        assert(tables_taken(&now.frames, &next.frames, 1));
        lemma_tables_add_up(&start.frames, &now.frames, &next.frames, created, 1);
        assert(table_at(&now.memory, root, to_addr, at - 1) is None);
        assert(!entry_at(&next.memory, child, vpn(to_addr, at - 1)).holds_valid());
        assert(missing_tables(&now.memory, root, to_addr, level) == at - number);
        assert(missing_tables(&next.memory, root, to_addr, level) == at - number - 1);
        assert(has_free(&now.frames, at - number));
        assert(has_free(&next.frames, at - number - 1));
        if created == 0 {
            lemma_same_frames(&start.frames, &now.frames);
            assert(has_free(&now.frames, 1));
            assert(has_free(&start.frames, 1));
        } else {
            let first = choose|first: usize|
                BitmapAllocator::allocates(
                    &start.frames,
                    &now.frames,
                    1,
                    PageEntryLevel::KiB4,
                    Ok(first),
                );
            lemma_frame_used_up(&start.frames, &now.frames, first);
        }
        assert(walk_outcome(&next.memory, &next.frames, root, to_addr, level) == walk_outcome(
            &now.memory,
            &now.frames,
            root,
            to_addr,
            level,
        ));
    } else {
        lemma_same_words(&now.root, &now.memory, &next.memory);
        lemma_same_frames(&now.frames, &next.frames);
        lemma_tables_add_up(&start.frames, &now.frames, &next.frames, created, 0);
        assert forall|other: usize, position: int| #[trigger]
            entry_at(&next.memory, other, position) == entry_at(&now.memory, other, position) by {}
        assert(walk_outcome(&next.memory, &next.frames, root, to_addr, level) == walk_outcome(
            &now.memory,
            &now.frames,
            root,
            to_addr,
            level,
        ));
        assert(created == 0) by {
            assert(entry_at(&now.memory, table, index).holds_valid());
        }
    }
}

/// The walk that stops on its way down: `map` fails, and how.
#[verifier::spinoff_prover]
pub proof fn lemma_walk_stops(
    start: Machine,
    now: Machine,
    next: Machine,
    table: usize,
    at: int,
    from_addr: usize,
    to_addr: usize,
    flags: PageEntryFlags,
    level: PageEntryLevel,
    created: int,
    error: MemoryError,
)
    requires
        walking(start, now, table, at, to_addr, level, created),
        at > level.number(),
        descended(
            now,
            next,
            table,
            vpn(to_addr, at),
            to_addr,
            at,
            at - level.number(),
            Err(error),
        ),
        level.aligned(to_addr),
        level.aligned(from_addr),
        flags.describes_leaf(),
    ensures
        translated(start, next, from_addr, to_addr, flags, level, Err(error)),
{
    reveal(walking);
    reveal(descended);
    reveal(translated);
    let root = start.root.addr();
    let index = vpn(to_addr, at);
    let found = entry_at(&now.memory, table, index).kind();
    let number = level.number();
    lemma_vpn_range(to_addr);
    lemma_grows_on(start, now, next);
    lemma_same_words(&now.root, &now.memory, &next.memory);
    lemma_same_frames(&now.frames, &next.frames);
    lemma_tables_add_up(&start.frames, &now.frames, &next.frames, created, 0);
    if found is Leaf {
        assert(leaf_at(&now.memory, root, to_addr, at));
        assert(created == 0) by {
            assert(entry_at(&now.memory, table, index).holds_valid());
        }
    } else {
        assert(table_at(&now.memory, root, to_addr, at - 1) is None);
        assert(missing_tables(&now.memory, root, to_addr, level) == at - number);
        assert(!has_free(&now.frames, at - number));
        assert(created == 0);
        lemma_same_frames(&start.frames, &now.frames);
    }
}

/// After the last step the state is in order, and grown from the start.
#[verifier::spinoff_prover]
proof fn lemma_end_state(
    start: Machine,
    now: Machine,
    end: Machine,
    table: usize,
    from_addr: usize,
    to_addr: usize,
    flags: PageEntryFlags,
    level: PageEntryLevel,
    created: int,
    result: Result<(), MemoryError>,
)
    requires
        walking(start, now, table, level.number(), to_addr, level, created),
        end.root == now.root,
        end.frames == now.frames,
        installed(
            &now.root,
            &now.memory,
            &end.memory,
            table,
            vpn(to_addr, level.number()),
            from_addr,
            flags,
            to_addr,
            level,
            result,
        ),
        flags.describes_leaf(),
    ensures
        end.wf(),
        start.grows_to(end),
{
    let number = level.number();
    lemma_walk_holds(start, now, table, number, to_addr, level, created);
    lemma_walk_in_tree(&now.root, &now.memory, to_addr, number);
    lemma_vpn_range(to_addr);
    assert(written_once(&now.root, &now.memory, &end.root, &end.memory)) by {
        reveal(installed);
        if result is Ok {
            lemma_planted_once(
                &now.root,
                &now.memory,
                &end.memory,
                table,
                vpn(to_addr, number),
                flags,
                from_addr,
            );
        } else {
            lemma_nothing_written_once(&now.root, &now.memory, &end.root, &end.memory);
        }
    }
    lemma_frames_kept_same(&now.root, &now.frames, &end.root, &end.frames);
    assert(end.wf() && now.grows_to(end)) by {
        reveal(installed);
        assert forall|i: int|
            0 <= i < now.memory.words().len() && #[trigger] end.memory.words()[i]
                != now.memory.words()[i] implies exists|changed: usize| #[trigger]
            end.root.tree().dom().contains(changed) && table_start(&now.memory, changed) <= i
                < table_start(&now.memory, changed) + 512 by {
            assert(end.root.tree().dom().contains(table));
        }
    }
    lemma_grows_on(start, now, end);
}

/// The last step ends as the walk from the start was bound to end.
#[verifier::spinoff_prover]
proof fn lemma_end_outcome(
    start: Machine,
    now: Machine,
    end: Machine,
    table: usize,
    from_addr: usize,
    to_addr: usize,
    flags: PageEntryFlags,
    level: PageEntryLevel,
    created: int,
    result: Result<(), MemoryError>,
)
    requires
        walking(start, now, table, level.number(), to_addr, level, created),
        end.root == now.root,
        end.frames == now.frames,
        installed(
            &now.root,
            &now.memory,
            &end.memory,
            table,
            vpn(to_addr, level.number()),
            from_addr,
            flags,
            to_addr,
            level,
            result,
        ),
    ensures
        result == walk_outcome(
            &start.memory,
            &start.frames,
            start.root.addr(),
            to_addr,
            level,
        ),
{
    let root = start.root.addr();
    let number = level.number();
    assert(table_at(&now.memory, root, to_addr, number) == Some(table)) by {
        reveal(walking);
    }
    assert((number < 2 ==> !leaf_at(&now.memory, root, to_addr, 2)) && (number < 1 ==> !leaf_at(
        &now.memory,
        root,
        to_addr,
        1,
    )));
    assert(result is Ok <==> !entry_at(&now.memory, table, vpn(to_addr, number)).holds_valid())
        by {
        reveal(installed);
    }
    assert(result matches Err(error) ==> error == MemoryError::AlreadyMapped) by {
        reveal(installed);
    }
    let taken = entry_at(&now.memory, table, vpn(to_addr, number)).holds_valid();
    assert(walk_outcome(&now.memory, &now.frames, root, to_addr, level) == if taken {
        Err::<(), MemoryError>(MemoryError::AlreadyMapped)
    } else {
        Ok::<(), MemoryError>(())
    });
    match result {
        Ok(unit) => {
            assert(unit == ());
        },
        Err(error) => {
            assert(result == Err::<(), MemoryError>(error));
        },
    }
    assert(walk_outcome(&now.memory, &now.frames, root, to_addr, level) == walk_outcome(
        &start.memory,
        &start.frames,
        root,
        to_addr,
        level,
    )) by {
        reveal(walking);
    }
}

/// The translations after the last step, told from those at the start.
#[verifier::spinoff_prover]
proof fn lemma_end_translations(
    start: Machine,
    now: Machine,
    end: Machine,
    table: usize,
    from_addr: usize,
    to_addr: usize,
    flags: PageEntryFlags,
    level: PageEntryLevel,
    created: int,
    result: Result<(), MemoryError>,
)
    requires
        walking(start, now, table, level.number(), to_addr, level, created),
        end.root == now.root,
        end.frames == now.frames,
        installed(
            &now.root,
            &now.memory,
            &end.memory,
            table,
            vpn(to_addr, level.number()),
            from_addr,
            flags,
            to_addr,
            level,
            result,
        ),
    ensures
        maps(
            &start.memory,
            &end.memory,
            start.root.addr(),
            from_addr,
            to_addr,
            flags,
            level,
            result,
        ),
{
    reveal(walking);
    reveal(installed);
}

/// The frames after the last step: one was taken for each table that the
/// walk lacked at the start.
#[verifier::spinoff_prover]
proof fn lemma_end_frames(
    start: Machine,
    now: Machine,
    end: Machine,
    table: usize,
    from_addr: usize,
    to_addr: usize,
    flags: PageEntryFlags,
    level: PageEntryLevel,
    created: int,
    result: Result<(), MemoryError>,
)
    requires
        walking(start, now, table, level.number(), to_addr, level, created),
        end.root == now.root,
        end.frames == now.frames,
        installed(
            &now.root,
            &now.memory,
            &end.memory,
            table,
            vpn(to_addr, level.number()),
            from_addr,
            flags,
            to_addr,
            level,
            result,
        ),
    ensures
        tables_taken(
            &start.frames,
            &end.frames,
            tables_created(
                &start.memory,
                &start.frames,
                start.root.addr(),
                to_addr,
                level,
                result,
            ),
        ),
{
    let root = start.root.addr();
    let number = level.number();
    assert(table_at(&now.memory, root, to_addr, number) == Some(table)) by {
        reveal(walking);
    }
    assert(missing_tables(&now.memory, root, to_addr, level) == 0);
    assert(result is Err ==> entry_at(&now.memory, table, vpn(to_addr, number)).holds_valid())
        by {
        reveal(installed);
    }
    assert(created == missing_tables(&start.memory, root, to_addr, level) && tables_taken(
        &start.frames,
        &now.frames,
        created,
    ) && (created > 0 ==> !entry_at(&now.memory, table, vpn(to_addr, number)).holds_valid()))
        by {
        reveal(walking);
        lemma_vpn_range(to_addr);
    }
}

/// A last step that fails would fail again.
#[verifier::spinoff_prover]
proof fn lemma_end_stable(
    start: Machine,
    now: Machine,
    end: Machine,
    table: usize,
    from_addr: usize,
    to_addr: usize,
    flags: PageEntryFlags,
    level: PageEntryLevel,
    created: int,
    result: Result<(), MemoryError>,
)
    requires
        walking(start, now, table, level.number(), to_addr, level, created),
        end.root == now.root,
        end.frames == now.frames,
        installed(
            &now.root,
            &now.memory,
            &end.memory,
            table,
            vpn(to_addr, level.number()),
            from_addr,
            flags,
            to_addr,
            level,
            result,
        ),
    ensures
        result is Err ==> walk_outcome(
            &end.memory,
            &end.frames,
            start.root.addr(),
            to_addr,
            level,
        ) == result,
{
    let root = start.root.addr();
    let number = level.number();
    if result is Err {
        lemma_end_outcome(start, now, end, table, from_addr, to_addr, flags, level, created, result);
        assert(walk_outcome(&now.memory, &now.frames, root, to_addr, level) == result) by {
            reveal(walking);
        }
        assert(end.memory.words() == now.memory.words() && end.memory.base()
            == now.memory.base() && now.root.wf(&now.memory)) by {
            reveal(installed);
            reveal(walking);
        }
        lemma_same_words(&now.root, &now.memory, &end.memory);
        assert forall|other: usize, position: int| #[trigger]
            entry_at(&end.memory, other, position) == entry_at(&now.memory, other, position) by {}
    }
}

/// The walk that comes to the slot for the leaf: `map` ends as the last step
/// does.
#[verifier::spinoff_prover]
pub proof fn lemma_walk_ends(
    start: Machine,
    now: Machine,
    end: Machine,
    table: usize,
    from_addr: usize,
    to_addr: usize,
    flags: PageEntryFlags,
    level: PageEntryLevel,
    created: int,
    result: Result<(), MemoryError>,
)
    requires
        walking(start, now, table, level.number(), to_addr, level, created),
        end.root == now.root,
        end.frames == now.frames,
        installed(
            &now.root,
            &now.memory,
            &end.memory,
            table,
            vpn(to_addr, level.number()),
            from_addr,
            flags,
            to_addr,
            level,
            result,
        ),
        level.aligned(to_addr),
        level.aligned(from_addr),
        flags.describes_leaf(),
    ensures
        translated(start, end, from_addr, to_addr, flags, level, result),
{
    lemma_end_state(start, now, end, table, from_addr, to_addr, flags, level, created, result);
    lemma_end_outcome(start, now, end, table, from_addr, to_addr, flags, level, created, result);
    lemma_end_translations(start, now, end, table, from_addr, to_addr, flags, level, created, result);
    lemma_end_frames(start, now, end, table, from_addr, to_addr, flags, level, created, result);
    lemma_end_stable(start, now, end, table, from_addr, to_addr, flags, level, created, result);
    reveal(translated);
}

/// A call of `map` that is turned down for its arguments changes nothing.
#[verifier::spinoff_prover]
pub proof fn lemma_turned_down(
    start: Machine,
    from_addr: usize,
    to_addr: usize,
    flags: PageEntryFlags,
    level: PageEntryLevel,
)
    requires
        start.wf(),
        !level.aligned(to_addr) || !level.aligned(from_addr) || !flags.describes_leaf(),
    ensures
        translated(
            start,
            start,
            from_addr,
            to_addr,
            flags,
            level,
            map_outcome(
                &start.memory,
                &start.frames,
                start.root.addr(),
                from_addr,
                to_addr,
                flags,
                level,
            ),
        ),
{
    lemma_grows_to_self(start);
    reveal(translated);
}

/// Before the walk has hung in a table, the state is the one it started in.
#[verifier::spinoff_prover]
pub proof fn lemma_grown_starts(start: Machine, to_addr: usize)
    ensures
        grown(start, start, to_addr, 2, 0),
{
    reveal(grown);
}

/// The state after a step down, told from the start: where the step has hung
/// in a table, the state has grown by that table.
#[verifier::spinoff_prover]
pub proof fn lemma_grown_steps(
    start: Machine,
    now: Machine,
    next: Machine,
    table: usize,
    at: int,
    to_addr: usize,
    level: PageEntryLevel,
    created: int,
    child: usize,
)
    requires
        walking(start, now, table, at, to_addr, level, created),
        grown(start, now, to_addr, at, created),
        at > level.number(),
        descended(
            now,
            next,
            table,
            vpn(to_addr, at),
            to_addr,
            at,
            at - level.number(),
            Ok(child),
        ),
    ensures
        grown(
            start,
            next,
            to_addr,
            at - 1,
            created + if entry_at(&now.memory, table, vpn(to_addr, at)).kind() is Invalid {
                1int
            } else {
                0int
            },
        ),
{
    let root = start.root.addr();
    let index = vpn(to_addr, at);
    let found = entry_at(&now.memory, table, index).kind();
    lemma_vpn_range(to_addr);
    // the walk reads in `next` the tables that it read in `now`
    assert(now.memory.base() == start.memory.base() && now.root.addr() == root && 0 <= created
        <= 1 + (2 - at) && table_at(&now.memory, root, to_addr, at) == Some(table) && (created > 0
        ==> !entry_at(&now.memory, table, index).holds_valid()) && (found is Invalid ==> created
        <= 1 && at + created <= 2) && tables_taken(&start.frames, &now.frames, created)) by {
        reveal(walking);
    }
    assert(table_at(&next.memory, root, to_addr, at - 1) == Some(child) && table_at(
        &next.memory,
        root,
        to_addr,
        at,
    ) == Some(table) && (at < 2 ==> table_at(&next.memory, root, to_addr, at + 1) == table_at(
        &now.memory,
        root,
        to_addr,
        at + 1,
    ))) by {
        reveal(descended);
    }
    if found is Invalid {
        assert(next.memory.words() == hang(
            now.memory.base(),
            now.memory.words(),
            table,
            index,
            child,
        ) && next.root.tree() == now.root.tree().insert(
            child,
            TableNode { level: at - 1, parent: table, index },
        ) && BitmapAllocator::allocates(
            &now.frames,
            &next.frames,
            1,
            PageEntryLevel::KiB4,
            Ok(child),
        )) by {
            reveal(descended);
        }
        reveal(grown);
        if created == 0 {
            lemma_allocates_from_same(&start.frames, &now.frames, &next.frames, child);
        } else {
            assert(BitmapAllocator::allocates(
                &start.frames,
                &now.frames,
                1,
                PageEntryLevel::KiB4,
                Ok(path_table(&next.memory, root, to_addr, at)),
            ));
        }
    } else {
        assert(found is Branch && next.memory.words() == now.memory.words() && next.root.tree()
            == now.root.tree() && tables_taken(&now.frames, &next.frames, 0)) by {
            reveal(descended);
        }
        assert(created == 0);
        reveal(grown);
        lemma_tables_add_up(&start.frames, &now.frames, &next.frames, 0, 0);
    }
}

/// The state after a walk that has stopped on its way down: nothing is
/// written.
#[verifier::spinoff_prover]
pub proof fn lemma_grown_stops(
    start: Machine,
    now: Machine,
    next: Machine,
    table: usize,
    at: int,
    from_addr: usize,
    to_addr: usize,
    flags: PageEntryFlags,
    level: PageEntryLevel,
    created: int,
    error: MemoryError,
)
    requires
        walking(start, now, table, at, to_addr, level, created),
        grown(start, now, to_addr, at, created),
        at > level.number(),
        descended(
            now,
            next,
            table,
            vpn(to_addr, at),
            to_addr,
            at,
            at - level.number(),
            Err(error),
        ),
    ensures
        written(start, next, from_addr, to_addr, flags, level, Err(error)),
{
    let root = start.root.addr();
    let index = vpn(to_addr, at);
    let number = level.number();
    lemma_vpn_range(to_addr);
    assert(created == 0 && tables_taken(&start.frames, &now.frames, 0)) by {
        reveal(walking);
        reveal(descended);
        if entry_at(&now.memory, table, index).kind() is Leaf {
            assert(entry_at(&now.memory, table, index).holds_valid());
        } else {
            assert(table_at(&now.memory, root, to_addr, at - 1) is None);
            assert(missing_tables(&now.memory, root, to_addr, level) == at - number);
        }
    }
    assert(next.memory.words() == now.memory.words() && next.root.tree() == now.root.tree()
        && tables_taken(&now.frames, &next.frames, 0)) by {
        reveal(descended);
    }
    lemma_tables_add_up(&start.frames, &now.frames, &next.frames, 0, 0);
    reveal(grown);
    reveal(written);
}

/// The state after the last step, told from the start: the leaf is planted
/// in the state grown by the tables that the walk lacked, and a step that
/// fails has written nothing.
#[verifier::spinoff_prover]
pub proof fn lemma_grown_ends(
    start: Machine,
    now: Machine,
    end: Machine,
    table: usize,
    from_addr: usize,
    to_addr: usize,
    flags: PageEntryFlags,
    level: PageEntryLevel,
    created: int,
    result: Result<(), MemoryError>,
)
    requires
        walking(start, now, table, level.number(), to_addr, level, created),
        grown(start, now, to_addr, level.number(), created),
        end.root == now.root,
        end.frames == now.frames,
        installed(
            &now.root,
            &now.memory,
            &end.memory,
            table,
            vpn(to_addr, level.number()),
            from_addr,
            flags,
            to_addr,
            level,
            result,
        ),
    ensures
        written(start, end, from_addr, to_addr, flags, level, result),
{
    let root = start.root.addr();
    let number = level.number();
    let index = vpn(to_addr, number);
    lemma_vpn_range(to_addr);
    assert(now.memory.base() == start.memory.base() && now.root.addr() == root && now.root.wf(
        &now.memory,
    ) && table_at(&now.memory, root, to_addr, number) == Some(table) && created == missing_tables(
        &start.memory,
        root,
        to_addr,
        level,
    ) && (created > 0 ==> !entry_at(&now.memory, table, index).holds_valid())) by {
        reveal(walking);
    }
    if result is Ok {
        assert(keeps_entries(&now.root, &now.memory, &end.memory) && end.memory.words() == plant(
            now.memory.base(),
            now.memory.words(),
            table,
            index,
            flags,
            from_addr,
        )) by {
            reveal(installed);
        }
        lemma_path_kept(&now.root, &now.memory, &end.memory, to_addr, number);
        if number < 2 {
            lemma_path_kept(&now.root, &now.memory, &end.memory, to_addr, number + 1);
        }
        if number < 1 {
            lemma_path_kept(&now.root, &now.memory, &end.memory, to_addr, 2);
        }
        reveal(grown);
        reveal(written);
    } else {
        assert(end.memory.words() == now.memory.words() && entry_at(
            &now.memory,
            table,
            index,
        ).holds_valid()) by {
            reveal(installed);
        }
        assert(created == 0);
        reveal(grown);
        reveal(written);
    }
}

/// A call of `map` that is turned down for its arguments writes nothing.
#[verifier::spinoff_prover]
pub proof fn lemma_nothing_written(
    start: Machine,
    from_addr: usize,
    to_addr: usize,
    flags: PageEntryFlags,
    level: PageEntryLevel,
    error: MemoryError,
)
    ensures
        written(start, start, from_addr, to_addr, flags, level, Err(error)),
{
    reveal(written);
}

/// What `mapped` says, spelled out.
#[verifier::spinoff_prover]
pub proof fn lemma_mapped_holds(
    start: Machine,
    end: Machine,
    from_addr: usize,
    to_addr: usize,
    flags: PageEntryFlags,
    level: PageEntryLevel,
    result: Result<(), MemoryError>,
)
    requires
        mapped(start, end, from_addr, to_addr, flags, level, result),
    ensures
        end.wf(),
        start.grows_to(end),
        result is Err ==> {
            &&& end.memory.words() == start.memory.words()
            &&& end.root.tree() == start.root.tree()
            &&& tables_taken(&start.frames, &end.frames, 0)
        },
        result is Ok ==> {
            let root = start.root.addr();
            let number = level.number();
            let missing = missing_tables(&start.memory, root, to_addr, level);
            &&& end.memory.words() == plant(
                start.memory.base(),
                grown_words(&start.memory, &end.memory, root, to_addr, number, missing),
                path_table(&end.memory, root, to_addr, number),
                vpn(to_addr, number),
                flags,
                from_addr,
            )
            &&& end.root.tree() == grown_tree(
                start.root.tree(),
                &end.memory,
                root,
                to_addr,
                number,
                missing,
            )
            &&& frames_taken(
                &start.frames,
                &end.frames,
                &end.memory,
                root,
                to_addr,
                number,
                missing,
            )
        },
        result == map_outcome(
            &start.memory,
            &start.frames,
            start.root.addr(),
            from_addr,
            to_addr,
            flags,
            level,
        ),
        maps(
            &start.memory,
            &end.memory,
            start.root.addr(),
            from_addr,
            to_addr,
            flags,
            level,
            result,
        ),
        tables_taken(
            &start.frames,
            &end.frames,
            tables_created(
                &start.memory,
                &start.frames,
                start.root.addr(),
                to_addr,
                level,
                result,
            ),
        ),
        result is Err ==> map_outcome(
            &end.memory,
            &end.frames,
            start.root.addr(),
            from_addr,
            to_addr,
            flags,
            level,
        ) == result,
{
    reveal(translated);
    reveal(written);
}

} // verus!
