//! The frame allocator: one bit for each 4 KiB frame of a region, in words
//! of 64 bits, and first-fit searches for runs of frames in three sizes of
//! page. The contracts speak of the bitmap frame by frame, as a sequence of
//! booleans.

use super::arena::PhysicalMemory;
use super::bits::{
    lemma_combined_bit, lemma_run_mask_bit, lemma_set_bit_exists, make_run_mask, run_mask,
    word_bit,
};
use super::consts::FRAME_SIZE;
use super::paging::PageEntryLevel;
use super::MemoryError;
use vstd::prelude::*;

verus! {

/// Frames that one word of the bitmap tracks.
pub const BITMAP_ENTRY_BITS: usize = 64;

/// Bytes that one word of the bitmap tracks.
pub const BITMAP_ENTRY_SIZE_BYTES: usize = BITMAP_ENTRY_BITS * FRAME_SIZE;

/// `bits` with the `len` positions from `first` on set to `used`.
pub open spec fn with_run(bits: Seq<bool>, first: int, len: int, used: bool) -> Seq<bool> {
    Seq::new(
        bits.len(),
        |i: int|
            if first <= i < first + len {
                used
            } else {
                bits[i]
            },
    )
}

/// What a release of `count` pages of `level` at `address` makes of the bits
/// of a region of `frames` frames from `start` on: the bits with the run
/// cleared, if every frame of the run lies in the region and is in use.
pub open spec fn released_bits(
    start: usize,
    frames: int,
    bits: Seq<bool>,
    address: usize,
    count: usize,
    level: PageEntryLevel,
) -> Result<Seq<bool>, MemoryError> {
    let frame = (address - start) / 0x1000;
    let first = match level {
        PageEntryLevel::KiB4 => frame,
        _ => frame / 64 * 64,
    };
    let len = BitmapAllocator::run_frames(count, level);
    if count == 1 && level == PageEntryLevel::GiB1 {
        Err(MemoryError::UnsupportedOperation)
    } else if 0 <= first && first + len <= frames && (forall|i: int|
        first <= i < first + len ==> #[trigger] bits[i]) {
        Ok(with_run(bits, first, len, false))
    } else {
        Err(MemoryError::DoubleFree)
    }
}

/// The bookkeeping of the physical frames of one region: one bit per 4 KiB
/// frame, 64 frames per word, a set bit for a frame in use.
pub struct BitmapAllocator {
    bitmap: Vec<u64>,
    mem_start: usize,
    mem_end: usize,
}

impl BitmapAllocator {
    /// The words of the bitmap.
    pub closed spec fn words(&self) -> Seq<u64> {
        self.bitmap@
    }

    /// The address of the first frame of the region.
    pub closed spec fn start(&self) -> usize {
        self.mem_start
    }

    /// The address at which the region ends.
    pub closed spec fn end(&self) -> usize {
        self.mem_end
    }

    /// The number of whole frames in the region.
    pub open spec fn num_frames(&self) -> int {
        (self.end() - self.start()) / 0x1000
    }

    /// The bitmap frame by frame: position `i` tells whether the frame at
    /// `start() + i * 4096` is in use.
    pub open spec fn bits(&self) -> Seq<bool> {
        Seq::new(
            64 * self.words().len(),
            |i: int| word_bit(self.words()[i / 64], (i % 64) as u64),
        )
    }

    pub open spec fn wf(&self) -> bool {
        &&& self.start() % 0x1000 == 0
        &&& self.start() <= self.end()
        &&& self.num_frames() <= 64 * self.words().len() <= usize::MAX
    }

    /// The frames that the bitmap's own words would fill if they lay at the
    /// start of the region: its size in bytes, rounded up to whole frames.
    pub open spec fn reserved_frames(&self) -> int {
        (8 * self.words().len() as int + 0xfff) / 0x1000
    }

    /// Whether the `len` frames from `first` on lie in the region and are
    /// all free.
    pub open spec fn run_free(&self, first: int, len: int) -> bool {
        &&& 0 <= first
        &&& first + len <= self.num_frames()
        &&& forall|i: int| first <= i < first + len ==> !#[trigger] self.bits()[i]
    }

    /// Whether the `len` frames from `first` on lie in the region and are
    /// all in use.
    pub open spec fn run_used(&self, first: int, len: int) -> bool {
        &&& 0 <= first
        &&& first + len <= self.num_frames()
        &&& forall|i: int| first <= i < first + len ==> #[trigger] self.bits()[i]
    }

    /// The address of frame number `frame`.
    pub open spec fn frame_address(&self, frame: int) -> int {
        self.start() + frame * 0x1000
    }

    /// The number of the frame that holds `address`. It is negative for an
    /// address below the region.
    pub open spec fn frame_of(&self, address: int) -> int {
        (address - self.start()) / 0x1000
    }

    /// The number of 4 KiB frames in a run of `count` pages of `level`.
    pub open spec fn run_frames(count: usize, level: PageEntryLevel) -> int {
        match level {
            PageEntryLevel::KiB4 => count as int,
            PageEntryLevel::MiB2 => count * 512,
            PageEntryLevel::GiB1 => count * 0x4_0000,
        }
    }

    /// The number of the first frame of the region whose address lies on a
    /// page boundary of `level`.
    pub open spec fn aligned_origin(&self, level: PageEntryLevel) -> int {
        ((level.bytes() - self.start() as int % level.bytes()) % level.bytes()) / 0x1000
    }

    /// Whether the search for `count` pages of `level` looks at the run that
    /// starts with frame `first`. A run of up to 64 small frames must lie in
    /// one word of the bitmap. A longer run of small frames starts on a
    /// multiple of its whole words. A run of larger pages starts a whole
    /// number of runs behind the first page boundary of the region.
    pub open spec fn is_candidate(&self, first: int, count: usize, level: PageEntryLevel) -> bool {
        match level {
            PageEntryLevel::KiB4 => if count <= 64 {
                first % 64 + count <= 64
            } else {
                first % (64 * (count as int / 64)) == 0
            },
            _ => first >= self.aligned_origin(level) && (first - self.aligned_origin(level))
                % Self::run_frames(count, level) == 0,
        }
    }

    /// Whether the run that starts with frame `first` can serve a request for
    /// `count` pages of `level`.
    pub open spec fn fits(&self, first: int, count: usize, level: PageEntryLevel) -> bool {
        self.is_candidate(first, count, level) && self.run_free(
            first,
            Self::run_frames(count, level),
        )
    }

    /// Whether `first` starts the lowest run that can serve the request.
    pub open spec fn first_fit(&self, first: int, count: usize, level: PageEntryLevel) -> bool {
        &&& self.fits(first, count, level)
        &&& forall|lower: int| 0 <= lower < first ==> !self.fits(lower, count, level)
    }

    /// The error with which a request is turned down whatever the bitmap
    /// holds: a single page of the largest level is not supported, and larger
    /// pages need a region whose words start on page boundaries.
    pub open spec fn refusal(&self, count: usize, level: PageEntryLevel) -> Option<MemoryError> {
        if count == 1 && level == PageEntryLevel::GiB1 {
            Some(MemoryError::UnsupportedOperation)
        } else if level != PageEntryLevel::KiB4 && self.start() % 0x4_0000 != 0 {
            Some(MemoryError::MisalignedAddress)
        } else {
            None
        }
    }

    /// What an allocation of `count` pages of `level` does: it marks the
    /// lowest fitting run and returns its address, or it changes nothing and
    /// says why no run was found.
    pub open spec fn allocates(
        before: &Self,
        after: &Self,
        count: usize,
        level: PageEntryLevel,
        result: Result<usize, MemoryError>,
    ) -> bool {
        &&& after.start() == before.start()
        &&& after.end() == before.end()
        &&& after.words().len() == before.words().len()
        &&& match result {
            Ok(address) => {
                let first = before.frame_of(address as int);
                &&& before.refusal(count, level) is None
                &&& address == before.frame_address(first)
                &&& before.first_fit(first, count, level)
                &&& after.bits() == with_run(
                    before.bits(),
                    first,
                    Self::run_frames(count, level),
                    true,
                )
            },
            Err(error) => {
                &&& after.bits() == before.bits()
                &&& match before.refusal(count, level) {
                    Some(refused) => error == refused,
                    None => error == MemoryError::AllocationExhausted && forall|first: int|
                        !before.fits(first, count, level),
                }
            },
        }
    }

    /// The first frame of the run that a release at `address` clears: the
    /// frame that holds the address, and for larger pages the first frame of
    /// the bitmap word that tracks it.
    pub open spec fn release_first(&self, address: usize, level: PageEntryLevel) -> int {
        match level {
            PageEntryLevel::KiB4 => self.frame_of(address as int),
            _ => self.frame_of(address as int) / 64 * 64,
        }
    }

    /// What a release of `count` pages of `level` at `address` does: it
    /// clears the run if every frame of it was in use, and changes nothing
    /// otherwise.
    pub open spec fn releases(
        before: &Self,
        after: &Self,
        address: usize,
        count: usize,
        level: PageEntryLevel,
        result: Result<(), MemoryError>,
    ) -> bool {
        let first = before.release_first(address, level);
        let len = Self::run_frames(count, level);
        let unsupported = count == 1 && level == PageEntryLevel::GiB1;
        &&& after.start() == before.start()
        &&& after.end() == before.end()
        &&& after.words().len() == before.words().len()
        &&& match result {
            Ok(()) => {
                &&& !unsupported
                &&& before.run_used(first, len)
                &&& after.bits() == with_run(before.bits(), first, len, false)
            },
            Err(error) => {
                &&& after.bits() == before.bits()
                &&& if unsupported {
                    error == MemoryError::UnsupportedOperation
                } else {
                    error == MemoryError::DoubleFree && !before.run_used(first, len)
                }
            },
        }
    }

    /// The bitmap after a release of `count` pages of `level` at `address`,
    /// or the error with which the release fails.
    pub open spec fn release_outcome(
        &self,
        address: usize,
        count: usize,
        level: PageEntryLevel,
    ) -> Result<Seq<bool>, MemoryError> {
        released_bits(self.start(), self.num_frames(), self.bits(), address, count, level)
    }

    /// Whether the region has `count` free frames, for a count of up to two.
    pub open spec fn has_free_frames(&self, count: int) -> bool {
        if count <= 0 {
            true
        } else if count == 1 {
            exists|first: int| self.fits(first, 1, PageEntryLevel::KiB4)
        } else {
            exists|first: int, second: int|
                first != second && self.fits(first, 1, PageEntryLevel::KiB4) && self.fits(
                    second,
                    1,
                    PageEntryLevel::KiB4,
                )
        }
    }

    /// Whether the region lies in `memory`.
    pub open spec fn within(&self, memory: &PhysicalMemory) -> bool {
        memory.base() <= self.start() && self.end() <= memory.end()
    }

    pub fn new() -> (allocator: Self)
        ensures
            allocator.wf(),
            allocator.start() == 0,
            allocator.end() == 0,
            allocator.words().len() == 0,
    {
        Self { bitmap: Vec::new(), mem_start: 0, mem_end: 0 }
    }

    /// The words of the bitmap, the word of the lowest frames first.
    pub fn bitmap_slice(&self) -> (words: &[u64])
        ensures
            words@ == self.words(),
    {
        self.bitmap.as_slice()
    }

    /// The address of the first frame of the region.
    pub fn region_start(&self) -> (start: usize)
        ensures
            start == self.start(),
    {
        self.mem_start
    }

    /// The address at which the region ends.
    pub fn region_end(&self) -> (end: usize)
        ensures
            end == self.end(),
    {
        self.mem_end
    }

    /// The number of whole frames in the region.
    pub fn frame_count(&self) -> (frames: usize)
        requires
            self.wf(),
        ensures
            frames == self.num_frames(),
    {
        (self.mem_end - self.mem_start) / FRAME_SIZE
    }

    /// Whether the frame that holds `address` is marked as used. An address
    /// that the bitmap does not track is not.
    pub fn is_used(&self, address: usize) -> (used: bool)
        requires
            self.wf(),
        ensures
            used == (0 <= self.frame_of(address as int) < self.bits().len() && self.bits()[self.frame_of(
                address as int,
            )]),
    {
        if address < self.mem_start {
            return false;
        }
        let (index, bit) = self.bitmap_entry_index_bit(address);
        if index >= self.bitmap.len() {
            return false;
        }
        (self.bitmap[index] >> bit) & 1 == 1
    }

    /// Whether the region has `count` free frames, for a count of up to two.
    /// Changes nothing: a caller that needs several frames for one piece of
    /// work can ask before it takes the first.
    #[verifier::spinoff_prover]
    pub fn can_take(&self, count: usize) -> (enough: bool)
        requires
            self.wf(),
            count <= 2,
        ensures
            enough == self.has_free_frames(count as int),
    {
        if count == 0 {
            return true;
        }
        let frames: usize = self.frame_count();
        let mut found: usize = 0;
        let ghost mut first: int = 0;
        let mut frame: usize = 0;
        while frame < frames
            invariant
                self.wf(),
                frames == self.num_frames(),
                1 <= count <= 2,
                frame <= frames,
                found < count,
                found == 0 ==> forall|j: int| 0 <= j < frame ==> #[trigger] self.bits()[j],
                found == 1 ==> 0 <= first < frame && !self.bits()[first] && forall|j: int|
                    0 <= j < frame && j != first ==> #[trigger] self.bits()[j],
            decreases frames - frame,
        {
            let word: u64 = self.bitmap[frame / BITMAP_ENTRY_BITS];
            let used: bool = (word >> (frame % BITMAP_ENTRY_BITS)) & 1 == 1;
            assert(used == self.bits()[frame as int]);
            if !used {
                if found + 1 == count {
                    proof {
                        assert(self.fits(frame as int, 1, PageEntryLevel::KiB4));
                        if count == 2 {
                            assert(self.fits(first, 1, PageEntryLevel::KiB4));
                        }
                    }
                    return true;
                }
                proof {
                    first = frame as int;
                }
                found += 1;
            }
            frame += 1;
        }
        proof {
            if count == 1 {
                assert forall|free: int| !self.fits(free, 1, PageEntryLevel::KiB4) by {
                    if self.fits(free, 1, PageEntryLevel::KiB4) {
                        assert(!self.bits()[free]);
                    }
                }
            } else {
                assert forall|one: int, two: int|
                    !(one != two && self.fits(one, 1, PageEntryLevel::KiB4) && self.fits(
                        two,
                        1,
                        PageEntryLevel::KiB4,
                    )) by {
                    if self.fits(one, 1, PageEntryLevel::KiB4) && self.fits(
                        two,
                        1,
                        PageEntryLevel::KiB4,
                    ) {
                        assert(!self.bits()[one]);
                        assert(!self.bits()[two]);
                    }
                }
            }
        }
        false
    }

    /// Returns (entry_index, entry_bit)
    pub fn bitmap_entry_index_bit(&self, address: usize) -> (place: (usize, usize))
        requires
            address >= self.start(),
        ensures
            place.0 == self.frame_of(address as int) / 64,
            place.1 == self.frame_of(address as int) % 64,
    {
        (
            (address - self.mem_start) / BITMAP_ENTRY_SIZE_BYTES,
            ((address - self.mem_start) / FRAME_SIZE) % BITMAP_ENTRY_BITS,
        )
    }

    /// Marks the frame that holds `address` as used.
    #[verifier::spinoff_prover]
    pub fn set_used(&mut self, address: usize)
        requires
            address >= old(self).start(),
            old(self).frame_of(address as int) < old(self).bits().len(),
        ensures
            final(self).start() == old(self).start(),
            final(self).end() == old(self).end(),
            final(self).words().len() == old(self).words().len(),
            final(self).bits() == with_run(
                old(self).bits(),
                old(self).frame_of(address as int),
                1,
                true,
            ),
    {
        let (index, bit) = self.bitmap_entry_index_bit(address);
        let word: u64 = self.bitmap[index];
        self.bitmap[index] = word | (1u64 << bit);
        proof {
            assert(1u64 << (bit as u64) == run_mask(bit as u64, (bit + 1) as u64)) by (bit_vector)
                requires
                    bit < 64,
            ;
            self.lemma_word_changed(old(self), index as int, bit as int, bit + 1, true);
        }
    }

    /// Marks the frame that holds `address` as free.
    #[verifier::spinoff_prover]
    pub fn set_unused(&mut self, address: usize)
        requires
            address >= old(self).start(),
            old(self).frame_of(address as int) < old(self).bits().len(),
        ensures
            final(self).start() == old(self).start(),
            final(self).end() == old(self).end(),
            final(self).words().len() == old(self).words().len(),
            final(self).bits() == with_run(
                old(self).bits(),
                old(self).frame_of(address as int),
                1,
                false,
            ),
    {
        let (index, bit) = self.bitmap_entry_index_bit(address);
        let word: u64 = self.bitmap[index];
        self.bitmap[index] = word & !(1u64 << bit);
        proof {
            assert(1u64 << (bit as u64) == run_mask(bit as u64, (bit + 1) as u64)) by (bit_vector)
                requires
                    bit < 64,
            ;
            self.lemma_word_changed(old(self), index as int, bit as int, bit + 1, false);
        }
    }

    /// What the frame-by-frame view becomes when one word takes up, or
    /// drops, the bits of a run mask.
    #[verifier::spinoff_prover]
    proof fn lemma_word_changed(&self, before: &Self, index: int, low: int, high: int, used: bool)
        requires
            0 <= index < before.words().len(),
            0 <= low <= high <= 64,
            self.words() == before.words().update(
                index,
                if used {
                    before.words()[index] | run_mask(low as u64, high as u64)
                } else {
                    before.words()[index] & !run_mask(low as u64, high as u64)
                },
            ),
        ensures
            self.bits() == with_run(before.bits(), 64 * index + low, high - low, used),
    {
        let word = before.words()[index];
        let mask = run_mask(low as u64, high as u64);
        let target = with_run(before.bits(), 64 * index + low, high - low, used);
        assert forall|i: int| 0 <= i < self.bits().len() implies self.bits()[i] == target[i] by {
            if i / 64 == index {
                let j = (i % 64) as u64;
                lemma_combined_bit(word, mask, j);
                lemma_run_mask_bit(low as u64, high as u64, j);
            }
        }
        assert(self.bits() =~= target);
    }

    /// Starts the bookkeeping of the region from `start` up to `end`: a
    /// bitmap of one bit per whole frame and one word more, in which the
    /// frames that the bitmap itself would fill at the start of the region
    /// are in use and all others are free. The region must start on a frame
    /// boundary and must not end before it starts.
    #[verifier::spinoff_prover]
    pub fn init(&mut self, start: usize, end: usize) -> (started: Result<(), MemoryError>)
        ensures
            start as int % 0x1000 == 0 && start <= end <==> started is Ok,
            started is Ok ==> {
                &&& final(self).wf()
                &&& final(self).start() == start
                &&& final(self).end() == end
                &&& final(self).words().len() == final(self).num_frames() / 64 + 1
                &&& final(self).bits() == Seq::new(
                    final(self).bits().len(),
                    |i: int| i < final(self).reserved_frames(),
                )
            },
            started matches Err(error) ==> error == MemoryError::MisalignedAddress && *final(self)
                == *old(self),
    {
        if start % FRAME_SIZE != 0 || end < start {
            return Err(MemoryError::MisalignedAddress);
        }
        self.mem_start = start;
        self.mem_end = end;

        // Calculate the size of the bitmap
        let num_frames: usize = (end - start) / FRAME_SIZE;
        let size: usize = num_frames / BITMAP_ENTRY_BITS + 1;
        self.bitmap = vec![0u64; size];
        proof {
            assert forall|i: int| 0 <= i < self.bits().len() implies !self.bits()[i] by {
                lemma_combined_bit(0, 0, (i % 64) as u64);
            }
        }

        // Go over the frames required to store the bitmap and mark them as used
        let reserved: usize = (size * 8 + (FRAME_SIZE - 1)) / FRAME_SIZE;
        let mut frame: usize = 0;
        while frame < reserved
            invariant
                frame <= reserved,
                reserved == self.reserved_frames(),
                reserved <= size,
                size == num_frames / 64 + 1,
                size == self.bitmap@.len(),
                self.mem_start == start,
                self.mem_end == end,
                start <= end,
                num_frames == (end - start) / 0x1000,
                self.bits() == Seq::new(self.bits().len(), |i: int| i < frame),
            decreases reserved - frame,
        {
            self.set_used(self.mem_start + frame * FRAME_SIZE);
            frame += 1;
            assert(self.bits() =~= Seq::new(self.bits().len(), |i: int| i < frame));
        }
        Ok(())
    }

    /// Marks the lowest run that can hold `num_frames` pages of `level` as
    /// used and returns the address of its first frame.
    pub fn allocate(&mut self, num_frames: usize, level: PageEntryLevel) -> (result: Result<
        usize,
        MemoryError,
    >)
        requires
            old(self).wf(),
            num_frames >= 1,
        ensures
            final(self).wf(),
            Self::allocates(old(self), final(self), num_frames, level, result),
    {
        if num_frames == 1 {
            self.alloc_single(level)
        } else {
            self.alloc_contigous(num_frames, level)
        }
    }

    /// Allocates as `allocate` does and clears the bytes of the run in `memory`.
    #[verifier::spinoff_prover]
    pub fn zero_alloc(
        &mut self,
        memory: &mut PhysicalMemory,
        num_frames: usize,
        level: PageEntryLevel,
    ) -> (result: Result<usize, MemoryError>)
        requires
            old(self).wf(),
            old(memory).wf(),
            old(self).within(old(memory)),
            num_frames >= 1,
        ensures
            final(self).wf(),
            final(memory).wf(),
            Self::allocates(old(self), final(self), num_frames, level, result),
            result matches Ok(address) ==> {
                let bytes = Self::run_frames(num_frames, level) * 0x1000;
                &&& old(memory).holds_range(address as int, bytes)
                &&& old(memory).same_outside(final(memory), address as int, bytes)
                &&& forall|i: int|
                    old(memory).index_of(address as int) <= i < old(memory).index_of(
                        address + bytes,
                    ) ==> final(memory).words()[i] == 0
            },
            result is Err ==> final(memory).words() == old(memory).words() && final(memory).base()
                == old(memory).base(),
    {
        let page: usize = self.allocate(num_frames, level)?;
        proof {
            lemma_run_in_memory(old(self), self, memory, num_frames, level, page);
        }
        let bytes: usize = match level {
            PageEntryLevel::KiB4 => num_frames * 0x1000,
            PageEntryLevel::MiB2 => num_frames * 0x20_0000,
            PageEntryLevel::GiB1 => num_frames * 0x4000_0000,
        };
        memory.zero(page, bytes);
        Ok(page)
    }

    #[verifier::spinoff_prover]
    fn alloc_single(&mut self, level: PageEntryLevel) -> (result: Result<usize, MemoryError>)
        requires
            old(self).wf(),
        ensures
            final(self).wf(),
            Self::allocates(old(self), final(self), 1, level, result),
    {
        match level {
            PageEntryLevel::KiB4 => {
                // Find an entry in the bitmap that is not completly filled
                let mut index: usize = 0;
                while index < self.bitmap.len() && self.bitmap[index] == u64::MAX
                    invariant
                        index <= self.bitmap@.len(),
                        forall|w: int| 0 <= w < index ==> self.bitmap@[w] == u64::MAX,
                    decreases self.bitmap@.len() - index,
                {
                    index += 1;
                }
                proof {
                    assert forall|i: int| 0 <= i < 64 * index implies #[trigger] self.bits()[i] by {
                        lemma_combined_bit(0, 0, (i % 64) as u64);
                    }
                }
                if index < self.bitmap.len() {
                    let word: u64 = self.bitmap[index];
                    // Calculate the index of the free bit
                    let bit_index: usize = word.trailing_ones() as usize;
                    proof {
                        vstd::std_specs::bits::axiom_u64_trailing_ones(word);
                    }
                    let frame: usize = index * BITMAP_ENTRY_BITS + bit_index;
                    proof {
                        assert(!self.bits()[frame as int]);
                        assert forall|i: int| 0 <= i < frame implies #[trigger] self.bits()[i] by {
                            if i >= 64 * index {
                                assert(word_bit(word, (i % 64) as u64));
                            }
                        }
                    }
                    if frame < self.frame_count() {
                        // Calculate the frame's address
                        let frame_ptr: usize = self.mem_start + frame * FRAME_SIZE;
                        proof {
                            assert forall|lower: int| 0 <= lower < frame implies !self.fits(
                                lower,
                                1,
                                level,
                            ) by {
                                if self.run_free(lower, 1) {
                                    assert(!self.bits()[lower]);
                                }
                            }
                            assert(self.first_fit(frame as int, 1, level));
                        }
                        self.set_used(frame_ptr);
                        return Ok(frame_ptr);
                    }
                }
                proof {
                    assert forall|first: int| !self.fits(first, 1, level) by {
                        if self.run_free(first, 1) {
                            assert(!self.bits()[first]);
                        }
                    }
                }
                Err(MemoryError::AllocationExhausted)
            },
            PageEntryLevel::MiB2 => self.alloc_contigous(1, PageEntryLevel::MiB2),
            PageEntryLevel::GiB1 => Err(MemoryError::UnsupportedOperation),
        }
    }

    fn alloc_contigous(&mut self, num_frames: usize, level: PageEntryLevel) -> (result: Result<
        usize,
        MemoryError,
    >)
        requires
            old(self).wf(),
            num_frames >= 1,
            !(num_frames == 1 && level == PageEntryLevel::GiB1),
        ensures
            final(self).wf(),
            Self::allocates(old(self), final(self), num_frames, level, result),
    {
        // Allocate 4KiB frames
        if let PageEntryLevel::KiB4 = level {
            if num_frames <= BITMAP_ENTRY_BITS {
                return self.intra_alloc_contigous_4k_frames(num_frames);  // Allocate 64 or less frames
            } else {
                return self.inter_alloc_contigous_4k_frames(num_frames);  // Allocate more than 64 frames
            }
        }
        // Allocate 2MiB or 1GiB pages: whole words, from a page boundary on

        if self.mem_start % BITMAP_ENTRY_SIZE_BYTES != 0 {
            return Err(MemoryError::MisalignedAddress);
        }
        let size: usize = level.size();
        let origin: usize = ((size - self.mem_start % size) % size) / FRAME_SIZE;
        match num_frames.checked_mul(level.frame_count()) {
            Some(run) => self.alloc_stepped(origin, run, run),
            None => Err(MemoryError::AllocationExhausted),
        }
    }

    /// Allocate 64 or less contigous frames
    ///
    /// Goes through the entries of the bitmap, and in each through the
    /// windows of `num_frames` bits, the lowest first: the frames must lie
    /// side by side in one entry.
    #[verifier::spinoff_prover]
    pub fn intra_alloc_contigous_4k_frames(&mut self, num_frames: usize) -> (result: Result<
        usize,
        MemoryError,
    >)
        requires
            old(self).wf(),
            1 <= num_frames <= 64,
        ensures
            final(self).wf(),
            Self::allocates(old(self), final(self), num_frames, PageEntryLevel::KiB4, result),
    {
        let frames: usize = self.frame_count();
        let mut index: usize = 0;
        while index < self.bitmap.len()
            invariant
                self == old(self),
                self.wf(),
                frames == self.num_frames(),
                1 <= num_frames <= 64,
                index <= self.bitmap@.len(),
                forall|lower: int|
                    0 <= lower < 64 * index ==> !self.fits(lower, num_frames, PageEntryLevel::KiB4),
            decreases self.bitmap@.len() - index,
        {
            let mut bit_index: usize = 0;
            while bit_index <= BITMAP_ENTRY_BITS - num_frames
                invariant
                    self == old(self),
                    self.wf(),
                    frames == self.num_frames(),
                    1 <= num_frames <= 64,
                    index < self.bitmap@.len(),
                    bit_index <= 64 - num_frames + 1,
                    forall|lower: int|
                        0 <= lower < 64 * index + bit_index ==> !self.fits(
                            lower,
                            num_frames,
                            PageEntryLevel::KiB4,
                        ),
                decreases 65 - bit_index,
            {
                let first: usize = index * BITMAP_ENTRY_BITS + bit_index;
                if self.run_is(first, num_frames, false) {
                    // We have found a match
                    if num_frames > frames || first > frames - num_frames {
                        // The match and all that follow end behind the region
                        return Err(MemoryError::AllocationExhausted);
                    }
                    self.set_run(first, num_frames, true);  // Mark the allocated bits as used
                    return Ok(self.mem_start + first * FRAME_SIZE);
                }
                bit_index += 1;
            }
            // Search in another entry
            index += 1;
        }
        Err(MemoryError::AllocationExhausted)
    }

    /// Allocate more than 64 contigous frames
    pub fn inter_alloc_contigous_4k_frames(&mut self, num_frames: usize) -> (result: Result<
        usize,
        MemoryError,
    >)
        requires
            old(self).wf(),
            num_frames > 64,
        ensures
            final(self).wf(),
            Self::allocates(old(self), final(self), num_frames, PageEntryLevel::KiB4, result),
    {
        let entries_needed: usize = num_frames / BITMAP_ENTRY_BITS;
        self.alloc_stepped(0, entries_needed * BITMAP_ENTRY_BITS, num_frames)
    }

    /// Marks the first free run of `run` frames among those that start at
    /// `origin` or a whole number of steps behind it.
    #[verifier::spinoff_prover]
    fn alloc_stepped(&mut self, origin: usize, step: usize, run: usize) -> (result: Result<
        usize,
        MemoryError,
    >)
        requires
            old(self).wf(),
            step >= 1,
        ensures
            final(self).wf(),
            final(self).start() == old(self).start(),
            final(self).end() == old(self).end(),
            final(self).words().len() == old(self).words().len(),
            result matches Ok(address) ==> {
                let first = old(self).frame_of(address as int);
                &&& address == old(self).frame_address(first)
                &&& first >= origin
                &&& (first - origin) % (step as int) == 0
                &&& old(self).run_free(first, run as int)
                &&& forall|lower: int|
                    origin <= lower < first && (lower - origin) % (step as int) == 0 ==> !old(
                        self,
                    ).run_free(lower, run as int)
                &&& final(self).bits() == with_run(old(self).bits(), first, run as int, true)
            },
            result matches Err(error) ==> {
                &&& error == MemoryError::AllocationExhausted
                &&& final(self).bits() == old(self).bits()
                &&& forall|first: int|
                    origin <= first && (first - origin) % (step as int) == 0 ==> !old(
                        self,
                    ).run_free(first, run as int)
            },
    {
        let frames: usize = self.frame_count();
        if run > frames || origin > frames - run {
            return Err(MemoryError::AllocationExhausted);
        }
        let mut first: usize = origin;
        proof {
            vstd::arithmetic::div_mod::lemma_small_mod(0, step as nat);
        }
        loop
            invariant
                self == old(self),
                self.wf(),
                frames == self.num_frames(),
                step >= 1,
                origin <= first,
                first + run <= frames,
                (first - origin) % (step as int) == 0,
                forall|lower: int|
                    origin <= lower < first && (lower - origin) % (step as int) == 0
                        ==> !self.run_free(lower, run as int),
            decreases frames - first,
        {
            if self.run_is(first, run, false) {
                // Mark the entire group of frames as taken
                self.set_run(first, run, true);
                return Ok(self.mem_start + first * FRAME_SIZE);
            }
            proof {
                vstd::arithmetic::div_mod::lemma_mod_add_multiples_vanish(
                    first - origin,
                    step as int,
                );
                assert forall|lower: int|
                    origin <= lower < first + step && (lower - origin) % (step as int)
                        == 0 implies !self.run_free(lower, run as int) by {
                    if lower > first {
                        lemma_between_multiples(first - origin, lower - origin, step as int);
                    }
                }
            }
            if step > frames - run - first {
                return Err(MemoryError::AllocationExhausted);
            }
            first += step;
        }
    }

    /// Marks the run of `size` pages of `level` at `address` as free. Every
    /// frame of the run must be in use.
    pub fn dealloc(&mut self, address: usize, size: usize, level: PageEntryLevel) -> (result:
        Result<(), MemoryError>)
        requires
            old(self).wf(),
            size >= 1,
        ensures
            final(self).wf(),
            Self::releases(old(self), final(self), address, size, level, result),
    {
        if size == 1 {
            self.dealloc_single(address, level)
        } else {
            self.dealloc_contigous(address, size, level)
        }
    }

    fn dealloc_single(&mut self, address: usize, level: PageEntryLevel) -> (result: Result<
        (),
        MemoryError,
    >)
        requires
            old(self).wf(),
        ensures
            final(self).wf(),
            Self::releases(old(self), final(self), address, 1, level, result),
    {
        match level {
            PageEntryLevel::KiB4 => self.release_run(address, 1, false),
            PageEntryLevel::MiB2 => self.release_run(address, 512, true),
            PageEntryLevel::GiB1 => Err(MemoryError::UnsupportedOperation),
        }
    }

    fn dealloc_contigous(&mut self, address: usize, size: usize, level: PageEntryLevel) -> (result:
        Result<(), MemoryError>)
        requires
            old(self).wf(),
            size >= 1,
            !(size == 1 && level == PageEntryLevel::GiB1),
        ensures
            final(self).wf(),
            Self::releases(old(self), final(self), address, size, level, result),
    {
        match level {
            PageEntryLevel::KiB4 => self.release_run(address, size, false),
            _ => {
                // Calculate the number of frames of the bitmap entries to free
                match size.checked_mul(level.frame_count()) {
                    Some(run) => self.release_run(address, run, true),
                    None => Err(MemoryError::DoubleFree),
                }
            },
        }
    }

    /// Clears the `run` frames from the frame that holds `address` on, or
    /// from the first frame of its bitmap word on, if all of them are in use.
    fn release_run(&mut self, address: usize, run: usize, whole_words: bool) -> (result: Result<
        (),
        MemoryError,
    >)
        requires
            old(self).wf(),
        ensures
            final(self).wf(),
            final(self).start() == old(self).start(),
            final(self).end() == old(self).end(),
            final(self).words().len() == old(self).words().len(),
            ({
                let frame = old(self).frame_of(address as int);
                let first = if whole_words {
                    frame / 64 * 64
                } else {
                    frame
                };
                match result {
                    Ok(()) => old(self).run_used(first, run as int) && final(self).bits()
                        == with_run(old(self).bits(), first, run as int, false),
                    Err(error) => error == MemoryError::DoubleFree && !old(self).run_used(
                        first,
                        run as int,
                    ) && final(self).bits() == old(self).bits(),
                }
            }),
    {
        if address < self.mem_start {
            return Err(MemoryError::DoubleFree);
        }
        let (index, bit) = self.bitmap_entry_index_bit(address);
        let frames: usize = self.frame_count();
        if index > frames / BITMAP_ENTRY_BITS {
            return Err(MemoryError::DoubleFree);
        }
        let first: usize = if whole_words {
            index * BITMAP_ENTRY_BITS
        } else {
            index * BITMAP_ENTRY_BITS + bit
        };
        if run > frames || first > frames - run {
            return Err(MemoryError::DoubleFree);
        }
        // Check if we're trying to free an already freed frame
        if !self.run_is(first, run, true) {
            return Err(MemoryError::DoubleFree);
        }
        self.set_run(first, run, false);  // Mark the frames as free
        Ok(())
    }


    /// Whether every frame of the run has the state `used`.
    #[verifier::spinoff_prover]
    fn run_is(&self, first: usize, len: usize, used: bool) -> (uniform: bool)
        requires
            first + len <= self.bits().len() <= usize::MAX,
        ensures
            uniform == forall|i: int| first <= i < first + len ==> #[trigger] self.bits()[i] == used,
    {
        let end: usize = first + len;
        let mut frame: usize = first;
        while frame < end
            invariant
                first <= frame <= end,
                end == first + len,
                end <= self.bits().len(),
                forall|i: int| first <= i < frame ==> #[trigger] self.bits()[i] == used,
            decreases end - frame,
        {
            let index: usize = frame / 64;
            let low: usize = frame % 64;
            let high: usize = if end - frame >= 64 - low {
                64
            } else {
                low + (end - frame)
            };
            let mask: u64 = make_run_mask(low, high);
            let word: u64 = self.bitmap[index];
            let wanted: u64 = if used {
                mask
            } else {
                0
            };
            if word & mask != wanted {
                proof {
                    let j = if used {
                        assert((word & mask != mask) ==> (mask & !word != 0)) by (bit_vector);
                        let j = lemma_set_bit_exists(mask & !word);
                        lemma_combined_bit(mask, word, j);
                        j
                    } else {
                        let j = lemma_set_bit_exists(word & mask);
                        lemma_combined_bit(word, mask, j);
                        j
                    };
                    lemma_run_mask_bit(low as u64, high as u64, j);
                    let i = 64 * index + j;
                    assert(i / 64 == index && i % 64 == j);
                    assert(self.bits()[i] != used);
                }
                return false;
            }
            proof {
                assert forall|i: int| frame <= i < 64 * index + high implies #[trigger] self.bits()[i]
                    == used by {
                    let j = (i % 64) as u64;
                    assert(i / 64 == index);
                    lemma_combined_bit(word, mask, j);
                    lemma_combined_bit(mask, word, j);
                    lemma_run_mask_bit(low as u64, high as u64, j);
                    if used {
                        assert((word & mask == mask) ==> (mask & !word == 0)) by (bit_vector);
                    }
                }
            }
            frame = 64 * index + high;
        }
        true
    }

    /// Sets every frame of the run to the state `used`.
    #[verifier::spinoff_prover]
    fn set_run(&mut self, first: usize, len: usize, used: bool)
        requires
            first + len <= old(self).bits().len() <= usize::MAX,
        ensures
            final(self).start() == old(self).start(),
            final(self).end() == old(self).end(),
            final(self).words().len() == old(self).words().len(),
            final(self).bits() == with_run(old(self).bits(), first as int, len as int, used),
    {
        let end: usize = first + len;
        let mut frame: usize = first;
        while frame < end
            invariant
                first <= frame <= end,
                end == first + len,
                end <= self.bits().len(),
                self.mem_start == old(self).mem_start,
                self.mem_end == old(self).mem_end,
                self.bitmap@.len() == old(self).bitmap@.len(),
                self.bits() == with_run(old(self).bits(), first as int, frame - first, used),
            decreases end - frame,
        {
            let index: usize = frame / 64;
            let low: usize = frame % 64;
            let high: usize = if end - frame >= 64 - low {
                64
            } else {
                low + (end - frame)
            };
            let mask: u64 = make_run_mask(low, high);
            let word: u64 = self.bitmap[index];
            let ghost before = *self;
            self.bitmap[index] = if used {
                word | mask
            } else {
                word & !mask
            };
            proof {
                self.lemma_word_changed(&before, index as int, low as int, high as int, used);
                assert(self.bits() =~= with_run(
                    old(self).bits(),
                    first as int,
                    64 * index + high - first,
                    used,
                ));
            }
            frame = 64 * index + high;
        }
    }
}

/// Between a multiple of `step` and the next one lies no other.
#[verifier::spinoff_prover]
proof fn lemma_between_multiples(offset: int, other: int, step: int)
    requires
        step >= 1,
        offset % step == 0,
        offset < other < offset + step,
    ensures
        other % step != 0,
        (offset + step) % step == 0,
{
    vstd::arithmetic::div_mod::lemma_mod_add_multiples_vanish(offset, step);
    vstd::arithmetic::div_mod::lemma_fundamental_div_mod(offset, step);
    vstd::arithmetic::div_mod::lemma_fundamental_div_mod(other, step);
    let a = offset / step;
    let b = other / step;
    if other % step == 0 {
        assert(step * a < step * b < step * a + step);
        assert(a < b && b < a + 1) by (nonlinear_arith)
            requires
                step >= 1,
                step * a < step * b < step * a + step,
        ;
    }
}

/// A multiple of `count * unit` is a multiple of `unit`.
#[verifier::spinoff_prover]
proof fn lemma_multiple_of_product(x: int, count: int, unit: int)
    requires
        count >= 1,
        unit >= 1,
        x % (count * unit) == 0,
    ensures
        x % unit == 0,
{
    assert(count * unit >= 1) by (nonlinear_arith)
        requires
            count >= 1,
            unit >= 1,
    ;
    vstd::arithmetic::div_mod::lemma_fundamental_div_mod(x, count * unit);
    let q = x / (count * unit);
    assert(x == (q * count) * unit) by (nonlinear_arith)
        requires
            x == (count * unit) * q,
    ;
    vstd::arithmetic::div_mod::lemma_mod_multiples_basic(q * count, unit);
}

/// A run of `count` pages of `level` has `count` times the level's bytes.
#[verifier::spinoff_prover]
pub proof fn lemma_run_bytes(count: usize, level: PageEntryLevel)
    ensures
        count * level.bytes() == BitmapAllocator::run_frames(count, level) * 0x1000,
{
    match level {
        PageEntryLevel::KiB4 => {
            assert(count * level.bytes() == count * 0x1000);
        },
        PageEntryLevel::MiB2 => {
            assert(count * level.bytes() == count * 0x20_0000);
        },
        PageEntryLevel::GiB1 => {
            assert(count * level.bytes() == count * 0x4000_0000);
        },
    }
}

/// A frame that lies a whole number of pages behind the first page boundary
/// of a region starts a bitmap word and lies on a page boundary itself.
#[verifier::spinoff_prover]
proof fn lemma_page_boundary(start: int, level: PageEntryLevel, first: int)
    requires
        start >= 0,
        start % 0x4_0000 == 0,
        level != PageEntryLevel::KiB4,
        first >= ((level.bytes() - start % level.bytes()) % level.bytes()) / 0x1000,
        (first - ((level.bytes() - start % level.bytes()) % level.bytes()) / 0x1000)
            % level.frames() == 0,
    ensures
        (start + first * 0x1000) % level.bytes() == 0,
        first % 64 == 0,
{
    let bytes = level.bytes();
    let per = level.frames();
    let rest = start % bytes;
    let gap = (bytes - rest) % bytes;
    let origin = gap / 0x1000;
    let pages = (first - origin) / per;
    let words = start / 0x4_0000;
    let whole = start / bytes;
    assert(start == 0x4_0000 * words);
    assert(start == bytes * whole + rest && 0 <= rest < bytes) by {
        vstd::arithmetic::div_mod::lemma_fundamental_div_mod(start, bytes);
    }
    assert(first - origin == per * pages) by {
        vstd::arithmetic::div_mod::lemma_fundamental_div_mod(first - origin, per);
    }
    assert(gap == if rest == 0 {
        0
    } else {
        bytes - rest
    }) by {
        if rest != 0 {
            vstd::arithmetic::div_mod::lemma_small_mod((bytes - rest) as nat, bytes as nat);
        }
    }
    let reached = if rest == 0 {
        whole
    } else {
        whole + 1
    };
    assert(start + gap == bytes * reached);
    match level {
        PageEntryLevel::MiB2 => {
            assert(bytes == 0x20_0000 && per == 512);
            assert(rest == 0x4_0000 * (words - 8 * whole));
            assert(gap == 0x1000 * (64 * (8 * reached - words)));
            assert(origin == 64 * (8 * reached - words));
            assert(first == 64 * (8 * reached - words + 8 * pages));
            assert(start + first * 0x1000 == 0x20_0000 * (reached + pages));
        },
        _ => {
            assert(bytes == 0x4000_0000 && per == 0x4_0000);
            assert(rest == 0x4_0000 * (words - 0x1000 * whole));
            assert(gap == 0x1000 * (64 * (0x1000 * reached - words)));
            assert(origin == 64 * (0x1000 * reached - words));
            assert(first == 64 * (0x1000 * reached - words + 0x1000 * pages));
            assert(start + first * 0x1000 == 0x4000_0000 * (reached + pages));
        },
    }
}

/// The run that an allocation marks lies in the region, was free before, and
/// starts on a page boundary of the level asked for.
#[verifier::spinoff_prover]
pub proof fn lemma_allocated_run(
    before: &BitmapAllocator,
    after: &BitmapAllocator,
    count: usize,
    level: PageEntryLevel,
    address: usize,
)
    requires
        before.wf(),
        count >= 1,
        BitmapAllocator::allocates(before, after, count, level, Ok(address)),
    ensures
        level.aligned(address),
        before.start() <= address,
        address + count * level.bytes() <= before.end(),
        before.run_free(before.frame_of(address as int), BitmapAllocator::run_frames(count, level)),
        after.run_used(before.frame_of(address as int), BitmapAllocator::run_frames(count, level)),
        before.frame_of(address as int) == before.release_first(address, level),
{
    let first = before.frame_of(address as int);
    let run = BitmapAllocator::run_frames(count, level);
    lemma_run_bytes(count, level);
    assert(before.fits(first, count, level));
    assert(before.run_free(first, run));
    assert forall|i: int| first <= i < first + run implies #[trigger] after.bits()[i] by {}
    assert(address == before.start() + first * 0x1000);
    if level != PageEntryLevel::KiB4 {
        let origin = before.aligned_origin(level);
        lemma_multiple_of_product(first - origin, count as int, level.frames());
        lemma_page_boundary(before.start() as int, level, first);
    }
}

/// The run that an allocation marks lies in every arena that holds the
/// region, and starts and ends on word boundaries of it.
#[verifier::spinoff_prover]
proof fn lemma_run_in_memory(
    before: &BitmapAllocator,
    after: &BitmapAllocator,
    memory: &PhysicalMemory,
    count: usize,
    level: PageEntryLevel,
    address: usize,
)
    requires
        before.wf(),
        memory.wf(),
        before.within(memory),
        count >= 1,
        BitmapAllocator::allocates(before, after, count, level, Ok(address)),
    ensures
        count * level.bytes() == BitmapAllocator::run_frames(count, level) * 0x1000,
        count * level.bytes() <= usize::MAX,
        memory.holds_range(address as int, count * level.bytes()),
{
    lemma_allocated_run(before, after, count, level, address);
    lemma_run_bytes(count, level);
    crate::memory::paging::level::lemma_page_boundary_is_frame_boundary(level, address);
    let bytes = BitmapAllocator::run_frames(count, level) * 0x1000;
    assert(address as int == 0x1000 * (address as int / 0x1000));
    assert(address as int % 8 == 0);
    assert(bytes % 8 == 0);
}

/// Two allocations in a row never hand out overlapping runs.
#[verifier::spinoff_prover]
pub proof fn lemma_successive_allocations_disjoint(
    before: &BitmapAllocator,
    between: &BitmapAllocator,
    after: &BitmapAllocator,
    first_count: usize,
    first_level: PageEntryLevel,
    first_address: usize,
    second_count: usize,
    second_level: PageEntryLevel,
    second_address: usize,
)
    requires
        before.wf(),
        first_count >= 1,
        second_count >= 1,
        BitmapAllocator::allocates(before, between, first_count, first_level, Ok(first_address)),
        BitmapAllocator::allocates(between, after, second_count, second_level, Ok(second_address)),
    ensures
        first_address + first_count * first_level.bytes() <= second_address || second_address
            + second_count * second_level.bytes() <= first_address,
{
    let first = before.frame_of(first_address as int);
    let first_run = BitmapAllocator::run_frames(first_count, first_level);
    let second = between.frame_of(second_address as int);
    let second_run = BitmapAllocator::run_frames(second_count, second_level);
    lemma_allocated_run(before, between, first_count, first_level, first_address);
    lemma_run_bytes(first_count, first_level);
    lemma_run_bytes(second_count, second_level);
    assert(between.fits(second, second_count, second_level));
    if first + first_run > second && second + second_run > first {
        let shared = if first >= second {
            first
        } else {
            second
        };
        assert(between.bits()[shared]);
        assert(!between.bits()[shared]);
    }
}

/// A release ends as `release_outcome` says: with the bits that it names,
/// or unchanged and with the error that it names.
#[verifier::spinoff_prover]
pub proof fn lemma_release_outcome(
    before: &BitmapAllocator,
    after: &BitmapAllocator,
    address: usize,
    count: usize,
    level: PageEntryLevel,
    result: Result<(), MemoryError>,
)
    requires
        BitmapAllocator::releases(before, after, address, count, level, result),
    ensures
        match before.release_outcome(address, count, level) {
            Ok(bits) => result is Ok && after.bits() == bits,
            Err(error) => result == Err::<(), MemoryError>(error) && after.bits() == before.bits(),
        },
{
    let first = before.release_first(address, level);
    let len = BitmapAllocator::run_frames(count, level);
    let bits = before.bits();
    assert(before.run_used(first, len) == (0 <= first && first + len <= before.num_frames() && (
    forall|i: int| first <= i < first + len ==> #[trigger] bits[i])));
}

/// Releasing what was just allocated, with the same address, count and
/// level, restores every bit of the bitmap.
#[verifier::spinoff_prover]
pub proof fn lemma_release_restores(
    before: &BitmapAllocator,
    between: &BitmapAllocator,
    after: &BitmapAllocator,
    count: usize,
    level: PageEntryLevel,
    address: usize,
    released: Result<(), MemoryError>,
)
    requires
        before.wf(),
        count >= 1,
        BitmapAllocator::allocates(before, between, count, level, Ok(address)),
        BitmapAllocator::releases(between, after, address, count, level, released),
    ensures
        released is Ok,
        after.bits() == before.bits(),
{
    lemma_allocated_run(before, between, count, level, address);
    let first = before.frame_of(address as int);
    let run = BitmapAllocator::run_frames(count, level);
    assert(between.release_first(address, level) == first);
    assert forall|i: int| first <= i < first + run implies !#[trigger] before.bits()[i] by {}
    assert(after.bits() =~= before.bits());
}

/// Releasing the same run twice in a row fails the second time, as a double
/// free.
#[verifier::spinoff_prover]
pub proof fn lemma_second_release_fails(
    before: &BitmapAllocator,
    between: &BitmapAllocator,
    after: &BitmapAllocator,
    address: usize,
    count: usize,
    level: PageEntryLevel,
    second: Result<(), MemoryError>,
)
    requires
        before.wf(),
        count >= 1,
        BitmapAllocator::releases(before, between, address, count, level, Ok(())),
        BitmapAllocator::releases(between, after, address, count, level, second),
    ensures
        second == Err::<(), MemoryError>(MemoryError::DoubleFree),
        after.bits() == between.bits(),
{
    let first = before.release_first(address, level);
    assert(before.run_used(first, BitmapAllocator::run_frames(count, level)));
    assert(!between.bits()[first]);
}

/// Once every frame of the region is in use, no request finds a run: an
/// allocation fails and changes nothing, and where the request is not turned
/// down for its own sake the failure is that of exhaustion.
#[verifier::spinoff_prover]
pub proof fn lemma_exhausted_region(
    before: &BitmapAllocator,
    after: &BitmapAllocator,
    count: usize,
    level: PageEntryLevel,
    result: Result<usize, MemoryError>,
)
    requires
        before.wf(),
        count >= 1,
        forall|i: int| 0 <= i < before.num_frames() ==> #[trigger] before.bits()[i],
        BitmapAllocator::allocates(before, after, count, level, result),
    ensures
        result is Err,
        after.bits() == before.bits(),
        before.refusal(count, level) is None ==> result == Err::<usize, MemoryError>(
            MemoryError::AllocationExhausted,
        ),
{
    if let Ok(address) = result {
        lemma_allocated_run(before, after, count, level, address);
        let first = before.frame_of(address as int);
        assert(before.bits()[first]);
    }
}

/// `start` rounded up to a multiple of 64.
pub open spec fn rounded_start(start: usize) -> int {
    (start + 63) / 64 * 64
}

/// The least multiple of 64 that is not below `start` is `rounded_start`.
#[verifier::spinoff_prover]
proof fn lemma_rounded_start(start: usize, aligned: usize)
    requires
        super::is_aligned_up(start as int, 64, aligned as int),
    ensures
        aligned == rounded_start(start),
{
    let whole = aligned as int / 64;
    assert(aligned as int == 64 * whole);
    assert((start + 63) / 64 == whole);
}

/// A frame allocator for the `size` bytes from `start` on, `start` rounded
/// up to a multiple of 64. The rounded start must lie on a frame boundary.
#[verifier::spinoff_prover]
pub fn init_frames_allocation(start: usize, size: usize) -> (made: Result<
    BitmapAllocator,
    MemoryError,
>)
    requires
        start + 63 + size <= usize::MAX,
    ensures
        made is Ok <==> rounded_start(start) % 0x1000 == 0,
        made matches Ok(allocator) ==> {
            &&& allocator.wf()
            &&& allocator.start() == rounded_start(start)
            &&& allocator.end() == allocator.start() + size
            &&& allocator.words().len() == allocator.num_frames() / 64 + 1
            &&& allocator.bits() == Seq::new(
                allocator.bits().len(),
                |i: int| i < allocator.reserved_frames(),
            )
        },
        made matches Err(error) ==> error == MemoryError::MisalignedAddress,
{
    let aligned: usize = super::align_up(start, 64);
    proof {
        lemma_rounded_start(start, aligned);
    }
    let mut allocator = BitmapAllocator::new();
    match allocator.init(aligned, aligned + size) {
        Ok(()) => Ok(allocator),
        Err(error) => Err(error),
    }
}

} // verus!
