//! The arena: physical memory as a run of 64-bit words with a base address.

use super::MemoryError;
use vstd::prelude::*;

verus! {

/// The size of the physical address space: a translation entry holds the
/// bits 12 to 55 of an address.
pub const ADDRESS_SPACE: u64 = 0x0100_0000_0000_0000;

/// The flat arena that stands for physical memory: a run of 64-bit words
/// whose first byte has the physical address `base`.
pub struct PhysicalMemory {
    base: usize,
    words: Vec<u64>,
}

impl PhysicalMemory {
    /// The physical address of the arena's first byte.
    pub closed spec fn base(&self) -> usize {
        self.base
    }

    /// The arena's contents, one 64-bit word per eight bytes.
    pub closed spec fn words(&self) -> Seq<u64> {
        self.words@
    }

    /// The physical address just behind the arena's last byte.
    pub open spec fn end(&self) -> int {
        self.base() + 8 * self.words().len()
    }

    /// The arena starts on a frame boundary and ends within the 56 bits of a
    /// physical address.
    pub open spec fn wf(&self) -> bool {
        &&& self.base() % 0x1000 == 0
        &&& self.end() <= usize::MAX
        &&& self.end() <= ADDRESS_SPACE
    }

    /// Whether `bytes` bytes from `address` on lie in the arena and start and
    /// end on a word boundary.
    pub open spec fn holds_range(&self, address: int, bytes: int) -> bool {
        &&& self.base() <= address
        &&& 0 <= bytes
        &&& address + bytes <= self.end()
        &&& address % 8 == 0
        &&& bytes % 8 == 0
    }

    /// Whether the arena holds the 4 KiB frame at `address`.
    pub open spec fn holds_frame(&self, address: int) -> bool {
        &&& self.holds_range(address, 0x1000)
        &&& address % 0x1000 == 0
    }

    /// The position in `words()` of the word at `address`.
    pub open spec fn index_of(&self, address: int) -> int {
        (address - self.base()) / 8
    }

    /// The word at `address`.
    pub open spec fn word(&self, address: int) -> u64 {
        self.words()[self.index_of(address)]
    }

    /// Whether `other` differs from `self` at most in the `bytes` bytes from
    /// `address` on.
    pub open spec fn same_outside(&self, other: &PhysicalMemory, address: int, bytes: int) -> bool {
        &&& other.base() == self.base()
        &&& other.words().len() == self.words().len()
        &&& forall|i: int|
            0 <= i < self.words().len() && !(self.index_of(address) <= i < self.index_of(
                address + bytes,
            )) ==> other.words()[i] == self.words()[i]
    }

    /// An arena of `size` bytes, all zero, whose first byte has the address
    /// `base`. The base must lie on a frame boundary and the arena must end
    /// within the physical address space. A size that is no multiple of
    /// eight is rounded down to one.
    pub fn new(base: usize, size: usize) -> (made: Result<Self, MemoryError>)
        ensures
            base as int % 0x1000 == 0 && base + size <= usize::MAX && base + size
                <= ADDRESS_SPACE <==> made is Ok,
            made matches Ok(memory) ==> {
                &&& memory.wf()
                &&& memory.base() == base
                &&& memory.words().len() == size / 8
                &&& forall|i: int| 0 <= i < memory.words().len() ==> memory.words()[i] == 0
            },
            made matches Err(error) ==> error == MemoryError::MisalignedAddress,
    {
        if base % 0x1000 != 0 || size > usize::MAX - base || (base + size) as u64 > ADDRESS_SPACE {
            return Err(MemoryError::MisalignedAddress);
        }
        let words: Vec<u64> = vec![0u64; size / 8];
        Ok(PhysicalMemory { base, words })
    }

    /// The physical address of the arena's first byte.
    pub fn start(&self) -> (base: usize)
        ensures
            base == self.base(),
    {
        self.base
    }

    /// The arena's size in bytes.
    pub fn size(&self) -> (bytes: usize)
        requires
            self.wf(),
        ensures
            bytes == 8 * self.words().len(),
    {
        self.words.len() * 8
    }

    /// The arena's words, in address order.
    pub fn as_words(&self) -> (words: &Vec<u64>)
        ensures
            words@ == self.words(),
    {
        &self.words
    }

    /// Whether the arena holds the 4 KiB frame at `address`.
    pub fn has_frame(&self, address: usize) -> (held: bool)
        requires
            self.wf(),
        ensures
            held == self.holds_frame(address as int),
    {
        if address % 0x1000 != 0 || address < self.base {
            return false;
        }
        assert(address % 8 == 0) by {
            assert(address as int == 0x1000 * (address as int / 0x1000));
        }
        let offset: usize = address - self.base;
        let size: usize = self.words.len() * 8;
        offset <= size && size - offset >= 0x1000
    }

    /// Reads the word at `address`.
    pub fn read(&self, address: usize) -> (value: u64)
        requires
            self.wf(),
            self.holds_range(address as int, 8),
        ensures
            value == self.word(address as int),
    {
        self.words[(address - self.base) / 8]
    }

    /// Writes the word at `address` and leaves every other word as it was.
    pub fn write(&mut self, address: usize, value: u64)
        requires
            old(self).wf(),
            old(self).holds_range(address as int, 8),
        ensures
            final(self).wf(),
            final(self).base() == old(self).base(),
            final(self).words() == old(self).words().update(
                old(self).index_of(address as int),
                value,
            ),
    {
        let index: usize = (address - self.base) / 8;
        self.words[index] = value;
    }

    /// Clears the `bytes` bytes from `address` on and leaves every other word
    /// as it was.
    pub fn zero(&mut self, address: usize, bytes: usize)
        requires
            old(self).wf(),
            old(self).holds_range(address as int, bytes as int),
        ensures
            final(self).wf(),
            old(self).same_outside(final(self), address as int, bytes as int),
            forall|i: int|
                old(self).index_of(address as int) <= i < old(self).index_of(address + bytes)
                    ==> final(self).words()[i] == 0,
    {
        let first: usize = (address - self.base) / 8;
        let end: usize = first + bytes / 8;
        let mut index: usize = first;
        while index < end
            invariant
                first <= index <= end,
                end <= self.words@.len(),
                self.base == old(self).base,
                self.words@.len() == old(self).words@.len(),
                forall|i: int|
                    0 <= i < self.words@.len() && !(first <= i < index) ==> self.words@[i] == old(
                        self,
                    ).words@[i],
                forall|i: int| first <= i < index ==> self.words@[i] == 0,
            decreases end - index,
        {
            self.words[index] = 0;
            index += 1;
        }
    }
}

} // verus!
