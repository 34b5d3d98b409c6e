//! The three levels of the tree and the sizes of their pages.

use crate::memory::MemoryError;
use vstd::prelude::*;

verus! {

/// The three page sizes, named by the size of one page.
#[derive(Clone, Copy, Debug, PartialEq, Eq, Structural)]
pub enum PageEntryLevel {
    KiB4,
    MiB2,
    GiB1,
}

impl PageEntryLevel {
    /// The level's number: 0 for the smallest pages, 2 for the largest.
    pub open spec fn number(self) -> int {
        match self {
            PageEntryLevel::KiB4 => 0,
            PageEntryLevel::MiB2 => 1,
            PageEntryLevel::GiB1 => 2,
        }
    }

    /// Bytes in one page of this level.
    pub open spec fn bytes(self) -> int {
        match self {
            PageEntryLevel::KiB4 => 0x1000,
            PageEntryLevel::MiB2 => 0x20_0000,
            PageEntryLevel::GiB1 => 0x4000_0000,
        }
    }

    /// 4 KiB frames in one page of this level.
    pub open spec fn frames(self) -> int {
        match self {
            PageEntryLevel::KiB4 => 1,
            PageEntryLevel::MiB2 => 512,
            PageEntryLevel::GiB1 => 0x4_0000,
        }
    }

    pub fn top() -> (level: Self)
        ensures
            level == PageEntryLevel::GiB1,
    {
        PageEntryLevel::GiB1
    }

    pub fn val(self) -> (number: usize)
        ensures
            number == self.number(),
    {
        match self {
            PageEntryLevel::KiB4 => 0,
            PageEntryLevel::MiB2 => 1,
            PageEntryLevel::GiB1 => 2,
        }
    }

    pub fn size(self) -> (bytes: usize)
        ensures
            bytes == self.bytes(),
    {
        match self {
            PageEntryLevel::KiB4 => 0x1000,
            PageEntryLevel::MiB2 => 0x20_0000,
            PageEntryLevel::GiB1 => 0x4000_0000,
        }
    }

    /// The binary logarithm of the page size: 12, 21 or 30.
    pub fn order(self) -> (order: usize)
        ensures
            order == 12 + 9 * self.number(),
            crate::memory::order_size(order) == self.bytes(),
    {
        proof {
            vstd::arithmetic::power2::lemma2_to64();
        }
        match self {
            PageEntryLevel::KiB4 => 12,
            PageEntryLevel::MiB2 => 21,
            PageEntryLevel::GiB1 => 30,
        }
    }

    /// The number of 4 KiB frames that one page of this level covers.
    pub fn frame_count(self) -> (frames: usize)
        ensures
            frames == self.frames(),
            frames * 0x1000 == self.bytes(),
    {
        match self {
            PageEntryLevel::KiB4 => 1,
            PageEntryLevel::MiB2 => 512,
            PageEntryLevel::GiB1 => 0x4_0000,
        }
    }

    /// The largest level whose page is smaller than `size`, and the smallest
    /// level where there is none.
    pub fn from_size(size: usize) -> (level: Self)
        ensures
            size > PageEntryLevel::GiB1.bytes() ==> level == PageEntryLevel::GiB1,
            PageEntryLevel::MiB2.bytes() < size <= PageEntryLevel::GiB1.bytes() ==> level
                == PageEntryLevel::MiB2,
            size <= PageEntryLevel::MiB2.bytes() ==> level == PageEntryLevel::KiB4,
    {
        if size > PageEntryLevel::GiB1.size() {
            return PageEntryLevel::GiB1;
        } else if size > PageEntryLevel::MiB2.size() {
            return PageEntryLevel::MiB2;
        }
        PageEntryLevel::KiB4
    }

    pub fn next_level(self) -> (next: Option<Self>)
        ensures
            self == PageEntryLevel::KiB4 <==> next is None,
            next matches Some(lower) ==> lower.number() == self.number() - 1,
    {
        match self {
            PageEntryLevel::KiB4 => None,
            PageEntryLevel::MiB2 => Some(PageEntryLevel::KiB4),
            PageEntryLevel::GiB1 => Some(PageEntryLevel::MiB2),
        }
    }

    /// Whether `addr` lies on a page boundary of this level.
    pub open spec fn aligned(self, addr: usize) -> bool {
        addr as int % self.bytes() == 0
    }

    /// Accepts an address on a page boundary of this level and rejects any other.
    pub fn assert_aligned(self, addr: usize) -> (checked: Result<(), MemoryError>)
        ensures
            self.aligned(addr) ==> checked is Ok,
            !self.aligned(addr) ==> checked == Err::<(), MemoryError>(
                MemoryError::MisalignedAddress,
            ),
    {
        if addr % self.size() == 0 {
            Ok(())
        } else {
            Err(MemoryError::MisalignedAddress)
        }
    }
}

/// A page boundary of any level is a frame boundary.
pub proof fn lemma_page_boundary_is_frame_boundary(level: PageEntryLevel, addr: usize)
    requires
        level.aligned(addr),
    ensures
        addr as int % 0x1000 == 0,
{
    match level {
        PageEntryLevel::KiB4 => {},
        PageEntryLevel::MiB2 => {
            assert(addr as int == 0x20_0000 * (addr as int / 0x20_0000));
            assert(addr as int == 0x1000 * (512 * (addr as int / 0x20_0000)));
        },
        PageEntryLevel::GiB1 => {
            assert(addr as int == 0x4000_0000 * (addr as int / 0x4000_0000));
            assert(addr as int == 0x1000 * (0x4_0000 * (addr as int / 0x4000_0000)));
        },
    }
}

} // verus!
