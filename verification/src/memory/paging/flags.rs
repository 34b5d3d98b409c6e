//! The flags of a translation entry.

use vstd::prelude::*;

verus! {

/// The eight permission and status bits of a translation entry, bit 0 first:
/// valid, read, write, execute, user, global, accessed, dirty.
#[derive(Clone, Copy, Debug, PartialEq, Eq, Structural)]
pub struct PageEntryFlags(pub u8);

impl PageEntryFlags {
    pub fn valid() -> (flags: Self)
        ensures
            flags.0 == 0x01,
    {
        PageEntryFlags(0x01)
    }

    pub fn read() -> (flags: Self)
        ensures
            flags.0 == 0x02,
    {
        PageEntryFlags(0x02)
    }

    pub fn write() -> (flags: Self)
        ensures
            flags.0 == 0x04,
    {
        PageEntryFlags(0x04)
    }

    pub fn execute() -> (flags: Self)
        ensures
            flags.0 == 0x08,
    {
        PageEntryFlags(0x08)
    }

    pub fn user() -> (flags: Self)
        ensures
            flags.0 == 0x10,
    {
        PageEntryFlags(0x10)
    }

    pub fn global() -> (flags: Self)
        ensures
            flags.0 == 0x20,
    {
        PageEntryFlags(0x20)
    }

    pub fn accessed() -> (flags: Self)
        ensures
            flags.0 == 0x40,
    {
        PageEntryFlags(0x40)
    }

    pub fn dirty() -> (flags: Self)
        ensures
            flags.0 == 0x80,
    {
        PageEntryFlags(0x80)
    }

    pub fn read_write() -> (flags: Self)
        ensures
            flags.0 == 0x06,
    {
        PageEntryFlags(0x06)
    }

    pub fn read_execute() -> (flags: Self)
        ensures
            flags.0 == 0x0a,
    {
        PageEntryFlags(0x0a)
    }

    pub fn read_write_execute() -> (flags: Self)
        ensures
            flags.0 == 0x0e,
    {
        PageEntryFlags(0x0e)
    }

    pub fn accessed_dirty() -> (flags: Self)
        ensures
            flags.0 == 0xc0,
    {
        PageEntryFlags(0xc0)
    }

    pub fn user_read_write() -> (flags: Self)
        ensures
            flags.0 == 0x16,
    {
        PageEntryFlags(0x16)
    }

    pub fn user_read_execute() -> (flags: Self)
        ensures
            flags.0 == 0x1a,
    {
        PageEntryFlags(0x1a)
    }

    pub fn user_read_write_execute() -> (flags: Self)
        ensures
            flags.0 == 0x1e,
    {
        PageEntryFlags(0x1e)
    }

    /// Whether the two sets of flags share a bit.
    pub open spec fn shares(self, other: Self) -> bool {
        self.0 & other.0 != 0
    }

    /// Whether any of read, write and execute is set: such flags describe a
    /// leaf, flags without them a branch.
    pub open spec fn describes_leaf(self) -> bool {
        self.0 & 0x0e != 0
    }

    pub fn val(self) -> (bits: u8)
        ensures
            bits == self.0,
    {
        self.0
    }
    pub fn is_leaf(&self) -> (leaf: bool)
        ensures
            leaf == self.describes_leaf(),
    {
        let bits: u8 = self.0;
        assert(((bits & 0x02 != 0) || (bits & 0x04 != 0) || (bits & 0x08 != 0)) == (bits & 0x0e
            != 0)) by (bit_vector);
        self.contains(Self::read()) || self.contains(Self::write()) || self.contains(
            Self::execute(),
        )
    }

    pub fn contains(&self, other: Self) -> (shared: bool)
        ensures
            shared == self.shares(other),
    {
        self.0 & other.0 != 0
    }
}

impl core::ops::BitOr for PageEntryFlags {
    type Output = PageEntryFlags;

    fn bitor(self, rhs: PageEntryFlags) -> (union: PageEntryFlags) {
        PageEntryFlags(self.0 | rhs.0)
    }
}

impl vstd::std_specs::ops::BitOrSpecImpl for PageEntryFlags {
    open spec fn obeys_bitor_spec() -> bool {
        true
    }

    open spec fn bitor_req(self, rhs: PageEntryFlags) -> bool {
        true
    }

    open spec fn bitor_spec(self, rhs: PageEntryFlags) -> PageEntryFlags {
        PageEntryFlags(self.0 | rhs.0)
    }
}

impl core::ops::BitAnd for PageEntryFlags {
    type Output = PageEntryFlags;

    fn bitand(self, rhs: PageEntryFlags) -> (common: PageEntryFlags) {
        PageEntryFlags(self.0 & rhs.0)
    }
}

impl vstd::std_specs::ops::BitAndSpecImpl for PageEntryFlags {
    open spec fn obeys_bitand_spec() -> bool {
        true
    }

    open spec fn bitand_req(self, rhs: PageEntryFlags) -> bool {
        true
    }

    open spec fn bitand_spec(self, rhs: PageEntryFlags) -> PageEntryFlags {
        PageEntryFlags(self.0 & rhs.0)
    }
}

} // verus!
