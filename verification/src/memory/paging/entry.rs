//! The 64-bit translation entry and its fields.

use super::flags::PageEntryFlags;
use vstd::prelude::*;

verus! {

/// What a translation entry is: empty, a terminal mapping, or a pointer to
/// the table one level down, with that table's address.
#[derive(Clone, Copy, Debug, PartialEq, Eq, Structural)]
pub enum PageEntryType {
    Invalid,
    Leaf,
    Branch(usize),
}

/// One 64-bit translation entry. Bits 0 to 7 hold the flags, bits 8 and 9 are
/// reserved, bits 10 to 53 hold the page number of a physical address (its
/// bits 12 to 55) in three fields of 9, 9 and 26 bits, and bits 54 to 63 are
/// reserved.
#[derive(Clone, Copy, Debug, PartialEq, Eq, Structural)]
pub struct PageEntry(pub u64);

/// The bits of an entry that hold the flags.
pub const FLAG_FIELD: u64 = 0xff;

/// The bits of an entry that hold the page number.
pub const PAGE_NUMBER_FIELD: u64 = 0x003f_ffff_ffff_fc00;

/// The bits of a page number, and so of a physical address shifted right by 12.
pub const PAGE_NUMBER_BITS: u64 = 0x0fff_ffff_ffff;

/// The bits of a physical address that an entry stores.
pub const ADDRESS_FIELD: u64 = 0x00ff_ffff_ffff_f000;

/// The index that `address` selects in the table of level `level`: the nine
/// bits of the address above the level's page offset.
pub open spec fn vpn(address: usize, level: int) -> int {
    if level == 0 {
        (address as int / 0x1000) % 512
    } else if level == 1 {
        (address as int / 0x20_0000) % 512
    } else {
        (address as int / 0x4000_0000) % 512
    }
}

impl PageEntry {
    /// The entry's eight flag bits.
    pub open spec fn flags(self) -> PageEntryFlags {
        PageEntryFlags((self.0 & FLAG_FIELD) as u8)
    }

    /// The physical address that the entry's three page-number fields spell.
    pub open spec fn address(self) -> usize {
        (((self.0 >> 10) & PAGE_NUMBER_BITS) << 12) as usize
    }

    /// The reserved bits of the entry: those that hold neither a flag nor a
    /// bit of the page number.
    pub open spec fn reserved(self) -> u64 {
        self.0 & !(FLAG_FIELD | PAGE_NUMBER_FIELD)
    }

    pub open spec fn holds_valid(self) -> bool {
        self.0 & 0x01 != 0
    }

    /// Whether any of read, write and execute is set.
    pub open spec fn holds_access(self) -> bool {
        self.0 & 0x0e != 0
    }

    pub open spec fn kind(self) -> PageEntryType {
        if !self.holds_valid() {
            PageEntryType::Invalid
        } else if self.holds_access() {
            PageEntryType::Leaf
        } else {
            PageEntryType::Branch(self.address())
        }
    }

    /// The entry that `word` becomes when its flag bits are replaced by `flags`.
    pub open spec fn with_flags(self, flags: PageEntryFlags) -> PageEntry {
        PageEntry((self.0 & !FLAG_FIELD) | (flags.0 as u64))
    }

    /// The entry that `self` becomes when its page-number fields are replaced
    /// by those of `address`.
    pub open spec fn with_address(self, address: usize) -> PageEntry {
        PageEntry(
            (self.0 & !PAGE_NUMBER_FIELD) | ((((address as u64) >> 12) & PAGE_NUMBER_BITS) << 10),
        )
    }

    /// The entry with all bits clear: invalid, no flags, page number 0.
    pub fn new() -> (entry: Self)
        ensures
            entry.0 == 0,
    {
        PageEntry(0)
    }

    /// Packs flags and a physical address into an entry whose reserved bits
    /// are clear.
    pub fn encode(flags: &PageEntryFlags, ppn: usize) -> (entry: Self)
        ensures
            entry == PageEntry(0).with_flags(*flags).with_address(ppn),
            entry.flags() == *flags,
            entry.address() as u64 == (ppn as u64) & ADDRESS_FIELD,
    {
        let mut entry = PageEntry(0);
        entry.set_flags(flags);
        entry.set_ppn(ppn);
        proof {
            lemma_address_field(ppn as u64);
        }
        entry
    }

    /// Unpacks the flags and the physical address of an entry.
    pub fn decode(&self) -> (parts: (PageEntryFlags, usize))
        ensures
            parts.0 == self.flags(),
            parts.1 == self.address(),
    {
        let word: u64 = self.0;
        let low: u64 = word & FLAG_FIELD;
        assert(low < 256) by (bit_vector)
            requires
                low == word & 0xff,
        ;
        (PageEntryFlags(low as u8), self.get_ppn())
    }

    pub fn valid(&self) -> (set: bool)
        ensures
            set == self.holds_valid(),
    {
        self.0 & 0x01 != 0
    }

    pub fn read(&self) -> (set: bool)
        ensures
            set == (self.0 & 0x02 != 0),
    {
        self.0 & 0x02 != 0
    }

    pub fn write(&self) -> (set: bool)
        ensures
            set == (self.0 & 0x04 != 0),
    {
        self.0 & 0x04 != 0
    }

    pub fn execute(&self) -> (set: bool)
        ensures
            set == (self.0 & 0x08 != 0),
    {
        self.0 & 0x08 != 0
    }
    pub fn is_leaf(&self) -> (leaf: bool)
        ensures
            leaf == self.holds_access(),
    {
        let word: u64 = self.0;
        assert(((word & 0x02 != 0) || (word & 0x04 != 0) || (word & 0x08 != 0)) == (word & 0x0e
            != 0)) by (bit_vector);
        self.read() || self.write() || self.execute()
    }

    pub fn is_branch(&self) -> (branch: bool)
        ensures
            branch == !self.holds_access(),
    {
        !self.is_leaf()
    }

    pub fn is_valid(&self) -> (valid: bool)
        ensures
            valid == self.holds_valid(),
    {
        self.valid()
    }

    pub fn is_invalid(&self) -> (invalid: bool)
        ensures
            invalid == !self.holds_valid(),
    {
        !self.valid()
    }

    pub fn get_type(&self) -> (kind: PageEntryType)
        ensures
            kind == self.kind(),
    {
        if self.is_invalid() {
            return PageEntryType::Invalid;
        }
        if self.is_leaf() {
            return PageEntryType::Leaf;
        }
        PageEntryType::Branch(self.get_ppn())
    }

    /// Stores bits 12 to 55 of `ppn` in the page-number fields and leaves the
    /// other bits of the entry as they are.
    pub fn set_ppn(&mut self, ppn: usize)
        ensures
            *final(self) == old(self).with_address(ppn),
            final(self).address() as u64 == (ppn as u64) & ADDRESS_FIELD,
            final(self).flags() == old(self).flags(),
            final(self).holds_valid() == old(self).holds_valid(),
            final(self).holds_access() == old(self).holds_access(),
    {
        proof {
            lemma_with_address(self.0, ppn as u64);
            lemma_address_field(ppn as u64);
        }
        self.0 = (self.0 & !PAGE_NUMBER_FIELD) | ((((ppn as u64) >> 12) & PAGE_NUMBER_BITS) << 10);
    }

    pub fn get_ppn(&self) -> (ppn: usize)
        ensures
            ppn == self.address(),
    {
        let address: u64 = ((self.0 >> 10) & PAGE_NUMBER_BITS) << 12;
        #[verifier::truncate]
        (address as usize)
    }

    /// Replaces the eight flag bits by `flags` and leaves the other bits of
    /// the entry as they are.
    pub fn set_flags(&mut self, flags: &PageEntryFlags)
        ensures
            *final(self) == old(self).with_flags(*flags),
            final(self).flags() == *flags,
            final(self).address() == old(self).address(),
            final(self).holds_valid() == (flags.0 & 0x01 != 0),
            final(self).holds_access() == flags.describes_leaf(),
    {
        proof {
            lemma_with_flags(self.0, flags.0);
        }
        self.0 = (self.0 & !FLAG_FIELD) | (flags.0 as u64);
    }

    /// Replaces the eight flag bits by those of `entry`.
    pub fn copy_flags(&mut self, entry: PageEntry)
        ensures
            *final(self) == old(self).with_flags(entry.flags()),
            final(self).flags() == entry.flags(),
            final(self).address() == old(self).address(),
            final(self).holds_valid() == entry.holds_valid(),
            final(self).holds_access() == entry.holds_access(),
    {
        let word: u64 = entry.0;
        let low: u64 = word & FLAG_FIELD;
        assert(low < 256 && (low & 0x01 != 0) == (word & 0x01 != 0) && (low & 0x0e != 0) == (
        word & 0x0e != 0) && (low as u8) & 0x01 != 0 == (low & 0x01 != 0) && ((low as u8) & 0x0e
            != 0) == (low & 0x0e != 0)) by (bit_vector)
            requires
                low == word & 0xff,
        ;
        let flags = PageEntryFlags(low as u8);
        self.set_flags(&flags);
    }

    /// Splits a virtual address into its three table indices, the index into
    /// the lowest table first. The page offset (the low 12 bits) and the bits
    /// from 39 up are ignored.
    pub fn extract_vpns(vpn: usize) -> (indices: [usize; 3])
        ensures
            indices@[0] == self::vpn(vpn, 0),
            indices@[1] == self::vpn(vpn, 1),
            indices@[2] == self::vpn(vpn, 2),
    {
        assert((vpn >> 12) & 0x1ff == (vpn / 0x1000) % 512 && (vpn >> 21) & 0x1ff == (vpn
            / 0x20_0000) % 512 && (vpn >> 30) & 0x1ff == (vpn / 0x4000_0000) % 512)
            by (bit_vector);
        [(vpn >> 12) & 0x1FF, (vpn >> 21) & 0x1FF, (vpn >> 30) & 0x1FF]
    }
}

/// What replacing the flag bits of `word` by `flags` does to each field.
pub proof fn lemma_with_flags(word: u64, flags: u8)
    ensures
        PageEntry(word).with_flags(PageEntryFlags(flags)).flags() == PageEntryFlags(flags),
        PageEntry(word).with_flags(PageEntryFlags(flags)).address() == PageEntry(word).address(),
        PageEntry(word).with_flags(PageEntryFlags(flags)).holds_valid() == (flags & 0x01 != 0),
        PageEntry(word).with_flags(PageEntryFlags(flags)).holds_access() == (flags & 0x0e != 0),
        PageEntry(word).with_flags(PageEntryFlags(flags)).0 & !(FLAG_FIELD | PAGE_NUMBER_FIELD)
            == word & !(FLAG_FIELD | PAGE_NUMBER_FIELD),
{
    let wide: u64 = flags as u64;
    let changed: u64 = (word & !0xffu64) | wide;
    assert(changed & 0xff == wide && (changed >> 10) & 0x0fff_ffff_ffff == (word >> 10)
        & 0x0fff_ffff_ffff && (changed & 0x01 != 0) == (flags & 0x01 != 0) && (changed & 0x0e != 0)
        == (flags & 0x0e != 0) && changed & !(0xffu64 | 0x003f_ffff_ffff_fc00) == word & !(0xffu64
        | 0x003f_ffff_ffff_fc00)) by (bit_vector)
        requires
            wide == flags as u64,
            changed == (word & !0xffu64) | wide,
    ;
}

/// What replacing the page-number fields of `word` by those of `address`
/// does to each field.
pub proof fn lemma_with_address(word: u64, address: u64)
    ensures
        ({
            let changed = (word & !PAGE_NUMBER_FIELD) | (((address >> 12) & PAGE_NUMBER_BITS)
                << 10);
            &&& ((changed >> 10) & PAGE_NUMBER_BITS) << 12 == address & ADDRESS_FIELD
            &&& changed & FLAG_FIELD == word & FLAG_FIELD
            &&& (changed & 0x01 != 0) == (word & 0x01 != 0)
            &&& (changed & 0x0e != 0) == (word & 0x0e != 0)
            &&& changed & !(FLAG_FIELD | PAGE_NUMBER_FIELD) == word & !(FLAG_FIELD
                | PAGE_NUMBER_FIELD)
        }),
{
    let changed: u64 = (word & !0x003f_ffff_ffff_fc00u64) | (((address >> 12) & 0x0fff_ffff_ffff)
        << 10);
    assert(((changed >> 10) & 0x0fff_ffff_ffff) << 12 == address & 0x00ff_ffff_ffff_f000 && changed
        & 0xff == word & 0xff && (changed & 0x01 != 0) == (word & 0x01 != 0) && (changed & 0x0e
        != 0) == (word & 0x0e != 0) && changed & !(0xffu64 | 0x003f_ffff_ffff_fc00) == word & !(
    0xffu64 | 0x003f_ffff_ffff_fc00)) by (bit_vector)
        requires
            changed == (word & !0x003f_ffff_ffff_fc00u64) | (((address >> 12) & 0x0fff_ffff_ffff)
                << 10),
    ;
}

/// An address below 2^56 on a 4 KiB boundary lies wholly in the bits that an
/// entry stores.
pub proof fn lemma_address_field(address: u64)
    ensures
        address < 0x0100_0000_0000_0000 && address % 0x1000 == 0 ==> address & ADDRESS_FIELD
            == address,
        (address & ADDRESS_FIELD) % 0x1000 == 0,
        address & ADDRESS_FIELD <= address,
{
    assert((address < 0x0100_0000_0000_0000 && address % 0x1000 == 0 ==> address
        & 0x00ff_ffff_ffff_f000 == address) && (address & 0x00ff_ffff_ffff_f000) % 0x1000 == 0
        && address & 0x00ff_ffff_ffff_f000 <= address) by (bit_vector);
}

} // verus!
