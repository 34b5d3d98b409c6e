//! The free list: free regions in the order in which they were freed, the
//! last first, searched first-fit and never merged.

use crate::memory::MemoryError;
use vstd::prelude::*;

verus! {

/// Bytes of the header of a free region: its size and the link to the next.
pub const NODE_SIZE: usize = 16;

/// The alignment of the header of a free region.
pub const NODE_ALIGN: usize = 8;

/// One free region of the heap: `size` bytes from `start` on.
#[derive(Clone, Copy, Debug, PartialEq, Eq, Structural)]
pub struct Node {
    pub start: usize,
    pub size: usize,
}

impl Node {
    /// Whether the region starts where a header can lie, can hold one, and
    /// ends within the address space.
    pub open spec fn wf(self) -> bool {
        &&& self.start % NODE_ALIGN == 0
        &&& self.size >= NODE_SIZE
        &&& self.start + self.size <= usize::MAX
    }

    /// The address at which the region ends.
    pub open spec fn end(self) -> int {
        self.start + self.size
    }

    pub fn new(start: usize, size: usize) -> (node: Self)
        ensures
            node == (Node { start, size }),
    {
        Node { start, size }
    }

    pub fn start_addr(&self) -> (start: usize)
        ensures
            start == self.start,
    {
        self.start
    }

    pub fn end_addr(&self) -> (end: usize)
        requires
            self.start + self.size <= usize::MAX,
        ensures
            end == self.end(),
    {
        self.start_addr() + self.size
    }
}

/// The least multiple of `align` that is not below `value`.
pub open spec fn aligned_from(value: int, align: int) -> int {
    (value + align - 1) / align * align
}

/// Where an allocation of `size` bytes, aligned to `align`, lies in a free
/// region, if it can lie there: at the first aligned address of the region,
/// if the bytes end within the region and leave behind them either nothing
/// or room for a header.
pub open spec fn fit(region: Node, size: usize, align: usize) -> Option<usize> {
    let start = aligned_from(region.start as int, align as int);
    let left = region.end() - (start + size);
    if align >= 1 && (left == 0 || left >= NODE_SIZE) {
        Some(start as usize)
    } else {
        None
    }
}

/// The size and the alignment that a request is served with: the alignment
/// at least that of a header, the size a multiple of that alignment and at
/// least the size of a header. There is none where the alignment is no
/// multiple of that of a header or the size cannot be rounded up.
pub open spec fn rounded(size: usize, align: usize) -> Option<(usize, usize)> {
    let wide = if align < NODE_ALIGN {
        NODE_ALIGN as int
    } else {
        align as int
    };
    let padded = aligned_from(size as int, wide);
    if wide % (NODE_ALIGN as int) == 0 && padded <= usize::MAX {
        Some(
            (
                if padded < NODE_SIZE {
                    NODE_SIZE
                } else {
                    padded as usize
                },
                wide as usize,
            ),
        )
    } else {
        None
    }
}

/// What is left of a free region behind an allocation of `size` bytes at
/// `address`: a free region of its own, or nothing.
pub open spec fn rest(region: Node, address: usize, size: usize) -> Seq<Node> {
    if region.end() - (address + size) > 0 {
        seq![Node { start: (address + size) as usize, size: (region.end() - (address + size)) as usize }]
    } else {
        Seq::<Node>::empty()
    }
}

/// What an allocation does to the free list: it takes the first region that
/// fits out of the list and puts what is left of the region at the head, or
/// it finds no region and leaves the list as it is.
pub open spec fn allocated(
    before: Seq<Node>,
    after: Seq<Node>,
    size: usize,
    align: usize,
    result: Option<usize>,
) -> bool {
    match rounded(size, align) {
        None => result is None && after == before,
        Some((bytes, boundary)) => match result {
            Some(address) => exists|index: int|
                {
                    &&& 0 <= index < before.len()
                    &&& #[trigger] fit(before[index], bytes, boundary) == Some(address)
                    &&& forall|earlier: int|
                        0 <= earlier < index ==> fit(
                            #[trigger] before[earlier],
                            bytes,
                            boundary,
                        ) is None
                    &&& after == rest(before[index], address, bytes) + before.remove(index)
                },
            None => {
                &&& forall|index: int|
                    0 <= index < before.len() ==> fit(#[trigger] before[index], bytes, boundary)
                        is None
                &&& after == before
            },
        },
    }
}

/// What a release does to the free list: the bytes become a free region at
/// the head of the list, if a header can lie at their start.
pub open spec fn released(
    before: Seq<Node>,
    after: Seq<Node>,
    address: usize,
    size: usize,
    align: usize,
    result: Result<(), MemoryError>,
) -> bool {
    match rounded(size, align) {
        Some((bytes, boundary)) if (Node { start: address, size: bytes }).wf() => result is Ok
            && after == seq![Node { start: address, size: bytes }] + before,
        _ => result == Err::<(), MemoryError>(MemoryError::MisalignedAddress) && after == before,
    }
}

/// Whether every region of the list can hold its header.
pub open spec fn all_wf(nodes: Seq<Node>) -> bool {
    forall|index: int| 0 <= index < nodes.len() ==> (#[trigger] nodes[index]).wf()
}

/// Puts `node` at the head of the list.
fn push_front(nodes: &mut Vec<Node>, node: Node)
    requires
        all_wf(old(nodes)@),
        node.wf(),
    ensures
        all_wf(final(nodes)@),
        final(nodes)@ == seq![node] + old(nodes)@,
{
    nodes.insert(0, node);
    proof {
        assert(nodes@ =~= seq![node] + old(nodes)@);
        assert forall|index: int| 0 <= index < nodes@.len() implies (#[trigger] nodes@[index]).wf() by {
            if index > 0 {
                assert(old(nodes)@[index - 1].wf());
            }
        }
    }
}

/// Takes the region at `index` out of the list.
fn take_out(nodes: &mut Vec<Node>, index: usize) -> (node: Node)
    requires
        all_wf(old(nodes)@),
        index < old(nodes)@.len(),
    ensures
        all_wf(final(nodes)@),
        node == old(nodes)@[index as int],
        final(nodes)@ == old(nodes)@.remove(index as int),
{
    let node = nodes.remove(index);
    proof {
        assert forall|place: int| 0 <= place < nodes@.len() implies (#[trigger] nodes@[place]).wf() by {
            if place < index {
                assert(old(nodes)@[place].wf());
            } else {
                assert(old(nodes)@[place + 1].wf());
            }
        }
    }
    node
}

/// The free list of the kernel heap: the free regions, the one freed last
/// first. Neighbouring regions are never merged.
pub struct LinkedListAllocator {
    nodes: Vec<Node>,
}

impl LinkedListAllocator {
    /// The free regions, the head of the list first.
    pub closed spec fn free_list(&self) -> Seq<Node> {
        self.nodes@
    }

    /// Every free region can hold its header. This holds of every free
    /// list, at every moment.
    #[verifier::type_invariant]
    pub closed spec fn wf(&self) -> bool {
        all_wf(self.nodes@)
    }

    /// Every region of the free list can hold its header.
    pub proof fn lemma_regions_hold_headers(&self)
        requires
            self.wf(),
        ensures
            all_wf(self.free_list()),
    {
    }

    pub fn new() -> (allocator: Self)
        ensures
            allocator.free_list() == Seq::<Node>::empty(),
    {
        Self { nodes: Vec::new() }
    }

    /// The free regions, the head of the list first.
    pub fn regions(&self) -> (nodes: &Vec<Node>)
        ensures
            nodes@ == self.free_list(),
    {
        &self.nodes
    }

    /// Initializes the allocator inside the given region.
    pub fn init(&mut self, start: usize, size: usize) -> (result: Result<(), MemoryError>)
        ensures
            (Node { start, size }).wf() <==> result is Ok,
            result is Ok ==> final(self).free_list() == seq![(Node { start, size })] + old(
                self,
            ).free_list(),
            result matches Err(error) ==> error == MemoryError::MisalignedAddress,
            result is Err ==> final(self).free_list() == old(self).free_list(),
    {
        self.add_free_region(start, size)
    }

    /// Adds a memory region to the front of the list. The region must start
    /// at a multiple of the alignment of a header, be large enough for one,
    /// and end within the address space.
    pub fn add_free_region(&mut self, addr: usize, size: usize) -> (result: Result<
        (),
        MemoryError,
    >)
        ensures
            (Node { start: addr, size }).wf() <==> result is Ok,
            result is Ok ==> final(self).free_list() == seq![(Node { start: addr, size })] + old(
                self,
            ).free_list(),
            result matches Err(error) ==> error == MemoryError::MisalignedAddress,
            result is Err ==> final(self).free_list() == old(self).free_list(),
    {
        // Check if the address is aligned and the size is big enough
        if addr % NODE_ALIGN != 0 || size < NODE_SIZE || size > usize::MAX - addr {
            return Err(MemoryError::MisalignedAddress);
        }
        proof {
            use_type_invariant(&*self);
        }
        // The list leaves the allocator while it changes
        let mut nodes: Vec<Node> = Vec::new();
        core::mem::swap(&mut self.nodes, &mut nodes);
        push_front(&mut nodes, Node::new(addr, size));
        self.nodes = nodes;
        Ok(())
    }

    /// Searches the list for a free region with room for `size` bytes
    /// aligned to `align` and removes it from the list.
    ///
    /// Returns the region and the address of the bytes.
    pub fn find_region(&mut self, size: usize, align: usize) -> (found: Option<(Node, usize)>)
        requires
            align >= 1,
        ensures
            match found {
                Some((region, address)) => region.wf() && exists|index: int|
                    {
                        &&& 0 <= index < old(self).free_list().len()
                        &&& #[trigger] old(self).free_list()[index] == region
                        &&& fit(region, size, align) == Some(address)
                        &&& forall|earlier: int|
                            0 <= earlier < index ==> fit(
                                #[trigger] old(self).free_list()[earlier],
                                size,
                                align,
                            ) is None
                        &&& final(self).free_list() == old(self).free_list().remove(index)
                    },
                None => {
                    &&& forall|index: int|
                        0 <= index < old(self).free_list().len() ==> fit(
                            #[trigger] old(self).free_list()[index],
                            size,
                            align,
                        ) is None
                    &&& final(self).free_list() == old(self).free_list()
                },
            },
    {
        proof {
            use_type_invariant(&*self);
        }
        let mut current: usize = 0;
        // Search the list for a large enough region
        while current < self.nodes.len()
            invariant
                self.nodes@ == old(self).nodes@,
                all_wf(self.nodes@),
                align >= 1,
                current <= self.nodes@.len(),
                forall|earlier: int|
                    0 <= earlier < current ==> fit(#[trigger] self.nodes@[earlier], size, align)
                        is None,
            decreases self.nodes@.len() - current,
        {
            let region: Node = self.nodes[current];
            assert(self.nodes@[current as int].wf());
            if let Some(alloc_start) = Self::alloc_from_region(&region, size, align) {
                // The region is good, remove it's node from the list
                let mut nodes: Vec<Node> = Vec::new();
                core::mem::swap(&mut self.nodes, &mut nodes);
                let removed = take_out(&mut nodes, current);
                self.nodes = nodes;
                proof {
                    assert(old(self).free_list()[current as int] == region);
                }
                return Some((removed, alloc_start));
            }
            // The region is not good, go to the next node
            current += 1;
        }
        // No good region found :(
        None
    }

    /// Try to allocate this region with `size` and `align`.
    ///
    /// Returns the start address if successful.
    pub fn alloc_from_region(region: &Node, size: usize, align: usize) -> (fitted: Option<usize>)
        requires
            region.wf(),
            align >= 1,
        ensures
            fitted == fit(*region, size, align),
    {
        let remainder: usize = region.start_addr() % align;
        proof {
            lemma_aligned_from(region.start as int, align as int);
        }
        let start: usize = if remainder == 0 {
            region.start_addr()
        } else {
            let gap: usize = align - remainder;
            if gap > region.size {
                // The region ends below its first aligned address
                return None;
            }
            region.start_addr() + gap
        };
        let end: usize = match start.checked_add(size) {
            Some(end) => end,
            None => {
                return None;
            },
        };
        if end > region.end_addr() {
            // The region is too small
            return None;
        }
        let remaining_size: usize = region.end_addr() - end;
        if remaining_size > 0 && remaining_size < NODE_SIZE {
            // The rest of the region is too small to hold a Node
            return None;
        }
        // Region is good :)

        Some(start)
    }

    /// Adjusts a requested size and alignment to be a valid region.
    ///
    /// Returns (size, align) of the region.
    pub fn size_align(size: usize, align: usize) -> (adjusted: Option<(usize, usize)>)
        ensures
            adjusted == rounded(size, align),
    {
        let wide: usize = if align < NODE_ALIGN {
            NODE_ALIGN
        } else {
            align
        };
        if wide % NODE_ALIGN != 0 {
            return None;
        }
        let remainder: usize = size % wide;
        proof {
            lemma_aligned_from(size as int, wide as int);
        }
        let padded: usize = if remainder == 0 {
            size
        } else {
            match size.checked_add(wide - remainder) {
                Some(padded) => padded,
                None => {
                    return None;
                },
            }
        };
        let size: usize = if padded < NODE_SIZE {
            NODE_SIZE
        } else {
            padded
        };
        Some((size, wide))
    }

    /// Takes `size` bytes aligned to `align` from the first free region that
    /// has room for them, and returns their address. What is left of the
    /// region behind the bytes goes back to the head of the list.
    pub fn allocate(&mut self, size: usize, align: usize) -> (result: Option<usize>)
        ensures
            allocated(old(self).free_list(), final(self).free_list(), size, align, result),
    {
        proof {
            lemma_rounded(size, align);
        }
        let (size, align) = match Self::size_align(size, align) {
            Some(adjusted) => adjusted,
            None => {
                return None;
            },
        };
        // Allocate a new region
        if let Some((region, start)) = self.find_region(size, align) {
            let ghost taken = self.nodes@;
            proof {
                lemma_aligned_from(region.start as int, align as int);
                lemma_multiple_of_eight(start as int, align as int);
            }
            let end: usize = start + size;
            let remaining_size: usize = region.end_addr() - end;
            if remaining_size > 0 {
                // If there is a remaining region, add it to the list
                let added = self.add_free_region(end, remaining_size);
                assert(added is Ok);
            }
            proof {
                assert(self.nodes@ =~= rest(region, start, size) + taken);
            }
            Some(start)
        } else {
            None  // There are no more regions to allocate
        }
    }

    /// Gives `size` bytes at `address`, allocated with that size and
    /// alignment, back: they become a free region at the head of the list.
    pub fn deallocate(&mut self, address: usize, size: usize, align: usize) -> (result: Result<
        (),
        MemoryError,
    >)
        ensures
            released(
                old(self).free_list(),
                final(self).free_list(),
                address,
                size,
                align,
                result,
            ),
    {
        match Self::size_align(size, align) {
            Some((size, _)) => self.add_free_region(address, size),
            None => Err(MemoryError::MisalignedAddress),
        }
    }
}

/// An allocation from a heap of one free region that starts on the boundary
/// asked for, and the release of the same bytes right after it: where the
/// request takes the whole region, the free list is again the one region
/// that spans it; where it takes less, the region comes back in two parts
/// that lie side by side, for free regions are never merged.
pub proof fn lemma_round_trip(
    region: Node,
    between: Seq<Node>,
    after: Seq<Node>,
    size: usize,
    align: usize,
    address: usize,
    result: Result<(), MemoryError>,
)
    requires
        region.wf(),
        rounded(size, align) is Some,
        region.start as int % (rounded(size, align)->Some_0.1 as int) == 0,
        allocated(seq![region], between, size, align, Some(address)),
        released(between, after, address, size, align, result),
    ensures
        result is Ok,
        address == region.start,
        region.size == rounded(size, align)->Some_0.0 ==> after == seq![region],
        region.size != rounded(size, align)->Some_0.0 ==> after == seq![
            Node { start: region.start, size: rounded(size, align)->Some_0.0 },
            Node {
                start: (region.start + rounded(size, align)->Some_0.0) as usize,
                size: (region.size - rounded(size, align)->Some_0.0) as usize,
            },
        ],
{
    let (bytes, boundary) = rounded(size, align)->Some_0;
    let before = seq![region];
    lemma_rounded(size, align);
    lemma_aligned_from(region.start as int, boundary as int);
    let index = choose|index: int|
        {
            &&& 0 <= index < before.len()
            &&& #[trigger] fit(before[index], bytes, boundary) == Some(address)
            &&& between == rest(before[index], address, bytes) + before.remove(index)
        };
    assert(index == 0);
    assert(before.remove(0) =~= Seq::<Node>::empty());
    assert(between =~= rest(region, address, bytes));
    if region.size == bytes {
        assert(after =~= seq![region]);
    } else {
        assert(after =~= seq![
            Node { start: region.start, size: bytes },
            Node { start: (region.start + bytes) as usize, size: (region.size - bytes) as usize },
        ]);
    }
}

/// `aligned_from` names the least multiple of `align` that is not below
/// `value`: the value itself where it is a multiple, and else the value and
/// what it lacks to the next.
pub proof fn lemma_aligned_from(value: int, align: int)
    requires
        value >= 0,
        align >= 1,
    ensures
        aligned_from(value, align) == if value % align == 0 {
            value
        } else {
            value + align - value % align
        },
        aligned_from(value, align) % align == 0,
        value <= aligned_from(value, align) < value + align,
{
    let whole = value / align;
    let remainder = value % align;
    vstd::arithmetic::div_mod::lemma_fundamental_div_mod(value, align);
    assert(value == align * whole + remainder);
    if remainder == 0 {
        assert(value + align - 1 == whole * align + (align - 1)) by (nonlinear_arith)
            requires
                value == align * whole,
        ;
        vstd::arithmetic::div_mod::lemma_fundamental_div_mod_converse(
            value + align - 1,
            align,
            whole,
            align - 1,
        );
        assert(whole * align == value) by (nonlinear_arith)
            requires
                value == align * whole,
        ;
    } else {
        assert(value + align - 1 == (whole + 1) * align + (remainder - 1)) by (nonlinear_arith)
            requires
                value == align * whole + remainder,
        ;
        vstd::arithmetic::div_mod::lemma_fundamental_div_mod_converse(
            value + align - 1,
            align,
            whole + 1,
            remainder - 1,
        );
        assert((whole + 1) * align == value + align - remainder) by (nonlinear_arith)
            requires
                value == align * whole + remainder,
        ;
    }
    vstd::arithmetic::div_mod::lemma_mod_multiples_basic(
        (value + align - 1) / align,
        align,
    );
}

/// The size and the alignment that a request is served with are multiples
/// of eight, the size at least that of a header.
pub proof fn lemma_rounded(size: usize, align: usize)
    ensures
        rounded(size, align) matches Some((bytes, boundary)) ==> bytes % 8 == 0 && boundary % 8
            == 0 && bytes >= NODE_SIZE && boundary >= NODE_ALIGN,
{
    let wide = if align < NODE_ALIGN {
        NODE_ALIGN as int
    } else {
        align as int
    };
    if rounded(size, align) is Some {
        lemma_aligned_from(size as int, wide);
        lemma_multiple_of_eight(aligned_from(size as int, wide), wide);
    }
}

/// A multiple of a multiple of eight is a multiple of eight.
proof fn lemma_multiple_of_eight(value: int, align: int)
    requires
        align >= 1,
        align % 8 == 0,
        value % align == 0,
    ensures
        value % 8 == 0,
{
    vstd::arithmetic::div_mod::lemma_fundamental_div_mod(value, align);
    let whole = value / align;
    let eights = align / 8;
    assert(value == 8 * (eights * whole)) by (nonlinear_arith)
        requires
            value == align * whole,
            align == 8 * eights,
    ;
}

} // verus!
