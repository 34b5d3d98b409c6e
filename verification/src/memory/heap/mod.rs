//! The heap of the kernel: a free list, and the lock behind which it serves
//! many callers.

pub mod list;

pub use list::{LinkedListAllocator, Node};

use super::MemoryError;
use list::{lemma_aligned_from, rounded};
use vstd::prelude::*;

verus! {

#[verifier::external_type_specification]
#[verifier::external_body]
#[verifier::reject_recursive_types(T)]
#[verifier::reject_recursive_types(R)]
pub struct ExMutex<T: ?Sized, R>(spin::mutex::Mutex<T, R>);

#[verifier::external_type_specification]
#[verifier::external_body]
#[verifier::reject_recursive_types(T)]
pub struct ExMutexGuard<'a, T: 'a + ?Sized>(spin::mutex::MutexGuard<'a, T>);

#[verifier::external_type_specification]
#[verifier::external_body]
pub struct ExSpin(spin::relax::Spin);

/// A lock around `value`, as `spin::mutex::Mutex::new` makes it. Nothing is
/// claimed of it.
#[verifier::external_body]
fn new_mutex<A>(value: A) -> (mutex: spin::mutex::Mutex<A, spin::relax::Spin>) {
    spin::mutex::Mutex::new(value)
}

/// Takes the lock, as `spin::mutex::Mutex::lock` does: it spins until the
/// lock is free. Nothing is claimed of the guard.
#[verifier::external_body]
fn lock<A>(mutex: &spin::mutex::Mutex<A, spin::relax::Spin>) -> (guard: spin::mutex::MutexGuard<
    '_,
    A,
>) {
    mutex.lock()
}

/// The value that the guard protects, as `deref_mut` of
/// `spin::mutex::MutexGuard` hands it out. Nothing is claimed of the value:
/// whoever held the lock before may have changed it.
#[verifier::external_body]
fn held<'a, 'b, A>(guard: &'a mut spin::mutex::MutexGuard<'b, A>) -> (value: &'a mut A) {
    &mut **guard
}

/// Bytes at the start of the memory that the heap leaves alone.
pub const HEAP_OFFSET: usize = 1024;

/// An allocator behind a lock, so that it can serve many callers: each
/// operation takes the lock, and holds it until it is done.
#[verifier::reject_recursive_types(A)]
pub struct KernelAllocator<A> {
    allocator: spin::mutex::Mutex<A, spin::relax::Spin>,
}

impl<A> KernelAllocator<A> {
    pub fn new(allocator: A) -> (shared: Self) {
        Self { allocator: new_mutex(allocator) }
    }
}

impl KernelAllocator<LinkedListAllocator> {
    /// Takes `size` bytes aligned to `align` from the heap, as
    /// `LinkedListAllocator::allocate` does with the free list that it finds
    /// behind the lock. Whatever that list holds, an address that comes back
    /// lies on the boundary that the request is served with, and the bytes
    /// end within the address space.
    pub fn allocate(&self, size: usize, align: usize) -> (result: Option<usize>)
        ensures
            rounded(size, align) is None ==> result is None,
            result matches Some(address) ==> {
                &&& rounded(size, align) is Some
                &&& address as int % (rounded(size, align)->Some_0.1 as int) == 0
                &&& address + rounded(size, align)->Some_0.0 <= usize::MAX
            },
    {
        let mut guard = lock(&self.allocator);
        let heap = held(&mut guard);
        let ghost before = heap.free_list();
        proof {
            use_type_invariant(&*heap);
            heap.lemma_regions_hold_headers();
        }
        let result = heap.allocate(size, align);
        proof {
            if let Some(address) = result {
                let (bytes, boundary) = rounded(size, align)->Some_0;
                let index = choose|index: int|
                    0 <= index < before.len() && #[trigger] list::fit(
                        before[index],
                        bytes,
                        boundary,
                    ) == Some(address);
                assert(before[index].wf());
                lemma_aligned_from(before[index].start as int, boundary as int);
            }
        }
        result
    }

    /// Gives `size` bytes at `address` back to the heap, as
    /// `LinkedListAllocator::deallocate` does with the free list that it
    /// finds behind the lock. Whether that works depends on the address and
    /// the size alone.
    pub fn deallocate(&self, address: usize, size: usize, align: usize) -> (result: Result<
        (),
        MemoryError,
    >)
        ensures
            result is Ok <==> rounded(size, align) is Some && (Node {
                start: address,
                size: rounded(size, align)->Some_0.0,
            }).wf(),
            result matches Err(error) ==> error == MemoryError::MisalignedAddress,
    {
        let mut guard = lock(&self.allocator);
        let heap = held(&mut guard);
        heap.deallocate(address, size, align)
    }
}

/// Starts the heap in the `size` bytes that lie 1024 bytes behind
/// `mem_start`: they become a free region at the head of the free list. The
/// region must start at a multiple of eight, hold 16 bytes at least, and end
/// within the address space.
pub fn init(allocator: &KernelAllocator<LinkedListAllocator>, mem_start: usize, size: usize) -> (result:
    Result<(), MemoryError>)
    ensures
        result is Ok <==> mem_start + HEAP_OFFSET <= usize::MAX && (Node {
            start: (mem_start + HEAP_OFFSET) as usize,
            size,
        }).wf(),
        result matches Err(error) ==> error == MemoryError::MisalignedAddress,
{
    let start: usize = match mem_start.checked_add(HEAP_OFFSET) {
        Some(start) => start,
        None => {
            return Err(MemoryError::MisalignedAddress);
        },
    };
    let mut guard = lock(&allocator.allocator);
    let heap = held(&mut guard);
    heap.init(start, size)
}

} // verus!
