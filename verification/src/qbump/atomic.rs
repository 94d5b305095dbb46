//! The arena for several threads.

use super::steps::{is_last, moved, try_move};
use super::{lemma_align_is_aligned, valid_align, AllocError};
use core::sync::atomic::{fence, AtomicUsize, Ordering};
use vstd::prelude::*;

verus! {

/// A thread-safe bump arena.
///
/// It does what [`Bump`](super::Bump) does, through atomic updates of the
/// frontier and of the count, so that any number of threads may share it.
/// What a call finds depends on the other threads: a contract here states
/// what holds whichever state the call met.
pub struct AtomicBump {
    lower: usize,
    upper: usize,
    head: AtomicUsize,
    count: AtomicUsize,
}

/// `core::sync::atomic::fence` with `Ordering::Acquire`: it orders the memory
/// accesses around it and gives nothing back, so nothing is claimed of it.
#[verifier::external_body]
fn acquire_fence() {
    fence(Ordering::Acquire)
}

/// `AtomicUsize::fetch_update` on the frontier, with [`try_move`] as the
/// function that is applied: the call returns `Ok` with a value that the
/// atomic held and that `try_move` mapped to a new frontier, which the atomic
/// then holds in its place, or `Err` with a value that the atomic held and
/// that `try_move` refused.
#[verifier::external_body]
fn update_head(
    head: &AtomicUsize,
    size: usize,
    align: usize,
    lower: usize,
    upper: usize,
) -> (r: Result<usize, usize>)
    requires
        valid_align(align),
    ensures
        match r {
            Ok(found) => moved(found, size, align, lower, upper) is Some,
            Err(found) => moved(found, size, align, lower, upper) is None,
        },
{
    head.fetch_update(
        Ordering::Acquire,
        Ordering::Acquire,
        |found| try_move(found, size, align, lower, upper),
    )
}

impl AtomicBump {
    #[verifier::type_invariant]
    spec fn inv(self) -> bool {
        0 < self.lower <= self.upper
    }

    /// The lowest address of the range.
    pub closed spec fn lower(&self) -> usize {
        self.lower
    }

    /// The address behind the range.
    pub closed spec fn upper(&self) -> usize {
        self.upper
    }

    /// Creates an arena over the `len` bytes from the address `buf` on, with
    /// nothing allocated.
    ///
    /// The range is one that memory can be at: it does not start at
    /// address zero, and it ends within the address space.
    pub fn from_ptr(buf: usize, len: usize) -> (bump: Self)
        requires
            0 < buf,
            buf + len <= usize::MAX,
        ensures
            bump.lower() == buf,
            bump.upper() == buf + len,
    {
        let upper = buf + len;
        AtomicBump { lower: buf, upper, head: AtomicUsize::new(upper), count: AtomicUsize::new(0) }
    }

    /// How many allocations are live at the moment of the call.
    pub fn count(&self) -> usize {
        self.count.load(Ordering::Relaxed)
    }

    /// Serves `size` bytes at an address that is a multiple of `align`.
    ///
    /// A request for no bytes is always served, at the address `align`.
    /// Any other request is served where [`moved`] leads from the frontier
    /// that the call met, which is inside the range, and refused where that
    /// frontier left no room. An allocation that is served counts itself.
    pub fn allocate(&self, size: usize, align: usize) -> (r: Result<usize, AllocError>)
        requires
            valid_align(align),
        ensures
            size == 0 ==> r == Ok::<usize, AllocError>(align),
            size > 0 ==> exists|head: usize|
                match r {
                    Ok(addr) => moved(head, size, align, self.lower(), self.upper()) == Some(addr),
                    Err(_) => #[trigger] moved(head, size, align, self.lower(), self.upper())
                        is None,
                },
            r matches Ok(addr) ==> addr != 0 && addr % align == 0,
            r matches Ok(addr) ==> size > 0 ==> self.lower() <= addr && addr + size
                <= self.upper(),
    {
        proof {
            use_type_invariant(self);
            lemma_align_is_aligned(align);
        }
        if size == 0 {
            return Ok(align);
        }
        match update_head(&self.head, size, align, self.lower, self.upper) {
            Ok(found) => {
                self.count.fetch_add(1, Ordering::Relaxed);
                match try_move(found, size, align, self.lower, self.upper) {
                    Some(addr) => {
                        assert(moved(found, size, align, self.lower(), self.upper()) == Some(addr));
                        Ok(addr)
                    },
                    None => Err(AllocError),
                }
            },
            Err(found) => {
                assert(moved(found, size, align, self.lower(), self.upper()) is None);
                Err(AllocError)
            },
        }
    }

    /// Takes back an allocation of `size` bytes that was served at `addr`
    /// with alignment `align`.
    ///
    /// For no bytes nothing happens. Else the allocation is no longer live,
    /// and the call that gives back the last one, as [`is_last`] tells of the
    /// count it met, moves the frontier back to the top of the range.
    pub fn deallocate(&self, addr: usize, size: usize, align: usize) {
        if size > 0 {
            let found = self.count.fetch_sub(1, Ordering::Release);
            if is_last(found) {
                acquire_fence();
                self.head.store(self.upper, Ordering::Release);
            }
        }
    }
}

} // verus!
