//! Bump arenas over a fixed range of addresses.
//!
//! An arena serves allocations from a range `[lower, upper)` by moving one
//! frontier, the head, from `upper` downwards. Giving an allocation back frees
//! nothing by itself; when the last live allocation is given back, the head
//! returns to `upper` and the whole range is free again.
//!
//! The arenas deal in addresses, not in memory: a caller that owns the range
//! turns the addresses into pointers.

pub mod atomic;
pub mod steps;

pub use atomic::AtomicBump;

use vstd::arithmetic::div_mod::{lemma_mod_bound, lemma_mod_breakdown};
use vstd::arithmetic::power2::is_pow2;
use vstd::prelude::*;

verus! {

/// The allocation does not fit into what is left of the arena.
#[derive(Debug, Copy, Clone, PartialEq, Eq)]
pub struct AllocError;

/// Where an allocation of `size` bytes at alignment `align` starts when the
/// frontier is at `head`: at `head - size`, rounded down to a multiple of
/// `align`. It is negative where the address space ends before that.
pub open spec fn candidate(head: usize, size: usize, align: usize) -> int {
    (head - size) - (head - size) % (align as int)
}

/// The frontier after an allocation of `size` bytes at alignment `align`, or
/// `None` where the allocation would start below `lower`.
pub open spec fn new_head(head: usize, size: usize, align: usize, lower: usize) -> Option<usize> {
    if candidate(head, size, align) >= lower {
        Some(candidate(head, size, align) as usize)
    } else {
        None
    }
}

/// Whether `align` is a power of two.
pub open spec fn valid_align(align: usize) -> bool {
    is_pow2(align as int)
}

/// Whether `align` is a power of two.
pub fn is_valid_align(align: usize) -> (b: bool)
    ensures
        b == valid_align(align),
{
    proof {
        lemma_single_bit(align);
    }
    align != 0 && align & (align - 1) == 0
}

/// The powers of two are the numbers with a single bit set.
pub proof fn lemma_single_bit(n: usize)
    ensures
        valid_align(n) <==> n != 0 && n & ((n - 1) as usize) == 0,
    decreases n,
{
    reveal(is_pow2);
    if n <= 1 {
        assert(1usize & 0usize == 0) by (bit_vector);
    } else if n % 2 == 0 {
        let half = n / 2;
        lemma_single_bit(half);
        assert((n & ((n - 1) as usize) == 0) == (half & ((half - 1) as usize) == 0))
            by (bit_vector)
            requires
                n >= 2,
                n % 2 == 0,
                half == n / 2,
        ;
    } else {
        assert(n & ((n - 1) as usize) != 0) by (bit_vector)
            requires
                n >= 2,
                n % 2 == 1,
        ;
    }
}

/// Clearing the bits below a power of two rounds down to a multiple of it.
pub proof fn lemma_mask_rounds_down(addr: usize, align: usize)
    requires
        valid_align(align),
    ensures
        align >= 1,
        addr & !((align - 1) as usize) == addr - addr % align,
    decreases align,
{
    reveal(is_pow2);
    if align == 1 {
        assert(addr & !0usize == addr) by (bit_vector);
    } else {
        let half = align / 2;
        let rest = addr / 2;
        lemma_mask_rounds_down(rest, half);
        assert(addr & !((align - 1) as usize) == 2 * (rest & !((half - 1) as usize)))
            by (bit_vector)
            requires
                align >= 2,
                align % 2 == 0,
                half == align / 2,
                rest == addr / 2,
        ;
        lemma_mod_breakdown(addr as int, 2, half as int);
    }
}

/// A power of two is not zero and a multiple of itself.
pub proof fn lemma_align_is_aligned(align: usize)
    requires
        valid_align(align),
    ensures
        align != 0,
        align % align == 0,
{
    lemma_mask_rounds_down(0, align);
    vstd::arithmetic::div_mod::lemma_mod_self_0(align as int);
}

/// Moves the frontier `head` down for an allocation of `size` bytes at
/// alignment `align`, unless that leads below `lower`.
pub fn try_bump(head: usize, size: usize, align: usize, lower: usize) -> (r: Option<usize>)
    requires
        valid_align(align),
    ensures
        r == new_head(head, size, align, lower),
{
    match head.checked_sub(size) {
        Some(unaligned) => {
            proof {
                lemma_mask_rounds_down(unaligned, align);
            }
            let aligned = unaligned & !(align - 1);
            if aligned >= lower {
                Some(aligned)
            } else {
                None
            }
        },
        None => {
            proof {
                lemma_mask_rounds_down(0, align);
                lemma_mod_bound(head - size, align as int);
            }
            None
        },
    }
}

/// An allocation that starts at a candidate address is aligned, lies below
/// the old frontier and ends at or before it.
pub proof fn lemma_new_head_is_aligned(head: usize, size: usize, align: usize, lower: usize)
    requires
        valid_align(align),
        new_head(head, size, align, lower) is Some,
    ensures
        ({
            let addr = new_head(head, size, align, lower)->0;
            &&& addr % align == 0
            &&& lower <= addr
            &&& addr + size <= head
            &&& head - size - align < addr
        }),
{
    lemma_mask_rounds_down(0, align);
    let x = head - size;
    lemma_mod_bound(x, align as int);
    vstd::arithmetic::div_mod::lemma_fundamental_div_mod(x, align as int);
    vstd::arithmetic::div_mod::lemma_mod_multiples_basic(x / (align as int), align as int);
}

/// What an arena is, as plain numbers.
pub struct Arena {
    /// The lowest address of the range.
    pub lower: usize,
    /// The address behind the range.
    pub upper: usize,
    /// The frontier: the addresses from here to `upper` are handed out.
    pub head: usize,
    /// How many allocations are live.
    pub count: usize,
}

/// A request to an arena.
pub enum Request {
    /// Allocate `size` bytes at alignment `align`.
    Allocate { size: usize, align: usize },
    /// Give back an allocation of `size` bytes.
    Deallocate { size: usize },
}

impl Arena {
    /// The range does not start at address zero, the frontier lies in it,
    /// every live allocation took at least one byte, and with no live
    /// allocation the frontier is at the top.
    pub open spec fn wf(self) -> bool {
        &&& 0 < self.lower <= self.head <= self.upper
        &&& self.count <= self.upper - self.head
        &&& self.count == 0 ==> self.head == self.upper
    }

    /// Whether an allocation of `size` bytes at alignment `align` is served.
    pub open spec fn fits(self, size: usize, align: usize) -> bool {
        new_head(self.head, size, align, self.lower) is Some
    }

    /// The address that an allocation is served at: for no bytes the
    /// alignment itself, which is aligned, not zero and inside nothing; else
    /// the new frontier.
    pub open spec fn address(self, size: usize, align: usize) -> usize {
        if size == 0 {
            align
        } else {
            new_head(self.head, size, align, self.lower)->0
        }
    }

    /// The arena after a request to allocate: as it was for no bytes and for
    /// what does not fit, else with the frontier moved and one more live
    /// allocation.
    pub open spec fn allocate(self, size: usize, align: usize) -> Arena {
        if size > 0 && self.fits(size, align) {
            Arena { head: self.address(size, align), count: (self.count + 1) as usize, ..self }
        } else {
            self
        }
    }

    /// The arena after an allocation was given back: as it was for no bytes,
    /// else with one live allocation less, and with the frontier back at the
    /// top if that was the last.
    pub open spec fn deallocate(self, size: usize) -> Arena {
        if size == 0 {
            self
        } else if self.count == 1 {
            Arena { head: self.upper, count: 0, ..self }
        } else {
            Arena { count: (self.count - 1) as usize, ..self }
        }
    }

    /// What a caller may ask: an alignment that is a power of two, and to
    /// give back only while an allocation is live.
    pub open spec fn admits(self, request: Request) -> bool {
        match request {
            Request::Allocate { size, align } => valid_align(align),
            Request::Deallocate { size } => size > 0 ==> self.count > 0,
        }
    }

    /// The arena after one request.
    pub open spec fn apply(self, request: Request) -> Arena {
        match request {
            Request::Allocate { size, align } => self.allocate(size, align),
            Request::Deallocate { size } => self.deallocate(size),
        }
    }

    /// Whether a caller may make these requests one after the other.
    pub open spec fn admits_all(self, requests: Seq<Request>) -> bool
        decreases requests.len(),
    {
        requests.len() > 0 ==> self.admits(requests[0]) && self.apply(requests[0]).admits_all(
            requests.drop_first(),
        )
    }

    /// The arena after these requests, one after the other.
    pub open spec fn run(self, requests: Seq<Request>) -> Arena
        decreases requests.len(),
    {
        if requests.len() == 0 {
            self
        } else {
            self.apply(requests[0]).run(requests.drop_first())
        }
    }
}

/// One request leaves a well-formed arena well formed over the same range.
pub proof fn lemma_apply_keeps_wf(arena: Arena, request: Request)
    requires
        arena.wf(),
        arena.admits(request),
    ensures
        arena.apply(request).wf(),
        arena.apply(request).lower == arena.lower,
        arena.apply(request).upper == arena.upper,
{
    match request {
        Request::Allocate { size, align } => {
            if size > 0 && arena.fits(size, align) {
                lemma_new_head_is_aligned(arena.head, size, align, arena.lower);
            }
        },
        Request::Deallocate { size } => {},
    }
}

/// Whatever the requests were, an arena without live allocations is fresh:
/// its frontier is at the top of its range.
pub proof fn lemma_balanced_run_resets(arena: Arena, requests: Seq<Request>)
    requires
        arena.wf(),
        arena.admits_all(requests),
    ensures
        arena.run(requests).wf(),
        arena.run(requests).lower == arena.lower,
        arena.run(requests).upper == arena.upper,
        arena.run(requests).count == 0 ==> arena.run(requests).head == arena.upper,
    decreases requests.len(),
{
    if requests.len() > 0 {
        lemma_apply_keeps_wf(arena, requests[0]);
        lemma_balanced_run_resets(arena.apply(requests[0]), requests.drop_first());
    }
}

/// A single threaded bump arena.
pub struct Bump {
    lower: usize,
    upper: usize,
    head: usize,
    count: usize,
}

impl View for Bump {
    type V = Arena;

    closed spec fn view(&self) -> Arena {
        Arena { lower: self.lower, upper: self.upper, head: self.head, count: self.count }
    }
}

impl Bump {
    #[verifier::type_invariant]
    spec fn inv(self) -> bool {
        self@.wf()
    }

    /// Creates an arena over the `len` bytes from the address `buf` on, with
    /// nothing allocated.
    ///
    /// The range is one that memory can be at: it does not start at
    /// address zero, and it ends within the address space.
    pub fn from_ptr(buf: usize, len: usize) -> (bump: Self)
        requires
            0 < buf,
            buf + len <= usize::MAX,
        ensures
            bump@.wf(),
            bump@ == (Arena {
                lower: buf,
                upper: (buf + len) as usize,
                head: (buf + len) as usize,
                count: 0,
            }),
    {
        let upper = buf + len;
        Bump { lower: buf, upper, head: upper, count: 0 }
    }

    /// How many allocations are live.
    ///
    /// Once everything served by the arena has been given back, the count is
    /// back at 0.
    pub fn count(&self) -> (n: usize)
        ensures
            n == self@.count,
            self@.wf(),
    {
        proof {
            use_type_invariant(self);
        }
        self.count
    }

    /// Serves `size` bytes at an address that is a multiple of `align`.
    ///
    /// A request for no bytes is always served, at an address that is
    /// aligned and not zero, and changes nothing. Any other request is served
    /// at the new frontier if that does not lie below the range, and else
    /// refused with the arena unchanged.
    pub fn allocate(&mut self, size: usize, align: usize) -> (r: Result<usize, AllocError>)
        requires
            valid_align(align),
        ensures
            old(self)@.wf() && final(self)@.wf(),
            final(self)@ == old(self)@.allocate(size, align),
            r is Ok <==> size == 0 || old(self)@.fits(size, align),
            r is Ok ==> r->Ok_0 == old(self)@.address(size, align),
            r is Ok ==> r->Ok_0 != 0 && r->Ok_0 % align == 0,
            size == 0 || r is Err ==> final(self)@ == old(self)@,
    {
        proof {
            use_type_invariant(&*self);
        }
        if size == 0 {
            proof {
                lemma_align_is_aligned(align);
            }
            return Ok(align);
        }
        match try_bump(self.head, size, align, self.lower) {
            Some(addr) => {
                proof {
                    lemma_new_head_is_aligned(self.head, size, align, self.lower);
                }
                *self = Bump {
                    lower: self.lower,
                    upper: self.upper,
                    head: addr,
                    count: self.count + 1,
                };
                Ok(addr)
            },
            None => Err(AllocError),
        }
    }

    /// Takes back an allocation of `size` bytes that was served at `addr`
    /// with alignment `align`.
    ///
    /// For no bytes nothing happens. Else the allocation is no longer live,
    /// and if it was the last one, the arena starts over. The caller gives
    /// back only what it was served and has not given back yet.
    pub fn deallocate(&mut self, addr: usize, size: usize, align: usize)
        requires
            size > 0 ==> old(self)@.count > 0,
        ensures
            old(self)@.wf() && final(self)@.wf(),
            final(self)@ == old(self)@.deallocate(size),
    {
        proof {
            use_type_invariant(&*self);
        }
        if size > 0 {
            let count = self.count;
            let head = if count == 1 {
                self.upper
            } else {
                self.head
            };
            *self = Bump { lower: self.lower, upper: self.upper, head, count: count - 1 };
        }
    }
}

} // verus!
