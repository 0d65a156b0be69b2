//! Bump allocators: a head moving forward through an arena.
use vstd::prelude::*;
use crate::arena::{BumpAllocatorArena, InlineArena, SliceArena};
use crate::head::{Head, SingleThreadedHead, ThreadSafeHead};
use crate::layout::{lemma_round_up, round_up, round_up_checked};

verus! {

/// Where a bump allocation of `size` bytes aligned to `align` is placed when
/// `used` bytes of the arena at `start` are taken: the first multiple of
/// `align` at or after the head.
pub open spec fn placement(start: nat, used: nat, align: nat) -> nat {
    round_up(start + used, align)
}

/// Bytes in use after that allocation: everything up to its end.
pub open spec fn used_after(start: nat, used: nat, size: nat, align: nat) -> nat {
    (placement(start, used, align) + size - start) as nat
}

/// A bump allocator: hands out the bytes of arena `M` in order, tracking the
/// first free byte with head `H`. Freeing does nothing; `reset` starts over.
#[derive(Debug)]
pub struct BumpAllocator<M: BumpAllocatorArena, H: Head> {
    memory: M,
    head: H,
}

/// A bump allocator over a borrowed byte slice.
pub type SliceBumpAllocator<'a> = BumpAllocator<SliceArena<'a>, SingleThreadedHead>;

/// A bump allocator over a borrowed byte slice, with a head shared between threads.
pub type ThreadsafeSliceBumpAllocator<'a> = BumpAllocator<SliceArena<'a>, ThreadSafeHead>;

/// A bump allocator over `N` bytes at a fixed address.
pub type ArenaBumpAllocator<const N: usize> = BumpAllocator<InlineArena<N>, SingleThreadedHead>;

impl<M: BumpAllocatorArena, H: Head> BumpAllocator<M, H> {
    /// The arena.
    pub closed spec fn memory(&self) -> M {
        self.memory
    }

    /// The head.
    pub closed spec fn head(&self) -> H {
        self.head
    }

    /// The arena is consistent and, when the head is sequential, the head
    /// lies inside it.
    pub open spec fn wf(&self) -> bool {
        &&& self.memory().wf()
        &&& H::sequential() ==> self.head().used() <= self.memory().spec_size()
    }

    /// What `allocate(size, align)` did when it took `old` to `self` and
    /// returned `r`.
    ///
    /// Whatever the head: a returned address is a multiple of `align` and
    /// the `size` bytes from it lie inside the arena; the arena's start stays
    /// and its size does not shrink. With a sequential head the result is
    /// exact: the allocation starts at the first multiple of `align` at or
    /// after the head, and the head moves to its end; it fails, leaving the
    /// head as it was, only when that end does not fit the arena even after
    /// the arena was asked to grow. An allocation that fits, or an arena
    /// that cannot grow, leaves the arena as it was.
    pub open spec fn allocated_from(
        &self,
        old: &Self,
        size: nat,
        align: nat,
        r: Option<usize>,
    ) -> bool {
        let start = old.memory().spec_start();
        let p = placement(start, old.head().used(), align);
        &&& self.memory().spec_start() == start
        &&& self.memory().spec_size() >= old.memory().spec_size()
        &&& !old.memory().can_grow() ==> self.memory() == old.memory()
        &&& r matches Some(a) ==> (a as nat) % align == 0 && start <= a && a + size <= start
            + self.memory().spec_size()
        &&& H::sequential() ==> match r {
            Some(a) => a == p && self.head().used() == used_after(
                start,
                old.head().used(),
                size,
                align,
            ),
            None => self.head().used() == old.head().used() && p + size > start
                + self.memory().spec_size(),
        }
        &&& H::sequential() && p + size <= start + old.memory().spec_size() ==> self.memory()
            == old.memory()
    }

    /// Monotonicity and exclusion: of two consecutive successful allocations
    /// from a bump allocator with a sequential head, the second starts at or
    /// after the end of the first, so the two never overlap; after a
    /// non-empty first allocation the second starts strictly later.
    pub proof fn lemma_consecutive_allocations(
        a0: &Self,
        a1: &Self,
        a2: &Self,
        size1: nat,
        align1: nat,
        p1: usize,
        size2: nat,
        align2: nat,
        p2: usize,
    )
        requires
            H::sequential(),
            align1 > 0,
            align2 > 0,
            a1.allocated_from(a0, size1, align1, Some(p1)),
            a2.allocated_from(a1, size2, align2, Some(p2)),
        ensures
            p2 >= p1 + size1,
            size1 > 0 ==> p2 > p1,
    {
        let start = a0.memory().spec_start();
        lemma_round_up(start + a0.head().used(), align1);
        lemma_round_up(start + a1.head().used(), align2);
    }

    /// The arena size an allocation of `size` bytes aligned to `align` needs
    /// (everything up to its end), or `None` when that end does not fit the
    /// address space.
    pub fn required_size(&self, size: usize, align: usize) -> (r: Option<usize>)
        requires
            self.wf(),
            align > 0,
        ensures
            H::sequential() ==> r == (if placement(
                self.memory().spec_start(),
                self.head().used(),
                align as nat,
            ) + size <= usize::MAX {
                Some(
                    used_after(
                        self.memory().spec_start(),
                        self.head().used(),
                        size as nat,
                        align as nat,
                    ) as usize,
                )
            } else {
                None
            }),
    {
        let start = self.memory.start();
        let arena_size = self.memory.size();
        let used = self.head.num_bytes_used();
        let candidate = match start.checked_add(used) {
            Some(c) => c,
            None => return None,
        };
        let aligned = match round_up_checked(candidate, align) {
            Some(a) => a,
            None => return None,
        };
        proof {
            lemma_round_up(candidate as nat, align as nat);
        }
        match aligned.checked_add(size) {
            Some(e) => {
                if e < start {
                    return None;
                }
                Some(e - start)
            },
            None => None,
        }
    }

    /// A bump allocator over `memory`, counting with `head`.
    pub fn new(memory: M, head: H) -> (a: Self)
        requires
            memory.wf(),
            H::sequential() ==> head.used() <= memory.spec_size(),
        ensures
            a.wf(),
            a.memory() == memory,
            a.head() == head,
    {
        BumpAllocator { memory, head }
    }

    /// The arena.
    pub fn arena(&self) -> (r: &M)
        ensures
            *r == self.memory(),
    {
        &self.memory
    }

    /// The arena, for changes that keep its start (such as growing it).
    pub fn arena_mut(&mut self) -> (r: &mut M)
        ensures
            *r == old(self).memory(),
            final(self).memory() == *final(r),
            final(self).head() == old(self).head(),
    {
        &mut self.memory
    }

    /// Forgets every allocation: the head returns to the arena's start. Only
    /// sound when no allocation is still in use.
    pub fn reset(&mut self)
        requires
            old(self).wf(),
        ensures
            final(self).wf(),
            final(self).memory() == old(self).memory(),
            H::sequential() ==> final(self).head().used() == 0,
    {
        self.head.set(0);
    }

    /// Allocates `size` bytes aligned to `align`: the first multiple of
    /// `align` at or after the head, growing the arena first when the
    /// allocation would end past it. `None` when it does not fit and the
    /// arena cannot grow enough, or when a head shared between threads was
    /// moved by another thread during the request (the caller may retry).
    pub fn allocate(&mut self, size: usize, align: usize) -> (r: Option<usize>)
        requires
            old(self).wf(),
            align > 0,
        ensures
            final(self).wf(),
            final(self).allocated_from(old(self), size as nat, align as nat, r),
            H::sequential() && placement(
                old(self).memory().spec_start(),
                old(self).head().used(),
                align as nat,
            ) + size <= old(self).memory().spec_start() + old(self).memory().spec_size()
                ==> r is Some,
    {
        let start = self.memory.start();
        let arena_size = self.memory.size();
        let used = self.head.num_bytes_used();
        let candidate = match start.checked_add(used) {
            Some(c) => c,
            None => return None,
        };
        let aligned = match round_up_checked(candidate, align) {
            Some(a) => a,
            None => return None,
        };
        proof {
            lemma_round_up(candidate as nat, align as nat);
        }
        let end = match aligned.checked_add(size) {
            Some(e) => e,
            None => return None,
        };
        // The allocation's last byte must lie inside the arena; an empty
        // allocation only needs its address not to pass the arena's end.
        if end > start {
            if let Some(missing) = self.memory.past_end(end - 1) {
                match self.memory.ensure_min_size(arena_size + missing + 1) {
                    Err(_) => return None,
                    Ok(_) => {},
                }
            }
        }
        // One indivisible step: a head that another thread moved meanwhile
        // is left alone, and the request fails rather than overlap.
        if !self.head.advance(used, end - start) {
            return None;
        }
        Some(aligned)
    }

    /// Freeing does nothing in a bump allocator.
    pub fn deallocate(&mut self, _p: usize, _size: usize, _align: usize)
        ensures
            *final(self) == *old(self),
    {
    }
}

impl<'a> BumpAllocator<SliceArena<'a>, SingleThreadedHead> {
    /// A bump allocator that hands out the bytes of `arena`.
    pub fn with_slice(arena: &'a [u8]) -> (a: Self)
        ensures
            a.wf(),
            a.memory().spec_size() == arena@.len(),
            a.head().used() == 0,
    {
        BumpAllocator { memory: SliceArena::new(arena), head: SingleThreadedHead::new() }
    }
}

impl<'a> BumpAllocator<SliceArena<'a>, ThreadSafeHead> {
    /// A bump allocator that hands out the bytes of `arena`, with a head
    /// shared between threads.
    pub fn with_slice(arena: &'a [u8]) -> (a: Self)
        ensures
            a.wf(),
            a.memory().spec_size() == arena@.len(),
    {
        BumpAllocator { memory: SliceArena::new(arena), head: ThreadSafeHead::new() }
    }
}

impl<const N: usize> BumpAllocator<InlineArena<N>, SingleThreadedHead> {
    /// A bump allocator over the `N` bytes at address `start`.
    pub fn at(start: usize) -> (a: Self)
        requires
            start + N <= usize::MAX,
        ensures
            a.wf(),
            a.memory().spec_start() == start,
            a.memory().spec_size() == N,
            a.head().used() == 0,
    {
        BumpAllocator { memory: InlineArena::new(start), head: SingleThreadedHead::new() }
    }
}

} // verus!
