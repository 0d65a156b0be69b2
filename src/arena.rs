//! Arenas: the contiguous byte regions that bump allocators carve up.
use vstd::prelude::*;

verus! {

/// Why an arena could not grow.
#[derive(Clone, Copy, Debug, PartialEq, Eq, Structural)]
pub enum BumpAllocatorArenaError {
    /// The arena cannot grow, or its host refused to extend it.
    GrowthFailed,
}

/// A contiguous region of memory: a stable start address, a current size,
/// and possibly a way to grow.
pub trait BumpAllocatorArena: Sized {
    /// Internal consistency of the arena.
    spec fn wf(&self) -> bool;

    /// Address of the arena's first byte.
    spec fn spec_start(&self) -> nat;

    /// Current size in bytes.
    spec fn spec_size(&self) -> nat;

    /// Whether `ensure_min_size` may ever succeed. A fixed arena (a slice,
    /// an inline array) never grows: its `ensure_min_size` always fails.
    spec fn can_grow(&self) -> bool;

    /// Address of the first byte.
    fn start(&self) -> (r: usize)
        requires
            self.wf(),
        ensures
            r == self.spec_start(),
    ;

    /// Current size in bytes; the arena ends inside the address space.
    fn size(&self) -> (r: usize)
        requires
            self.wf(),
        ensures
            r == self.spec_size(),
            self.spec_start() + self.spec_size() <= usize::MAX,
    ;

    /// Grows the arena to at least `min_size` bytes and returns the new
    /// size, or fails and leaves the arena as it was. The start never moves
    /// and the size never shrinks; an arena that cannot grow always fails.
    fn ensure_min_size(&mut self, min_size: usize) -> (r: Result<usize, BumpAllocatorArenaError>)
        requires
            old(self).wf(),
        ensures
            final(self).wf(),
            final(self).spec_start() == old(self).spec_start(),
            final(self).spec_size() >= old(self).spec_size(),
            final(self).can_grow() == old(self).can_grow(),
            !old(self).can_grow() ==> r is Err,
            match r {
                Ok(n) => n == final(self).spec_size() && n >= min_size,
                Err(_) => *final(self) == *old(self),
            },
    ;

    /// How far address `ptr` lies past the arena: `None` when it is inside
    /// (or before) the arena, otherwise its distance from the arena's end,
    /// which is zero for the first address after the last byte.
    fn past_end(&self, ptr: usize) -> (r: Option<usize>)
        requires
            self.wf(),
        ensures
            r == (if ptr >= self.spec_start() + self.spec_size() {
                Some((ptr - (self.spec_start() + self.spec_size())) as usize)
            } else {
                None::<usize>
            }),
    {
        let arena_end = self.start() + self.size();
        if ptr >= arena_end {
            Some(ptr - arena_end)
        } else {
            None
        }
    }
}

/// Relies on `<[u8]>::as_ptr`: the address of the slice's first byte. The
/// documentation of `core::slice::from_raw_parts` requires of every slice
/// that its bytes do not wrap around the address space.
#[verifier::external_body]
fn slice_address(bytes: &[u8]) -> (r: usize)
    ensures
        r + bytes@.len() <= usize::MAX,
{
    bytes.as_ptr() as usize
}

/// An arena over a borrowed byte slice. It cannot grow.
#[derive(Debug)]
pub struct SliceArena<'a> {
    bytes: &'a [u8],
    start: usize,
}

impl<'a> SliceArena<'a> {
    /// The arena made of `bytes`.
    pub fn new(bytes: &'a [u8]) -> (a: Self)
        ensures
            a.wf(),
            a.spec_size() == bytes@.len(),
    {
        let start = slice_address(bytes);
        SliceArena { bytes, start }
    }
}

impl<'a> BumpAllocatorArena for SliceArena<'a> {
    closed spec fn wf(&self) -> bool {
        self.start + self.bytes@.len() <= usize::MAX
    }

    closed spec fn spec_start(&self) -> nat {
        self.start as nat
    }

    closed spec fn spec_size(&self) -> nat {
        self.bytes@.len()
    }

    open spec fn can_grow(&self) -> bool {
        false
    }

    fn start(&self) -> (r: usize) {
        self.start
    }

    fn size(&self) -> (r: usize) {
        self.bytes.len()
    }

    fn ensure_min_size(&mut self, min_size: usize) -> (r: Result<usize, BumpAllocatorArenaError>) {
        Err(BumpAllocatorArenaError::GrowthFailed)
    }
}

/// An arena of exactly `N` bytes starting at a fixed address, such as an
/// array placed in a `static`. It cannot grow.
#[derive(Debug)]
pub struct InlineArena<const N: usize> {
    start: usize,
}

impl<const N: usize> InlineArena<N> {
    /// The `N` bytes at address `start`.
    pub fn new(start: usize) -> (a: Self)
        requires
            start + N <= usize::MAX,
        ensures
            a.wf(),
            a.spec_start() == start,
            a.spec_size() == N,
    {
        InlineArena { start }
    }
}

impl<const N: usize> BumpAllocatorArena for InlineArena<N> {
    closed spec fn wf(&self) -> bool {
        self.start + N <= usize::MAX
    }

    closed spec fn spec_start(&self) -> nat {
        self.start as nat
    }

    closed spec fn spec_size(&self) -> nat {
        N as nat
    }

    open spec fn can_grow(&self) -> bool {
        false
    }

    fn start(&self) -> (r: usize) {
        self.start
    }

    fn size(&self) -> (r: usize) {
        N
    }

    fn ensure_min_size(&mut self, min_size: usize) -> (r: Result<usize, BumpAllocatorArenaError>) {
        Err(BumpAllocatorArenaError::GrowthFailed)
    }
}

} // verus!
