//! The host-memory arena: the linear memory of a WebAssembly instance from
//! the heap base on, grown by whole pages.
//!
//! The host's `memory.size` and `memory.grow` are called by the code that
//! registers the allocator. This module decides how many pages to ask for
//! and what the host's answer means for the arena and for the request that
//! needed the growth.
use vstd::prelude::*;
use vstd::arithmetic::div_mod::{lemma_fundamental_div_mod, lemma_fundamental_div_mod_converse};
use crate::arena::{BumpAllocatorArena, BumpAllocatorArenaError};
use crate::bump::{BumpAllocator, placement, used_after};
use crate::head::{Head, SingleThreadedHead, ThreadSafeHead};

verus! {

/// Bytes in one page of WebAssembly memory.
pub const PAGE_SIZE: usize = 65536;

/// What `memory.grow` returns when the host refuses.
pub const GROW_FAILED: usize = usize::MAX;

/// Pages to add to `pages` pages so that the arena from `heap_base` holds
/// `min_size` bytes: the missing bytes rounded up to whole pages.
pub open spec fn pages_needed(heap_base: nat, pages: nat, min_size: nat) -> nat {
    if heap_base + min_size <= pages * PAGE_SIZE {
        0
    } else {
        ((heap_base + min_size - pages * PAGE_SIZE + PAGE_SIZE - 1) / (PAGE_SIZE as int)) as nat
    }
}

/// The linear memory of the host from `heap_base` (where the linker placed
/// the end of static data) to the end of its `pages` pages.
#[derive(Debug)]
pub struct WasmMemoryArena {
    heap_base: usize,
    pages: usize,
}

impl WasmMemoryArena {
    /// Number of pages of the memory, as last reported by the host.
    pub closed spec fn spec_pages(&self) -> nat {
        self.pages as nat
    }

    /// The heap base.
    pub closed spec fn spec_heap_base(&self) -> nat {
        self.heap_base as nat
    }

    /// The arena from `heap_base` to the end of `pages` pages, or `None`
    /// when the heap base lies past that end or the end does not fit a
    /// `usize`.
    pub fn new(heap_base: usize, pages: usize) -> (r: Option<Self>)
        ensures
            r is Some <==> heap_base <= pages * PAGE_SIZE <= usize::MAX,
            r matches Some(a) ==> a.wf() && a.spec_pages() == pages && a.spec_heap_base()
                == heap_base && a.spec_start() == heap_base && a.spec_size() == pages
                * PAGE_SIZE - heap_base,
    {
        if pages > usize::MAX / PAGE_SIZE {
            proof {
                assert(pages * PAGE_SIZE > usize::MAX) by (nonlinear_arith)
                    requires
                        pages > usize::MAX / PAGE_SIZE,
                ;
            }
            return None;
        }
        proof {
            assert(pages * PAGE_SIZE <= usize::MAX) by (nonlinear_arith)
                requires
                    pages <= usize::MAX / PAGE_SIZE,
            ;
        }
        if heap_base > pages * PAGE_SIZE {
            return None;
        }
        Some(WasmMemoryArena { heap_base, pages })
    }

    /// The arena runs from the heap base to the end of the last page.
    pub proof fn lemma_size(&self)
        requires
            self.wf(),
        ensures
            self.spec_start() == self.spec_heap_base(),
            self.spec_heap_base() <= self.spec_pages() * PAGE_SIZE <= usize::MAX,
            self.spec_size() == self.spec_pages() * PAGE_SIZE - self.spec_heap_base(),
    {
    }

    /// Number of pages of the memory, as last reported by the host.
    pub fn pages(&self) -> (r: usize)
        ensures
            r == self.spec_pages(),
    {
        self.pages
    }

    /// How many pages to ask the host for so that the arena holds
    /// `min_size` bytes; `None` when that many bytes past the heap base do
    /// not fit a `usize`.
    pub fn pages_to_grow(&self, min_size: usize) -> (r: Option<usize>)
        requires
            self.wf(),
        ensures
            r == (if self.spec_heap_base() + min_size <= usize::MAX {
                Some(pages_needed(self.spec_heap_base(), self.spec_pages(), min_size as nat) as usize)
            } else {
                None
            }),
    {
        let total = match self.heap_base.checked_add(min_size) {
            Some(t) => t,
            None => return None,
        };
        let have = self.pages * PAGE_SIZE;
        if total <= have {
            return Some(0);
        }
        let missing = total - have;
        proof {
            lemma_fundamental_div_mod(missing as int, PAGE_SIZE as int);
            lemma_fundamental_div_mod((missing + PAGE_SIZE - 1) as int, PAGE_SIZE as int);
        }
        let pages = missing / PAGE_SIZE + if missing % PAGE_SIZE == 0 {
            0
        } else {
            1
        };
        proof {
            let q = missing / PAGE_SIZE;
            let m = missing % PAGE_SIZE;
            if m == 0 {
                lemma_fundamental_div_mod_converse(
                    (missing + PAGE_SIZE - 1) as int,
                    PAGE_SIZE as int,
                    q as int,
                    (PAGE_SIZE - 1) as int,
                );
            } else {
                lemma_fundamental_div_mod_converse(
                    (missing + PAGE_SIZE - 1) as int,
                    PAGE_SIZE as int,
                    (q + 1) as int,
                    (m - 1) as int,
                );
            }
        }
        Some(pages)
    }

    /// Records the host's answer to a request to grow by `delta` pages:
    /// `host_result` is the page count before growing, or `GROW_FAILED`.
    /// On success the memory has `host_result + delta` pages and the new
    /// arena size is returned; a refusal, or an answer that would shrink the
    /// arena or leave the address space, changes nothing.
    pub fn grown(&mut self, delta: usize, host_result: usize) -> (r: Result<
        usize,
        BumpAllocatorArenaError,
    >)
        requires
            old(self).wf(),
        ensures
            final(self).wf(),
            final(self).spec_heap_base() == old(self).spec_heap_base(),
            r is Ok <==> (host_result != GROW_FAILED && host_result + delta >= old(self).spec_pages()
                && (host_result + delta) * PAGE_SIZE <= usize::MAX),
            r matches Ok(n) ==> final(self).spec_pages() == host_result + delta && n
                == final(self).spec_size() && n == (host_result + delta) * PAGE_SIZE
                - old(self).spec_heap_base(),
            r is Err ==> *final(self) == *old(self),
    {
        if host_result == GROW_FAILED {
            return Err(BumpAllocatorArenaError::GrowthFailed);
        }
        let new_pages = match host_result.checked_add(delta) {
            Some(p) => p,
            None => {
                proof {
                    assert((host_result + delta) * PAGE_SIZE > usize::MAX) by (nonlinear_arith)
                        requires
                            host_result + delta > usize::MAX,
                    ;
                }
                return Err(BumpAllocatorArenaError::GrowthFailed);
            },
        };
        if new_pages < self.pages || new_pages > usize::MAX / PAGE_SIZE {
            proof {
                if new_pages > usize::MAX / PAGE_SIZE {
                    assert(new_pages * PAGE_SIZE > usize::MAX) by (nonlinear_arith)
                        requires
                            new_pages > usize::MAX / PAGE_SIZE,
                    ;
                }
            }
            return Err(BumpAllocatorArenaError::GrowthFailed);
        }
        proof {
            assert(new_pages * PAGE_SIZE <= usize::MAX) by (nonlinear_arith)
                requires
                    new_pages <= usize::MAX / PAGE_SIZE,
            ;
            assert(self.pages * PAGE_SIZE <= new_pages * PAGE_SIZE) by (nonlinear_arith)
                requires
                    self.pages <= new_pages,
            ;
        }
        self.pages = new_pages;
        Ok(new_pages * PAGE_SIZE - self.heap_base)
    }
}

impl BumpAllocatorArena for WasmMemoryArena {
    closed spec fn wf(&self) -> bool {
        self.heap_base <= self.pages * PAGE_SIZE <= usize::MAX
    }

    closed spec fn spec_start(&self) -> nat {
        self.heap_base as nat
    }

    closed spec fn spec_size(&self) -> nat {
        (self.pages * PAGE_SIZE - self.heap_base) as nat
    }

    open spec fn can_grow(&self) -> bool {
        true
    }

    fn start(&self) -> (r: usize) {
        self.heap_base
    }

    fn size(&self) -> (r: usize) {
        self.pages * PAGE_SIZE - self.heap_base
    }

    /// Never grows the memory itself: it succeeds only when the memory
    /// already holds `min_size` bytes past the heap base. Growing takes a
    /// call to the host, which `allocate_step` asks for and `finish_growth`
    /// (through `pages_to_grow` and `grown`) records.
    fn ensure_min_size(&mut self, min_size: usize) -> (r: Result<usize, BumpAllocatorArenaError>) {
        let size = self.pages * PAGE_SIZE - self.heap_base;
        if min_size <= size {
            Ok(size)
        } else {
            Err(BumpAllocatorArenaError::GrowthFailed)
        }
    }
}

/// The next thing to do for a request to a host-memory bump allocator.
#[derive(Clone, Copy, Debug, PartialEq, Eq, Structural)]
pub enum WasmAllocStep {
    /// The request was served at this address.
    Allocated(usize),
    /// Ask the host to grow the memory by this many pages, then call
    /// `finish_growth` with its answer.
    Grow(usize),
    /// The request can never be served: its end does not fit the address space.
    OutOfMemory,
}

/// A bump allocator over the host memory.
pub type WasmBumpAllocator = BumpAllocator<WasmMemoryArena, SingleThreadedHead>;

/// A bump allocator over the host memory, with a head shared between threads.
pub type ThreadsafeWasmBumpAllocator = BumpAllocator<WasmMemoryArena, ThreadSafeHead>;

impl BumpAllocator<WasmMemoryArena, SingleThreadedHead> {
    /// A bump allocator over the host memory of `pages` pages, from
    /// `heap_base` on; `None` when those do not describe an arena.
    pub fn with_memory(heap_base: usize, pages: usize) -> (r: Option<Self>)
        ensures
            r is Some <==> heap_base <= pages * PAGE_SIZE <= usize::MAX,
            r matches Some(a) ==> a.wf() && a.head().used() == 0 && a.memory().spec_pages() == pages
                && a.memory().spec_start() == heap_base && a.memory().spec_size() == pages
                * PAGE_SIZE - heap_base,
    {
        match WasmMemoryArena::new(heap_base, pages) {
            Some(m) => Some(BumpAllocator::new(m, SingleThreadedHead::new())),
            None => None,
        }
    }
}

impl BumpAllocator<WasmMemoryArena, ThreadSafeHead> {
    /// A bump allocator over the host memory of `pages` pages, from
    /// `heap_base` on, with a head shared between threads; `None` when those
    /// do not describe an arena.
    pub fn with_memory(heap_base: usize, pages: usize) -> (r: Option<Self>)
        ensures
            r is Some <==> heap_base <= pages * PAGE_SIZE <= usize::MAX,
            r matches Some(a) ==> a.wf() && a.memory().spec_pages() == pages
                && a.memory().spec_start() == heap_base && a.memory().spec_size() == pages
                * PAGE_SIZE - heap_base,
    {
        match WasmMemoryArena::new(heap_base, pages) {
            Some(m) => Some(BumpAllocator::new(m, ThreadSafeHead::new())),
            None => None,
        }
    }
}

impl<H: Head> BumpAllocator<WasmMemoryArena, H> {
    /// First step of a request: serve it from the current memory, or say how
    /// many pages the host must add first.
    pub fn allocate_step(&mut self, size: usize, align: usize) -> (r: WasmAllocStep)
        requires
            old(self).wf(),
            align > 0,
        ensures
            final(self).wf(),
            r matches WasmAllocStep::Allocated(a) ==> final(self).allocated_from(
                old(self),
                size as nat,
                align as nat,
                Some(a),
            ),
            r is Grow ==> *final(self) == *old(self),
            r is OutOfMemory ==> final(self).allocated_from(
                old(self),
                size as nat,
                align as nat,
                None,
            ),
            H::sequential() ==> {
                let start = old(self).memory().spec_start();
                let p = placement(start, old(self).head().used(), align as nat);
                let need = used_after(start, old(self).head().used(), size as nat, align as nat);
                &&& p + size <= start + old(self).memory().spec_size() ==> r is Allocated
                &&& r matches WasmAllocStep::Grow(d) ==> p + size <= usize::MAX && d
                    == pages_needed(
                    old(self).memory().spec_heap_base(),
                    old(self).memory().spec_pages(),
                    need,
                ) && d > 0
                &&& r is OutOfMemory ==> p + size > usize::MAX
            },
    {
        let need = match self.required_size(size, align) {
            Some(n) => n,
            None => return WasmAllocStep::OutOfMemory,
        };
        if need <= self.arena().size() {
            match self.allocate(size, align) {
                Some(a) => WasmAllocStep::Allocated(a),
                None => WasmAllocStep::OutOfMemory,
            }
        } else {
            match self.arena().pages_to_grow(need) {
                Some(d) => {
                    if d == 0 {
                        return WasmAllocStep::OutOfMemory;
                    }
                    WasmAllocStep::Grow(d)
                },
                None => WasmAllocStep::OutOfMemory,
            }
        }
    }

    /// Second step of a request that needed `delta` more pages:
    /// `host_result` is what `memory.grow` answered.
    ///
    /// A request that fits the memory as it is gets served from it. If the
    /// host refused, a request that does not fit fails, and the memory
    /// and head stay as they were. If
    /// the host grew the memory it knew (its answer is the page count this
    /// arena holds) by the pages `allocate_step` asked for, the page count
    /// strictly increases and the request is served.
    pub fn finish_growth(&mut self, size: usize, align: usize, delta: usize, host_result: usize) -> (r:
        Option<usize>)
        requires
            old(self).wf(),
            align > 0,
        ensures
            final(self).wf(),
            r matches Some(a) ==> final(self).allocated_from(
                old(self),
                size as nat,
                align as nat,
                Some(a),
            ),
            r is None && H::sequential() ==> final(self).head().used() == old(self).head().used(),
            H::sequential() && host_result == GROW_FAILED ==> (r is None <==> placement(
                old(self).memory().spec_start(),
                old(self).head().used(),
                align as nat,
            ) + size > old(self).memory().spec_start() + old(self).memory().spec_size()),
            H::sequential() && host_result == GROW_FAILED ==> final(self).memory() == old(
                self,
            ).memory(),
            H::sequential() ==> {
                let start = old(self).memory().spec_start();
                let p = placement(start, old(self).head().used(), align as nat);
                let need = used_after(start, old(self).head().used(), size as nat, align as nat);
                host_result != GROW_FAILED && host_result == old(self).memory().spec_pages() && delta
                    == pages_needed(old(self).memory().spec_heap_base(), host_result as nat, need)
                    && delta > 0 && p + size <= usize::MAX && (host_result + delta) * PAGE_SIZE
                    <= usize::MAX ==> r is Some && final(self).memory().spec_pages() > old(
                    self,
                ).memory().spec_pages()
            },
    {
        let ghost start = self.memory().spec_start();
        if let Some(need) = self.required_size(size, align) {
            if need <= self.arena().size() {
                // Served from the memory as it is; the host's growth is seen
                // the next time the page count is refreshed.
                return self.allocate(size, align);
            }
        }
        match self.arena_mut().grown(delta, host_result) {
            Err(_) => None,
            Ok(_) => {
                proof {
                    if H::sequential() {
                        let hb = old(self).memory().spec_heap_base();
                        let p = placement(start, old(self).head().used(), align as nat);
                        let need = used_after(start, old(self).head().used(), size as nat, align as nat);
                        crate::layout::lemma_round_up(start + old(self).head().used(), align as nat);
                        if host_result == old(self).memory().spec_pages() && delta == pages_needed(hb, host_result as nat, need) && delta > 0 {
                            let missing = hb + need - host_result * PAGE_SIZE;
                            lemma_fundamental_div_mod((missing + PAGE_SIZE - 1) as int, PAGE_SIZE as int);
                            assert((host_result + delta) * PAGE_SIZE == host_result * PAGE_SIZE + delta * PAGE_SIZE) by (nonlinear_arith);
                            assert(delta * PAGE_SIZE >= missing) by (nonlinear_arith)
                                requires
                                    delta == (missing + PAGE_SIZE - 1) / (PAGE_SIZE as int),
                                    missing + PAGE_SIZE - 1 == (PAGE_SIZE as int) * ((missing + PAGE_SIZE - 1) / (PAGE_SIZE as int)) + (missing + PAGE_SIZE - 1) % (PAGE_SIZE as int),
                                    (missing + PAGE_SIZE - 1) % (PAGE_SIZE as int) < PAGE_SIZE,
                            ;
                        }
                    }
                }
                self.allocate(size, align)
            },
        }
    }
}

} // verus!
