//! Heads: the byte counter that a bump allocator moves forward.
use vstd::prelude::*;
use core::sync::atomic::{AtomicUsize, Ordering};

verus! {

/// The counter of bytes a bump allocator has handed out from its arena.
pub trait Head {
    /// Bytes in use, as this handle last set them.
    spec fn used(&self) -> nat;

    /// Whether only this handle moves the counter, so that a read returns
    /// what the handle last wrote. A counter shared between threads is not
    /// sequential: others may move it at any time.
    spec fn sequential() -> bool;

    /// Reads the counter.
    fn num_bytes_used(&self) -> (r: usize)
        ensures
            Self::sequential() ==> r == self.used(),
    ;

    /// Adds `inc` to the counter.
    fn bump(&mut self, inc: usize)
        requires
            Self::sequential() ==> old(self).used() + inc <= usize::MAX,
        ensures
            Self::sequential() ==> final(self).used() == old(self).used() + inc,
    ;

    /// Overwrites the counter.
    fn set(&mut self, v: usize)
        ensures
            Self::sequential() ==> final(self).used() == v,
    ;

    /// Moves the counter from `from` to `to` in one indivisible step, if it
    /// still reads `from`; otherwise leaves it and returns `false`.
    fn advance(&mut self, from: usize, to: usize) -> (ok: bool)
        ensures
            Self::sequential() ==> ok == (old(self).used() == from),
            Self::sequential() ==> final(self).used() == if ok {
                to as nat
            } else {
                old(self).used()
            },
    ;
}

/// A counter owned by one thread.
#[derive(Debug)]
pub struct SingleThreadedHead {
    value: usize,
}

impl SingleThreadedHead {
    /// A counter at zero.
    pub fn new() -> (h: Self)
        ensures
            h.used() == 0,
    {
        SingleThreadedHead { value: 0 }
    }
}

impl Head for SingleThreadedHead {
    closed spec fn used(&self) -> nat {
        self.value as nat
    }

    open spec fn sequential() -> bool {
        true
    }

    fn num_bytes_used(&self) -> (r: usize) {
        self.value
    }

    fn bump(&mut self, inc: usize) {
        self.value = self.value + inc;
    }

    fn set(&mut self, v: usize) {
        self.value = v;
    }

    fn advance(&mut self, from: usize, to: usize) -> (ok: bool) {
        if self.value == from {
            self.value = to;
            true
        } else {
            false
        }
    }
}

/// A counter that threads share through a sequentially consistent atomic.
/// Nothing is known here of the value a read returns, since other threads
/// move it too; only that each read-modify-write is atomic.
#[derive(Debug)]
pub struct ThreadSafeHead {
    value: AtomicUsize,
}

impl ThreadSafeHead {
    /// A counter at zero.
    pub fn new() -> (h: Self) {
        ThreadSafeHead { value: AtomicUsize::new(0) }
    }
}

impl Head for ThreadSafeHead {
    closed spec fn used(&self) -> nat {
        0
    }

    open spec fn sequential() -> bool {
        false
    }

    fn num_bytes_used(&self) -> (r: usize) {
        self.value.load(Ordering::SeqCst)
    }

    fn bump(&mut self, inc: usize) {
        self.value.fetch_add(inc, Ordering::SeqCst);
    }

    fn set(&mut self, v: usize) {
        self.value.store(v, Ordering::SeqCst);
    }

    fn advance(&mut self, from: usize, to: usize) -> (ok: bool) {
        self.value.compare_exchange(from, to, Ordering::SeqCst, Ordering::SeqCst).is_ok()
    }
}

} // verus!
