//! The occupancy bitmap at the head of a segment.
use vstd::prelude::*;

verus! {

/// Number of slots in one segment: one bit of a `u32` header per slot.
pub const NUM_SLOTS_PER_SEGMENT: usize = 32;

/// Bytes taken by a segment header.
pub const SEGMENT_HEADER_SIZE: usize = 4;

/// Whether slot `i` is marked in header word `bits`. Slot `i` lives in bit
/// `31 - i`, so that the leading ones of the word are the occupied prefix.
pub open spec fn slot_bit(bits: u32, i: u32) -> bool {
    (bits >> ((31 - i) as u32)) & 1u32 == 1u32
}

/// A 32-slot occupancy bitmap; a set bit means the slot is handed out.
#[derive(Clone, Copy, Debug)]
pub struct SegmentHeader {
    bits: u32,
}

impl SegmentHeader {
    /// Whether slot `i` is occupied.
    pub closed spec fn is_set(self, i: int) -> bool {
        0 <= i < 32 && slot_bit(self.bits, i as u32)
    }

    /// The occupancy of the 32 slots, slot 0 first.
    pub open spec fn view(self) -> Seq<bool> {
        Seq::new(32, |i: int| self.is_set(i))
    }

    /// An empty header: no slot is occupied.
    pub fn new() -> (h: Self)
        ensures
            h.view() == Seq::new(32, |i: int| false),
    {
        let h = SegmentHeader { bits: 0 };
        assert forall|i: u32| i < 32 implies !slot_bit(0u32, i) by {
            assert(!slot_bit(0u32, i)) by (bit_vector)
                requires
                    i < 32,
            ;
        }
        assert(h.view() =~= Seq::new(32, |i: int| false));
        h
    }

    /// The lowest free slot, or `None` when all 32 are occupied.
    pub fn first_free_slot_idx(&self) -> (r: Option<usize>)
        ensures
            match r {
                Some(i) => i < 32 && !self.view()[i as int] && forall|j: int|
                    0 <= j < i ==> #[trigger] self.view()[j],
                None => forall|j: int| 0 <= j < 32 ==> #[trigger] self.view()[j],
            },
    {
        let bits = self.bits;
        let clo = bits.leading_ones();
        proof {
            vstd::std_specs::bits::axiom_u32_leading_ones(bits);
        }
        if clo == 32 {
            assert forall|j: int| 0 <= j < 32 implies #[trigger] self.view()[j] by {
                let jj = j as u32;
                assert(slot_bit(bits, jj)) by (bit_vector)
                    requires
                        bits == 0xffff_ffffu32,
                        jj < 32,
                ;
            }
            None
        } else {
            assert(!slot_bit(bits, clo)) by {
                assert((bits >> vstd::prelude::sub(31u32, clo)) & 1u32 == 0u32);
            }
            assert forall|j: int| 0 <= j < clo implies #[trigger] self.view()[j] by {
                let jj = j as u32;
                let k = vstd::prelude::sub(31u32, jj);
                assert(32 - clo <= k < 32);
                assert((bits >> k) & 1u32 == 1u32);
            }
            Some(clo as usize)
        }
    }

    /// Marks slot `i` occupied.
    pub fn set_slot(&mut self, i: usize)
        requires
            i < 32,
        ensures
            final(self).view() == old(self).view().update(i as int, true),
    {
        let old_bits = self.bits;
        let ii = i as u32;
        let new_bits = old_bits | (1u32 << (31 - ii));
        self.bits = new_bits;
        assert forall|j: u32| j < 32 implies slot_bit(new_bits, j) == (if j == ii {
            true
        } else {
            slot_bit(old_bits, j)
        }) by {
            assert(slot_bit(new_bits, j) == (if j == ii {
                true
            } else {
                slot_bit(old_bits, j)
            })) by (bit_vector)
                requires
                    new_bits == old_bits | (1u32 << vstd::prelude::sub(31u32, ii)),
                    ii < 32,
                    j < 32,
            ;
        }
        assert(self.view() =~= old(self).view().update(i as int, true)) by {
            assert forall|j: int| 0 <= j < 32 implies self.view()[j] == old(self).view().update(
                i as int,
                true,
            )[j] by {
                assert(slot_bit(new_bits, j as u32) == (if j as u32 == ii {
                    true
                } else {
                    slot_bit(old_bits, j as u32)
                }));
            }
        }
    }

    /// Marks slot `i` free.
    pub fn unset_slot(&mut self, i: usize)
        requires
            i < 32,
        ensures
            final(self).view() == old(self).view().update(i as int, false),
    {
        let old_bits = self.bits;
        let ii = i as u32;
        let new_bits = old_bits & !(1u32 << (31 - ii));
        self.bits = new_bits;
        assert forall|j: u32| j < 32 implies slot_bit(new_bits, j) == (if j == ii {
            false
        } else {
            slot_bit(old_bits, j)
        }) by {
            assert(slot_bit(new_bits, j) == (if j == ii {
                false
            } else {
                slot_bit(old_bits, j)
            })) by (bit_vector)
                requires
                    new_bits == old_bits & !(1u32 << vstd::prelude::sub(31u32, ii)),
                    ii < 32,
                    j < 32,
            ;
        }
        assert(self.view() =~= old(self).view().update(i as int, false)) by {
            assert forall|j: int| 0 <= j < 32 implies self.view()[j] == old(self).view().update(
                i as int,
                false,
            )[j] by {
                assert(slot_bit(new_bits, j as u32) == (if j as u32 == ii {
                    false
                } else {
                    slot_bit(old_bits, j as u32)
                }));
            }
        }
    }
}

} // verus!
