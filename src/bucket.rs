//! Buckets: runs of segments, each holding 32 equally sized, equally aligned
//! slots and the bitmap that says which of them are handed out.
//!
//! In memory a segment spans its 32 slots followed by room for a header,
//! padded to the slot alignment, so that every slot starts at a multiple of
//! the alignment and the segment stride is a multiple of it too. The headers
//! themselves are kept in the bucket value, in a fixed-size array, so that
//! nothing is written to the managed memory and nothing is allocated.
use vstd::prelude::*;
use vstd::arithmetic::div_mod::{lemma_fundamental_div_mod, lemma_fundamental_div_mod_converse};
use crate::bitmap::{SegmentHeader, NUM_SLOTS_PER_SEGMENT, SEGMENT_HEADER_SIZE};
use crate::layout::{
    is_power_of_two, lemma_multiple_scaled, lemma_multiple_sum, lemma_round_up, round_up,
};

verus! {

/// Distance between consecutive slots: the slot size rounded up to the alignment.
pub open spec fn slot_stride_of(slot_size: nat, align: nat) -> nat {
    round_up(slot_size, align)
}

/// Distance between consecutive segments: 32 slots and a header, rounded up
/// to the alignment.
pub open spec fn segment_stride_of(slot_size: nat, align: nat) -> nat {
    round_up(32 * slot_stride_of(slot_size, align) + 4, align)
}

/// Whether a bucket of `num_segments` segments of this geometry can start at
/// address `base`.
pub open spec fn bucket_fits(slot_size: nat, align: nat, num_segments: nat, base: nat) -> bool {
    &&& slot_size > 0
    &&& is_power_of_two(align)
    &&& base % align == 0
    &&& segment_stride_of(slot_size, align) <= usize::MAX
    &&& base + num_segments * segment_stride_of(slot_size, align) <= usize::MAX
}

/// The segment stride for this geometry, or `None` when it does not fit a `usize`.
pub fn segment_stride_checked(slot_size: usize, align: usize) -> (r: Option<usize>)
    requires
        align > 0,
    ensures
        r == (if segment_stride_of(slot_size as nat, align as nat) <= usize::MAX {
            Some(segment_stride_of(slot_size as nat, align as nat) as usize)
        } else {
            None
        }),
{
    proof {
        lemma_round_up(slot_size as nat, align as nat);
        lemma_round_up(32 * slot_stride_of(slot_size as nat, align as nat) + 4, align as nat);
    }
    let slot_stride = match crate::layout::round_up_checked(slot_size, align) {
        Some(v) => v,
        None => return None,
    };
    if slot_stride > (usize::MAX - SEGMENT_HEADER_SIZE) / 32 {
        return None;
    }
    crate::layout::round_up_checked(32 * slot_stride + SEGMENT_HEADER_SIZE, align)
}

/// Index of the first `false` in `s`, or `s.len()` if there is none.
pub open spec fn first_free(s: Seq<bool>) -> nat
    decreases s.len(),
{
    if s.len() == 0 {
        0
    } else if !s[0] {
        0
    } else {
        1 + first_free(s.drop_first())
    }
}

/// `first_free` is the index of the first free entry.
pub proof fn lemma_first_free(s: Seq<bool>)
    ensures
        first_free(s) <= s.len(),
        forall|j: int| 0 <= j < first_free(s) ==> #[trigger] s[j],
        first_free(s) < s.len() ==> !s[first_free(s) as int],
    decreases s.len(),
{
    if s.len() > 0 && s[0] {
        let t = s.drop_first();
        lemma_first_free(t);
        assert forall|j: int| 0 <= j < first_free(s) implies #[trigger] s[j] by {
            if j > 0 {
                assert(s[j] == t[j - 1]);
            }
        }
    }
}

/// An index before which every entry is taken and at which one is free is
/// the first free index.
pub proof fn lemma_first_free_is(s: Seq<bool>, k: nat)
    requires
        k <= s.len(),
        forall|j: int| 0 <= j < k ==> #[trigger] s[j],
        k < s.len() ==> !s[k as int],
    ensures
        first_free(s) == k,
{
    lemma_first_free(s);
    if first_free(s) < k {
        assert(s[first_free(s) as int]);
    }
    if k < first_free(s) {
        assert(s[k as int]);
    }
}

/// Slot `i` of segment `q` sits inside the segment, and the segment inside
/// the first `n` segments.
proof fn lemma_slot_position(slot_size: nat, stride: nat, seg: nat, q: nat, i: nat, n: nat)
    requires
        0 < slot_size <= stride,
        32 * stride + 4 <= seg,
        q < n,
        i < 32,
    ensures
        q * seg + i * stride + stride <= (q + 1) * seg,
        (q + 1) * seg <= n * seg,
        q * seg + i * stride + slot_size <= n * seg,
        i * stride < seg,
        q * 32 + i < n * 32,
        n * 32 <= n * seg,
{
    assert(q * seg + i * stride + stride <= (q + 1) * seg) by (nonlinear_arith)
        requires
            32 * stride + 4 <= seg,
            i < 32,
    ;
    assert((q + 1) * seg <= n * seg) by (nonlinear_arith)
        requires
            q < n,
    ;
    assert(i * stride < seg) by (nonlinear_arith)
        requires
            32 * stride + 4 <= seg,
            i < 32,
    ;
    assert(q * 32 + i < n * 32) by (nonlinear_arith)
        requires
            q < n,
            i < 32,
    ;
    assert(n * 32 <= n * seg) by (nonlinear_arith)
        requires
            32 <= seg,
    ;
}

/// One segment: the bitmap of its 32 slots. The slots themselves are memory
/// at the addresses the owning bucket computes.
#[derive(Clone, Copy, Debug)]
pub struct Segment {
    pub header: SegmentHeader,
}

impl Segment {
    /// Occupancy of the segment's slots, slot 0 first.
    pub open spec fn view(self) -> Seq<bool> {
        self.header.view()
    }

    /// A segment with every slot free.
    pub fn new() -> (s: Self)
        ensures
            s.view() == Seq::new(32, |i: int| false),
    {
        Segment { header: SegmentHeader::new() }
    }
}

/// A bucket: `num_segments` segments of slots of one size and alignment,
/// placed contiguously from address `base`. It holds room for the headers
/// of up to `K` segments.
#[derive(Clone, Copy, Debug)]
pub struct BucketImpl<const K: usize> {
    slot_size: usize,
    align: usize,
    slot_stride: usize,
    segment_stride: usize,
    num_segments: usize,
    base: usize,
    segments: [Segment; K],
}

impl<const K: usize> View for BucketImpl<K> {
    type V = Seq<bool>;

    /// Occupancy of every slot of the bucket, by global slot index.
    closed spec fn view(&self) -> Seq<bool> {
        Seq::new(
            (self.num_segments * 32) as nat,
            |g: int| self.segments@[g / 32].view()[g % 32],
        )
    }
}

impl<const K: usize> BucketImpl<K> {
    /// Largest request size a slot holds.
    pub closed spec fn slot_size(&self) -> nat {
        self.slot_size as nat
    }

    /// Alignment of every slot.
    pub closed spec fn align(&self) -> nat {
        self.align as nat
    }

    /// Address of the first segment.
    pub closed spec fn base(&self) -> nat {
        self.base as nat
    }

    /// Number of segments.
    pub closed spec fn num_segments(&self) -> nat {
        self.num_segments as nat
    }

    /// Number of slots.
    pub open spec fn capacity(&self) -> nat {
        self.num_segments() * 32
    }

    /// Distance between consecutive slots of a segment.
    pub open spec fn slot_stride(&self) -> nat {
        slot_stride_of(self.slot_size(), self.align())
    }

    /// Distance between consecutive segments.
    pub open spec fn segment_stride(&self) -> nat {
        segment_stride_of(self.slot_size(), self.align())
    }

    /// One past the last byte of the bucket's storage.
    pub open spec fn storage_end(&self) -> nat {
        self.base() + self.num_segments() * self.segment_stride()
    }

    /// Address of the slot with global index `g`.
    pub open spec fn slot_addr(&self, g: int) -> int {
        self.base() + (g / 32) * self.segment_stride() + (g % 32) * self.slot_stride()
    }

    /// The global index of the slot whose bytes hold address `p`, if any.
    pub open spec fn slot_of(&self, p: int) -> Option<nat> {
        if p < self.base() {
            None
        } else {
            let off = p - self.base();
            let q = off / (self.segment_stride() as int);
            let i = (off % (self.segment_stride() as int)) / (self.slot_stride() as int);
            if q < self.num_segments() && i < 32 {
                Some((q * 32 + i) as nat)
            } else {
                None
            }
        }
    }

    /// Two buckets with the same geometry and placement.
    pub open spec fn same_layout(&self, other: &Self) -> bool {
        &&& self.slot_size() == other.slot_size()
        &&& self.align() == other.align()
        &&& self.base() == other.base()
        &&& self.num_segments() == other.num_segments()
    }

    /// Internal consistency of the bucket.
    pub closed spec fn wf(&self) -> bool {
        &&& bucket_fits(
            self.slot_size as nat,
            self.align as nat,
            self.num_segments as nat,
            self.base as nat,
        )
        &&& self.slot_stride as nat == slot_stride_of(self.slot_size as nat, self.align as nat)
        &&& self.segment_stride as nat == segment_stride_of(
            self.slot_size as nat,
            self.align as nat,
        )
        &&& self.num_segments <= K
    }

    /// What well-formedness tells about the geometry.
    pub proof fn lemma_wf(&self)
        requires
            self.wf(),
        ensures
            bucket_fits(self.slot_size(), self.align(), self.num_segments(), self.base()),
            self@.len() == self.capacity(),
            self.align() > 0,
            self.slot_size() <= self.slot_stride(),
            self.slot_stride() % self.align() == 0,
            self.segment_stride() % self.align() == 0,
            32 * self.slot_stride() + 4 <= self.segment_stride(),
            self.storage_end() <= usize::MAX,
            self.capacity() <= usize::MAX,
            self.num_segments() <= K,
    {
        lemma_round_up(self.slot_size as nat, self.align as nat);
        lemma_round_up(32 * self.slot_stride() + 4, self.align as nat);
        assert(self.num_segments() * 32 <= self.num_segments() * self.segment_stride()) by (nonlinear_arith)
            requires
                32 <= self.segment_stride(),
        ;
    }

    /// Slot `g` lies inside the storage, aligned, and its address maps back to `g`.
    pub proof fn lemma_slot(&self, g: int)
        requires
            self.wf(),
            0 <= g < self.capacity(),
        ensures
            self.base() <= self.slot_addr(g),
            self.slot_addr(g) + self.slot_size() <= self.storage_end(),
            self.slot_addr(g) % (self.align() as int) == 0,
            self.slot_of(self.slot_addr(g)) == Some(g as nat),
    {
        self.lemma_wf();
        let (q, i) = (g / 32, g % 32);
        let (seg, stride) = (self.segment_stride(), self.slot_stride());
        lemma_slot_position(self.slot_size(), stride, seg, q as nat, i as nat, self.num_segments());
        lemma_multiple_scaled(self.align(), seg, q as nat);
        lemma_multiple_scaled(self.align(), stride, i as nat);
        lemma_multiple_sum(self.align(), self.base(), (q * seg) as nat);
        lemma_multiple_sum(self.align(), (self.base() + q * seg) as nat, (i * stride) as nat);
        let off = q * seg + i * stride;
        lemma_fundamental_div_mod_converse(off, seg as int, q, i * stride);
        lemma_fundamental_div_mod_converse(i * stride, stride as int, i, 0);
        lemma_fundamental_div_mod(g, 32);
    }

    /// An address that maps to a slot lies inside that slot's stride.
    pub proof fn lemma_slot_of(&self, p: int)
        requires
            self.wf(),
            self.slot_of(p) is Some,
        ensures
            self.slot_of(p).unwrap() < self.capacity(),
            self.base() <= p < self.storage_end(),
            self.slot_addr(self.slot_of(p).unwrap() as int) <= p,
            p < self.slot_addr(self.slot_of(p).unwrap() as int) + self.slot_stride(),
    {
        self.lemma_wf();
        let (seg, stride) = (self.segment_stride() as int, self.slot_stride() as int);
        let off = p - self.base();
        let q = off / seg;
        let w = off % seg;
        let i = w / stride;
        lemma_fundamental_div_mod(off, seg);
        lemma_fundamental_div_mod(w, stride);
        let g = q * 32 + i;
        lemma_fundamental_div_mod_converse(g, 32, q, i);
        lemma_slot_position(
            self.slot_size(),
            stride as nat,
            seg as nat,
            q as nat,
            i as nat,
            self.num_segments(),
        );
        assert(seg * q + seg <= seg * self.num_segments()) by (nonlinear_arith)
            requires
                q + 1 <= self.num_segments(),
                seg >= 0,
        ;
        assert(seg * self.num_segments() == self.num_segments() * seg) by (nonlinear_arith);
        assert(seg * q == q * seg) by (nonlinear_arith);
        assert(stride * i == i * stride) by (nonlinear_arith);
    }

    /// Two different slots do not share a byte of their `slot_size` bytes.
    pub proof fn lemma_slots_disjoint(&self, g1: int, g2: int)
        requires
            self.wf(),
            0 <= g1 < self.capacity(),
            0 <= g2 < self.capacity(),
            g1 != g2,
        ensures
            self.slot_addr(g1) + self.slot_size() <= self.slot_addr(g2) || self.slot_addr(g2)
                + self.slot_size() <= self.slot_addr(g1),
    {
        self.lemma_wf();
        let (seg, stride) = (self.segment_stride(), self.slot_stride());
        let (q1, i1, q2, i2) = (g1 / 32, g1 % 32, g2 / 32, g2 % 32);
        lemma_fundamental_div_mod(g1, 32);
        lemma_fundamental_div_mod(g2, 32);
        lemma_slot_position(self.slot_size(), stride, seg, q1 as nat, i1 as nat, self.num_segments());
        lemma_slot_position(self.slot_size(), stride, seg, q2 as nat, i2 as nat, self.num_segments());
        if q1 == q2 {
            assert(i1 != i2);
            if i1 < i2 {
                assert(i1 * stride + stride <= i2 * stride) by (nonlinear_arith)
                    requires
                        i1 < i2,
                ;
            } else {
                assert(i2 * stride + stride <= i1 * stride) by (nonlinear_arith)
                    requires
                        i2 < i1,
                ;
            }
        } else if q1 < q2 {
            assert((q1 + 1) * seg <= q2 * seg) by (nonlinear_arith)
                requires
                    q1 < q2,
            ;
        } else {
            assert((q2 + 1) * seg <= q1 * seg) by (nonlinear_arith)
                requires
                    q2 < q1,
            ;
        }
    }

    /// Whether a request of `size` bytes aligned to `align` fits a slot.
    pub fn accepts(&self, size: usize, align: usize) -> (r: bool)
        ensures
            r == (size <= self.slot_size() && align <= self.align()),
    {
        size <= self.slot_size && align <= self.align
    }

    /// Address of the first segment.
    pub fn base_address(&self) -> (r: usize)
        ensures
            r == self.base(),
    {
        self.base
    }

    /// One past the last byte of the bucket's storage.
    pub fn end_address(&self) -> (r: usize)
        requires
            self.wf(),
        ensures
            r == self.storage_end(),
    {
        proof {
            self.lemma_wf();
        }
        self.base + self.num_segments * self.segment_stride
    }

    /// A bucket of `num_segments` segments of slots of `slot_size` bytes
    /// aligned to `align`, placed at `base`. No slot is handed out.
    pub fn new(slot_size: usize, align: usize, num_segments: usize, base: usize) -> (b: Self)
        requires
            bucket_fits(slot_size as nat, align as nat, num_segments as nat, base as nat),
            num_segments <= K,
        ensures
            b.wf(),
            b.slot_size() == slot_size,
            b.align() == align,
            b.num_segments() == num_segments,
            b.base() == base,
            b@ == Seq::new(b.capacity(), |g: int| false),
    {
        proof {
            lemma_round_up(slot_size as nat, align as nat);
            lemma_round_up(32 * slot_stride_of(slot_size as nat, align as nat) + 4, align as nat);
        }
        let slot_stride = if slot_size % align == 0 {
            slot_size
        } else {
            slot_size + (align - slot_size % align)
        };
        let raw = 32 * slot_stride + SEGMENT_HEADER_SIZE;
        let segment_stride = if raw % align == 0 {
            raw
        } else {
            raw + (align - raw % align)
        };
        let b = BucketImpl {
            slot_size,
            align,
            slot_stride,
            segment_stride,
            num_segments,
            base,
            segments: [Segment::new(); K],
        };
        proof {
            assert forall|g: int| 0 <= g < b.capacity() implies !#[trigger] b@[g] by {
                lemma_fundamental_div_mod(g, 32);
                let q = g / 32;
                assert(q < num_segments) by (nonlinear_arith)
                    requires
                        g < num_segments * 32,
                        g == 32 * q + g % 32,
                        0 <= g % 32 < 32,
                ;
                assert(b.segments@[q].view() == Seq::new(32, |i: int| false));
            }
            assert(b@ =~= Seq::new(b.capacity(), |g: int| false));
        }
        b
    }

    /// Global slot index `g` as (segment, slot within the segment).
    fn global_to_local(&self, g: usize) -> (r: (usize, usize))
        ensures
            r.0 == g / 32,
            r.1 == g % 32,
    {
        (g / NUM_SLOTS_PER_SEGMENT, g % NUM_SLOTS_PER_SEGMENT)
    }

    /// The occupancy after slot `(q, i)` of an initialized bucket changed to `v`.
    proof fn lemma_view_after_update(&self, before: &Self, q: int, i: int, v: bool)
        requires
            self.wf(),
            before.wf(),
            self.same_layout(before),
            0 <= q < self.num_segments,
            0 <= i < 32,
            self.segments@ == before.segments@.update(
                q,
                Segment { header: self.segments@[q].header },
            ),
            self.segments@[q].view() == before.segments@[q].view().update(i, v),
        ensures
            self@ == before@.update(q * 32 + i, v),
    {
        let g0 = q * 32 + i;
        lemma_fundamental_div_mod_converse(g0, 32, q, i);
        self.lemma_wf();
        before.lemma_wf();
        assert forall|g: int| 0 <= g < self.capacity() implies #[trigger] self@[g] == before@.update(
            g0,
            v,
        )[g] by {
            lemma_fundamental_div_mod(g, 32);
            if g / 32 == q && g % 32 == i {
                assert(g == g0);
            }
            assert(g / 32 < self.num_segments) by (nonlinear_arith)
                requires
                    g < self.num_segments * 32,
                    g == 32 * (g / 32) + g % 32,
                    0 <= g % 32 < 32,
            ;
        }
        assert(self@ =~= before@.update(g0, v));
    }

    /// Claims the lowest free slot and returns its address, or `None` when
    /// every slot is taken.
    pub fn claim_first_available_slot(&mut self) -> (r: Option<usize>)
        requires
            old(self).wf(),
        ensures
            final(self).wf(),
            final(self).same_layout(old(self)),
            first_free(old(self)@) < old(self).capacity() ==> r == Some(
                old(self).slot_addr(first_free(old(self)@) as int) as usize,
            ) && final(self)@ == old(self)@.update(first_free(old(self)@) as int, true),
            first_free(old(self)@) >= old(self).capacity() ==> r is None && final(self)@ == old(
                self,
            )@,
    {
        proof {
            self.lemma_wf();
        }
        let n = self.num_segments;
        let mut s: usize = 0;
        while s < n
            invariant
                *self == *old(self),
                self.wf(),
                n == self.num_segments,
                s <= n,
                forall|g: int| 0 <= g < s * 32 ==> #[trigger] self@[g],
            decreases n - s,
        {
            match self.segments[s].header.first_free_slot_idx() {
                Some(i) => {
                    let ghost before = *self;
                    let mut seg = self.segments[s];
                    seg.header.set_slot(i);
                    self.segments[s] = seg;
                    proof {
                        lemma_slot_position(
                            self.slot_size(),
                            self.slot_stride(),
                            self.segment_stride(),
                            s as nat,
                            i as nat,
                            n as nat,
                        );
                        let g = s * 32 + i;
                        lemma_fundamental_div_mod_converse(g as int, 32, s as int, i as int);
                        assert forall|j: int| 0 <= j < g implies #[trigger] before@[j] by {
                            if j >= s * 32 {
                                lemma_fundamental_div_mod_converse(
                                    j,
                                    32,
                                    s as int,
                                    j - s * 32,
                                );
                                assert(before.segments@[s as int].view()[j - s * 32]);
                            }
                        }
                        assert(!before@[g as int]);
                        lemma_first_free_is(before@, g as nat);
                        self.lemma_view_after_update(&before, s as int, i as int, true);
                    }
                    let addr = self.base + s * self.segment_stride + i * self.slot_stride;
                    return Some(addr);
                },
                None => {},
            }
            proof {
                assert forall|g: int| 0 <= g < (s + 1) * 32 implies #[trigger] self@[g] by {
                    if g >= s * 32 {
                        lemma_fundamental_div_mod_converse(g, 32, s as int, g - s * 32);
                        assert(self.segments@[s as int].view()[g - s * 32]);
                    }
                }
            }
            s = s + 1;
        }
        proof {
            lemma_first_free_is(self@, self.capacity());
        }
        None
    }

    /// Address of the slot with global index `g`.
    pub fn get_slot(&self, g: usize) -> (r: usize)
        requires
            self.wf(),
            g < self.capacity(),
        ensures
            r == self.slot_addr(g as int),
    {
        proof {
            self.lemma_wf();
            lemma_fundamental_div_mod(g as int, 32);
            lemma_slot_position(
                self.slot_size(),
                self.slot_stride(),
                self.segment_stride(),
                (g / 32) as nat,
                (g % 32) as nat,
                self.num_segments(),
            );
        }
        let (q, i) = self.global_to_local(g);
        self.base + q * self.segment_stride + i * self.slot_stride
    }

    /// Marks the slot with global index `g` occupied.
    pub fn set_slot(&mut self, g: usize)
        requires
            old(self).wf(),
            g < old(self).capacity(),
        ensures
            final(self).wf(),
            final(self).same_layout(old(self)),
            final(self)@ == old(self)@.update(g as int, true),
    {
        self.change_slot(g, true);
    }

    /// Marks the slot with global index `g` free.
    pub fn unset_slot(&mut self, g: usize)
        requires
            old(self).wf(),
            g < old(self).capacity(),
        ensures
            final(self).wf(),
            final(self).same_layout(old(self)),
            final(self)@ == old(self)@.update(g as int, false),
    {
        self.change_slot(g, false);
    }

    fn change_slot(&mut self, g: usize, v: bool)
        requires
            old(self).wf(),
            g < old(self).capacity(),
        ensures
            final(self).wf(),
            final(self).same_layout(old(self)),
            final(self)@ == old(self)@.update(g as int, v),
    {
        let (q, i) = self.global_to_local(g);
        proof {
            lemma_fundamental_div_mod(g as int, 32);
            assert(q < self.num_segments) by (nonlinear_arith)
                requires
                    g < self.num_segments * 32,
                    g == 32 * q + i,
                    0 <= i < 32,
            ;
        }
        let ghost before = *self;
        let mut seg = self.segments[q];
        if v {
            seg.header.set_slot(i);
        } else {
            seg.header.unset_slot(i);
        }
        self.segments[q] = seg;
        proof {
            lemma_fundamental_div_mod_converse(g as int, 32, q as int, i as int);
            self.lemma_view_after_update(&before, q as int, i as int, v);
        }
    }

    /// The global index of the slot whose bytes hold address `p`, or `None`
    /// when `p` is outside every slot of this bucket.
    pub fn slot_idx_for_ptr(&self, p: usize) -> (r: Option<usize>)
        requires
            self.wf(),
        ensures
            r == match self.slot_of(p as int) {
                Some(g) => Some(g as usize),
                None => None,
            },
    {
        proof {
            self.lemma_wf();
        }
        if p < self.base {
            return None;
        }
        let off = p - self.base;
        let q = off / self.segment_stride;
        let i = (off % self.segment_stride) / self.slot_stride;
        if q >= self.num_segments || i >= NUM_SLOTS_PER_SEGMENT {
            return None;
        }
        proof {
            lemma_slot_position(
                self.slot_size(),
                self.slot_stride(),
                self.segment_stride(),
                q as nat,
                i as nat,
                self.num_segments(),
            );
        }
        Some(q * 32 + i)
    }
}

} // verus!
