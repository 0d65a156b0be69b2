//! The bucket allocator: an ordered list of buckets, each request served by
//! the first bucket that fits it and has a free slot.
use vstd::prelude::*;
use crate::bucket::{
    BucketImpl, bucket_fits, first_free, lemma_first_free, segment_stride_checked,
    segment_stride_of,
};
use crate::layout::{
    is_power_of_two, lemma_power_of_two_divides, lemma_round_up,
    round_up, round_up_checked,
};
use crate::schema::{BucketDescriptor, num_segments_for};

verus! {

/// Whether a request of `size` bytes aligned to `align` fits a slot of `b`.
pub open spec fn fits<const K: usize>(b: BucketImpl<K>, size: nat, align: nat) -> bool {
    size <= b.slot_size() && align <= b.align()
}

/// The (bucket, slot) that serves a request, scanning buckets from index
/// `k` on: the first fitting bucket with a free slot, and its lowest free slot.
pub open spec fn pick_from<const K: usize>(bs: Seq<BucketImpl<K>>, k: int, size: nat, align: nat) -> Option<
    (nat, nat),
>
    decreases bs.len() - k,
{
    if k < 0 || k >= bs.len() {
        None
    } else if fits(bs[k], size, align) && first_free(bs[k]@) < bs[k].capacity() {
        Some((k as nat, first_free(bs[k]@)))
    } else {
        pick_from(bs, k + 1, size, align)
    }
}

/// What `pick_from` yields: a fitting bucket at or after `k` with a free
/// slot, its lowest free slot, and no such bucket between `k` and it.
pub proof fn lemma_pick_from<const K: usize>(bs: Seq<BucketImpl<K>>, k: int, size: nat, align: nat)
    requires
        0 <= k,
    ensures
        pick_from(bs, k, size, align) matches Some((j, g)) ==> {
            &&& k <= j < bs.len()
            &&& fits(bs[j as int], size, align)
            &&& g == first_free(bs[j as int]@)
            &&& g < bs[j as int].capacity()
            &&& forall|i: int|
                k <= i < j ==> !(fits(#[trigger] bs[i], size, align) && first_free(bs[i]@)
                    < bs[i].capacity())
        },
        pick_from(bs, k, size, align) is None ==> forall|i: int|
            k <= i < bs.len() ==> !(fits(#[trigger] bs[i], size, align) && first_free(bs[i]@)
                < bs[i].capacity()),
    decreases bs.len() - k,
{
    if k < bs.len() {
        lemma_pick_from(bs, k + 1, size, align);
    }
}

/// Buckets that cannot serve a request are skipped.
pub proof fn lemma_pick_skips<const K: usize>(bs: Seq<BucketImpl<K>>, j: int, k: int, size: nat, align: nat)
    requires
        0 <= j <= k,
        forall|i: int|
            j <= i < k ==> !(fits(#[trigger] bs[i], size, align) && first_free(bs[i]@)
                < bs[i].capacity()),
    ensures
        pick_from(bs, j, size, align) == pick_from(bs, k, size, align),
    decreases k - j,
{
    if j < k {
        lemma_pick_skips(bs, j + 1, k, size, align);
    }
}

/// End of the region after laying out `descs` from address `cursor`, each
/// bucket at the next multiple of its alignment; `None` when a descriptor is
/// invalid or an address does not fit a `usize`.
pub open spec fn region_end(descs: Seq<BucketDescriptor>, cursor: nat) -> Option<nat>
    decreases descs.len(),
{
    if descs.len() == 0 {
        Some(cursor)
    } else {
        let d = descs[0];
        let base = round_up(cursor, d.align as nat);
        let n = num_segments_for(d.num_slots as nat);
        if d.is_valid() && bucket_fits(d.slot_size as nat, d.align as nat, n, base) {
            region_end(
                descs.drop_first(),
                base + n * segment_stride_of(d.slot_size as nat, d.align as nat),
            )
        } else {
            None
        }
    }
}

/// The length of the region that `descs` need when laid out from
/// `start` as `BucketAllocator::with_region` does, counted from `start`; `None` when a
/// descriptor is invalid or an address does not fit a `usize`.
pub fn region_size(descs: &[BucketDescriptor], start: usize) -> (r: Option<usize>)
    ensures
        r == match region_end(descs@, start as nat) {
            Some(e) => Some((e - start) as usize),
            None => None,
        },
        r matches Some(l) ==> start + l <= usize::MAX,
{
    let n = descs.len();
    let mut cursor: usize = start;
    let mut i: usize = 0;
    assert(descs@.subrange(0, n as int) =~= descs@);
    while i < n
        invariant
            i <= n == descs@.len(),
            start <= cursor,
            region_end(descs@, start as nat) == region_end(
                descs@.subrange(i as int, n as int),
                cursor as nat,
            ),
        decreases n - i,
    {
        let d = descs[i];
        proof {
            assert(descs@.subrange(i as int, n as int)[0] == d);
            assert(descs@.subrange(i as int, n as int).drop_first() =~= descs@.subrange(
                i + 1,
                n as int,
            ));
        }
        if d.slot_size == 0 || !crate::layout::is_power_of_two_exec(d.align) {
            return None;
        }
        let base = match round_up_checked(cursor, d.align) {
            Some(b) => b,
            None => return None,
        };
        let stride = match segment_stride_checked(d.slot_size, d.align) {
            Some(s) => s,
            None => return None,
        };
        let segments = d.num_segments();
        proof {
            lemma_round_up(cursor as nat, d.align as nat);
        }
        if segments > 0 && stride > (usize::MAX - base) / segments {
            proof {
                assert(segments * stride > usize::MAX - base) by (nonlinear_arith)
                    requires
                        segments > 0,
                        stride > ((usize::MAX - base) as usize) / segments,
                ;
            }
            return None;
        }
        proof {
            assert(segments * stride <= usize::MAX - base) by (nonlinear_arith)
                requires
                    segments == 0 || stride <= ((usize::MAX - base) as usize) / segments,
                    base <= usize::MAX,
            ;
        }
        cursor = base + segments * stride;
        i = i + 1;
    }
    proof {
        assert(descs@.subrange(n as int, n as int) =~= Seq::<BucketDescriptor>::empty());
    }
    Some(cursor - start)
}

/// The `B` buckets of an aggregate, in scan order, each with room for the
/// headers of up to `K` segments. It holds no heap memory.
#[derive(Debug)]
pub struct BucketAllocator<const B: usize, const K: usize> {
    buckets: [BucketImpl<K>; B],
}

impl<const B: usize, const K: usize> BucketAllocator<B, K> {
    /// The buckets in scan order.
    pub closed spec fn buckets(&self) -> Seq<BucketImpl<K>> {
        self.buckets@
    }

    /// What well-formedness tells about the buckets: each is well formed,
    /// and their storage lies in scan order without overlap.
    pub proof fn lemma_wf(&self)
        requires
            self.wf(),
        ensures
            self.buckets().len() == B,
            forall|k: int| 0 <= k < self.buckets().len() ==> (#[trigger] self.buckets()[k]).wf(),
            forall|j: int, k: int|
                0 <= j < k < self.buckets().len() ==> (#[trigger] self.buckets()[j]).storage_end()
                    <= (#[trigger] self.buckets()[k]).base(),
    {
    }

    /// Every bucket is well formed, and the buckets' storage is laid out in
    /// scan order without overlap.
    pub closed spec fn wf(&self) -> bool {
        &&& forall|k: int| 0 <= k < self.buckets@.len() ==> (#[trigger] self.buckets@[k]).wf()
        &&& forall|j: int, k: int|
            0 <= j < k < self.buckets@.len() ==> (#[trigger] self.buckets@[j]).storage_end()
                <= (#[trigger] self.buckets@[k]).base()
    }

    /// The address a request of `size` bytes aligned to `align` receives.
    pub open spec fn alloc_result(&self, size: nat, align: nat) -> Option<usize> {
        match pick_from(self.buckets(), 0, size, align) {
            Some((k, g)) => Some(self.buckets()[k as int].slot_addr(g as int) as usize),
            None => None,
        }
    }

    /// Same buckets, in the same places.
    pub open spec fn same_layout(&self, other: &Self) -> bool {
        &&& self.buckets().len() == other.buckets().len()
        &&& forall|k: int|
            0 <= k < self.buckets().len() ==> (#[trigger] self.buckets()[k]).same_layout(
                &other.buckets()[k],
            )
    }

    /// Slot `g` of bucket `k` is handed out.
    pub open spec fn is_live(&self, k: int, g: int) -> bool {
        &&& 0 <= k < self.buckets().len()
        &&& 0 <= g < self.buckets()[k].capacity()
        &&& self.buckets()[k]@[g]
    }

    /// `self` is `old` after releasing the slot that holds address `p`, in
    /// whichever bucket it lies.
    pub open spec fn released_from(&self, old: &Self, p: int) -> bool {
        forall|k: int|
            0 <= k < self.buckets().len() ==> #[trigger] self.buckets()[k]@ == match old.buckets()[k].slot_of(p) {
                Some(g) => old.buckets()[k]@.update(g as int, false),
                None => old.buckets()[k]@,
            }
    }

    /// `self` is `old` after claiming slot `g` of bucket `k`.
    pub open spec fn claimed_from(&self, old: &Self, k: int, g: int) -> bool {
        forall|j: int|
            0 <= j < self.buckets().len() ==> #[trigger] self.buckets()[j]@ == if j == k {
                old.buckets()[j]@.update(g, true)
            } else {
                old.buckets()[j]@
            }
    }

    /// Exclusion: two different live slots never share a byte. Each slot owns
    /// `slot_size` bytes of its bucket, and buckets do not overlap.
    pub proof fn lemma_live_slots_disjoint(&self, k1: int, g1: int, k2: int, g2: int)
        requires
            self.wf(),
            self.is_live(k1, g1),
            self.is_live(k2, g2),
            k1 != k2 || g1 != g2,
        ensures
            ({
                let (b1, b2) = (self.buckets()[k1], self.buckets()[k2]);
                b1.slot_addr(g1) + b1.slot_size() <= b2.slot_addr(g2) || b2.slot_addr(g2)
                    + b2.slot_size() <= b1.slot_addr(g1)
            }),
    {
        let (b1, b2) = (self.buckets()[k1], self.buckets()[k2]);
        b1.lemma_slot(g1);
        b2.lemma_slot(g2);
        if k1 == k2 {
            b1.lemma_slots_disjoint(g1, g2);
        } else if k1 < k2 {
            assert(b1.storage_end() <= b2.base());
        } else {
            assert(b2.storage_end() <= b1.base());
        }
    }

    /// A slot's address belongs to one bucket only: it maps to no slot of
    /// any other bucket.
    pub proof fn lemma_slot_owner(&self, k: int, g: int, j: int)
        requires
            self.wf(),
            0 <= k < self.buckets().len(),
            0 <= j < self.buckets().len(),
            0 <= g < self.buckets()[k].capacity(),
            j != k,
        ensures
            self.buckets()[j].slot_of(self.buckets()[k].slot_addr(g)) is None,
    {
        let (bk, bj) = (self.buckets()[k], self.buckets()[j]);
        let p = bk.slot_addr(g);
        bk.lemma_slot(g);
        if bj.slot_of(p) is Some {
            bj.lemma_slot_of(p);
            bk.lemma_wf();
            assert(bj.base() <= p < bj.storage_end());
            assert(bk.base() <= p < bk.storage_end());
            if j < k {
                assert(bj.storage_end() <= bk.base());
            } else {
                assert(bk.storage_end() <= bj.base());
            }
        }
    }

    /// Releasing the address of slot `g` of bucket `k` frees exactly that
    /// slot: the other slots of the bucket and every other bucket keep their
    /// occupancy.
    pub proof fn lemma_release_slot(before: &Self, after: &Self, k: int, g: int)
        requires
            before.wf(),
            after.same_layout(before),
            0 <= k < before.buckets().len(),
            0 <= g < before.buckets()[k].capacity(),
            after.released_from(before, before.buckets()[k].slot_addr(g)),
        ensures
            before.buckets()[k].slot_addr(g) <= usize::MAX,
            after.buckets()[k]@ == before.buckets()[k]@.update(g, false),
            forall|j: int|
                0 <= j < before.buckets().len() && j != k ==> #[trigger] after.buckets()[j]@
                    == before.buckets()[j]@,
    {
        let bs = before.buckets();
        bs[k].lemma_slot(g);
        bs[k].lemma_wf();
        assert forall|j: int| 0 <= j < bs.len() && j != k implies #[trigger] after.buckets()[j]@
            == bs[j]@ by {
            before.lemma_slot_owner(k, g, j);
        }
    }

    /// Slot reuse: after the slot at address `p` is released, the next request
    /// of a size class that slot fits gets `p` back, provided no free slot
    /// comes before it in scan order: every fitting bucket before its own is
    /// full, and so is every lower slot of its own bucket.
    pub proof fn lemma_released_slot_reused(
        before: &Self,
        after: &Self,
        k: int,
        g: int,
        size: nat,
        align: nat,
    )
        requires
            before.wf(),
            after.same_layout(before),
            before.is_live(k, g),
            after.released_from(before, before.buckets()[k].slot_addr(g)),
            fits(before.buckets()[k], size, align),
            forall|j: int|
                0 <= j < k && fits(#[trigger] before.buckets()[j], size, align) ==> first_free(
                    before.buckets()[j]@,
                ) >= before.buckets()[j].capacity(),
            forall|h: int| 0 <= h < g ==> #[trigger] before.buckets()[k]@[h],
        ensures
            after.alloc_result(size, align) == Some(before.buckets()[k].slot_addr(g) as usize),
    {
        let bs = before.buckets();
        bs[k].lemma_slot(g);
        bs[k].lemma_wf();
        let abs = after.buckets();
        Self::lemma_release_slot(before, after, k, g);
        assert forall|h: int| 0 <= h < g implies #[trigger] abs[k]@[h] by {
            assert(bs[k]@[h]);
        }
        crate::bucket::lemma_first_free_is(abs[k]@, g as nat);
        assert forall|i: int|
            0 <= i < k implies !(fits(#[trigger] abs[i], size, align) && first_free(abs[i]@)
                < abs[i].capacity()) by {
            assert(abs[i].same_layout(&bs[i]));
            assert(abs[i]@ == bs[i]@);
        }
        lemma_pick_skips(abs, 0, k, size, align);
        assert(abs[k].same_layout(&bs[k]));
    }

    /// Overflow cascade: when the first bucket in scan order that fits a
    /// request is full, the request is served as if the scan started after
    /// it: by the next fitting bucket with a free slot, or not at all.
    pub proof fn lemma_overflow_cascade(&self, k: int, size: nat, align: nat)
        requires
            self.wf(),
            0 <= k < self.buckets().len(),
            fits(self.buckets()[k], size, align),
            forall|j: int| 0 <= j < k ==> !fits(#[trigger] self.buckets()[j], size, align),
            forall|g: int| 0 <= g < self.buckets()[k].capacity() ==> #[trigger] self.buckets()[k]@[g],
        ensures
            pick_from(self.buckets(), 0, size, align) == pick_from(
                self.buckets(),
                k + 1,
                size,
                align,
            ),
            pick_from(self.buckets(), 0, size, align) matches Some((j, _)) ==> k < j && fits(
                self.buckets()[j as int],
                size,
                align,
            ),
    {
        let bs = self.buckets();
        bs[k].lemma_wf();
        crate::bucket::lemma_first_free(bs[k]@);
        if first_free(bs[k]@) < bs[k].capacity() {
            assert(!bs[k]@[first_free(bs[k]@) as int]);
        }
        lemma_pick_skips(bs, 0, k + 1, size, align);
        lemma_pick_from(bs, k + 1, size, align);
    }

    /// Number of buckets.
    pub fn num_buckets(&self) -> (r: usize)
        ensures
            r == self.buckets().len(),
    {
        B
    }

    /// Bucket `k` in scan order.
    pub fn bucket(&self, k: usize) -> (r: &BucketImpl<K>)
        requires
            k < self.buckets().len(),
        ensures
            *r == self.buckets()[k as int],
    {
        &self.buckets[k]
    }

    /// Lays out the buckets `descs`, in this order, in the memory region of
    /// `len` bytes at `start`: each bucket at the first address at or after
    /// the end of the previous one (the first at or after `start`) that is a
    /// multiple of its alignment. `None` when there are not exactly `B`
    /// descriptors, one needs more than `K` segments, or they do not fit. No
    /// slot is handed out.
    #[verifier::rlimit(40)]
    pub fn with_region(descs: &[BucketDescriptor], start: usize, len: usize) -> (r: Option<Self>)
        requires
            start + len <= usize::MAX,
        ensures
            r is Some <==> {
                &&& descs@.len() == B
                &&& forall|k: int|
                    0 <= k < descs@.len() ==> num_segments_for(
                        (#[trigger] descs@[k]).num_slots as nat,
                    ) <= K
                &&& region_end(descs@, start as nat) matches Some(e)
                &&& e <= start + len
            },
            r matches Some(a) ==> {
                &&& a.wf()
                &&& a.buckets().len() == descs@.len()
                &&& descs@.len() > 0 ==> a.buckets()[0].base() == round_up(
                    start as nat,
                    descs@[0].align as nat,
                )
                &&& forall|k: int|
                    0 < k < descs@.len() ==> (#[trigger] a.buckets()[k]).base() == round_up(
                        a.buckets()[k - 1].storage_end(),
                        descs@[k].align as nat,
                    )
                &&& forall|k: int|
                    0 <= k < descs@.len() ==> {
                        let b = #[trigger] a.buckets()[k];
                        &&& b.slot_size() == descs@[k].slot_size
                        &&& b.align() == descs@[k].align
                        &&& b.num_segments() == num_segments_for(descs@[k].num_slots as nat)
                        &&& start <= b.base()
                        &&& b.storage_end() <= start + len
                        &&& b@ == Seq::new(b.capacity(), |g: int| false)
                    }
            },
    {
        let n = descs.len();
        if n != B {
            return None;
        }
        let mut buckets = [BucketImpl::<K>::new(1, 1, 0, 0);B];
        let mut cursor: usize = start;
        let mut i: usize = 0;
        assert(descs@.subrange(0, n as int) =~= descs@);
        while i < n
            invariant
                i <= n == descs@.len() == B,
                buckets@.len() == B,
                start <= cursor,
                i == 0 ==> cursor == start,
                i > 0 ==> cursor == buckets@[i - 1].storage_end(),
                region_end(descs@, start as nat) == region_end(
                    descs@.subrange(i as int, n as int),
                    cursor as nat,
                ),
                forall|k: int| 0 <= k < i ==> num_segments_for((#[trigger] descs@[k]).num_slots as nat) <= K,
                i > 0 ==> buckets@[0].base() == round_up(start as nat, descs@[0].align as nat),
                forall|k: int|
                    0 < k < i ==> (#[trigger] buckets@[k]).base() == round_up(
                        buckets@[k - 1].storage_end(),
                        descs@[k].align as nat,
                    ),
                forall|k: int| 0 <= k < i ==> {
                    let b = #[trigger] buckets@[k];
                    &&& b.wf()
                    &&& b.slot_size() == descs@[k].slot_size
                    &&& b.align() == descs@[k].align
                    &&& b.num_segments() == num_segments_for(descs@[k].num_slots as nat)
                    &&& start <= b.base()
                    &&& b.storage_end() <= cursor
                    &&& b@ == Seq::new(b.capacity(), |g: int| false)
                },
                forall|j: int, k: int|
                    0 <= j < k < i ==> (#[trigger] buckets@[j]).storage_end()
                        <= (#[trigger] buckets@[k]).base(),
            decreases n - i,
        {
            let d = descs[i];
            proof {
                assert(descs@.subrange(i as int, n as int)[0] == d);
                assert(descs@.subrange(i as int, n as int).drop_first() =~= descs@.subrange(
                    i + 1,
                    n as int,
                ));
            }
            if d.slot_size == 0 || !crate::layout::is_power_of_two_exec(d.align) {
                return None;
            }
            let base = match round_up_checked(cursor, d.align) {
                Some(b) => b,
                None => return None,
            };
            let stride = match segment_stride_checked(d.slot_size, d.align) {
                Some(s) => s,
                None => return None,
            };
            let segments = d.num_segments();
            if segments > K {
                return None;
            }
            proof {
                lemma_round_up(cursor as nat, d.align as nat);
            }
            if segments > 0 && stride > (usize::MAX - base) / segments {
                proof {
                    assert(segments * stride > usize::MAX - base) by (nonlinear_arith)
                        requires
                            segments > 0,
                            stride > ((usize::MAX - base) as usize) / segments,
                    ;
                }
                return None;
            }
            proof {
                assert(segments * stride <= usize::MAX - base) by (nonlinear_arith)
                    requires
                        segments == 0 || stride <= ((usize::MAX - base) as usize) / segments,
                        base <= usize::MAX,
                ;
            }
            let bucket = BucketImpl::<K>::new(d.slot_size, d.align, segments, base);
            let end = bucket.end_address();
            let ghost before = buckets@;
            buckets[i] = bucket;
            proof {
                assert(buckets@ == before.update(i as int, bucket));
                assert forall|k: int| 0 <= k < i implies #[trigger] buckets@[k] == before[k] by {}
                bucket.lemma_wf();
            }
            cursor = end;
            i = i + 1;
        }
        proof {
            assert(descs@.subrange(n as int, n as int) =~= Seq::<BucketDescriptor>::empty());
        }
        if cursor - start > len {
            return None;
        }
        Some(BucketAllocator { buckets })
    }

    /// Serves a request of `size` bytes aligned to `align`: the first bucket
    /// in scan order whose slots are large enough and aligned enough, and that
    /// has a free slot, hands out its lowest free slot. `None` when there is
    /// no such bucket.
    pub fn allocate(&mut self, size: usize, align: usize) -> (r: Option<usize>)
        requires
            old(self).wf(),
        ensures
            final(self).wf(),
            final(self).same_layout(old(self)),
            r == old(self).alloc_result(size as nat, align as nat),
            match pick_from(old(self).buckets(), 0, size as nat, align as nat) {
                Some((k, g)) => {
                    let b = old(self).buckets()[k as int];
                    &&& !old(self).is_live(k as int, g as int)
                    &&& final(self).is_live(k as int, g as int)
                    &&& final(self).claimed_from(old(self), k as int, g as int)
                    &&& r matches Some(p) && p == b.slot_addr(g as int)
                    &&& b.base() <= b.slot_addr(g as int)
                    &&& b.slot_addr(g as int) + size <= b.storage_end()
                    &&& is_power_of_two(align as nat) ==> b.slot_addr(g as int) % (align as int)
                        == 0
                },
                None => forall|j: int|
                    0 <= j < final(self).buckets().len() ==> #[trigger] final(self).buckets()[j]@
                        == old(self).buckets()[j]@,
            },
    {
        let n = B;
        let mut k: usize = 0;
        while k < n
            invariant
                old(self).wf(),
                self.wf(),
                self.same_layout(old(self)),
                n == self.buckets@.len(),
                k <= n,
                forall|j: int|
                    0 <= j < n ==> #[trigger] self.buckets@[j]@ == old(self).buckets()[j]@,
                pick_from(old(self).buckets(), 0, size as nat, align as nat) == pick_from(
                    old(self).buckets(),
                    k as int,
                    size as nat,
                    align as nat,
                ),
            decreases n - k,
        {
            if self.buckets[k].accepts(size, align) {
                let ghost mid = self.buckets@;
                let r = self.buckets[k].claim_first_available_slot();
                proof {
                    assert(self.wf()) by {
                        assert forall|a: int, b: int|
                            0 <= a < b < n implies (#[trigger] self.buckets@[a]).storage_end()
                                <= (#[trigger] self.buckets@[b]).base() by {
                            assert(mid[a].storage_end() <= mid[b].base());
                        }
                    }
                }
                if r.is_some() {
                    proof {
                        let b = old(self).buckets()[k as int];
                        let g = first_free(b@);
                        assert(b.wf());
                        assert(mid[k as int].same_layout(&b));
                        assert(mid[k as int]@ == b@);
                        assert(g < b.capacity());
                        lemma_first_free(b@);
                        b.lemma_wf();
                        b.lemma_slot(g as int);
                        if is_power_of_two(align as nat) {
                            lemma_power_of_two_divides(align as nat, b.align());
                            crate::layout::lemma_multiple_transitive(
                                align as nat,
                                b.align(),
                                b.slot_addr(g as int) as nat,
                            );
                        }
                        assert(self.claimed_from(old(self), k as int, g as int));
                    }
                    return r;
                }
            }
            k = k + 1;
        }
        None
    }

    /// Releases the slot that holds address `p`. Every bucket checks whether
    /// `p` lies in one of its slots by address arithmetic; an address outside
    /// every bucket changes nothing.
    pub fn deallocate(&mut self, p: usize)
        requires
            old(self).wf(),
        ensures
            final(self).wf(),
            final(self).same_layout(old(self)),
            final(self).released_from(old(self), p as int),
    {
        let n = B;
        let mut k: usize = 0;
        while k < n
            invariant
                self.wf(),
                self.same_layout(old(self)),
                n == self.buckets@.len(),
                k <= n,
                forall|j: int|
                    k <= j < n ==> #[trigger] self.buckets@[j]@ == old(self).buckets()[j]@,
                forall|j: int|
                    0 <= j < k ==> #[trigger] self.buckets@[j]@ == match old(self).buckets()[j].slot_of(p as int) {
                        Some(g) => old(self).buckets()[j]@.update(g as int, false),
                        None => old(self).buckets()[j]@,
                    },
            decreases n - k,
        {
            let ghost before = self.buckets@;
            let ghost mid = self.buckets@[k as int];
            let ghost b0 = old(self).buckets()[k as int];
            assert(mid.slot_of(p as int) == b0.slot_of(p as int));
            let idx = self.buckets[k].slot_idx_for_ptr(p);
            match idx {
                Some(g) => {
                    proof {
                        self.buckets@[k as int].lemma_slot_of(p as int);
                        mid.lemma_wf();
                    }
                    self.buckets[k].unset_slot(g);
                    assert(b0.slot_of(p as int) == Some(g as nat));
                    assert(self.buckets@[k as int]@ == b0@.update(g as int, false));
                },
                None => {
                    assert(self.buckets@[k as int]@ == b0@);
                },
            }
            proof {
                assert forall|a: int, b: int|
                    0 <= a < b < n implies (#[trigger] self.buckets@[a]).storage_end()
                        <= (#[trigger] self.buckets@[b]).base() by {
                    assert(before[a].storage_end() <= before[b].base());
                }
                assert forall|j: int| 0 <= j < k implies #[trigger] self.buckets@[j]@ == match old(
                    self,
                ).buckets()[j].slot_of(p as int) {
                    Some(g) => old(self).buckets()[j]@.update(g as int, false),
                    None => old(self).buckets()[j]@,
                } by {
                    assert(self.buckets@[j] == before[j]);
                }
                assert forall|j: int| k < j < n implies #[trigger] self.buckets@[j]@ == old(
                    self,
                ).buckets()[j]@ by {
                    assert(self.buckets@[j] == before[j]);
                }
                assert(before[k as int].slot_of(p as int) == old(self).buckets()[k as int].slot_of(
                    p as int,
                ));
            }
            k = k + 1;
        }
    }
}

} // verus!
