use silly_alloc::aggregate::{region_size, BucketAllocator};
use silly_alloc::bucket::BucketImpl;
use silly_alloc::schema::BucketDescriptor;

const REGION_START: usize = 0x10000;
const REGION_LEN: usize = 1 << 20;

fn desc(slot_size: usize, num_slots: usize, align: usize) -> BucketDescriptor {
    BucketDescriptor { slot_size, num_slots, align }
}

fn my_bucket_allocator() -> BucketAllocator<3, 1> {
    let descs = vec![desc(2, 32, 2), desc(4, 32, 4), desc(8, 32, 8)];
    BucketAllocator::<3, 1>::with_region(&descs, REGION_START, REGION_LEN).unwrap()
}

fn next_in_bucket_case() {
    let mut b = my_bucket_allocator();
    let ptr1 = b.allocate(2, 1);
    let ptr2 = b.allocate(2, 1);
    assert!(ptr1.is_some());
    assert!(ptr2.is_some());
    assert_eq!(ptr1.unwrap() + 2, ptr2.unwrap());
}

fn reuse_case() {
    let mut b = my_bucket_allocator();
    let ptr1 = b.allocate(2, 1).unwrap();
    let ptr2 = b.allocate(2, 1).unwrap();
    let ptr3 = b.allocate(2, 1).unwrap();
    assert_eq!(ptr1 + 2, ptr2);
    assert_eq!(ptr2 + 2, ptr3);
    b.deallocate(ptr2);
    let ptr4 = b.allocate(2, 1).unwrap();
    assert_eq!(ptr2, ptr4);
}

fn bucket_overflow_case() {
    let mut b = my_bucket_allocator();
    for _ in 0..32 {
        b.allocate(2, 1);
    }
    let ptr1 = b.allocate(4, 1).unwrap();
    let ptr2 = b.allocate(2, 1).unwrap();
    assert_eq!(ptr1 + 4, ptr2);
}

#[test]
fn bucket_next_in_bucket() {
    next_in_bucket_case();
}

#[test]
fn bucket_reuse() {
    reuse_case();
}

#[test]
fn bucket_bucket_overflow() {
    bucket_overflow_case();
}

#[test]
fn mod_next_in_bucket() {
    next_in_bucket_case();
}

#[test]
fn mod_reuse() {
    reuse_case();
}

#[test]
fn mod_bucket_overflow() {
    bucket_overflow_case();
}

#[test]
fn alignment() {
    let mut b = my_bucket_allocator();
    let ptr1 = b.allocate(2, 8).unwrap();
    // The alignment forces the request into the last bucket despite its size.
    assert!(ptr1 >= b.bucket(2).base_address());
}

#[test]
fn alignment_fail() {
    let mut b = my_bucket_allocator();
    let ptr1 = b.allocate(2, 32);
    assert!(ptr1.is_none());
}

#[test]
fn first_alloc_in_late_bucket() {
    let layouts = vec![(2usize, 1usize), (8, 1)];
    for (size, align) in layouts {
        let mut b = my_bucket_allocator();
        let _ptr1 = b.allocate(size, align);
        let ptr2 = b.allocate(size, align).unwrap();
        let _ptr3 = b.allocate(size, align);
        b.deallocate(ptr2);
        let ptr4 = b.allocate(size, align).unwrap();
        assert_eq!(ptr2, ptr4);
    }
}

#[test]
fn test1() {
    let descs = vec![desc(4, 32, 4), desc(65536, 1024, 512)];
    let mut b = BucketAllocator::<2, 32>::with_region(&descs, 0x1000, 1 << 28).unwrap();
    let ptr1 = b.allocate(4, 4).unwrap();
    let ptr2 = b.allocate(4, 4).unwrap();
    b.deallocate(ptr1);
    let ptr3 = b.allocate(4, 4).unwrap();
    b.deallocate(ptr2);
    b.deallocate(ptr3);
    assert_eq!(ptr1, ptr3);
}

#[test]
fn scenario_bucket_reuse_with_alignment_one() {
    let descs = vec![desc(2, 32, 1)];
    let mut b = BucketAllocator::<1, 1>::with_region(&descs, REGION_START, REGION_LEN).unwrap();
    let p1 = b.allocate(2, 1).unwrap();
    let p2 = b.allocate(2, 1).unwrap();
    let p3 = b.allocate(2, 1).unwrap();
    assert_eq!(p1, REGION_START);
    assert_eq!(p2, p1 + 2);
    assert_eq!(p3, p2 + 2);
    b.deallocate(p2);
    assert_eq!(b.allocate(2, 1), Some(p2));
}

#[test]
fn scenario_overflow_cascade() {
    let descs = vec![desc(2, 32, 1), desc(4, 32, 1)];
    let mut b = BucketAllocator::<2, 1>::with_region(&descs, REGION_START, REGION_LEN).unwrap();
    let mut first = Vec::new();
    for _ in 0..32 {
        first.push(b.allocate(2, 1).unwrap());
    }
    let second_base = b.bucket(1).base_address();
    let q1 = b.allocate(2, 1).unwrap();
    let q2 = b.allocate(2, 1).unwrap();
    assert_eq!(q1, second_base);
    assert_eq!(q2, q1 + 4);
    assert!(first.iter().all(|p| *p < second_base));
}

#[test]
fn scenario_overflow_to_nothing() {
    let descs = vec![desc(2, 32, 1)];
    let mut b = BucketAllocator::<1, 1>::with_region(&descs, REGION_START, REGION_LEN).unwrap();
    for _ in 0..32 {
        assert!(b.allocate(2, 1).is_some());
    }
    assert_eq!(b.allocate(2, 1), None);
    assert_eq!(b.allocate(1, 1), None);
}

#[test]
fn scenario_alignment_dispatch() {
    let mut b = my_bucket_allocator();
    let third = b.bucket(2);
    let (lo, hi) = (third.base_address(), third.end_address());
    let p = b.allocate(2, 8).unwrap();
    assert!(lo <= p && p + 2 <= hi);
    assert_eq!(p % 8, 0);
    assert_eq!(b.allocate(2, 32), None);
}

#[test]
fn allocation_too_large_for_every_bucket() {
    let mut b = my_bucket_allocator();
    assert_eq!(b.allocate(9, 1), None);
}

#[test]
fn returned_addresses_are_aligned_and_inside_buckets() {
    let mut b = my_bucket_allocator();
    let requests = [(1usize, 1usize), (2, 2), (3, 4), (4, 4), (5, 8), (8, 8), (1, 2), (7, 1)];
    let mut live: Vec<(usize, usize)> = Vec::new();
    for (size, align) in requests {
        let p = b.allocate(size, align).unwrap();
        assert_eq!(p % align, 0);
        let inside = (0..3).any(|k| {
            let bk = b.bucket(k);
            bk.base_address() <= p && p + size <= bk.end_address()
        });
        assert!(inside);
        for (q, qs) in &live {
            assert!(p + size <= *q || q + qs <= p);
        }
        live.push((p, size));
    }
}

#[test]
fn deallocate_outside_every_bucket_changes_nothing() {
    let mut b = my_bucket_allocator();
    let p1 = b.allocate(2, 1).unwrap();
    b.deallocate(1);
    b.deallocate(REGION_START + REGION_LEN);
    let p2 = b.allocate(2, 1).unwrap();
    assert_eq!(p2, p1 + 2);
}

#[test]
fn region_too_small_is_rejected() {
    let descs = vec![desc(2, 32, 2), desc(4, 32, 4)];
    assert!(BucketAllocator::<2, 1>::with_region(&descs, REGION_START, 100).is_none());
    // 68 bytes for the first bucket, 132 for the second.
    assert_eq!(region_size(&descs, REGION_START), Some(200));
    assert!(BucketAllocator::<2, 1>::with_region(&descs, REGION_START, 200).is_some());
    assert!(BucketAllocator::<2, 1>::with_region(&descs, REGION_START, 199).is_none());
}

#[test]
fn with_region_places_buckets_in_order() {
    let descs = vec![desc(3, 40, 1), desc(8, 1, 16)];
    assert_eq!(region_size(&descs, 0x1001), Some(0x10d0 + 528 - 0x1001));
    let b = BucketAllocator::<2, 2>::with_region(&descs, 0x1001, 4096).unwrap();
    let b0 = b.bucket(0);
    let b1 = b.bucket(1);
    // 2 segments of 32 * 3 + 4 = 100 bytes.
    assert_eq!(b0.base_address(), 0x1001);
    assert_eq!(b0.end_address(), 0x1001 + 200);
    // Next multiple of 16, one segment of 32 * 16 + 16 = 528 bytes.
    assert_eq!(b1.base_address(), 0x10d0);
    assert_eq!(b1.end_address(), 0x10d0 + 528);
}

#[test]
fn bucket_slot_index_round_trip() {
    let bucket = BucketImpl::<2>::new(6, 4, 2, 0x2000);
    // Slot stride 8, segment stride 32 * 8 + 4 rounded to 4 = 260.
    assert_eq!(bucket.get_slot(0), 0x2000);
    assert_eq!(bucket.get_slot(1), 0x2008);
    assert_eq!(bucket.get_slot(33), 0x2000 + 260 + 8);
    assert_eq!(bucket.slot_idx_for_ptr(0x2000 + 260 + 8), Some(33));
    assert_eq!(bucket.slot_idx_for_ptr(0x2000 + 260 + 11), Some(33));
    assert_eq!(bucket.slot_idx_for_ptr(0x1fff), None);
    // The header bytes after the 32 slots of a segment belong to no slot.
    assert_eq!(bucket.slot_idx_for_ptr(0x2000 + 256), None);
    assert_eq!(bucket.slot_idx_for_ptr(0x2000 + 520), None);
}

#[test]
fn bucket_claims_lowest_free_slot() {
    let mut bucket = BucketImpl::<2>::new(4, 4, 2, 0x4000);
    for g in 0..40 {
        bucket.set_slot(g);
    }
    bucket.unset_slot(35);
    bucket.unset_slot(7);
    assert_eq!(bucket.claim_first_available_slot(), Some(bucket.get_slot(7)));
    assert_eq!(bucket.claim_first_available_slot(), Some(bucket.get_slot(35)));
    assert_eq!(bucket.claim_first_available_slot(), Some(bucket.get_slot(40)));
}

#[test]
fn full_bucket_claims_nothing() {
    let mut bucket = BucketImpl::<1>::new(1, 1, 1, 0x100);
    for _ in 0..32 {
        assert!(bucket.claim_first_available_slot().is_some());
    }
    assert_eq!(bucket.claim_first_available_slot(), None);
}

#[test]
fn descriptors_must_match_the_capacity() {
    let descs = vec![desc(2, 64, 2)];
    // Two segments are needed: one header slot is not enough.
    assert!(BucketAllocator::<1, 1>::with_region(&descs, REGION_START, REGION_LEN).is_none());
    assert!(BucketAllocator::<1, 2>::with_region(&descs, REGION_START, REGION_LEN).is_some());
    // The bucket count must match too.
    assert!(BucketAllocator::<2, 2>::with_region(&descs, REGION_START, REGION_LEN).is_none());
}

#[test]
fn freeing_a_slot_address_frees_that_slot() {
    let mut b = my_bucket_allocator();
    let p = b.allocate(4, 4).unwrap();
    let q = b.allocate(4, 4).unwrap();
    b.deallocate(p + 1);
    assert_eq!(b.allocate(4, 4), Some(p));
    assert_eq!(b.allocate(4, 4), Some(q + 4));
}
