use silly_alloc::aggregate::{region_size, BucketAllocator};
use silly_alloc::layout::{is_power_of_two_exec, round_up_checked};
use silly_alloc::schema::{
    sort_buckets, Align, Bucket, BucketDescriptor, NumSlots, SchemaError, SchemaParam, SlotSize,
};

fn param(name: &str, value: Option<usize>) -> SchemaParam {
    SchemaParam { name: name.to_string(), value }
}

#[test]
fn full_declaration_is_read() {
    let params = vec![param("SlotSize", Some(2)), param("NumSlots", Some(128)), param("Align", Some(2))];
    let d = BucketDescriptor::from_params("Bucket", &params).unwrap();
    assert_eq!(d, BucketDescriptor { slot_size: 2, num_slots: 128, align: 2 });
    assert_eq!(d.num_segments(), 4);
}

#[test]
fn align_defaults_to_one_and_order_does_not_matter() {
    let params = vec![param("NumSlots", Some(33)), param("SlotSize", Some(64))];
    let d = BucketDescriptor::from_params("Bucket", &params).unwrap();
    assert_eq!(d, BucketDescriptor { slot_size: 64, num_slots: 33, align: 1 });
    assert_eq!(d.num_segments(), 2);
}

#[test]
fn repeated_parameter_is_rejected() {
    let params = vec![param("SlotSize", Some(2)), param("NumSlots", Some(1)), param("SlotSize", Some(8))];
    assert_eq!(BucketDescriptor::from_params("Bucket", &params), Err(SchemaError::DuplicateParameter));
    let reversed = vec![param("SlotSize", Some(8)), param("NumSlots", Some(1)), param("SlotSize", Some(2))];
    assert_eq!(BucketDescriptor::from_params("Bucket", &reversed), Err(SchemaError::DuplicateParameter));
    let align_twice = vec![param("Align", Some(2)), param("SlotSize", Some(8)), param("Align", Some(2))];
    assert_eq!(BucketDescriptor::from_params("Bucket", &align_twice), Err(SchemaError::DuplicateParameter));
}

#[test]
fn parameter_order_does_not_matter() {
    let a = vec![param("SlotSize", Some(4)), param("NumSlots", Some(64)), param("Align", Some(4))];
    let b = vec![param("Align", Some(4)), param("SlotSize", Some(4)), param("NumSlots", Some(64))];
    assert_eq!(BucketDescriptor::from_params("Bucket", &a), BucketDescriptor::from_params("Bucket", &b));
}

#[test]
fn segment_count_rounds_up() {
    let counts = [(0usize, 0usize), (1, 1), (31, 1), (32, 1), (33, 2), (64, 2), (65, 3)];
    for (num_slots, segments) in counts {
        let d = BucketDescriptor { slot_size: 1, num_slots, align: 1 };
        assert_eq!(d.num_segments(), segments);
    }
}

#[test]
fn schema_errors() {
    let ok = vec![param("SlotSize", Some(2)), param("NumSlots", Some(32))];
    assert_eq!(BucketDescriptor::from_params("Bin", &ok), Err(SchemaError::NotABucket));
    let unknown = vec![param("SlotSize", Some(2)), param("Slots", Some(32))];
    assert_eq!(BucketDescriptor::from_params("Bucket", &unknown), Err(SchemaError::UnknownParameter));
    let not_int = vec![param("SlotSize", None), param("Slots", Some(32))];
    assert_eq!(BucketDescriptor::from_params("Bucket", &not_int), Err(SchemaError::NotAnInteger));
    let no_size = vec![param("NumSlots", Some(32))];
    assert_eq!(BucketDescriptor::from_params("Bucket", &no_size), Err(SchemaError::MissingSlotSize));
    let no_count = vec![param("SlotSize", Some(4)), param("Align", Some(4))];
    assert_eq!(BucketDescriptor::from_params("Bucket", &no_count), Err(SchemaError::MissingNumSlots));
    let zero = vec![param("SlotSize", Some(0)), param("NumSlots", Some(32))];
    assert_eq!(BucketDescriptor::from_params("Bucket", &zero), Err(SchemaError::ZeroSlotSize));
    let bad_align = vec![param("SlotSize", Some(4)), param("NumSlots", Some(32)), param("Align", Some(3))];
    assert_eq!(BucketDescriptor::from_params("Bucket", &bad_align), Err(SchemaError::AlignNotPowerOfTwo));
}

#[test]
fn sorting_orders_by_size_then_alignment() {
    let mut descs = vec![
        BucketDescriptor { slot_size: 8, num_slots: 32, align: 8 },
        BucketDescriptor { slot_size: 2, num_slots: 32, align: 8 },
        BucketDescriptor { slot_size: 2, num_slots: 16, align: 2 },
        BucketDescriptor { slot_size: 64, num_slots: 1, align: 1 },
    ];
    sort_buckets(&mut descs);
    let keys: Vec<(usize, usize)> = descs.iter().map(|d| (d.slot_size, d.align)).collect();
    assert_eq!(keys, vec![(2, 2), (2, 8), (8, 8), (64, 1)]);
    assert_eq!(descs[0].num_slots, 16);
}

#[test]
fn sorted_buckets_serve_the_smallest_fit() {
    let mut descs = vec![
        BucketDescriptor { slot_size: 8, num_slots: 32, align: 8 },
        BucketDescriptor { slot_size: 2, num_slots: 32, align: 8 },
    ];
    sort_buckets(&mut descs);
    let mut b = BucketAllocator::<2, 1>::with_region(&descs, 0x8000, 1 << 16).unwrap();
    let p1 = b.allocate(2, 2).unwrap();
    let p2 = b.allocate(8, 8).unwrap();
    assert_eq!(p1, b.bucket(0).base_address());
    assert_eq!(p2, b.bucket(1).base_address());
}

#[test]
fn invalid_descriptor_cannot_be_laid_out() {
    let descs = vec![BucketDescriptor { slot_size: 4, num_slots: 32, align: 3 }];
    assert!(BucketAllocator::<1, 1>::with_region(&descs, 0x8000, 1 << 16).is_none());
    assert_eq!(region_size(&descs, 0x8000), None);
}

#[test]
fn powers_of_two_and_rounding() {
    assert!(is_power_of_two_exec(1));
    assert!(is_power_of_two_exec(512));
    assert!(!is_power_of_two_exec(0));
    assert!(!is_power_of_two_exec(12));
    assert_eq!(round_up_checked(13, 8), Some(16));
    assert_eq!(round_up_checked(16, 8), Some(16));
    assert_eq!(round_up_checked(usize::MAX, 2), None);
}

#[test]
fn bucket_type_gives_its_descriptor() {
    assert_eq!(
        Bucket::<SlotSize<2>, NumSlots<128>, Align<2>>::descriptor(),
        Ok(BucketDescriptor { slot_size: 2, num_slots: 128, align: 2 })
    );
    assert_eq!(
        Bucket::<SlotSize<64>, NumSlots<64>, Align<1>>::descriptor(),
        Ok(BucketDescriptor { slot_size: 64, num_slots: 64, align: 1 })
    );
    assert_eq!(Bucket::<SlotSize<0>, NumSlots<64>, Align<1>>::descriptor(), Err(SchemaError::ZeroSlotSize));
    assert_eq!(Bucket::<SlotSize<4>, NumSlots<64>, Align<6>>::descriptor(), Err(SchemaError::AlignNotPowerOfTwo));
}
