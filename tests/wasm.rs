use silly_alloc::arena::BumpAllocatorArena;
use silly_alloc::wasm::{
    ThreadsafeWasmBumpAllocator, WasmAllocStep, WasmBumpAllocator, WasmMemoryArena, GROW_FAILED,
    PAGE_SIZE,
};

const HEAP_BASE: usize = 1024;

#[test]
fn test_page_growth() {
    let mut allocator = WasmBumpAllocator::with_memory(HEAP_BASE, 1).unwrap();
    let num_pages_start = allocator.arena().pages();
    let size = allocator.arena().size();
    // Something is already allocated when the program asks for this much.
    assert!(matches!(allocator.allocate_step(1, 1), WasmAllocStep::Allocated(_)));
    let p = match allocator.allocate_step(size, 1) {
        WasmAllocStep::Grow(pages) => allocator.finish_growth(size, 1, pages, num_pages_start),
        other => panic!("expected growth, got {:?}", other),
    };
    assert!(p.is_some());
    let num_pages_end = allocator.arena().pages();
    assert!(num_pages_end > num_pages_start);
}

#[test]
fn test_page_growth_threaded() {
    let mut allocator = ThreadsafeWasmBumpAllocator::with_memory(HEAP_BASE, 1).unwrap();
    let num_pages_start = allocator.arena().pages();
    let size = allocator.arena().size();
    assert!(matches!(allocator.allocate_step(1, 1), WasmAllocStep::Allocated(_)));
    let p = match allocator.allocate_step(size, 1) {
        WasmAllocStep::Grow(pages) => allocator.finish_growth(size, 1, pages, num_pages_start),
        other => panic!("expected growth, got {:?}", other),
    };
    assert!(p.is_some());
    let num_pages_end = allocator.arena().pages();
    assert!(num_pages_end > num_pages_start);
}

#[test]
fn refused_growth_returns_nothing_and_keeps_pages() {
    let mut allocator = WasmBumpAllocator::with_memory(HEAP_BASE, 2).unwrap();
    let size = allocator.arena().size();
    let step = allocator.allocate_step(size + 1, 1);
    assert_eq!(step, WasmAllocStep::Grow(1));
    assert_eq!(allocator.finish_growth(size + 1, 1, 1, GROW_FAILED), None);
    assert_eq!(allocator.arena().pages(), 2);
    // The head did not move: the whole arena is still there.
    assert_eq!(allocator.allocate_step(size, 1), WasmAllocStep::Allocated(HEAP_BASE));
}

#[test]
fn growth_rounds_up_to_whole_pages() {
    let arena = WasmMemoryArena::new(HEAP_BASE, 1).unwrap();
    assert_eq!(arena.size(), PAGE_SIZE - HEAP_BASE);
    assert_eq!(arena.pages_to_grow(PAGE_SIZE - HEAP_BASE), Some(0));
    assert_eq!(arena.pages_to_grow(PAGE_SIZE - HEAP_BASE + 1), Some(1));
    assert_eq!(arena.pages_to_grow(2 * PAGE_SIZE - HEAP_BASE), Some(1));
    assert_eq!(arena.pages_to_grow(2 * PAGE_SIZE - HEAP_BASE + 1), Some(2));
    assert_eq!(arena.pages_to_grow(usize::MAX), None);
}

#[test]
fn grown_records_the_host_answer() {
    let mut arena = WasmMemoryArena::new(HEAP_BASE, 3).unwrap();
    assert!(arena.grown(2, GROW_FAILED).is_err());
    assert_eq!(arena.pages(), 3);
    assert_eq!(arena.grown(2, 3), Ok(5 * PAGE_SIZE - HEAP_BASE));
    assert_eq!(arena.pages(), 5);
    // An answer that would shrink the memory is not believed.
    assert!(arena.grown(1, 1).is_err());
    assert_eq!(arena.pages(), 5);
}

#[test]
fn arena_descriptions_are_checked() {
    assert!(WasmMemoryArena::new(PAGE_SIZE + 1, 1).is_none());
    assert!(WasmMemoryArena::new(PAGE_SIZE, 1).is_some());
    assert!(WasmMemoryArena::new(0, usize::MAX).is_none());
    assert!(WasmBumpAllocator::with_memory(0, 0).is_some());
}

#[test]
fn request_past_the_address_space_is_out_of_memory() {
    let mut allocator = WasmBumpAllocator::with_memory(HEAP_BASE, 1).unwrap();
    assert_eq!(allocator.allocate_step(usize::MAX, 1), WasmAllocStep::OutOfMemory);
}

#[test]
fn arena_grows_from_an_empty_memory() {
    let mut allocator = WasmBumpAllocator::with_memory(0, 0).unwrap();
    let step = allocator.allocate_step(3 * PAGE_SIZE, 8);
    assert_eq!(step, WasmAllocStep::Grow(3));
    assert_eq!(allocator.finish_growth(3 * PAGE_SIZE, 8, 3, 0), Some(0));
    assert_eq!(allocator.arena().pages(), 3);
    assert_eq!(allocator.allocate_step(1, 1), WasmAllocStep::Grow(1));
}
