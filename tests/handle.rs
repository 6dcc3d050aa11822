use arc::{Arc, Heap};

#[test]
fn create() {
    let mut heap = Heap::new();
    Arc::new(&mut heap, 0);
}

#[test]
fn clone() {
    let mut heap = Heap::new();
    let rc = Arc::new(&mut heap, 0);
    rc.clone(&mut heap).drop(&mut heap);
    rc.drop(&mut heap);
}

#[test]
fn load_payload() {
    let mut heap = Heap::new();
    let rc = Arc::new(&mut heap, 42);
    assert_eq!(*rc.deref(&heap), 42);
}

#[test]
fn lib_create() {
    let mut heap = Heap::new();
    Arc::new(&mut heap, ());
}

#[test]
fn lib_clone() {
    let mut heap = Heap::new();
    let rc = Arc::new(&mut heap, ());
    rc.clone(&mut heap).drop(&mut heap);
    rc.drop(&mut heap);
}

#[test]
#[allow(clippy::unit_cmp)]
fn lib_load_payload() {
    let mut heap = Heap::new();
    let rc = Arc::new(&mut heap, ());
    assert_eq!(*rc.deref(&heap), ());
}

#[test]
fn three_handles_free_the_block_after_the_last_drop() {
    let mut heap = Heap::new();
    let h0 = Arc::new(&mut heap, 42);
    let h1 = h0.clone(&mut heap);
    let h2 = h1.clone(&mut heap);
    h0.drop(&mut heap);
    assert_eq!(heap.deallocations(), 0);
    h1.drop(&mut heap);
    assert_eq!(heap.deallocations(), 0);
    assert_eq!(*h2.deref(&heap), 42);
    h2.drop(&mut heap);
    assert_eq!(heap.allocations(), 1);
    assert_eq!(heap.deallocations(), 1);
}

#[test]
#[allow(clippy::unit_cmp)]
fn zero_sized_handles_never_allocate() {
    let mut heap = Heap::new();
    let h0 = Arc::new(&mut heap, ());
    let h1 = h0.clone(&mut heap);
    assert_eq!(*h0.deref(&heap), ());
    assert_eq!(*h1.deref(&heap), ());
    h0.drop(&mut heap);
    h1.drop(&mut heap);
    assert_eq!(heap.allocations(), 0);
    assert_eq!(heap.deallocations(), 0);
}

#[test]
fn dropping_a_clone_keeps_the_original() {
    let mut heap = Heap::new();
    let h = Arc::new(&mut heap, String::from("payload"));
    h.clone(&mut heap).drop(&mut heap);
    assert_eq!(h.deref(&heap).as_str(), "payload");
    assert_eq!(heap.deallocations(), 0);
}

#[test]
fn interleaved_clones_and_drops_free_once_at_the_end() {
    let mut heap = Heap::new();
    let a = Arc::new(&mut heap, 7u64);
    let b = a.clone(&mut heap);
    a.drop(&mut heap);
    let c = b.clone(&mut heap);
    let d = c.clone(&mut heap);
    b.drop(&mut heap);
    c.drop(&mut heap);
    assert_eq!(heap.deallocations(), 0);
    assert_eq!(*d.deref(&heap), 7);
    d.drop(&mut heap);
    assert_eq!(heap.deallocations(), 1);
}

#[test]
fn blocks_are_distinct_per_value() {
    let mut heap = Heap::new();
    let a = Arc::new(&mut heap, 1);
    let b = Arc::new(&mut heap, 2);
    assert_eq!(heap.allocations(), 2);
    a.drop(&mut heap);
    assert_eq!(heap.deallocations(), 1);
    assert_eq!(*b.deref(&heap), 2);
    b.drop(&mut heap);
    assert_eq!(heap.deallocations(), 2);
}

#[test]
fn zero_sized_is_told_apart() {
    assert!(Arc::<()>::is_zero_sized());
    assert!(!Arc::<u8>::is_zero_sized());
}

#[test]
fn block_layout_holds_count_and_payload() {
    let layout = Arc::<u64>::block_layout();
    assert_eq!(layout.size, 2 * std::mem::size_of::<usize>().max(8));
    assert_eq!(layout.align, std::mem::align_of::<usize>().max(std::mem::align_of::<u64>()));
}
