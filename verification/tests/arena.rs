use guest_abi::arena::allocate;
use guest_abi::arena::free;
use guest_abi::arena::leak_bytes;
use guest_abi::arena::read_bytes;
use guest_abi::arena::write_bytes;
use guest_abi::arena::Arena;

#[test]
fn allocate_rejects_non_positive_lengths() {
    let mut arena = Arena::new();
    assert_eq!(allocate(&mut arena, 0), 0);
    assert_eq!(allocate(&mut arena, -1), 0);
    assert_eq!(allocate(&mut arena, i32::MIN), 0);
}

#[test]
fn allocate_returns_zeroed_block() {
    let mut arena = Arena::new();
    let ptr = allocate(&mut arena, 4);
    assert!(ptr > 0);
    assert_eq!(read_bytes(&arena, ptr, 4), vec![0u8, 0, 0, 0]);
}

#[test]
fn allocate_hands_out_distinct_pointers() {
    let mut arena = Arena::new();
    let a = allocate(&mut arena, 1);
    let b = allocate(&mut arena, 1);
    assert!(a > 0 && b > 0);
    assert_ne!(a, b);
}

#[test]
fn leak_of_empty_buffer_is_null() {
    let mut arena = Arena::new();
    assert_eq!(leak_bytes(&mut arena, Vec::new()), (0, 0));
}

#[test]
fn leak_then_read_round_trips_bytes() {
    let mut arena = Arena::new();
    let bytes = vec![1u8, 2, 3, 255];
    let (ptr, len) = leak_bytes(&mut arena, bytes.clone());
    assert!(ptr > 0);
    assert_eq!(len, 4);
    assert_eq!(read_bytes(&arena, ptr, len), bytes);
}

#[test]
fn release_of_null_or_empty_is_a_no_op() {
    let mut arena = Arena::new();
    let (ptr, len) = leak_bytes(&mut arena, vec![9u8]);
    free(&mut arena, 0, 5);
    free(&mut arena, 7, 0);
    free(&mut arena, 0, 0);
    free(&mut arena, -3, -3);
    // the live block is untouched by the no-ops
    assert_eq!(read_bytes(&arena, ptr, len), vec![9u8]);
}

#[test]
fn read_of_null_or_empty_is_no_data() {
    let arena = Arena::new();
    assert_eq!(read_bytes(&arena, 0, 12), Vec::<u8>::new());
    assert_eq!(read_bytes(&arena, 5, 0), Vec::<u8>::new());
}

#[test]
fn allocate_then_free_reclaims() {
    let mut arena = Arena::new();
    let ptr = allocate(&mut arena, 8);
    free(&mut arena, ptr, 8);
    // a later allocation still works and gets its own pointer
    let other = allocate(&mut arena, 2);
    assert!(other > 0);
    assert_ne!(other, ptr);
}

#[test]
fn host_writes_fill_an_allocation() {
    let mut arena = Arena::new();
    let ptr = allocate(&mut arena, 3);
    write_bytes(&mut arena, ptr, b"abc");
    assert_eq!(read_bytes(&arena, ptr, 3), b"abc".to_vec());
    // a second write replaces the content outright
    write_bytes(&mut arena, ptr, b"xyz");
    assert_eq!(read_bytes(&arena, ptr, 3), b"xyz".to_vec());
}
