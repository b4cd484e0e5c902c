//! The raw byte arena: byte identity, growth, non-overlap, and the growth
//! policy itself.

use dynamic_arena::bytes::{grow_capacity, ByteArena, Region, MIN_CHUNK_CAPACITY};

fn overlap(a: Region, b: Region) -> bool {
    a.chunk == b.chunk && a.offset < b.offset + b.len && b.offset < a.offset + a.len
}

#[test]
fn copied_bytes_are_identical() {
    let mut arena = ByteArena::new();
    let source: Vec<u8> = (0..200u8).collect();
    let r = arena.alloc_copied(&source);
    assert_eq!(r.len, source.len());
    assert_eq!(arena.read_region(r), source);
}

#[test]
fn zeroed_bytes_are_zero() {
    let mut arena = ByteArena::new();
    let r = arena.alloc_zeroed(100);
    assert_eq!(r.len, 100);
    assert_eq!(arena.read_region(r), vec![0u8; 100]);
}

#[test]
fn uninitialized_has_requested_size() {
    let mut arena = ByteArena::with_capacity(64);
    let r = arena.alloc_uninitialized(33);
    assert_eq!(r.len, 33);
    assert_eq!(arena.num_chunks(), 1);
}

#[test]
fn growth_preserves_prior_allocations() {
    let mut arena = ByteArena::with_capacity(16);
    let first = arena.alloc_copied(&[7u8; 10]);
    assert_eq!(arena.num_chunks(), 1);
    assert_eq!(arena.remaining(), 6);
    // More than the 6 bytes still free: a fresh chunk must be acquired.
    let second = arena.alloc_copied(&[9u8; 20]);
    assert_eq!(arena.num_chunks(), 2);
    assert_eq!(second.len, 20);
    assert_eq!(arena.read_region(second), vec![9u8; 20]);
    // The old region is still there, unchanged, and apart from the new one.
    assert_eq!(arena.read_region(first), vec![7u8; 10]);
    assert!(!overlap(first, second));
}

#[test]
fn allocations_never_overlap() {
    let mut arena = ByteArena::with_capacity(32);
    let mut regions = Vec::new();
    for i in 0..40usize {
        // Lengths that straddle several growth events.
        regions.push(arena.alloc_copied(&vec![i as u8; 3 * i + 1]));
    }
    for i in 0..regions.len() {
        for j in 0..regions.len() {
            if i != j {
                assert!(!overlap(regions[i], regions[j]));
            }
        }
    }
    // Each region still reads back as what was written into it.
    for (i, r) in regions.iter().enumerate() {
        assert_eq!(arena.read_region(*r), vec![i as u8; 3 * i + 1]);
    }
}

#[test]
fn zero_length_allocation_is_valid() {
    let mut arena = ByteArena::new();
    let r = arena.alloc_copied(&[]);
    assert_eq!(r.len, 0);
    assert_eq!(arena.read_region(r), Vec::<u8>::new());
}

#[test]
fn aligned_allocations_land_on_multiples() {
    let mut arena = ByteArena::with_capacity(256);
    let _odd = arena.alloc_copied(&[1u8, 2, 3]);
    let a8 = arena.alloc_aligned(16, 8);
    assert_eq!(a8.offset % 8, 0);
    assert_eq!(a8.len, 16);
    let _odd2 = arena.alloc_copied(&[4u8]);
    let a64 = arena.alloc_aligned(10, 64);
    assert_eq!(a64.offset % 64, 0);
    assert_eq!(a64.len, 10);
}

#[test]
fn growth_policy_rounds_to_powers_of_two() {
    assert_eq!(grow_capacity(0), Some(MIN_CHUNK_CAPACITY));
    assert_eq!(grow_capacity(1), Some(4096));
    assert_eq!(grow_capacity(4096), Some(4096));
    assert_eq!(grow_capacity(4097), Some(8192));
    assert_eq!(grow_capacity(5000), Some(8192));
    assert_eq!(grow_capacity(100_000), Some(131_072));
}

#[test]
fn unrepresentable_request_is_refused() {
    // No power of two a machine word can hold reaches these amounts: the
    // policy refuses instead of handing back a wrong-sized capacity.
    assert_eq!(grow_capacity(usize::MAX), None);
    assert_eq!(grow_capacity(usize::MAX / 2 + 2), None);
    assert_eq!(grow_capacity(usize::MAX / 2 + 1), Some(usize::MAX / 2 + 1));
}

#[test]
fn with_capacity_presizes_one_chunk() {
    let arena = ByteArena::with_capacity(1000);
    assert_eq!(arena.num_chunks(), 1);
    assert_eq!(arena.remaining(), 1000);
}

#[test]
fn read_byte_reads_through_the_region() {
    let mut arena = ByteArena::new();
    let r = arena.alloc_copied(&[10u8, 20, 30]);
    assert_eq!(arena.read_byte(r, 0), 10);
    assert_eq!(arena.read_byte(r, 1), 20);
    assert_eq!(arena.read_byte(r, 2), 30);
}
