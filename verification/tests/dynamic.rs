//! The dynamic arena: record bookkeeping, teardown order, capability tags.

use dynamic_arena::{DtorRecord, DynamicArena, DynamicSendArena, NonSend, SendAbility, Sendable};

#[test]
fn teardown_surrenders_records_in_insertion_order() {
    let mut arena = DynamicArena::new_bounded();
    // Item A, then item B, each with its own cleanup routine.
    let a = arena.alloc_value(b"item a", Some(10));
    let b = arena.alloc_value(b"item b", Some(20));
    let records = arena.teardown();
    assert_eq!(records.len(), 2);
    // A's record precedes B's: its destructor runs first.
    assert_eq!(records[0], DtorRecord { dtor: 10, value: a });
    assert_eq!(records[1], DtorRecord { dtor: 20, value: b });
}

#[test]
fn records_are_surrendered_exactly_once_each() {
    let mut arena = DynamicArena::new_bounded();
    for i in 0..100usize {
        arena.alloc_value(&[i as u8], Some(i));
    }
    let records = arena.teardown();
    assert_eq!(records.len(), 100);
    for (i, record) in records.iter().enumerate() {
        assert_eq!(record.dtor, i);
    }
}

#[test]
fn copy_only_path_registers_no_cleanup() {
    let mut arena = DynamicArena::new();
    for i in 0..50u8 {
        arena.alloc_copy(&[i]);
    }
    assert_eq!(arena.teardown().len(), 0);
}

#[test]
fn unchecked_allocation_leaks_cleanup() {
    let mut arena = DynamicArena::new_bounded();
    let r = arena.alloc_unchecked(b"leaked");
    assert_eq!(arena.read(r), b"leaked".to_vec());
    assert_eq!(arena.teardown().len(), 0);
}

#[test]
fn dynamic_drop_is_a_noop_without_cleanup() {
    let mut arena = DynamicArena::new_bounded();
    let r = arena.alloc_unchecked(b"plain");
    arena.dynamic_drop(r, None);
    assert_eq!(arena.teardown().len(), 0);
}

#[test]
fn dynamic_drop_registers_cleanup_once() {
    let mut arena = DynamicArena::new_bounded();
    let r = arena.alloc_unchecked(b"needs cleanup");
    arena.dynamic_drop(r, Some(7));
    let records = arena.teardown();
    assert_eq!(records.len(), 1);
    assert_eq!(records[0], DtorRecord { dtor: 7, value: r });
}

#[test]
fn stored_values_survive_later_allocations() {
    let mut arena: DynamicArena<NonSend> = DynamicArena::with_capacity(4, 8);
    let first = arena.alloc_value(b"first", Some(1));
    // Far more than the 8 pre-sized bytes: growth happens underneath.
    let mut later = Vec::new();
    for i in 0..100u32 {
        later.push(arena.alloc_copy(&i.to_le_bytes()));
    }
    assert_eq!(arena.read(first), b"first".to_vec());
    for (i, r) in later.iter().enumerate() {
        assert_eq!(arena.read(*r), (i as u32).to_le_bytes().to_vec());
    }
}

#[test]
fn alloc_layout_respects_alignment() {
    let mut arena = DynamicArena::new_bounded();
    let _skew = arena.alloc_copy(&[1u8, 2, 3, 4, 5]);
    let r = arena.alloc_layout(24, 16);
    assert_eq!(r.len, 24);
    assert_eq!(r.offset % 16, 0);
    assert_eq!(arena.teardown().len(), 0);
}

#[test]
fn with_capacity_presizes_the_byte_supply() {
    let arena: DynamicArena<NonSend> = DynamicArena::with_capacity(10, 512);
    assert_eq!(arena.as_byte_arena().remaining(), 512);
}

#[test]
fn sendable_arena_allocates_like_a_confined_one() {
    let mut arena: DynamicSendArena = DynamicArena::new_send();
    let r = arena.alloc_value(b"send me", Some(3));
    assert_eq!(arena.read(r), b"send me".to_vec());
    let records = arena.teardown();
    assert_eq!(records.len(), 1);
}

#[test]
fn default_arenas_start_empty() {
    let confined: DynamicArena<NonSend> = Default::default();
    assert_eq!(confined.as_byte_arena().num_chunks(), 0);
    let transferable: DynamicArena<Sendable> = Sendable::create_arena();
    assert_eq!(transferable.as_byte_arena().num_chunks(), 0);
    let bounded: DynamicArena<NonSend> = NonSend::create_arena();
    assert_eq!(bounded.teardown().len(), 0);
    drop(confined);
    drop(transferable);
}

#[test]
fn mixed_allocations_do_not_disturb_each_other() {
    let mut arena = DynamicArena::new_bounded();
    let counted = arena.alloc_value(b"counted", Some(99));
    let copied = arena.alloc_copy(b"copied");
    let leaked = arena.alloc_unchecked(b"leaked");
    assert_eq!(arena.read(counted), b"counted".to_vec());
    assert_eq!(arena.read(copied), b"copied".to_vec());
    assert_eq!(arena.read(leaked), b"leaked".to_vec());
    let records = arena.teardown();
    assert_eq!(records.len(), 1);
    assert_eq!(records[0].dtor, 99);
}
