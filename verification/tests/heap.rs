use um_jit::loader::parse_codex;
use um_jit::memory::{Arrays, Memory};

#[test]
fn fresh_ids_are_dense() {
    let mut arrays = Arrays::new();
    assert_eq!(arrays.insert(vec![0]), 0);
    assert_eq!(arrays.insert(vec![1, 2]), 1);
    assert_eq!(arrays.insert(vec![]), 2);
    assert_eq!(arrays.slot_count(), 3);
}

#[test]
fn freed_ids_are_reused_smallest_first() {
    let mut arrays = Arrays::new();
    for i in 0..5u32 {
        arrays.insert(vec![i]);
    }
    arrays.remove(2);
    arrays.remove(4);
    arrays.remove(1);
    assert_eq!(arrays.insert(vec![7]), 1);
    assert_eq!(arrays.insert(vec![8]), 2);
    assert_eq!(arrays.insert(vec![9]), 4);
    // Only after every freed id is used up is a fresh one minted.
    assert_eq!(arrays.insert(vec![10]), 5);
}

#[test]
fn alloc_free_cycle_keeps_ids_small() {
    let mut arrays = Arrays::new();
    arrays.insert(vec![0, 0, 0]);
    for _ in 0..1000 {
        let id = arrays.insert(vec![0]);
        assert_eq!(id, 1);
        arrays.remove(id);
    }
    assert_eq!(arrays.slot_count(), 2);
}

#[test]
fn clone_into_zero_copies_and_is_idempotent() {
    let mut arrays = Arrays::new();
    arrays.insert(vec![1, 2, 3]);
    arrays.insert(vec![9, 8]);
    arrays.dup0(1);
    assert_eq!(arrays.array_len(0), 2);
    assert_eq!(arrays.get(0, 0), 9);
    assert_eq!(arrays.get(0, 1), 8);
    // A second copy changes nothing further.
    arrays.dup0(1);
    assert_eq!(arrays.array_len(0), 2);
    assert_eq!(arrays.get(0, 0), 9);
    assert_eq!(arrays.get(0, 1), 8);
}

#[test]
fn clone_into_zero_of_zero_is_a_noop() {
    let mut arrays = Arrays::new();
    arrays.insert(vec![4, 5]);
    arrays.dup0(0);
    assert_eq!(arrays.array_len(0), 2);
    assert_eq!(arrays.get(0, 0), 4);
    assert_eq!(arrays.get(0, 1), 5);
}

#[test]
fn writes_land_in_the_right_slot() {
    let mut arrays = Arrays::new();
    arrays.insert(vec![0, 0]);
    arrays.insert(vec![0, 0, 0]);
    arrays.set_word(1, 2, 77);
    arrays.set_word(0, 0, 11);
    assert_eq!(arrays.get(1, 2), 77);
    assert_eq!(arrays.get(1, 0), 0);
    assert_eq!(arrays.get(0, 0), 11);
    assert!(arrays.is_live(1));
    arrays.remove(1);
    assert!(!arrays.is_live(1));
}

#[test]
fn fresh_machine_is_zeroed() {
    let memory = Memory::new(vec![0x70000000]);
    assert_eq!(memory.regs, [0u32; 8]);
    let out = memory.take_output();
    assert!(out.is_empty());
}

#[test]
fn codex_bytes_become_big_endian_words() {
    let bytes = vec![0xD2, 0x00, 0x00, 0x41, 0x70, 0x00, 0x00, 0x00];
    assert_eq!(parse_codex(&bytes), vec![0xD2000041, 0x70000000]);
}

#[test]
fn codex_trailing_bytes_are_discarded() {
    let bytes = vec![0x00, 0x00, 0x00, 0x07, 0xAA, 0xBB];
    assert_eq!(parse_codex(&bytes), vec![7]);
    assert_eq!(parse_codex(&vec![1, 2, 3]), Vec::<u32>::new());
    assert_eq!(parse_codex(&vec![]), Vec::<u32>::new());
}
