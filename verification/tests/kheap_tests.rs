use lib::kheap::{
    can_free, can_realloc, free, heap_test, kheap_add_block, kheap_free, kheap_malloc, kheap_realloc, malloc, realloc, realloc_test,
    KHeap, MemCopy,
};

fn taken(h: &KHeap, k: usize) -> Vec<bool> {
    let m = h.block(k);
    (0..m.size / m.bsize).map(|x| h.is_unit_taken(k, x)).collect()
}

fn one_block() -> KHeap {
    let mut h = KHeap::new();
    kheap_add_block(&mut h, 0x1000, 1024, 16);
    h
}

#[test]
fn new_block_marks_header_units() {
    let h = one_block();
    assert_eq!(h.block_count(), 1);
    let m = h.block(0);
    assert_eq!((m.addr, m.size, m.bsize), (0x1000, 1012, 16));
    let t = taken(&h, 0);
    assert_eq!(t.len(), 63);
    // 64 units: an 8-byte bitmap (plus one byte), one unit marked per byte
    assert!(t[..8].iter().all(|b| *b));
    assert!(t[8..].iter().all(|b| !*b));
}

#[test]
fn small_block_marks_partial_byte() {
    let mut h = KHeap::new();
    kheap_add_block(&mut h, 0x4000, 16 * 24, 16);
    // 24 units -> 3 bitmap bytes -> units 0..3 marked
    let t = taken(&h, 0);
    assert_eq!(&t[..4], &[true, true, true, false]);
}

#[test]
fn malloc_takes_first_free_run() {
    let mut h = one_block();
    let p = kheap_malloc(&mut h, 10);
    // a leading unit for the length word and one unit of data: units 8 and 9;
    // the data starts at unit 9, the length word sits just before it
    assert_eq!(p, 0x1000 + 16 * 9);
    assert_eq!(h.length_word(p - 4), Some(2));
    let t = taken(&h, 0);
    assert!(t[8] && t[9] && !t[10]);
    let q = kheap_malloc(&mut h, 40);
    // 16 + 40 bytes need 4 units: units 10..14, data from unit 11
    assert_eq!(q, 0x1000 + 16 * 11);
    assert_eq!(h.length_word(q - 4), Some(4));
    let t = taken(&h, 0);
    assert!(t[10] && t[11] && t[12] && t[13] && !t[14]);
}

#[test]
fn law_free_undoes_malloc() {
    let mut h = one_block();
    let a = kheap_malloc(&mut h, 100);
    let before = taken(&h, 0);
    let p = kheap_malloc(&mut h, 60);
    assert_ne!(p, 0);
    assert_ne!(taken(&h, 0), before);
    kheap_free(&mut h, p);
    assert_eq!(taken(&h, 0), before);
    kheap_free(&mut h, a);
    assert_eq!(taken(&h, 0), taken(&one_block(), 0));
}

#[test]
fn free_null_does_nothing() {
    let mut h = one_block();
    let before = taken(&h, 0);
    free(&mut h, 0);
    assert_eq!(taken(&h, 0), before);
}

#[test]
fn malloc_fails_when_too_large_and_no_blocks() {
    let mut empty = KHeap::new();
    assert_eq!(malloc(&mut empty, 8), 0);
    let mut h = one_block();
    assert_eq!(kheap_malloc(&mut h, 2000), 0);
}

#[test]
fn malloc_grows_the_heap() {
    let mut h = KHeap::new();
    kheap_add_block(&mut h, 0x2000, 16 * 16, 16);
    // 16 units, unit 0..1 marked; fill the block
    let mut n = 0;
    while kheap_malloc(&mut h, 12) != 0 {
        n += 1;
    }
    assert!(n > 0);
    assert_eq!(h.block_count(), 1);
    let p = malloc(&mut h, 12);
    assert_ne!(p, 0);
    assert_eq!(h.block_count(), 2);
    // the new block follows the old one: old head + its whole size + 1
    assert_eq!(h.block(0).addr, 0x2000 + 256 + 1);
    assert_eq!(h.block(0).bsize, 16);
}

#[test]
fn realloc_cases() {
    let mut h = one_block();
    // null pointer: a fresh allocation
    let (p, c) = realloc(&mut h, 0, 20);
    assert_ne!(p, 0);
    assert_eq!(c, None);
    // size 0: nothing, the allocation is kept
    assert_eq!(kheap_realloc(&mut h, p, 0), (0, None));
    assert_eq!(h.length_word(p - 4), Some(3));
    // still fits in its three units (one leading unit, 32 bytes of data)
    assert_eq!(realloc(&mut h, p, 32), (p, None));
    // grows: new allocation, copy of the old units, old one freed
    let (q, c) = realloc(&mut h, p, 100);
    assert_ne!(q, 0);
    assert_ne!(q, p);
    assert_eq!(c, Some(MemCopy { to: q, from: p, len: 32 }));
}

#[test]
fn heap_checks_pass() {
    assert!(heap_test(64));
    assert!(realloc_test(64));
    assert!(heap_test(0));
}

#[test]
fn free_and_realloc_checks() {
    let mut h = one_block();
    let p = kheap_malloc(&mut h, 10);
    assert!(can_free(&h, p));
    assert!(can_free(&h, 0));
    // no length word was written for this address
    assert!(!can_free(&h, 0x1100));
    // outside every block: nothing to free there
    assert!(can_free(&h, 0x9000));
    assert!(can_realloc(&h, p, 500));
    assert!(can_realloc(&h, 0, 5));
    assert!(!can_realloc(&h, 0x1100, 5));
}

#[test]
fn duplicate_keeps_the_bookkeeping() {
    let mut h = one_block();
    let p = kheap_malloc(&mut h, 30);
    let c = h.duplicate();
    assert_eq!(c.block_count(), 1);
    assert_eq!(taken(&c, 0), taken(&h, 0));
    assert_eq!(c.length_word(p - 4), Some(3));
}

#[test]
fn realloc_outside_every_block_gives_null() {
    let mut h = one_block();
    let p = kheap_malloc(&mut h, 10);
    let before = taken(&h, 0);
    assert!(can_realloc(&h, 0x9000, 40));
    assert_eq!(realloc(&mut h, 0x9000, 40), (0, None));
    assert_eq!(kheap_realloc(&mut h, 0x10, 40), (0, None));
    assert_eq!(taken(&h, 0), before);
    assert_eq!(h.length_word(p - 4), Some(2));
    assert_eq!(h.block_count(), 1);
}

#[test]
fn law_free_restores_heap() {
    let mut h = one_block();
    let a = kheap_malloc(&mut h, 30);
    let start = taken(&h, 0);
    for size in [1usize, 12, 60, 200, 500] {
        let p = kheap_malloc(&mut h, size);
        assert_ne!(p, 0);
        kheap_free(&mut h, p);
        assert_eq!(taken(&h, 0), start);
    }
    kheap_free(&mut h, a);
    assert_eq!(taken(&h, 0), taken(&one_block(), 0));
}

#[test]
fn law_malloc_alignment() {
    // unit 16 on a 16-aligned block: every address is aligned to the unit
    let mut h = one_block();
    for size in [1usize, 13, 40, 100] {
        let p = kheap_malloc(&mut h, size);
        assert_ne!(p, 0);
        assert_eq!(p % 16, 0);
    }
    // unit 32 on a 32-aligned block
    let mut g = KHeap::new();
    kheap_add_block(&mut g, 0x2000, 32 * 64, 32);
    for size in [1usize, 10, 64, 100] {
        let p = kheap_malloc(&mut g, size);
        assert_ne!(p, 0);
        assert_eq!(p % 32, 0);
    }
    // a block off the unit: a whole number of units past its address
    let mut u = KHeap::new();
    kheap_add_block(&mut u, 0x4008, 32 * 64, 32);
    let p = kheap_malloc(&mut u, 10);
    assert_eq!((p - 0x4008) % 32, 0);
    // units smaller than the length word: 3-byte units lead with 6 bytes
    let mut t = KHeap::new();
    kheap_add_block(&mut t, 0x6000, 3 * 256, 3);
    let p = kheap_malloc(&mut t, 5);
    assert_ne!(p, 0);
    assert_eq!(p % 3, 0);
    assert_eq!(t.length_word(p - 4), Some(4));
}

#[test]
fn law_malloc_placement() {
    let mut h = one_block();
    let mut live: Vec<(usize, usize)> = Vec::new();
    for size in [10usize, 40, 1, 100, 16, 7] {
        let p = kheap_malloc(&mut h, size);
        assert_ne!(p, 0);
        // its units (from its leading unit on) lie past the header and the
        // 9-byte bitmap, inside the block
        assert!(p - 16 >= 0x1000 + 12 + 9);
        assert!(p + size <= 0x1000 + 1012);
        for (q, n) in &live {
            assert!(p + size <= q - 16 || q + n <= p - 16);
        }
        live.push((p, size));
    }
    // freeing one in the middle and allocating again stays clear of the others
    let (mid, mid_size) = live.remove(2);
    kheap_free(&mut h, mid);
    let p = kheap_malloc(&mut h, mid_size);
    for (q, n) in &live {
        assert!(p + mid_size <= q - 16 || q + n <= p - 16);
    }
}

#[test]
fn run_at_unit_one_is_marked_and_skipped() {
    // 8 units: a 1-byte bitmap marks unit 0 only, so the first free run
    // starts at unit 1; that run is marked but not handed out
    let mut h = KHeap::new();
    kheap_add_block(&mut h, 0x3000, 16 * 8, 16);
    assert_eq!(&taken(&h, 0)[..2], &[true, false]);
    assert_eq!(kheap_malloc(&mut h, 10), 0);
    assert_eq!(&taken(&h, 0)[..4], &[true, true, true, false]);
    // the next request finds the run after it: units 3 and 4, data at unit 4
    let p = kheap_malloc(&mut h, 10);
    assert_eq!(p, 0x3000 + 16 * 4);
}

#[test]
fn length_word_is_replaced_at_the_same_address() {
    let mut h = one_block();
    let p = kheap_malloc(&mut h, 10);
    assert_eq!(h.length_word(p - 4), Some(2));
    kheap_free(&mut h, p);
    let q = kheap_malloc(&mut h, 30);
    assert_eq!(q, p);
    assert_eq!(h.length_word(q - 4), Some(3));
    kheap_free(&mut h, q);
    assert_eq!(taken(&h, 0), taken(&one_block(), 0));
}
