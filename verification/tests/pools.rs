use buddy_alloc::fast_alloc::{FastAlloc, FastAllocParam, DEFAULT_INITIALIZED_NODES};
use buddy_alloc::freelist_alloc::{FreelistAlloc, FreelistAllocParam};

const BASE: usize = 0x2000;

#[test]
fn fast_pool_hands_out_linked_slots_then_fresh_ones() {
    assert_eq!(DEFAULT_INITIALIZED_NODES, 4);
    let mut a = FastAlloc::new(FastAllocParam::new(BASE, 512), vec![0; 512]);
    // four slots are linked, the last of them at the head
    assert_eq!(a.malloc(1), BASE + 3 * 64);
    assert_eq!(a.malloc(64), BASE + 2 * 64);
    assert_eq!(a.malloc(0), BASE + 64);
    assert_eq!(a.malloc(33), BASE);
    // then the fresh ones, in address order
    assert_eq!(a.malloc(1), BASE + 4 * 64);
    assert_eq!(a.malloc(1), BASE + 5 * 64);
    assert_eq!(a.malloc(1), BASE + 6 * 64);
    assert_eq!(a.malloc(1), BASE + 7 * 64);
    assert_eq!(a.malloc(1), 0);
}

#[test]
fn fast_pool_serves_freed_slots_before_fresh_ones() {
    let param = FastAllocParam::new_with_initialized_nodes(BASE, 512, 2);
    let mut a = FastAlloc::new(param, vec![0; 512]);
    let p = a.malloc(8);
    let q = a.malloc(8);
    assert_eq!((p, q), (BASE + 64, BASE));
    let r = a.malloc(8);
    assert_eq!(r, BASE + 128);
    a.free(q);
    a.free(r);
    // last in, first out
    assert_eq!(a.malloc(8), r);
    assert_eq!(a.malloc(8), q);
    assert_eq!(a.malloc(8), BASE + 192);
}

#[test]
fn fast_pool_with_no_slot_linked() {
    let param = FastAllocParam::new_with_initialized_nodes(BASE, 128, 0);
    let mut a = FastAlloc::new(param, vec![0; 128]);
    assert_eq!(a.malloc(1), BASE);
    assert_eq!(a.malloc(1), BASE + 64);
    assert_eq!(a.malloc(1), 0);
    a.free(BASE);
    assert_eq!(a.malloc(1), BASE);
}

#[test]
fn fast_pool_links_no_more_slots_than_it_has() {
    let param = FastAllocParam::new_with_initialized_nodes(BASE, 128, 100);
    let mut a = FastAlloc::new(param, vec![0; 128]);
    assert_eq!(a.malloc(1), BASE + 64);
    assert_eq!(a.malloc(1), BASE);
    assert_eq!(a.malloc(1), 0);
}

#[test]
fn fast_pool_refuses_more_than_a_slot() {
    let mut a = FastAlloc::new(FastAllocParam::new(BASE, 512), vec![0; 512]);
    assert_eq!(a.malloc(65), 0);
    assert_eq!(a.malloc(usize::MAX), 0);
    // nothing was taken
    assert_eq!(a.malloc(64), BASE + 3 * 64);
}

#[test]
fn fast_pool_contains_its_region() {
    let a = FastAlloc::new(FastAllocParam::new(BASE, 512), vec![0; 512]);
    assert!(!a.contains_ptr(BASE - 1));
    assert!(a.contains_ptr(BASE));
    assert!(a.contains_ptr(BASE + 511));
    assert!(!a.contains_ptr(BASE + 512));
    assert!(!a.contains_ptr(0));
}

#[test]
fn fast_pool_slots_add_up() {
    let mut a = FastAlloc::new(FastAllocParam::new(BASE, 1024), vec![0; 1024]);
    let total = 1024 / 64;
    let mut live = Vec::new();
    let mut seed: u32 = 5;
    for _ in 0..500 {
        seed = seed.wrapping_mul(1664525).wrapping_add(1013904223);
        let pick = (seed >> 8) as usize;
        if pick % 2 == 0 {
            let p = a.malloc(pick % 65);
            if p != 0 {
                assert!(a.contains_ptr(p));
                assert_eq!((p - BASE) % 64, 0);
                assert!(!live.contains(&p));
                live.push(p);
            } else {
                assert_eq!(live.len(), total);
            }
        } else if !live.is_empty() {
            let p = live.swap_remove(pick % live.len());
            a.free(p);
        }
        assert!(live.len() <= total);
    }
}

#[test]
fn fast_pool_parameters_are_checked() {
    assert!(FastAlloc::can_build(&FastAllocParam::new(BASE, 64)));
    assert!(!FastAlloc::can_build(&FastAllocParam::new(BASE, 0)));
    assert!(!FastAlloc::can_build(&FastAllocParam::new(BASE, 100)));
    assert!(!FastAlloc::can_build(&FastAllocParam::new(0, 64)));
    assert!(!FastAlloc::can_build(&FastAllocParam::new(usize::MAX - 10, 64)));
    assert_eq!(FastAllocParam::new(BASE, 64).region(), (BASE, 64));
}

#[test]
fn freelist_pool_links_every_slot() {
    let mut a = FreelistAlloc::new(FreelistAllocParam::new(BASE, 256), vec![0; 256]);
    assert_eq!(a.malloc(64), BASE + 3 * 64);
    assert_eq!(a.malloc(1), BASE + 2 * 64);
    assert_eq!(a.malloc(1), BASE + 64);
    assert_eq!(a.malloc(1), BASE);
    assert_eq!(a.malloc(1), 0);
    a.free(BASE + 64);
    a.free(BASE + 3 * 64);
    assert_eq!(a.malloc(1), BASE + 3 * 64);
    assert_eq!(a.malloc(1), BASE + 64);
    assert_eq!(a.malloc(1), 0);
}

#[test]
fn freelist_pool_refuses_more_than_a_slot() {
    let mut a = FreelistAlloc::new(FreelistAllocParam::new(BASE, 256), vec![0; 256]);
    assert_eq!(a.malloc(65), 0);
    assert_eq!(a.malloc(64), BASE + 3 * 64);
}

#[test]
fn freelist_pool_contains_its_region() {
    let a = FreelistAlloc::new(FreelistAllocParam::new(BASE, 256), vec![0; 256]);
    assert!(!a.contains_ptr(BASE - 1));
    assert!(a.contains_ptr(BASE));
    assert!(a.contains_ptr(BASE + 255));
    assert!(!a.contains_ptr(BASE + 256));
}

#[test]
fn freelist_pool_parameters_are_checked() {
    assert!(FreelistAlloc::can_build(&FreelistAllocParam::new(BASE, 64)));
    assert!(!FreelistAlloc::can_build(&FreelistAllocParam::new(BASE, 0)));
    assert!(!FreelistAlloc::can_build(&FreelistAllocParam::new(BASE, 65)));
    assert!(!FreelistAlloc::can_build(&FreelistAllocParam::new(0, 64)));
    assert!(!FreelistAlloc::can_build(&FreelistAllocParam::new(usize::MAX - 63, 64)));
}

#[test]
fn freelist_pool_malloc_and_free() {
    let len = 4096;
    let mut a = FreelistAlloc::new(FreelistAllocParam::new(BASE, len), vec![0; len]);
    for _ in 0..10 {
        let mut ptrs = Vec::new();
        let mut available_bytes = len;
        while available_bytes >= 64 {
            let p = a.malloc(64);
            assert!(p != 0);
            ptrs.push(p);
            available_bytes -= 64;
        }
        // space is drained
        assert!(a.malloc(1) == 0);
        for ptr in ptrs {
            assert!(a.contains_ptr(ptr));
            a.free(ptr);
        }
    }
}

#[test]
fn fast_pool_leaves_what_is_handed_out() {
    let mut a = FastAlloc::new(FastAllocParam::new(BASE, 512), vec![0; 512]);
    let p = a.malloc(64);
    let q = a.malloc(64);
    let r = a.malloc(64);
    for i in 0..64 {
        a.write(p + i, 1);
        a.write(q + i, 2);
        a.write(r + i, 3);
    }
    a.free(q);
    let s = a.malloc(10);
    let t = a.malloc(10);
    assert_eq!(s, q);
    a.free(t);
    for i in 0..64 {
        assert_eq!(a.read(p + i), 1);
        assert_eq!(a.read(r + i), 3);
    }
    // the list node of a free slot lies at its start
    a.free(p);
    let node: Vec<u8> = (0..16).map(|i| a.read(p + i)).collect();
    assert!(node != vec![1; 16]);
    for i in 16..64 {
        assert_eq!(a.read(p + i), 1);
    }
}

#[test]
fn freelist_pool_leaves_what_is_handed_out() {
    let mut a = FreelistAlloc::new(FreelistAllocParam::new(BASE, 256), vec![9; 256]);
    let p = a.malloc(64);
    let q = a.malloc(64);
    a.write(p, 42);
    a.write(p + 63, 43);
    a.write(q, 44);
    a.free(q);
    assert_eq!(a.malloc(1), q);
    assert_eq!(a.read(p), 42);
    assert_eq!(a.read(p + 63), 43);
    assert_eq!(a.read(p + 20), 9);
}
