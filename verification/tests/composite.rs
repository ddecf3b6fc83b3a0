use buddy_alloc::non_threadsafe_alloc::MAX_FAST_ALLOC_SIZE;
use buddy_alloc::wrapped_alloc::WrappedAlloc;
use buddy_alloc::{BuddyAlloc, BuddyAllocParam, FastAllocParam, NonThreadsafeAlloc};

const FAST_HEAP_SIZE: usize = 32 * 1024;
const HEAP_SIZE: usize = 1024 * 1024;
const LEAF_SIZE: usize = 16;
const FAST_BASE: usize = 0x10_0000;
const BASE: usize = 0x40_0000;

fn composite() -> NonThreadsafeAlloc {
    let fast_param = FastAllocParam::new(FAST_BASE, FAST_HEAP_SIZE);
    let buddy_param = BuddyAllocParam::new(BASE, HEAP_SIZE, LEAF_SIZE);
    NonThreadsafeAlloc::new(fast_param, vec![0; FAST_HEAP_SIZE], buddy_param, vec![0; HEAP_SIZE])
}

fn try_new(
    fast_param: FastAllocParam,
    fast_len: usize,
    buddy_param: BuddyAllocParam,
) -> Option<NonThreadsafeAlloc> {
    NonThreadsafeAlloc::try_new(fast_param, vec![0; fast_len], buddy_param, vec![0; HEAP_SIZE])
}

fn in_pool(p: usize) -> bool {
    FAST_BASE <= p && p < FAST_BASE + FAST_HEAP_SIZE
}

fn in_buddy(p: usize) -> bool {
    BASE <= p && p < BASE + HEAP_SIZE
}

#[test]
fn small_requests_go_to_the_pool() {
    assert_eq!(MAX_FAST_ALLOC_SIZE, 64);
    let mut heap = composite();
    let p = heap.allocate(64, 1);
    assert!(in_pool(p));
    assert_eq!(p, FAST_BASE + 3 * 64);
    let q = heap.allocate(65, 1);
    assert!(in_buddy(q));
    assert!(!in_pool(q));
    heap.deallocate(p, 64, 1);
    heap.deallocate(q, 65, 1);
    // each went back to where it came from
    assert_eq!(heap.allocate(1, 1), p);
    assert_eq!(heap.allocate(65, 1), q);
}

#[test]
fn alignment_counts_as_size() {
    let mut heap = composite();
    // blocks lie on multiples of their size from the first address handed out
    let data = BASE + 49888;
    let p = heap.allocate(8, 128);
    assert!(in_buddy(p));
    assert_eq!((p - data) % 128, 0);
    assert_eq!(p % LEAF_SIZE, 0);
    let q = heap.allocate(8, 64);
    assert!(in_pool(q));
    let r = heap.allocate(100, 4096);
    assert!(in_buddy(r));
    assert_eq!((r - data) % 4096, 0);
    assert_eq!(r % LEAF_SIZE, 0);
    heap.deallocate(p, 8, 128);
    heap.deallocate(q, 8, 64);
    heap.deallocate(r, 100, 4096);
}

#[test]
fn alignment_beyond_the_largest_block_fails() {
    let mut heap = composite();
    assert_eq!(heap.allocate(1, HEAP_SIZE), 0);
    assert_eq!(heap.allocate(1, 1 << 40), 0);
    assert_eq!(heap.allocate(HEAP_SIZE, 1), 0);
}

#[test]
fn exhausted_pool_falls_back_to_the_engine() {
    let fast_param = FastAllocParam::new(FAST_BASE, 128);
    let buddy_param = BuddyAllocParam::new(BASE, HEAP_SIZE, LEAF_SIZE);
    let mut heap =
        NonThreadsafeAlloc::new(fast_param, vec![0; 128], buddy_param, vec![0; HEAP_SIZE]);
    let a = heap.allocate(10, 1);
    let b = heap.allocate(10, 1);
    assert_eq!((a, b), (FAST_BASE + 64, FAST_BASE));
    let c = heap.allocate(10, 1);
    assert!(in_buddy(c));
    heap.deallocate(a, 10, 1);
    let d = heap.allocate(64, 1);
    assert_eq!(d, a);
    heap.deallocate(c, 10, 1);
    heap.deallocate(b, 10, 1);
    heap.deallocate(d, 64, 1);
}

#[test]
fn composite_random_actions_then_the_whole_heap() {
    let mut heap = composite();
    let mut seed: u32 = 2024;
    let mut ptrs: Vec<(usize, usize, usize)> = Vec::new();
    for _ in 0..20000 {
        seed = seed.wrapping_mul(1664525).wrapping_add(1013904223);
        let pick = (seed >> 4) as usize;
        if pick % 2 == 0 {
            let size = (pick >> 1) % 2048;
            let align = 1usize << ((pick >> 12) % 10);
            let p = heap.allocate(size, align);
            if p != 0 {
                assert_eq!(p % align.min(LEAF_SIZE), 0);
                let n = size.max(align);
                assert_eq!(in_pool(p), n <= 64 && in_pool(p));
                assert!(in_pool(p) || in_buddy(p));
                for &(q, m, _) in ptrs.iter() {
                    assert!(p + n <= q || q + m <= p);
                }
                ptrs.push((p, n, align));
            }
        } else if !ptrs.is_empty() {
            let (p, n, align) = ptrs.swap_remove(pick % ptrs.len());
            heap.deallocate(p, n, align);
        }
        if ptrs.len() > 300 {
            let (p, n, align) = ptrs.swap_remove(0);
            heap.deallocate(p, n, align);
        }
    }
    for (p, n, align) in ptrs {
        heap.deallocate(p, n, align);
    }
    // the whole heap cannot be had, half of it can
    assert_eq!(heap.allocate(HEAP_SIZE, 1), 0);
    assert!(heap.allocate(HEAP_SIZE / 2, 1) != 0);
}

#[test]
fn overlapping_regions_are_refused() {
    let buddy_param = BuddyAllocParam::new(BASE, HEAP_SIZE, LEAF_SIZE);
    let inside = FastAllocParam::new(BASE + 4096, 4096);
    assert!(try_new(inside, 4096, buddy_param).is_none());
    let across = FastAllocParam::new(BASE - 64, 128);
    assert!(try_new(across, 128, buddy_param).is_none());
    let before = FastAllocParam::new(BASE - 128, 128);
    assert!(try_new(before, 128, buddy_param).is_some());
    let after = FastAllocParam::new(BASE + HEAP_SIZE, 128);
    assert!(try_new(after, 128, buddy_param).is_some());
}

#[test]
fn bad_parts_are_refused() {
    let buddy_param = BuddyAllocParam::new(BASE, HEAP_SIZE, LEAF_SIZE);
    let fast_param = FastAllocParam::new(FAST_BASE, FAST_HEAP_SIZE);
    let ragged = FastAllocParam::new(FAST_BASE, 100);
    assert!(try_new(ragged, 100, buddy_param).is_none());
    let odd_leaf = BuddyAllocParam::new(BASE, HEAP_SIZE, 24);
    assert!(try_new(fast_param, FAST_HEAP_SIZE, odd_leaf).is_none());
    let small = vec![0; 64];
    let none = NonThreadsafeAlloc::try_new(
        fast_param,
        vec![0; FAST_HEAP_SIZE],
        BuddyAllocParam::new(BASE, 64, 16),
        small,
    );
    assert!(none.is_none());
    let mut heap = match try_new(fast_param, FAST_HEAP_SIZE, buddy_param) {
        Some(heap) => heap,
        None => panic!("the regions are apart"),
    };
    assert_eq!(heap.allocate(1, 1), FAST_BASE + 3 * 64);
}

#[test]
fn wrapped_engine_serves_by_size() {
    let param = BuddyAllocParam::new(BASE, HEAP_SIZE, LEAF_SIZE);
    let mut a = BuddyAlloc::new(param, vec![0; HEAP_SIZE]);
    let inner = BuddyAlloc::new(param, vec![0; HEAP_SIZE]);
    let mut w = WrappedAlloc::new(inner);
    let p = w.allocate(100, 4096);
    assert_eq!(p, a.malloc(100));
    let q = w.allocate(16, 1);
    assert_eq!(q, a.malloc(16));
    w.deallocate(p, 100, 4096);
    a.free(p);
    assert_eq!(w.allocate(128, 8), a.malloc(128));
    assert_eq!(w.allocate(HEAP_SIZE, 8), 0);
}

#[test]
fn composite_leaves_what_is_handed_out() {
    let mut heap = composite();
    let small = heap.allocate(32, 8);
    let large = heap.allocate(1000, 8);
    for i in 0..32 {
        heap.write(small + i, 11);
    }
    for i in 0..1000 {
        heap.write(large + i, 22);
    }
    let other = heap.allocate(64, 1);
    let more = heap.allocate(5000, 1);
    heap.deallocate(other, 64, 1);
    heap.deallocate(more, 5000, 1);
    for i in 0..32 {
        assert_eq!(heap.read(small + i), 11);
    }
    for i in 0..1000 {
        assert_eq!(heap.read(large + i), 22);
    }
    assert!(heap.contains_ptr(small));
    assert!(!heap.contains_ptr(large));
}

#[test]
fn wrapped_engine_reads_and_writes() {
    let param = BuddyAllocParam::new(BASE, HEAP_SIZE, LEAF_SIZE);
    let mut w = WrappedAlloc::new(BuddyAlloc::new(param, vec![3; HEAP_SIZE]));
    let p = w.allocate(40, 1);
    assert_eq!(w.read(p + 39), 3);
    w.write(p + 39, 4);
    let q = w.allocate(40, 1);
    w.deallocate(q, 40, 1);
    assert_eq!(w.read(p + 39), 4);
}
