use buddy_alloc::fast_alloc::{FastAlloc, FastAllocParam, BLOCK_SIZE};

const BUF_SIZE: usize = 4096;
const BASE: usize = 0x1_0000;

fn with_allocator<F: FnOnce(FastAlloc)>(f: F) {
    // a region that starts on a slot boundary
    let param = FastAllocParam::new(BASE, BUF_SIZE);
    let allocator = FastAlloc::new(param, vec![0u8; BUF_SIZE]);
    f(allocator);
}

#[test]
fn fast_alloc_test_basic_malloc() {
    // alloc a min block
    with_allocator(|mut allocator| {
        let p = allocator.malloc(64);
        let p_addr = p;
        assert!(p != 0);
        // memory writeable
        allocator.write(p, 42);
        assert_eq!(p_addr, p);
        assert_eq!(allocator.read(p), 42);
    });
}

#[test]
fn fast_alloc_test_multiple_malloc() {
    with_allocator(|mut allocator| {
        let mut available_bytes = BUF_SIZE;
        // alloc serveral sized blocks
        while available_bytes >= BLOCK_SIZE {
            let bytes = BLOCK_SIZE;
            assert!(allocator.malloc(bytes) != 0);
            available_bytes -= bytes;
        }
    });
}

#[test]
fn fast_alloc_test_small_size_malloc() {
    with_allocator(|mut allocator| {
        let mut available_bytes = BUF_SIZE;
        while available_bytes >= BLOCK_SIZE {
            assert!(allocator.malloc(BLOCK_SIZE) != 0);
            available_bytes -= BLOCK_SIZE;
        }
        // memory should be drained, we can't allocate even 1 byte
        assert!(allocator.malloc(1) == 0);
    });
}

#[test]
fn fast_alloc_test_fail_malloc() {
    // a request for more than a slot has
    with_allocator(|mut allocator| {
        let p = allocator.malloc(BLOCK_SIZE + 1);
        assert!(p == 0);
    });
}

#[test]
fn fast_alloc_test_malloc_and_free() {
    with_allocator(|mut allocator| {
        for _i in 0..10 {
            let mut available_bytes = BUF_SIZE;
            let mut ptrs = Vec::new();
            // alloc serveral sized blocks
            while available_bytes >= BLOCK_SIZE {
                let bytes = BLOCK_SIZE;
                let p = allocator.malloc(bytes);
                assert!(p != 0);
                ptrs.push(p);
                available_bytes -= bytes;
            }
            // space is drained
            assert!(allocator.malloc(1) == 0);
            // free allocated blocks
            for ptr in ptrs {
                assert!(allocator.contains_ptr(ptr));
                allocator.free(ptr);
            }
        }
    });
}

#[test]
fn fast_alloc_test_free_bug() {
    with_allocator(|mut allocator| {
        let first = allocator.malloc(32);
        allocator.free(first);
        let second = allocator.malloc(64);
        let third = allocator.malloc(61);
        allocator.free(second);
        allocator.free(third);
    });
}
