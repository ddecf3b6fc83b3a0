use buddy_alloc::buddy_alloc::{
    block_size, block_size_2base, first_up_k, log2, nblock, roundup, BuddyAlloc, BuddyAllocError,
    BuddyAllocParam,
};

const MIB: usize = 1024 * 1024;
const BASE: usize = 0x10_0000;
// bookkeeping bytes of an engine of 18 orders, rounded up to a leaf of 16
const META_1MIB: usize = 49888;

fn engine(base: usize, len: usize, leaf: usize) -> BuddyAlloc {
    let param = BuddyAllocParam::new(base, len, leaf);
    assert!(BuddyAlloc::can_build(&param));
    BuddyAlloc::new(param, vec![0xa5; len])
}

#[test]
fn block_size_values() {
    assert_eq!(block_size(0, 16), 16);
    assert_eq!(block_size(3, 16), 128);
    assert_eq!(block_size(10, 4096), 4096 * 1024);
    assert_eq!(block_size_2base(0, 4), 16);
    assert_eq!(block_size_2base(2, 4), 64);
    assert_eq!(block_size_2base(5, 12), 4096 * 32);
}

#[test]
fn nblock_values() {
    assert_eq!(nblock(0, 5), 16);
    assert_eq!(nblock(3, 5), 2);
    assert_eq!(nblock(4, 5), 1);
}

#[test]
fn roundup_values() {
    assert_eq!(roundup(1, 4), 16);
    assert_eq!(roundup(16, 4), 16);
    assert_eq!(roundup(17, 4), 32);
    assert_eq!(roundup(5, 0), 5);
    assert_eq!(roundup(4097, 12), 8192);
}

#[test]
fn log2_values() {
    assert_eq!(log2(0), 0);
    assert_eq!(log2(1), 0);
    assert_eq!(log2(2), 1);
    assert_eq!(log2(3), 1);
    assert_eq!(log2(1024), 10);
    assert_eq!(log2(1025), 10);
    assert_eq!(log2(usize::MAX), usize::BITS as usize - 1);
}

#[test]
fn first_up_k_values() {
    assert_eq!(first_up_k(0, 16), 0);
    assert_eq!(first_up_k(1, 16), 0);
    assert_eq!(first_up_k(16, 16), 0);
    assert_eq!(first_up_k(17, 16), 1);
    assert_eq!(first_up_k(32, 16), 1);
    assert_eq!(first_up_k(100, 16), 3);
    assert_eq!(first_up_k(512, 16), 5);
    // no block of the address space is large enough: the order past the last
    assert_eq!(first_up_k(usize::MAX, 16), usize::BITS as usize - 4);
}

#[test]
fn fresh_engine_reserves_the_bookkeeping() {
    let a = engine(BASE, MIB, 16);
    assert_eq!(a.available_bytes(), MIB - META_1MIB);
}

#[test]
fn region_is_aligned_before_it_is_laid_out() {
    // the first leaf boundary is 11 bytes in: 65535 leaves are left, which
    // makes 17 orders, with 25260 bytes of bookkeeping
    let a = engine(BASE + 5, MIB, 16);
    let data = BASE + 16 + 25264;
    assert_eq!(a.available_bytes(), (BASE + 5 + MIB - data) / 16 * 16);
    assert_eq!(a.available_bytes(), 1023296);
    let mut a = a;
    let p = a.malloc(1);
    assert_eq!(p % 16, 0);
    assert!(p >= data);
}

#[test]
fn tail_below_a_leaf_is_unavailable() {
    let a = engine(BASE, MIB + 7, 16);
    assert_eq!(a.available_bytes(), MIB - META_1MIB);
    let b = engine(BASE, MIB + 16, 16);
    assert_eq!(b.available_bytes(), MIB - META_1MIB + 16);
}

#[test]
fn first_block_is_split_from_the_smallest_that_fits() {
    let mut a = engine(BASE, MIB, 16);
    // 62418 leaves: the free blocks have orders 15, 14, 13, 12, 9, 8, 7, 6, 4 and 1
    let p = a.malloc(512);
    // order 5 is served from the block of order 6, the 975th of its order
    let data = BASE + META_1MIB;
    assert_eq!(p, data + 974 * 1024);
    // the upper half of the split is free: it serves the next request of its order
    let q = a.malloc(512);
    assert_eq!(q, p + 512);
    // now order 5 and 6 are empty: the block of order 7 is split twice
    let r = a.malloc(512);
    assert_eq!(r, data + (62418 / 128 - 1) * 2048);
}

#[test]
fn smallest_request_takes_the_smallest_free_block() {
    let mut a = engine(BASE, MIB, 16);
    let data = BASE + META_1MIB;
    // the block of order 1 is the last of the tiling
    let p = a.malloc(16);
    assert_eq!(p, data + (62418 / 2 - 1) * 32);
    assert_eq!(a.malloc(0), p + 16);
}

#[test]
fn freed_block_is_merged_and_served_again() {
    let mut a = engine(BASE, MIB, 16);
    let p = a.malloc(512);
    a.free(p);
    let q = a.malloc(1024);
    assert_eq!(q, p);
    a.free(q);
    assert_eq!(a.malloc(700), p);
}

#[test]
fn free_list_is_last_in_first_out() {
    let mut a = engine(BASE, MIB, 16);
    let first = a.malloc(16);
    let second = a.malloc(16);
    let third = a.malloc(16);
    let fourth = a.malloc(16);
    // first and third have live buddies: they stay on the list of order 0
    a.free(first);
    a.free(third);
    assert_eq!(a.malloc(16), third);
    assert_eq!(a.malloc(16), first);
    a.free(second);
    a.free(fourth);
}

#[test]
fn merge_detaches_the_buddy_from_the_middle_of_the_list() {
    let mut a = engine(BASE, MIB, 16);
    let mut ptrs = Vec::new();
    for _ in 0..8 {
        ptrs.push(a.malloc(16));
    }
    // free every other leaf, then one buddy from the middle of the list
    a.free(ptrs[0]);
    a.free(ptrs[2]);
    a.free(ptrs[4]);
    a.free(ptrs[3]);
    // leaves 2 and 3 merged: order 0 holds leaves 4 and 0, in that order
    assert_eq!(a.malloc(16), ptrs[4]);
    assert_eq!(a.malloc(16), ptrs[0]);
    let low = if ptrs[2] < ptrs[3] { ptrs[2] } else { ptrs[3] };
    assert_eq!(a.malloc(32), low);
}

#[test]
fn request_larger_than_any_block_fails() {
    let mut a = engine(BASE, MIB, 16);
    assert_eq!(a.malloc(MIB), 0);
    assert_eq!(a.malloc(usize::MAX), 0);
    // the largest block has order 15
    assert_eq!(a.malloc(512 * 1024 + 1), 0);
    assert!(a.malloc(512 * 1024) != 0);
    assert_eq!(a.malloc(512 * 1024), 0);
}

#[test]
fn live_blocks_are_aligned_in_range_and_apart() {
    let mut a = engine(BASE, MIB, 32);
    let data_end = BASE + MIB;
    let mut seed: u32 = 12345;
    let mut live: Vec<(usize, usize)> = Vec::new();
    for _ in 0..400 {
        seed = seed.wrapping_mul(1664525).wrapping_add(1013904223);
        let size = 1 + (seed >> 16) as usize % 3000;
        let p = a.malloc(size);
        if p != 0 {
            assert_eq!(p % 32, 0);
            assert!(p >= BASE && p + size <= data_end);
            live.push((p, size));
        }
    }
    for i in 0..live.len() {
        for j in 0..i {
            let (p, n) = live[i];
            let (q, m) = live[j];
            assert!(p + n <= q || q + m <= p);
        }
    }
    for (p, _) in live {
        a.free(p);
    }
}

#[test]
fn nothing_stays_fragmented() {
    let mut a = engine(BASE, MIB, 16);
    let mut fresh = engine(BASE, MIB, 16);
    let before = a.available_bytes();
    let mut seed: u32 = 7;
    let mut live: Vec<usize> = Vec::new();
    for _ in 0..2000 {
        seed = seed.wrapping_mul(1664525).wrapping_add(1013904223);
        let pick = (seed >> 8) as usize;
        if pick % 3 != 0 || live.is_empty() {
            let p = a.malloc(1 + pick % 5000);
            if p != 0 {
                live.push(p);
            }
        } else {
            let p = live.swap_remove(pick % live.len());
            a.free(p);
        }
        assert_eq!(a.available_bytes(), before);
    }
    for p in live {
        a.free(p);
    }
    // the largest block that fits is free again
    let largest = 512 * 1024;
    assert!(largest <= before && before < 2 * largest);
    let p = a.malloc(largest);
    assert_eq!(p, BASE + META_1MIB);
    a.free(p);
    // and every list is as in a fresh engine
    for size in [16, 16, 512, 100_000, 32, 4096, 1, 300_000] {
        assert_eq!(a.malloc(size), fresh.malloc(size));
    }
}

#[test]
fn random_actions_then_the_whole_heap() {
    let heap_size = 64 * 1024;
    let mut a = engine(BASE, heap_size, 256);
    let mut seed: u32 = 99;
    let mut live: Vec<usize> = Vec::new();
    for _ in 0..5000 {
        seed = seed.wrapping_mul(1664525).wrapping_add(1013904223);
        let pick = (seed >> 8) as usize;
        if pick % 2 == 0 {
            let size = pick % 65536;
            let align = 1usize << (pick % 13);
            let n = if size > align { size } else { align };
            let p = a.malloc(n);
            if p != 0 {
                live.push(p);
            }
        } else if !live.is_empty() {
            let p = live.swap_remove(pick % live.len());
            a.free(p);
        }
    }
    for p in live {
        a.free(p);
    }
    // the bookkeeping takes its share: the whole heap cannot be had
    assert_eq!(a.malloc(heap_size), 0);
    assert!(a.malloc(32 * 1024) != 0);
}

#[test]
fn leaf_size_is_rounded_down_to_a_power_of_two() {
    // 48 is a multiple of 16: leaves of 32 bytes
    let mut a = engine(BASE, MIB, 48);
    let p = a.malloc(1);
    let q = a.malloc(1);
    assert_eq!(p % 32, 0);
    assert_eq!(q, p + 32);
    assert_eq!(a.available_bytes() % 32, 0);
}

#[test]
fn leaf_of_a_page() {
    let mut a = engine(0x4000_0000, 64 * 1024, 4096);
    // 6 orders: 240 bytes of records and sentinels, 16 of bitmaps, rounded up to a page
    assert_eq!(a.available_bytes(), 15 * 4096);
    let p = a.malloc(4);
    assert!(p != 0);
    assert_eq!(p % 4096, 0);
    // 15 leaves: blocks of 8, 4, 2 and 1; the smallest is the last
    assert_eq!(p, 0x4000_0000 + 4096 + 14 * 4096);
    assert_eq!(a.malloc(8 * 4096), 0x4000_0000 + 4096);
    assert_eq!(a.malloc(8 * 4096), 0);
}

#[test]
fn smallest_engine() {
    // five orders take 210 bytes of bookkeeping: 224 with the rounding
    for len in (0..224).step_by(16) {
        assert!(!BuddyAlloc::can_build(&BuddyAllocParam::new(BASE, len, 16)));
    }
    let mut a = engine(BASE, 224, 16);
    assert_eq!(a.available_bytes(), 0);
    assert_eq!(a.malloc(1), 0);
    let mut a = engine(BASE, 240, 16);
    assert_eq!(a.available_bytes(), 16);
    let p = a.malloc(16);
    assert_eq!(p, BASE + 224);
    assert_eq!(a.malloc(1), 0);
    a.free(p);
    assert_eq!(a.malloc(1), p);
    assert_eq!(a.malloc(1), 0);
    // one more order takes 256 bytes: a region of 256 has nothing to hand out
    let a = engine(BASE, 256, 16);
    assert_eq!(a.available_bytes(), 0);
    // three leaves: a block of two and a block of one
    let mut a = engine(BASE, 256 + 48, 16);
    assert_eq!(a.available_bytes(), 48);
    assert_eq!(a.malloc(32), BASE + 256);
    assert_eq!(a.malloc(32), 0);
    assert_eq!(a.malloc(16), BASE + 256 + 32);
    assert_eq!(a.malloc(16), 0);
}

#[test]
fn bad_leaf_size_is_refused() {
    for leaf in [0usize, 1, 8, 24, 17] {
        let r = BuddyAlloc::try_new(BuddyAllocParam::new(BASE, MIB, leaf), vec![0; MIB]);
        assert!(matches!(r, Err(BuddyAllocError::LeafSize)));
        assert!(!BuddyAlloc::can_build(&BuddyAllocParam::new(BASE, MIB, leaf)));
    }
}

#[test]
fn region_without_room_is_refused() {
    for len in [0usize, 1, 16, 64, 80, 96, 208, 223] {
        let r = BuddyAlloc::try_new(BuddyAllocParam::new(BASE, len, 16), vec![0; len]);
        assert!(matches!(r, Err(BuddyAllocError::OutOfMemory)));
    }
    // a region at address 0, and one that runs past the address space
    assert!(matches!(
        BuddyAlloc::try_new(BuddyAllocParam::new(0, MIB, 16), vec![0; MIB]),
        Err(BuddyAllocError::OutOfMemory)
    ));
    assert!(matches!(
        BuddyAlloc::try_new(BuddyAllocParam::new(usize::MAX - 100, MIB, 16), vec![0; MIB]),
        Err(BuddyAllocError::OutOfMemory)
    ));
    assert!(matches!(
        BuddyAlloc::try_new(BuddyAllocParam::new(usize::MAX - 5, 2, 16), vec![0; 2]),
        Err(BuddyAllocError::OutOfMemory)
    ));
}

#[test]
fn try_new_builds_what_new_builds() {
    let param = BuddyAllocParam::new_with_zero_filled(BASE, MIB, 16);
    let mut a = match BuddyAlloc::try_new(param, vec![0; MIB]) {
        Ok(a) => a,
        Err(_) => panic!("a region of 1 MiB has room"),
    };
    let mut b = BuddyAlloc::new(param, vec![0; MIB]);
    assert_eq!(a.available_bytes(), b.available_bytes());
    for size in [1, 100, 4096, 77] {
        assert_eq!(a.malloc(size), b.malloc(size));
    }
    assert_eq!(param.region(), (BASE, MIB));
}

#[test]
fn largest_blocks_in_turn_leave_the_span_as_it_was() {
    let mut a = engine(BASE, MIB, 16);
    let initial = a.available_bytes();
    for _ in 0..10 {
        // the largest block of no more than one byte less than the span
        let mut size = 16;
        while size * 2 <= initial - 1 {
            size *= 2;
        }
        let p = a.malloc(size);
        assert!(p != 0);
        a.free(p);
    }
    assert_eq!(a.available_bytes(), initial);
    assert_eq!(a.malloc(512 * 1024), BASE + META_1MIB);
}

#[test]
fn freeing_in_any_order_gives_every_byte_back() {
    let mut a = engine(BASE, MIB, 16);
    let mut fresh = engine(BASE, MIB, 16);
    let x = a.malloc(32);
    a.free(x);
    let y = a.malloc(4096);
    let z = a.malloc(138);
    a.free(y);
    a.free(z);
    for size in [512 * 1024, 256 * 1024, 128 * 1024, 64 * 1024, 8 * 1024] {
        let p = a.malloc(size);
        assert!(p != 0);
        assert_eq!(p, fresh.malloc(size));
    }
}

#[test]
fn engine_leaves_what_is_handed_out() {
    let mut a = engine(BASE, MIB, 16);
    let mut seed: u32 = 4242;
    let mut live: Vec<(usize, usize, u8)> = Vec::new();
    for step in 0..3000 {
        seed = seed.wrapping_mul(1664525).wrapping_add(1013904223);
        let pick = (seed >> 8) as usize;
        if pick % 3 != 0 || live.is_empty() {
            let size = 1 + pick % 700;
            let p = a.malloc(size);
            if p != 0 {
                let mark = (step % 251) as u8;
                for at in p..p + size {
                    a.write(at, mark);
                }
                live.push((p, size, mark));
            }
        } else {
            let (p, size, mark) = live.swap_remove(pick % live.len());
            for at in p..p + size {
                assert_eq!(a.read(at), mark);
            }
            a.free(p);
        }
    }
    for (p, size, mark) in live {
        for at in p..p + size {
            assert_eq!(a.read(at), mark);
        }
        a.free(p);
    }
}

#[test]
fn region_bytes_can_be_read_and_written() {
    let mut a = engine(BASE, 4096, 16);
    let p = a.malloc(100);
    // the head of the block held a list node; the rest is as it was found
    assert_eq!(a.read(p + 16), 0xa5);
    a.write(p, 7);
    a.write(p + 99, 8);
    assert_eq!(a.read(p), 7);
    assert_eq!(a.read(p + 99), 8);
    assert_eq!(a.read(p + 17), 0xa5);
    // ten orders: the sentinels follow ten records, and the record of the
    // lowest order starts with the address of its sentinel
    let sentinel = BASE + 24 * 10;
    let word: Vec<u8> = (0..8).map(|i| a.read(BASE + i)).collect();
    assert_eq!(word, (sentinel as u64).to_le_bytes().to_vec());
}

#[test]
fn zero_filled_region_keeps_bitmaps_as_found() {
    let len = 4096;
    let param = BuddyAllocParam::new_with_zero_filled(BASE, len, 16);
    assert!(param.is_zero_filled());
    assert!(!BuddyAllocParam::new(BASE, len, 16).is_zero_filled());
    let mut a = BuddyAlloc::new(param, vec![0; len]);
    let mut b = BuddyAlloc::new(BuddyAllocParam::new(BASE, len, 16), vec![0xff; len]);
    for size in [16, 100, 2000, 16, 512] {
        assert_eq!(a.malloc(size), b.malloc(size));
    }
}
