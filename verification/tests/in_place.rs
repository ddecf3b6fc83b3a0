//! The engine against a plain model of it, written without regard to
//! proof: both must hand out the same addresses and leave the same bytes in
//! the region.
use buddy_alloc::{BuddyAlloc, BuddyAllocParam, FastAlloc, FastAllocParam};

const ENTRY: usize = 24;
const NODE: usize = 16;

struct InPlace {
    mem: Vec<u8>,
    origin: usize,
    base_addr: usize,
    end_addr: usize,
    unavailable: usize,
    entries: usize,
    entries_size: usize,
    leaf2base: usize,
}

fn log2(mut n: usize) -> usize {
    let mut k = 0;
    while n > 1 {
        k += 1;
        n >>= 1;
    }
    k
}

fn roundup(n: usize, sz2base: usize) -> usize {
    (((n - 1) >> sz2base) + 1) << sz2base
}

fn nblock(k: usize, entries_size: usize) -> usize {
    1 << (entries_size - k - 1)
}

impl InPlace {
    fn rd(&self, addr: usize) -> usize {
        let at = addr - self.origin;
        let mut word = [0u8; 8];
        word.copy_from_slice(&self.mem[at..at + 8]);
        u64::from_le_bytes(word) as usize
    }

    fn wr(&mut self, addr: usize, value: usize) {
        let at = addr - self.origin;
        self.mem[at..at + 8].copy_from_slice(&(value as u64).to_le_bytes());
    }

    fn bit_isset(&self, bits: usize, i: usize) -> bool {
        let m = 1u8 << (i % 8);
        self.mem[bits - self.origin + (i >> 3)] & m == m
    }

    fn bit_set(&mut self, bits: usize, i: usize) {
        let m = 1u8 << (i % 8);
        self.mem[bits - self.origin + (i >> 3)] |= m;
    }

    fn bit_clear(&mut self, bits: usize, i: usize) {
        assert!(self.bit_isset(bits, i));
        let m = 1u8 << (i % 8);
        self.mem[bits - self.origin + (i >> 3)] &= !m;
    }

    // a node is its `next` link followed by its `prev` link
    fn node_init(&mut self, list: usize) {
        self.wr(list, list);
        self.wr(list + 8, list);
    }

    fn node_remove(&mut self, list: usize) {
        let next = self.rd(list);
        let prev = self.rd(list + 8);
        self.wr(prev, next);
        self.wr(next + 8, prev);
    }

    fn node_pop(&mut self, list: usize) -> usize {
        assert!(!self.node_is_empty(list));
        let n = self.rd(list);
        self.node_remove(n);
        n
    }

    fn node_push(&mut self, list: usize, p: usize) {
        let next = self.rd(list);
        self.wr(p + 8, list);
        self.wr(p, next);
        self.wr(next + 8, p);
        self.wr(list, p);
    }

    fn node_is_empty(&self, list: usize) -> bool {
        self.rd(list) == list
    }

    fn free_of(&self, k: usize) -> usize {
        assert!(k < self.entries_size);
        self.rd(self.entries + ENTRY * k)
    }

    fn alloc_of(&self, k: usize) -> usize {
        assert!(k < self.entries_size);
        self.rd(self.entries + ENTRY * k + 8)
    }

    fn split_of(&self, k: usize) -> usize {
        assert!(k < self.entries_size);
        self.rd(self.entries + ENTRY * k + 16)
    }

    fn new(origin: usize, len: usize, leaf_size: usize, fill: u8) -> InPlace {
        let mut base_addr = origin;
        let end_addr = base_addr + len;
        assert!(leaf_size % 16 == 0 && leaf_size != 0);
        let leaf2base = log2(leaf_size);
        base_addr = roundup(base_addr, leaf2base);
        let entries_size = log2((end_addr - base_addr) >> leaf2base) + 2;
        let mut a = InPlace {
            mem: vec![fill; len],
            origin,
            base_addr: 0,
            end_addr,
            unavailable: 0,
            entries: base_addr,
            entries_size,
            leaf2base,
        };
        let used_bytes = ENTRY * entries_size;
        assert!(end_addr >= base_addr + used_bytes);
        base_addr += used_bytes;
        for k in 0..entries_size {
            assert!(end_addr >= base_addr + NODE);
            a.wr(a.entries + ENTRY * k, base_addr);
            a.node_init(base_addr);
            base_addr += NODE;
        }
        for k in 0..entries_size {
            let used_bytes = roundup(nblock(k, entries_size), 3) >> 3;
            assert!(end_addr >= base_addr + used_bytes);
            a.wr(a.entries + ENTRY * k + 8, base_addr);
            for at in base_addr..base_addr + used_bytes {
                a.mem[at - origin] = 0;
            }
            base_addr += used_bytes;
        }
        for k in 1..entries_size {
            let used_bytes = roundup(nblock(k, entries_size), 3) >> 3;
            assert!(end_addr >= base_addr + used_bytes);
            a.wr(a.entries + ENTRY * k + 16, base_addr);
            for at in base_addr..base_addr + used_bytes {
                a.mem[at - origin] = 0;
            }
            base_addr += used_bytes;
        }
        base_addr = roundup(base_addr, leaf2base);
        assert!(end_addr >= base_addr);
        a.base_addr = base_addr;
        a.init_free_list();
        a
    }

    fn init_free_list(&mut self) {
        let mut base_addr = self.base_addr;
        let end_addr = self.end_addr;
        let entries_size = self.entries_size;
        for k in (0..(entries_size - 1)).rev() {
            let block_size = (1usize << k) << self.leaf2base;
            while base_addr + block_size <= end_addr {
                assert!(!self.bit_isset(self.alloc_of(k), self.block_index(k, base_addr)));
                let list = self.free_of(k);
                self.node_push(list, base_addr);
                let block_index = self.block_index(k, base_addr);
                if block_index & 1 == 0 {
                    let parent_index = self.block_index(k + 1, base_addr);
                    let alloc = self.alloc_of(k + 1);
                    self.bit_set(alloc, parent_index);
                    let split = self.split_of(k + 1);
                    self.bit_set(split, parent_index);
                }
                base_addr += block_size;
            }
            let n = nblock(k, entries_size);
            let unavailable_block_index = self.block_index(k, base_addr);
            assert!(unavailable_block_index < n);
            let alloc = self.alloc_of(k);
            self.bit_set(alloc, unavailable_block_index);
        }
        self.unavailable = end_addr - base_addr;
    }

    fn malloc(&mut self, nbytes: usize) -> usize {
        let mut fk = 0;
        let mut size = 1usize << self.leaf2base;
        while size < nbytes {
            fk += 1;
            size <<= 1;
        }
        let mut k = match (fk..self.entries_size).find(|&k| !self.node_is_empty(self.free_of(k))) {
            Some(k) => k,
            None => return 0,
        };
        let p = self.node_pop(self.free_of(k));
        self.bit_set(self.alloc_of(k), self.block_index(k, p));
        while k > fk {
            let q = p + ((1usize << (k - 1)) << self.leaf2base);
            self.bit_set(self.split_of(k), self.block_index(k, p));
            self.bit_set(self.alloc_of(k - 1), self.block_index(k - 1, p));
            assert!(!self.bit_isset(self.alloc_of(k - 1), self.block_index(k - 1, q)));
            self.node_push(self.free_of(k - 1), q);
            k -= 1;
        }
        assert_eq!((p >> self.leaf2base) << self.leaf2base, p);
        p
    }

    fn free(&mut self, mut p: usize) {
        let mut k = self.find_k_for_p(p);
        while k < self.entries_size - 1 {
            let block_index = self.block_index(k, p);
            self.bit_clear(self.alloc_of(k), block_index);
            let is_head = block_index & 1 == 0;
            let buddy = if is_head { block_index + 1 } else { block_index - 1 };
            if self.bit_isset(self.alloc_of(k), buddy) {
                break;
            }
            let q = self.block_addr(k, buddy);
            self.node_remove(q);
            if !is_head {
                p = q;
            }
            self.bit_clear(self.split_of(k + 1), self.block_index(k + 1, p));
            k += 1;
        }
        assert!(!self.bit_isset(self.alloc_of(k), self.block_index(k, p)));
        self.node_push(self.free_of(k), p);
    }

    fn available_bytes(&self) -> usize {
        self.end_addr - self.unavailable - self.base_addr
    }

    fn find_k_for_p(&self, p: usize) -> usize {
        for k in 0..(self.entries_size - 1) {
            if self.bit_isset(self.split_of(k + 1), self.block_index(k + 1, p)) {
                assert!(self.bit_isset(self.alloc_of(k), self.block_index(k, p)));
                return k;
            }
        }
        0
    }

    fn block_index(&self, k: usize, p: usize) -> usize {
        assert!(p >= self.base_addr);
        let n = p - self.base_addr;
        let index = (n >> k) >> self.leaf2base;
        assert!(index < nblock(k, self.entries_size));
        index
    }

    fn block_addr(&self, k: usize, i: usize) -> usize {
        self.base_addr + ((i << k) << self.leaf2base)
    }
}

fn same_bytes(engine: &BuddyAlloc, model: &InPlace) {
    for at in 0..model.mem.len() {
        assert_eq!(engine.read(model.origin + at), model.mem[at], "at {}", at);
    }
}

fn same_answers(origin: usize, len: usize, leaf_size: usize, seed: u32, steps: usize) {
    let param = BuddyAllocParam::new(origin, len, leaf_size);
    assert!(BuddyAlloc::can_build(&param));
    let mut engine = BuddyAlloc::new(param, vec![0xa5; len]);
    let mut model = InPlace::new(origin, len, leaf_size, 0xa5);
    assert_eq!(engine.available_bytes(), model.available_bytes());
    same_bytes(&engine, &model);
    let mut seed = seed;
    let mut live: Vec<(usize, usize)> = Vec::new();
    for step in 0..steps {
        seed = seed.wrapping_mul(1664525).wrapping_add(1013904223);
        let pick = (seed >> 7) as usize;
        if pick % 5 < 3 {
            let size = match pick % 7 {
                0 => 1 + pick % 16,
                1 => pick % (len + 1),
                2 => 1usize << (pick % 20),
                _ => 1 + pick % 2000,
            };
            let p = engine.malloc(size);
            assert_eq!(p, model.malloc(size));
            if p != 0 {
                // what is handed out is the caller's: scribble over it
                let n = size.min(64);
                for at in p..p + n {
                    engine.write(at, 0x5a);
                    model.mem[at - origin] = 0x5a;
                }
                live.push((p, size));
            }
        } else if !live.is_empty() {
            let (p, _) = live.swap_remove(pick % live.len());
            engine.free(p);
            model.free(p);
        }
        assert_eq!(engine.available_bytes(), model.available_bytes());
        if step % 512 == 0 {
            same_bytes(&engine, &model);
        }
    }
    for (p, _) in live {
        engine.free(p);
        model.free(p);
    }
    for size in [len, len / 2, len / 4, 4096, 100, 16, 1] {
        assert_eq!(engine.malloc(size), model.malloc(size));
    }
    same_bytes(&engine, &model);
}

#[test]
fn same_addresses_and_bytes_as_a_plain_model() {
    same_answers(0x10_0000, 1024 * 1024, 16, 1, 3000);
    same_answers(0x10_0000, 64 * 1024, 16, 2, 20000);
    same_answers(0x10_0000, 64 * 1024, 256, 3, 5000);
}

#[test]
fn same_addresses_for_ragged_regions() {
    let mut seed: u32 = 77;
    for round in 0..200 {
        seed = seed.wrapping_mul(1664525).wrapping_add(1013904223);
        let origin = 0x1000 + (seed >> 20) as usize % 300;
        let len = 600 + (seed >> 8) as usize % 70000;
        let leaf_size = 16 * (1 + round % 20);
        let param = BuddyAllocParam::new(origin, len, leaf_size);
        if BuddyAlloc::can_build(&param) {
            same_answers(origin, len, leaf_size, seed, 300);
        }
    }
}

#[test]
fn same_books_as_a_plain_model() {
    for len in (224..20000).step_by(16) {
        let param = BuddyAllocParam::new(0x8000, len, 16);
        assert!(BuddyAlloc::can_build(&param), "{}", len);
        let engine = BuddyAlloc::new(param, vec![0x3c; len]);
        let model = InPlace::new(0x8000, len, 16, 0x3c);
        assert_eq!(engine.available_bytes(), model.available_bytes(), "{}", len);
        same_bytes(&engine, &model);
    }
}

#[test]
fn zero_filled_region_is_left_as_it_is_found() {
    let len = 64 * 1024;
    let param = BuddyAllocParam::new_with_zero_filled(0x8000, len, 16);
    let engine = BuddyAlloc::new(param, vec![0; len]);
    let model = InPlace::new(0x8000, len, 16, 0);
    same_bytes(&engine, &model);
}

struct PlainPool {
    mem: Vec<u8>,
    base_addr: usize,
    end_addr: usize,
    next_addr: usize,
    free: usize,
}

impl PlainPool {
    fn rd(&self, addr: usize) -> usize {
        let at = addr - self.base_addr;
        let mut word = [0u8; 8];
        word.copy_from_slice(&self.mem[at..at + 8]);
        u64::from_le_bytes(word) as usize
    }

    fn wr(&mut self, addr: usize, value: usize) {
        let at = addr - self.base_addr;
        self.mem[at..at + 8].copy_from_slice(&(value as u64).to_le_bytes());
    }

    fn init(&mut self, list: usize) {
        self.wr(list, list);
        self.wr(list + 8, list);
    }

    fn remove(&mut self, list: usize) {
        let next = self.rd(list);
        let prev = self.rd(list + 8);
        self.wr(prev, next);
        self.wr(next + 8, prev);
    }

    fn push(&mut self, list: usize, p: usize) {
        let next = self.rd(list);
        self.wr(p + 8, list);
        self.wr(p, next);
        self.wr(next + 8, p);
        self.wr(list, p);
    }

    fn new(base_addr: usize, len: usize, initialized_nodes: usize, fill: u8) -> PlainPool {
        let nblocks = len / 64;
        let cblocks = nblocks.min(initialized_nodes);
        let mut pool = PlainPool {
            mem: vec![fill; len],
            base_addr,
            end_addr: base_addr + nblocks * 64,
            next_addr: base_addr,
            free: 0,
        };
        for _ in 0..cblocks {
            let p = pool.next_addr;
            pool.next_addr += 64;
            pool.give(p);
        }
        pool
    }

    fn take(&mut self, nbytes: usize) -> usize {
        if nbytes > 64 {
            return 0;
        }
        if self.free == 0 {
            if self.next_addr < self.end_addr {
                let result = self.next_addr;
                self.next_addr += 64;
                return result;
            } else {
                return 0;
            }
        }
        let is_last = self.rd(self.free) == self.free;
        let p = self.rd(self.free);
        self.remove(p);
        if is_last {
            self.free = 0;
        }
        p
    }

    fn give(&mut self, p: usize) {
        assert!(p >= self.base_addr && p < self.end_addr);
        if self.free == 0 {
            self.init(p);
            self.free = p;
        } else {
            self.push(self.free, p);
        }
    }
}

#[test]
fn pool_gives_the_same_slots_and_bytes_as_a_plain_model() {
    let base = 0x4000;
    for nodes in [0usize, 1, 2, 4, 7, 100] {
        let len = 64 * 37;
        let param = FastAllocParam::new_with_initialized_nodes(base, len, nodes);
        let mut pool = FastAlloc::new(param, vec![0x77; len]);
        let mut model = PlainPool::new(base, len, nodes, 0x77);
        let mut seed: u32 = 31 + nodes as u32;
        let mut live: Vec<usize> = Vec::new();
        for _ in 0..4000 {
            seed = seed.wrapping_mul(1664525).wrapping_add(1013904223);
            let pick = (seed >> 9) as usize;
            if pick % 5 < 3 {
                let size = pick % 70;
                let p = pool.malloc(size);
                assert_eq!(p, model.take(size));
                if p != 0 {
                    for at in p..p + 64 {
                        pool.write(at, 0x11);
                        model.mem[at - base] = 0x11;
                    }
                    live.push(p);
                }
            } else if !live.is_empty() {
                let p = live.swap_remove(pick % live.len());
                pool.free(p);
                model.give(p);
            }
        }
        for at in 0..len {
            assert_eq!(pool.read(base + at), model.mem[at], "at {}", at);
        }
    }
}
