//! A region of memory: a run of bytes that starts at an address.
//!
//! The allocators keep their own records in the region that they manage,
//! as bytes and as words of eight bytes, the low byte first.
use vstd::prelude::*;

verus! {

/// The bytes of a word.
pub const WORD: usize = 8;

/// The word that the eight bytes from `at` on stand for, the low byte first.
#[verifier::opaque]
pub open spec fn word_of(bytes: Seq<u8>, at: int) -> int {
    bytes[at] + 256 * (bytes[at + 1] + 256 * (bytes[at + 2] + 256 * (bytes[at + 3] + 256 * (bytes[at
        + 4] + 256 * (bytes[at + 5] + 256 * (bytes[at + 6] + 256 * (bytes[at + 7] as int)))))))
}

/// Two runs of bytes that agree on the eight bytes from `at` on hold the
/// same word there.
pub proof fn lemma_word_same(a: Seq<u8>, b: Seq<u8>, at: int)
    requires
        forall|i: int| at <= i < at + 8 ==> a[i] == b[i],
    ensures
        word_of(a, at) == word_of(b, at),
{
    reveal(word_of);
}

/// The addresses of the `n` bytes from `addr` on.
pub open spec fn span(addr: int, n: int) -> Set<int> {
    Set::new(|a: int| addr <= a < addr + n)
}

/// A run of bytes that starts at the address `origin()`.
pub struct Region {
    bytes: Vec<u8>,
    origin: usize,
}

impl Region {
    /// The bytes of the region.
    pub closed spec fn view(&self) -> Seq<u8> {
        self.bytes@
    }

    /// The address of the first byte.
    pub closed spec fn origin(&self) -> int {
        self.origin as int
    }

    /// The address just past the last byte.
    pub open spec fn end(&self) -> int {
        self.origin() + self@.len()
    }

    /// The region ends within the address space.
    pub open spec fn wf(&self) -> bool {
        self.end() <= usize::MAX
    }

    /// Whether the `n` bytes from address `addr` on lie in the region.
    pub open spec fn holds(&self, addr: int, n: int) -> bool {
        self.origin() <= addr && addr + n <= self.end()
    }

    /// The byte at address `addr`.
    pub open spec fn byte_at(&self, addr: int) -> u8 {
        self@[addr - self.origin()]
    }

    /// The word at address `addr`.
    pub open spec fn word_at(&self, addr: int) -> int {
        word_of(self@, addr - self.origin())
    }

    /// The two regions span the same addresses and agree on every byte but
    /// the `n` bytes from address `addr` on.
    pub open spec fn same_but(&self, o: &Region, addr: int, n: int) -> bool {
        &&& self.origin() == o.origin()
        &&& self@.len() == o@.len()
        &&& forall|i: int|
            0 <= i < self@.len() && !(addr <= self.origin() + i < addr + n) ==> #[trigger] self@[i]
                == o@[i]
    }

    /// The two regions span the same addresses and agree on every byte but
    /// those at the addresses in `s`.
    pub open spec fn same_except(&self, o: &Region, s: Set<int>) -> bool {
        &&& self.origin() == o.origin()
        &&& self@.len() == o@.len()
        &&& forall|i: int|
            0 <= i < self@.len() && !s.contains(self.origin() + i) ==> #[trigger] self@[i] == o@[i]
    }

    /// A word none of whose bytes may differ is the same in both regions.
    pub proof fn lemma_word_same_except(&self, o: &Region, s: Set<int>, x: int)
        requires
            self.same_except(o, s),
            o.holds(x, 8),
            forall|a: int| x <= a < x + 8 ==> !s.contains(a),
        ensures
            self.word_at(x) == o.word_at(x),
    {
        assert forall|i: int| x - self.origin() <= i < x - self.origin() + 8 implies self@[i]
            == o@[i] by {
            assert(!s.contains(self.origin() + i));
        }
        lemma_word_same(self@, o@, x - self.origin());
    }

    /// A byte that may not differ is the same in both regions.
    pub proof fn lemma_byte_same_except(&self, o: &Region, s: Set<int>, x: int)
        requires
            self.same_except(o, s),
            o.holds(x, 1),
            !s.contains(x),
        ensures
            self.byte_at(x) == o.byte_at(x),
    {
        assert(self@[x - self.origin()] == o@[x - self.origin()]);
    }

    /// A word away from the bytes that differ is the same in both regions.
    pub proof fn lemma_word_kept(&self, o: &Region, x: int, addr: int, n: int)
        requires
            self.same_but(o, addr, n),
            o.holds(x, 8),
            x + 8 <= addr || addr + n <= x,
        ensures
            self.word_at(x) == o.word_at(x),
    {
        assert forall|i: int| x - self.origin() <= i < x - self.origin() + 8 implies self@[i]
            == o@[i] by {}
        lemma_word_same(self@, o@, x - self.origin());
    }

    /// The region of the bytes `bytes`, with the first at address `origin`.
    pub fn new(origin: usize, bytes: Vec<u8>) -> (r: Region)
        requires
            origin + bytes.len() <= usize::MAX,
        ensures
            r.wf(),
            r.origin() == origin,
            r@ == bytes@,
    {
        Region { bytes, origin }
    }

    /// The address of the first byte.
    pub fn start(&self) -> (a: usize)
        ensures
            a == self.origin(),
    {
        self.origin
    }

    /// The number of bytes.
    pub fn len(&self) -> (n: usize)
        ensures
            n == self@.len(),
    {
        self.bytes.len()
    }

    /// Reads the byte at address `addr`.
    pub fn read(&self, addr: usize) -> (b: u8)
        requires
            self.holds(addr as int, 1),
        ensures
            b == self.byte_at(addr as int),
    {
        self.bytes[addr - self.origin]
    }

    /// Writes the byte at address `addr`.
    pub fn write(&mut self, addr: usize, b: u8)
        requires
            old(self).wf(),
            old(self).holds(addr as int, 1),
        ensures
            final(self).wf(),
            final(self).byte_at(addr as int) == b,
            final(self).same_but(old(self), addr as int, 1),
            final(self)@ == old(self)@.update(addr - old(self).origin(), b),
    {
        let at: usize = addr - self.origin;
        self.bytes[at] = b;
    }

    /// Writes zero to the `n` bytes from address `addr` on.
    pub fn zero(&mut self, addr: usize, n: usize)
        requires
            old(self).wf(),
            old(self).holds(addr as int, n as int),
        ensures
            final(self).wf(),
            final(self).same_but(old(self), addr as int, n as int),
            forall|a: int| addr <= a < addr + n ==> #[trigger] final(self).byte_at(a) == 0u8,
    {
        let mut i: usize = 0;
        while i < n
            invariant
                i <= n,
                self.wf(),
                old(self).holds(addr as int, n as int),
                self.same_but(old(self), addr as int, n as int),
                forall|a: int| addr <= a < addr + i ==> #[trigger] self.byte_at(a) == 0u8,
            decreases n - i,
        {
            let ghost before = *self;
            self.write(addr + i, 0);
            proof {
                assert forall|a: int| addr <= a < addr + i + 1 implies #[trigger] self.byte_at(a)
                    == 0u8 by {
                    if a < addr + i {
                        assert(before.byte_at(a) == 0u8);
                        assert(self@[a - self.origin()] == before@[a - self.origin()]);
                    }
                }
            }
            i += 1;
        }
    }

    /// Reads the word at address `addr`.
    pub fn read_word(&self, addr: usize) -> (w: usize)
        requires
            self.wf(),
            self.holds(addr as int, 8),
            self.word_at(addr as int) <= usize::MAX,
        ensures
            w == self.word_at(addr as int),
    {
        let at: usize = addr - self.origin;
        proof {
            reveal(word_of);
        }
        let w7: u64 = self.bytes[at + 7] as u64;
        let w6: u64 = w7 * 256 + self.bytes[at + 6] as u64;
        let w5: u64 = w6 * 256 + self.bytes[at + 5] as u64;
        let w4: u64 = w5 * 256 + self.bytes[at + 4] as u64;
        let w3: u64 = w4 * 256 + self.bytes[at + 3] as u64;
        let w2: u64 = w3 * 256 + self.bytes[at + 2] as u64;
        let w1: u64 = w2 * 256 + self.bytes[at + 1] as u64;
        let w0: u64 = w1 * 256 + self.bytes[at] as u64;
        w0 as usize
    }

    /// Writes the word at address `addr`.
    pub fn write_word(&mut self, addr: usize, w: usize)
        requires
            old(self).wf(),
            old(self).holds(addr as int, 8),
        ensures
            final(self).wf(),
            final(self).word_at(addr as int) == w,
            final(self).same_but(old(self), addr as int, 8),
    {
        let at: usize = addr - self.origin;
        let x0: u64 = w as u64;
        let x1: u64 = x0 / 256;
        let x2: u64 = x1 / 256;
        let x3: u64 = x2 / 256;
        let x4: u64 = x3 / 256;
        let x5: u64 = x4 / 256;
        let x6: u64 = x5 / 256;
        let x7: u64 = x6 / 256;
        self.bytes[at] = (x0 % 256) as u8;
        self.bytes[at + 1] = (x1 % 256) as u8;
        self.bytes[at + 2] = (x2 % 256) as u8;
        self.bytes[at + 3] = (x3 % 256) as u8;
        self.bytes[at + 4] = (x4 % 256) as u8;
        self.bytes[at + 5] = (x5 % 256) as u8;
        self.bytes[at + 6] = (x6 % 256) as u8;
        self.bytes[at + 7] = (x7 % 256) as u8;
        proof {
            reveal(word_of);
        }
    }
}

/// What four writes leave of a region: a node at `p` has been linked
/// between the node at `s` and the node at `first` that followed it.
pub proof fn lemma_linked(
    r0: &Region,
    r1: &Region,
    r2: &Region,
    r3: &Region,
    r4: &Region,
    s: int,
    p: int,
    first: int,
)
    requires
        r0.holds(s, 16),
        r0.holds(p, 16),
        r0.holds(first, 16),
        p + 16 <= s || s + 16 <= p,
        first == s || first + 16 <= s || s + 16 <= first,
        p + 16 <= first || first + 16 <= p,
        r1.same_but(r0, p + 8, 8),
        r1.word_at(p + 8) == s,
        r2.same_but(r1, p, 8),
        r2.word_at(p) == first,
        r3.same_but(r2, first + 8, 8),
        r3.word_at(first + 8) == p,
        r4.same_but(r3, s, 8),
        r4.word_at(s) == p,
    ensures
        r4.word_at(s) == p,
        r4.word_at(first + 8) == p,
        r4.word_at(p) == first,
        r4.word_at(p + 8) == s,
        r4.same_except(r0, span(p, 16).union(span(first + 8, 8)).union(span(s, 8))),
{
    r4.lemma_word_kept(r3, first + 8, s, 8);
    r3.lemma_word_kept(r2, p, first + 8, 8);
    r4.lemma_word_kept(r3, p, s, 8);
    r2.lemma_word_kept(r1, p + 8, p, 8);
    r3.lemma_word_kept(r2, p + 8, first + 8, 8);
    r4.lemma_word_kept(r3, p + 8, s, 8);
    let t = span(p, 16).union(span(first + 8, 8)).union(span(s, 8));
    assert forall|i: int| 0 <= i < r4@.len() && !t.contains(r4.origin() + i)
        implies #[trigger] r4@[i]
        == r0@[i] by {
        assert(r4@[i] == r3@[i]);
        assert(r3@[i] == r2@[i]);
        assert(r2@[i] == r1@[i]);
        assert(r1@[i] == r0@[i]);
    }
}

/// What two writes leave of a region: the node between the node at `prev`
/// and the node at `next` has been taken out of its ring.
pub proof fn lemma_unlinked(r0: &Region, r1: &Region, r2: &Region, prev: int, next: int)
    requires
        r0.holds(prev, 16),
        r0.holds(next, 16),
        prev == next || prev + 16 <= next || next + 16 <= prev,
        r1.same_but(r0, prev, 8),
        r1.word_at(prev) == next,
        r2.same_but(r1, next + 8, 8),
        r2.word_at(next + 8) == prev,
    ensures
        r2.word_at(prev) == next,
        r2.word_at(next + 8) == prev,
        r2.same_except(r0, span(prev, 8).union(span(next + 8, 8))),
{
    r2.lemma_word_kept(r1, prev, next + 8, 8);
    let t = span(prev, 8).union(span(next + 8, 8));
    assert forall|i: int| 0 <= i < r2@.len() && !t.contains(r2.origin() + i)
        implies #[trigger] r2@[i]
        == r0@[i] by {
        assert(r2@[i] == r1@[i]);
        assert(r1@[i] == r0@[i]);
    }
}

} // verus!
