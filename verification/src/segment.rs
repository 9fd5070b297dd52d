//! Growable byte regions addressed by offset, grown one 64 KiB page at a time.

use vstd::prelude::*;

verus! {

/// Size of one page of a segment, in bytes.
pub const WASM_PAGE_SIZE: u64 = 65536;

/// Number of pages needed to hold `len` bytes.
pub open spec fn pages_for(len: int) -> int {
    (len + 65535) / 65536
}

/// A sequence of `n` zero bytes.
pub open spec fn zeros(n: int) -> Seq<u8> {
    Seq::new(n as nat, |i: int| 0u8)
}

/// `base` with `src` laid over it from `offset` on.
pub open spec fn overlay(base: Seq<u8>, offset: int, src: Seq<u8>) -> Seq<u8> {
    Seq::new(
        base.len(),
        |i: int|
            if offset <= i < offset + src.len() {
                src[i - offset]
            } else {
                base[i]
            },
    )
}

/// A segment held in memory: a byte vector that only ever grows, by whole pages.
pub struct ICMemory {
    mem: Vec<u8>,
}

impl View for ICMemory {
    type V = Seq<u8>;

    closed spec fn view(&self) -> Seq<u8> {
        self.mem@
    }
}

impl ICMemory {
    /// The segment's size in pages, a partly filled last page counted in full.
    pub open spec fn spec_size(&self) -> int {
        pages_for(self@.len() as int)
    }

    /// Whether growing by `pages` pages would pass the addressable limit.
    pub open spec fn grow_overflows(&self, pages: u64) -> bool {
        (self.spec_size() + pages) * 65536 > usize::MAX
    }

    /// Wraps existing bytes as a segment.
    pub fn new(mem: Vec<u8>) -> (r: Self)
        ensures
            r@ == mem@,
    {
        ICMemory { mem }
    }

    /// Gives the segment's bytes back.
    pub fn into_inner(self) -> (r: Vec<u8>)
        ensures
            r@ == self@,
    {
        self.mem
    }

    /// Length of the segment in bytes.
    pub fn byte_len(&self) -> (r: usize)
        ensures
            r == self@.len(),
    {
        self.mem.len()
    }

    /// Size in pages.
    pub fn size(&self) -> (r: u64)
        ensures
            r == self.spec_size(),
    {
        let len: u128 = self.mem.len() as u128;
        let pages: u128 = (len + 65535) / 65536;
        pages as u64
    }

    /// Extends the segment by `pages` pages of zero bytes and returns the page
    /// count before the call, or returns -1 and leaves the segment as it was
    /// when the grown segment would not be addressable.
    pub fn grow(&mut self, pages: u64) -> (r: i64)
        ensures
            old(self).grow_overflows(pages) ==> r == -1 && final(self)@ == old(self)@,
            !old(self).grow_overflows(pages) ==> r == old(self).spec_size() && final(self)@
                == old(self)@ + zeros(pages * 65536),
    {
        let current: u64 = self.size();
        let total: u128 = (current as u128 + pages as u128) * 65536;
        if total > usize::MAX as u128 {
            return -1;
        }
        let old_len: usize = self.mem.len();
        let extra: usize = (pages as u128 * 65536) as usize;
        let new_len: usize = old_len + extra;
        self.mem.resize(new_len, 0u8);
        assert(self.mem@ =~= old(self).mem@ + zeros(pages * 65536));
        current as i64
    }

    /// Copies `dst.len()` bytes starting at `offset` into `dst`.
    pub fn read(&self, offset: u64, dst: &mut Vec<u8>)
        requires
            offset + old(dst).len() <= self@.len(),
        ensures
            final(dst)@ == self@.subrange(offset as int, offset + old(dst).len()),
    {
        let n: usize = dst.len();
        let total: usize = self.mem.len();
        assert(offset <= total);
        let start: usize = offset as usize;
        let mut i: usize = 0;
        while i < n
            invariant
                i <= n,
                n == dst.len(),
                start == offset,
                start + n <= self.mem.len(),
                forall|k: int| 0 <= k < i ==> dst@[k] == self.mem@[start + k],
            decreases n - i,
        {
            dst.set(i, self.mem[start + i]);
            i += 1;
        }
        assert(dst@ =~= self@.subrange(offset as int, offset + n));
    }

    /// Copies `src` into the segment starting at `offset`.
    pub fn write(&mut self, offset: u64, src: &[u8])
        requires
            offset + src@.len() <= old(self)@.len(),
        ensures
            final(self)@ == overlay(old(self)@, offset as int, src@),
    {
        let n: usize = src.len();
        let total: usize = self.mem.len();
        assert(offset <= total);
        let start: usize = offset as usize;
        let mut i: usize = 0;
        while i < n
            invariant
                i <= n,
                n == src@.len(),
                start == offset,
                self.mem@.len() == old(self).mem@.len(),
                total == self.mem@.len(),
                start + n <= total,
                forall|k: int|
                    0 <= k < start + i ==> self.mem@[k] == overlay(
                        old(self).mem@,
                        offset as int,
                        src@,
                    )[k],
                forall|k: int| start + i <= k < self.mem@.len() ==> self.mem@[k] == old(self).mem@[k],
            decreases n - i,
        {
            self.mem.set(start + i, src[i]);
            i += 1;
        }
        assert(self.mem@ =~= overlay(old(self).mem@, offset as int, src@));
    }
}

} // verus!
