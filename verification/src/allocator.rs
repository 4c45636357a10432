//! The raw-memory capability.
//!
//! The storage protocol allocates two things through this interface — the
//! per-thread value and the stored initialiser — and must be usable with
//! no general-purpose runtime behind it. A host without direct access to
//! a native allocator emulates one by keeping a bookkeeping word in front
//! of every block it hands out, so that deallocation can recover the
//! allocation's size from the block alone; `RAllocator` is that emulation
//! and `Block` its blocks. A block must go back to the allocator that
//! produced it: consuming the block on deallocation enforces that it is
//! released at most once.

use vstd::prelude::*;

verus! {

/// The word eight little-endian bytes encode.
pub open spec fn le_word(b0: u8, b1: u8, b2: u8, b3: u8, b4: u8, b5: u8, b6: u8, b7: u8) -> u64 {
    (b0 as u64) | ((b1 as u64) << 8) | ((b2 as u64) << 16) | ((b3 as u64) << 24) | ((b4 as u64)
        << 32) | ((b5 as u64) << 40) | ((b6 as u64) << 48) | ((b7 as u64) << 56)
}

/// Split a word into its eight little-endian bytes.
fn word_bytes(w: u64) -> (r: (u8, u8, u8, u8, u8, u8, u8, u8))
    ensures
        le_word(r.0, r.1, r.2, r.3, r.4, r.5, r.6, r.7) == w,
{
    let b0: u8 = (w & 0xff) as u8;
    let b1: u8 = ((w >> 8) & 0xff) as u8;
    let b2: u8 = ((w >> 16) & 0xff) as u8;
    let b3: u8 = ((w >> 24) & 0xff) as u8;
    let b4: u8 = ((w >> 32) & 0xff) as u8;
    let b5: u8 = ((w >> 40) & 0xff) as u8;
    let b6: u8 = ((w >> 48) & 0xff) as u8;
    let b7: u8 = ((w >> 56) & 0xff) as u8;
    proof {
        assert(((w & 0xff) as u8 as u64) | ((((w >> 8) & 0xff) as u8 as u64) << 8) | ((((w >> 16)
            & 0xff) as u8 as u64) << 16) | ((((w >> 24) & 0xff) as u8 as u64) << 24) | ((((w >> 32)
            & 0xff) as u8 as u64) << 32) | ((((w >> 40) & 0xff) as u8 as u64) << 40) | ((((w >> 48)
            & 0xff) as u8 as u64) << 48) | ((((w >> 56) & 0xff) as u8 as u64) << 56) == w)
            by (bit_vector);
    }
    (b0, b1, b2, b3, b4, b5, b6, b7)
}

/// A block of raw memory: a bookkeeping word first — it stores the
/// block's total length — then the caller's bytes.
pub struct Block {
    bytes: Vec<u8>,
}

impl Block {
    /// The bookkeeping word reads back as the block's total length, so
    /// the allocation size can always be recovered from the block alone.
    pub closed spec fn wf(self) -> bool {
        self.bytes@.len() >= 8 && le_word(
            self.bytes@[0],
            self.bytes@[1],
            self.bytes@[2],
            self.bytes@[3],
            self.bytes@[4],
            self.bytes@[5],
            self.bytes@[6],
            self.bytes@[7],
        ) == self.bytes@.len()
    }

    /// The caller-usable size: everything past the bookkeeping word.
    pub closed spec fn size(self) -> nat {
        (self.bytes@.len() - 8) as nat
    }

    /// The caller's bytes.
    pub closed spec fn data(self) -> Seq<u8> {
        self.bytes@.skip(8)
    }

    /// Read the caller byte at `i`.
    pub fn read(&self, i: usize) -> (v: u8)
        requires
            self.wf(),
            i < self.size(),
        ensures
            v == self.data()[i as int],
    {
        let n: usize = self.bytes.len();
        proof {
            assert(i + 8 < n);
        }
        self.bytes[i + 8]
    }

    /// Write the caller byte at `i`; the bookkeeping word is out of the
    /// caller's reach, so well-formedness survives every write.
    pub fn write(&mut self, i: usize, v: u8)
        requires
            old(self).wf(),
            i < old(self).size(),
        ensures
            final(self).wf(),
            final(self).size() == old(self).size(),
            final(self).data() == old(self).data().update(i as int, v),
    {
        let n: usize = self.bytes.len();
        proof {
            assert(i + 8 < n);
        }
        self.bytes.set(i + 8, v);
        proof {
            assert(final(self).data() =~= old(self).data().update(i as int, v));
        }
    }

    /// The allocation size, recovered from the bookkeeping word alone —
    /// what an emulated deallocation must reconstruct.
    pub fn stored_size(&self) -> (n: usize)
        requires
            self.wf(),
        ensures
            n == self.size(),
    {
        let n: usize = self.bytes.len();
        let w: u64 = (self.bytes[0] as u64) | ((self.bytes[1] as u64) << 8) | ((self.bytes[2] as u64)
            << 16) | ((self.bytes[3] as u64) << 24) | ((self.bytes[4] as u64) << 32) | ((
        self.bytes[5] as u64) << 40) | ((self.bytes[6] as u64) << 48) | ((self.bytes[7] as u64)
            << 56);
        proof {
            assert(w == self.bytes@.len());
            assert(w == n as u64);
        }
        (w as usize) - 8
    }
}

/// The minimal exclusive allocate/deallocate capability: raw memory of at
/// least the asked-for size, to be returned to the same allocator. A
/// failing allocation is fatal to the protocol, never reported as a
/// value, so the machine-limit bound on `size` is the one precondition.
pub trait Allocator {
    /// Produce a block of at least `size` caller-usable bytes.
    fn allocate(size: usize) -> (b: Block)
        requires
            size <= usize::MAX - 8,
        ensures
            b.wf(),
            b.size() >= size,
    ;

    /// Return a block to the allocator that produced it; consuming it
    /// releases it exactly once.
    fn deallocate(b: Block)
        requires
            b.wf(),
    ;
}

/// The emulated allocator for hosts without direct access to a native
/// one: it hides one bookkeeping word in front of the block so that
/// `deallocate` can recover the allocation size with no outside help.
pub struct RAllocator;

impl Allocator for RAllocator {
    fn allocate(size: usize) -> (b: Block) {
        let total: usize = size + 8;
        let mut bytes: Vec<u8> = Vec::new();
        let mut i: usize = 0;
        while i < total
            invariant
                i <= total,
                bytes@.len() == i,
            decreases total - i,
        {
            bytes.push(0);
            i += 1;
        }
        let (b0, b1, b2, b3, b4, b5, b6, b7) = word_bytes(total as u64);
        bytes.set(0, b0);
        bytes.set(1, b1);
        bytes.set(2, b2);
        bytes.set(3, b3);
        bytes.set(4, b4);
        bytes.set(5, b5);
        bytes.set(6, b6);
        bytes.set(7, b7);
        let blk = Block { bytes };
        proof {
            assert(blk.bytes@.len() == total);
            assert(blk.bytes@[0] == b0 && blk.bytes@[1] == b1 && blk.bytes@[2] == b2
                && blk.bytes@[3] == b3 && blk.bytes@[4] == b4 && blk.bytes@[5] == b5
                && blk.bytes@[6] == b6 && blk.bytes@[7] == b7);
            assert(blk.wf());
        }
        blk
    }

    fn deallocate(b: Block) {
        // an emulated deallocation recovers the allocation's size from the
        // bookkeeping word; consuming the block then releases its memory
        let _recovered: usize = b.stored_size();
    }
}

} // verus!
