//! The binary layout of an arena: where each table starts and how large it is,
//! as a function of the longest length and the batch size alone.
//!
//! Every table holds machine words of 8 bytes. The region starts with a header
//! page whose first words are the header fields and which also holds the
//! alphabet mask; the tables follow it back to back, in this order: block map,
//! block spill, match-bitmask table, output store, store mask.

use vstd::prelude::*;

verus! {

/// Bytes in one word of the region.
pub const WORD_BYTES: u64 = 8;

/// Character positions covered by one block (one bit each in a word).
pub const BLOCK_BITS: u64 = 64;

/// Bytes of the header page at the start of every region.
pub const HEADER_BYTES: u64 = 4096;

/// The largest number of strings in one batch.
pub const MAX_BATCH: usize = 512;

/// The number of byte values, which the match-bitmask table has rows for.
pub const ALPHABET_SIZE: u64 = 256;

/// Blocks of each string kept inline in its block-map record; further blocks
/// go to the spill table.
pub const INLINE_BLOCKS: u64 = 1;

/// Byte offset of the alphabet mask, four words with one bit per byte value,
/// inside the header page.
pub const ALPHABET_MASK_BYTES_AT: u64 = 128;

/// The largest region, in bytes, that allocation grants.
pub const MAX_REGION_BYTES: u64 = 0x8000_0000;

/// Blocks needed for `len` character positions.
pub open spec fn blocks_for(len: nat) -> nat {
    ((len + 63) / 64) as nat
}

/// Blocks per string beyond the inline capacity, for the longest length.
pub open spec fn spill_blocks(mmax: nat) -> nat {
    if blocks_for(mmax) > 1 {
        (blocks_for(mmax) - 1) as nat
    } else {
        0
    }
}

/// Bytes of the block map: one record per string.
pub open spec fn blockmap_bytes(batch: nat) -> nat {
    8 * batch
}

/// Bytes of the block spill: the blocks beyond the inline one, per string.
pub open spec fn spill_bytes(mmax: nat, batch: nat) -> nat {
    8 * (spill_blocks(mmax) * batch)
}

/// Bytes of the match-bitmask table: a word per symbol, block and string.
pub open spec fn speq_bytes(mmax: nat, batch: nat) -> nat {
    8 * (256 * (blocks_for(mmax) * batch))
}

/// Bytes of the output store: one result slot per string.
pub open spec fn output_bytes(batch: nat) -> nat {
    8 * batch
}

/// Bytes of the store mask: a word per block and string.
pub open spec fn store_bytes(mmax: nat, batch: nat) -> nat {
    8 * (blocks_for(mmax) * batch)
}

pub open spec fn blockmap_at(mmax: nat, batch: nat) -> nat {
    4096
}

pub open spec fn spill_at(mmax: nat, batch: nat) -> nat {
    blockmap_at(mmax, batch) + blockmap_bytes(batch)
}

pub open spec fn speq_at(mmax: nat, batch: nat) -> nat {
    spill_at(mmax, batch) + spill_bytes(mmax, batch)
}

pub open spec fn output_at(mmax: nat, batch: nat) -> nat {
    speq_at(mmax, batch) + speq_bytes(mmax, batch)
}

pub open spec fn store_at(mmax: nat, batch: nat) -> nat {
    output_at(mmax, batch) + output_bytes(batch)
}

/// The total size in bytes of the region for a batch.
pub open spec fn region_size(mmax: nat, batch: nat) -> nat {
    store_at(mmax, batch) + store_bytes(mmax, batch)
}

/// The half-open byte ranges `[a, a + la)` and `[b, b + lb)` do not overlap.
pub open spec fn disjoint(a: nat, la: nat, b: nat, lb: nat) -> bool {
    a + la <= b || b + lb <= a
}

/// Where the tables of one region stand, in bytes.
#[derive(Debug, Clone, Copy, PartialEq, Eq, Structural)]
pub struct Layout {
    pub mmax: u64,
    pub batch_size: u64,
    pub blocks: u64,
    pub blockmap: u64,
    pub spill: u64,
    pub speq: u64,
    pub output: u64,
    pub store: u64,
    pub size: u64,
}

impl Layout {
    /// The layout holds the values the spec functions give for its own
    /// longest length and batch size.
    pub open spec fn describes(self, mmax: nat, batch: nat) -> bool {
        &&& self.mmax == mmax
        &&& self.batch_size == batch
        &&& self.blocks == blocks_for(mmax)
        &&& self.blockmap == blockmap_at(mmax, batch)
        &&& self.spill == spill_at(mmax, batch)
        &&& self.speq == speq_at(mmax, batch)
        &&& self.output == output_at(mmax, batch)
        &&& self.store == store_at(mmax, batch)
        &&& self.size == region_size(mmax, batch)
    }

    /// Computes the layout for a batch of `batch_size` strings whose longest
    /// is `mmax` bytes long; `None` when the region would exceed
    /// `MAX_REGION_BYTES`.
    pub fn compute(mmax: usize, batch_size: usize) -> (r: Option<Layout>)
        requires
            1 <= batch_size <= MAX_BATCH,
        ensures
            r is None <==> region_size(mmax as nat, batch_size as nat) > MAX_REGION_BYTES,
            r matches Some(l) ==> l.describes(mmax as nat, batch_size as nat),
    {
        let m = mmax as u64;
        let b = batch_size as u64;
        let blocks: u64 = m / BLOCK_BITS + if m % BLOCK_BITS != 0 { 1u64 } else { 0u64 };
        assert(blocks == blocks_for(m as nat));
        if blocks > MAX_REGION_BYTES / (8 * ALPHABET_SIZE) {
            proof {
                assert(speq_bytes(m as nat, b as nat) > MAX_REGION_BYTES) by (nonlinear_arith)
                    requires
                        blocks_for(m as nat) > 0x100000nat,
                        b >= 1,
                        speq_bytes(m as nat, b as nat) == 8 * (256 * (blocks_for(m as nat) * b)),
                ;
            }
            return None;
        }
        let spill_blocks: u64 = if blocks > INLINE_BLOCKS { blocks - INLINE_BLOCKS } else { 0 };
        assert(blocks * b <= 0x100000 * 512) by (nonlinear_arith)
            requires blocks <= 0x100000, b <= 512;
        assert(spill_blocks * b <= blocks * b) by (nonlinear_arith)
            requires spill_blocks <= blocks;
        let blockmap: u64 = HEADER_BYTES;
        let spill: u64 = blockmap + WORD_BYTES * b;
        let speq: u64 = spill + WORD_BYTES * (spill_blocks * b);
        let output: u64 = speq + WORD_BYTES * (ALPHABET_SIZE * (blocks * b));
        let store: u64 = output + WORD_BYTES * b;
        let size: u64 = store + WORD_BYTES * (blocks * b);
        if size > MAX_REGION_BYTES {
            return None;
        }
        Some(Layout { mmax: m, batch_size: b, blocks, blockmap, spill, speq, output, store, size })
    }
}

/// Every table of a region starts inside the region, the tables and the header
/// page do not overlap one another, and they end where the region ends.
pub proof fn lemma_layout_fits(mmax: nat, batch: nat)
    requires
        1 <= batch <= 512,
    ensures
        blockmap_at(mmax, batch) < region_size(mmax, batch),
        spill_at(mmax, batch) < region_size(mmax, batch),
        speq_at(mmax, batch) < region_size(mmax, batch),
        output_at(mmax, batch) < region_size(mmax, batch),
        store_at(mmax, batch) + store_bytes(mmax, batch) == region_size(mmax, batch),
        disjoint(0, 4096, blockmap_at(mmax, batch), blockmap_bytes(batch)),
        disjoint(blockmap_at(mmax, batch), blockmap_bytes(batch), spill_at(mmax, batch), spill_bytes(mmax, batch)),
        disjoint(blockmap_at(mmax, batch), blockmap_bytes(batch), speq_at(mmax, batch), speq_bytes(mmax, batch)),
        disjoint(blockmap_at(mmax, batch), blockmap_bytes(batch), output_at(mmax, batch), output_bytes(batch)),
        disjoint(blockmap_at(mmax, batch), blockmap_bytes(batch), store_at(mmax, batch), store_bytes(mmax, batch)),
        disjoint(spill_at(mmax, batch), spill_bytes(mmax, batch), speq_at(mmax, batch), speq_bytes(mmax, batch)),
        disjoint(spill_at(mmax, batch), spill_bytes(mmax, batch), output_at(mmax, batch), output_bytes(batch)),
        disjoint(spill_at(mmax, batch), spill_bytes(mmax, batch), store_at(mmax, batch), store_bytes(mmax, batch)),
        disjoint(speq_at(mmax, batch), speq_bytes(mmax, batch), output_at(mmax, batch), output_bytes(batch)),
        disjoint(speq_at(mmax, batch), speq_bytes(mmax, batch), store_at(mmax, batch), store_bytes(mmax, batch)),
        disjoint(output_at(mmax, batch), output_bytes(batch), store_at(mmax, batch), store_bytes(mmax, batch)),
{
}

/// The longest length never exceeds the size of the region sized for it.
pub proof fn lemma_mmax_within_region(mmax: nat, batch: nat)
    requires
        batch >= 1,
    ensures
        mmax <= speq_bytes(mmax, batch),
        mmax <= region_size(mmax, batch),
{
    let k = blocks_for(mmax);
    assert(mmax <= 64 * k);
    assert(k <= k * batch) by (nonlinear_arith)
        requires batch >= 1;
}

/// In a region within `MAX_REGION_BYTES`, the block count and the number of
/// match-bitmask words stay small, and every table starts on a word.
pub proof fn lemma_region_bounds(mmax: nat, batch: nat)
    requires
        1 <= batch <= 512,
        region_size(mmax, batch) <= 0x8000_0000,
    ensures
        blocks_for(mmax) <= 0x100000,
        blocks_for(mmax) * batch <= 0x100000,
        spill_blocks(mmax) * batch <= blocks_for(mmax) * batch,
        blockmap_at(mmax, batch) % 8 == 0,
        spill_at(mmax, batch) % 8 == 0,
        speq_at(mmax, batch) % 8 == 0,
        output_at(mmax, batch) % 8 == 0,
        store_at(mmax, batch) % 8 == 0,
        region_size(mmax, batch) % 8 == 0,
{
    let k = blocks_for(mmax);
    assert(k <= k * batch) by (nonlinear_arith)
        requires batch >= 1;
    assert(spill_blocks(mmax) * batch <= k * batch) by (nonlinear_arith)
        requires spill_blocks(mmax) <= k;
}

} // verus!
