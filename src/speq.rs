//! The Speq builder: fills the tables of an arena for one batch.

use vstd::prelude::*;

use crate::arena::{batch_view, byte_lengths, Arena, HeaderField, HEADER_FIELDS};
use crate::layout::{
    blockmap_at, blocks_for, lemma_region_bounds, output_at, speq_at, spill_at, spill_blocks,
    store_at,
};
use crate::len::{calculate_mmax, lengths, max_len};
use crate::bits::{has_bit, lemma_set_bit, lemma_zero_has_no_bit};

verus! {

/// Word index of the alphabet mask in the region.
pub const ALPHABET_WORD: usize = 16;

/// The bytes of each string of a batch, in batch order.
pub open spec fn texts(data: Seq<&[u8]>) -> Seq<Seq<u8>> {
    data.map_values(|s: &[u8]| s@)
}

/// Position `pos` of `s` exists and holds the byte value `c`.
pub open spec fn matches_at(s: Seq<u8>, pos: int, c: int) -> bool {
    0 <= pos < s.len() && s[pos] as int == c
}

/// Bit `j` of `w` is set exactly when position `start + j` of `s` holds `c`.
pub open spec fn marks(w: u64, s: Seq<u8>, start: int, c: int) -> bool {
    forall|j: u64| j < 64 ==> (#[trigger] has_bit(w, j) <==> matches_at(s, start + j, c))
}

/// The byte value `c` occurs in some string of the batch.
pub open spec fn occurs(texts: Seq<Seq<u8>>, c: int) -> bool {
    exists|t: int, i: int|
        0 <= t < texts.len() && 0 <= i < texts[t].len() && #[trigger] texts[t][i] as int == c
}

/// `c` occurs before position `i` of string `t`, in batch order.
pub open spec fn occurs_before(texts: Seq<Seq<u8>>, t: int, i: int, c: int) -> bool {
    exists|t2: int, i2: int|
        0 <= t2 < texts.len() && 0 <= i2 < texts[t2].len() && (t2 < t || (t2 == t && i2 < i))
            && #[trigger] texts[t2][i2] as int == c
}

/// The match bitmask of block `block` of `s` for the byte value `c`.
fn match_word(s: &[u8], block: usize, c: u8) -> (w: u64)
    requires
        block <= 0x100000,
    ensures
        marks(w, s@, block * 64, c as int),
{
    let start: usize = block * 64;
    let mut w: u64 = 0;
    let mut j: u64 = 0;
    proof {
        assert forall|k: u64| k < 64 implies !#[trigger] has_bit(w, k) by {
            lemma_zero_has_no_bit(k);
        }
    }
    while j < 64
        invariant
            j <= 64,
            start == block * 64,
            start <= 0x4000000,
            forall|k: u64| k < 64 ==> (#[trigger] has_bit(w, k) <==> (k < j && matches_at(s@, start + k, c as int))),
        decreases 64 - j,
    {
        let pos: usize = start + j as usize;
        let hit = pos < s.len() && s[pos] == c;
        if hit {
            let old_w = w;
            w = w | (1u64 << j);
            proof {
                assert forall|k: u64| k < 64 implies (#[trigger] has_bit(w, k) <==> (k < j + 1 && matches_at(s@, start + k, c as int))) by {
                    lemma_set_bit(old_w, j, k);
                }
            }
        }
        j = j + 1;
    }
    w
}

/// Whether each byte value occurs anywhere in the batch.
fn presence(data: &[&[u8]]) -> (p: Vec<bool>)
    ensures
        p@.len() == 256,
        forall|c: int| 0 <= c < 256 ==> (#[trigger] p@[c] <==> occurs(texts(data@), c)),
{
    let ghost d = texts(data@);
    let mut p: Vec<bool> = vec![false; 256];
    let mut t: usize = 0;
    while t < data.len()
        invariant
            d == texts(data@),
            t <= data@.len(),
            p@.len() == 256,
            forall|c: int| 0 <= c < 256 ==> (#[trigger] p@[c] <==> occurs_before(d, t as int, 0, c)),
        decreases data@.len() - t,
    {
        let s: &[u8] = data[t];
        assert(s@ == d[t as int]);
        let mut i: usize = 0;
        while i < s.len()
            invariant
                d == texts(data@),
                t < data@.len(),
                s@ == d[t as int],
                i <= s@.len(),
                p@.len() == 256,
                forall|c: int| 0 <= c < 256 ==> (#[trigger] p@[c] <==> occurs_before(d, t as int, i as int, c)),
            decreases s@.len() - i,
        {
            let x = s[i];
            let ghost old_p = p@;
            p.set(x as usize, true);
            proof {
                assert forall|c: int| 0 <= c < 256 implies (#[trigger] p@[c] <==> occurs_before(d, t as int, i + 1, c)) by {
                    if c == x as int {
                        assert(d[t as int][i as int] as int == c);
                    } else {
                        assert(p@[c] == old_p[c]);
                        if occurs_before(d, t as int, i + 1, c) {
                            let (t2, i2) = choose|t2: int, i2: int|
                                0 <= t2 < d.len() && 0 <= i2 < d[t2].len() && (t2 < t || (t2 == t && i2 < i + 1))
                                    && #[trigger] d[t2][i2] as int == c;
                            assert(occurs_before(d, t as int, i as int, c));
                        }
                    }
                }
            }
            i = i + 1;
        }
        proof {
            assert forall|c: int| 0 <= c < 256 implies (#[trigger] p@[c] <==> occurs_before(d, t + 1, 0, c)) by {
                if occurs_before(d, t + 1, 0, c) {
                    let (t2, i2) = choose|t2: int, i2: int|
                        0 <= t2 < d.len() && 0 <= i2 < d[t2].len() && (t2 < t + 1 || (t2 == t + 1 && i2 < 0))
                            && #[trigger] d[t2][i2] as int == c;
                    assert(occurs_before(d, t as int, i as int, c));
                }
                if occurs_before(d, t as int, i as int, c) {
                    let (t2, i2) = choose|t2: int, i2: int|
                        0 <= t2 < d.len() && 0 <= i2 < d[t2].len() && (t2 < t || (t2 == t && i2 < i))
                            && #[trigger] d[t2][i2] as int == c;
                    assert(occurs_before(d, t + 1, 0, c));
                }
            }
        }
        t = t + 1;
    }
    proof {
        assert forall|c: int| 0 <= c < 256 implies (#[trigger] p@[c] <==> occurs(d, c)) by {
            if occurs(d, c) {
                let (t2, i2) = choose|t2: int, i2: int|
                    0 <= t2 < d.len() && 0 <= i2 < d[t2].len() && #[trigger] d[t2][i2] as int == c;
                assert(occurs_before(d, t as int, 0, c));
            }
            if occurs_before(d, t as int, 0, c) {
                let (t2, i2) = choose|t2: int, i2: int|
                    0 <= t2 < d.len() && 0 <= i2 < d[t2].len() && (t2 < t || (t2 == t && i2 < 0))
                        && #[trigger] d[t2][i2] as int == c;
                assert(occurs(d, c));
            }
        }
    }
    p
}

/// `a` and `b` agree on every word outside `[lo, hi)`.
pub open spec fn unchanged_outside(a: Seq<u64>, b: Seq<u64>, lo: int, hi: int) -> bool {
    &&& a.len() == b.len()
    &&& forall|i: int|
        #![trigger a[i]]
        #![trigger b[i]]
        0 <= i < a.len() && !(lo <= i < hi) ==> a[i] == b[i]
}

/// The byte values below `c` that occur in the batch, in ascending order.
pub open spec fn alphabet_below(texts: Seq<Seq<u8>>, c: nat) -> Seq<int>
    decreases c,
{
    if c == 0 {
        Seq::empty()
    } else {
        let r = alphabet_below(texts, (c - 1) as nat);
        if occurs(texts, c - 1) {
            r.push(c - 1)
        } else {
            r
        }
    }
}

/// The compacted alphabet of a batch: the byte values that occur in it, in
/// ascending order.
pub open spec fn alphabet(texts: Seq<Seq<u8>>) -> Seq<int> {
    alphabet_below(texts, 256)
}

/// The byte value that row `r` of the match-bitmask table stands for, or -1
/// (which no byte equals) for a row past the compacted alphabet.
pub open spec fn row_symbol(texts: Seq<Seq<u8>>, r: int) -> int {
    if 0 <= r < alphabet(texts).len() {
        alphabet(texts)[r]
    } else {
        -1
    }
}

/// Entry `k` of the match-bitmask table of a batch of `batch` strings with
/// `blocks` blocks each: its string is `k % batch`, its block
/// `(k / batch) % blocks` and its row of the compacted alphabet
/// `k / batch / blocks`.
pub open spec fn speq_entry_ok(w: u64, texts: Seq<Seq<u8>>, batch: int, blocks: int, k: int) -> bool {
    marks(w, texts[k % batch], ((k / batch) % blocks) * 64, row_symbol(texts, k / batch / blocks))
}

/// The compacted alphabet, from one presence flag per byte value.
fn compact_alphabet(p: &Vec<bool>, Ghost(d): Ghost<Seq<Seq<u8>>>) -> (r: Vec<u8>)
    requires
        p@.len() == 256,
        forall|c: int| 0 <= c < 256 ==> (#[trigger] p@[c] <==> occurs(d, c)),
    ensures
        r@.len() == alphabet(d).len(),
        forall|i: int| 0 <= i < r@.len() ==> #[trigger] r@[i] as int == alphabet(d)[i],
{
    let mut r: Vec<u8> = Vec::new();
    let mut c: usize = 0;
    while c < 256
        invariant
            c <= 256,
            p@.len() == 256,
            forall|c2: int| 0 <= c2 < 256 ==> (#[trigger] p@[c2] <==> occurs(d, c2)),
            r@.len() == alphabet_below(d, c as nat).len(),
            forall|i: int| 0 <= i < r@.len() ==> #[trigger] r@[i] as int == alphabet_below(d, c as nat)[i],
        decreases 256 - c,
    {
        if p[c] {
            r.push(c as u8);
        }
        c = c + 1;
    }
    r
}

/// Sets `n` words from word `lo` on to zero.
fn zero_words(arena: &mut Arena, lo: usize, n: usize)
    requires
        old(arena).wf(),
        HEADER_FIELDS <= lo,
        lo + n <= old(arena)@.len(),
    ensures
        final(arena).wf(),
        forall|k: int| 0 <= k < n ==> #[trigger] final(arena)@[lo + k] == 0,
        unchanged_outside(old(arena)@, final(arena)@, lo as int, lo + n),
{
    let mut k: usize = 0;
    while k < n
        invariant
            arena.wf(),
            HEADER_FIELDS <= lo,
            lo + n <= arena@.len(),
            k <= n,
            forall|k2: int| 0 <= k2 < k ==> #[trigger] arena@[lo + k2] == 0,
            unchanged_outside(old(arena)@, arena@, lo as int, lo + n),
        decreases n - k,
    {
        arena.set_word(lo + k, 0);
        k = k + 1;
    }
}

/// Writes the match-bitmask table.
fn fill_speq(arena: &mut Arena, data: &[&[u8]], symbols: &Vec<u8>)
    requires
        old(arena).wf(),
        symbols@.len() == alphabet(texts(data@)).len(),
        forall|i: int| 0 <= i < symbols@.len() ==> #[trigger] symbols@[i] as int == alphabet(texts(data@))[i],
        data@.len() == old(arena).spec_batch_size(),
    ensures
        final(arena).wf(),
        ({
            let m = old(arena).spec_mmax();
            let b = old(arena).spec_batch_size();
            let nb = blocks_for(m);
            let base = speq_at(m, b) / 8;
            &&& forall|k: int| 0 <= k < 256 * (nb * b) ==>
                #[trigger] speq_entry_ok(final(arena)@[base + k], texts(data@), b as int, nb as int, k)
            &&& unchanged_outside(old(arena)@, final(arena)@, base as int, (base + 256 * (nb * b)) as int)
        }),
{
    let ghost m = arena.spec_mmax();
    let ghost bb = arena.spec_batch_size();
    let ghost d = texts(data@);
    proof {
        lemma_region_bounds(m, bb);
    }
    let mmax = arena.read_usize(HeaderField::Mmax);
    let b = arena.read_usize(HeaderField::BatchSize);
    let nb: usize = mmax / 64 + if mmax % 64 != 0 { 1usize } else { 0usize };
    assert(nb == blocks_for(m));
    let base: usize = arena.read_usize(HeaderField::SpeqPtr) / 8;
    let n: usize = 256 * (nb * b);
    assert(base + n <= arena@.len());
    let mut k: usize = 0;
    while k < n
        invariant
            arena.wf(),
            arena.spec_mmax() == m,
            arena.spec_batch_size() == bb,
            d == texts(data@),
            data@.len() == b,
            b == bb,
            1 <= b <= 512,
            nb == blocks_for(m),
            nb <= 0x100000,
            symbols@.len() == alphabet(d).len(),
            forall|i: int| 0 <= i < symbols@.len() ==> #[trigger] symbols@[i] as int == alphabet(d)[i],
            n == 256 * (nb * b),
            base == speq_at(m, bb) / 8,
            HEADER_FIELDS <= base,
            base + n <= arena@.len(),
            k <= n,
            forall|k2: int| 0 <= k2 < k ==>
                #[trigger] speq_entry_ok(arena@[base + k2], d, b as int, nb as int, k2),
            unchanged_outside(old(arena)@, arena@, base as int, base + n),
        decreases n - k,
    {
        let s_idx: usize = k % b;
        let q: usize = k / b;
        let blk: usize = q % nb;
        let row: usize = q / nb;
        assert(data@[s_idx as int]@ == d[s_idx as int]);
        let w: u64 = if row < symbols.len() {
            assert(row_symbol(d, row as int) == symbols@[row as int] as int);
            match_word(data[s_idx], blk, symbols[row])
        } else {
            proof {
                assert forall|j: u64| j < 64 implies (#[trigger] has_bit(0u64, j) <==> matches_at(d[s_idx as int], blk * 64 + j, -1)) by {
                    lemma_zero_has_no_bit(j);
                }
            }
            0
        };
        let ghost before = arena@;
        arena.set_word(base + k, w);
        proof {
            assert(speq_entry_ok(arena@[base + k], d, b as int, nb as int, k as int));
            assert forall|k2: int| 0 <= k2 < k + 1 implies
                #[trigger] speq_entry_ok(arena@[base + k2], d, b as int, nb as int, k2) by {
                if k2 < k {
                    assert(arena@[base + k2] == before[base + k2]);
                }
            }
        }
        k = k + 1;
    }
}

/// Writes the block map: the number of blocks of each string.
fn fill_blockmap(arena: &mut Arena, data: &[&[u8]])
    requires
        old(arena).wf(),
        data@.len() == old(arena).spec_batch_size(),
    ensures
        final(arena).wf(),
        ({
            let base = blockmap_at(old(arena).spec_mmax(), old(arena).spec_batch_size()) / 8;
            &&& forall|t: int| 0 <= t < data@.len() ==>
                #[trigger] final(arena)@[base + t] == blocks_for(data@[t]@.len())
            &&& unchanged_outside(old(arena)@, final(arena)@, base as int, (base + data@.len()) as int)
        }),
{
    let ghost m = arena.spec_mmax();
    let ghost bb = arena.spec_batch_size();
    proof {
        lemma_region_bounds(m, bb);
    }
    let base: usize = arena.read_usize(HeaderField::BlockmapPtr) / 8;
    let mut t: usize = 0;
    while t < data.len()
        invariant
            arena.wf(),
            arena.spec_mmax() == m,
            arena.spec_batch_size() == bb,
            data@.len() == bb,
            base == blockmap_at(m, bb) / 8,
            base + bb <= arena@.len(),
            t <= data@.len(),
            forall|t2: int| 0 <= t2 < t ==> #[trigger] arena@[base + t2] == blocks_for(data@[t2]@.len()),
            unchanged_outside(old(arena)@, arena@, base as int, (base + bb) as int),
        decreases data@.len() - t,
    {
        let len = data[t].len();
        let blocks: usize = len / 64 + if len % 64 != 0 { 1usize } else { 0usize };
        arena.set_word(base + t, blocks as u64);
        t = t + 1;
    }
}

/// Word `w` of the alphabet mask: bit `j` is set when the byte value
/// `64 * w + j` occurs in the batch.
pub open spec fn alphabet_word_ok(word: u64, texts: Seq<Seq<u8>>, w: int) -> bool {
    forall|j: u64| j < 64 ==> (#[trigger] has_bit(word, j) <==> occurs(texts, 64 * w + j))
}

/// Word `w` of a mask over the 256 byte values, from one flag per value.
fn mask_word(p: &Vec<bool>, w: usize) -> (r: u64)
    requires
        p@.len() == 256,
        w < 4,
    ensures
        forall|j: u64| j < 64 ==> (#[trigger] has_bit(r, j) <==> p@[64 * w + j]),
{
    let mut r: u64 = 0;
    let mut j: u64 = 0;
    proof {
        assert forall|k: u64| k < 64 implies !#[trigger] has_bit(r, k) by {
            lemma_zero_has_no_bit(k);
        }
    }
    while j < 64
        invariant
            j <= 64,
            w < 4,
            p@.len() == 256,
            forall|k: u64| k < 64 ==> (#[trigger] has_bit(r, k) <==> (k < j && p@[64 * w + k])),
        decreases 64 - j,
    {
        if p[64 * w + j as usize] {
            let old_r = r;
            r = r | (1u64 << j);
            proof {
                assert forall|k: u64| k < 64 implies (#[trigger] has_bit(r, k) <==> (k < j + 1 && p@[64 * w + k])) by {
                    lemma_set_bit(old_r, j, k);
                }
            }
        }
        j = j + 1;
    }
    r
}

/// Writes the alphabet mask.
fn fill_alphabet(arena: &mut Arena, data: &[&[u8]], p: &Vec<bool>)
    requires
        old(arena).wf(),
        p@.len() == 256,
        forall|c: int| 0 <= c < 256 ==> (#[trigger] p@[c] <==> occurs(texts(data@), c)),
    ensures
        final(arena).wf(),
        forall|w: int| 0 <= w < 4 ==> #[trigger] alphabet_word_ok(final(arena)@[ALPHABET_WORD + w], texts(data@), w),
        unchanged_outside(old(arena)@, final(arena)@, ALPHABET_WORD as int, ALPHABET_WORD + 4),
{
    let ghost m = arena.spec_mmax();
    let ghost bb = arena.spec_batch_size();
    let mut w: usize = 0;
    while w < 4
        invariant
            arena.wf(),
            arena.spec_mmax() == m,
            arena.spec_batch_size() == bb,
            p@.len() == 256,
            forall|c: int| 0 <= c < 256 ==> (#[trigger] p@[c] <==> occurs(texts(data@), c)),
            w <= 4,
            forall|w2: int| 0 <= w2 < w ==> #[trigger] alphabet_word_ok(arena@[ALPHABET_WORD + w2], texts(data@), w2),
            unchanged_outside(old(arena)@, arena@, ALPHABET_WORD as int, ALPHABET_WORD + 4),
        decreases 4 - w,
    {
        let word = mask_word(p, w);
        assert(alphabet_word_ok(word, texts(data@), w as int)) by {
            assert forall|j: u64| j < 64 implies (#[trigger] has_bit(word, j) <==> occurs(texts(data@), 64 * w + j)) by {
                assert(p@[64 * w + j] <==> occurs(texts(data@), 64 * w + j));
            }
        }
        let ghost before = arena@;
        proof {
            lemma_region_bounds(m, bb);
        }
        arena.set_word(ALPHABET_WORD + w, word);
        proof {
            assert forall|w2: int| 0 <= w2 < w + 1 implies #[trigger] alphabet_word_ok(arena@[ALPHABET_WORD + w2], texts(data@), w2) by {
                if w2 < w {
                    assert(arena@[ALPHABET_WORD + w2] == before[ALPHABET_WORD + w2]);
                }
            }
        }
        w = w + 1;
    }
}

/// Why the tables of an arena could not be built for a batch.
#[derive(Debug, Clone, Copy, PartialEq, Eq, Structural)]
pub enum BuildError {
    /// A string of the batch is longer than the arena was sized for.
    StringTooLong,
}

/// Word `i` of a region sized for longest length `m` and `b` strings lies in
/// one of the tables that a build fills: the alphabet mask, the block map, the
/// block spill, the match-bitmask table or the store mask.
pub open spec fn in_built_tables(m: nat, b: nat, i: int) -> bool {
    let nb = blocks_for(m);
    ||| ALPHABET_WORD <= i < ALPHABET_WORD + 4
    ||| blockmap_at(m, b) / 8 <= i < blockmap_at(m, b) / 8 + b
    ||| spill_at(m, b) / 8 <= i < spill_at(m, b) / 8 + spill_blocks(m) * b
    ||| speq_at(m, b) / 8 <= i < speq_at(m, b) / 8 + 256 * (nb * b)
    ||| store_at(m, b) / 8 <= i < store_at(m, b) / 8 + nb * b
}

/// The tables of region `a`, sized for longest length `m` and `b` strings,
/// hold what the batch `texts` calls for: the block count of each string, a
/// zeroed spill, the match bitmask of each byte value, block and string, the
/// alphabet mask, and a zeroed store mask.
pub open spec fn built(a: Seq<u64>, texts: Seq<Seq<u8>>, m: nat, b: nat) -> bool {
    let nb = blocks_for(m);
    &&& forall|t: int| 0 <= t < b ==>
        #[trigger] a[blockmap_at(m, b) / 8 + t] == blocks_for(texts[t].len())
    &&& forall|k: int| 0 <= k < spill_blocks(m) * b ==> #[trigger] a[spill_at(m, b) / 8 + k] == 0
    &&& forall|k: int| 0 <= k < 256 * (nb * b) ==>
        #[trigger] speq_entry_ok(a[speq_at(m, b) / 8 + k], texts, b as int, nb as int, k)
    &&& forall|w: int| 0 <= w < 4 ==> #[trigger] alphabet_word_ok(a[ALPHABET_WORD + w], texts, w)
    &&& forall|k: int| 0 <= k < nb * b ==> #[trigger] a[store_at(m, b) / 8 + k] == 0
}

/// The match-bitmask tables of a batch, built inside an arena.
pub struct Speq;

impl Speq {
    /// Builds every table of `arena` for `data`. The arena must have been sized
    /// for a batch of exactly as many strings; a string longer than its longest
    /// length is refused and nothing is written. Every word outside the filled
    /// tables, the header and the output store among them, is left as it was.
    #[verifier::spinoff_prover]
    #[verifier::rlimit(50)]
    pub fn new_in(arena: &mut Arena, data: &[&[u8]]) -> (r: Result<(), BuildError>)
        requires
            old(arena).wf(),
            data@.len() == old(arena).spec_batch_size(),
        ensures
            final(arena).wf(),
            forall|i: int| 0 <= i < HEADER_FIELDS ==> #[trigger] final(arena)@[i] == old(arena)@[i],
            r is Err <==> max_len(byte_lengths(data@)) > old(arena).spec_mmax(),
            r is Err ==> r == Err::<(), BuildError>(BuildError::StringTooLong),
            r is Err ==> final(arena)@ == old(arena)@,
            final(arena)@.len() == old(arena)@.len(),
            forall|i: int| 0 <= i < old(arena)@.len() && !in_built_tables(old(arena).spec_mmax(), old(arena).spec_batch_size(), i)
                ==> #[trigger] final(arena)@[i] == old(arena)@[i],
            r is Ok ==> built(final(arena)@, texts(data@), old(arena).spec_mmax(), old(arena).spec_batch_size()),
            r is Ok ==> forall|k: int| 0 <= k < old(arena).spec_batch_size() ==>
                #[trigger] final(arena)@[output_at(old(arena).spec_mmax(), old(arena).spec_batch_size()) / 8 + k]
                    == old(arena)@[output_at(old(arena).spec_mmax(), old(arena).spec_batch_size()) / 8 + k],
    {
        let b = arena.read_usize(HeaderField::BatchSize);
        let slices = batch_view(data);
        let longest = calculate_mmax(slices.as_slice());
        proof {
            assert(lengths(slices@) =~= byte_lengths(data@));
        }
        let mmax = arena.read_usize(HeaderField::Mmax);
        if longest > mmax {
            return Err(BuildError::StringTooLong);
        }
        let ghost m = arena.spec_mmax();
        let ghost bb = arena.spec_batch_size();
        let ghost d = texts(data@);
        let ghost a0 = arena@;
        proof {
            lemma_region_bounds(m, bb);
        }
        let p = presence(data);
        let symbols = compact_alphabet(&p, Ghost(d));
        fill_speq(arena, data, &symbols);
        let ghost a1 = arena@;
        fill_blockmap(arena, data);
        let ghost a2 = arena@;
        let nb: usize = mmax / 64 + if mmax % 64 != 0 { 1usize } else { 0usize };
        let spill_count: usize = if nb > 1 { nb - 1 } else { 0 };
        let spill_word: usize = arena.read_usize(HeaderField::BlockspillPtr) / 8;
        zero_words(arena, spill_word, spill_count * b);
        let ghost a3 = arena@;
        let store_word: usize = arena.read_usize(HeaderField::StoreMaskOffset) / 8;
        zero_words(arena, store_word, nb * b);
        let ghost a4 = arena@;
        fill_alphabet(arena, data, &p);
        proof {
            let a5 = arena@;
            let nbs = blocks_for(m);
            assert forall|t: int| 0 <= t < bb implies
                #[trigger] a5[blockmap_at(m, bb) / 8 + t] == blocks_for(d[t].len()) by {
                let i = blockmap_at(m, bb) / 8 + t;
                assert(a2[i] == blocks_for(data@[t]@.len()));
                assert(a5[i] == a4[i]);
                assert(a4[i] == a3[i]);
                assert(a3[i] == a2[i]);
            }
            assert forall|k: int| 0 <= k < spill_blocks(m) * bb implies
                #[trigger] a5[spill_at(m, bb) / 8 + k] == 0 by {
                let i = spill_at(m, bb) / 8 + k;
                assert(a3[i] == 0);
                assert(a5[i] == a4[i]);
                assert(a4[i] == a3[i]);
            }
            assert forall|k: int| 0 <= k < 256 * (nbs * bb) implies
                #[trigger] speq_entry_ok(a5[speq_at(m, bb) / 8 + k], d, bb as int, nbs as int, k) by {
                let i = speq_at(m, bb) / 8 + k;
                assert(speq_entry_ok(a1[i], d, bb as int, nbs as int, k));
                assert(a5[i] == a4[i]);
                assert(a4[i] == a3[i]);
                assert(a3[i] == a2[i]);
                assert(a2[i] == a1[i]);
            }
            assert forall|k: int| 0 <= k < nbs * bb implies #[trigger] a5[store_at(m, bb) / 8 + k] == 0 by {
                let i = store_at(m, bb) / 8 + k;
                assert(a4[i] == 0);
                assert(a5[i] == a4[i]);
            }
            assert forall|i: int| 0 <= i < a0.len() && !in_built_tables(m, bb, i) implies
                #[trigger] a5[i] == a0[i] by {
                assert(a5[i] == a4[i]);
                assert(a4[i] == a3[i]);
                assert(a3[i] == a2[i]);
                assert(a2[i] == a1[i]);
                assert(a1[i] == a0[i]);
            }
            assert forall|k: int| 0 <= k < bb implies
                #[trigger] a5[output_at(m, bb) / 8 + k] == a0[output_at(m, bb) / 8 + k] by {
                let i = output_at(m, bb) / 8 + k;
                assert(a5[i] == a4[i]);
                assert(a4[i] == a3[i]);
                assert(a3[i] == a2[i]);
                assert(a2[i] == a1[i]);
                assert(a1[i] == a0[i]);
            }
        }
        Ok(())
    }
}

} // verus!
