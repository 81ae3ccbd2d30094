//! The arena: one zero-initialised, exclusively owned region of words whose
//! header records its size, the batch it was sized for, and where each table
//! starts. The region is released when its owning `Arena` goes out of scope.

use vstd::prelude::*;

use crate::layout::{
    blockmap_at, blockmap_bytes, disjoint, lemma_layout_fits, lemma_mmax_within_region, output_at,
    output_bytes, speq_bytes, spill_bytes, region_size, spill_at, speq_at, store_at, Layout,
    ALPHABET_MASK_BYTES_AT, MAX_BATCH, MAX_REGION_BYTES,
};
use crate::len::{calculate_mmax, lengths, max_len};
use crate::slice_str::SliceStr;

verus! {

/// The number of header fields at the start of every region.
pub const HEADER_FIELDS: usize = 9;

/// The fields of an arena header, each one word, in their order in the region.
#[derive(Debug, Clone, Copy, PartialEq, Eq, Structural)]
pub enum HeaderField {
    Size,
    Mmax,
    BatchSize,
    BlockmapPtr,
    BlockspillPtr,
    SpeqPtr,
    OutputStorePtr,
    AlphabetMaskOffset,
    StoreMaskOffset,
}

impl HeaderField {
    /// The word index of the field in the region.
    pub open spec fn spec_index(self) -> nat {
        match self {
            HeaderField::Size => 0,
            HeaderField::Mmax => 1,
            HeaderField::BatchSize => 2,
            HeaderField::BlockmapPtr => 3,
            HeaderField::BlockspillPtr => 4,
            HeaderField::SpeqPtr => 5,
            HeaderField::OutputStorePtr => 6,
            HeaderField::AlphabetMaskOffset => 7,
            HeaderField::StoreMaskOffset => 8,
        }
    }

    /// The word index of the field in the region.
    pub fn index(self) -> (r: usize)
        ensures
            r == self.spec_index(),
            r < HEADER_FIELDS,
    {
        match self {
            HeaderField::Size => 0,
            HeaderField::Mmax => 1,
            HeaderField::BatchSize => 2,
            HeaderField::BlockmapPtr => 3,
            HeaderField::BlockspillPtr => 4,
            HeaderField::SpeqPtr => 5,
            HeaderField::OutputStorePtr => 6,
            HeaderField::AlphabetMaskOffset => 7,
            HeaderField::StoreMaskOffset => 8,
        }
    }
}

/// Why an arena could not be made.
#[derive(Debug, Clone, Copy, PartialEq, Eq, Structural)]
pub enum ArenaError {
    /// The region would exceed `MAX_REGION_BYTES`.
    AllocationFailure,
}

/// The header of an arena as plain values, for diagnostics.
#[derive(Debug, Clone, Copy, PartialEq, Eq, Structural)]
pub struct ArenaHeader {
    pub size: usize,
    pub mmax: usize,
    pub batch_size: usize,
    pub blockmap_ptr: usize,
    pub blockspill_ptr: usize,
    pub speq_ptr: usize,
    pub output_store_ptr: usize,
    pub alphabet_mask_offset: usize,
    pub store_mask_offset: usize,
}

/// An owned region of words laid out as `crate::layout` describes.
pub struct Arena {
    words: Vec<u64>,
}

impl View for Arena {
    type V = Seq<u64>;

    closed spec fn view(&self) -> Seq<u64> {
        self.words@
    }
}

impl Arena {
    /// The longest length the region was sized for.
    pub open spec fn spec_mmax(&self) -> nat {
        self@[1] as nat
    }

    /// The number of strings the region was sized for.
    pub open spec fn spec_batch_size(&self) -> nat {
        self@[2] as nat
    }

    /// The value of a header field.
    pub open spec fn field(&self, f: HeaderField) -> u64 {
        self@[f.spec_index() as int]
    }

    /// The region is as long as its header says, and every header field holds
    /// what the layout gives for its longest length and batch size.
    pub open spec fn wf(&self) -> bool {
        let m = self.spec_mmax();
        let b = self.spec_batch_size();
        &&& self@.len() >= HEADER_FIELDS
        &&& 1 <= b <= MAX_BATCH
        &&& region_size(m, b) <= MAX_REGION_BYTES
        &&& self@[0] == region_size(m, b)
        &&& 8 * self@.len() == region_size(m, b)
        &&& self@[3] == blockmap_at(m, b)
        &&& self@[4] == spill_at(m, b)
        &&& self@[5] == speq_at(m, b)
        &&& self@[6] == output_at(m, b)
        &&& self@[7] == ALPHABET_MASK_BYTES_AT
        &&& self@[8] == store_at(m, b)
    }

    /// Allocates a zeroed region for a batch of `batch_size` strings whose
    /// longest is `mmax` bytes long, and writes its header. A batch size
    /// outside `1..=MAX_BATCH` is a caller error.
    pub fn allocate(mmax: usize, batch_size: usize) -> (r: Result<Arena, ArenaError>)
        requires
            1 <= batch_size <= MAX_BATCH,
        ensures
            r is Err <==> region_size(mmax as nat, batch_size as nat) > MAX_REGION_BYTES,
            r is Err ==> r == Err::<Arena, ArenaError>(ArenaError::AllocationFailure),
            r matches Ok(a) ==> {
                &&& a.wf()
                &&& a.spec_mmax() == mmax
                &&& a.spec_batch_size() == batch_size
                &&& forall|i: int| HEADER_FIELDS <= i < a@.len() ==> a@[i] == 0
            },
    {
        let layout = match Layout::compute(mmax, batch_size) {
            Some(l) => l,
            None => return Err(ArenaError::AllocationFailure),
        };
        let n: usize = (layout.size / 8) as usize;
        assert(8 * n == layout.size);
        let mut words: Vec<u64> = vec![0u64; n];
        assert(n >= HEADER_FIELDS);
        words.set(0, layout.size);
        words.set(1, layout.mmax);
        words.set(2, layout.batch_size);
        words.set(3, layout.blockmap);
        words.set(4, layout.spill);
        words.set(5, layout.speq);
        words.set(6, layout.output);
        words.set(7, ALPHABET_MASK_BYTES_AT);
        words.set(8, layout.store);
        Ok(Arena { words })
    }

    /// Makes the arena for a batch: finds its longest length and allocates.
    /// An empty batch, or one over `MAX_BATCH` strings, is a caller error.
    pub fn new_from(data: &[&[u8]]) -> (r: Result<Arena, ArenaError>)
        requires
            1 <= data@.len() <= MAX_BATCH,
        ensures
            r is Err <==> region_size(max_len(byte_lengths(data@)), data@.len()) > MAX_REGION_BYTES,
            r is Err ==> r == Err::<Arena, ArenaError>(ArenaError::AllocationFailure),
            r matches Ok(a) ==> {
                &&& a.wf()
                &&& a.spec_mmax() == max_len(byte_lengths(data@))
                &&& a.spec_batch_size() == data@.len()
                &&& forall|i: int| HEADER_FIELDS <= i < a@.len() ==> a@[i] == 0
            },
    {
        let slices = batch_view(data);
        let mmax = calculate_mmax(slices.as_slice());
        proof {
            assert(lengths(slices@) =~= byte_lengths(data@));
        }
        Arena::allocate(mmax, data.len())
    }

    /// Reads one header field.
    pub fn read_usize(&self, field: HeaderField) -> (r: usize)
        requires
            self.wf(),
        ensures
            r == self.field(field),
    {
        let i = field.index();
        assert(self@[i as int] <= MAX_REGION_BYTES) by {
            lemma_mmax_within_region(self.spec_mmax(), self.spec_batch_size());
        }
        self.words[i] as usize
    }

    /// The total size of the region in bytes.
    pub fn size_of(&self) -> (r: usize)
        requires
            self.wf(),
        ensures
            r == region_size(self.spec_mmax(), self.spec_batch_size()),
            r == 8 * self@.len(),
    {
        self.read_usize(HeaderField::Size)
    }

    /// All header fields as plain values.
    pub fn header(&self) -> (r: ArenaHeader)
        requires
            self.wf(),
        ensures
            r.size == self.field(HeaderField::Size),
            r.mmax == self.field(HeaderField::Mmax),
            r.batch_size == self.field(HeaderField::BatchSize),
            r.blockmap_ptr == self.field(HeaderField::BlockmapPtr),
            r.blockspill_ptr == self.field(HeaderField::BlockspillPtr),
            r.speq_ptr == self.field(HeaderField::SpeqPtr),
            r.output_store_ptr == self.field(HeaderField::OutputStorePtr),
            r.alphabet_mask_offset == self.field(HeaderField::AlphabetMaskOffset),
            r.store_mask_offset == self.field(HeaderField::StoreMaskOffset),
    {
        ArenaHeader {
            size: self.read_usize(HeaderField::Size),
            mmax: self.read_usize(HeaderField::Mmax),
            batch_size: self.read_usize(HeaderField::BatchSize),
            blockmap_ptr: self.read_usize(HeaderField::BlockmapPtr),
            blockspill_ptr: self.read_usize(HeaderField::BlockspillPtr),
            speq_ptr: self.read_usize(HeaderField::SpeqPtr),
            output_store_ptr: self.read_usize(HeaderField::OutputStorePtr),
            alphabet_mask_offset: self.read_usize(HeaderField::AlphabetMaskOffset),
            store_mask_offset: self.read_usize(HeaderField::StoreMaskOffset),
        }
    }

    /// The word at `index` of the region, header included.
    pub fn word(&self, index: usize) -> (r: Option<u64>)
        ensures
            r == (if index < self@.len() { Some(self@[index as int]) } else { None::<u64> }),
    {
        if index < self.words.len() {
            Some(self.words[index])
        } else {
            None
        }
    }

    /// Writes one word past the header.
    pub(crate) fn set_word(&mut self, index: usize, value: u64)
        requires
            old(self).wf(),
            HEADER_FIELDS <= index < old(self)@.len(),
        ensures
            final(self)@ == old(self)@.update(index as int, value),
            final(self).wf(),
    {
        self.words.set(index, value);
    }

    /// The number of words of the region.
    pub fn len_words(&self) -> (r: usize)
        ensures
            r == self@.len(),
    {
        self.words.len()
    }
}

/// In every well-formed arena the header's size is the size of the region, and
/// the four table offsets lie strictly inside the region, past the header page,
/// on ranges that do not overlap one another given the tables' sizes.
pub proof fn lemma_header_consistent(a: &Arena)
    requires
        a.wf(),
    ensures
        a.field(HeaderField::Size) == 8 * a@.len(),
        a.field(HeaderField::Mmax) == a.spec_mmax(),
        a.field(HeaderField::BatchSize) == a.spec_batch_size(),
        ({
            let m = a.spec_mmax();
            let b = a.spec_batch_size();
            let size = a.field(HeaderField::Size) as nat;
            let blockmap = a.field(HeaderField::BlockmapPtr) as nat;
            let spill = a.field(HeaderField::BlockspillPtr) as nat;
            let speq = a.field(HeaderField::SpeqPtr) as nat;
            let output = a.field(HeaderField::OutputStorePtr) as nat;
            &&& 4096 <= blockmap < size
            &&& 4096 <= spill < size
            &&& 4096 <= speq < size
            &&& 4096 <= output < size
            &&& blockmap + blockmap_bytes(b) <= size
            &&& spill + spill_bytes(m, b) <= size
            &&& speq + speq_bytes(m, b) <= size
            &&& output + output_bytes(b) <= size
            &&& disjoint(blockmap, blockmap_bytes(b), spill, spill_bytes(m, b))
            &&& disjoint(blockmap, blockmap_bytes(b), speq, speq_bytes(m, b))
            &&& disjoint(blockmap, blockmap_bytes(b), output, output_bytes(b))
            &&& disjoint(spill, spill_bytes(m, b), speq, speq_bytes(m, b))
            &&& disjoint(spill, spill_bytes(m, b), output, output_bytes(b))
            &&& disjoint(speq, speq_bytes(m, b), output, output_bytes(b))
        }),
{
    lemma_layout_fits(a.spec_mmax(), a.spec_batch_size());
}

/// The lengths of the byte strings of a batch, in batch order.
pub open spec fn byte_lengths(data: Seq<&[u8]>) -> Seq<nat> {
    data.map_values(|s: &[u8]| s@.len())
}

/// Views each string of `data`, in order, without copying.
pub fn batch_view<'a>(data: &[&'a [u8]]) -> (r: Vec<SliceStr<'a>>)
    ensures
        r@.len() == data@.len(),
        forall|i: int| 0 <= i < data@.len() ==> r@[i]@ == data@[i]@,
{
    let mut r: Vec<SliceStr<'a>> = Vec::new();
    let mut i: usize = 0;
    while i < data.len()
        invariant
            i <= data@.len(),
            r@.len() == i,
            forall|k: int| 0 <= k < i ==> r@[k]@ == data@[k]@,
        decreases data@.len() - i,
    {
        r.push(SliceStr::new(data[i]));
        i = i + 1;
    }
    r
}

} // verus!
