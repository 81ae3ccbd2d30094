//! A non-owning view of one byte string of a batch.

use vstd::prelude::*;

verus! {

/// A borrowed byte string: its bytes and their number, never copied.
pub struct SliceStr<'a> {
    bytes: &'a [u8],
}

impl<'a> View for SliceStr<'a> {
    type V = Seq<u8>;

    closed spec fn view(&self) -> Seq<u8> {
        self.bytes@
    }
}

impl<'a> SliceStr<'a> {
    /// Creates a view of `bytes`.
    pub fn new(bytes: &'a [u8]) -> (r: Self)
        ensures
            r@ == bytes@,
    {
        SliceStr { bytes }
    }

    /// The bytes this view refers to.
    pub fn as_ptr(&self) -> (r: &'a [u8])
        ensures
            r@ == self@,
    {
        self.bytes
    }

    /// The number of bytes of the viewed string.
    pub fn len(&self) -> (r: usize)
        ensures
            r == self@.len(),
    {
        self.bytes.len()
    }
}

impl<'a> From<&'a [u8]> for SliceStr<'a> {
    fn from(bytes: &'a [u8]) -> (r: Self) {
        SliceStr { bytes }
    }
}

impl<'a> vstd::std_specs::convert::FromSpecImpl<&'a [u8]> for SliceStr<'a> {
    open spec fn obeys_from_spec() -> bool {
        true
    }

    closed spec fn from_spec(bytes: &'a [u8]) -> Self {
        SliceStr { bytes }
    }
}

/// A view made by `from` refers to exactly the bytes it was given.
pub broadcast proof fn lemma_from_views_bytes<'a>(bytes: &'a [u8])
    ensures
        (#[trigger] <SliceStr<'a> as vstd::std_specs::convert::FromSpec<&'a [u8]>>::from_spec(bytes))@
            == bytes@,
{
}

} // verus!
