//! Buffers of words, and the word types they may be made of.
use crate::bytes::spec_round_to_words;
use vstd::bytes::{
    lemma_auto_spec_u128_to_from_le_bytes, lemma_auto_spec_u16_to_from_le_bytes,
    lemma_auto_spec_u32_to_from_le_bytes, lemma_auto_spec_u64_to_from_le_bytes,
    spec_u128_from_le_bytes, spec_u128_to_le_bytes, spec_u16_from_le_bytes, spec_u16_to_le_bytes,
    spec_u32_from_le_bytes, spec_u32_to_le_bytes, spec_u64_from_le_bytes, spec_u64_to_le_bytes,
    u128_from_le_bytes, u128_to_le_bytes, u16_from_le_bytes, u16_to_le_bytes, u32_from_le_bytes,
    u32_to_le_bytes, u64_from_le_bytes, u64_to_le_bytes,
};
use vstd::layout::{align_of, layout_of_primitives, size_of};
use vstd::prelude::*;

verus! {

/// A word type: an unsigned integer for which every bit pattern is a value,
/// so that a word can be taken apart into bytes and put together again.
///
/// The byte image of a word is its little-endian encoding, `size_of::<Self>()`
/// bytes long. Turning a word into bytes and back gives the same word, and
/// turning that many bytes into a word and back gives the same bytes.
pub trait Pod: Copy + Sized {
    /// The byte image of the word.
    spec fn spec_bytes(self) -> Seq<u8>;

    /// The word with the given byte image.
    spec fn spec_from_bytes(bytes: Seq<u8>) -> Self;

    /// The word that `default` gives: zero.
    spec fn spec_zero() -> Self;

    /// A word has between 1 and 16 bytes, and its image is that long.
    proof fn lemma_size(x: Self)
        ensures
            1 <= size_of::<Self>() <= 16,
            x.spec_bytes().len() == size_of::<Self>(),
    ;

    /// From a word to bytes and back.
    proof fn lemma_to_from(x: Self)
        ensures
            Self::spec_from_bytes(x.spec_bytes()) == x,
    ;

    /// From bytes to a word and back.
    proof fn lemma_from_to(bytes: Seq<u8>)
        requires
            bytes.len() == size_of::<Self>(),
        ensures
            Self::spec_from_bytes(bytes).spec_bytes() == bytes,
    ;

    /// Construct a new instance (same as `Default::default`)
    fn default() -> (r: Self)
        ensures
            r == Self::spec_zero(),
    ;

    /// The bytes of the word.
    fn to_bytes(self) -> (r: Vec<u8>)
        ensures
            r@ == self.spec_bytes(),
    ;

    /// The word made of the given bytes.
    fn from_bytes(bytes: &[u8]) -> (r: Self)
        requires
            bytes@.len() == size_of::<Self>(),
        ensures
            r == Self::spec_from_bytes(bytes@),
    ;
}

impl Pod for u8 {
    open spec fn spec_bytes(self) -> Seq<u8> {
        seq![self]
    }

    open spec fn spec_from_bytes(bytes: Seq<u8>) -> u8 {
        bytes[0]
    }

    open spec fn spec_zero() -> u8 {
        0
    }

    proof fn lemma_size(x: u8) {
        broadcast use layout_of_primitives;

    }

    proof fn lemma_to_from(x: u8) {
    }

    proof fn lemma_from_to(bytes: Seq<u8>) {
        broadcast use layout_of_primitives;

        assert(seq![bytes[0]] =~= bytes);
    }

    fn default() -> (r: u8) {
        0
    }

    fn to_bytes(self) -> (r: Vec<u8>) {
        vec![self]
    }

    fn from_bytes(bytes: &[u8]) -> (r: u8) {
        broadcast use layout_of_primitives;

        bytes[0]
    }
}

impl Pod for u16 {
    open spec fn spec_bytes(self) -> Seq<u8> {
        spec_u16_to_le_bytes(self)
    }

    open spec fn spec_from_bytes(bytes: Seq<u8>) -> u16 {
        spec_u16_from_le_bytes(bytes)
    }

    open spec fn spec_zero() -> u16 {
        0
    }

    proof fn lemma_size(x: u16) {
        broadcast use layout_of_primitives;

        lemma_auto_spec_u16_to_from_le_bytes();
    }

    proof fn lemma_to_from(x: u16) {
        lemma_auto_spec_u16_to_from_le_bytes();
        assert(spec_u16_to_le_bytes(x).len() > 0);
    }

    proof fn lemma_from_to(bytes: Seq<u8>) {
        broadcast use layout_of_primitives;

        lemma_auto_spec_u16_to_from_le_bytes();
    }

    fn default() -> (r: u16) {
        0
    }

    fn to_bytes(self) -> (r: Vec<u8>) {
        u16_to_le_bytes(self)
    }

    fn from_bytes(bytes: &[u8]) -> (r: u16) {
        broadcast use layout_of_primitives;

        u16_from_le_bytes(bytes)
    }
}

impl Pod for u32 {
    open spec fn spec_bytes(self) -> Seq<u8> {
        spec_u32_to_le_bytes(self)
    }

    open spec fn spec_from_bytes(bytes: Seq<u8>) -> u32 {
        spec_u32_from_le_bytes(bytes)
    }

    open spec fn spec_zero() -> u32 {
        0
    }

    proof fn lemma_size(x: u32) {
        broadcast use layout_of_primitives;

        lemma_auto_spec_u32_to_from_le_bytes();
    }

    proof fn lemma_to_from(x: u32) {
        lemma_auto_spec_u32_to_from_le_bytes();
        assert(spec_u32_to_le_bytes(x).len() > 0);
    }

    proof fn lemma_from_to(bytes: Seq<u8>) {
        broadcast use layout_of_primitives;

        lemma_auto_spec_u32_to_from_le_bytes();
    }

    fn default() -> (r: u32) {
        0
    }

    fn to_bytes(self) -> (r: Vec<u8>) {
        u32_to_le_bytes(self)
    }

    fn from_bytes(bytes: &[u8]) -> (r: u32) {
        broadcast use layout_of_primitives;

        u32_from_le_bytes(bytes)
    }
}

impl Pod for u64 {
    open spec fn spec_bytes(self) -> Seq<u8> {
        spec_u64_to_le_bytes(self)
    }

    open spec fn spec_from_bytes(bytes: Seq<u8>) -> u64 {
        spec_u64_from_le_bytes(bytes)
    }

    open spec fn spec_zero() -> u64 {
        0
    }

    proof fn lemma_size(x: u64) {
        broadcast use layout_of_primitives;

        lemma_auto_spec_u64_to_from_le_bytes();
    }

    proof fn lemma_to_from(x: u64) {
        lemma_auto_spec_u64_to_from_le_bytes();
    }

    proof fn lemma_from_to(bytes: Seq<u8>) {
        broadcast use layout_of_primitives;

        lemma_auto_spec_u64_to_from_le_bytes();
    }

    fn default() -> (r: u64) {
        0
    }

    fn to_bytes(self) -> (r: Vec<u8>) {
        u64_to_le_bytes(self)
    }

    fn from_bytes(bytes: &[u8]) -> (r: u64) {
        broadcast use layout_of_primitives;

        u64_from_le_bytes(bytes)
    }
}

impl Pod for u128 {
    open spec fn spec_bytes(self) -> Seq<u8> {
        spec_u128_to_le_bytes(self)
    }

    open spec fn spec_from_bytes(bytes: Seq<u8>) -> u128 {
        spec_u128_from_le_bytes(bytes)
    }

    open spec fn spec_zero() -> u128 {
        0
    }

    proof fn lemma_size(x: u128) {
        broadcast use layout_of_primitives;

        lemma_auto_spec_u128_to_from_le_bytes();
    }

    proof fn lemma_to_from(x: u128) {
        lemma_auto_spec_u128_to_from_le_bytes();
        assert(spec_u128_to_le_bytes(x).len() > 0);
    }

    proof fn lemma_from_to(bytes: Seq<u8>) {
        broadcast use layout_of_primitives;

        lemma_auto_spec_u128_to_from_le_bytes();
    }

    fn default() -> (r: u128) {
        0
    }

    fn to_bytes(self) -> (r: Vec<u8>) {
        u128_to_le_bytes(self)
    }

    fn from_bytes(bytes: &[u8]) -> (r: u128) {
        broadcast use layout_of_primitives;

        u128_from_le_bytes(bytes)
    }
}

/// A machine word is four or eight bytes wide, and is encoded as the `u32` or
/// the `u64` of the same value.
impl Pod for usize {
    open spec fn spec_bytes(self) -> Seq<u8> {
        if size_of::<usize>() == 8 {
            spec_u64_to_le_bytes(self as u64)
        } else {
            spec_u32_to_le_bytes(self as u32)
        }
    }

    open spec fn spec_from_bytes(bytes: Seq<u8>) -> usize {
        if size_of::<usize>() == 8 {
            spec_u64_from_le_bytes(bytes) as usize
        } else {
            spec_u32_from_le_bytes(bytes) as usize
        }
    }

    open spec fn spec_zero() -> usize {
        0
    }

    proof fn lemma_size(x: usize) {
        broadcast use layout_of_primitives;

        lemma_auto_spec_u64_to_from_le_bytes();
        lemma_auto_spec_u32_to_from_le_bytes();
    }

    proof fn lemma_to_from(x: usize) {
        broadcast use layout_of_primitives;

        lemma_auto_spec_u64_to_from_le_bytes();
        lemma_auto_spec_u32_to_from_le_bytes();
        assert(spec_u64_to_le_bytes(x as u64).len() > 0);
        assert(spec_u32_to_le_bytes(x as u32).len() > 0);
    }

    proof fn lemma_from_to(bytes: Seq<u8>) {
        broadcast use layout_of_primitives;

        lemma_auto_spec_u64_to_from_le_bytes();
        lemma_auto_spec_u32_to_from_le_bytes();
    }

    fn default() -> (r: usize) {
        0
    }

    fn to_bytes(self) -> (r: Vec<u8>) {
        broadcast use layout_of_primitives;

        if core::mem::size_of::<usize>() == 8 {
            u64_to_le_bytes(self as u64)
        } else {
            u32_to_le_bytes(self as u32)
        }
    }

    fn from_bytes(bytes: &[u8]) -> (r: usize) {
        broadcast use layout_of_primitives;

        if core::mem::size_of::<usize>() == 8 {
            u64_from_le_bytes(bytes) as usize
        } else {
            u32_from_le_bytes(bytes) as usize
        }
    }
}

/// A block of words that containers store their values in.
///
/// The words that a buffer holds are its `words()`. A buffer can be asked to
/// grow; `spec_limit()` is the greatest number of words it can be made to
/// hold, and never changes. Growing keeps the words that were there, at the
/// same places, and adds words behind them.
///
/// The two ghost items say what the others do. An implementation that is
/// verified defines them; one that is not may leave them out.
pub trait DataBuf {
    /// Inner type of the buffer
    type Inner: Pod;

    /// The words of the buffer.
    open spec fn words(&self) -> Seq<Self::Inner> {
        arbitrary()
    }

    /// The greatest number of words that `extend` can be asked for with success.
    open spec fn spec_limit(&self) -> nat {
        arbitrary()
    }

    /// Get the buffer slice as an immutable borrow. The buffer is within its
    /// limit, and the limit is a number of words that a machine can count.
    fn as_ref(&self) -> (r: &[Self::Inner])
        ensures
            r@ == self.words(),
            self.words().len() <= self.spec_limit() <= usize::MAX,
    ;

    /// Get the buffer slice as a mutable borrow
    fn as_mut(&mut self) -> (r: &mut [Self::Inner])
        ensures
            r@ == old(self).words(),
            final(self).words() == final(r)@,
            final(self).spec_limit() == old(self).spec_limit(),
    ;

    /// Extend the buffer (fallible) to at least `len` words. Succeeds exactly
    /// when `len` is within the limit; a buffer that is long enough is left
    /// as it is.
    fn extend(&mut self, len: usize) -> (r: Result<(), ()>)
        ensures
            r is Ok <==> len <= old(self).spec_limit(),
            r is Ok ==> final(self).words().len() >= len,
            final(self).words().len() >= old(self).words().len(),
            final(self).words().subrange(0, old(self).words().len() as int) == old(self).words(),
            r is Err || len <= old(self).words().len() ==> final(self).words()
                == old(self).words(),
            final(self).spec_limit() == old(self).spec_limit(),
    ;

    /// Convert a byte count to a word count (rounding up)
    fn round_to_words(bytes: usize) -> (r: usize)
        ensures
            r == spec_round_to_words::<Self::Inner>(bytes as nat),
    {
        crate::round_to_words::<Self::Inner>(bytes)
    }

    /// The alignment of the words: no value that asks for more can be stored
    fn word_alignment() -> (r: usize)
        ensures
            r == align_of::<Self::Inner>(),
    {
        core::mem::align_of::<Self::Inner>()
    }
}

/// A buffer that is borrowed is a buffer.
impl<B: DataBuf> DataBuf for &mut B {
    type Inner = B::Inner;

    open spec fn words(&self) -> Seq<B::Inner> {
        (**self).words()
    }

    open spec fn spec_limit(&self) -> nat {
        (**self).spec_limit()
    }

    fn as_ref(&self) -> (r: &[B::Inner]) {
        (**self).as_ref()
    }

    fn as_mut(&mut self) -> (r: &mut [B::Inner]) {
        (**self).as_mut()
    }

    fn extend(&mut self, len: usize) -> (r: Result<(), ()>) {
        (**self).extend(len)
    }
}

/// The buffer is within its limit, and the limit is a number of words that
/// a machine can count.
pub open spec fn within_limit<D: DataBuf + ?Sized>(d: &D) -> bool {
    d.words().len() <= d.spec_limit() <= usize::MAX
}

/// Array-specific impl
impl<W: Pod, const N: usize> DataBuf for [W; N] {
    type Inner = W;

    open spec fn words(&self) -> Seq<W> {
        self@
    }

    open spec fn spec_limit(&self) -> nat {
        N as nat
    }

    fn as_ref(&self) -> (r: &[W]) {
        self
    }

    fn as_mut(&mut self) -> (r: &mut [W]) {
        self
    }

    fn extend(&mut self, len: usize) -> (r: Result<(), ()>) {
        if len > N {
            Err(())
        } else {
            Ok(())
        }
    }
}

/// `Vec::capacity` gives the number of elements that the vector has room
/// for. All that is claimed of it is that this is never less than the number
/// of elements that the vector holds.
#[verifier::external_body]
fn vec_capacity<W>(v: &Vec<W>) -> (r: usize)
    ensures
        r >= v@.len(),
{
    v.capacity()
}

/// Vector backed structures, can be used to auto-grow the allocation
impl<W: Pod> DataBuf for Vec<W> {
    type Inner = W;

    open spec fn words(&self) -> Seq<W> {
        self@
    }

    open spec fn spec_limit(&self) -> nat {
        usize::MAX as nat
    }

    fn as_ref(&self) -> (r: &[W]) {
        proof {
            assert(self.len() == self@.len());
        }
        self.as_slice()
    }

    fn as_mut(&mut self) -> (r: &mut [W]) {
        self.as_mut_slice()
    }

    fn extend(&mut self, len: usize) -> (r: Result<(), ()>) {
        if len > self.len() {
            let ghost before = self@;
            self.resize(len, W::default());
            let cap = vec_capacity(self);
            self.resize(cap, W::default());
            proof {
                assert(self@.subrange(0, before.len() as int) =~= before);
            }
        } else {
            proof {
                assert(self@.subrange(0, self@.len() as int) =~= self@);
            }
        }
        Ok(())
    }
}

} // verus!
