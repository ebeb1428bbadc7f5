//! Type aliases for common buffer sizes and types
//!
//! Some useful suggestions:
//! - [`Ptr8`] is the semi-standard buffer for holding a single object
//!   (a good balance of space used)
//! - [`Ptr2`] is suitable for storing a single pointer and its vtable
use crate::data_buf::{DataBuf, Pod};
use vstd::prelude::*;

verus! {

/// A buffer backing onto an array (used to provide default)
pub struct ArrayBuf<W, const N: usize> {
    inner: [W; N],
}

impl<W: Pod, const N: usize> Default for ArrayBuf<W, N> {
    fn default() -> (r: Self)
        ensures
            r.words().len() == N,
            r.spec_limit() == N,
            forall|i: int| 0 <= i < N ==> r.words()[i] == W::spec_zero(),
    {
        ArrayBuf { inner: [W::default();N] }
    }
}

impl<W: Pod, const N: usize> DataBuf for ArrayBuf<W, N> {
    type Inner = W;

    closed spec fn words(&self) -> Seq<W> {
        self.inner@
    }

    open spec fn spec_limit(&self) -> nat {
        N as nat
    }

    fn as_ref(&self) -> (r: &[W]) {
        &self.inner
    }

    fn as_mut(&mut self) -> (r: &mut [W]) {
        &mut self.inner
    }

    fn extend(&mut self, len: usize) -> (r: Result<(), ()>) {
        if len > N {
            Err(())
        } else {
            Ok(())
        }
    }
}

/// The array buffer under its longer name.
pub type ConstArrayBuf<W, const N: usize> = ArrayBuf<W, N>;

/// 8 pointers (32/64 bytes, with pointer alignment)
pub type Ptr8 = ArrayBuf<usize, 8>;

/// 64 bytes, 64-bit alignment
pub type U64_8 = ArrayBuf<u64, 8>;

/// 32 bytes, 8-bit alignment
pub type U8_32 = ArrayBuf<u8, 32>;

/// 16 bytes, 64-bit alignment
pub type U64_2 = ArrayBuf<u64, 2>;

/// 16 pointers (64/128 bytes, with pointer alignment)
pub type Ptr16 = ArrayBuf<usize, 16>;

/// Two pointers, useful for wrapping a pointer along with a vtable
pub type Ptr2 = ArrayBuf<usize, 2>;

/// One pointer, can only store the vtable
pub type Ptr1 = ArrayBuf<usize, 1>;

/// Dyanamically allocated buffer with 8-byte alignment
pub type U64Vec = Vec<u64>;

/// Dyanamically allocated buffer with 1-byte alignment
pub type U8Vec = Vec<u8>;

/// Dyanamically allocated buffer with pointer alignment
pub type PtrVec = Vec<usize>;

} // verus!
