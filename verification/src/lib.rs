//! Storage of dynamically-sized values inside a caller's block of words.
//!
//! A value is stored as a frame: the descriptor words of a wide reference to
//! it (a length, or the index of a table of behaviour), and its bytes, padded
//! to whole words. Three containers are built of frames: `ValueA` holds one,
//! `StackA` is last-in-first-out, and `Fifo` is first-in-first-out.
//!
//! - A buffer ([`DataBuf`]) is a block of words ([`Pod`]) of one size, fixed
//!   or growing.
//! - An element interface ([`Dst`]) says how many descriptor words its
//!   values have and how many bytes a value takes. A container holds one
//!   value of the interface type, its table, and hands it every stored value
//!   that is destroyed. The table keeps the list of them, so that what a
//!   container has destroyed, how often, and in which order, can be stated.
//! - A value that is stored ([`Object`]) is taken as its bytes. What is read
//!   back ([`Frame`]) is a copy of the descriptor and of the bytes.
//! - A value can only be stored in words that are aligned as it asks
//!   ([`AlignmentValid`]).
//! - Addresses are offsets: no address of a word is kept anywhere.
//! - A container destroys the values in it when it is told to (`pop`,
//!   `clear`, `replace`, `retain`), not when it goes out of scope.
use crate::bytes::{
    bytes_of, copy_bytes, lemma_bytes_of_concat, lemma_bytes_of_subrange, lemma_words_for,
    load_bytes, patched, spec_round_to_words,
};
use crate::frame::{decode_meta, lemma_meta_words, spec_meta_bytes, usizes_of};
use crate::kinds::{generated, gives, item_at};
use vstd::layout::{align_of, size_of};
use vstd::prelude::*;
use vstd::slice::slice_subrange;

pub mod buffers;
pub mod bytes;
pub mod data_buf;
pub mod fifo;
pub mod frame;
pub mod kinds;
pub mod laws;
pub mod stack;
pub mod value;

pub use self::data_buf::DataBuf;
pub use self::data_buf::Pod;
pub use self::fifo::Fifo;
pub use self::frame::{Dst, Frame, FrameMut, FrameView, Object, Unsize, WidePtr};
pub use self::kinds::{Slice, Str};
pub use self::stack::StackA;
pub use self::value::ValueA;

verus! {

/// The stack under its short name.
pub type Stack<T, D> = StackA<T, D>;

/// The single-value holder under its short name.
pub type Value<T, D> = ValueA<T, D>;

/// The list under its older name.
pub type FifoA<T, D> = Fifo<T, D>;

/// A single dynamically-sized value stored in a `usize` aligned buffer
pub type ValueU<T, const N: usize> = ValueA<T, buffers::ConstArrayBuf<usize, N>>;

/// A single LIFO stack of DSTs using a `usize` aligned buffer
pub type StackU<T, const N: usize> = StackA<T, buffers::ConstArrayBuf<usize, N>>;

/// A FIFO queue of DSTs using a `usize` aligned buffer
pub type FifoU<T, const N: usize> = Fifo<T, buffers::ConstArrayBuf<usize, N>>;

/// The descriptor words of a wide reference, with its address: the address,
/// how many descriptor words there are, and the words themselves in an array
/// that is filled up with zeros.
pub fn decompose_pointer(ptr: &WidePtr) -> (r: (usize, usize, [usize; 3]))
    requires
        ptr.meta@.len() <= 3,
    ensures
        r.0 == ptr.addr,
        r.1 == ptr.meta@.len(),
        r.2@.subrange(0, r.1 as int) == ptr.meta@,
        forall|i: int| r.1 <= i < 3 ==> r.2@[i] == 0,
{
    let addr = ptr.addr;
    let rv = mem_as_slice(ptr);
    let mut vals: [usize; 3] = [0, 0, 0];
    let n = rv.len() - 1;
    let mut i: usize = 0;
    while i < n
        invariant
            n == ptr.meta@.len(),
            n <= 3,
            i <= n,
            rv@ == seq![ptr.addr] + ptr.meta@,
            forall|k: int| 0 <= k < i ==> vals@[k] == ptr.meta@[k],
            forall|k: int| i <= k < 3 ==> vals@[k] == 0,
        decreases n - i,
    {
        vals[i] = rv[i + 1];
        i += 1;
    }
    assert(vals@.subrange(0, n as int) =~= ptr.meta@);
    (addr, n, vals)
}

/// The words that make up a wide reference: its address, then its
/// descriptor words.
pub fn mem_as_slice(ptr: &WidePtr) -> (r: Vec<usize>)
    ensures
        r@ == seq![ptr.addr] + ptr.meta@,
{
    let mut r: Vec<usize> = Vec::new();
    r.push(ptr.addr);
    let mut i: usize = 0;
    while i < ptr.meta.len()
        invariant
            i <= ptr.meta@.len(),
            r@ == seq![ptr.addr] + ptr.meta@.subrange(0, i as int),
        decreases ptr.meta@.len() - i,
    {
        r.push(ptr.meta[i]);
        assert(r@ =~= seq![ptr.addr] + ptr.meta@.subrange(0, i + 1));
        i += 1;
    }
    assert(ptr.meta@.subrange(0, ptr.meta@.len() as int) =~= ptr.meta@);
    r
}

/// The byte image of one machine word is the image of the run made of it.
pub proof fn lemma_bytes_of_one(w: usize)
    ensures
        bytes_of(seq![w]) == w.spec_bytes(),
{
    <usize as Pod>::lemma_size(w);
    let size = size_of::<usize>() as int;
    assert(1 * size == size) by (nonlinear_arith);
    assert forall|i: int| 0 <= i < size implies bytes_of(seq![w])[i] == w.spec_bytes()[i] by {
        crate::bytes::lemma_join_index(0, i, size);
        assert(0 * size + i == i) by (nonlinear_arith);
    }
    assert(bytes_of(seq![w]) =~= w.spec_bytes());
}

/// Reading machine words back out of their own byte image gives the words,
/// whatever bytes follow the image.
pub proof fn lemma_usizes_of_bytes(meta: Seq<usize>, bytes: Seq<u8>)
    requires
        bytes.len() >= bytes_of(meta).len(),
        bytes.subrange(0, bytes_of(meta).len() as int) == bytes_of(meta),
    ensures
        usizes_of(bytes, meta.len()) == meta,
{
    let size = size_of::<usize>() as int;
    <usize as Pod>::lemma_size(0usize);
    assert forall|k: int| 0 <= k < meta.len() implies usizes_of(bytes, meta.len())[k]
        == meta[k] by {
        lemma_bytes_of_subrange(meta, k, k + 1);
        assert(meta.subrange(k, k + 1) =~= seq![meta[k]]);
        lemma_bytes_of_one(meta[k]);
        assert(bytes.subrange(k * size, (k + 1) * size) =~= bytes_of(meta).subrange(
            k * size,
            (k + 1) * size,
        ));
        <usize as Pod>::lemma_to_from(meta[k]);
    }
    assert(usizes_of(bytes, meta.len()) =~= meta);
}

/// The byte image of a run of machine words.
fn usizes_to_bytes(words: &[usize]) -> (r: Vec<u8>)
    ensures
        r@ == bytes_of(words@),
{
    let mut r: Vec<u8> = Vec::new();
    let mut k: usize = 0;
    proof {
        assert(0 * size_of::<usize>() == 0) by (nonlinear_arith);
        assert(bytes_of(words@.subrange(0, 0)) =~= Seq::<u8>::empty());
    }
    while k < words.len()
        invariant
            k <= words@.len(),
            r@ == bytes_of(words@.subrange(0, k as int)),
        decreases words@.len() - k,
    {
        let mut image = words[k].to_bytes();
        proof {
            lemma_bytes_of_one(words@[k as int]);
            lemma_bytes_of_concat(words@.subrange(0, k as int), seq![words@[k as int]]);
            assert(words@.subrange(0, k as int) + seq![words@[k as int]] =~= words@.subrange(
                0,
                k + 1,
            ));
        }
        r.append(&mut image);
        k += 1;
    }
    proof {
        assert(words@.subrange(0, words@.len() as int) =~= words@);
    }
    r
}

/// Re-construct a fat pointer: the wide reference with the given address and
/// the descriptor that the given words hold.
pub fn make_fat_ptr<T: Dst, W: Pod>(data_ptr: usize, meta_vals: &[W]) -> (r: WidePtr)
    requires
        spec_meta_bytes::<T>() <= meta_vals@.len() * size_of::<W>(),
    ensures
        r.addr == data_ptr,
        r.meta@ == decode_meta::<T, W>(meta_vals@),
{
    let count = T::meta_len();
    proof {
        lemma_meta_words::<T, W>();
        <usize as Pod>::lemma_size(0usize);
    }
    let size = core::mem::size_of::<usize>();
    assert(count * size <= 48) by (nonlinear_arith)
        requires
            count <= 3,
            size <= 16,
    ;
    let image = load_bytes(meta_vals, 0, count * size);
    let mut meta: Vec<usize> = Vec::new();
    let mut k: usize = 0;
    while k < count
        invariant
            k <= count,
            count == T::spec_meta_len(),
            count <= 3,
            size == size_of::<usize>(),
            1 <= size <= 16,
            image@ == bytes_of(meta_vals@).subrange(0, count * size),
            count * size <= bytes_of(meta_vals@).len(),
            count * size <= 48,
            meta@ == decode_meta::<T, W>(meta_vals@).subrange(0, k as int),
        decreases count - k,
    {
        assert(0 <= k * size <= (k + 1) * size <= count * size && (k + 1) * size - k * size
            == size) by (nonlinear_arith)
            requires
                0 <= k < count,
                size >= 0,
        ;
        let part = slice_subrange(image.as_slice(), k * size, (k + 1) * size);
        let w = <usize as Pod>::from_bytes(part);
        proof {
            assert(part@ =~= bytes_of(meta_vals@).subrange(k * size, (k + 1) * size));
        }
        meta.push(w);
        proof {
            assert(meta@ =~= decode_meta::<T, W>(meta_vals@).subrange(0, k + 1));
        }
        k += 1;
    }
    proof {
        assert(meta@ =~= decode_meta::<T, W>(meta_vals@));
    }
    WidePtr { addr: data_ptr, meta }
}

/// Write metadata: puts the byte image of the descriptor words at the start
/// of the given words. The bytes behind it stay as they were.
pub fn store_metadata<W: Pod>(dst: &mut [W], meta_words: &[usize])
    requires
        meta_words@.len() * size_of::<usize>() <= old(dst)@.len() * size_of::<W>(),
    ensures
        final(dst)@.len() == old(dst)@.len(),
        bytes_of(final(dst)@) == patched(bytes_of(old(dst)@), 0, bytes_of(meta_words@)),
        usizes_of(bytes_of(final(dst)@), meta_words@.len()) == meta_words@,
{
    let image = usizes_to_bytes(meta_words);
    copy_bytes(dst, 0, image.as_slice());
    proof {
        let all = bytes_of(dst@);
        assert(all.subrange(0, bytes_of(meta_words@).len() as int) =~= bytes_of(meta_words@));
        lemma_usizes_of_bytes(meta_words@, all);
    }
}

/// `core::mem::forget` takes the value and never runs its destructor.
/// Nothing is claimed of it.
pub assume_specification<E>[ core::mem::forget::<E> ](e: E)
;

/// `rotate_left` of slices moves the first `mid` elements behind the others,
/// and keeps the order among the first and among the others. It must not be
/// asked to move more elements than there are.
pub assume_specification<E>[ <[E]>::rotate_left ](s: &mut [E], mid: usize)
    requires
        mid <= old(s)@.len(),
    ensures
        final(s)@ == old(s)@.subrange(mid as int, old(s)@.len() as int) + old(s)@.subrange(
            0,
            mid as int,
        ),
;

/// `rotate_right` of slices moves the last `k` elements before the others,
/// and keeps the order among the last and among the others. It must not be
/// asked to move more elements than there are.
pub assume_specification<E>[ <[E]>::rotate_right ](s: &mut [E], k: usize)
    requires
        k <= old(s)@.len(),
    ensures
        final(s)@ == old(s)@.subrange(old(s)@.len() - k, old(s)@.len() as int) + old(s)@.subrange(
            0,
            old(s)@.len() - k,
        ),
;

/// What a container hands out for a value that is being pushed: the words
/// for its data and for its descriptor, the place of the container's
/// position, with the value to put back there if the push is given up, and
/// the table through which what has been written is destroyed in that case.
pub struct PushInnerInfo<'a, T, W> {
    /// Buffer for value data
    pub data: &'a mut [W],
    /// Buffer for metadata (length/vtable)
    pub meta: &'a mut [W],
    /// Memory location for resetting the push
    pub reset_slot: &'a mut usize,
    /// What to put there to reset the push
    pub reset_value: usize,
    /// The table of the container's interface.
    pub table: &'a mut T,
    /// The words of the buffer that lie before those handed out.
    pub before: Ghost<Seq<W>>,
    /// The words of the buffer that lie behind those handed out.
    pub after: Ghost<Seq<W>>,
}

/// Marker trait used to check alignment: a value of the first type of the
/// pair can lie at the start of a word of the second type.
///
/// Whether it can is a matter of the machine. Every function that stores a
/// value asks for it, so a value that asks for more than the words give is
/// never stored, however much room there is; `is_valid` tells a caller that
/// cannot know beforehand.
pub trait AlignmentValid {
    /// The value's alignment is no greater than the word's.
    spec fn valid() -> bool;

    /// Tells whether the alignment is valid.
    fn is_valid() -> (r: bool)
        ensures
            r == Self::valid(),
    ;

    /// Accepts only a valid alignment.
    fn check()
        requires
            Self::valid(),
    ;
}

impl<S, L> AlignmentValid for (S, L) {
    open spec fn valid() -> bool {
        align_of::<S>() <= align_of::<L>()
    }

    fn is_valid() -> (r: bool) {
        core::mem::align_of::<S>() <= core::mem::align_of::<L>()
    }

    fn check() {
    }
}

/// The number of words of type `W` that `len` bytes take up.
pub fn round_to_words<W: Pod>(len: usize) -> (r: usize)
    ensures
        r == spec_round_to_words::<W>(len as nat),
{
    proof {
        W::lemma_size(W::spec_zero());
        lemma_words_for(len as nat, size_of::<W>());
    }
    let size = core::mem::size_of::<W>();
    if len % size == 0 {
        len / size
    } else {
        len / size + 1
    }
}

/// What a narrowing function must do with a value `v`: the wide reference
/// that it gives refers to the whole of `v`, that is to its first byte and to
/// as many bytes as `v` has, with a descriptor of the interface `T`.
pub open spec fn narrows<U, T: Dst, F: FnOnce(&U) -> WidePtr>(get_ref: F, v: &U) -> bool {
    &&& call_requires(get_ref, (v,))
    &&& forall|p: WidePtr| #[trigger]
        call_ensures(get_ref, (v,), p) ==> {
            &&& p.addr == 0
            &&& p.meta@.len() == T::spec_meta_len()
            &&& T::spec_size_of_val(p.meta@) == size_of::<U>()
        }
}

/// Calls a provided function to get a fat pointer version of `v`.
pub fn check_fat_pointer<U, T: Dst, F: FnOnce(&U) -> WidePtr>(v: &U, get_ref: F) -> (ptr: WidePtr)
    requires
        narrows::<U, T, F>(get_ref, v),
    ensures
        call_ensures(get_ref, (v,), ptr),
        ptr.addr == 0,
        ptr.meta@.len() == T::spec_meta_len(),
        T::spec_size_of_val(ptr.meta@) == size_of::<U>(),
{
    get_ref(v)
}

/// A run of `n` zero bytes.
fn zeros(n: usize) -> (r: Vec<u8>)
    ensures
        r@.len() == n,
        forall|i: int| 0 <= i < n ==> r@[i] == 0,
{
    let mut r: Vec<u8> = Vec::new();
    let mut i: usize = 0;
    while i < n
        invariant
            i <= n,
            r@.len() == i,
            forall|k: int| 0 <= k < i ==> r@[k] == 0,
        decreases n - i,
    {
        r.push(0);
        i += 1;
    }
    r
}

/// Push items to a list using a generator function to get the items, under
/// a guard that undoes the push if an item cannot be made
/// - `meta`  - Metadata slot (must hold one machine word)
/// - `data`  - Data slot, must be at least `count * size_of::<I>()` bytes long
/// - `count` - Number of items to insert
/// - `gen`   - Generator function (is passed the current index); `None`
///   says that the item cannot be made
/// - `reset_slot` - A slot updated with `reset_value` when an item cannot be
///   made before the push is complete
/// - `reset_value` - Value used in `reset_slot`
/// - `table` - The table through which the items written are destroyed in
///   that case
///
/// Returns the number of items written, and their images. If that is
/// `count`, the push is complete, and the count has been stored as the
/// descriptor. If it is less, the generator gave no item at that index: the
/// items written have been destroyed, once and together, as a sequence of
/// that many items, their bytes are zeros, and the slot has been reset.
pub fn list_push_gen<I: Object, W: Pod, G: Fn(usize) -> Option<I>>(
    meta: &mut [W],
    data: &mut [W],
    count: usize,
    gen: G,
    reset_slot: &mut usize,
    reset_value: usize,
    table: &mut Slice<I>,
) -> (r: (usize, Ghost<Seq<u8>>))
    requires
        size_of::<usize>() <= old(meta)@.len() * size_of::<W>(),
        count * size_of::<I>() <= old(data)@.len() * size_of::<W>(),
        count * size_of::<I>() <= usize::MAX,
        forall|i: usize| i < count ==> call_requires(gen, (i,)),
    ensures
        final(meta)@.len() == old(meta)@.len(),
        final(data)@.len() == old(data)@.len(),
        r.0 <= count,
        generated::<I, G>(gen, r.0 as nat, r.1@),
        r.0 == count ==> {
            &&& *final(reset_slot) == *old(reset_slot)
            &&& usizes_of(bytes_of(final(meta)@), 1) == seq![count]
            &&& bytes_of(final(data)@).subrange(0, count * size_of::<I>()) == r.1@
            &&& *final(table) == *old(table)
        },
        r.0 < count ==> {
            &&& call_ensures(gen, (r.0,), None::<I>)
            &&& *final(reset_slot) == reset_value
            &&& final(meta)@ == old(meta)@
            &&& forall|i: int|
                0 <= i < r.1@.len() ==> #[trigger] bytes_of(final(data)@)[i] == 0
            &&& final(table).destroyed() == old(table).destroyed().push(
                FrameView { meta: seq![r.0], data: r.1@ },
            )
        },
{
    let size = core::mem::size_of::<I>();
    let ghost mut image: Seq<u8> = Seq::empty();
    let mut i: usize = 0;
    proof {
        assert(0 * size == 0) by (nonlinear_arith);
        assert(bytes_of(data@).subrange(0, 0) =~= image);
    }
    while i < count
        invariant
            size == size_of::<I>(),
            i <= count,
            count * size <= data@.len() * size_of::<W>(),
            count * size <= usize::MAX,
            forall|k: usize| k < count ==> call_requires(gen, (k,)),
            data@.len() == old(data)@.len(),
            meta@ == old(meta)@,
            *reset_slot == *old(reset_slot),
            *table == *old(table),
            generated::<I, G>(gen, i as nat, image),
            bytes_of(data@).subrange(0, i * size) == image,
        decreases count - i,
    {
        assert(0 <= i * size <= (i + 1) * size <= count * size && (i + 1) * size - i * size
            == size) by (nonlinear_arith)
            requires
                0 <= i < count,
                size >= 0,
        ;
        match gen(i) {
            Some(val) => {
                let bytes = val.to_raw();
                copy_bytes(data, i * size, bytes.as_slice());
                core::mem::forget(val);
                proof {
                    let ghost longer = image + bytes@;
                    assert(longer.len() == (i + 1) * size);
                    assert(bytes_of(data@).subrange(0, (i + 1) * size) =~= longer);
                    assert forall|k: int| 0 <= k < i + 1 implies #[trigger] gives::<I, G>(
                        gen,
                        k,
                        item_at::<I>(longer, k),
                    ) by {
                        if k < i {
                            assert(0 <= k * size <= (k + 1) * size <= i * size) by (nonlinear_arith)
                                requires
                                    0 <= k < i,
                                    size >= 0,
                            ;
                            assert(item_at::<I>(longer, k) =~= item_at::<I>(image, k));
                            assert(gives::<I, G>(gen, k, item_at::<I>(image, k)));
                        } else {
                            assert(item_at::<I>(longer, k) =~= bytes@);
                            assert(call_ensures(gen, (k as usize,), Some(val)));
                        }
                    }
                    image = longer;
                    assert(generated::<I, G>(gen, (i + 1) as nat, image));
                }
                i += 1;
            },
            None => {
                // Reset the state of the data structure
                *reset_slot = reset_value;
                // Drop all partially-populated items
                let written = load_bytes(data, 0, i * size);
                let count_word: [usize; 1] = [i];
                proof {
                    assert(count_word@ =~= seq![i]);
                }
                table.drop_in_place(count_word.as_slice(), written.as_slice());
                let blank = zeros(i * size);
                copy_bytes(data, 0, blank.as_slice());
                return (i, Ghost(image));
            },
        }
    }
    // Save the length once everything has been written
    let count_word: [usize; 1] = [count];
    proof {
        assert(1 * size_of::<usize>() == size_of::<usize>()) by (nonlinear_arith);
        assert(count_word@ =~= seq![count]);
    }
    store_metadata(meta, count_word.as_slice());
    (count, Ghost(image))
}

} // verus!
