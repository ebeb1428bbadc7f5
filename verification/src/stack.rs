//! A last-in-first-out stack of dynamically-sized values.
//!
//! The data array is filled from the back, with the metadata stored before
//! (at a lower index than) the actual data, so that a single integer tracks
//! the position.
use crate::bytes::{copy_bytes, lemma_words_for, spec_round_to_words};
use crate::data_buf::{within_limit, DataBuf, Pod};
use crate::frame::{
    decode_data, decode_meta, exact, frame_mut_at, head, head_fits, head_meta, head_words,
    lemma_exact_unfold, lemma_frame_prepend, lemma_frame_replaced, lemma_head_shaped,
    lemma_meta_words, lemma_parse_concat, lemma_parse_empty, lemma_parse_len, lemma_parse_shaped,
    load_frame, meta_ok, parse, shaped, spec_frame_words, spec_meta_words, Dst, Frame, FrameMut,
    FrameView, Object, Unsize, WidePtr,
};
use crate::kinds::{
    clone_of, cloned_items, concat_images, gives, images_of, item_at, items_bytes, pushed_from,
    Slice, Str,
};
use crate::{
    check_fat_pointer, decompose_pointer, list_push_gen, make_fat_ptr, narrows, store_metadata,
    AlignmentValid, PushInnerInfo,
};
use vstd::layout::size_of;
use vstd::prelude::*;
use vstd::slice::slice_subrange;
use vstd::string::StringSliceAdditionalSpecFns;

verus! {

/// A fixed-capacity stack that can contain dynamically-sized types
///
/// Uses a buffer of words as a backing store for a First-In, Last-Out stack
/// of items of the interface `T`.
///
/// The view of a stack is the list of the values on it, the top one first.
///
/// Note: Each item in the stack takes at least one slot in the buffer (to store the metadata)
pub struct StackA<T: Dst, D: DataBuf> {
    table: T,
    // Offset from the _back_ of `data` to the next free position.
    // I.e. data[data.len() - cur_ofs] is the first metadata word
    next_ofs: usize,
    data: D,
}

impl<T: Dst, D: DataBuf> View for StackA<T, D> {
    type V = Seq<FrameView>;

    closed spec fn view(&self) -> Seq<FrameView> {
        parse::<T, D::Inner>(self.window())
    }
}

impl<T: Dst, D: DataBuf> StackA<T, D> {
    /// The words in use: the last `next_ofs` words of the buffer.
    pub closed spec fn window(&self) -> Seq<D::Inner> {
        self.data.words().subrange(
            self.data.words().len() - self.next_ofs,
            self.data.words().len() as int,
        )
    }

    /// The number of words in use.
    pub closed spec fn used(&self) -> nat {
        self.next_ofs as nat
    }

    /// The number of words that the buffer holds.
    pub closed spec fn capacity(&self) -> nat {
        self.data.words().len()
    }

    /// The greatest number of words that the buffer can be made to hold.
    pub closed spec fn limit(&self) -> nat {
        self.data.spec_limit()
    }

    /// The table of the interface.
    pub closed spec fn spec_table(&self) -> T {
        self.table
    }

    /// The values that the stack has destroyed, oldest first.
    pub open spec fn destroyed(&self) -> Seq<FrameView> {
        self.spec_table().destroyed()
    }

    /// The words in use lie in the buffer and are whole frames.
    pub closed spec fn wf(&self) -> bool {
        &&& meta_ok::<T>()
        &&& within_limit(&self.data)
        &&& self.next_ofs <= self.data.words().len()
        &&& exact::<T, D::Inner>(self.window())
    }

    /// A value of `size` bytes can be pushed: the words in use and the words
    /// of its frame are within the buffer's limit.
    pub open spec fn has_room(&self, size: nat) -> bool {
        self.used() + spec_frame_words::<T, D::Inner>(size) <= self.limit()
    }

    /// How the stack stands once a value of `size` bytes has been pushed
    /// onto the stack `before`: the words of its frame are in use as well, and
    /// the buffer has grown only if the frame would not fit otherwise.
    pub open spec fn pushed(&self, before: &Self, size: nat) -> bool {
        let need = spec_frame_words::<T, D::Inner>(size);
        &&& self.used() == before.used() + need
        &&& self.capacity() >= before.capacity()
        &&& before.used() + need <= before.capacity() ==> self.capacity() == before.capacity()
    }

    /// Construct a new (empty) stack
    pub fn new() -> (r: Self) where D: Default
        ensures
            r.wf(),
            r@ == Seq::<FrameView>::empty(),
            r.used() == 0,
            r.destroyed() == Seq::<FrameView>::empty(),
            exists|b: D|
                call_ensures(D::default, (), b) && r.limit() == b.spec_limit() && r.capacity()
                    == b.words().len(),
    {
        Self::with_buffer(D::default())
    }

    /// Construct a new (empty) stack using the provided buffer
    pub fn with_buffer(data: D) -> (r: Self)
        ensures
            r.wf(),
            r@ == Seq::<FrameView>::empty(),
            r.used() == 0,
            r.destroyed() == Seq::<FrameView>::empty(),
            r.limit() == data.spec_limit(),
            r.capacity() == data.words().len(),
    {
        // The buffer answers for its limit, and the interface for its descriptor
        let _words = data.as_ref().len();
        let _meta = Self::meta_words();
        let r = StackA { table: T::new(), next_ofs: 0, data };
        proof {
            lemma_parse_empty::<T, D::Inner>(r.window());
        }
        r
    }

    /// Tests if the stack is empty
    pub fn is_empty(&self) -> (r: bool)
        requires
            self.wf(),
        ensures
            r == (self@.len() == 0),
    {
        proof {
            lemma_parse_len::<T, D::Inner>(self.window());
        }
        self.next_ofs == 0
    }

    /// The table of the interface, which knows what has been destroyed.
    pub fn table(&self) -> (r: &T)
        ensures
            *r == self.spec_table(),
    {
        &self.table
    }

    /// Number of words that the descriptor takes.
    fn meta_words() -> (r: usize)
        ensures
            r == spec_meta_words::<T, D::Inner>(),
            meta_ok::<T>(),
    {
        proof {
            <usize as Pod>::lemma_size(0usize);
        }
        let n = T::meta_len();
        let size = core::mem::size_of::<usize>();
        assert(n * size <= 48) by (nonlinear_arith)
            requires
                n <= 3,
                size <= 16,
        ;
        D::round_to_words(n * size)
    }

    /// Makes room for a value of `bytes` bytes below the values on the
    /// stack, growing the buffer if that is needed and possible, and stores
    /// the descriptor. Returns the words for the descriptor and for the data,
    /// and the place of the stack's position with the value to put back there
    /// if the push is given up.
    fn push_inner_raw(&mut self, bytes: usize, metadata: &[usize]) -> (r: Result<
        PushInnerInfo<'_, T, D::Inner>,
        (),
    >)
        requires
            old(self).wf(),
            metadata@.len() == T::spec_meta_len(),
        ensures
            r is Ok <==> old(self).has_room(bytes as nat),
            match r {
                Ok(pii) => {
                    let top = old(self).next_ofs + spec_frame_words::<T, D::Inner>(bytes as nat);
                    &&& pii.meta@.len() == spec_meta_words::<T, D::Inner>()
                    &&& pii.data@.len() == spec_round_to_words::<D::Inner>(bytes as nat)
                    &&& decode_meta::<T, D::Inner>(pii.meta@) == metadata@
                    &&& pii.reset_value == old(self).next_ofs
                    &&& *pii.reset_slot == top
                    &&& final(self).next_ofs == *final(pii.reset_slot)
                    &&& *pii.table == old(self).table
                    &&& final(self).table == *final(pii.table)
                    &&& final(self).data.spec_limit() == old(self).data.spec_limit()
                    &&& pii.after@ == old(self).window()
                    &&& pii.before@.len() + pii.meta@.len() + pii.data@.len() + pii.after@.len()
                        >= old(self).data.words().len()
                    &&& top <= old(self).data.words().len() ==> pii.before@.len() + pii.meta@.len()
                        + pii.data@.len() + pii.after@.len() == old(self).data.words().len()
                    &&& final(self).data.words() == pii.before@ + final(pii.meta)@ + final(pii.data)@
                        + pii.after@
                    &&& pii.before@.len() + pii.meta@.len() + pii.data@.len() + pii.after@.len()
                        <= final(self).data.spec_limit() <= usize::MAX
                    &&& meta_ok::<T>()
                },
                Err(_) => {
                    &&& final(self).wf()
                    &&& final(self).window() == old(self).window()
                    &&& final(self).data.words() == old(self).data.words()
                    &&& final(self).next_ofs == old(self).next_ofs
                    &&& final(self).table == old(self).table
                    &&& final(self).data.spec_limit() == old(self).data.spec_limit()
                },
            },
    {
        proof {
            lemma_meta_words::<T, D::Inner>();
        }
        let mw = Self::meta_words();
        let dw = D::round_to_words(bytes);
        if dw > usize::MAX - mw {
            return Err(());
        }
        let words = dw + mw;
        if words > usize::MAX - self.next_ofs {
            return Err(());
        }
        let req_space = self.next_ofs + words;
        let ghost window = self.window();
        // Attempt resize (if the underlying buffer allows it)
        if req_space > self.data.as_ref().len() {
            let old_len = self.data.as_ref().len();
            if let Ok(_) = self.data.extend(req_space) {
                let new_len = self.data.as_ref().len();
                self.data.as_mut().rotate_right(new_len - old_len);
                proof {
                    assert(self.window() =~= window);
                }
            }
        }
        // Check if there is sufficient space for the new item

        if req_space <= self.data.as_ref().len() {
            // Get the base pointer for the new item
            let prev_next_ofs = self.next_ofs;
            self.next_ofs += words;
            let len = self.data.as_ref().len();
            let buf = self.data.as_mut();
            let (_lo, hi) = buf.split_at_mut(len - req_space);
            let (slot, _rest) = hi.split_at_mut(words);
            let (meta, rv) = slot.split_at_mut(mw);
            proof {
                assert(_rest@ =~= window);
                assert(mw * size_of::<D::Inner>() == meta@.len() * size_of::<D::Inner>());
            }
            // Populate the metadata
            store_metadata(meta, metadata);
            // Increment offset and return
            Ok(
                PushInnerInfo {
                    meta,
                    data: rv,
                    reset_slot: &mut self.next_ofs,
                    reset_value: prev_next_ofs,
                    table: &mut self.table,
                    before: Ghost(_lo@),
                    after: Ghost(_rest@),
                },
            )
        } else {
            Err(())
        }
    }

    /// See `push_inner_raw`: makes room for the value that the wide
    /// reference refers to.
    fn push_inner(&mut self, fat_ptr: &WidePtr) -> (r: Result<PushInnerInfo<'_, T, D::Inner>, ()>)
        requires
            old(self).wf(),
            fat_ptr.meta@.len() == T::spec_meta_len(),
            T::spec_size_of_val(fat_ptr.meta@) <= usize::MAX,
        ensures
            r is Ok <==> old(self).has_room(T::spec_size_of_val(fat_ptr.meta@)),
            match r {
                Ok(pii) => {
                    let size = T::spec_size_of_val(fat_ptr.meta@);
                    let top = old(self).next_ofs + spec_frame_words::<T, D::Inner>(size);
                    &&& pii.meta@.len() == spec_meta_words::<T, D::Inner>()
                    &&& pii.data@.len() == spec_round_to_words::<D::Inner>(size)
                    &&& decode_meta::<T, D::Inner>(pii.meta@) == fat_ptr.meta@
                    &&& pii.reset_value == old(self).next_ofs
                    &&& *pii.reset_slot == top
                    &&& final(self).next_ofs == *final(pii.reset_slot)
                    &&& *pii.table == old(self).table
                    &&& final(self).table == *final(pii.table)
                    &&& final(self).data.spec_limit() == old(self).data.spec_limit()
                    &&& pii.after@ == old(self).window()
                    &&& pii.before@.len() + pii.meta@.len() + pii.data@.len() + pii.after@.len()
                        >= old(self).data.words().len()
                    &&& top <= old(self).data.words().len() ==> pii.before@.len() + pii.meta@.len()
                        + pii.data@.len() + pii.after@.len() == old(self).data.words().len()
                    &&& final(self).data.words() == pii.before@ + final(pii.meta)@ + final(pii.data)@
                        + pii.after@
                    &&& pii.before@.len() + pii.meta@.len() + pii.data@.len() + pii.after@.len()
                        <= final(self).data.spec_limit() <= usize::MAX
                    &&& meta_ok::<T>()
                },
                Err(_) => {
                    &&& final(self).wf()
                    &&& final(self).window() == old(self).window()
                    &&& final(self).data.words() == old(self).data.words()
                    &&& final(self).next_ofs == old(self).next_ofs
                    &&& final(self).table == old(self).table
                    &&& final(self).data.spec_limit() == old(self).data.spec_limit()
                },
            },
    {
        let bytes = T::size_of_val(fat_ptr.meta.as_slice());
        let (_data_ptr, len, v) = decompose_pointer(fat_ptr);
        self.push_inner_raw(bytes, slice_subrange(v.as_slice(), 0, len))
    }

    /// Push a value at the top of the stack. The closure `f` gives the wide
    /// reference under which `v` is held.
    ///
    /// Returns `Err(v)`, and leaves the stack as it is, if there is no room.
    pub fn push_stable<U: Object, F: FnOnce(&U) -> WidePtr>(&mut self, v: U, f: F) -> (r: Result<
        (),
        U,
    >) where (U, D::Inner): AlignmentValid
        requires
            <(U, D::Inner) as AlignmentValid>::valid(),
            narrows::<U, T, F>(f, &v),
            old(self).wf(),
        ensures
            final(self).wf(),
            final(self).limit() == old(self).limit(),
            final(self).destroyed() == old(self).destroyed(),
            r is Ok <==> old(self).has_room(size_of::<U>()),
            r is Ok ==> final(self).pushed(old(self), size_of::<U>()) && exists|p: WidePtr|
                call_ensures(f, (&v,), p) && final(self)@ == seq![
                    FrameView { meta: p.meta@, data: v.image() },
                ] + old(self)@,
            r is Err ==> {
                &&& r == Err::<(), U>(v)
                &&& final(self)@ == old(self)@
                &&& final(self).used() == old(self).used()
                &&& final(self).capacity() == old(self).capacity()
            },
    {
        <(U, D::Inner) as AlignmentValid>::check();
        let ptr = check_fat_pointer::<U, T, F>(&v, f);
        let image = v.to_raw();
        let size = image.len();
        proof {
            assert(size == size_of::<U>());
        }
        match self.push_inner(&ptr) {
            Ok(pii) => {
                proof {
                    <D::Inner as Pod>::lemma_size(<D::Inner as Pod>::spec_zero());
                    lemma_words_for(image@.len(), size_of::<D::Inner>());
                }
                copy_bytes(pii.data, 0, image.as_slice());
                proof {
                    let meta = pii.meta@;
                    let data = pii.data@;
                    let rest = old(self).window();
                    assert(decode_data::<D::Inner>(data, image@.len()) =~= image@);
                    lemma_frame_prepend::<T, D::Inner>(meta, data, rest);
                    assert(self.window() =~= meta + data + rest);
                }
                core::mem::forget(v);
                Ok(())
            },
            Err(_) => Err(v),
        }
    }

    /// Push a value at the top of the stack
    pub fn push<U: Unsize<T>>(&mut self, v: U) -> (r: Result<(), U>) where
        (U, D::Inner): AlignmentValid,

        requires
            <(U, D::Inner) as AlignmentValid>::valid(),
            old(self).wf(),
        ensures
            final(self).wf(),
            final(self).limit() == old(self).limit(),
            final(self).destroyed() == old(self).destroyed(),
            r is Ok <==> old(self).has_room(size_of::<U>()),
            r is Ok ==> {
                &&& final(self).pushed(old(self), size_of::<U>())
                &&& final(self)@ == seq![FrameView { meta: v.spec_unsize(), data: v.image() }]
                    + old(self)@
            },
            r is Err ==> {
                &&& r == Err::<(), U>(v)
                &&& final(self)@ == old(self)@
                &&& final(self).used() == old(self).used()
                &&& final(self).capacity() == old(self).capacity()
            },
    {
        let f = |p: &U| -> (r: WidePtr)
            ensures
                r.addr == 0,
                r.meta@ == p.spec_unsize(),
                r.meta@.len() == T::spec_meta_len(),
                T::spec_size_of_val(r.meta@) == size_of::<U>(),
            { p.unsize() };
        self.push_stable(v, f)
    }

    /// The wide reference to the value whose frame starts `ofs` words from
    /// the end of the buffer.
    fn raw_at(&self, ofs: usize) -> (r: WidePtr)
        requires
            meta_ok::<T>(),
            ofs <= self.data.words().len(),
            head_fits::<T, D::Inner>(
                self.data.words().subrange(
                    self.data.words().len() - ofs,
                    self.data.words().len() as int,
                ),
            ),
        ensures
            r.addr == self.data.words().len() - ofs + spec_meta_words::<T, D::Inner>(),
            r.meta@ == head_meta::<T, D::Inner>(
                self.data.words().subrange(
                    self.data.words().len() - ofs,
                    self.data.words().len() as int,
                ),
            ),
    {
        proof {
            lemma_meta_words::<T, D::Inner>();
        }
        let dar = self.data.as_ref();
        let pos = dar.len() - ofs;
        let (_lo, meta) = dar.split_at(pos);
        let mw = Self::meta_words();
        let (meta, _data) = meta.split_at(mw);
        make_fat_ptr::<T, D::Inner>(pos + mw, meta)
    }

    // Get a raw pointer to the top of the stack
    fn top_raw(&self) -> (r: Option<WidePtr>)
        requires
            self.wf(),
        ensures
            r is Some <==> self@.len() > 0,
            r is Some ==> {
                &&& r.unwrap().addr == self.data.words().len() - self.next_ofs
                    + spec_meta_words::<T, D::Inner>()
                &&& r.unwrap().meta@ == self@[0].meta
                &&& head_fits::<T, D::Inner>(self.window())
            },
    {
        proof {
            lemma_parse_len::<T, D::Inner>(self.window());
        }
        if self.next_ofs == 0 {
            None
        } else {
            proof {
                lemma_exact_unfold::<T, D::Inner>(self.window());
            }
            Some(self.raw_at(self.next_ofs))
        }
    }

    /// The value whose frame starts `ofs` words from the end of the buffer.
    fn frame_at(&self, ofs: usize) -> (r: Frame)
        requires
            meta_ok::<T>(),
            ofs <= self.data.words().len(),
            head_fits::<T, D::Inner>(
                self.data.words().subrange(
                    self.data.words().len() - ofs,
                    self.data.words().len() as int,
                ),
            ),
        ensures
            r@ == head::<T, D::Inner>(
                self.data.words().subrange(
                    self.data.words().len() - ofs,
                    self.data.words().len() as int,
                ),
            ),
            shaped::<T>(r@),
    {
        let ptr = self.raw_at(ofs);
        proof {
            let words = self.data.words();
            let at = words.len() - ofs;
            let win = words.subrange(at, words.len() as int);
            lemma_head_shaped::<T, D::Inner>(win);
            let mw = spec_meta_words::<T, D::Inner>() as int;
            let hw = head_words::<T, D::Inner>(win) as int;
            assert(win.subrange(mw, hw) =~= words.subrange(at + mw, at + hw));
        }
        load_frame::<T, D::Inner>(self.data.as_ref(), ptr)
    }

    /// Returns the top item on the stack
    pub fn top(&self) -> (r: Option<Frame>)
        requires
            self.wf(),
        ensures
            r is Some <==> self@.len() > 0,
            r is Some ==> r.unwrap()@ == self@[0] && shaped::<T>(r.unwrap()@),
    {
        match self.top_raw() {
            Some(ptr) => {
                proof {
                    let win = self.window();
                    let words = self.data.words();
                    lemma_exact_unfold::<T, D::Inner>(win);
                    lemma_head_shaped::<T, D::Inner>(win);
                    let mw = spec_meta_words::<T, D::Inner>() as int;
                    let hw = head_words::<T, D::Inner>(win) as int;
                    let at = words.len() - self.next_ofs;
                    assert(win.subrange(mw, hw) =~= words.subrange(at + mw, at + hw));
                }
                Some(load_frame::<T, D::Inner>(self.data.as_ref(), ptr))
            },
            None => None,
        }
    }

    /// Every item on the stack is one of the interface, and the words in
    /// use are within the buffer's limit.
    pub proof fn lemma_wf(&self)
        requires
            self.wf(),
        ensures
            self.used() <= self.capacity() <= self.limit() <= usize::MAX,
            forall|i: int| 0 <= i < self@.len() ==> shaped::<T>(#[trigger] self@[i]),
    {
        lemma_parse_shaped::<T, D::Inner>(self.window());
    }

    /// Obtain an immutable iterator (yields the items in the order they would be popped)
    pub fn iter(&self) -> (r: Iter<'_, T, D>)
        requires
            self.wf(),
        ensures
            r.wf(),
            r.remaining() == self@,
    {
        Iter { stack: self, ofs: self.next_ofs }
    }

    /// Pop the top item off the stack, and destroy it. An empty stack stays
    /// as it is.
    pub fn pop(&mut self)
        requires
            old(self).wf(),
        ensures
            final(self).wf(),
            final(self).limit() == old(self).limit(),
            final(self).capacity() == old(self).capacity(),
            old(self)@.len() == 0 ==> {
                &&& final(self)@ == old(self)@
                &&& final(self).destroyed() == old(self).destroyed()
                &&& final(self).used() == old(self).used()
            },
            old(self)@.len() > 0 ==> {
                &&& final(self)@ == old(self)@.drop_first()
                &&& final(self).destroyed() == old(self).destroyed().push(old(self)@[0])
                &&& final(self).used() + spec_frame_words::<T, D::Inner>(
                    old(self)@[0].data.len(),
                ) == old(self).used()
            },
    {
        if let Some(f) = self.top() {
            proof {
                let win = self.window();
                lemma_exact_unfold::<T, D::Inner>(win);
                lemma_meta_words::<T, D::Inner>();
                let hw = head_words::<T, D::Inner>(win) as int;
                let len = self.data.words().len() as int;
                assert(win.skip(hw) =~= self.data.words().subrange(
                    len - (self.next_ofs - hw),
                    len,
                ));
            }
            let words = D::round_to_words(f.data.len()) + Self::meta_words();
            self.table.drop_in_place(f.meta.as_slice(), f.data.as_slice());
            self.next_ofs -= words;
        }
    }

    /// Pops every item off the stack, the top one first.
    pub fn clear(&mut self)
        requires
            old(self).wf(),
        ensures
            final(self).wf(),
            final(self).limit() == old(self).limit(),
            final(self).capacity() == old(self).capacity(),
            final(self)@ == Seq::<FrameView>::empty(),
            final(self).used() == 0,
            final(self).destroyed() == old(self).destroyed() + old(self)@,
    {
        proof {
            assert(old(self).destroyed() + old(self)@.subrange(0, 0) =~= old(self).destroyed());
        }
        let ghost mut done: int = 0;
        while !self.is_empty()
            invariant
                self.wf(),
                self.limit() == old(self).limit(),
                self.capacity() == old(self).capacity(),
                0 <= done <= old(self)@.len(),
                self@ == old(self)@.subrange(done, old(self)@.len() as int),
                self.destroyed() == old(self).destroyed() + old(self)@.subrange(0, done),
            decreases self@.len(),
        {
            proof {
                let gone = old(self).destroyed() + old(self)@.subrange(0, done);
                assert(old(self).destroyed() + old(self)@.subrange(0, done + 1) =~= gone.push(
                    self@[0],
                ));
                assert(self@.drop_first() =~= old(self)@.subrange(
                    done + 1,
                    old(self)@.len() as int,
                ));
                done = done + 1;
            }
            self.pop();
        }
        proof {
            lemma_parse_len::<T, D::Inner>(self.window());
            assert(old(self)@.subrange(0, done) =~= old(self)@);
            assert(self@ =~= Seq::<FrameView>::empty());
        }
    }
}

impl<T: Dst, D: DataBuf> StackA<T, D> {
    /// Pushes the value with the given descriptor and bytes.
    fn push_raw(&mut self, meta: &[usize], image: &[u8]) -> (r: Result<(), ()>)
        requires
            old(self).wf(),
            meta@.len() == T::spec_meta_len(),
            image@.len() == T::spec_size_of_val(meta@),
        ensures
            final(self).wf(),
            final(self).limit() == old(self).limit(),
            final(self).spec_table() == old(self).spec_table(),
            r is Ok <==> old(self).has_room(image@.len()),
            r is Ok ==> {
                &&& final(self).pushed(old(self), image@.len())
                &&& final(self)@ == seq![FrameView { meta: meta@, data: image@ }] + old(self)@
            },
            r is Err ==> {
                &&& final(self)@ == old(self)@
                &&& final(self).used() == old(self).used()
                &&& final(self).capacity() == old(self).capacity()
            },
    {
        match self.push_inner_raw(image.len(), meta) {
            Ok(pii) => {
                proof {
                    <D::Inner as Pod>::lemma_size(<D::Inner as Pod>::spec_zero());
                    lemma_words_for(image@.len(), size_of::<D::Inner>());
                }
                copy_bytes(pii.data, 0, image);
                proof {
                    let mwords = pii.meta@;
                    let dwords = pii.data@;
                    let rest = old(self).window();
                    assert(decode_data::<D::Inner>(dwords, image@.len()) =~= image@);
                    lemma_frame_prepend::<T, D::Inner>(mwords, dwords, rest);
                    assert(self.window() =~= mwords + dwords + rest);
                }
                Ok(())
            },
            Err(_) => Err(()),
        }
    }
}

impl<D: DataBuf> StackA<Str, D> {
    /// Push the contents of a string slice as an item onto the stack
    pub fn push_str(&mut self, v: &str) -> (r: Result<(), ()>)
        requires
            old(self).wf(),
        ensures
            final(self).wf(),
            final(self).limit() == old(self).limit(),
            final(self).destroyed() == old(self).destroyed(),
            r is Ok <==> old(self).has_room(v.spec_bytes().len()),
            r is Ok ==> {
                &&& final(self).pushed(old(self), v.spec_bytes().len())
                &&& final(self)@ == seq![
                    FrameView { meta: seq![v.spec_bytes().len() as usize], data: v.spec_bytes() },
                ] + old(self)@
            },
            r is Err ==> {
                &&& final(self)@ == old(self)@
                &&& final(self).used() == old(self).used()
                &&& final(self).capacity() == old(self).capacity()
            },
    {
        let bytes = v.as_bytes();
        let meta: [usize; 1] = [bytes.len()];
        proof {
            assert(meta@ =~= seq![bytes@.len() as usize]);
        }
        self.push_raw(meta.as_slice(), bytes)
    }
}

impl<I: Object, D: DataBuf> StackA<Slice<I>, D> where (I, D::Inner): AlignmentValid {
    /// Pushes a set of items (cloning out of the input slice)
    pub fn push_cloned(&mut self, v: &[I]) -> (r: Result<(), ()>) where I: Clone
        requires
            <(I, D::Inner) as AlignmentValid>::valid(),
            old(self).wf(),
        ensures
            final(self).wf(),
            final(self).limit() == old(self).limit(),
            final(self).destroyed() == old(self).destroyed(),
            r is Ok <==> items_bytes::<I>(v@.len()) <= usize::MAX && old(self).has_room(
                items_bytes::<I>(v@.len()),
            ),
            r is Ok ==> final(self).pushed(old(self), items_bytes::<I>(v@.len())),
            r is Ok ==> exists|image: Seq<u8>| #[trigger]
                cloned_items::<I>(v@, image) && final(self)@ == seq![
                    FrameView { meta: seq![v@.len() as usize], data: image },
                ] + old(self)@,
            r is Err ==> {
                &&& final(self)@ == old(self)@
                &&& final(self).used() == old(self).used()
            },
    {
        <(I, D::Inner) as AlignmentValid>::check();
        let gen = |i: usize| -> (r: Option<I>)
            requires
                i < v@.len(),
            ensures
                r is Some,
                cloned::<I>(v@[i as int], r.unwrap()),
            { Some(v[i].clone()) };
        let r = self.push_from_iter(v.len(), gen);
        proof {
            let bytes = items_bytes::<I>(v@.len());
            if bytes <= usize::MAX && old(self).has_room(bytes) {
                let (k, image) = choose|k: int, image: Seq<u8>| #[trigger]
                    pushed_from::<I, _>(
                        gen,
                        v@.len() as usize,
                        k,
                        image,
                        r,
                        self@.subrange(0, self@.len() - old(self)@.len()),
                        self.destroyed().subrange(
                            old(self).destroyed().len() as int,
                            self.destroyed().len() as int,
                        ),
                    );
                assert(k == v@.len());
                assert forall|i: int| 0 <= i < v@.len() implies #[trigger] clone_of::<I>(
                    v@[i],
                    item_at::<I>(image, i),
                ) by {
                    assert(gives::<I, _>(gen, i, item_at::<I>(image, i)));
                }
                assert(cloned_items::<I>(v@, image));
                assert(self@ =~= seq![FrameView { meta: seq![v@.len() as usize], data: image }]
                    + old(self)@);
                assert(self.destroyed() =~= old(self).destroyed());
            }
        }
        r
    }

    /// Pushes a set of items (copying out of the input slice)
    pub fn push_copied(&mut self, v: &[I]) -> (r: Result<(), ()>) where I: Copy
        requires
            <(I, D::Inner) as AlignmentValid>::valid(),
            old(self).wf(),
        ensures
            final(self).wf(),
            final(self).limit() == old(self).limit(),
            final(self).destroyed() == old(self).destroyed(),
            r is Ok <==> old(self).has_room(items_bytes::<I>(v@.len())),
            r is Ok ==> {
                &&& final(self).pushed(old(self), items_bytes::<I>(v@.len()))
                &&& final(self)@ == seq![
                    FrameView { meta: seq![v@.len() as usize], data: images_of(v@) },
                ] + old(self)@
            },
            r is Err ==> {
                &&& final(self)@ == old(self)@
                &&& final(self).used() == old(self).used()
                &&& final(self).capacity() == old(self).capacity()
            },
    {
        <(I, D::Inner) as AlignmentValid>::check();
        let image = concat_images(v);
        let meta: [usize; 1] = [v.len()];
        proof {
            assert(meta@ =~= seq![v@.len() as usize]);
        }
        self.push_raw(meta.as_slice(), image.as_slice())
    }

    /// Push an item, populated from a generator of `count` items. The
    /// generator is asked for the items one by one, in order, once there is
    /// room for all. If it gives none for some index, the push is given up:
    /// the items written are destroyed, and the stack is as it was.
    pub fn push_from_iter<G: Fn(usize) -> Option<I>>(&mut self, count: usize, gen: G) -> (r: Result<
        (),
        (),
    >)
        requires
            <(I, D::Inner) as AlignmentValid>::valid(),
            old(self).wf(),
            forall|i: usize| i < count ==> call_requires(gen, (i,)),
        ensures
            final(self).wf(),
            final(self).limit() == old(self).limit(),
            r is Ok ==> final(self).pushed(old(self), items_bytes::<I>(count as nat)),
            old(self)@.len() <= final(self)@.len(),
            old(self).destroyed().len() <= final(self).destroyed().len(),
            final(self)@.subrange(final(self)@.len() - old(self)@.len(), final(self)@.len() as int)
                == old(self)@,
            final(self).destroyed().subrange(0, old(self).destroyed().len() as int) == old(self).destroyed(),
            !(items_bytes::<I>(count as nat) <= usize::MAX && old(self).has_room(
                items_bytes::<I>(count as nat),
            )) ==> r is Err && final(self)@ == old(self)@ && final(self).destroyed() == old(self).destroyed(),
            items_bytes::<I>(count as nat) <= usize::MAX && old(self).has_room(
                items_bytes::<I>(count as nat),
            ) ==> exists|k: int, image: Seq<u8>| #[trigger]
                pushed_from::<I, G>(
                    gen,
                    count,
                    k,
                    image,
                    r,
                    final(self)@.subrange(0, final(self)@.len() - old(self)@.len()),
                    final(self).destroyed().subrange(
                        old(self).destroyed().len() as int,
                        final(self).destroyed().len() as int,
                    ),
                ),
            r is Err ==> {
                &&& final(self)@ == old(self)@
                &&& final(self).used() == old(self).used()
            },
    {
        <(I, D::Inner) as AlignmentValid>::check();
        proof {
            assert(self@.subrange(0, self@.len() as int) =~= self@);
            assert(self.destroyed().subrange(0, self.destroyed().len() as int)
                =~= self.destroyed());
        }
        let size = core::mem::size_of::<I>();
        let bytes = match count.checked_mul(size) {
            Some(bytes) => bytes,
            None => {
                assert(items_bytes::<I>(count as nat) > usize::MAX);
                return Err(());
            },
        };
        assert(bytes == items_bytes::<I>(count as nat));
        let zero: [usize; 1] = [0];
        let pii = match self.push_inner_raw(bytes, zero.as_slice()) {
            Ok(pii) => pii,
            Err(_) => {
                assert(!old(self).has_room(items_bytes::<I>(count as nat)));
                return Err(());
            },
        };
        proof {
            lemma_meta_words::<Slice<I>, D::Inner>();
            <D::Inner as Pod>::lemma_size(<D::Inner as Pod>::spec_zero());
            lemma_words_for(bytes as nat, size_of::<D::Inner>());
            assert(1 * size_of::<usize>() == size_of::<usize>()) by (nonlinear_arith);
        }
        let (done, Ghost(image)) = list_push_gen(
            pii.meta,
            pii.data,
            count,
            gen,
            pii.reset_slot,
            pii.reset_value,
            pii.table,
        );
        proof {
            let rest = old(self).window();
            if done == count {
                let mwords = pii.meta@;
                let dwords = pii.data@;
                assert(decode_meta::<Slice<I>, D::Inner>(mwords) == seq![count]);
                assert(decode_data::<D::Inner>(dwords, bytes as nat) =~= image);
                lemma_frame_prepend::<Slice<I>, D::Inner>(mwords, dwords, rest);
                assert(self.window() =~= mwords + dwords + rest);
                let first = seq![FrameView { meta: seq![count], data: image }];
                assert(self@ == first + old(self)@);
                assert(self@.subrange(0, self@.len() - old(self)@.len()) =~= first);
                assert(self@.subrange(self@.len() - old(self)@.len(), self@.len() as int)
                    =~= old(self)@);
                assert(self.destroyed().subrange(
                    old(self).destroyed().len() as int,
                    self.destroyed().len() as int,
                ) =~= Seq::<FrameView>::empty());
                assert(self.destroyed().subrange(0, old(self).destroyed().len() as int)
                    =~= old(self).destroyed());
            } else {
                assert(self.window() =~= rest);
                assert(self@.subrange(0, self@.len() - old(self)@.len()) =~= Seq::<
                    FrameView,
                >::empty());
                assert(self@.subrange(self@.len() - old(self)@.len(), self@.len() as int)
                    =~= old(self)@);
                assert(self.destroyed().subrange(
                    old(self).destroyed().len() as int,
                    self.destroyed().len() as int,
                ) =~= seq![FrameView { meta: seq![done], data: image }]);
                assert(self.destroyed().subrange(0, old(self).destroyed().len() as int)
                    =~= old(self).destroyed());
            }
        }
        if done == count {
            proof {
                assert(pushed_from::<I, G>(
                    gen,
                    count,
                    done as int,
                    image,
                    Ok::<(), ()>(()),
                    self@.subrange(0, self@.len() - old(self)@.len()),
                    self.destroyed().subrange(
                        old(self).destroyed().len() as int,
                        self.destroyed().len() as int,
                    ),
                ));
            }
            Ok(())
        } else {
            proof {
                assert(pushed_from::<I, G>(
                    gen,
                    count,
                    done as int,
                    image,
                    Err::<(), ()>(()),
                    self@.subrange(0, self@.len() - old(self)@.len()),
                    self.destroyed().subrange(
                        old(self).destroyed().len() as int,
                        self.destroyed().len() as int,
                    ),
                ));
            }
            Err(())
        }
    }
}

impl<T: Dst, D: DataBuf> StackA<T, D> {
    /// How the stack stands once the value that was item `index` has been
    /// written over through `m`: as before, but for that item.
    pub open spec fn rewritten(
        &self,
        before: &Self,
        index: int,
        m: &FrameMut<'_, D::Inner>,
        words: Seq<D::Inner>,
    ) -> bool {
        words.len() == m.words@.len() ==> {
            &&& self.wf()
            &&& self.limit() == before.limit()
            &&& self.capacity() == before.capacity()
            &&& self.used() == before.used()
            &&& self.spec_table() == before.spec_table()
            &&& self@ == before@.update(
                index,
                FrameView { meta: m.meta@, data: decode_data::<D::Inner>(words, m.size as nat) },
            )
        }
    }

    /// Returns the top item on the stack, to be written over where it lies
    pub fn top_mut(&mut self) -> (r: Option<FrameMut<'_, D::Inner>>)
        requires
            old(self).wf(),
        ensures
            r is Some <==> old(self)@.len() > 0,
            r is None ==> *final(self) == *old(self),
            r matches Some(m) ==> m.wf() && m@ == old(self)@[0] && m.size == m@.data.len() && shaped::<T>(
                m@,
            ) && final(self).rewritten(
                old(self),
                0,
                &m,
                final(m.words)@,
            ),
    {
        proof {
            lemma_parse_len::<T, D::Inner>(self.window());
        }
        if self.next_ofs == 0 {
            None
        } else {
            let len = self.data.as_ref().len();
            let ghost all = self.data.words();
            let ghost win = self.window();
            proof {
                lemma_exact_unfold::<T, D::Inner>(win);
                lemma_meta_words::<T, D::Inner>();
            }
            let pos = len - self.next_ofs;
            let m = frame_mut_at::<T, D::Inner>(self.data.as_mut(), pos, len);
            proof {
                let mw = spec_meta_words::<T, D::Inner>() as int;
                let hw = head_words::<T, D::Inner>(win) as int;
                let mwords = all.subrange(pos as int, pos + mw);
                let rest = all.subrange(pos + hw, len as int);
                assert(mwords =~= win.subrange(0, mw));
                assert(rest =~= win.skip(hw));
                assert(win =~= mwords + m.words@ + rest);
                lemma_frame_prepend::<T, D::Inner>(mwords, m.words@, rest);
                assert forall|d2: Seq<D::Inner>| d2.len() == m.words@.len() implies {
                    let after = #[trigger] (all.subrange(0, pos + mw) + d2 + rest);
                    &&& after.len() == all.len()
                    &&& exact::<T, D::Inner>(after.subrange(pos as int, len as int))
                    &&& parse::<T, D::Inner>(after.subrange(pos as int, len as int)) == old(self)@.update(
                        0,
                        FrameView {
                            meta: m.meta@,
                            data: decode_data::<D::Inner>(d2, m.size as nat),
                        },
                    )
                } by {
                    let after = all.subrange(0, pos + mw) + d2 + rest;
                    assert(after.subrange(pos as int, len as int) =~= mwords + d2 + rest);
                    lemma_frame_prepend::<T, D::Inner>(mwords, d2, rest);
                    let f2 = FrameView {
                        meta: m.meta@,
                        data: decode_data::<D::Inner>(d2, m.size as nat),
                    };
                    assert(seq![f2] + parse::<T, D::Inner>(rest) =~= (seq![m@] + parse::<
                        T,
                        D::Inner,
                    >(rest)).update(0, f2));
                }
            }
            Some(m)
        }
    }

    /// Obtain unique/mutable iterator
    pub fn iter_mut(&mut self) -> (r: IterMut<'_, T, D>)
        requires
            old(self).wf(),
        ensures
            r.wf(),
            r.index() == 0,
            *r.stack == *old(self),
            *final(self) == *final(r.stack),
    {
        let ofs = self.next_ofs;
        proof {
            let len = self.data.words().len() as int;
            lemma_parse_empty::<T, D::Inner>(self.data.words().subrange(len - ofs, len - ofs));
        }
        IterMut { stack: self, ofs }
    }
}

/// DST Stack iterator (mutable)
pub struct IterMut<'a, T: Dst, D: DataBuf> {
    /// The stack that is gone through.
    pub stack: &'a mut StackA<T, D>,
    /// The offset, from the end of the buffer, of the next frame.
    pub ofs: usize,
}

impl<'a, T: Dst, D: DataBuf> IterMut<'a, T, D> {
    /// The words that the iterator has gone through.
    pub closed spec fn passed(&self) -> Seq<D::Inner> {
        self.stack.data.words().subrange(
            self.stack.data.words().len() - self.stack.next_ofs,
            self.stack.data.words().len() - self.ofs,
        )
    }

    /// The words that the iterator has not gone through yet.
    pub closed spec fn ahead(&self) -> Seq<D::Inner> {
        self.stack.data.words().subrange(
            self.stack.data.words().len() - self.ofs,
            self.stack.data.words().len() as int,
        )
    }

    /// The items of the stack, the top one first.
    pub open spec fn items(&self) -> Seq<FrameView> {
        self.stack@
    }

    /// The number of items that the iterator has given.
    pub closed spec fn index(&self) -> int {
        parse::<T, D::Inner>(self.passed()).len() as int
    }

    /// The iterator stands between two frames of its stack.
    pub closed spec fn wf(&self) -> bool {
        &&& self.stack.wf()
        &&& self.ofs <= self.stack.next_ofs
        &&& exact::<T, D::Inner>(self.passed())
        &&& exact::<T, D::Inner>(self.ahead())
    }

    /// The iterator has given every item before `index()`, and no other.
    pub proof fn lemma_index(&self)
        requires
            self.wf(),
        ensures
            0 <= self.index() <= self.items().len(),
            self.index() == self.items().len() <==> self.ofs == 0,
    {
        lemma_parse_concat::<T, D::Inner>(self.passed(), self.ahead());
        assert(self.stack.window() =~= self.passed() + self.ahead());
        lemma_parse_len::<T, D::Inner>(self.ahead());
    }

    /// How the iterator stands once it has given item `index` as `m`, and
    /// that item has been written over: one item further, in a stack that is
    /// as before but for that item.
    pub open spec fn stepped(
        &self,
        before: &Self,
        m: &FrameMut<'_, D::Inner>,
        words: Seq<D::Inner>,
    ) -> bool {
        words.len() == m.words@.len() ==> {
            &&& self.wf()
            &&& self.index() == before.index() + 1
            &&& self.stack.rewritten(&*before.stack, before.index(), m, words)
        }
    }

    /// The next item, if there is one, to be written over where it lies.
    #[verifier::rlimit(40)]
    pub fn next(&mut self) -> (r: Option<FrameMut<'_, D::Inner>>)
        requires
            old(self).wf(),
        ensures
            *final(final(self).stack) == *final(old(self).stack),
            r is Some <==> old(self).index() < old(self).items().len(),
            r is None ==> *final(self).stack == *old(self).stack && final(self).ofs == old(self).ofs,
            r matches Some(m) ==> m.wf() && m@ == old(self).items()[old(self).index()] && m.size
                == m@.data.len() && shaped::<T>(m@) && final(self).stepped(
                old(self),
                &m,
                final(m.words)@,
            ),
    {
        proof {
            self.lemma_index();
        }
        if self.ofs == 0 {
            None
        } else {
            let len = self.stack.data.as_ref().len();
            let ghost all = self.stack.data.words();
            let ghost a = self.passed();
            let ghost x = self.ahead();
            proof {
                lemma_exact_unfold::<T, D::Inner>(x);
                lemma_head_shaped::<T, D::Inner>(x);
                lemma_meta_words::<T, D::Inner>();
            }
            let pos = len - self.ofs;
            let ghost start = len - self.stack.next_ofs;
            let m = frame_mut_at::<T, D::Inner>(self.stack.data.as_mut(), pos, len);
            let words = StackA::<T, D>::meta_words() + D::round_to_words(m.size);
            self.ofs -= words;
            proof {
                let mw = spec_meta_words::<T, D::Inner>() as int;
                let hw = head_words::<T, D::Inner>(x) as int;
                let mwords = all.subrange(pos as int, pos + mw);
                let b = all.subrange(pos + hw, len as int);
                let d = m.words@;
                assert(mwords =~= x.subrange(0, mw));
                assert(b =~= x.skip(hw));
                assert(x =~= mwords + d + b);
                assert(old(self).stack.window() =~= a + (mwords + d + b));
                assert forall|d2: Seq<D::Inner>| d2.len() == d.len() implies {
                    let after = #[trigger] (all.subrange(0, pos + mw) + d2 + b);
                    &&& after.len() == all.len()
                    &&& exact::<T, D::Inner>(after.subrange(start as int, len as int))
                    &&& exact::<T, D::Inner>(after.subrange(start as int, pos + hw))
                    &&& exact::<T, D::Inner>(after.subrange(pos + hw, len as int))
                    &&& parse::<T, D::Inner>(after.subrange(start as int, pos + hw)).len()
                        == old(self).index() + 1
                    &&& parse::<T, D::Inner>(after.subrange(start as int, len as int))
                        == old(self).items().update(
                        old(self).index(),
                        FrameView {
                            meta: m.meta@,
                            data: decode_data::<D::Inner>(d2, m.size as nat),
                        },
                    )
                } by {
                    let after = all.subrange(0, pos + mw) + d2 + b;
                    lemma_frame_replaced::<T, D::Inner>(a, mwords, d, d2, b);
                    assert(after.subrange(start as int, len as int) =~= a + (mwords + d2 + b));
                    assert(after.subrange(start as int, pos + hw) =~= a + (mwords + d2));
                    assert(after.subrange(pos + hw, len as int) =~= b);
                }
                lemma_frame_replaced::<T, D::Inner>(a, mwords, d, d, b);
            }
            Some(m)
        }
    }
}

/// DST Stack iterator (immutable)
pub struct Iter<'a, T: Dst, D: DataBuf> {
    stack: &'a StackA<T, D>,
    ofs: usize,
}

impl<'a, T: Dst, D: DataBuf> Iter<'a, T, D> {
    /// The words that the iterator has not gone through yet.
    pub closed spec fn window(&self) -> Seq<D::Inner> {
        self.stack.data.words().subrange(
            self.stack.data.words().len() - self.ofs,
            self.stack.data.words().len() as int,
        )
    }

    /// The items that the iterator has yet to give, the next one first.
    pub closed spec fn remaining(&self) -> Seq<FrameView> {
        parse::<T, D::Inner>(self.window())
    }

    /// The iterator stands at the start of a frame of its stack.
    pub closed spec fn wf(&self) -> bool {
        &&& meta_ok::<T>()
        &&& self.ofs <= self.stack.data.words().len()
        &&& exact::<T, D::Inner>(self.window())
    }

    /// The next item, if there is one.
    pub fn next(&mut self) -> (r: Option<Frame>)
        requires
            old(self).wf(),
        ensures
            final(self).wf(),
            r is Some <==> old(self).remaining().len() > 0,
            r is Some ==> r.unwrap()@ == old(self).remaining()[0] && shaped::<T>(r.unwrap()@),
            r is Some ==> final(self).remaining() == old(self).remaining().drop_first(),
            r is None ==> final(self).remaining() == old(self).remaining(),
    {
        proof {
            lemma_parse_len::<T, D::Inner>(self.window());
        }
        if self.ofs == 0 {
            None
        } else {
            proof {
                let win = self.window();
                lemma_exact_unfold::<T, D::Inner>(win);
                lemma_meta_words::<T, D::Inner>();
                let hw = head_words::<T, D::Inner>(win) as int;
                let len = self.stack.data.words().len() as int;
                assert(win.skip(hw) =~= self.stack.data.words().subrange(
                    len - (self.ofs - hw),
                    len,
                ));
            }
            let rv = self.stack.frame_at(self.ofs);
            self.ofs -= StackA::<T, D>::meta_words() + D::round_to_words(rv.data.len());
            Some(rv)
        }
    }
}

} // verus!
