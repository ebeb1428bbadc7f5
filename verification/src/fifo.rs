//! A first-in-first-out queue of dynamically-sized values.
use crate::bytes::{copy_bytes, lemma_words_for, spec_round_to_words};
use crate::data_buf::{within_limit, DataBuf, Pod};
use crate::frame::{
    decode_data, decode_meta, exact, frame_mut_at, head, head_fits, head_meta, head_words, kept,
    lemma_exact_unfold, lemma_frame_append, lemma_frame_prepend, lemma_frame_replaced,
    lemma_head_alone, lemma_head_shaped, lemma_kept_push, lemma_meta_words, lemma_parse_concat,
    lemma_parse_empty, lemma_parse_len, lemma_parse_shaped, load_frame, meta_ok, negated, parse,
    shaped, spec_frame_words, spec_meta_words, Dst, Frame, FrameMut, FrameView, Object, Unsize,
    WidePtr,
};
use crate::kinds::{
    clone_of, cloned_items, concat_images, gives, images_of, item_at, items_bytes, pushed_from,
    Slice, Str,
};
use crate::{
    check_fat_pointer, decompose_pointer, list_push_gen, make_fat_ptr, narrows, store_metadata,
    AlignmentValid, PushInnerInfo,
};
use vstd::layout::size_of;
use vstd::prelude::*;
use vstd::slice::slice_subrange;
use vstd::string::StringSliceAdditionalSpecFns;

verus! {

/// A First-In-First-Out queue of DSTs
///
/// The values lie in the buffer in the order in which they were pushed, from
/// the read position up to the write position. The view of a queue is the
/// list of its values, the oldest first.
pub struct Fifo<T: Dst, D: DataBuf> {
    table: T,
    read_pos: usize,
    write_pos: usize,
    data: D,
}

impl<T: Dst, D: DataBuf> View for Fifo<T, D> {
    type V = Seq<FrameView>;

    closed spec fn view(&self) -> Seq<FrameView> {
        parse::<T, D::Inner>(self.window())
    }
}

impl<T: Dst, D: DataBuf> Fifo<T, D> {
    /// The words in use: those from the read position up to the write
    /// position.
    pub closed spec fn window(&self) -> Seq<D::Inner> {
        self.data.words().subrange(self.read_pos as int, self.write_pos as int)
    }

    /// The index of the first word in use.
    pub closed spec fn read_pos(&self) -> nat {
        self.read_pos as nat
    }

    /// The index of the first word behind those in use.
    pub closed spec fn write_pos(&self) -> nat {
        self.write_pos as nat
    }

    /// The number of words that the buffer holds.
    pub closed spec fn capacity(&self) -> nat {
        self.data.words().len()
    }

    /// The greatest number of words that the buffer can be made to hold.
    pub closed spec fn limit(&self) -> nat {
        self.data.spec_limit()
    }

    /// The table of the interface.
    pub closed spec fn spec_table(&self) -> T {
        self.table
    }

    /// The values that the queue has destroyed, oldest first.
    pub open spec fn destroyed(&self) -> Seq<FrameView> {
        self.spec_table().destroyed()
    }

    /// The words in use lie in the buffer and are whole frames.
    pub closed spec fn wf(&self) -> bool {
        &&& meta_ok::<T>()
        &&& within_limit(&self.data)
        &&& self.read_pos <= self.write_pos <= self.data.words().len()
        &&& exact::<T, D::Inner>(self.window())
    }

    /// The positions are in order and within the buffer, and the buffer is
    /// within its limit.
    pub proof fn lemma_positions(&self)
        requires
            self.wf(),
        ensures
            self.read_pos() <= self.write_pos() <= self.capacity() <= self.limit(),
    {
    }

    /// A value of `size` bytes can be pushed: its frame fits behind the
    /// write position, or would if the words in use were moved to the start
    /// of the buffer, or would if the buffer were made as long as it can be.
    pub open spec fn has_room(&self, size: nat) -> bool {
        let need = spec_frame_words::<T, D::Inner>(size);
        ||| self.write_pos() - self.read_pos() + need <= self.capacity()
        ||| self.write_pos() + need <= self.limit()
    }

    /// Where the words in use start, and where the frame of a value of
    /// `size` bytes starts, once that value has been pushed. If the frame
    /// does not fit behind the write position, but does once the words in
    /// use are moved to the start of the buffer, they are moved there.
    pub open spec fn push_start(&self, size: nat) -> (nat, nat) {
        let need = spec_frame_words::<T, D::Inner>(size);
        if self.write_pos() + need > self.capacity() && self.write_pos() - self.read_pos() + need
            <= self.capacity() {
            (0, (self.write_pos() - self.read_pos()) as nat)
        } else {
            (self.read_pos(), self.write_pos())
        }
    }

    /// How the positions and the buffer stand once a value of `size` bytes
    /// has been pushed onto the list `before`: the words in use start and end
    /// where `push_start` says, and the buffer has grown only if the frame
    /// would not fit in any other way.
    pub open spec fn pushed(&self, before: &Self, size: nat) -> bool {
        let need = spec_frame_words::<T, D::Inner>(size);
        &&& self.read_pos() == before.push_start(size).0
        &&& self.write_pos() == before.push_start(size).1 + need
        &&& self.capacity() >= before.capacity()
        &&& before.write_pos() - before.read_pos() + need <= before.capacity() ==> self.capacity()
            == before.capacity()
    }

    /// Compaction. A value whose frame does not fit behind the write
    /// position, but does fit into the buffer together with the words in use,
    /// has room: a push of it succeeds, in a buffer that is not made longer,
    /// and the words in use then start at the start of the buffer.
    pub proof fn lemma_compaction(&self, size: nat)
        requires
            self.wf(),
            self.write_pos() + spec_frame_words::<T, D::Inner>(size) > self.capacity(),
            self.write_pos() - self.read_pos() + spec_frame_words::<T, D::Inner>(size)
                <= self.capacity(),
        ensures
            self.has_room(size),
            self.push_start(size) == (0nat, (self.write_pos() - self.read_pos()) as nat),
            forall|after: Self| #[trigger]
                after.pushed(self, size) ==> after.read_pos() == 0 && after.capacity()
                    == self.capacity(),
    {
    }

    /// Construct a new (empty) list
    pub fn new() -> (r: Self) where D: Default
        ensures
            r.wf(),
            r@ == Seq::<FrameView>::empty(),
            r.read_pos() == 0,
            r.write_pos() == 0,
            r.destroyed() == Seq::<FrameView>::empty(),
            exists|b: D|
                call_ensures(D::default, (), b) && r.limit() == b.spec_limit() && r.capacity()
                    == b.words().len(),
    {
        Self::with_buffer(D::default())
    }

    /// Construct a new (empty) list using the provided buffer
    pub fn with_buffer(data: D) -> (r: Self)
        ensures
            r.wf(),
            r@ == Seq::<FrameView>::empty(),
            r.read_pos() == 0,
            r.write_pos() == 0,
            r.destroyed() == Seq::<FrameView>::empty(),
            r.limit() == data.spec_limit(),
            r.capacity() == data.words().len(),
    {
        // The buffer answers for its limit, and the interface for its descriptor
        let _words = data.as_ref().len();
        let _meta = Self::meta_words();
        let r = Fifo { table: T::new(), read_pos: 0, write_pos: 0, data };
        proof {
            lemma_parse_empty::<T, D::Inner>(r.window());
        }
        r
    }

    /// The table of the interface, which knows what has been destroyed.
    pub fn table(&self) -> (r: &T)
        ensures
            *r == self.spec_table(),
    {
        &self.table
    }

    /// Number of words that the descriptor takes.
    fn meta_words() -> (r: usize)
        ensures
            r == spec_meta_words::<T, D::Inner>(),
            meta_ok::<T>(),
    {
        proof {
            <usize as Pod>::lemma_size(0usize);
        }
        let n = T::meta_len();
        let size = core::mem::size_of::<usize>();
        assert(n * size <= 48) by (nonlinear_arith)
            requires
                n <= 3,
                size <= 16,
        ;
        D::round_to_words(n * size)
    }

    /// Number of words behind the write position.
    fn space_words(&self) -> (r: usize)
        requires
            self.wf(),
        ensures
            r == self.data.words().len() - self.write_pos,
    {
        self.data.as_ref().len() - self.write_pos
    }

    /// Compact the list (moving the read position to zero)
    pub fn compact(&mut self)
        requires
            old(self).wf(),
        ensures
            final(self).wf(),
            final(self)@ == old(self)@,
            final(self).window() == old(self).window(),
            final(self).read_pos() == 0,
            final(self).write_pos() == old(self).write_pos() - old(self).read_pos(),
            final(self).capacity() == old(self).capacity(),
            final(self).limit() == old(self).limit(),
            final(self).spec_table() == old(self).spec_table(),
    {
        if self.read_pos != 0 {
            self.data.as_mut().rotate_left(self.read_pos);
            self.write_pos -= self.read_pos;
            self.read_pos = 0;
            proof {
                assert(self.window() =~= old(self).window());
            }
        }
    }

    /// Checks if the queue is currently empty
    pub fn empty(&self) -> (r: bool)
        requires
            self.wf(),
        ensures
            r == (self@.len() == 0),
    {
        proof {
            lemma_parse_len::<T, D::Inner>(self.window());
        }
        self.read_pos == self.write_pos
    }

    /// Makes room for a value of `bytes` bytes behind the values in the
    /// queue, and stores the descriptor. Returns the words for the descriptor
    /// and for the data, and the place of the write position with the value
    /// to put back there if the push is given up.
    fn push_inner_raw(&mut self, bytes: usize, metadata: &[usize]) -> (r: Result<
        PushInnerInfo<'_, T, D::Inner>,
        (),
    >)
        requires
            old(self).wf(),
            metadata@.len() == T::spec_meta_len(),
        ensures
            r is Ok <==> old(self).has_room(bytes as nat),
            final(self).data.spec_limit() == old(self).data.spec_limit(),
            match r {
                Ok(pii) => {
                    let need = spec_frame_words::<T, D::Inner>(bytes as nat);
                    &&& *pii.table == old(self).table
                    &&& final(self).table == *final(pii.table)
                    &&& pii.meta@.len() == spec_meta_words::<T, D::Inner>()
                    &&& pii.data@.len() == spec_round_to_words::<D::Inner>(bytes as nat)
                    &&& decode_meta::<T, D::Inner>(pii.meta@) == metadata@
                    &&& final(self).read_pos <= pii.reset_value
                    &&& final(self).read_pos == old(self).push_start(bytes as nat).0
                    &&& pii.reset_value == old(self).push_start(bytes as nat).1
                    &&& pii.before@.len() + pii.meta@.len() + pii.data@.len() + pii.after@.len()
                        >= old(self).data.words().len()
                    &&& old(self).write_pos - old(self).read_pos + need
                        <= old(self).data.words().len() ==> pii.before@.len() + pii.meta@.len()
                        + pii.data@.len() + pii.after@.len() == old(self).data.words().len()
                    &&& pii.reset_value == pii.before@.len()
                    &&& pii.before@.subrange(final(self).read_pos as int, pii.reset_value as int)
                        == old(self).window()
                    &&& *pii.reset_slot == pii.reset_value + need
                    &&& final(self).write_pos == *final(pii.reset_slot)
                    &&& final(self).data.words() == pii.before@ + final(pii.meta)@ + final(pii.data)@
                        + pii.after@
                    &&& pii.before@.len() + pii.meta@.len() + pii.data@.len() + pii.after@.len()
                        <= final(self).data.spec_limit() <= usize::MAX
                    &&& meta_ok::<T>()
                },
                Err(_) => {
                    &&& final(self).wf()
                    &&& final(self).window() == old(self).window()
                    &&& final(self).read_pos == old(self).read_pos
                    &&& final(self).write_pos == old(self).write_pos
                    &&& final(self).data.words() == old(self).data.words()
                    &&& final(self).table == old(self).table
                },
            },
    {
        proof {
            lemma_meta_words::<T, D::Inner>();
        }
        let mw = Self::meta_words();
        let dw = D::round_to_words(bytes);
        if dw > usize::MAX - mw {
            return Err(());
        }
        let words = dw + mw;
        // 1. Check if there's space for the item
        if self.space_words() < words {
            // 2. If not, check if compaction would help
            if words - self.space_words() <= self.read_pos {
                self.compact();
            }
            // 3. Then, try expanding

            if self.space_words() < words {
                if words > usize::MAX - self.write_pos {
                    return Err(());
                }
                let ghost window = self.window();
                if let Err(_) = self.data.extend(self.write_pos + words) {
                    // if expansion fails, return error
                    return Err(());
                }
                proof {
                    assert(self.window() =~= window);
                }
            }
        }
        // Get the base pointer for the new item

        let prev_write_pos = self.write_pos;
        let ghost window = self.window();
        // The buffer answers for its limit
        let _words = self.data.as_ref().len();
        self.write_pos += words;
        let buf = self.data.as_mut();
        let (lo, hi) = buf.split_at_mut(prev_write_pos);
        let (slot, rest) = hi.split_at_mut(words);
        let (meta, rv) = slot.split_at_mut(mw);
        proof {
            assert(lo@.subrange(self.read_pos as int, prev_write_pos as int) =~= window);
            assert(mw * size_of::<D::Inner>() == meta@.len() * size_of::<D::Inner>());
        }
        // Populate the metadata
        store_metadata(meta, metadata);
        // Increment offset and return
        Ok(
            PushInnerInfo {
                meta,
                data: rv,
                reset_slot: &mut self.write_pos,
                reset_value: prev_write_pos,
                table: &mut self.table,
                before: Ghost(lo@),
                after: Ghost(rest@),
            },
        )
    }

    /// Push an item to the list (setting metadata based on `fat_ptr`)
    fn push_inner(&mut self, fat_ptr: &WidePtr) -> (r: Result<PushInnerInfo<'_, T, D::Inner>, ()>)
        requires
            old(self).wf(),
            fat_ptr.meta@.len() == T::spec_meta_len(),
            T::spec_size_of_val(fat_ptr.meta@) <= usize::MAX,
        ensures
            r is Ok <==> old(self).has_room(T::spec_size_of_val(fat_ptr.meta@)),
            final(self).data.spec_limit() == old(self).data.spec_limit(),
            match r {
                Ok(pii) => {
                    let size = T::spec_size_of_val(fat_ptr.meta@);
                    let need = spec_frame_words::<T, D::Inner>(size);
                    &&& *pii.table == old(self).table
                    &&& final(self).table == *final(pii.table)
                    &&& pii.meta@.len() == spec_meta_words::<T, D::Inner>()
                    &&& pii.data@.len() == spec_round_to_words::<D::Inner>(size)
                    &&& decode_meta::<T, D::Inner>(pii.meta@) == fat_ptr.meta@
                    &&& final(self).read_pos <= pii.reset_value
                    &&& final(self).read_pos == old(self).push_start(size).0
                    &&& pii.reset_value == old(self).push_start(size).1
                    &&& pii.before@.len() + pii.meta@.len() + pii.data@.len() + pii.after@.len()
                        >= old(self).data.words().len()
                    &&& old(self).write_pos - old(self).read_pos + need
                        <= old(self).data.words().len() ==> pii.before@.len() + pii.meta@.len()
                        + pii.data@.len() + pii.after@.len() == old(self).data.words().len()
                    &&& pii.reset_value == pii.before@.len()
                    &&& pii.before@.subrange(final(self).read_pos as int, pii.reset_value as int)
                        == old(self).window()
                    &&& *pii.reset_slot == pii.reset_value + need
                    &&& final(self).write_pos == *final(pii.reset_slot)
                    &&& final(self).data.words() == pii.before@ + final(pii.meta)@ + final(pii.data)@
                        + pii.after@
                    &&& pii.before@.len() + pii.meta@.len() + pii.data@.len() + pii.after@.len()
                        <= final(self).data.spec_limit() <= usize::MAX
                    &&& meta_ok::<T>()
                },
                Err(_) => {
                    &&& final(self).wf()
                    &&& final(self).window() == old(self).window()
                    &&& final(self).read_pos == old(self).read_pos
                    &&& final(self).write_pos == old(self).write_pos
                    &&& final(self).data.words() == old(self).data.words()
                    &&& final(self).table == old(self).table
                },
            },
    {
        let bytes = T::size_of_val(fat_ptr.meta.as_slice());
        let (_data_ptr, len, v) = decompose_pointer(fat_ptr);
        self.push_inner_raw(bytes, slice_subrange(v.as_slice(), 0, len))
    }

    /// Push a value to the end of the list. The closure `f` gives the wide
    /// reference under which `v` is held.
    ///
    /// Returns `Err(v)`, and leaves the list as it is, if there is no room.
    pub fn push_back_stable<U: Object, F: FnOnce(&U) -> WidePtr>(&mut self, v: U, f: F) -> (r:
        Result<(), U>) where (U, D::Inner): AlignmentValid
        requires
            <(U, D::Inner) as AlignmentValid>::valid(),
            narrows::<U, T, F>(f, &v),
            old(self).wf(),
        ensures
            final(self).wf(),
            final(self).limit() == old(self).limit(),
            final(self).destroyed() == old(self).destroyed(),
            r is Ok <==> old(self).has_room(size_of::<U>()),
            r is Ok ==> final(self).pushed(old(self), size_of::<U>()) && exists|p: WidePtr|
                call_ensures(f, (&v,), p) && final(self)@ == old(self)@.push(
                    FrameView { meta: p.meta@, data: v.image() },
                ),
            r is Err ==> {
                &&& r == Err::<(), U>(v)
                &&& final(self)@ == old(self)@
                &&& final(self).read_pos() == old(self).read_pos()
                &&& final(self).write_pos() == old(self).write_pos()
                &&& final(self).capacity() == old(self).capacity()
            },
    {
        <(U, D::Inner) as AlignmentValid>::check();
        let ptr = check_fat_pointer::<U, T, F>(&v, f);
        let image = v.to_raw();
        let size = image.len();
        proof {
            assert(size == size_of::<U>());
        }
        match self.push_inner(&ptr) {
            Ok(pii) => {
                proof {
                    <D::Inner as Pod>::lemma_size(<D::Inner as Pod>::spec_zero());
                    lemma_words_for(image@.len(), size_of::<D::Inner>());
                }
                copy_bytes(pii.data, 0, image.as_slice());
                proof {
                    let meta = pii.meta@;
                    let data = pii.data@;
                    let front = old(self).window();
                    assert(decode_data::<D::Inner>(data, image@.len()) =~= image@);
                    lemma_frame_append::<T, D::Inner>(front, meta, data);
                    assert(self.window() =~= front + (meta + data));
                }
                core::mem::forget(v);
                Ok(())
            },
            Err(_) => Err(v),
        }
    }

    /// Push a value at the end of the list
    pub fn push_back<U: Unsize<T>>(&mut self, v: U) -> (r: Result<(), U>) where
        (U, D::Inner): AlignmentValid,

        requires
            <(U, D::Inner) as AlignmentValid>::valid(),
            old(self).wf(),
        ensures
            final(self).wf(),
            final(self).limit() == old(self).limit(),
            final(self).destroyed() == old(self).destroyed(),
            r is Ok <==> old(self).has_room(size_of::<U>()),
            r is Ok ==> {
                &&& final(self).pushed(old(self), size_of::<U>())
                &&& final(self)@ == old(self)@.push(
                    FrameView { meta: v.spec_unsize(), data: v.image() },
                )
            },
            r is Err ==> r == Err::<(), U>(v) && final(self)@ == old(self)@,
    {
        let f = |p: &U| -> (r: WidePtr)
            ensures
                r.addr == 0,
                r.meta@ == p.spec_unsize(),
                r.meta@.len() == T::spec_meta_len(),
                T::spec_size_of_val(r.meta@) == size_of::<U>(),
            { p.unsize() };
        self.push_back_stable(v, f)
    }

    /// The wide reference to the value whose frame starts at word `pos`.
    fn raw_at(&self, pos: usize) -> (r: WidePtr)
        requires
            meta_ok::<T>(),
            self.read_pos <= pos <= self.write_pos <= self.data.words().len(),
            head_fits::<T, D::Inner>(self.data.words().subrange(pos as int, self.write_pos as int)),
        ensures
            r.addr == pos + spec_meta_words::<T, D::Inner>(),
            r.meta@ == head_meta::<T, D::Inner>(
                self.data.words().subrange(pos as int, self.write_pos as int),
            ),
    {
        proof {
            lemma_meta_words::<T, D::Inner>();
        }
        let (_lo, meta) = self.data.as_ref().split_at(pos);
        let mw = Self::meta_words();
        let (meta, _data) = meta.split_at(mw);
        proof {
            assert(meta@ =~= self.data.words().subrange(pos as int, self.write_pos as int).subrange(
                0,
                mw as int,
            ));
        }
        make_fat_ptr::<T, D::Inner>(pos + mw, meta)
    }

    /// The wide reference to the value at the front of the list.
    fn front_raw(&self) -> (r: WidePtr)
        requires
            self.wf(),
            self@.len() > 0,
        ensures
            r.addr == self.read_pos + spec_meta_words::<T, D::Inner>(),
            r.meta@ == self@[0].meta,
    {
        proof {
            lemma_parse_len::<T, D::Inner>(self.window());
            lemma_exact_unfold::<T, D::Inner>(self.window());
        }
        self.raw_at(self.read_pos)
    }

    /// The value whose frame starts at word `pos`.
    fn frame_at(&self, pos: usize) -> (r: Frame)
        requires
            meta_ok::<T>(),
            self.read_pos <= pos <= self.write_pos <= self.data.words().len(),
            head_fits::<T, D::Inner>(self.data.words().subrange(pos as int, self.write_pos as int)),
        ensures
            r@ == head::<T, D::Inner>(self.data.words().subrange(pos as int, self.write_pos as int)),
            shaped::<T>(r@),
    {
        self.frame_between(pos, self.write_pos)
    }

    /// Peek the front of the queue
    pub fn front(&self) -> (r: Option<Frame>)
        requires
            self.wf(),
        ensures
            r is Some <==> self@.len() > 0,
            r is Some ==> r.unwrap()@ == self@[0] && shaped::<T>(r.unwrap()@),
    {
        proof {
            lemma_parse_len::<T, D::Inner>(self.window());
        }
        if self.read_pos == self.write_pos {
            None
        } else {
            let ptr = self.front_raw();
            proof {
                let win = self.window();
                let words = self.data.words();
                lemma_exact_unfold::<T, D::Inner>(win);
                lemma_head_shaped::<T, D::Inner>(win);
                let mw = spec_meta_words::<T, D::Inner>() as int;
                let hw = head_words::<T, D::Inner>(win) as int;
                assert(win.subrange(mw, hw) =~= words.subrange(
                    self.read_pos + mw,
                    self.read_pos + hw,
                ));
            }
            Some(load_frame::<T, D::Inner>(self.data.as_ref(), ptr))
        }
    }

    /// Every item of the list is one of the interface.
    pub proof fn lemma_wf(&self)
        requires
            self.wf(),
        ensures
            forall|i: int| 0 <= i < self@.len() ==> shaped::<T>(#[trigger] self@[i]),
    {
        lemma_parse_shaped::<T, D::Inner>(self.window());
    }

    /// Obtain an immutable iterator (yields the items in insertion order)
    pub fn iter(&self) -> (r: Iter<'_, T, D>)
        requires
            self.wf(),
        ensures
            r.wf(),
            r.remaining() == self@,
    {
        Iter { fifo: self, pos: self.read_pos }
    }

    /// Destroys the value at the front of the list and moves the read
    /// position past it.
    fn pop_front_inner(&mut self)
        requires
            old(self).wf(),
            old(self)@.len() > 0,
        ensures
            final(self).wf(),
            final(self)@ == old(self)@.drop_first(),
            final(self).spec_table().destroyed() == old(self).spec_table().destroyed().push(
                old(self)@[0],
            ),
            final(self).read_pos() == old(self).read_pos() + spec_frame_words::<T, D::Inner>(
                old(self)@[0].data.len(),
            ),
            final(self).write_pos() == old(self).write_pos(),
            final(self).capacity() == old(self).capacity(),
            final(self).limit() == old(self).limit(),
    {
        proof {
            lemma_parse_len::<T, D::Inner>(self.window());
            let win = self.window();
            lemma_exact_unfold::<T, D::Inner>(win);
            lemma_meta_words::<T, D::Inner>();
            let hw = head_words::<T, D::Inner>(win) as int;
            assert(win.skip(hw) =~= self.data.words().subrange(
                self.read_pos + hw,
                self.write_pos as int,
            ));
        }
        let f = self.frame_at(self.read_pos);
        let words = D::round_to_words(f.data.len());
        self.table.drop_in_place(f.meta.as_slice(), f.data.as_slice());
        self.read_pos += Self::meta_words() + words;
    }

    /// Remove an item from the front of the list: the handle that is
    /// returned does so when it is dropped.
    pub fn pop_front(&mut self) -> (r: Option<PopHandle<'_, T, D>>)
        requires
            old(self).wf(),
        ensures
            r is Some <==> old(self)@.len() > 0,
            r is Some ==> *r.unwrap().parent == *old(self) && *final(r.unwrap().parent) == *final(self),
            r is None ==> *final(self) == *old(self),
    {
        proof {
            lemma_parse_len::<T, D::Inner>(self.window());
        }
        if self.read_pos == self.write_pos {
            None
        } else {
            Some(PopHandle { parent: self })
        }
    }

    /// Pops every item off the list, the oldest first.
    pub fn clear(&mut self)
        requires
            old(self).wf(),
        ensures
            final(self).wf(),
            final(self).limit() == old(self).limit(),
            final(self).capacity() == old(self).capacity(),
            final(self)@ == Seq::<FrameView>::empty(),
            final(self).destroyed() == old(self).destroyed() + old(self)@,
    {
        proof {
            assert(old(self).destroyed() + old(self)@.subrange(0, 0) =~= old(self).destroyed());
        }
        let ghost mut done: int = 0;
        while !self.empty()
            invariant
                self.wf(),
                self.limit() == old(self).limit(),
                self.capacity() == old(self).capacity(),
                0 <= done <= old(self)@.len(),
                self@ == old(self)@.subrange(done, old(self)@.len() as int),
                self.destroyed() == old(self).destroyed() + old(self)@.subrange(0, done),
            decreases self@.len(),
        {
            proof {
                let gone = old(self).destroyed() + old(self)@.subrange(0, done);
                assert(old(self).destroyed() + old(self)@.subrange(0, done + 1) =~= gone.push(
                    self@[0],
                ));
                assert(self@.drop_first() =~= old(self)@.subrange(
                    done + 1,
                    old(self)@.len() as int,
                ));
                done = done + 1;
            }
            self.pop_front_inner();
        }
        proof {
            assert(old(self)@.subrange(0, done) =~= old(self)@);
            assert(self@ =~= Seq::<FrameView>::empty());
        }
    }
}

impl<T: Dst, D: DataBuf> Fifo<T, D> {
    /// Pushes the value with the given descriptor and bytes.
    fn push_raw(&mut self, meta: &[usize], image: &[u8]) -> (r: Result<(), ()>)
        requires
            old(self).wf(),
            meta@.len() == T::spec_meta_len(),
            image@.len() == T::spec_size_of_val(meta@),
        ensures
            final(self).wf(),
            final(self).limit() == old(self).limit(),
            final(self).spec_table() == old(self).spec_table(),
            r is Ok <==> old(self).has_room(image@.len()),
            r is Ok ==> {
                &&& final(self).pushed(old(self), image@.len())
                &&& final(self)@ == old(self)@.push(FrameView { meta: meta@, data: image@ })
            },
            r is Err ==> {
                &&& final(self)@ == old(self)@
                &&& final(self).read_pos() == old(self).read_pos()
                &&& final(self).write_pos() == old(self).write_pos()
                &&& final(self).capacity() == old(self).capacity()
            },
    {
        match self.push_inner_raw(image.len(), meta) {
            Ok(pii) => {
                proof {
                    <D::Inner as Pod>::lemma_size(<D::Inner as Pod>::spec_zero());
                    lemma_words_for(image@.len(), size_of::<D::Inner>());
                }
                copy_bytes(pii.data, 0, image);
                proof {
                    let mwords = pii.meta@;
                    let dwords = pii.data@;
                    let front = old(self).window();
                    assert(decode_data::<D::Inner>(dwords, image@.len()) =~= image@);
                    lemma_frame_append::<T, D::Inner>(front, mwords, dwords);
                    assert(self.window() =~= front + (mwords + dwords));
                }
                Ok(())
            },
            Err(_) => Err(()),
        }
    }
}

/// The callback can give the answer `b` for the frame.
pub open spec fn answers<Cb: Fn(&Frame) -> bool>(cb: Cb, fv: FrameView, b: bool) -> bool {
    exists|f: Frame| f@ == fv && #[trigger] call_ensures(cb, (&f,), b)
}

/// `keep` holds, for each of the frames, an answer that the callback can
/// give for it.
pub open spec fn decided<Cb: Fn(&Frame) -> bool>(
    cb: Cb,
    frames: Seq<FrameView>,
    keep: Seq<bool>,
) -> bool {
    &&& keep.len() == frames.len()
    &&& forall|i: int| 0 <= i < frames.len() ==> #[trigger] answers(cb, frames[i], keep[i])
}

impl<T: Dst, D: DataBuf> Fifo<T, D> {
    /// The value whose frame starts at word `pos` of the run that ends
    /// before word `end`.
    fn frame_between(&self, pos: usize, end: usize) -> (r: Frame)
        requires
            meta_ok::<T>(),
            pos <= end <= self.data.words().len(),
            head_fits::<T, D::Inner>(self.data.words().subrange(pos as int, end as int)),
        ensures
            r@ == head::<T, D::Inner>(self.data.words().subrange(pos as int, end as int)),
            shaped::<T>(r@),
    {
        proof {
            lemma_meta_words::<T, D::Inner>();
        }
        let (_lo, meta) = self.data.as_ref().split_at(pos);
        let mw = Self::meta_words();
        let (meta, _data) = meta.split_at(mw);
        proof {
            let win = self.data.words().subrange(pos as int, end as int);
            assert(meta@ =~= win.subrange(0, mw as int));
            lemma_head_shaped::<T, D::Inner>(win);
            let hw = head_words::<T, D::Inner>(win) as int;
            assert(win.subrange(mw as int, hw) =~= self.data.words().subrange(pos + mw, pos + hw));
        }
        let ptr = make_fat_ptr::<T, D::Inner>(pos + mw, meta);
        load_frame::<T, D::Inner>(self.data.as_ref(), ptr)
    }

    /// Remove any items that don't meet a predicate
    ///
    /// The callback is asked about each item once, the oldest first. An item
    /// for which it says no is destroyed at once; the others stay, in their
    /// order.
    pub fn retain<Cb: Fn(&Frame) -> bool>(&mut self, cb: Cb)
        requires
            old(self).wf(),
            forall|f: Frame| shaped::<T>(f@) ==> call_requires(cb, (&f,)),
        ensures
            final(self).wf(),
            final(self).limit() == old(self).limit(),
            final(self).capacity() == old(self).capacity(),
            final(self).read_pos() == old(self).read_pos(),
            final(self).write_pos() <= old(self).write_pos(),
            exists|keep: Seq<bool>| #[trigger]
                decided(cb, old(self)@, keep) && final(self)@ == kept(old(self)@, keep)
                    && final(self).destroyed() == old(self).destroyed() + kept(
                    old(self)@,
                    negated(keep),
                ),
    {
        let orig_write_pos = self.write_pos;
        let mut ofs = self.read_pos;
        let mut writeback_pos = ofs;
        let ghost all = self@;
        let ghost start = self.data.words();
        let ghost mut keep: Seq<bool> = Seq::empty();
        let ghost mut done: int = 0;
        proof {
            lemma_meta_words::<T, D::Inner>();
            lemma_parse_empty::<T, D::Inner>(start.subrange(ofs as int, ofs as int));
            assert(all.subrange(0, all.len() as int) =~= all);
            assert(all.subrange(0, 0) =~= Seq::<FrameView>::empty());
            assert(self.destroyed() + kept(all.subrange(0, 0), negated(keep)) =~= self.destroyed());
        }
        while ofs < orig_write_pos
            invariant
                meta_ok::<T>(),
                within_limit(&self.data),
                self.read_pos == old(self).read_pos,
                self.data.spec_limit() == old(self).data.spec_limit(),
                self.data.words().len() == start.len(),
                start == old(self).data.words(),
                all == old(self)@,
                self.read_pos <= writeback_pos <= ofs <= orig_write_pos <= start.len(),
                0 <= done <= all.len(),
                keep.len() == done,
                self.data.words().subrange(ofs as int, orig_write_pos as int) == start.subrange(
                    ofs as int,
                    orig_write_pos as int,
                ),
                exact::<T, D::Inner>(start.subrange(ofs as int, orig_write_pos as int)),
                parse::<T, D::Inner>(start.subrange(ofs as int, orig_write_pos as int))
                    == all.subrange(done, all.len() as int),
                exact::<T, D::Inner>(
                    self.data.words().subrange(self.read_pos as int, writeback_pos as int),
                ),
                parse::<T, D::Inner>(
                    self.data.words().subrange(self.read_pos as int, writeback_pos as int),
                ) == kept(all.subrange(0, done), keep),
                decided(cb, all.subrange(0, done), keep),
                self.table.destroyed() == old(self).table.destroyed() + kept(
                    all.subrange(0, done),
                    negated(keep),
                ),
                forall|f: Frame| shaped::<T>(f@) ==> call_requires(cb, (&f,)),
            decreases orig_write_pos - ofs,
        {
            let ghost rest = start.subrange(ofs as int, orig_write_pos as int);
            proof {
                lemma_exact_unfold::<T, D::Inner>(rest);
                lemma_head_alone::<T, D::Inner>(rest);
                lemma_head_shaped::<T, D::Inner>(rest);
            }
            let v = self.frame_between(ofs, orig_write_pos);
            let words = Self::meta_words() + D::round_to_words(v.data.len());
            let ghost seen = all.subrange(0, done);
            let ghost front = self.data.words().subrange(
                self.read_pos as int,
                writeback_pos as int,
            );
            let ghost frame_words = rest.subrange(0, words as int);
            proof {
                assert(v@ == all[done]);
                assert(all.subrange(0, done + 1) =~= seen.push(v@));
                assert(rest.skip(words as int) =~= start.subrange(
                    ofs + words,
                    orig_write_pos as int,
                ));
                assert(all.subrange(done, all.len() as int).drop_first() =~= all.subrange(
                    done + 1,
                    all.len() as int,
                ));
            }
            let yes = cb(&v);
            proof {
                lemma_kept_push(seen, keep, v@, yes);
                assert(answers(cb, v@, yes));
                assert forall|i: int| 0 <= i < done + 1 implies #[trigger] answers(
                    cb,
                    seen.push(v@)[i],
                    keep.push(yes)[i],
                ) by {
                    if i < done {
                        assert(answers(cb, seen[i], keep[i]));
                    }
                }
            }
            if yes {
                if writeback_pos != ofs {
                    let d = self.data.as_mut();
                    let ghost before = d@;
                    // writeback is always before `ofs`, so this ordering is correct
                    let mut i: usize = 0;
                    while i < words
                        invariant
                            i <= words,
                            writeback_pos < ofs,
                            ofs + words <= orig_write_pos <= before.len(),
                            d@.len() == before.len(),
                            forall|t: int|
                                writeback_pos <= t < writeback_pos + i ==> #[trigger] d@[t]
                                    == before[t - writeback_pos + ofs],
                            forall|t: int|
                                0 <= t < before.len() && !(writeback_pos <= t < writeback_pos + i)
                                    ==> #[trigger] d@[t] == before[t],
                        decreases words - i,
                    {
                        d[writeback_pos + i] = d[ofs + i];
                        i += 1;
                    }
                    proof {
                        assert(d@.subrange(self.read_pos as int, writeback_pos as int) =~= front);
                        assert(d@.subrange(writeback_pos as int, writeback_pos + words)
                            =~= frame_words);
                        assert(d@.subrange(ofs + words, orig_write_pos as int) =~= start.subrange(
                            ofs + words,
                            orig_write_pos as int,
                        ));
                    }
                } else {
                    proof {
                        assert(self.data.words().subrange(
                            writeback_pos as int,
                            writeback_pos + words,
                        ) =~= frame_words);
                        assert(self.data.words().subrange(ofs + words, orig_write_pos as int)
                            =~= start.subrange(ofs + words, orig_write_pos as int));
                    }
                }
                proof {
                    lemma_parse_concat::<T, D::Inner>(front, frame_words);
                    assert(self.data.words().subrange(
                        self.read_pos as int,
                        writeback_pos + words,
                    ) =~= front + frame_words);
                    assert(kept(seen, keep) + seq![v@] =~= kept(seen, keep).push(v@));
                }
                writeback_pos += words;
            } else {
                // Don't update `writeback_pos`
                proof {
                    assert(self.data.words().subrange(ofs + words, orig_write_pos as int)
                        =~= start.subrange(ofs + words, orig_write_pos as int));
                    assert((old(self).table.destroyed() + kept(seen, negated(keep))).push(v@)
                        =~= old(self).table.destroyed() + kept(seen, negated(keep)).push(v@));
                }
                self.table.drop_in_place(v.meta.as_slice(), v.data.as_slice());
            }
            ofs += words;
            proof {
                keep = keep.push(yes);
                done = done + 1;
            }
        }
        proof {
            lemma_parse_len::<T, D::Inner>(start.subrange(ofs as int, orig_write_pos as int));
            assert(done == all.len());
            assert(all.subrange(0, done) =~= all);
        }
        self.write_pos = writeback_pos;
    }
}

impl<D: DataBuf> Fifo<Str, D> {
    /// Push the contents of a string slice as an item onto the list
    pub fn push_back_str(&mut self, v: &str) -> (r: Result<(), ()>)
        requires
            old(self).wf(),
        ensures
            final(self).wf(),
            final(self).limit() == old(self).limit(),
            final(self).destroyed() == old(self).destroyed(),
            r is Ok <==> old(self).has_room(v.spec_bytes().len()),
            r is Ok ==> {
                &&& final(self).pushed(old(self), v.spec_bytes().len())
                &&& final(self)@ == old(self)@.push(
                    FrameView { meta: seq![v.spec_bytes().len() as usize], data: v.spec_bytes() },
                )
            },
            r is Err ==> final(self)@ == old(self)@,
    {
        let bytes = v.as_bytes();
        let meta: [usize; 1] = [bytes.len()];
        proof {
            assert(meta@ =~= seq![bytes@.len() as usize]);
        }
        self.push_raw(meta.as_slice(), bytes)
    }
}

impl<I: Object, D: DataBuf> Fifo<Slice<I>, D> where (I, D::Inner): AlignmentValid {
    /// Pushes a set of items (cloning out of the input slice)
    pub fn push_cloned(&mut self, v: &[I]) -> (r: Result<(), ()>) where I: Clone
        requires
            <(I, D::Inner) as AlignmentValid>::valid(),
            old(self).wf(),
        ensures
            final(self).wf(),
            final(self).limit() == old(self).limit(),
            final(self).destroyed() == old(self).destroyed(),
            r is Ok <==> items_bytes::<I>(v@.len()) <= usize::MAX && old(self).has_room(
                items_bytes::<I>(v@.len()),
            ),
            r is Ok ==> final(self).pushed(old(self), items_bytes::<I>(v@.len())),
            r is Ok ==> exists|image: Seq<u8>| #[trigger]
                cloned_items::<I>(v@, image) && final(self)@ == old(self)@.push(
                    FrameView { meta: seq![v@.len() as usize], data: image },
                ),
            r is Err ==> final(self)@ == old(self)@,
    {
        <(I, D::Inner) as AlignmentValid>::check();
        let gen = |i: usize| -> (r: Option<I>)
            requires
                i < v@.len(),
            ensures
                r is Some,
                cloned::<I>(v@[i as int], r.unwrap()),
            { Some(v[i].clone()) };
        let r = self.push_from_iter(v.len(), gen);
        proof {
            let bytes = items_bytes::<I>(v@.len());
            if bytes <= usize::MAX && old(self).has_room(bytes) {
                let (k, image) = choose|k: int, image: Seq<u8>| #[trigger]
                    pushed_from::<I, _>(
                        gen,
                        v@.len() as usize,
                        k,
                        image,
                        r,
                        self@.subrange(old(self)@.len() as int, self@.len() as int),
                        self.destroyed().subrange(
                            old(self).destroyed().len() as int,
                            self.destroyed().len() as int,
                        ),
                    );
                assert(k == v@.len());
                assert forall|i: int| 0 <= i < v@.len() implies #[trigger] clone_of::<I>(
                    v@[i],
                    item_at::<I>(image, i),
                ) by {
                    assert(gives::<I, _>(gen, i, item_at::<I>(image, i)));
                }
                assert(cloned_items::<I>(v@, image));
                let added = self@.subrange(old(self)@.len() as int, self@.len() as int);
                assert(added.len() == 1);
                assert(added[0] == self@[old(self)@.len() as int]);
                assert(self@ =~= self@.subrange(0, old(self)@.len() as int).push(added[0]));
                assert(self@ =~= old(self)@.push(
                    FrameView { meta: seq![v@.len() as usize], data: image },
                ));
                assert(self.destroyed() =~= old(self).destroyed());
            }
        }
        r
    }

    /// Pushes a set of items (copying out of the input slice)
    pub fn push_copied(&mut self, v: &[I]) -> (r: Result<(), ()>) where I: Copy
        requires
            <(I, D::Inner) as AlignmentValid>::valid(),
            old(self).wf(),
        ensures
            final(self).wf(),
            final(self).limit() == old(self).limit(),
            final(self).destroyed() == old(self).destroyed(),
            r is Ok <==> old(self).has_room(items_bytes::<I>(v@.len())),
            r is Ok ==> final(self).pushed(old(self), items_bytes::<I>(v@.len())) && final(self)@
                == old(self)@.push(
                FrameView { meta: seq![v@.len() as usize], data: images_of(v@) },
            ),
            r is Err ==> final(self)@ == old(self)@,
    {
        <(I, D::Inner) as AlignmentValid>::check();
        let image = concat_images(v);
        let meta: [usize; 1] = [v.len()];
        proof {
            assert(meta@ =~= seq![v@.len() as usize]);
        }
        self.push_raw(meta.as_slice(), image.as_slice())
    }

    /// Push an item, populated from a generator of `count` items. The
    /// generator is asked for the items one by one, in order, once there is
    /// room for all. If it gives none for some index, the push is given up:
    /// the items written are destroyed, and the list holds what it held.
    pub fn push_from_iter<G: Fn(usize) -> Option<I>>(&mut self, count: usize, gen: G) -> (r: Result<
        (),
        (),
    >)
        requires
            <(I, D::Inner) as AlignmentValid>::valid(),
            old(self).wf(),
            forall|i: usize| i < count ==> call_requires(gen, (i,)),
        ensures
            final(self).wf(),
            final(self).limit() == old(self).limit(),
            r is Ok ==> final(self).pushed(old(self), items_bytes::<I>(count as nat)),
            old(self)@.len() <= final(self)@.len(),
            old(self).destroyed().len() <= final(self).destroyed().len(),
            final(self)@.subrange(0, old(self)@.len() as int) == old(self)@,
            final(self).destroyed().subrange(0, old(self).destroyed().len() as int) == old(self).destroyed(),
            !(items_bytes::<I>(count as nat) <= usize::MAX && old(self).has_room(
                items_bytes::<I>(count as nat),
            )) ==> r is Err && final(self)@ == old(self)@ && final(self).destroyed() == old(self).destroyed(),
            items_bytes::<I>(count as nat) <= usize::MAX && old(self).has_room(
                items_bytes::<I>(count as nat),
            ) ==> exists|k: int, image: Seq<u8>| #[trigger]
                pushed_from::<I, G>(
                    gen,
                    count,
                    k,
                    image,
                    r,
                    final(self)@.subrange(old(self)@.len() as int, final(self)@.len() as int),
                    final(self).destroyed().subrange(
                        old(self).destroyed().len() as int,
                        final(self).destroyed().len() as int,
                    ),
                ),
            r is Err ==> final(self)@ == old(self)@,
    {
        <(I, D::Inner) as AlignmentValid>::check();
        proof {
            assert(self@.subrange(0, self@.len() as int) =~= self@);
            assert(self.destroyed().subrange(0, self.destroyed().len() as int)
                =~= self.destroyed());
        }
        let size = core::mem::size_of::<I>();
        let bytes = match count.checked_mul(size) {
            Some(bytes) => bytes,
            None => {
                return Err(());
            },
        };
        assert(bytes == items_bytes::<I>(count as nat));
        let zero: [usize; 1] = [0];
        let pii = match self.push_inner_raw(bytes, zero.as_slice()) {
            Ok(pii) => pii,
            Err(_) => {
                proof {
                    assert(self@ == old(self)@);
                }
                return Err(());
            },
        };
        proof {
            lemma_meta_words::<Slice<I>, D::Inner>();
            <D::Inner as Pod>::lemma_size(<D::Inner as Pod>::spec_zero());
            lemma_words_for(bytes as nat, size_of::<D::Inner>());
            assert(1 * size_of::<usize>() == size_of::<usize>()) by (nonlinear_arith);
        }
        let (done, Ghost(image)) = list_push_gen(
            pii.meta,
            pii.data,
            count,
            gen,
            pii.reset_slot,
            pii.reset_value,
            pii.table,
        );
        proof {
            let front = old(self).window();
            if done == count {
                let mwords = pii.meta@;
                let dwords = pii.data@;
                assert(decode_meta::<Slice<I>, D::Inner>(mwords) == seq![count]);
                assert(decode_data::<D::Inner>(dwords, bytes as nat) =~= image);
                lemma_frame_append::<Slice<I>, D::Inner>(front, mwords, dwords);
                assert(self.window() =~= front + (mwords + dwords));
                let last = seq![FrameView { meta: seq![count], data: image }];
                assert(self@ == old(self)@ + last);
                assert(self@.subrange(old(self)@.len() as int, self@.len() as int) =~= last);
                assert(self@.subrange(0, old(self)@.len() as int) =~= old(self)@);
                assert(self.destroyed().subrange(
                    old(self).destroyed().len() as int,
                    self.destroyed().len() as int,
                ) =~= Seq::<FrameView>::empty());
                assert(self.destroyed().subrange(0, old(self).destroyed().len() as int)
                    =~= old(self).destroyed());
            } else {
                assert(self.window() =~= front);
                assert(self@.subrange(old(self)@.len() as int, self@.len() as int) =~= Seq::<
                    FrameView,
                >::empty());
                assert(self@.subrange(0, old(self)@.len() as int) =~= old(self)@);
                assert(self.destroyed().subrange(
                    old(self).destroyed().len() as int,
                    self.destroyed().len() as int,
                ) =~= seq![FrameView { meta: seq![done], data: image }]);
                assert(self.destroyed().subrange(0, old(self).destroyed().len() as int)
                    =~= old(self).destroyed());
            }
        }
        if done == count {
            proof {
                assert(pushed_from::<I, G>(
                    gen,
                    count,
                    done as int,
                    image,
                    Ok::<(), ()>(()),
                    self@.subrange(old(self)@.len() as int, self@.len() as int),
                    self.destroyed().subrange(
                        old(self).destroyed().len() as int,
                        self.destroyed().len() as int,
                    ),
                ));
            }
            Ok(())
        } else {
            proof {
                assert(pushed_from::<I, G>(
                    gen,
                    count,
                    done as int,
                    image,
                    Err::<(), ()>(()),
                    self@.subrange(old(self)@.len() as int, self@.len() as int),
                    self.destroyed().subrange(
                        old(self).destroyed().len() as int,
                        self.destroyed().len() as int,
                    ),
                ));
            }
            Err(())
        }
    }
}

impl<T: Dst, D: DataBuf> Fifo<T, D> {
    /// How the list stands once the value that was item `index` has been
    /// written over through `m`: as before, but for that item.
    pub open spec fn rewritten(
        &self,
        before: &Self,
        index: int,
        m: &FrameMut<'_, D::Inner>,
        words: Seq<D::Inner>,
    ) -> bool {
        words.len() == m.words@.len() ==> {
            &&& self.wf()
            &&& self.limit() == before.limit()
            &&& self.capacity() == before.capacity()
            &&& self.read_pos() == before.read_pos()
            &&& self.write_pos() == before.write_pos()
            &&& self.spec_table() == before.spec_table()
            &&& self@ == before@.update(
                index,
                FrameView { meta: m.meta@, data: decode_data::<D::Inner>(words, m.size as nat) },
            )
        }
    }

    /// Peek the front of the queue, to write over it where it lies
    pub fn front_mut(&mut self) -> (r: Option<FrameMut<'_, D::Inner>>)
        requires
            old(self).wf(),
        ensures
            r is Some <==> old(self)@.len() > 0,
            r is None ==> *final(self) == *old(self),
            r matches Some(m) ==> m.wf() && m@ == old(self)@[0] && m.size == m@.data.len() && shaped::<T>(
                m@,
            ) && final(self).rewritten(
                old(self),
                0,
                &m,
                final(m.words)@,
            ),
    {
        proof {
            lemma_parse_len::<T, D::Inner>(self.window());
        }
        if self.read_pos == self.write_pos {
            None
        } else {
            let ghost all = self.data.words();
            let ghost win = self.window();
            proof {
                lemma_exact_unfold::<T, D::Inner>(win);
                lemma_meta_words::<T, D::Inner>();
            }
            let pos = self.read_pos;
            let end = self.write_pos;
            let m = frame_mut_at::<T, D::Inner>(self.data.as_mut(), pos, end);
            proof {
                let mw = spec_meta_words::<T, D::Inner>() as int;
                let hw = head_words::<T, D::Inner>(win) as int;
                let mwords = all.subrange(pos as int, pos + mw);
                let rest = all.subrange(pos + hw, end as int);
                let tail = all.subrange(pos + hw, all.len() as int);
                assert(mwords =~= win.subrange(0, mw));
                assert(rest =~= win.skip(hw));
                assert(win =~= mwords + m.words@ + rest);
                lemma_frame_prepend::<T, D::Inner>(mwords, m.words@, rest);
                assert forall|d2: Seq<D::Inner>| d2.len() == m.words@.len() implies {
                    let after = #[trigger] (all.subrange(0, pos + mw) + d2 + tail);
                    &&& after.len() == all.len()
                    &&& exact::<T, D::Inner>(after.subrange(pos as int, end as int))
                    &&& parse::<T, D::Inner>(after.subrange(pos as int, end as int)) == old(self)@.update(
                        0,
                        FrameView {
                            meta: m.meta@,
                            data: decode_data::<D::Inner>(d2, m.size as nat),
                        },
                    )
                } by {
                    let after = all.subrange(0, pos + mw) + d2 + tail;
                    assert(after.subrange(pos as int, end as int) =~= mwords + d2 + rest);
                    lemma_frame_prepend::<T, D::Inner>(mwords, d2, rest);
                    let f2 = FrameView {
                        meta: m.meta@,
                        data: decode_data::<D::Inner>(d2, m.size as nat),
                    };
                    assert(seq![f2] + parse::<T, D::Inner>(rest) =~= (seq![m@] + parse::<
                        T,
                        D::Inner,
                    >(rest)).update(0, f2));
                }
            }
            Some(m)
        }
    }

    /// Obtain a mutable iterator
    pub fn iter_mut(&mut self) -> (r: IterMut<'_, T, D>)
        requires
            old(self).wf(),
        ensures
            r.wf(),
            r.index() == 0,
            *r.fifo == *old(self),
            *final(self) == *final(r.fifo),
    {
        let pos = self.read_pos;
        proof {
            lemma_parse_empty::<T, D::Inner>(self.data.words().subrange(pos as int, pos as int));
        }
        IterMut { fifo: self, pos }
    }
}

/// DST FIFO iterator (mutable)
pub struct IterMut<'a, T: Dst, D: DataBuf> {
    /// The list that is gone through.
    pub fifo: &'a mut Fifo<T, D>,
    /// The index of the first word of the next frame.
    pub pos: usize,
}

impl<'a, T: Dst, D: DataBuf> IterMut<'a, T, D> {
    /// The words that the iterator has gone through.
    pub closed spec fn passed(&self) -> Seq<D::Inner> {
        self.fifo.data.words().subrange(self.fifo.read_pos as int, self.pos as int)
    }

    /// The words that the iterator has not gone through yet.
    pub closed spec fn ahead(&self) -> Seq<D::Inner> {
        self.fifo.data.words().subrange(self.pos as int, self.fifo.write_pos as int)
    }

    /// The items of the list, the oldest first.
    pub open spec fn items(&self) -> Seq<FrameView> {
        self.fifo@
    }

    /// The number of items that the iterator has given.
    pub closed spec fn index(&self) -> int {
        parse::<T, D::Inner>(self.passed()).len() as int
    }

    /// The iterator stands behind the last frame.
    pub closed spec fn at_end(&self) -> bool {
        self.pos == self.fifo.write_pos
    }

    /// The iterator stands between two frames of its list.
    pub closed spec fn wf(&self) -> bool {
        &&& self.fifo.wf()
        &&& self.fifo.read_pos <= self.pos <= self.fifo.write_pos
        &&& exact::<T, D::Inner>(self.passed())
        &&& exact::<T, D::Inner>(self.ahead())
    }

    /// The iterator has given every item before `index()`, and no other.
    pub proof fn lemma_index(&self)
        requires
            self.wf(),
        ensures
            0 <= self.index() <= self.items().len(),
            self.index() == self.items().len() <==> self.at_end(),
    {
        lemma_parse_concat::<T, D::Inner>(self.passed(), self.ahead());
        assert(self.fifo.window() =~= self.passed() + self.ahead());
        lemma_parse_len::<T, D::Inner>(self.ahead());
    }

    /// How the iterator stands once it has given item `index` as `m`, and
    /// that item has been written over: one item further, in a list that is
    /// as before but for that item.
    pub open spec fn stepped(
        &self,
        before: &Self,
        m: &FrameMut<'_, D::Inner>,
        words: Seq<D::Inner>,
    ) -> bool {
        words.len() == m.words@.len() ==> {
            &&& self.wf()
            &&& self.index() == before.index() + 1
            &&& self.fifo.rewritten(&*before.fifo, before.index(), m, words)
        }
    }

    /// The next item, if there is one, to be written over where it lies.
    pub fn next(&mut self) -> (r: Option<FrameMut<'_, D::Inner>>)
        requires
            old(self).wf(),
        ensures
            *final(final(self).fifo) == *final(old(self).fifo),
            r is Some <==> old(self).index() < old(self).items().len(),
            r is None ==> *final(self).fifo == *old(self).fifo && final(self).pos == old(self).pos,
            r matches Some(m) ==> m.wf() && m@ == old(self).items()[old(self).index()] && m.size
                == m@.data.len() && shaped::<T>(m@) && final(self).stepped(
                old(self),
                &m,
                final(m.words)@,
            ),
    {
        proof {
            self.lemma_index();
        }
        if self.pos == self.fifo.write_pos {
            None
        } else {
            let ghost all = self.fifo.data.words();
            let ghost a = self.passed();
            let ghost x = self.ahead();
            proof {
                lemma_exact_unfold::<T, D::Inner>(x);
                lemma_head_shaped::<T, D::Inner>(x);
                lemma_meta_words::<T, D::Inner>();
            }
            let pos = self.pos;
            let end = self.fifo.write_pos;
            let ghost start = self.fifo.read_pos;
            let m = frame_mut_at::<T, D::Inner>(self.fifo.data.as_mut(), pos, end);
            let words = Fifo::<T, D>::meta_words() + D::round_to_words(m.size);
            self.pos += words;
            proof {
                let mw = spec_meta_words::<T, D::Inner>() as int;
                let hw = head_words::<T, D::Inner>(x) as int;
                let mwords = all.subrange(pos as int, pos + mw);
                let b = all.subrange(pos + hw, end as int);
                let tail = all.subrange(pos + hw, all.len() as int);
                let d = m.words@;
                assert(mwords =~= x.subrange(0, mw));
                assert(b =~= x.skip(hw));
                assert(x =~= mwords + d + b);
                assert(old(self).fifo.window() =~= a + (mwords + d + b));
                assert forall|d2: Seq<D::Inner>| d2.len() == d.len() implies {
                    let after = #[trigger] (all.subrange(0, pos + mw) + d2 + tail);
                    &&& after.len() == all.len()
                    &&& exact::<T, D::Inner>(after.subrange(start as int, end as int))
                    &&& exact::<T, D::Inner>(after.subrange(start as int, pos + hw))
                    &&& exact::<T, D::Inner>(after.subrange(pos + hw, end as int))
                    &&& parse::<T, D::Inner>(after.subrange(start as int, pos + hw)).len()
                        == old(self).index() + 1
                    &&& parse::<T, D::Inner>(after.subrange(start as int, end as int))
                        == old(self).items().update(
                        old(self).index(),
                        FrameView {
                            meta: m.meta@,
                            data: decode_data::<D::Inner>(d2, m.size as nat),
                        },
                    )
                } by {
                    let after = all.subrange(0, pos + mw) + d2 + tail;
                    lemma_frame_replaced::<T, D::Inner>(a, mwords, d, d2, b);
                    assert(after.subrange(start as int, end as int) =~= a + (mwords + d2 + b));
                    assert(after.subrange(start as int, pos + hw) =~= a + (mwords + d2));
                    assert(after.subrange(pos + hw, end as int) =~= b);
                }
                lemma_frame_replaced::<T, D::Inner>(a, mwords, d, d, b);
            }
            Some(m)
        }
    }
}

/// Handle returned by `Fifo::pop_front` (does the actual pop when it is
/// given up with `drop`)
pub struct PopHandle<'a, T: Dst, D: DataBuf> {
    /// The list whose front value the handle stands for.
    pub parent: &'a mut Fifo<T, D>,
}

impl<'a, T: Dst, D: DataBuf> PopHandle<'a, T, D> {
    /// The value at the front of the list, which the handle stands for.
    pub fn get(&self) -> (r: Frame)
        requires
            self.parent.wf(),
            self.parent@.len() > 0,
        ensures
            r@ == old(self.parent)@[0],
            shaped::<T>(r@),
    {
        self.parent.front().unwrap()
    }

    /// Gives the handle up: the value at the front of the list is destroyed,
    /// and the list goes on behind it.
    pub fn drop(self)
        requires
            self.parent.wf(),
            self.parent@.len() > 0,
        ensures
            final(self.parent).wf(),
            final(self.parent)@ == old(self.parent)@.drop_first(),
            final(self.parent).destroyed() == old(self.parent).destroyed().push(
                old(self.parent)@[0],
            ),
            final(self.parent).limit() == old(self.parent).limit(),
            final(self.parent).capacity() == old(self.parent).capacity(),
    {
        self.parent.pop_front_inner();
    }
}

/// DST FIFO iterator (immutable)
pub struct Iter<'a, T: Dst, D: DataBuf> {
    fifo: &'a Fifo<T, D>,
    pos: usize,
}

impl<'a, T: Dst, D: DataBuf> Iter<'a, T, D> {
    /// The words that the iterator has not gone through yet.
    pub closed spec fn window(&self) -> Seq<D::Inner> {
        self.fifo.data.words().subrange(self.pos as int, self.fifo.write_pos as int)
    }

    /// The items that the iterator has yet to give, the next one first.
    pub closed spec fn remaining(&self) -> Seq<FrameView> {
        parse::<T, D::Inner>(self.window())
    }

    /// The iterator stands at the start of a frame of its list.
    pub closed spec fn wf(&self) -> bool {
        &&& meta_ok::<T>()
        &&& self.fifo.read_pos <= self.pos <= self.fifo.write_pos <= self.fifo.data.words().len()
        &&& exact::<T, D::Inner>(self.window())
    }

    /// The next item, if there is one.
    pub fn next(&mut self) -> (r: Option<Frame>)
        requires
            old(self).wf(),
        ensures
            final(self).wf(),
            r is Some <==> old(self).remaining().len() > 0,
            r is Some ==> r.unwrap()@ == old(self).remaining()[0] && shaped::<T>(r.unwrap()@),
            r is Some ==> final(self).remaining() == old(self).remaining().drop_first(),
            r is None ==> final(self).remaining() == old(self).remaining(),
    {
        proof {
            lemma_parse_len::<T, D::Inner>(self.window());
        }
        if self.pos == self.fifo.write_pos {
            None
        } else {
            proof {
                let win = self.window();
                lemma_exact_unfold::<T, D::Inner>(win);
                lemma_meta_words::<T, D::Inner>();
                let hw = head_words::<T, D::Inner>(win) as int;
                assert(win.skip(hw) =~= self.fifo.data.words().subrange(
                    self.pos + hw,
                    self.fifo.write_pos as int,
                ));
            }
            let rv = self.fifo.frame_at(self.pos);
            self.pos += Fifo::<T, D>::meta_words() + D::round_to_words(rv.data.len());
            Some(rv)
        }
    }
}

} // verus!
