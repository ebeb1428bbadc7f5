//! Single DST stored inline
use crate::bytes::{
    copy_bytes, lemma_bytes_of_concat, lemma_bytes_of_prefix, lemma_words_for,
    lemma_words_for_monotonic, load_bytes, spec_round_to_words,
};
use crate::data_buf::{within_limit, DataBuf, Pod};
use crate::frame::{
    decode_data, decode_meta, lemma_meta_words, meta_ok, shaped, spec_frame_words, spec_meta_words,
    Dst, Frame, FrameView, Object, Unsize, WidePtr,
};
use crate::kinds::{images_of, item_at, items_bytes, Slice, Str};
use crate::{
    check_fat_pointer, decompose_pointer, make_fat_ptr, narrows, store_metadata, AlignmentValid,
};
use vstd::layout::size_of;
use vstd::prelude::*;
use vstd::slice::slice_subrange;
use vstd::string::StringSliceAdditionalSpecFns;
use vstd::utf8::is_char_boundary;

verus! {

/// The descriptor that lies in the last words of a buffer.
pub open spec fn tail_meta<T: Dst, W: Pod>(words: Seq<W>) -> Seq<usize> {
    decode_meta::<T, W>(
        words.subrange(words.len() - spec_meta_words::<T, W>(), words.len() as int),
    )
}

/// The buffer is long enough for the descriptor in its last words and the
/// value that the descriptor describes.
pub open spec fn holds_one<T: Dst, W: Pod>(words: Seq<W>) -> bool {
    &&& spec_meta_words::<T, W>() <= words.len()
    &&& T::spec_size_of_val(tail_meta::<T, W>(words)) <= usize::MAX
    &&& spec_frame_words::<T, W>(T::spec_size_of_val(tail_meta::<T, W>(words))) <= words.len()
}

/// The value that a buffer holds: its descriptor lies in the last words of
/// the buffer, and its data in the first.
pub open spec fn held_in<T: Dst, W: Pod>(words: Seq<W>) -> FrameView {
    FrameView {
        meta: tail_meta::<T, W>(words),
        data: decode_data::<W>(words, T::spec_size_of_val(tail_meta::<T, W>(words))),
    }
}

/// Stack-allocated dynamically sized type
///
/// `T` is the interface of the value contained.
/// `D` is the buffer used to hold the value (both data and metadata).
///
/// The holder is empty or holds one value: its view is `None` or the value.
pub struct ValueA<T: Dst, D: DataBuf> {
    table: T,
    live: bool,
    // Data contains the object data first, then padding, then the pointer information
    data: D,
}

impl<T: Dst, D: DataBuf> View for ValueA<T, D> {
    type V = Option<FrameView>;

    closed spec fn view(&self) -> Option<FrameView> {
        if self.live {
            Some(held_in::<T, D::Inner>(self.data.words()))
        } else {
            None
        }
    }
}

impl<T: Dst, D: DataBuf> ValueA<T, D> {
    /// The greatest number of words that the buffer can be made to hold.
    pub closed spec fn limit(&self) -> nat {
        self.data.spec_limit()
    }

    /// The table of the interface.
    pub closed spec fn spec_table(&self) -> T {
        self.table
    }

    /// The values that the holder has destroyed, oldest first.
    pub open spec fn destroyed(&self) -> Seq<FrameView> {
        self.spec_table().destroyed()
    }

    /// A value that is held fits into the buffer.
    pub closed spec fn wf(&self) -> bool {
        &&& meta_ok::<T>()
        &&& within_limit(&self.data)
        &&& self.live ==> holds_one::<T, D::Inner>(self.data.words())
    }

    /// A holder of a value of `size` bytes can be made in a buffer of the
    /// given limit.
    pub open spec fn fits(size: nat, limit: nat) -> bool {
        spec_frame_words::<T, D::Inner>(size) <= limit
    }

    /// What placing `val` in a buffer of the given limit comes to: a holder
    /// of `val`, under the descriptor that `get_ref` gives, if there is room,
    /// and `val` itself if not.
    pub open spec fn placed<U: Object, F: FnOnce(&U) -> WidePtr>(
        limit: nat,
        val: U,
        get_ref: F,
        r: Result<ValueA<T, D>, U>,
    ) -> bool {
        match r {
            Ok(v) => {
                &&& Self::fits(size_of::<U>(), limit)
                &&& v.wf()
                &&& v.limit() == limit
                &&& v.destroyed() == Seq::<FrameView>::empty()
                &&& exists|p: WidePtr|
                    call_ensures(get_ref, (&val,), p) && v@ == Some(
                        FrameView { meta: p.meta@, data: val.image() },
                    )
            },
            Err(u) => !Self::fits(size_of::<U>(), limit) && u == val,
        }
    }

    /// Construct a stack-based DST. The closure `get_ref` gives the wide
    /// reference under which `val` is held.
    ///
    /// Returns `Ok(dst)` if the allocation was successful, or `Err(val)` if it failed
    pub fn new_stable<U: Object, F: FnOnce(&U) -> WidePtr>(val: U, get_ref: F) -> (r: Result<
        ValueA<T, D>,
        U,
    >) where (U, D::Inner): AlignmentValid, D: Default
        requires
            <(U, D::Inner) as AlignmentValid>::valid(),
            narrows::<U, T, F>(get_ref, &val),
        ensures
            exists|b: D| call_ensures(D::default, (), b) && Self::placed(
                b.spec_limit(),
                val,
                get_ref,
                r,
            ),
    {
        Self::in_buffer_stable(D::default(), val, get_ref)
    }

    /// Construct a stack-based DST using a provided buffer.
    /// See `new_stable` for requirements on the `get_ref` closure.
    ///
    /// Returns `Ok(dst)` if the allocation was successful, or `Err(val)` if it failed
    pub fn in_buffer_stable<U: Object, F: FnOnce(&U) -> WidePtr>(
        buffer: D,
        val: U,
        get_ref: F,
    ) -> (r: Result<ValueA<T, D>, U>) where (U, D::Inner): AlignmentValid
        requires
            <(U, D::Inner) as AlignmentValid>::valid(),
            narrows::<U, T, F>(get_ref, &val),
        ensures
            Self::placed(buffer.spec_limit(), val, get_ref, r),
    {
        <(U, D::Inner) as AlignmentValid>::check();
        // The interface answers for its descriptor
        let _meta = T::meta_len();
        let ptr = check_fat_pointer::<U, T, F>(&val, get_ref);
        let (_raw_ptr, meta_len, meta) = decompose_pointer(&ptr);
        let image = val.to_raw();
        let rv = ValueA::new_raw(
            slice_subrange(meta.as_slice(), 0, meta_len),
            image.as_slice(),
            buffer,
        );
        match rv {
            Some(r) => {
                // Prevent the destructor from running, now that we've copied it away
                core::mem::forget(val);
                Ok(r)
            },
            None => Err(val),
        }
    }

    /// A holder of the value with the given descriptor and bytes, in the
    /// given buffer, or nothing if the buffer cannot be made long enough.
    pub fn new_raw(info: &[usize], data: &[u8], buffer: D) -> (r: Option<ValueA<T, D>>)
        requires
            info@.len() == T::spec_meta_len(),
            data@.len() == T::spec_size_of_val(info@),
        ensures
            r is Some <==> Self::fits(data@.len(), buffer.spec_limit()),
            r is Some ==> {
                &&& r.unwrap().wf()
                &&& r.unwrap().limit() == buffer.spec_limit()
                &&& r.unwrap().destroyed() == Seq::<FrameView>::empty()
                &&& r.unwrap()@ == Some(FrameView { meta: info@, data: data@ })
            },
    {
        let mut buffer = buffer;
        let info_words = Self::info_words();
        // The buffer answers for its limit
        let _words = buffer.as_ref().len();
        proof {
            lemma_meta_words::<T, D::Inner>();
        }
        let data_words = D::round_to_words(data.len());
        if data_words > usize::MAX - info_words {
            return None;
        }
        let req_words = info_words + data_words;
        if let Err(_) = buffer.extend(req_words) {
            return None;
        }
        // So does the longer buffer
        let _words = buffer.as_ref().len();
        let mut rv = ValueA::<T, D> { table: T::new(), live: false, data: buffer };
        rv.write_value(data, info);
        Some(rv)
    }

    /// Number of words that the descriptor takes.
    fn info_words() -> (r: usize)
        ensures
            r == spec_meta_words::<T, D::Inner>(),
            meta_ok::<T>(),
    {
        proof {
            <usize as Pod>::lemma_size(0usize);
        }
        let n = T::meta_len();
        let size = core::mem::size_of::<usize>();
        assert(n * size <= 48) by (nonlinear_arith)
            requires
                n <= 3,
                size <= 16,
        ;
        D::round_to_words(n * size)
    }

    /// Puts a value into the buffer: its descriptor at the end, and its data
    /// at the start.
    fn write_value(&mut self, data: &[u8], info: &[usize])
        requires
            meta_ok::<T>(),
            within_limit(&old(self).data),
            info@.len() == T::spec_meta_len(),
            data@.len() == T::spec_size_of_val(info@),
            spec_frame_words::<T, D::Inner>(data@.len()) <= old(self).data.words().len(),
        ensures
            final(self).live,
            final(self).wf(),
            final(self)@ == Some(FrameView { meta: info@, data: data@ }),
            final(self).table == old(self).table,
            final(self).data.spec_limit() == old(self).data.spec_limit(),
            final(self).data.words().len() == old(self).data.words().len(),
    {
        proof {
            lemma_meta_words::<T, D::Inner>();
            <D::Inner as Pod>::lemma_size(<D::Inner as Pod>::spec_zero());
            lemma_words_for(data@.len(), size_of::<D::Inner>());
        }
        let info_words = Self::info_words();
        let size = data.len();
        let buf = self.data.as_mut();
        let ghost len = buf@.len() as int;
        // Place pointer information at the end of the region
        // - Allows the data to be at the start for alignment purposes
        let info_ofs = buf.len() - info_words;
        let (data_dst, info_dst) = buf.split_at_mut(info_ofs);
        assert(info_ofs * size_of::<D::Inner>() >= spec_round_to_words::<D::Inner>(data@.len())
            * size_of::<D::Inner>()) by (nonlinear_arith)
            requires
                info_ofs >= spec_round_to_words::<D::Inner>(data@.len()),
        ;
        store_metadata(info_dst, info);
        copy_bytes(data_dst, 0, data);
        proof {
            let words = data_dst@ + info_dst@;
            assert(words.len() == len);
            assert(words.subrange(len - info_words, len) =~= info_dst@);
            assert(tail_meta::<T, D::Inner>(words) == info@);
            lemma_bytes_of_concat(data_dst@, info_dst@);
            assert(decode_data::<D::Inner>(words, data@.len()) =~= data@);
            assert(T::spec_size_of_val(tail_meta::<T, D::Inner>(words)) == size);
            assert(holds_one::<T, D::Inner>(words));
            assert(held_in::<T, D::Inner>(words) == FrameView { meta: info@, data: data@ });
        }
        self.live = true;
    }

    /// The wide reference to the value held: the data starts at the first
    /// byte of the buffer.
    fn as_ptr(&self) -> (r: WidePtr)
        requires
            self.live,
            self.wf(),
        ensures
            r.addr == 0,
            r.meta@ == self@.unwrap().meta,
    {
        proof {
            lemma_meta_words::<T, D::Inner>();
        }
        let data = self.data.as_ref();
        let info_ofs = data.len() - Self::info_words();
        let (_data, meta) = data.split_at(info_ofs);
        make_fat_ptr::<T, D::Inner>(0, meta)
    }

    /// The value held, if there is one.
    pub fn get(&self) -> (r: Option<Frame>)
        requires
            self.wf(),
        ensures
            r is Some <==> self@ is Some,
            r is Some ==> r.unwrap()@ == self@.unwrap() && shaped::<T>(r.unwrap()@),
    {
        if !self.live {
            return None;
        }
        proof {
            lemma_meta_words::<T, D::Inner>();
        }
        let ptr = self.as_ptr();
        let meta = ptr.meta;
        let ghost words = self.data.words();
        let ghost size = T::spec_size_of_val(meta@);
        proof {
            <D::Inner as Pod>::lemma_size(<D::Inner as Pod>::spec_zero());
            lemma_words_for(size, size_of::<D::Inner>());
            assert(size <= words.len() * size_of::<D::Inner>()) by (nonlinear_arith)
                requires
                    size <= spec_round_to_words::<D::Inner>(size) * size_of::<D::Inner>(),
                    spec_round_to_words::<D::Inner>(size) <= words.len(),
            ;
        }
        let n = T::size_of_val(meta.as_slice());
        let data = load_bytes(self.data.as_ref(), ptr.addr, n);
        Some(Frame { meta, data })
    }

    /// The value held, as the one-item list of what destroying it destroys.
    pub open spec fn content(&self) -> Seq<FrameView> {
        match self@ {
            Some(f) => seq![f],
            None => Seq::empty(),
        }
    }

    /// The table of the interface, which knows what has been destroyed.
    pub fn table(&self) -> (r: &T)
        ensures
            *r == self.spec_table(),
    {
        &self.table
    }

    /// Tells whether the holder is empty.
    pub fn is_empty(&self) -> (r: bool)
        ensures
            r == (self@ is None),
    {
        !self.live
    }

    /// Destroys the value held, if there is one, and leaves the holder empty.
    pub fn clear(&mut self)
        requires
            old(self).wf(),
        ensures
            final(self).wf(),
            final(self)@ is None,
            final(self).limit() == old(self).limit(),
            final(self).destroyed() == old(self).destroyed() + old(self).content(),
    {
        match self.get() {
            Some(f) => {
                proof {
                    assert(old(self).destroyed().push(f@) =~= old(self).destroyed() + old(self).content());
                }
                self.table.drop_in_place(f.meta.as_slice(), f.data.as_slice());
                self.live = false;
            },
            None => {
                proof {
                    assert(old(self).destroyed() =~= old(self).destroyed() + old(self).content());
                }
            },
        }
    }

    /// Replace the contents without dropping the backing allocation.
    ///
    /// The value held is destroyed first. If the buffer cannot be made long
    /// enough for the new value, the new value is handed back, and the holder
    /// is left empty.
    pub fn replace_stable<U: Object, F: FnOnce(&U) -> WidePtr>(
        &mut self,
        val: U,
        get_ref: F,
    ) -> (r: Result<(), U>) where (U, D::Inner): AlignmentValid
        requires
            <(U, D::Inner) as AlignmentValid>::valid(),
            narrows::<U, T, F>(get_ref, &val),
            old(self).wf(),
        ensures
            final(self).wf(),
            final(self).limit() == old(self).limit(),
            final(self).destroyed() == old(self).destroyed() + old(self).content(),
            r is Ok <==> Self::fits(size_of::<U>(), old(self).limit()),
            r is Ok ==> exists|p: WidePtr|
                call_ensures(get_ref, (&val,), p) && final(self)@ == Some(
                    FrameView { meta: p.meta@, data: val.image() },
                ),
            r is Err ==> r == Err::<(), U>(val) && final(self)@ is None,
    {
        <(U, D::Inner) as AlignmentValid>::check();
        proof {
            lemma_meta_words::<T, D::Inner>();
        }
        let ptr = check_fat_pointer::<U, T, F>(&val, get_ref);
        let (_raw_ptr, meta_len, meta) = decompose_pointer(&ptr);
        let image = val.to_raw();
        // Drop the existing item
        self.clear();
        // Check size requirements (allow resizing)
        let info_words = Self::info_words();
        let data_words = D::round_to_words(image.len());
        if data_words > usize::MAX - info_words {
            return Err(val);
        }
        if let Err(_) = self.data.extend(info_words + data_words) {
            return Err(val);
        }
        // The longer buffer answers for its limit
        let _words = self.data.as_ref().len();
        // Move in the new item
        self.write_value(image.as_slice(), slice_subrange(meta.as_slice(), 0, meta_len));
        core::mem::forget(val);
        Ok(())
    }
}

impl<T: Dst, D: DataBuf> ValueA<T, D> {
    /// The one descriptor word of the value held.
    fn len(&self) -> (r: usize)
        requires
            self.wf(),
            self@ is Some,
            T::spec_meta_len() == 1,
        ensures
            self@.unwrap().meta == seq![r],
    {
        let ptr = self.as_ptr();
        proof {
            assert(ptr.meta@ =~= seq![ptr.meta@[0]]);
        }
        ptr.meta[0]
    }

    /// Makes the value held longer by the given bytes, and gives it the
    /// descriptor `count`, if the buffer can be made long enough.
    fn grow_by(&mut self, ofs: usize, extra: &[u8], count: usize) -> (r: Result<(), ()>)
        requires
            old(self).wf(),
            old(self)@ is Some,
            T::spec_meta_len() == 1,
            old(self)@.unwrap().data.len() == ofs,
            T::spec_size_of_val(seq![count]) == ofs + extra@.len(),
        ensures
            final(self).wf(),
            final(self).limit() == old(self).limit(),
            final(self).spec_table() == old(self).spec_table(),
            r is Ok <==> ofs + extra@.len() <= usize::MAX && Self::fits(
                (ofs + extra@.len()) as nat,
                old(self).limit(),
            ),
            r is Ok ==> final(self)@ == Some(
                FrameView { meta: seq![count], data: old(self)@.unwrap().data + extra@ },
            ),
            r is Err ==> final(self)@ == old(self)@,
    {
        proof {
            lemma_meta_words::<T, D::Inner>();
            <D::Inner as Pod>::lemma_size(<D::Inner as Pod>::spec_zero());
            self.lemma_shaped();
        }
        let info_words = Self::info_words();
        let total = match ofs.checked_add(extra.len()) {
            Some(total) => total,
            None => {
                return Err(());
            },
        };
        // Check/expand sufficient space
        let data_words = D::round_to_words(total);
        if data_words > usize::MAX - info_words {
            return Err(());
        }
        let ghost before = self.data.words();
        if let Err(_) = self.data.extend(data_words + info_words) {
            return Err(());
        }
        // The longer buffer answers for its limit
        let _words = self.data.as_ref().len();
        let ghost grown = self.data.words();
        // Get the metadata slot
        let data = self.data.as_mut();
        let info_ofs = data.len() - info_words;
        proof {
            lemma_words_for(total as nat, size_of::<D::Inner>());
            lemma_words_for(ofs as nat, size_of::<D::Inner>());
            lemma_words_for_monotonic(ofs as nat, total as nat, size_of::<D::Inner>());
            assert(data_words * size_of::<D::Inner>() <= info_ofs * size_of::<D::Inner>()
                <= grown.len() * size_of::<D::Inner>()) by (nonlinear_arith)
                requires
                    data_words <= info_ofs <= grown.len(),
            ;
        }
        copy_bytes(data, ofs, extra);
        let ghost filled = data@;
        let (lo, info_dst) = data.split_at_mut(info_ofs);
        let meta: [usize; 1] = [count];
        proof {
            assert(meta@ =~= seq![count]);
            assert(1 * size_of::<usize>() == size_of::<usize>()) by (nonlinear_arith);
        }
        store_metadata(info_dst, meta.as_slice());
        proof {
            let words = lo@ + info_dst@;
            let len = words.len() as int;
            assert(words.subrange(len - info_words, len) =~= info_dst@);
            assert(tail_meta::<T, D::Inner>(words) == seq![count]);
            lemma_bytes_of_concat(lo@, info_dst@);
            lemma_bytes_of_prefix(lo@, filled);
            lemma_bytes_of_prefix(before, grown);
            let old_words = spec_round_to_words::<D::Inner>(ofs as nat);
            assert(ofs <= before.len() * size_of::<D::Inner>()) by (nonlinear_arith)
                requires
                    ofs <= old_words * size_of::<D::Inner>(),
                    old_words <= before.len(),
            ;
            assert(decode_data::<D::Inner>(words, total as nat) =~= decode_data::<D::Inner>(
                before,
                ofs as nat,
            ) + extra@);
            assert(holds_one::<T, D::Inner>(words));
        }
        Ok(())
    }

    /// Makes the value held shorter: gives it the descriptor `count`, which
    /// describes a value whose bytes are the first of those held.
    fn shrink_to(&mut self, count: usize)
        requires
            old(self).wf(),
            old(self)@ is Some,
            T::spec_meta_len() == 1,
            T::spec_size_of_val(seq![count]) <= old(self)@.unwrap().data.len(),
        ensures
            final(self).wf(),
            final(self).limit() == old(self).limit(),
            final(self).spec_table() == old(self).spec_table(),
            final(self)@ == Some(
                FrameView {
                    meta: seq![count],
                    data: old(self)@.unwrap().data.subrange(
                        0,
                        T::spec_size_of_val(seq![count]) as int,
                    ),
                },
            ),
    {
        proof {
            lemma_meta_words::<T, D::Inner>();
            <D::Inner as Pod>::lemma_size(<D::Inner as Pod>::spec_zero());
            self.lemma_shaped();
        }
        let info_words = Self::info_words();
        let ghost before = self.data.words();
        let ghost size = T::spec_size_of_val(seq![count]);
        let ghost held = self@.unwrap().data.len();
        let data = self.data.as_mut();
        let info_ofs = data.len() - info_words;
        let (lo, info_dst) = data.split_at_mut(info_ofs);
        let meta: [usize; 1] = [count];
        proof {
            assert(meta@ =~= seq![count]);
            assert(1 * size_of::<usize>() == size_of::<usize>()) by (nonlinear_arith);
        }
        store_metadata(info_dst, meta.as_slice());
        proof {
            let words = lo@ + info_dst@;
            let len = words.len() as int;
            assert(words.subrange(len - info_words, len) =~= info_dst@);
            assert(tail_meta::<T, D::Inner>(words) == seq![count]);
            lemma_bytes_of_concat(lo@, info_dst@);
            lemma_bytes_of_prefix(lo@, before);
            lemma_words_for(size, size_of::<D::Inner>());
            lemma_words_for(held, size_of::<D::Inner>());
            lemma_words_for_monotonic(size, held, size_of::<D::Inner>());
            let held_words = spec_round_to_words::<D::Inner>(held);
            assert(held <= lo@.len() * size_of::<D::Inner>()) by (nonlinear_arith)
                requires
                    held <= held_words * size_of::<D::Inner>(),
                    held_words <= lo@.len(),
            ;
            assert(decode_data::<D::Inner>(words, size) =~= decode_data::<D::Inner>(
                before,
                held,
            ).subrange(0, size as int));
            assert(holds_one::<T, D::Inner>(words));
        }
    }
}

/// Specialisations for `str` (allowing storage of strings with single-byte alignment)
impl<D: DataBuf> ValueA<Str, D> {
    /// What making a holder of the given text in a buffer of the given
    /// limit comes to: a holder of the text if there is room, and nothing if
    /// not.
    pub open spec fn placed_str(limit: nat, text: Seq<u8>, r: Option<ValueA<Str, D>>) -> bool {
        match r {
            Some(v) => {
                &&& Self::fits(text.len(), limit)
                &&& v.wf()
                &&& v.limit() == limit
                &&& v.destroyed() == Seq::<FrameView>::empty()
                &&& v@ == Some(FrameView { meta: seq![text.len() as usize], data: text })
            },
            None => !Self::fits(text.len(), limit),
        }
    }

    /// Create a new empty string with a default buffer
    pub fn empty_str() -> (r: Result<Self, ()>) where D: Default
        ensures
            exists|b: D| call_ensures(D::default, (), b) && Self::placed_str(
                b.spec_limit(),
                Seq::<u8>::empty(),
                r.ok(),
            ),
    {
        Self::empty_str_in_buffer(D::default())
    }

    /// Create a new empty string with a provided buffer
    pub fn empty_str_in_buffer(buffer: D) -> (r: Result<Self, ()>)
        ensures
            Self::placed_str(buffer.spec_limit(), Seq::<u8>::empty(), r.ok()),
    {
        let meta: [usize; 1] = [0];
        let data: [u8; 0] = [];
        proof {
            assert(meta@ =~= seq![0usize]);
            assert(data@ =~= Seq::<u8>::empty());
        }
        let rv = ValueA::new_raw(meta.as_slice(), data.as_slice(), buffer);
        match rv {
            Some(r) => Ok(r),
            None => Err(()),
        }
    }

    /// Construct from a `str` using a default-constructed buffer
    pub fn new_str(v: &str) -> (r: Result<Self, &str>) where D: Default
        ensures
            r matches Err(e) ==> e == v,
            exists|b: D| call_ensures(D::default, (), b) && Self::placed_str(
                b.spec_limit(),
                v.spec_bytes(),
                r.ok(),
            ),
    {
        Self::new_str_in_buffer(D::default(), v)
    }

    /// Construct from a `str` using a provided buffer
    pub fn new_str_in_buffer(buffer: D, val: &str) -> (r: Result<Self, &str>)
        ensures
            r matches Err(e) ==> e == val,
            Self::placed_str(buffer.spec_limit(), val.spec_bytes(), r.ok()),
    {
        let data = val.as_bytes();
        let meta: [usize; 1] = [data.len()];
        proof {
            assert(meta@ =~= seq![data@.len() as usize]);
        }
        let rv = ValueA::new_raw(meta.as_slice(), data, buffer);
        match rv {
            Some(r) => Ok(r),
            None => Err(val),
        }
    }

    /// Add a string to the end of a string. An empty holder has no string to
    /// add to.
    pub fn append_str(&mut self, val: &str) -> (r: Result<(), ()>)
        requires
            old(self).wf(),
        ensures
            final(self).wf(),
            final(self).limit() == old(self).limit(),
            final(self).destroyed() == old(self).destroyed(),
            r is Ok <==> {
                &&& old(self)@ is Some
                &&& old(self)@.unwrap().data.len() + val.spec_bytes().len() <= usize::MAX
                &&& Self::fits(
                    old(self)@.unwrap().data.len() + val.spec_bytes().len(),
                    old(self).limit(),
                )
            },
            r is Ok ==> final(self)@ == Some(
                FrameView {
                    meta: seq![
                        (old(self)@.unwrap().data.len() + val.spec_bytes().len()) as usize,
                    ],
                    data: old(self)@.unwrap().data + val.spec_bytes(),
                },
            ),
            r is Err ==> final(self)@ == old(self)@,
    {
        if self.is_empty() {
            return Err(());
        }
        let ofs = self.len();
        proof {
            self.lemma_shaped();
        }
        let bytes = val.as_bytes();
        match ofs.checked_add(bytes.len()) {
            Some(total) => self.grow_by(ofs, bytes, total),
            None => Err(()),
        }
    }

    /// Resize the string (discarding trailing data). A length that is not
    /// less than that of the string held changes nothing.
    pub fn truncate(&mut self, len: usize)
        requires
            old(self).wf(),
            old(self)@ is Some && len < old(self)@.unwrap().data.len() ==> is_char_boundary(
                old(self)@.unwrap().data,
                len as int,
            ),
        ensures
            final(self).wf(),
            final(self).limit() == old(self).limit(),
            final(self).destroyed() == old(self).destroyed(),
            old(self)@ is Some && len < old(self)@.unwrap().data.len() ==> final(self)@ == Some(
                FrameView { meta: seq![len], data: old(self)@.unwrap().data.subrange(0, len as int) },
            ),
            !(old(self)@ is Some && len < old(self)@.unwrap().data.len()) ==> final(self)@ == old(self)@,
    {
        if self.is_empty() {
            return ;
        }
        proof {
            self.lemma_shaped();
        }
        if len < self.len() {
            self.shrink_to(len);
        }
    }
}

impl<T: Dst, D: DataBuf> ValueA<T, D> {
    /// The value held is one of the interface.
    pub proof fn lemma_shaped(&self)
        requires
            self.wf(),
            self@ is Some,
        ensures
            shaped::<T>(self@.unwrap()),
    {
        lemma_meta_words::<T, D::Inner>();
        <D::Inner as Pod>::lemma_size(<D::Inner as Pod>::spec_zero());
        let words = self.data.words();
        let size = T::spec_size_of_val(tail_meta::<T, D::Inner>(words));
        lemma_words_for(size, size_of::<D::Inner>());
        assert(size <= words.len() * size_of::<D::Inner>()) by (nonlinear_arith)
            requires
                size <= spec_round_to_words::<D::Inner>(size) * size_of::<D::Inner>(),
                spec_round_to_words::<D::Inner>(size) <= words.len(),
        ;
    }
}

impl<T: Dst, D: DataBuf> ValueA<T, D> {
    /// What placing `val` in a buffer of the given limit comes to, where
    /// `val` is seen through `T` in its own way: a holder of `val` if there
    /// is room, and `val` itself if not.
    pub open spec fn placed_as<U: Unsize<T>>(limit: nat, val: U, r: Result<ValueA<T, D>, U>) -> bool {
        match r {
            Ok(v) => {
                &&& Self::fits(size_of::<U>(), limit)
                &&& v.wf()
                &&& v.limit() == limit
                &&& v.destroyed() == Seq::<FrameView>::empty()
                &&& v@ == Some(FrameView { meta: val.spec_unsize(), data: val.image() })
            },
            Err(u) => !Self::fits(size_of::<U>(), limit) && u == val,
        }
    }

    /// Construct a stack-based DST
    ///
    /// Returns Ok(dst) if the allocation was successful, or Err(val) if it failed
    pub fn new<U: Unsize<T>>(val: U) -> (r: Result<ValueA<T, D>, U>) where
        (U, D::Inner): AlignmentValid,
        D: Default,

        requires
            <(U, D::Inner) as AlignmentValid>::valid(),
        ensures
            exists|b: D| call_ensures(D::default, (), b) && Self::placed_as(b.spec_limit(), val, r),
    {
        Self::in_buffer(D::default(), val)
    }

    /// Construct a stack-based DST using a pre-constructed buffer
    ///
    /// Returns `Ok(dst)` if the allocation was successful, or `Err(val)` if it failed
    pub fn in_buffer<U: Unsize<T>>(buffer: D, val: U) -> (r: Result<ValueA<T, D>, U>) where
        (U, D::Inner): AlignmentValid,

        requires
            <(U, D::Inner) as AlignmentValid>::valid(),
        ensures
            Self::placed_as(buffer.spec_limit(), val, r),
    {
        let get_ref = |p: &U| -> (r: WidePtr)
            ensures
                r.addr == 0,
                r.meta@ == p.spec_unsize(),
                r.meta@.len() == T::spec_meta_len(),
                T::spec_size_of_val(r.meta@) == size_of::<U>(),
            { p.unsize() };
        Self::in_buffer_stable(buffer, val, get_ref)
    }

    /// Construct a stack-based DST, falling back on a boxed form of the
    /// value if the value doesn't fit. The boxed form has to fit.
    pub fn new_or_boxed<U: Unsize<T>, B: Unsize<T>, F: FnOnce(U) -> B>(val: U, boxer: F) -> (r:
        ValueA<T, D>) where (U, D::Inner): AlignmentValid, (B, D::Inner): AlignmentValid, D: Default
        requires
            <(U, D::Inner) as AlignmentValid>::valid(),
            <(B, D::Inner) as AlignmentValid>::valid(),
            call_requires(boxer, (val,)),
            forall|b: D| #[trigger]
                call_ensures(D::default, (), b) ==> Self::fits(size_of::<B>(), b.spec_limit()),
        ensures
            r.wf(),
            r.destroyed() == Seq::<FrameView>::empty(),
            exists|b: D| call_ensures(D::default, (), b) && r.limit() == b.spec_limit(),
            r@ != Some(FrameView { meta: val.spec_unsize(), data: val.image() }) ==> exists|
                boxed: B,
            |
                call_ensures(boxer, (val,), boxed) && r@ == Some(
                    FrameView { meta: boxed.spec_unsize(), data: boxed.image() },
                ),
            (forall|b: D| #[trigger]
                call_ensures(D::default, (), b) ==> Self::fits(size_of::<U>(), b.spec_limit()))
                ==> r@ == Some(FrameView { meta: val.spec_unsize(), data: val.image() }),
            (forall|b: D| #[trigger]
                call_ensures(D::default, (), b) ==> !Self::fits(size_of::<U>(), b.spec_limit()))
                ==> exists|
                boxed: B,
            |
                call_ensures(boxer, (val,), boxed) && r@ == Some(
                    FrameView { meta: boxed.spec_unsize(), data: boxed.image() },
                ),
    {
        match Self::in_buffer(D::default(), val) {
            Ok(v) => v,
            Err(val) => {
                let boxed = boxer(val);
                Self::in_buffer(D::default(), boxed).ok().unwrap()
            },
        }
    }

    /// Replace the contents without dropping the backing allocation. See
    /// `replace_stable`.
    pub fn replace<U: Unsize<T>>(&mut self, val: U) -> (r: Result<(), U>) where
        (U, D::Inner): AlignmentValid,

        requires
            <(U, D::Inner) as AlignmentValid>::valid(),
            old(self).wf(),
        ensures
            final(self).wf(),
            final(self).limit() == old(self).limit(),
            final(self).destroyed() == old(self).destroyed() + old(self).content(),
            r is Ok <==> Self::fits(size_of::<U>(), old(self).limit()),
            r is Ok ==> final(self)@ == Some(
                FrameView { meta: val.spec_unsize(), data: val.image() },
            ),
            r is Err ==> r == Err::<(), U>(val) && final(self)@ is None,
    {
        let get_ref = |p: &U| -> (r: WidePtr)
            ensures
                r.addr == 0,
                r.meta@ == p.spec_unsize(),
                r.meta@.len() == T::spec_meta_len(),
                T::spec_size_of_val(r.meta@) == size_of::<U>(),
            { p.unsize() };
        self.replace_stable(val, get_ref)
    }
}

/// Specialisation for slices (acting like an `ArrayVec`)
impl<I: Object, D: DataBuf> ValueA<Slice<I>, D> where (I, D::Inner): AlignmentValid {
    /// What making a holder of no items in a buffer of the given limit comes
    /// to: a holder of the empty sequence if there is room for the
    /// descriptor, and nothing if not.
    pub open spec fn placed_empty(limit: nat, r: Option<ValueA<Slice<I>, D>>) -> bool {
        match r {
            Some(v) => {
                &&& Self::fits(0, limit)
                &&& v.wf()
                &&& v.limit() == limit
                &&& v.destroyed() == Seq::<FrameView>::empty()
                &&& v@ == Some(FrameView { meta: seq![0usize], data: Seq::<u8>::empty() })
            },
            None => !Self::fits(0, limit),
        }
    }

    /// Create a new zero-sized slice (will error only if the metadata doesn't fit)
    pub fn empty_slice() -> (r: Result<Self, ()>) where D: Default
        requires
            <(I, D::Inner) as AlignmentValid>::valid(),
        ensures
            exists|b: D| call_ensures(D::default, (), b) && Self::placed_empty(
                b.spec_limit(),
                r.ok(),
            ),
    {
        Self::empty_slice_with_buffer(D::default())
    }

    /// Create a new zero-sized slice in the provided buffer (will error only if the metadata doesn't fit)
    pub fn empty_slice_with_buffer(buffer: D) -> (r: Result<Self, ()>)
        requires
            <(I, D::Inner) as AlignmentValid>::valid(),
        ensures
            Self::placed_empty(buffer.spec_limit(), r.ok()),
    {
        <(I, D::Inner) as AlignmentValid>::check();
        let meta: [usize; 1] = [0];
        let data: [u8; 0] = [];
        proof {
            assert(meta@ =~= seq![0usize]);
            assert(data@ =~= Seq::<u8>::empty());
            assert(0 * size_of::<I>() == 0) by (nonlinear_arith);
        }
        let rv = ValueA::new_raw(meta.as_slice(), data.as_slice(), buffer);
        match rv {
            Some(r) => Ok(r),
            None => Err(()),
        }
    }

    /// The number of items held.
    pub open spec fn count(&self) -> nat {
        match self@ {
            Some(f) => f.meta[0] as nat,
            None => 0,
        }
    }

    /// One more item can be appended: there is a sequence to append to, and
    /// the buffer can be made long enough for the longer sequence.
    pub open spec fn can_append(&self, more: nat) -> bool {
        &&& self@ is Some
        &&& self.count() + more <= usize::MAX
        &&& items_bytes::<I>(self.count() + more) <= usize::MAX
        &&& Self::fits(items_bytes::<I>(self.count() + more), self.limit())
    }

    /// The sequence held with the given items behind it.
    pub open spec fn with_items(&self, items: Seq<I>) -> Option<FrameView> {
        match self@ {
            Some(f) => Some(
                FrameView {
                    meta: seq![(f.meta[0] + items.len()) as usize],
                    data: f.data + images_of(items),
                },
            ),
            None => None,
        }
    }

    /// Append an item to the end of the slice (similar to `Vec::push`)
    pub fn append(&mut self, v: I) -> (r: Result<(), I>)
        requires
            <(I, D::Inner) as AlignmentValid>::valid(),
            old(self).wf(),
        ensures
            final(self).wf(),
            final(self).limit() == old(self).limit(),
            final(self).destroyed() == old(self).destroyed(),
            r is Ok <==> old(self).can_append(1),
            r is Ok ==> final(self)@ == old(self).with_items(seq![v]),
            r is Err ==> r == Err::<(), I>(v) && final(self)@ == old(self)@,
    {
        proof {
            assert(images_of(seq![v]) =~= v.image()) by {
                assert(seq![v].drop_last() =~= Seq::<I>::empty());
                assert(images_of(Seq::<I>::empty()) =~= Seq::<u8>::empty());
            }
        }
        if self.is_empty() {
            return Err(v);
        }
        let ofs = self.len();
        proof {
            self.lemma_shaped();
            assert((ofs + 1) * size_of::<I>() == ofs * size_of::<I>() + size_of::<I>())
                by (nonlinear_arith);
        }
        if ofs == usize::MAX {
            return Err(v);
        }
        let size = core::mem::size_of::<I>();
        let held = ofs * size;
        let image = v.to_raw();
        match self.grow_by(held, image.as_slice(), ofs + 1) {
            Ok(_) => {
                // The item lives on in the buffer
                core::mem::forget(v);
                Ok(())
            },
            Err(_) => Err(v),
        }
    }

    /// Inline append an item (See Self::append)
    pub fn appended(self, v: I) -> (r: Result<Self, (Self, I)>)
        requires
            <(I, D::Inner) as AlignmentValid>::valid(),
            self.wf(),
        ensures
            r is Ok <==> self.can_append(1),
            r matches Ok(s) ==> s.wf() && s.limit() == self.limit() && s.destroyed()
                == self.destroyed() && s@ == self.with_items(seq![v]),
            r matches Err(e) ==> e.0.wf() && e.0.limit() == self.limit() && e.0.destroyed()
                == self.destroyed() && e.0@ == self@ && e.1 == v,
    {
        let mut s = self;
        match s.append(v) {
            Ok(_) => Ok(s),
            Err(v) => Err((s, v)),
        }
    }

    /// Remove the last item from the slice
    pub fn pop(&mut self) -> (r: Option<I>)
        requires
            <(I, D::Inner) as AlignmentValid>::valid(),
            old(self).wf(),
        ensures
            final(self).wf(),
            final(self).limit() == old(self).limit(),
            final(self).destroyed() == old(self).destroyed(),
            r is Some <==> old(self).count() > 0,
            r is Some ==> r.unwrap().image() == item_at::<I>(
                old(self)@.unwrap().data,
                old(self).count() - 1,
            ) && final(self)@ == Some(
                FrameView {
                    meta: seq![(old(self).count() - 1) as usize],
                    data: old(self)@.unwrap().data.subrange(
                        0,
                        items_bytes::<I>((old(self).count() - 1) as nat) as int,
                    ),
                },
            ),
            r is None ==> final(self)@ == old(self)@,
    {
        if self.is_empty() {
            return None;
        }
        let count = self.len();
        if count > 0 {
            let ofs = count - 1;
            let size = core::mem::size_of::<I>();
            proof {
                self.lemma_shaped();
                lemma_meta_words::<Slice<I>, D::Inner>();
                <D::Inner as Pod>::lemma_size(<D::Inner as Pod>::spec_zero());
                assert(0 <= ofs * size <= (ofs + 1) * size && (ofs + 1) * size - ofs * size
                    == size) by (nonlinear_arith)
                    requires
                        0 <= ofs,
                        size >= 0,
                ;
                let words = self.data.words();
                let held = (count * size) as nat;
                lemma_words_for(held, size_of::<D::Inner>());
                assert(held <= words.len() * size_of::<D::Inner>()) by (nonlinear_arith)
                    requires
                        held <= spec_round_to_words::<D::Inner>(held) * size_of::<D::Inner>(),
                        spec_round_to_words::<D::Inner>(held) <= words.len(),
                ;
            }
            let image = load_bytes(self.data.as_ref(), ofs * size, size);
            proof {
                assert(image@ =~= item_at::<I>(self@.unwrap().data, ofs as int));
            }
            self.shrink_to(ofs);
            Some(I::from_raw(image.as_slice()))
        } else {
            None
        }
    }
}

impl<I: Object, D: DataBuf> ValueA<Slice<I>, D> where (I, D::Inner): AlignmentValid {
    /// Where more items can be appended, fewer can.
    pub proof fn lemma_can_append(&self, fewer: nat, more: nat)
        requires
            fewer <= more,
            self.can_append(more),
        ensures
            self.can_append(fewer),
    {
        let a = self.count() + fewer;
        let b = self.count() + more;
        assert(a * size_of::<I>() <= b * size_of::<I>()) by (nonlinear_arith)
            requires
                a <= b,
        ;
        <D::Inner as Pod>::lemma_size(<D::Inner as Pod>::spec_zero());
        lemma_words_for_monotonic(
            items_bytes::<I>(a),
            items_bytes::<I>(b),
            size_of::<D::Inner>(),
        );
    }

    /// Extend a slice with the given items, in order. Stops at the first
    /// item that cannot be appended, and hands it back with those behind it.
    pub fn extend(&mut self, items: Vec<I>) -> (r: Result<(), (I, Vec<I>)>)
        requires
            <(I, D::Inner) as AlignmentValid>::valid(),
            old(self).wf(),
        ensures
            final(self).wf(),
            final(self).limit() == old(self).limit(),
            final(self).destroyed() == old(self).destroyed(),
            r is Ok <==> items@.len() == 0 || old(self).can_append(items@.len()),
            r is Ok ==> final(self)@ == (if items@.len() == 0 {
                old(self)@
            } else {
                old(self).with_items(items@)
            }),
            r matches Err(e) ==> {
                let k = items@.len() - e.1@.len() - 1;
                &&& 0 <= k < items@.len()
                &&& e.0 == items@[k]
                &&& e.1@ == items@.subrange(k + 1, items@.len() as int)
                &&& !old(self).can_append((k + 1) as nat)
                &&& final(self)@ == (if k == 0 {
                    old(self)@
                } else {
                    old(self).with_items(items@.subrange(0, k))
                })
            },
    {
        let mut iter = items;
        let ghost all = items@;
        let ghost mut done: int = 0;
        proof {
            assert(all.subrange(0, all.len() as int) =~= all);
        }
        while iter.len() > 0
            invariant
                <(I, D::Inner) as AlignmentValid>::valid(),
                old(self).wf(),
                self.wf(),
                self.limit() == old(self).limit(),
                self.destroyed() == old(self).destroyed(),
                all == items@,
                0 <= done <= all.len(),
                iter@ == all.subrange(done, all.len() as int),
                done > 0 ==> old(self).can_append(done as nat),
                self@ == (if done == 0 {
                    old(self)@
                } else {
                    old(self).with_items(all.subrange(0, done))
                }),
            decreases iter@.len(),
        {
            let v = iter.remove(0);
            proof {
                assert(v == all[done]);
                assert(iter@ =~= all.subrange(done + 1, all.len() as int));
                if old(self)@ is Some {
                    old(self).lemma_shaped();
                    assert(all.subrange(0, done + 1).drop_last() =~= all.subrange(0, done));
                    if done == 0 {
                        assert(images_of(all.subrange(0, 0)) =~= Seq::<u8>::empty());
                    }
                    assert(images_of(seq![v]) =~= v.image()) by {
                        assert(seq![v].drop_last() =~= Seq::<I>::empty());
                        assert(images_of(Seq::<I>::empty()) =~= Seq::<u8>::empty());
                    }
                }
            }
            match self.append(v) {
                Ok(_) => {
                    proof {
                        let f = old(self)@.unwrap();
                        assert(f.data + images_of(all.subrange(0, done)) + v.image() =~= f.data
                            + images_of(all.subrange(0, done + 1)));
                        if done == 0 {
                            assert(f.data + images_of(all.subrange(0, 0)) =~= f.data);
                        }
                        done = done + 1;
                    }
                },
                Err(v) => {
                    proof {
                        if old(self).can_append(all.len()) {
                            old(self).lemma_can_append((done + 1) as nat, all.len());
                        }
                    }
                    return Err((v, iter));
                },
            }
        }
        proof {
            assert(all.subrange(0, all.len() as int) =~= all);
        }
        Ok(())
    }

    /// Helper to extend during construction (see Self::extend)
    pub fn extended(self, items: Vec<I>) -> (r: Result<Self, (Self, I, Vec<I>)>)
        requires
            <(I, D::Inner) as AlignmentValid>::valid(),
            self.wf(),
        ensures
            r is Ok <==> items@.len() == 0 || self.can_append(items@.len()),
            r matches Ok(s) ==> s.wf() && s.limit() == self.limit() && s.destroyed()
                == self.destroyed() && s@ == (if items@.len() == 0 {
                self@
            } else {
                self.with_items(items@)
            }),
            r matches Err(e) ==> {
                let k = items@.len() - e.2@.len() - 1;
                &&& 0 <= k < items@.len()
                &&& e.1 == items@[k]
                &&& e.2@ == items@.subrange(k + 1, items@.len() as int)
                &&& !self.can_append((k + 1) as nat)
                &&& e.0.wf()
                &&& e.0.limit() == self.limit()
                &&& e.0.destroyed() == self.destroyed()
                &&& e.0@ == (if k == 0 {
                    self@
                } else {
                    self.with_items(items@.subrange(0, k))
                })
            },
    {
        let mut s = self;
        match s.extend(items) {
            Ok(_) => Ok(s),
            Err((v, iter)) => Err((s, v, iter)),
        }
    }
}

} // verus!
