//! Frames: how one stored value lies in a run of words, and how a run of
//! frames is read back.
use crate::bytes::{bytes_of, copy_bytes, lemma_words_for, load_bytes, spec_round_to_words};
use crate::data_buf::Pod;
use vstd::layout::size_of;
use vstd::prelude::*;
use vstd::slice::slice_subrange;

verus! {

/// One stored value as the mathematics sees it: its descriptor words and its
/// data bytes.
pub struct FrameView {
    pub meta: Seq<usize>,
    pub data: Seq<u8>,
}

/// One stored value, read out of a container: its descriptor words and its
/// data bytes.
#[derive(Debug, Clone, PartialEq, Eq)]
pub struct Frame {
    pub meta: Vec<usize>,
    pub data: Vec<u8>,
}

impl View for Frame {
    type V = FrameView;

    open spec fn view(&self) -> FrameView {
        FrameView { meta: self.meta@, data: self.data@ }
    }
}

/// A wide reference: an address and the descriptor words that go with it.
/// An address is an offset: into the buffer for a stored value, and from the
/// value's own first byte for a value that is about to be stored.
#[derive(Debug, Clone, PartialEq, Eq)]
pub struct WidePtr {
    pub addr: usize,
    pub meta: Vec<usize>,
}

/// An element interface: the kind of dynamically-sized value that a container
/// holds, such as a string, a sequence, or anything behind one shared table of
/// behaviour.
///
/// It fixes how many descriptor words a wide reference to such a value has,
/// and how many bytes the value takes, given its descriptor. A value of the
/// type is the dispatch table: the containers hand it each stored value that
/// is destroyed, and `destroyed()` lists them in the order in which that
/// happened.
///
/// The three ghost items say what the others do. An implementation that is
/// verified defines them; one that is not may leave them out.
pub trait Dst: Sized {
    /// Number of descriptor words of a wide reference.
    open spec fn spec_meta_len() -> nat {
        arbitrary()
    }

    /// Number of bytes of the value that a descriptor describes.
    open spec fn spec_size_of_val(meta: Seq<usize>) -> nat {
        arbitrary()
    }

    /// The values destroyed so far, oldest first.
    open spec fn destroyed(&self) -> Seq<FrameView> {
        arbitrary()
    }

    /// A table through which nothing has been destroyed yet.
    fn new() -> (r: Self)
        ensures
            r.destroyed() == Seq::<FrameView>::empty(),
    ;

    /// Number of descriptor words of a wide reference: one to three.
    fn meta_len() -> (r: usize)
        ensures
            r == Self::spec_meta_len(),
            1 <= r <= 3,
    ;

    /// Number of bytes of the value that a descriptor describes.
    fn size_of_val(meta: &[usize]) -> (r: usize)
        requires
            meta@.len() == Self::spec_meta_len(),
            Self::spec_size_of_val(meta@) <= usize::MAX,
        ensures
            r == Self::spec_size_of_val(meta@),
    ;

    /// Destroys a stored value, given its descriptor and its bytes.
    fn drop_in_place(&mut self, meta: &[usize], data: &[u8])
        requires
            meta@.len() == Self::spec_meta_len(),
            data@.len() == Self::spec_size_of_val(meta@),
        ensures
            final(self).destroyed() == old(self).destroyed().push(
                FrameView { meta: meta@, data: data@ },
            ),
    ;
}

/// A value of known size that can be copied into raw bytes and made out of
/// them again.
///
/// `image()` is what the value looks like in memory: `size_of::<Self>()`
/// bytes. A container that has taken the image of a value forgets the value
/// itself, so that the value is destroyed only through its image.
///
/// An implementation that is verified defines `image`; one that is not may
/// leave it out.
pub trait Object: Sized {
    /// The bytes of the value.
    open spec fn image(&self) -> Seq<u8> {
        arbitrary()
    }

    /// The bytes of the value: as many as the type is large.
    fn to_raw(&self) -> (r: Vec<u8>)
        ensures
            r@ == self.image(),
            r@.len() == size_of::<Self>(),
    ;

    /// The value that has the given bytes.
    fn from_raw(bytes: &[u8]) -> (r: Self)
        requires
            bytes@.len() == size_of::<Self>(),
        ensures
            r.image() == bytes@,
    ;
}

/// A value that can be seen through the interface `T` in one way that goes
/// without saying: `unsize` gives the wide reference to the whole value.
///
/// An implementation that is verified defines `spec_unsize`; one that is not
/// may leave it out.
pub trait Unsize<T: Dst>: Object {
    /// The descriptor under which the value is seen through `T`.
    open spec fn spec_unsize(&self) -> Seq<usize> {
        arbitrary()
    }

    /// The wide reference to the value, as one of `T`.
    fn unsize(&self) -> (r: WidePtr)
        ensures
            r.addr == 0,
            r.meta@ == self.spec_unsize(),
            r.meta@.len() == T::spec_meta_len(),
            T::spec_size_of_val(r.meta@) == size_of::<Self>(),
    ;
}

impl<W: Pod> Object for W {
    open spec fn image(&self) -> Seq<u8> {
        self.spec_bytes()
    }

    fn to_raw(&self) -> (r: Vec<u8>) {
        proof {
            W::lemma_size(*self);
        }
        self.to_bytes()
    }

    fn from_raw(bytes: &[u8]) -> (r: W) {
        proof {
            W::lemma_from_to(bytes@);
        }
        W::from_bytes(bytes)
    }
}

/// The unit value takes no bytes.
impl Object for () {
    open spec fn image(&self) -> Seq<u8> {
        Seq::empty()
    }

    fn to_raw(&self) -> (r: Vec<u8>) {
        broadcast use vstd::layout::layout_of_unit_tuple;

        Vec::new()
    }

    fn from_raw(bytes: &[u8]) -> (r: ()) {
        broadcast use vstd::layout::layout_of_unit_tuple;

        assert(bytes@ =~= Seq::<u8>::empty());
        ()
    }
}

/// The frame is one of the interface `T`: it has as many descriptor words
/// as the interface says, and as many bytes as its descriptor says.
pub open spec fn shaped<T: Dst>(f: FrameView) -> bool {
    &&& f.meta.len() == T::spec_meta_len()
    &&& f.data.len() == T::spec_size_of_val(f.meta)
}

/// The interface has one to three descriptor words, as every interface that
/// answers for its `meta_len` has.
pub open spec fn meta_ok<T: Dst>() -> bool {
    1 <= T::spec_meta_len() <= 3
}

/// The machine words with the given byte image: word `k` is made of the bytes
/// from `k * size_of::<usize>()` on.
pub open spec fn usizes_of(bytes: Seq<u8>, count: nat) -> Seq<usize> {
    Seq::new(
        count,
        |k: int|
            <usize as Pod>::spec_from_bytes(
                bytes.subrange(k * size_of::<usize>(), (k + 1) * size_of::<usize>()),
            ),
    )
}

/// Number of bytes that the descriptor of a `T` takes.
pub open spec fn spec_meta_bytes<T: Dst>() -> nat {
    T::spec_meta_len() * size_of::<usize>()
}

/// Number of words of type `W` that the descriptor of a `T` takes.
pub open spec fn spec_meta_words<T: Dst, W: Pod>() -> nat {
    spec_round_to_words::<W>(spec_meta_bytes::<T>())
}

/// Number of words of type `W` that a value of `size` bytes takes, together
/// with its descriptor.
pub open spec fn spec_frame_words<T: Dst, W: Pod>(size: nat) -> nat {
    spec_meta_words::<T, W>() + spec_round_to_words::<W>(size)
}

/// The descriptor that the given words hold.
pub open spec fn decode_meta<T: Dst, W: Pod>(words: Seq<W>) -> Seq<usize> {
    usizes_of(bytes_of(words), T::spec_meta_len())
}

/// The first `size` bytes that the given words hold.
pub open spec fn decode_data<W: Pod>(words: Seq<W>, size: nat) -> Seq<u8> {
    bytes_of(words).subrange(0, size as int)
}

/// The descriptor of the frame at the start of a run of words.
pub open spec fn head_meta<T: Dst, W: Pod>(win: Seq<W>) -> Seq<usize> {
    decode_meta::<T, W>(win.subrange(0, spec_meta_words::<T, W>() as int))
}

/// The size in bytes of the value of the frame at the start of a run of words.
pub open spec fn head_size<T: Dst, W: Pod>(win: Seq<W>) -> nat {
    T::spec_size_of_val(head_meta::<T, W>(win))
}

/// The number of words of the frame at the start of a run of words.
pub open spec fn head_words<T: Dst, W: Pod>(win: Seq<W>) -> nat {
    spec_frame_words::<T, W>(head_size::<T, W>(win))
}

/// The run of words holds the whole of the frame that starts it, and the
/// size of its value is a number that a machine can count.
pub open spec fn head_fits<T: Dst, W: Pod>(win: Seq<W>) -> bool {
    &&& 0 < spec_meta_words::<T, W>() <= win.len()
    &&& head_size::<T, W>(win) <= usize::MAX
    &&& head_words::<T, W>(win) <= win.len()
}

/// The frame at the start of a run of words: descriptor first, data behind it.
pub open spec fn head<T: Dst, W: Pod>(win: Seq<W>) -> FrameView {
    FrameView {
        meta: head_meta::<T, W>(win),
        data: decode_data::<W>(
            win.subrange(spec_meta_words::<T, W>() as int, head_words::<T, W>(win) as int),
            head_size::<T, W>(win),
        ),
    }
}

/// The run of words is made of whole frames, one after the other, and
/// nothing else.
pub open spec fn exact<T: Dst, W: Pod>(win: Seq<W>) -> bool
    decreases win.len(),
{
    win.len() == 0 || (head_fits::<T, W>(win) && exact::<T, W>(
        win.skip(head_words::<T, W>(win) as int),
    ))
}

/// The frames in a run of words, from its start on.
pub open spec fn parse<T: Dst, W: Pod>(win: Seq<W>) -> Seq<FrameView>
    decreases win.len(),
{
    if win.len() == 0 || !head_fits::<T, W>(win) {
        Seq::empty()
    } else {
        seq![head::<T, W>(win)] + parse::<T, W>(win.skip(head_words::<T, W>(win) as int))
    }
}

/// The descriptor takes at least one word and at most 24 bytes.
pub proof fn lemma_meta_words<T: Dst, W: Pod>()
    requires
        meta_ok::<T>(),
    ensures
        1 <= spec_meta_words::<T, W>() <= spec_meta_bytes::<T>() <= 24,
        spec_meta_bytes::<T>() <= spec_meta_words::<T, W>() * size_of::<W>(),
        T::spec_meta_len() * size_of::<usize>() == spec_meta_bytes::<T>(),
{
    W::lemma_size(W::spec_zero());
    <usize as Pod>::lemma_size(0usize);
    let n = T::spec_meta_len();
    let us = size_of::<usize>();
    assert(1 <= n * us <= 24) by (nonlinear_arith)
        requires
            1 <= n <= 3,
            1 <= us <= 8,
    ;
    lemma_words_for(spec_meta_bytes::<T>(), size_of::<W>());
    let m = spec_meta_words::<T, W>();
    let s = size_of::<W>();
    if m == 0 {
        assert(m * s == 0) by (nonlinear_arith)
            requires
                m == 0,
        ;
    }
}

/// A run of whole frames that is not empty starts with a frame, and the
/// rest is a run of whole frames.
pub proof fn lemma_exact_unfold<T: Dst, W: Pod>(win: Seq<W>)
    requires
        exact::<T, W>(win),
        win.len() > 0,
    ensures
        head_fits::<T, W>(win),
        exact::<T, W>(win.skip(head_words::<T, W>(win) as int)),
        parse::<T, W>(win) == seq![head::<T, W>(win)] + parse::<T, W>(
            win.skip(head_words::<T, W>(win) as int),
        ),
        parse::<T, W>(win).len() > 0,
        parse::<T, W>(win)[0] == head::<T, W>(win),
        parse::<T, W>(win).drop_first() == parse::<T, W>(
            win.skip(head_words::<T, W>(win) as int),
        ),
{
    let rest = parse::<T, W>(win.skip(head_words::<T, W>(win) as int));
    assert((seq![head::<T, W>(win)] + rest).drop_first() =~= rest);
}

/// A run of words of no length holds no frame.
pub proof fn lemma_parse_empty<T: Dst, W: Pod>(win: Seq<W>)
    requires
        win.len() == 0,
    ensures
        exact::<T, W>(win),
        parse::<T, W>(win) == Seq::<FrameView>::empty(),
{
}

/// A run of whole frames holds no frame only if it has no words.
pub proof fn lemma_parse_len<T: Dst, W: Pod>(win: Seq<W>)
    requires
        exact::<T, W>(win),
    ensures
        parse::<T, W>(win).len() == 0 <==> win.len() == 0,
{
    if win.len() > 0 {
        lemma_exact_unfold::<T, W>(win);
    }
}

/// A frame that fills a run of words is the one frame of that run.
pub proof fn lemma_parse_single<T: Dst, W: Pod>(win: Seq<W>)
    requires
        head_fits::<T, W>(win),
        head_words::<T, W>(win) == win.len(),
    ensures
        exact::<T, W>(win),
        parse::<T, W>(win) == seq![head::<T, W>(win)],
{
    let rest = win.skip(head_words::<T, W>(win) as int);
    assert(rest.len() == 0);
    assert(exact::<T, W>(rest));
    assert(parse::<T, W>(rest) =~= Seq::<FrameView>::empty());
    assert(seq![head::<T, W>(win)] + parse::<T, W>(rest) =~= seq![head::<T, W>(win)]);
}

/// The frame at the start of a run of words is a matter of the words of
/// that frame alone.
pub proof fn lemma_head_local<T: Dst, W: Pod>(a: Seq<W>, b: Seq<W>)
    requires
        head_fits::<T, W>(a),
        head_words::<T, W>(a) <= b.len(),
        a.subrange(0, head_words::<T, W>(a) as int) == b.subrange(
            0,
            head_words::<T, W>(a) as int,
        ),
    ensures
        head_fits::<T, W>(b),
        head_words::<T, W>(b) == head_words::<T, W>(a),
        head::<T, W>(b) == head::<T, W>(a),
{
    let mw = spec_meta_words::<T, W>() as int;
    let hw = head_words::<T, W>(a) as int;
    assert(mw <= hw);
    assert(a.subrange(0, mw) =~= a.subrange(0, hw).subrange(0, mw));
    assert(b.subrange(0, mw) =~= b.subrange(0, hw).subrange(0, mw));
    assert(a.subrange(mw, hw) =~= a.subrange(0, hw).subrange(mw, hw));
    assert(b.subrange(mw, hw) =~= b.subrange(0, hw).subrange(mw, hw));
}

/// Two runs of whole frames, one after the other, are a run of whole frames,
/// and hold the frames of the first and then those of the second.
pub proof fn lemma_parse_concat<T: Dst, W: Pod>(a: Seq<W>, b: Seq<W>)
    requires
        exact::<T, W>(a),
    ensures
        parse::<T, W>(a + b) == parse::<T, W>(a) + parse::<T, W>(b),
        exact::<T, W>(b) ==> exact::<T, W>(a + b),
    decreases a.len(),
{
    if a.len() == 0 {
        assert(a + b =~= b);
        assert(parse::<T, W>(a) + parse::<T, W>(b) =~= parse::<T, W>(b));
    } else {
        let hw = head_words::<T, W>(a) as int;
        assert(a.subrange(0, hw) =~= (a + b).subrange(0, hw));
        lemma_head_local::<T, W>(a, a + b);
        assert((a + b).skip(hw) =~= a.skip(hw) + b);
        lemma_parse_concat::<T, W>(a.skip(hw), b);
        let h = seq![head::<T, W>(a)];
        assert(h + (parse::<T, W>(a.skip(hw)) + parse::<T, W>(b)) =~= (h + parse::<T, W>(
            a.skip(hw),
        )) + parse::<T, W>(b));
    }
}

/// The words of a descriptor and the words of the data that it describes,
/// put together, are one frame.
pub proof fn lemma_frame_single<T: Dst, W: Pod>(mwords: Seq<W>, dwords: Seq<W>)
    requires
        meta_ok::<T>(),
        mwords.len() == spec_meta_words::<T, W>(),
        T::spec_size_of_val(decode_meta::<T, W>(mwords)) <= usize::MAX,
        dwords.len() == spec_round_to_words::<W>(
            T::spec_size_of_val(decode_meta::<T, W>(mwords)),
        ),
    ensures
        exact::<T, W>(mwords + dwords),
        head_fits::<T, W>(mwords + dwords),
        head_words::<T, W>(mwords + dwords) == mwords.len() + dwords.len(),
        parse::<T, W>(mwords + dwords) == seq![
            FrameView {
                meta: decode_meta::<T, W>(mwords),
                data: decode_data::<W>(dwords, T::spec_size_of_val(decode_meta::<T, W>(mwords))),
            },
        ],
{
    lemma_meta_words::<T, W>();
    let fw = mwords + dwords;
    let mw = mwords.len() as int;
    assert(fw.subrange(0, mw) =~= mwords);
    assert(fw.subrange(mw, fw.len() as int) =~= dwords);
    lemma_parse_single::<T, W>(fw);
}

/// A frame put before a run of whole frames is the first frame of the
/// longer run.
pub proof fn lemma_frame_prepend<T: Dst, W: Pod>(mwords: Seq<W>, dwords: Seq<W>, rest: Seq<W>)
    requires
        meta_ok::<T>(),
        mwords.len() == spec_meta_words::<T, W>(),
        T::spec_size_of_val(decode_meta::<T, W>(mwords)) <= usize::MAX,
        dwords.len() == spec_round_to_words::<W>(
            T::spec_size_of_val(decode_meta::<T, W>(mwords)),
        ),
        exact::<T, W>(rest),
    ensures
        exact::<T, W>(mwords + dwords + rest),
        parse::<T, W>(mwords + dwords + rest) == seq![
            FrameView {
                meta: decode_meta::<T, W>(mwords),
                data: decode_data::<W>(dwords, T::spec_size_of_val(decode_meta::<T, W>(mwords))),
            },
        ] + parse::<T, W>(rest),
{
    lemma_frame_single::<T, W>(mwords, dwords);
    lemma_parse_concat::<T, W>(mwords + dwords, rest);
}

/// A frame put behind a run of whole frames is the last frame of the
/// longer run.
pub proof fn lemma_frame_append<T: Dst, W: Pod>(front: Seq<W>, mwords: Seq<W>, dwords: Seq<W>)
    requires
        meta_ok::<T>(),
        mwords.len() == spec_meta_words::<T, W>(),
        T::spec_size_of_val(decode_meta::<T, W>(mwords)) <= usize::MAX,
        dwords.len() == spec_round_to_words::<W>(
            T::spec_size_of_val(decode_meta::<T, W>(mwords)),
        ),
        exact::<T, W>(front),
    ensures
        exact::<T, W>(front + (mwords + dwords)),
        parse::<T, W>(front + (mwords + dwords)) == parse::<T, W>(front).push(
            FrameView {
                meta: decode_meta::<T, W>(mwords),
                data: decode_data::<W>(dwords, T::spec_size_of_val(decode_meta::<T, W>(mwords))),
            },
        ),
{
    lemma_frame_single::<T, W>(mwords, dwords);
    lemma_parse_concat::<T, W>(front, mwords + dwords);
}

/// Every frame of a run of whole frames is one of the interface.
pub proof fn lemma_parse_shaped<T: Dst, W: Pod>(win: Seq<W>)
    requires
        exact::<T, W>(win),
    ensures
        forall|i: int| 0 <= i < parse::<T, W>(win).len() ==> shaped::<T>(#[trigger] parse::<T, W>(win)[i]),
    decreases win.len(),
{
    if win.len() > 0 {
        lemma_exact_unfold::<T, W>(win);
        lemma_head_shaped::<T, W>(win);
        let rest = win.skip(head_words::<T, W>(win) as int);
        lemma_parse_shaped::<T, W>(rest);
        assert forall|i: int| 0 <= i < parse::<T, W>(win).len() implies shaped::<T>(
            #[trigger] parse::<T, W>(win)[i],
        ) by {
            if i > 0 {
                assert(parse::<T, W>(win)[i] == parse::<T, W>(rest)[i - 1]);
            }
        }
    }
}

/// The frame at the start of a run of words that holds it is one of the
/// interface.
pub proof fn lemma_head_shaped<T: Dst, W: Pod>(win: Seq<W>)
    requires
        head_fits::<T, W>(win),
    ensures
        shaped::<T>(head::<T, W>(win)),
        head_size::<T, W>(win) <= (head_words::<T, W>(win) - spec_meta_words::<T, W>())
            * size_of::<W>(),
{
    W::lemma_size(W::spec_zero());
    let size = head_size::<T, W>(win);
    lemma_words_for(size, size_of::<W>());
}

/// Reads the value that a wide reference into a run of words refers to: the
/// address is the index of the word at which the data starts.
pub fn load_frame<T: Dst, W: Pod>(words: &[W], ptr: WidePtr) -> (r: Frame)
    requires
        ptr.meta@.len() == T::spec_meta_len(),
        T::spec_size_of_val(ptr.meta@) <= usize::MAX,
        ptr.addr + spec_round_to_words::<W>(T::spec_size_of_val(ptr.meta@)) <= words@.len(),
    ensures
        r.meta@ == ptr.meta@,
        r.data@ == decode_data::<W>(
            words@.subrange(
                ptr.addr as int,
                ptr.addr + spec_round_to_words::<W>(T::spec_size_of_val(ptr.meta@)),
            ),
            T::spec_size_of_val(ptr.meta@),
        ),
        shaped::<T>(r@),
{
    let size = T::size_of_val(ptr.meta.as_slice());
    let n = crate::round_to_words::<W>(size);
    let len = words.len();
    let part = slice_subrange(words, ptr.addr, ptr.addr + n);
    proof {
        W::lemma_size(W::spec_zero());
        lemma_words_for(size as nat, size_of::<W>());
    }
    let data = load_bytes(part, 0, size);
    Frame { meta: ptr.meta, data }
}

/// The words of the first frame of a run of whole frames are a run of one
/// frame.
pub proof fn lemma_head_alone<T: Dst, W: Pod>(win: Seq<W>)
    requires
        exact::<T, W>(win),
        win.len() > 0,
    ensures
        head_words::<T, W>(win) <= win.len(),
        exact::<T, W>(win.subrange(0, head_words::<T, W>(win) as int)),
        parse::<T, W>(win.subrange(0, head_words::<T, W>(win) as int)) == seq![head::<T, W>(win)],
{
    let hw = head_words::<T, W>(win) as int;
    let first = win.subrange(0, hw);
    assert(first.subrange(0, hw) =~= win.subrange(0, hw));
    lemma_head_local::<T, W>(win, first);
    lemma_parse_single::<T, W>(first);
}

/// The frames of a list that are kept, given for each whether it is: those
/// for which the answer is yes, in their order.
pub open spec fn kept(frames: Seq<FrameView>, keep: Seq<bool>) -> Seq<FrameView>
    decreases frames.len(),
{
    if frames.len() == 0 || keep.len() != frames.len() {
        Seq::empty()
    } else if keep.last() {
        kept(frames.drop_last(), keep.drop_last()).push(frames.last())
    } else {
        kept(frames.drop_last(), keep.drop_last())
    }
}

/// The answers turned round: yes for no, and no for yes.
pub open spec fn negated(keep: Seq<bool>) -> Seq<bool> {
    Seq::new(keep.len(), |i: int| !keep[i])
}

/// One more frame and the answer for it: the frame is kept, or is not.
pub proof fn lemma_kept_push(frames: Seq<FrameView>, keep: Seq<bool>, f: FrameView, b: bool)
    requires
        frames.len() == keep.len(),
    ensures
        kept(frames.push(f), keep.push(b)) == if b {
            kept(frames, keep).push(f)
        } else {
            kept(frames, keep)
        },
        kept(frames.push(f), negated(keep.push(b))) == if b {
            kept(frames, negated(keep))
        } else {
            kept(frames, negated(keep)).push(f)
        },
{
    assert(frames.push(f).drop_last() =~= frames);
    assert(keep.push(b).drop_last() =~= keep);
    assert(negated(keep.push(b)).drop_last() =~= negated(keep));
}

/// A stored value that can be written over where it lies: its descriptor,
/// its size in bytes, and the words of the buffer that hold its data.
pub struct FrameMut<'a, W> {
    pub meta: Vec<usize>,
    pub size: usize,
    pub words: &'a mut [W],
}

impl<'a, W: Pod> View for FrameMut<'a, W> {
    type V = FrameView;

    open spec fn view(&self) -> FrameView {
        FrameView { meta: self.meta@, data: decode_data::<W>(self.words@, self.size as nat) }
    }
}

impl<'a, W: Pod> FrameMut<'a, W> {
    /// The words are those that the data takes.
    pub open spec fn wf(&self) -> bool {
        self.words@.len() == spec_round_to_words::<W>(self.size as nat)
    }

    /// The value as it is stored now.
    pub fn get(&self) -> (r: Frame)
        requires
            self.wf(),
        ensures
            r@ == self@,
    {
        proof {
            W::lemma_size(W::spec_zero());
            lemma_words_for(self.size as nat, size_of::<W>());
        }
        let data = load_bytes(self.words, 0, self.size);
        Frame { meta: self.meta.clone(), data }
    }

    /// Writes other bytes, as many as the value has, over those of the
    /// value.
    pub fn set(self, data: &[u8])
        requires
            self.wf(),
            data@.len() == self.size,
        ensures
            final(self.words)@.len() == old(self.words)@.len(),
            decode_data::<W>(final(self.words)@, self.size as nat) == data@,
    {
        proof {
            W::lemma_size(W::spec_zero());
            lemma_words_for(self.size as nat, size_of::<W>());
        }
        copy_bytes(self.words, 0, data);
        proof {
            assert(decode_data::<W>(self.words@, self.size as nat) =~= data@);
        }
    }
}

/// The frame that starts at word `pos` of a run of words that ends before
/// word `end`, to be written over where it lies. What is written goes into
/// the words of the frame's data, and nowhere else.
pub fn frame_mut_at<'a, T: Dst, W: Pod>(words: &'a mut [W], pos: usize, end: usize) -> (r: FrameMut<
    'a,
    W,
>)
    requires
        meta_ok::<T>(),
        pos <= end <= old(words)@.len(),
        head_fits::<T, W>(old(words)@.subrange(pos as int, end as int)),
    ensures
        r.wf(),
        r@ == head::<T, W>(old(words)@.subrange(pos as int, end as int)),
        r.size == head_size::<T, W>(old(words)@.subrange(pos as int, end as int)),
        r.size == r@.data.len(),
        shaped::<T>(r@),
        r.words@ == old(words)@.subrange(
            pos + spec_meta_words::<T, W>(),
            pos + head_words::<T, W>(old(words)@.subrange(pos as int, end as int)),
        ),
        final(words)@ == old(words)@.subrange(0, pos + spec_meta_words::<T, W>()) + final(r.words)@
            + old(words)@.subrange(
            pos + head_words::<T, W>(old(words)@.subrange(pos as int, end as int)),
            old(words)@.len() as int,
        ),
{
    let ghost win = words@.subrange(pos as int, end as int);
    let ghost all = words@;
    proof {
        lemma_meta_words::<T, W>();
        lemma_head_shaped::<T, W>(win);
    }
    let count = T::meta_len();
    let size_word = core::mem::size_of::<usize>();
    proof {
        <usize as Pod>::lemma_size(0usize);
        assert(count * size_word <= 48) by (nonlinear_arith)
            requires
                count <= 3,
                size_word <= 16,
        ;
    }
    let mw = crate::round_to_words::<W>(count * size_word);
    let (lo, hi) = words.split_at_mut(pos + mw);
    let ptr = crate::make_fat_ptr::<T, W>(pos + mw, slice_subrange(lo, pos, pos + mw));
    proof {
        assert(lo@.subrange(pos as int, pos + mw) =~= win.subrange(0, mw as int));
    }
    let size = T::size_of_val(ptr.meta.as_slice());
    let dw = crate::round_to_words::<W>(size);
    let (data, rest) = hi.split_at_mut(dw);
    proof {
        let hw = head_words::<T, W>(win) as int;
        assert(data@ =~= win.subrange(mw as int, hw));
        assert(data@ =~= all.subrange(pos + mw, pos + hw));
        assert(lo@ =~= all.subrange(0, pos + mw));
        assert(rest@ =~= all.subrange(pos + hw, all.len() as int));
    }
    FrameMut { meta: ptr.meta, size, words: data }
}

/// Other data in the words of one frame of a run of whole frames leaves a
/// run of whole frames, with that one frame changed and the others as they
/// were.
pub proof fn lemma_frame_replaced<T: Dst, W: Pod>(
    a: Seq<W>,
    m: Seq<W>,
    d: Seq<W>,
    d2: Seq<W>,
    b: Seq<W>,
)
    requires
        meta_ok::<T>(),
        exact::<T, W>(a),
        exact::<T, W>(b),
        m.len() == spec_meta_words::<T, W>(),
        T::spec_size_of_val(decode_meta::<T, W>(m)) <= usize::MAX,
        d.len() == spec_round_to_words::<W>(T::spec_size_of_val(decode_meta::<T, W>(m))),
        d2.len() == d.len(),
    ensures
        exact::<T, W>(a + (m + d)),
        exact::<T, W>(a + (m + d2)),
        exact::<T, W>(a + (m + d2 + b)),
        parse::<T, W>(a + (m + d2)).len() == parse::<T, W>(a).len() + 1,
        parse::<T, W>(a + (m + d + b)).len() == parse::<T, W>(a).len() + 1 + parse::<T, W>(b).len(),
        parse::<T, W>(a + (m + d + b))[parse::<T, W>(a).len() as int] == (FrameView {
            meta: decode_meta::<T, W>(m),
            data: decode_data::<W>(d, T::spec_size_of_val(decode_meta::<T, W>(m))),
        }),
        parse::<T, W>(a + (m + d2 + b)) == parse::<T, W>(a + (m + d + b)).update(
            parse::<T, W>(a).len() as int,
            FrameView {
                meta: decode_meta::<T, W>(m),
                data: decode_data::<W>(d2, T::spec_size_of_val(decode_meta::<T, W>(m))),
            },
        ),
{
    lemma_frame_prepend::<T, W>(m, d, b);
    lemma_frame_prepend::<T, W>(m, d2, b);
    lemma_frame_single::<T, W>(m, d);
    lemma_frame_single::<T, W>(m, d2);
    lemma_parse_concat::<T, W>(a, m + d);
    lemma_parse_concat::<T, W>(a, m + d2);
    lemma_parse_concat::<T, W>(a, m + d + b);
    lemma_parse_concat::<T, W>(a, m + d2 + b);
    let size = T::spec_size_of_val(decode_meta::<T, W>(m));
    let f1 = FrameView { meta: decode_meta::<T, W>(m), data: decode_data::<W>(d, size) };
    let f2 = FrameView { meta: decode_meta::<T, W>(m), data: decode_data::<W>(d2, size) };
    assert(parse::<T, W>(a) + (seq![f2] + parse::<T, W>(b)) =~= (parse::<T, W>(a) + (seq![f1]
        + parse::<T, W>(b))).update(parse::<T, W>(a).len() as int, f2));
}

} // verus!
