//! What holds of the containers whatever they hold: laws that follow from
//! the contracts of their operations, stated over their views.
use crate::bytes::{bytes_of, spec_round_to_words};
use crate::data_buf::Pod;
use crate::frame::{
    decode_data, decode_meta, exact, kept, lemma_frame_prepend, lemma_kept_push, meta_ok, negated,
    parse, spec_meta_words, Dst, FrameView,
};
use crate::lemma_usizes_of_bytes;
use vstd::prelude::*;
use vstd::seq_lib::{lemma_multiset_commutative, to_multiset_build};

verus! {

/// Round trip. Words that start with the byte image of a descriptor, and
/// words that start with the bytes of the value that it describes, are read
/// back as that descriptor and those bytes: what a push writes is what a
/// later read gives, whatever the other bytes of those words are, and
/// whatever frames come behind.
pub proof fn lemma_round_trip<T: Dst, W: Pod>(
    mwords: Seq<W>,
    dwords: Seq<W>,
    rest: Seq<W>,
    meta: Seq<usize>,
    data: Seq<u8>,
)
    requires
        meta_ok::<T>(),
        meta.len() == T::spec_meta_len(),
        data.len() == T::spec_size_of_val(meta),
        data.len() <= usize::MAX,
        mwords.len() == spec_meta_words::<T, W>(),
        dwords.len() == spec_round_to_words::<W>(data.len()),
        bytes_of(meta).len() <= bytes_of(mwords).len(),
        bytes_of(mwords).subrange(0, bytes_of(meta).len() as int) == bytes_of(meta),
        data.len() <= bytes_of(dwords).len(),
        bytes_of(dwords).subrange(0, data.len() as int) == data,
        exact::<T, W>(rest),
    ensures
        exact::<T, W>(mwords + dwords + rest),
        parse::<T, W>(mwords + dwords + rest) == seq![FrameView { meta, data }] + parse::<T, W>(
            rest,
        ),
        parse::<T, W>(mwords + dwords + rest)[0] == (FrameView { meta, data }),
{
    lemma_usizes_of_bytes(meta, bytes_of(mwords));
    assert(decode_meta::<T, W>(mwords) == meta);
    assert(decode_data::<W>(dwords, data.len()) == data);
    lemma_frame_prepend::<T, W>(mwords, dwords, rest);
}

/// Fifo order. Two values pushed onto the back of a list come out behind
/// those that were in it, the first before the second. For a list that was
/// empty, the front is the first, and once that is popped, the second.
pub proof fn lemma_fifo_order(list: Seq<FrameView>, a: FrameView, b: FrameView)
    ensures
        list.push(a).push(b).subrange(0, list.len() as int) == list,
        list.push(a).push(b)[list.len() as int] == a,
        list.push(a).push(b)[list.len() as int + 1] == b,
        list.len() > 0 ==> list.push(a).push(b)[0] == list[0],
        list.len() == 0 ==> list.push(a).push(b)[0] == a && list.push(a).push(
            b,
        ).drop_first()[0] == b,
{
    assert(list.push(a).push(b).subrange(0, list.len() as int) =~= list);
}

/// Stack order. Of two values pushed onto a stack, the second is on top,
/// and once that is popped, the first, and below it the stack as it was.
pub proof fn lemma_stack_order(stack: Seq<FrameView>, a: FrameView, b: FrameView)
    ensures
        (seq![b] + (seq![a] + stack))[0] == b,
        (seq![b] + (seq![a] + stack)).drop_first()[0] == a,
        (seq![b] + (seq![a] + stack)).drop_first().drop_first() == stack,
{
    assert((seq![b] + (seq![a] + stack)).drop_first() =~= seq![a] + stack);
    assert((seq![a] + stack).drop_first() =~= stack);
}

/// Retain. Every value of the list is among those that are kept or among
/// those that are destroyed, as often as it was in the list: none is lost,
/// and none is destroyed that is kept. So a list that is cleared after
/// `retain` has destroyed each of its values once.
pub proof fn lemma_retain_once(frames: Seq<FrameView>, keep: Seq<bool>)
    requires
        keep.len() == frames.len(),
    ensures
        kept(frames, keep).to_multiset().add(kept(frames, negated(keep)).to_multiset())
            == frames.to_multiset(),
        (kept(frames, negated(keep)) + kept(frames, keep)).to_multiset() == frames.to_multiset(),
        kept(frames, keep).len() + kept(frames, negated(keep)).len() == frames.len(),
    decreases frames.len(),
{
    broadcast use vstd::multiset::group_multiset_axioms;

    let yes = kept(frames, keep);
    let no = kept(frames, negated(keep));
    if frames.len() == 0 {
        assert(frames.to_multiset() =~= yes.to_multiset().add(no.to_multiset())) by {
            frames.to_multiset_ensures();
            yes.to_multiset_ensures();
            no.to_multiset_ensures();
            assert(yes =~= frames);
            assert(no =~= frames);
        }
    } else {
        let front = frames.drop_last();
        let f = frames.last();
        let b = keep.last();
        lemma_retain_once(front, keep.drop_last());
        lemma_kept_push(front, keep.drop_last(), f, b);
        assert(front.push(f) =~= frames);
        assert(keep.drop_last().push(b) =~= keep);
        to_multiset_build(front, f);
        to_multiset_build(kept(front, keep.drop_last()), f);
        to_multiset_build(kept(front, negated(keep.drop_last())), f);
        assert(frames.to_multiset() =~= yes.to_multiset().add(no.to_multiset()));
    }
    lemma_multiset_commutative(no, yes);
    assert((no + yes).to_multiset() =~= frames.to_multiset());
}

/// Retain keeps the order: the values that are kept are in the order in
/// which they were, that is, `kept` picks its values from the list at
/// places that go up.
pub proof fn lemma_retain_order(frames: Seq<FrameView>, keep: Seq<bool>) -> (at: Seq<int>)
    requires
        keep.len() == frames.len(),
    ensures
        at.len() == kept(frames, keep).len(),
        forall|i: int| 0 <= i < at.len() ==> 0 <= #[trigger] at[i] < frames.len() && keep[at[i]],
        forall|i: int| 0 <= i < at.len() ==> kept(frames, keep)[i] == frames[#[trigger] at[i]],
        forall|i: int, j: int| 0 <= i < j < at.len() ==> #[trigger] at[i] < #[trigger] at[j],
        forall|k: int|
            0 <= k < frames.len() && keep[k] ==> exists|i: int|
                0 <= i < at.len() && #[trigger] at[i] == k,
    decreases frames.len(),
{
    if frames.len() == 0 {
        Seq::empty()
    } else {
        let front = lemma_retain_order(frames.drop_last(), keep.drop_last());
        let last = frames.len() - 1;
        if keep.last() {
            let at = front.push(last);
            assert forall|k: int| 0 <= k < frames.len() && keep[k] implies exists|i: int|
                0 <= i < at.len() && #[trigger] at[i] == k by {
                if k == last {
                    assert(at[at.len() - 1] == k);
                } else {
                    assert(keep.drop_last()[k]);
                    let i = choose|i: int| 0 <= i < front.len() && #[trigger] front[i] == k;
                    assert(at[i] == k);
                }
            }
            at
        } else {
            assert forall|k: int| 0 <= k < frames.len() && keep[k] implies exists|i: int|
                0 <= i < front.len() && #[trigger] front[i] == k by {
                assert(keep.drop_last()[k]);
            }
            front
        }
    }
}

} // verus!
