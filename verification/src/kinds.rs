//! The two element interfaces that the containers know by name: strings and
//! sequences of items of one type.
use crate::frame::{Dst, FrameView, Object, Unsize, WidePtr};
use core::marker::PhantomData;
use vstd::layout::size_of;
use vstd::prelude::*;
use vstd::slice::slice_subrange;

verus! {

/// The interface of strings: the descriptor is the length in bytes, and the
/// data is the text in UTF-8. A string has nothing to destroy.
pub struct Str {
    log: Ghost<Seq<FrameView>>,
}

impl Dst for Str {
    open spec fn spec_meta_len() -> nat {
        1
    }

    open spec fn spec_size_of_val(meta: Seq<usize>) -> nat {
        meta[0] as nat
    }

    closed spec fn destroyed(&self) -> Seq<FrameView> {
        self.log@
    }

    fn new() -> (r: Self) {
        Str { log: Ghost(Seq::empty()) }
    }

    fn meta_len() -> (r: usize) {
        1
    }

    fn size_of_val(meta: &[usize]) -> (r: usize) {
        meta[0]
    }

    fn drop_in_place(&mut self, meta: &[usize], data: &[u8]) {
        self.log = Ghost(self.log@.push(FrameView { meta: meta@, data: data@ }));
    }
}

/// The interface of sequences of items of type `I`: the descriptor is the
/// number of items, and the data is the items' images, one after the other.
/// A sequence is destroyed item by item, first to last.
pub struct Slice<I> {
    log: Ghost<Seq<FrameView>>,
    _pd: PhantomData<I>,
}

impl<I: Object> Dst for Slice<I> {
    open spec fn spec_meta_len() -> nat {
        1
    }

    open spec fn spec_size_of_val(meta: Seq<usize>) -> nat {
        (meta[0] * size_of::<I>()) as nat
    }

    closed spec fn destroyed(&self) -> Seq<FrameView> {
        self.log@
    }

    fn new() -> (r: Self) {
        Slice { log: Ghost(Seq::empty()), _pd: PhantomData }
    }

    fn meta_len() -> (r: usize) {
        1
    }

    fn size_of_val(meta: &[usize]) -> (r: usize) {
        meta[0] * core::mem::size_of::<I>()
    }

    fn drop_in_place(&mut self, meta: &[usize], data: &[u8]) {
        let count = meta[0];
        let size = core::mem::size_of::<I>();
        let len = data.len();
        let mut k: usize = 0;
        while k < count
            invariant
                k <= count,
                size == size_of::<I>(),
                data@.len() == len,
                len == count * size,
            decreases count - k,
        {
            assert(0 <= k * size <= (k + 1) * size <= count * size && (k + 1) * size - k * size
                == size) by (nonlinear_arith)
                requires
                    0 <= k < count,
                    size >= 0,
            ;
            // The item is made of its bytes again, and goes as any value of its type does
            let _item = I::from_raw(slice_subrange(data, k * size, (k + 1) * size));
            k += 1;
        }
        self.log = Ghost(self.log@.push(FrameView { meta: meta@, data: data@ }));
    }
}

/// One item is a sequence of one item.
impl<I: Object> Unsize<Slice<I>> for I {
    open spec fn spec_unsize(&self) -> Seq<usize> {
        seq![1usize]
    }

    fn unsize(&self) -> (r: WidePtr) {
        let mut meta: Vec<usize> = Vec::new();
        meta.push(1);
        proof {
            assert(meta@ =~= seq![1usize]);
            assert(1 * size_of::<I>() == size_of::<I>()) by (nonlinear_arith);
        }
        WidePtr { addr: 0, meta }
    }
}

/// The images of a run of items, one after the other.
pub open spec fn images_of<I: Object>(items: Seq<I>) -> Seq<u8>
    decreases items.len(),
{
    if items.len() == 0 {
        Seq::empty()
    } else {
        images_of(items.drop_last()) + items.last().image()
    }
}

/// The number of bytes that `count` items of type `I` take.
pub open spec fn items_bytes<I>(count: nat) -> nat {
    count * size_of::<I>()
}

/// The bytes of item `i` in the images of a run of items of type `I`.
pub open spec fn item_at<I>(image: Seq<u8>, i: int) -> Seq<u8> {
    image.subrange(i * size_of::<I>(), (i + 1) * size_of::<I>())
}

/// The generator can give, for the index `i`, an item with the given bytes.
pub open spec fn gives<I: Object, G: Fn(usize) -> Option<I>>(gen: G, i: int, bytes: Seq<u8>) -> bool {
    exists|item: I| #[trigger] call_ensures(gen, (i as usize,), Some(item)) && item.image() == bytes
}

/// `image` is made of `n` items that the generator can give, in order: item
/// `i` is one that the generator gives for `i`.
pub open spec fn generated<I: Object, G: Fn(usize) -> Option<I>>(
    gen: G,
    n: nat,
    image: Seq<u8>,
) -> bool {
    &&& image.len() == n * size_of::<I>()
    &&& forall|i: int| 0 <= i < n ==> #[trigger] gives::<I, G>(gen, i, item_at::<I>(image, i))
}

/// The bytes are those of a clone of the item.
pub open spec fn clone_of<I: Object + Clone>(item: I, bytes: Seq<u8>) -> bool {
    exists|copy: I| #[trigger] cloned::<I>(item, copy) && copy.image() == bytes
}

/// `image` is made of clones of the given items, in order.
pub open spec fn cloned_items<I: Object + Clone>(items: Seq<I>, image: Seq<u8>) -> bool {
    &&& image.len() == items.len() * size_of::<I>()
    &&& forall|i: int|
        0 <= i < items.len() ==> #[trigger] clone_of::<I>(items[i], item_at::<I>(image, i))
}

/// What pushing `count` items from a generator onto a list comes to, where
/// there is room for them. The generator gave `k` items, whose images are
/// `image`. If those are all, the push succeeds: the list has a sequence of
/// them as its new value `added`, and nothing has been destroyed. If not, the generator gave
/// no item for `k`: the list has no new value, and the `k` items have been
/// destroyed as one sequence.
pub open spec fn pushed_from<I: Object, G: Fn(usize) -> Option<I>>(
    gen: G,
    count: usize,
    k: int,
    image: Seq<u8>,
    r: Result<(), ()>,
    added: Seq<FrameView>,
    destroyed: Seq<FrameView>,
) -> bool {
    &&& 0 <= k <= count
    &&& generated::<I, G>(gen, k as nat, image)
    &&& if k == count {
        &&& r is Ok
        &&& added == seq![FrameView { meta: seq![count], data: image }]
        &&& destroyed == Seq::<FrameView>::empty()
    } else {
        &&& r is Err
        &&& call_ensures(gen, (k as usize,), None::<I>)
        &&& added == Seq::<FrameView>::empty()
        &&& destroyed == seq![FrameView { meta: seq![k as usize], data: image }]
    }
}

/// The images of a run of items, one after the other.
pub fn concat_images<I: Object>(items: &[I]) -> (r: Vec<u8>)
    ensures
        r@ == images_of(items@),
        r@.len() == items_bytes::<I>(items@.len()),
{
    let mut r: Vec<u8> = Vec::new();
    let mut i: usize = 0;
    proof {
        assert(images_of(items@.subrange(0, 0)) =~= Seq::<u8>::empty());
        assert(0 * size_of::<I>() == 0) by (nonlinear_arith);
    }
    while i < items.len()
        invariant
            i <= items@.len(),
            r@ == images_of(items@.subrange(0, i as int)),
            r@.len() == i * size_of::<I>(),
        decreases items@.len() - i,
    {
        let mut image = items[i].to_raw();
        proof {
            assert(items@.subrange(0, i + 1).drop_last() =~= items@.subrange(0, i as int));
            assert(i * size_of::<I>() + size_of::<I>() == (i + 1) * size_of::<I>())
                by (nonlinear_arith);
        }
        r.append(&mut image);
        i += 1;
    }
    proof {
        assert(items@.subrange(0, items@.len() as int) =~= items@);
    }
    r
}

} // verus!
