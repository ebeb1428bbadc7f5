use stack_dst::buffers::{Ptr2, Ptr8, U8_32};
use stack_dst::{Dst, Fifo, Frame, Object, Slice, StackA, Str, Unsize, ValueA, WidePtr};
use std::sync::atomic::{AtomicUsize, Ordering};

const WORD: usize = std::mem::size_of::<usize>();

/// The wide reference to a whole value, under the given descriptor.
fn whole(word: usize) -> WidePtr {
    WidePtr { addr: 0, meta: vec![word] }
}

fn text(frame: Option<Frame>) -> Option<String> {
    frame.map(|f| String::from_utf8(f.data).unwrap())
}

/// `N` machine words.
#[derive(Debug, PartialEq)]
struct Words<const N: usize>([usize; N]);

impl<const N: usize> Object for Words<N> {
    fn to_raw(&self) -> Vec<u8> {
        let mut r = Vec::new();
        for w in self.0.iter() {
            r.extend(w.to_raw());
        }
        r
    }

    fn from_raw(bytes: &[u8]) -> Self {
        let mut words = [0usize; N];
        for (i, w) in words.iter_mut().enumerate() {
            *w = <usize as Object>::from_raw(&bytes[i * WORD..(i + 1) * WORD]);
        }
        Words(words)
    }
}

/// The table of the interface of anything: the descriptor is the size.
struct Any;

impl Dst for Any {
    fn new() -> Self {
        Any
    }

    fn meta_len() -> usize {
        1
    }

    fn size_of_val(meta: &[usize]) -> usize {
        meta[0]
    }

    fn drop_in_place(&mut self, _meta: &[usize], _data: &[u8]) {}
}

impl<const N: usize> Unsize<Any> for Words<N> {
    fn unsize(&self) -> WidePtr {
        whole(N * WORD)
    }
}

#[test]
// A holder for 8 words of data takes a value of 8 words, and hands one of 9
// words back as it was
fn capacity_boundary() {
    let fits = ValueA::<Any, [usize; 9]>::new(Words([1, 2, 3, 4, 5, 6, 7, 8]));
    let held = fits.ok().unwrap();
    assert_eq!(
        Words::<8>::from_raw(&held.get().unwrap().data),
        Words([1, 2, 3, 4, 5, 6, 7, 8])
    );
    assert_eq!(held.get().unwrap().meta, vec![8 * WORD]);
    let too_long = ValueA::<Any, [usize; 9]>::new(Words([1, 2, 3, 4, 5, 6, 7, 8, 9]));
    assert_eq!(too_long.err(), Some(Words([1, 2, 3, 4, 5, 6, 7, 8, 9])));
    // Nothing but the descriptor fits into one word
    assert!(ValueA::<Any, [usize; 1]>::new(()).is_ok());
    assert!(ValueA::<Any, [usize; 1]>::new(Words([1])).is_err());
    assert!(ValueA::<Any, [usize; 0]>::new(()).is_err());
}

impl Unsize<Any> for () {
    fn unsize(&self) -> WidePtr {
        whole(0)
    }
}

static REPLACED: AtomicUsize = AtomicUsize::new(0);

/// A value of one machine word that counts how often one of its kind is
/// destroyed.
struct Watch(usize);

impl Drop for Watch {
    fn drop(&mut self) {
        REPLACED.fetch_add(1, Ordering::SeqCst);
    }
}

impl Object for Watch {
    fn to_raw(&self) -> Vec<u8> {
        self.0.to_raw()
    }

    fn from_raw(bytes: &[u8]) -> Self {
        Watch(<usize as Object>::from_raw(bytes))
    }
}

/// The table of an interface with `Watch` behind its first entry, and
/// plain words behind the others.
struct Watched;

impl Dst for Watched {
    fn new() -> Self {
        Watched
    }

    fn meta_len() -> usize {
        1
    }

    fn size_of_val(meta: &[usize]) -> usize {
        if meta[0] == 0 {
            WORD
        } else {
            meta[0] * WORD
        }
    }

    fn drop_in_place(&mut self, meta: &[usize], data: &[u8]) {
        if meta[0] == 0 {
            drop(Watch::from_raw(data));
        }
    }
}

#[test]
// `replace` destroys what is held before it knows whether the new value
// fits: if it does not, the holder is left empty
fn replace_destroys_first() {
    let mut val = ValueA::<Watched, Ptr2>::new_stable(Watch(1), |_p| whole(0)).ok().unwrap();
    assert_eq!(REPLACED.load(Ordering::SeqCst), 0);
    assert_eq!(val.get().unwrap().data, 1usize.to_raw());

    // A value that fits takes the place of the one held
    assert!(val.replace_stable(Watch(2), |_p| whole(0)).is_ok());
    assert_eq!(REPLACED.load(Ordering::SeqCst), 1);
    assert_eq!(val.get().unwrap().data, 2usize.to_raw());
    assert!(!val.is_empty());

    // A value that does not fit comes back, and the one held is gone
    let back = val.replace_stable(Words([7, 8]), |_p| whole(2));
    assert_eq!(back, Err(Words([7, 8])));
    assert_eq!(REPLACED.load(Ordering::SeqCst), 2);
    assert!(val.is_empty());
    assert!(val.get().is_none());

    // Nothing is left to destroy
    val.clear();
    assert_eq!(REPLACED.load(Ordering::SeqCst), 2);

    // An empty holder can be filled again
    assert!(val.replace_stable(Words([9]), |_p| whole(1)).is_ok());
    assert_eq!(val.get().unwrap().data, 9usize.to_raw());
    assert_eq!(REPLACED.load(Ordering::SeqCst), 2);
}

#[test]
fn strings_in_a_holder() {
    let mut s = ValueA::<Str, Ptr8>::new_str("Foo").unwrap();
    assert_eq!(text(s.get()), Some("Foo".to_string()));
    assert_eq!(s.get().unwrap().meta, vec![3]);
    s.append_str("Bar").unwrap();
    assert_eq!(text(s.get()), Some("FooBar".to_string()));
    s.truncate(3);
    assert_eq!(text(s.get()), Some("Foo".to_string()));
    s.truncate(10);
    assert_eq!(text(s.get()), Some("Foo".to_string()));
    s.truncate(0);
    assert_eq!(text(s.get()), Some("".to_string()));

    // 7 words of data at most
    let mut s = ValueA::<Str, Ptr8>::empty_str().unwrap();
    assert_eq!(text(s.get()), Some("".to_string()));
    let long = "x".repeat(7 * WORD);
    s.append_str(&long).unwrap();
    assert_eq!(s.append_str("y"), Err(()));
    assert_eq!(text(s.get()), Some(long.clone()));
    assert_eq!(ValueA::<Str, Ptr8>::new_str(&long).map(|v| text(v.get())), Ok(Some(long.clone())));
    let longer = "x".repeat(7 * WORD + 1);
    assert_eq!(ValueA::<Str, Ptr8>::new_str(&longer).err(), Some(&longer[..]));

    // Words of one byte: the descriptor takes a machine word of them
    let val = ValueA::<Str, U8_32>::new_str("Hello, World").unwrap();
    assert_eq!(text(val.get()), Some("Hello, World".to_string()));
    assert!(ValueA::<Str, [u8; 7]>::empty_str().is_err());
    assert!(ValueA::<Str, _>::empty_str_in_buffer([0u8; WORD]).is_ok());
    assert!(ValueA::<Str, _>::new_str_in_buffer([0u8; WORD], "a").is_err());
    assert!(ValueA::<Str, _>::new_str_in_buffer([0u8; WORD + 1], "a").is_ok());

    // A holder that grows
    let mut s = ValueA::<Str, Vec<u16>>::new_str("ab").unwrap();
    for _ in 0..10 {
        s.append_str("cdefg").unwrap();
    }
    assert_eq!(text(s.get()), Some(format!("ab{}", "cdefg".repeat(10))));
    s.clear();
    assert!(s.is_empty());
    assert_eq!(s.append_str("x"), Err(()));
    s.truncate(0);
    assert!(s.is_empty());
}

#[test]
fn sequences_in_a_holder() {
    let mut v = ValueA::<Slice<u32>, Ptr8>::empty_slice().unwrap();
    assert_eq!(v.get().unwrap().meta, vec![0]);
    assert_eq!(v.pop(), None);
    v.append(10).unwrap();
    v.append(20).unwrap();
    v.append(30).unwrap();
    assert_eq!(v.get().unwrap().meta, vec![3]);
    assert_eq!(v.get().unwrap().data, [10u32.to_raw(), 20u32.to_raw(), 30u32.to_raw()].concat());
    assert_eq!(v.pop(), Some(30));
    assert_eq!(v.pop(), Some(20));
    assert_eq!(v.get().unwrap().meta, vec![1]);
    assert_eq!(v.get().unwrap().data, 10u32.to_raw());

    // 7 words of data: 14 items of four bytes
    assert_eq!(v.extend((0..13).collect::<Vec<u32>>()), Ok(()));
    assert_eq!(v.get().unwrap().meta, vec![14]);
    assert_eq!(v.append(99), Err(99));
    assert_eq!(v.extend(vec![1, 2, 3]), Err((1, vec![2, 3])));
    assert_eq!(v.extend(vec![]), Ok(()));
    assert_eq!(v.pop(), Some(12));
    assert_eq!(v.extend(vec![5, 6, 7]), Err((6, vec![7])));
    assert_eq!(v.pop(), Some(5));

    let v = ValueA::<Slice<u64>, Ptr2>::empty_slice().unwrap();
    let v = v.appended(1).ok().unwrap();
    let (v, back) = v.appended(2).err().unwrap();
    assert_eq!(back, 2);
    assert_eq!(v.get().unwrap().data, 1u64.to_raw());

    let v = ValueA::<Slice<u8>, [u64; 3]>::empty_slice_with_buffer([0; 3]).unwrap();
    let v = v.extended(vec![1, 2, 3]).ok().unwrap();
    assert_eq!(v.get().unwrap().data, vec![1, 2, 3]);
    let (v, item, rest) = v.extended((4..30).collect()).err().unwrap();
    assert_eq!(v.get().unwrap().data, (1..17).collect::<Vec<u8>>());
    assert_eq!(item, 17);
    assert_eq!(rest, (18..30).collect::<Vec<u8>>());

    assert!(ValueA::<Slice<u8>, [usize; 0]>::empty_slice().is_err());
}

/// A boxed form of four words: one word that stands for where they are.
struct Boxed(usize);

impl Object for Boxed {
    fn to_raw(&self) -> Vec<u8> {
        self.0.to_raw()
    }

    fn from_raw(bytes: &[u8]) -> Self {
        Boxed(<usize as Object>::from_raw(bytes))
    }
}

impl Unsize<Any> for Boxed {
    fn unsize(&self) -> WidePtr {
        whole(WORD)
    }
}

#[test]
fn what_does_not_fit_is_boxed() {
    let val = Words([1usize, 2, 3, 4]);
    assert!(ValueA::<Any, Ptr2>::new(Words([1usize, 2, 3, 4])).is_err());
    let v = ValueA::<Any, Ptr2>::new_or_boxed(val, |w| Boxed(w.0[0] + 100));
    assert_eq!(v.get().unwrap().data, 101usize.to_raw());
    let v = ValueA::<Any, Ptr2>::new_or_boxed(Words([5]), |w| Boxed(w.0[0] + 100));
    assert_eq!(v.get().unwrap().data, 5usize.to_raw());
    let v = ValueA::<Any, _>::in_buffer([0usize; 3], Words([5, 6])).ok().unwrap();
    assert_eq!(v.get().unwrap().data, [5usize.to_raw(), 6usize.to_raw()].concat());
    let mut v = v;
    assert!(v.replace(Words([8])).is_ok());
    assert_eq!(v.get().unwrap().data, 8usize.to_raw());
    assert_eq!(v.replace(Words([1, 2, 3])), Err(Words([1, 2, 3])));
    assert!(v.is_empty());
}

#[test]
// A stack in a buffer that grows: what is on it moves to the new end
fn stack_grows() {
    let mut stack = StackA::<Str, Vec<u64>>::new();
    assert!(stack.is_empty());
    for i in 0..20 {
        stack.push_str(&format!("item {}", i)).unwrap();
        assert_eq!(text(stack.top()), Some(format!("item {}", i)));
    }
    stack.push_str("a much longer string that takes several words").unwrap();
    let mut it = stack.iter();
    assert_eq!(
        text(it.next()),
        Some("a much longer string that takes several words".to_string())
    );
    for i in (0..20).rev() {
        assert_eq!(text(it.next()), Some(format!("item {}", i)));
    }
    assert_eq!(text(it.next()), None);
    assert_eq!(text(it.next()), None);
    stack.pop();
    for i in (0..20).rev() {
        assert_eq!(text(stack.top()), Some(format!("item {}", i)));
        stack.pop();
    }
    assert!(stack.is_empty());
    assert_eq!(text(stack.top()), None);
}

#[test]
fn stack_of_sequences() {
    let mut stack = StackA::<Slice<u16>, Ptr8>::new();
    stack.push_copied(&[1, 2, 3]).unwrap();
    stack.push_cloned(&[4]).unwrap();
    stack.push_from_iter(3, |i| Some(i as u16 * 10)).unwrap();
    stack.push(7u16).unwrap();
    // All 8 words are in use: each of the four takes two
    assert_eq!(stack.push_copied(&[9]), Err(()));
    assert_eq!(stack.push(9u16), Err(9));
    stack.pop();
    stack.push(7u16).unwrap();
    let mut it = stack.iter();
    assert_eq!(it.next().map(|f| (f.meta, f.data)), Some((vec![1], vec![7, 0])));
    assert_eq!(
        it.next().map(|f| (f.meta, f.data)),
        Some((vec![3], vec![0, 0, 10, 0, 20, 0]))
    );
    assert_eq!(it.next().map(|f| (f.meta, f.data)), Some((vec![1], vec![4, 0])));
    assert_eq!(it.next().map(|f| (f.meta, f.data)), Some((vec![3], vec![1, 0, 2, 0, 3, 0])));
    assert_eq!(it.next(), None);
}

#[test]
fn stack_is_written_over() {
    let mut list = StackA::<Slice<u8>, Ptr8>::new();
    list.push_copied(&[1, 2, 3]).unwrap();
    list.push_copied(&[9]).unwrap();
    {
        let mut it = list.iter_mut();
        while let Some(v) = it.next() {
            let mut data = v.get().data;
            data[0] -= 1;
            v.set(&data);
        }
    }
    let mut it = list.iter();
    assert_eq!(it.next().map(|f| f.data), Some(vec![8]));
    assert_eq!(it.next().map(|f| f.data), Some(vec![0, 2, 3]));
    assert_eq!(it.next(), None);

    let top = list.top_mut().unwrap();
    assert_eq!(top.get().data, vec![8]);
    top.set(&[5]);
    assert_eq!(list.top().map(|f| f.data), Some(vec![5]));
    list.pop();
    list.pop();
    assert!(list.top_mut().is_none());
    assert!(list.iter_mut().next().is_none());
}

#[test]
// A list that has dead words before its first value moves its values to the
// start of the buffer when that makes room
fn fifo_compacts() {
    let mut list = Fifo::<Str, Ptr8>::new();
    list.push_back_str("a").unwrap();
    list.push_back_str("b").unwrap();
    list.push_back_str("c").unwrap();
    list.push_back_str("d").unwrap();
    // The buffer is full
    assert_eq!(list.push_back_str("e"), Err(()));
    list.pop_front().unwrap().drop();
    list.pop_front().unwrap().drop();
    // Two words behind the write position would do, and there are none
    list.push_back_str("e").unwrap();
    // Three words are too many even so
    assert_eq!(list.push_back_str("0123456789abcdef"), Err(()));
    list.push_back_str("f").unwrap();
    assert_eq!(list.push_back_str("g"), Err(()));
    let mut it = list.iter();
    assert_eq!(text(it.next()), Some("c".to_string()));
    assert_eq!(text(it.next()), Some("d".to_string()));
    assert_eq!(text(it.next()), Some("e".to_string()));
    assert_eq!(text(it.next()), Some("f".to_string()));
    assert_eq!(text(it.next()), None);
    list.pop_front().unwrap().drop();
    list.compact();
    assert_eq!(text(list.front()), Some("d".to_string()));
    list.compact();
    assert_eq!(text(list.front()), Some("d".to_string()));
    list.push_back_str("h").unwrap();
    list.clear();
    assert!(list.empty());
    assert!(list.pop_front().is_none());
    assert_eq!(text(list.front()), None);
    list.push_back_str("0123456789abcdef0123456789abcdef0123456789abcdef").unwrap();
    assert_eq!(
        text(list.front()),
        Some("0123456789abcdef0123456789abcdef0123456789abcdef".to_string())
    );
}

#[test]
fn fifo_grows() {
    let mut buf = Fifo::<Str, Vec<u8>>::new();
    buf.push_back_str("Hello world!").unwrap();
    buf.push_back_str("This is a very long string").unwrap();
    buf.push_back_str("The buffer should keep growing as it needs to").unwrap();
    let handle = buf.pop_front().unwrap();
    assert_eq!(text(Some(handle.get())), Some("Hello world!".to_string()));
    handle.drop();
    buf.push_back_str("").unwrap();
    let mut it = buf.iter();
    assert_eq!(text(it.next()), Some("This is a very long string".to_string()));
    assert_eq!(
        text(it.next()),
        Some("The buffer should keep growing as it needs to".to_string())
    );
    assert_eq!(text(it.next()), Some("".to_string()));
    assert_eq!(text(it.next()), None);
}

#[test]
fn fifo_of_sequences() {
    let mut queue = Fifo::<Slice<usize>, [usize; 16]>::with_buffer([0; 16]);
    queue.push_copied(&[1]).unwrap();
    queue.push_cloned(&[2, 3]).unwrap();
    queue.push_from_iter(3, |i| Some(i + 4)).unwrap();
    queue.push_back(7usize).unwrap();
    queue.push_back_stable(8usize, |_p| whole(1)).unwrap();
    let mut got = Vec::new();
    let mut it = queue.iter();
    while let Some(f) = it.next() {
        got.push((f.meta[0], f.data.chunks(WORD).map(usize::from_raw).collect::<Vec<_>>()));
    }
    assert_eq!(
        got,
        vec![(1, vec![1]), (2, vec![2, 3]), (3, vec![4, 5, 6]), (1, vec![7]), (1, vec![8])]
    );
    // 13 words are in use
    assert_eq!(queue.push_copied(&[1, 2, 3]), Err(()));
    assert_eq!(queue.push_back(9usize), Ok(()));
    assert_eq!(queue.push_back(10usize), Err(10));
}

#[test]
fn fifo_is_written_over() {
    let mut list = Fifo::<Slice<u8>, Ptr8>::new();
    list.push_copied(&[1, 2, 3]).unwrap();
    list.push_copied(&[9]).unwrap();
    {
        let mut it = list.iter_mut();
        while let Some(v) = it.next() {
            let mut data = v.get().data;
            data[0] -= 1;
            v.set(&data);
        }
    }
    let mut it = list.iter();
    assert_eq!(it.next().map(|f| f.data), Some(vec![0, 2, 3]));
    assert_eq!(it.next().map(|f| f.data), Some(vec![8]));
    assert_eq!(it.next(), None);

    let front = list.front_mut().unwrap();
    assert_eq!(front.get().meta, vec![3]);
    front.set(&[7, 7, 7]);
    assert_eq!(list.front().map(|f| f.data), Some(vec![7, 7, 7]));
    list.clear();
    assert!(list.front_mut().is_none());
    assert!(list.iter_mut().next().is_none());
}

#[test]
fn retain_keeps_in_order() {
    let mut list = Fifo::<Slice<u8>, [u32; 32]>::with_buffer([0; 32]);
    for n in 0..6u8 {
        list.push_copied(&vec![n; n as usize]).unwrap();
    }
    // All stay
    list.retain(|_f| true);
    assert_eq!(list.iter().next().map(|f| f.meta), Some(vec![0]));
    // Those of even length stay
    list.retain(|f| f.data.len() % 2 == 0);
    let mut it = list.iter();
    assert_eq!(it.next().map(|f| f.data), Some(vec![]));
    assert_eq!(it.next().map(|f| f.data), Some(vec![2, 2]));
    assert_eq!(it.next().map(|f| f.data), Some(vec![4, 4, 4, 4]));
    assert_eq!(it.next(), None);
    // What was freed can be used
    list.push_copied(&[7; 20]).unwrap();
    list.retain(|f| f.data.len() > 2);
    assert_eq!(list.front().map(|f| f.data), Some(vec![4, 4, 4, 4]));
    // None stays
    list.retain(|_f| false);
    assert!(list.empty());
    list.retain(|_f| true);
    assert!(list.empty());
}

static GUARDED: AtomicUsize = AtomicUsize::new(0);

/// An item of two bytes that counts how often one of its kind is destroyed.
struct Guarded(u16);

impl Drop for Guarded {
    fn drop(&mut self) {
        GUARDED.fetch_add(1, Ordering::SeqCst);
    }
}

impl Object for Guarded {
    fn to_raw(&self) -> Vec<u8> {
        self.0.to_raw()
    }

    fn from_raw(bytes: &[u8]) -> Self {
        Guarded(<u16 as Object>::from_raw(bytes))
    }
}

#[test]
// A push that is given up at the third of four items destroys the two that
// were written, once each, and leaves the list as it was; the items of the
// list are destroyed once each when it is cleared
fn guard_undoes_a_push() {
    let mut list = Fifo::<Slice<Guarded>, Ptr8>::new();
    list.push_from_iter(2, |i| Some(Guarded(i as u16))).unwrap();
    assert_eq!(GUARDED.load(Ordering::SeqCst), 0);
    let r = list.push_from_iter(4, |i| if i == 2 { None } else { Some(Guarded(10 + i as u16)) });
    assert_eq!(r, Err(()));
    assert_eq!(GUARDED.load(Ordering::SeqCst), 2);
    let mut it = list.iter();
    assert_eq!(it.next().map(|f| (f.meta, f.data)), Some((vec![2], vec![0, 0, 1, 0])));
    assert_eq!(it.next(), None);
    // The words that were taken are free again
    list.push_from_iter(16, |i| Some(Guarded(i as u16))).unwrap();
    // No room: the generator is not asked
    assert_eq!(list.push_from_iter(1, |_i| -> Option<Guarded> { panic!() }), Err(()));
    assert_eq!(list.push_from_iter(100, |_i| -> Option<Guarded> { panic!() }), Err(()));
    assert_eq!(GUARDED.load(Ordering::SeqCst), 2);
    // No item: nothing to undo
    list.pop_front().unwrap().drop();
    assert_eq!(GUARDED.load(Ordering::SeqCst), 4);
    assert_eq!(list.push_from_iter(1, |_i| None), Err(()));
    assert_eq!(GUARDED.load(Ordering::SeqCst), 4);
    assert_eq!(list.front().map(|f| f.meta), Some(vec![16]));
    list.clear();
    assert_eq!(GUARDED.load(Ordering::SeqCst), 4 + 16);
    list.clear();
    assert_eq!(GUARDED.load(Ordering::SeqCst), 4 + 16);
}

/// A table that keeps what it is given to destroy.
struct Keeping {
    gone: Vec<(usize, Vec<u8>)>,
}

impl Dst for Keeping {
    fn new() -> Self {
        Keeping { gone: Vec::new() }
    }

    fn meta_len() -> usize {
        1
    }

    fn size_of_val(meta: &[usize]) -> usize {
        meta[0]
    }

    fn drop_in_place(&mut self, meta: &[usize], data: &[u8]) {
        self.gone.push((meta[0], data.to_vec()));
    }
}

#[test]
// Every value of a container is destroyed once, when it leaves: the top one
// first for a stack, the oldest first for a list, the one held for a holder
fn each_value_is_destroyed_once() {
    let mut stack = StackA::<Keeping, [u16; 32]>::with_buffer([0; 32]);
    for n in 1..=4u8 {
        stack.push_stable(n, |_p| whole(1)).unwrap();
    }
    assert!(stack.table().gone.is_empty());
    stack.pop();
    assert_eq!(stack.table().gone, vec![(1, vec![4])]);
    stack.clear();
    assert_eq!(
        stack.table().gone,
        vec![(1, vec![4]), (1, vec![3]), (1, vec![2]), (1, vec![1])]
    );
    stack.clear();
    stack.pop();
    assert_eq!(stack.table().gone.len(), 4);

    let mut list = Fifo::<Keeping, [u16; 32]>::with_buffer([0; 32]);
    for n in 1..=5u16 {
        list.push_back_stable(n, |_p| whole(2)).unwrap();
    }
    list.pop_front().unwrap().drop();
    list.retain(|f| f.data[0] % 2 == 1);
    assert_eq!(list.table().gone, vec![(2, vec![1, 0]), (2, vec![2, 0]), (2, vec![4, 0])]);
    list.clear();
    assert_eq!(
        list.table().gone,
        vec![
            (2, vec![1, 0]),
            (2, vec![2, 0]),
            (2, vec![4, 0]),
            (2, vec![3, 0]),
            (2, vec![5, 0])
        ]
    );

    let mut held = ValueA::<Keeping, [u8; 16]>::new_stable(7u32, |_p| whole(4)).ok().unwrap();
    assert!(held.table().gone.is_empty());
    held.replace_stable(9u8, |_p| whole(1)).unwrap();
    assert_eq!(held.table().gone, vec![(4, vec![7, 0, 0, 0])]);
    held.clear();
    held.clear();
    assert_eq!(held.table().gone, vec![(4, vec![7, 0, 0, 0]), (1, vec![9])]);
}
