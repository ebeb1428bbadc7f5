use stack_dst::buffers::{Ptr2, Ptr8};
use stack_dst::{Dst, Frame, Object, Slice, StackA, Str, WidePtr};
use std::sync::atomic::{AtomicUsize, Ordering};

type DstStack<T> = StackA<T, Ptr8>;

/// The wide reference to a whole value, under the given descriptor.
fn whole(word: usize) -> WidePtr {
    WidePtr { addr: 0, meta: vec![word] }
}

/// The text of a stored string.
fn text(frame: Option<Frame>) -> Option<String> {
    frame.map(|f| String::from_utf8(f.data).unwrap())
}

/// The table of an interface with one kind of value behind it: a `u32` that
/// can be compared with another.
struct EqU32;

impl Dst for EqU32 {
    fn new() -> Self {
        EqU32
    }

    fn meta_len() -> usize {
        1
    }

    fn size_of_val(_meta: &[usize]) -> usize {
        4
    }

    fn drop_in_place(&mut self, _meta: &[usize], _data: &[u8]) {}
}

fn eq_u32(frame: &Frame, other: u32) -> bool {
    <u32 as Object>::from_raw(&frame.data) == other
}

#[test]
// A trivial check that ensures that methods are correctly called
fn stack_trivial_type() {
    let mut val = DstStack::<EqU32>::new();
    val.push_stable(1234u32, |_p: &u32| whole(0)).unwrap();
    val.push_stable(1233u32, |_p: &u32| whole(0)).unwrap();
    assert!(!eq_u32(&val.top().unwrap(), 1234));
    assert!(eq_u32(&val.top().unwrap(), 1233));
    val.pop();
    assert!(eq_u32(&val.top().unwrap(), 1234));
    assert!(!eq_u32(&val.top().unwrap(), 1233));
}

#[test]
fn strings() {
    let mut stack: DstStack<Str> = DstStack::new();
    stack.push_str("\n").unwrap();
    stack.push_str("World").unwrap();
    stack.push_str(" ").unwrap();
    stack.push_str("Hello").unwrap();

    assert_eq!(text(stack.top()), Some("Hello".to_string()));
    stack.pop();
    assert_eq!(text(stack.top()), Some(" ".to_string()));
    stack.pop();
    assert_eq!(text(stack.top()), Some("World".to_string()));
    stack.pop();
    stack.push_str("World").unwrap();
    stack.push_str("Cruel").unwrap();
    assert_eq!(text(stack.top()), Some("Cruel".to_string()));
    stack.pop();
    assert_eq!(text(stack.top()), Some("World".to_string()));
    stack.pop();
    assert_eq!(text(stack.top()), Some("\n".to_string()));
    stack.pop();
    assert_eq!(text(stack.top()), None);
}

#[test]
fn slices() {
    let mut stack: DstStack<Slice<u8>> = DstStack::new();

    stack.push_cloned(b"123").unwrap();
    stack.push_cloned(b"").unwrap();
    stack.push_cloned(b"abcd").unwrap();
    assert_eq!(stack.top().map(|f| f.data), Some(b"abcd".to_vec()));
    stack.pop();
    assert_eq!(stack.top().map(|f| f.data), Some(b"".to_vec()));
    stack.pop();
    assert_eq!(stack.top().map(|f| f.data), Some(b"123".to_vec()));
    stack.pop();
    assert_eq!(stack.top().map(|f| f.data), None);
}

/// The table of the interface of anything: the descriptor is the size.
struct Any;

impl Dst for Any {
    fn new() -> Self {
        Any
    }

    fn meta_len() -> usize {
        1
    }

    fn size_of_val(meta: &[usize]) -> usize {
        meta[0]
    }

    fn drop_in_place(&mut self, _meta: &[usize], _data: &[u8]) {}
}

#[test]
fn limits() {
    let size = std::mem::size_of::<usize>();
    let mut val = StackA::<Any, Ptr2>::new();
    // Pushing when full
    val.push_stable(1usize, |_p| whole(size)).unwrap();
    assert!(val.push_stable(2usize, |_p| whole(size)).is_err());

    // Popping past empty (should stay empty)
    val.pop();
    assert!(val.is_empty());
    val.pop();
    assert!(val.is_empty());

    // Zero-sized types
    val.push_stable((), |_p| whole(0)).unwrap();
    val.push_stable((), |_p| whole(0)).unwrap();
    assert!(val.push_stable((), |_p| whole(0)).is_err());
    val.pop();

    // Pushing a value when there is space, but no enough space for the entire value
    assert!(val.push_stable(1usize, |_p| whole(size)).is_err());
    val.push_stable((), |_p| whole(0)).unwrap();
}

static WATCHED: AtomicUsize = AtomicUsize::new(0);

/// A value of one machine word that counts how often one of its kind is
/// destroyed.
struct DropWatch(usize);

impl Drop for DropWatch {
    fn drop(&mut self) {
        WATCHED.fetch_add(1, Ordering::SeqCst);
    }
}

impl Object for DropWatch {
    fn to_raw(&self) -> Vec<u8> {
        self.0.to_raw()
    }

    fn from_raw(bytes: &[u8]) -> Self {
        DropWatch(<usize as Object>::from_raw(bytes))
    }
}

/// The table of an interface with `DropWatch` behind it.
struct Watched;

impl Dst for Watched {
    fn new() -> Self {
        Watched
    }

    fn meta_len() -> usize {
        1
    }

    fn size_of_val(_meta: &[usize]) -> usize {
        std::mem::size_of::<usize>()
    }

    fn drop_in_place(&mut self, _meta: &[usize], data: &[u8]) {
        drop(DropWatch::from_raw(data));
    }
}

#[test]
fn destructors() {
    let v = &WATCHED;

    let mut stack = StackA::<Watched, Ptr8>::new();
    // Successful pushes shouldn't call destructors
    stack.push_stable(DropWatch(1), |_p| whole(0)).ok().unwrap();
    assert_eq!(v.load(Ordering::SeqCst), 0);
    stack.push_stable(DropWatch(2), |_p| whole(0)).ok().unwrap();
    assert_eq!(v.load(Ordering::SeqCst), 0);
    stack.push_stable(DropWatch(3), |_p| whole(0)).ok().unwrap();
    assert_eq!(v.load(Ordering::SeqCst), 0);
    stack.push_stable(DropWatch(4), |_p| whole(0)).ok().unwrap();
    assert_eq!(v.load(Ordering::SeqCst), 0);
    // Failed push should return the value (which will be dropped)
    assert!(stack.push_stable(DropWatch(5), |_p| whole(0)).is_err());
    assert_eq!(v.load(Ordering::SeqCst), 1);

    // Pop a value, drop increases
    stack.pop();
    assert_eq!(v.load(Ordering::SeqCst), 2);
    // Drop the entire stack, the rest are dropped
    stack.clear();
    assert_eq!(v.load(Ordering::SeqCst), 2 + 3);
}

static CLONED: AtomicUsize = AtomicUsize::new(0);

/// An item of one byte that counts how often one of its kind is destroyed.
struct Sentinel(bool);

impl Drop for Sentinel {
    fn drop(&mut self) {
        CLONED.fetch_add(1, Ordering::SeqCst);
    }
}

impl Object for Sentinel {
    fn to_raw(&self) -> Vec<u8> {
        vec![self.0 as u8]
    }

    fn from_raw(bytes: &[u8]) -> Self {
        Sentinel(bytes[0] != 0)
    }
}

#[test]
// One item is made, the next cannot be: the one that was made is destroyed
// once, and the stack is as it was
fn stack_slice_push_panic_safety() {
    let input = [Sentinel(false), Sentinel(true)];
    {
        let mut stack = StackA::<Slice<Sentinel>, Ptr8>::new();
        let r = stack.push_from_iter(input.len(), |i| {
            if input[i].0 {
                None
            } else {
                Some(Sentinel(input[i].0))
            }
        });
        assert!(r.is_err());
        assert!(stack.is_empty());
        assert!(stack.top().is_none());
    }
    assert_eq!(CLONED.load(Ordering::SeqCst), 1);
}

static UNALIGNED: AtomicUsize = AtomicUsize::new(0);

struct Loose(bool);

impl Drop for Loose {
    fn drop(&mut self) {
        UNALIGNED.fetch_add(1, Ordering::SeqCst);
    }
}

impl Object for Loose {
    fn to_raw(&self) -> Vec<u8> {
        vec![self.0 as u8]
    }

    fn from_raw(bytes: &[u8]) -> Self {
        Loose(bytes[0] != 0)
    }
}

#[test]
// The same, where the words of the buffer are bytes
fn slice_push_panic_safety_unaligned() {
    let input = [
        // 1 good followed by one bad
        Loose(true),
        Loose(false),
    ];
    {
        let mut stack = StackA::<Slice<Loose>, _>::with_buffer([0xFFu8; 32]);
        let r = stack.push_from_iter(input.len(), |i| {
            if !input[i].0 {
                None
            } else {
                Some(Loose(input[i].0))
            }
        });
        assert!(r.is_err());
        assert!(stack.is_empty());
    }
    assert_eq!(UNALIGNED.load(Ordering::SeqCst), 1);
}
