use stack_dst::buffers::{Ptr16, Ptr8};
use stack_dst::{Dst, Fifo, Frame, Object, Slice, WidePtr};
use std::sync::atomic::{AtomicUsize, Ordering};

type DstFifo<T> = Fifo<T, Ptr8>;

/// The wide reference to a whole value, under the given descriptor.
fn whole(word: usize) -> WidePtr {
    WidePtr { addr: 0, meta: vec![word] }
}

/// The table of an interface with one kind of value behind it: a `u32` that
/// can be compared with another.
struct EqU32;

impl Dst for EqU32 {
    fn new() -> Self {
        EqU32
    }

    fn meta_len() -> usize {
        1
    }

    fn size_of_val(_meta: &[usize]) -> usize {
        4
    }

    fn drop_in_place(&mut self, _meta: &[usize], _data: &[u8]) {}
}

fn eq_u32(frame: &Frame, other: u32) -> bool {
    <u32 as Object>::from_raw(&frame.data) == other
}

#[test]
// A trivial check that ensures that methods are correctly called
fn fifo_trivial_type() {
    let mut val = DstFifo::<EqU32>::new();
    val.push_back_stable(1234u32, |_p: &u32| whole(0)).unwrap();
    val.push_back_stable(1233u32, |_p: &u32| whole(0)).unwrap();
    assert!(eq_u32(&val.front().unwrap(), 1234));
    assert!(!eq_u32(&val.front().unwrap(), 1233));
    val.pop_front().unwrap().drop();
    assert!(!eq_u32(&val.front().unwrap(), 1234));
    assert!(eq_u32(&val.front().unwrap(), 1233));
}

static COUNT: AtomicUsize = AtomicUsize::new(0);

/// An item of one byte that counts how often one of its kind is destroyed.
struct Counted(bool);

impl Drop for Counted {
    fn drop(&mut self) {
        COUNT.fetch_add(1, Ordering::SeqCst);
    }
}

impl Object for Counted {
    fn to_raw(&self) -> Vec<u8> {
        vec![self.0 as u8]
    }

    fn from_raw(bytes: &[u8]) -> Self {
        Counted(bytes[0] != 0)
    }
}

#[test]
// One item is made, the next cannot be: the one that was made is destroyed
// once, and the list is as it was
fn fifo_slice_push_panic_safety() {
    let input = [Counted(false), Counted(true)];
    {
        let mut stack = DstFifo::<Slice<Counted>>::new();
        let r = stack.push_from_iter(input.len(), |i| {
            if input[i].0 {
                None
            } else {
                Some(Counted(input[i].0))
            }
        });
        assert!(r.is_err());
        assert!(stack.empty());
        assert!(stack.front().is_none());
    }
    assert_eq!(COUNT.load(Ordering::SeqCst), 1);
}

static FLAGS: AtomicUsize = AtomicUsize::new(0);

/// A value of one machine word that marks its number when it is destroyed,
/// and must not be destroyed twice.
struct Sentinel(usize);

impl Drop for Sentinel {
    fn drop(&mut self) {
        let flag = 1 << self.0;
        let v = FLAGS.fetch_or(1 << self.0, Ordering::SeqCst);
        assert!(v & flag == 0);
    }
}

impl Object for Sentinel {
    fn to_raw(&self) -> Vec<u8> {
        self.0.to_raw()
    }

    fn from_raw(bytes: &[u8]) -> Self {
        Sentinel(<usize as Object>::from_raw(bytes))
    }
}

/// The table of an interface with `Sentinel` behind it.
struct AsSentinel;

impl Dst for AsSentinel {
    fn new() -> Self {
        AsSentinel
    }

    fn meta_len() -> usize {
        1
    }

    fn size_of_val(_meta: &[usize]) -> usize {
        std::mem::size_of::<usize>()
    }

    fn drop_in_place(&mut self, _meta: &[usize], data: &[u8]) {
        drop(Sentinel::from_raw(data));
    }
}

/// The number of the sentinel in a frame.
fn number(frame: &Frame) -> usize {
    <usize as Object>::from_raw(&frame.data)
}

#[test]
fn retain() {
    let mut stack: Fifo<AsSentinel, Ptr16> = Fifo::new();
    stack.push_back_stable(Sentinel(0), |_v| whole(0)).ok().unwrap();
    stack.push_back_stable(Sentinel(1), |_v| whole(0)).ok().unwrap();
    stack.push_back_stable(Sentinel(2), |_v| whole(0)).ok().unwrap();
    stack.push_back_stable(Sentinel(3), |_v| whole(0)).ok().unwrap();
    stack.push_back_stable(Sentinel(4), |_v| whole(0)).ok().unwrap();

    stack.retain(|v| number(v) > 2);
    assert_eq!(FLAGS.load(Ordering::SeqCst), 0b00_111);
    {
        let mut it = stack.iter();
        assert_eq!(it.next().map(|v| number(&v)), Some(3));
        assert_eq!(it.next().map(|v| number(&v)), Some(4));
        assert_eq!(it.next().map(|v| number(&v)), None);
    }
    stack.clear();
    assert_eq!(FLAGS.load(Ordering::SeqCst), 0b11_111);
}
