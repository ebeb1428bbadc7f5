use stack_dst::{Dst, Frame, Object, ValueA, WidePtr};
use std::sync::atomic::{AtomicBool, Ordering};

type Value2w<T> = ValueA<T, [usize; 2]>;
type Value8w<T> = ValueA<T, [usize; 8]>;

/// The wide reference to a whole value, under the given table index.
fn whole(index: usize) -> WidePtr {
    WidePtr { addr: 0, meta: vec![index] }
}

/// The table of an interface with one kind of value behind it: a `u32` that
/// can be compared with another.
struct EqU32;

impl Dst for EqU32 {
    fn new() -> Self {
        EqU32
    }

    fn meta_len() -> usize {
        1
    }

    fn size_of_val(_meta: &[usize]) -> usize {
        4
    }

    fn drop_in_place(&mut self, _meta: &[usize], _data: &[u8]) {}
}

fn eq_u32(frame: &Frame, other: u32) -> bool {
    <u32 as Object>::from_raw(&frame.data) == other
}

#[test]
// A trivial check that ensures that methods are correctly called
fn value_trivial_type() {
    let val = Value2w::<EqU32>::new_stable(1234u32, |_p: &u32| whole(0)).ok().unwrap();
    assert!(eq_u32(&val.get().unwrap(), 1234));
    assert!(!eq_u32(&val.get().unwrap(), 1233));
}

static DROPPED: AtomicBool = AtomicBool::new(false);

/// A value that takes no bytes and says so when it is destroyed.
struct Struct;

impl Drop for Struct {
    fn drop(&mut self) {
        DROPPED.store(true, Ordering::SeqCst);
    }
}

impl Object for Struct {
    fn to_raw(&self) -> Vec<u8> {
        Vec::new()
    }

    fn from_raw(_bytes: &[u8]) -> Self {
        Struct
    }
}

/// The table of an interface with `Struct` behind it.
struct DebugTable;

impl Dst for DebugTable {
    fn new() -> Self {
        DebugTable
    }

    fn meta_len() -> usize {
        1
    }

    fn size_of_val(_meta: &[usize]) -> usize {
        0
    }

    fn drop_in_place(&mut self, _meta: &[usize], data: &[u8]) {
        drop(Struct::from_raw(data));
    }
}

#[test]
// Create an instance with a Drop implementation, and ensure the drop handler fires when destructed
fn value_ensure_drop() {
    let mut val = Value2w::<DebugTable>::new_stable(Struct, |_p: &Struct| whole(0)).ok().unwrap();
    assert!(DROPPED.load(Ordering::SeqCst) == false);
    val.clear();
    assert!(DROPPED.load(Ordering::SeqCst) == true);
}

struct OneStruct(u32);

impl Object for OneStruct {
    fn to_raw(&self) -> Vec<u8> {
        self.0.to_raw()
    }

    fn from_raw(bytes: &[u8]) -> Self {
        OneStruct(<u32 as Object>::from_raw(bytes))
    }
}

struct TwoStruct;

impl Object for TwoStruct {
    fn to_raw(&self) -> Vec<u8> {
        Vec::new()
    }

    fn from_raw(_bytes: &[u8]) -> Self {
        TwoStruct
    }
}

/// The table of an interface with a value to get: the first entry is for
/// `OneStruct`, the second for `TwoStruct`.
struct TestTrait;

impl Dst for TestTrait {
    fn new() -> Self {
        TestTrait
    }

    fn meta_len() -> usize {
        1
    }

    fn size_of_val(meta: &[usize]) -> usize {
        match meta[0] {
            0 => 4,
            _ => 0,
        }
    }

    fn drop_in_place(&mut self, _meta: &[usize], _data: &[u8]) {}
}

fn get_value(frame: &Frame) -> u32 {
    match frame.meta[0] {
        0 => OneStruct::from_raw(&frame.data).0,
        _ => 54321,
    }
}

#[test]
fn value_many_instances() {
    fn instance_one() -> Value2w<TestTrait> {
        Value2w::new_stable(OneStruct(12345), |_p: &OneStruct| whole(0)).ok().unwrap()
    }

    fn instance_two() -> Value2w<TestTrait> {
        Value2w::new_stable(TwoStruct, |_p: &TwoStruct| whole(1)).ok().unwrap()
    }

    let i1 = instance_one();
    let i2 = instance_two();
    assert_eq!(get_value(&i1.get().unwrap()), 12345);
    assert_eq!(get_value(&i2.get().unwrap()), 54321);
}

/// A closure that has caught one number, and gives it as text when called.
struct Closure(u64);

impl Object for Closure {
    fn to_raw(&self) -> Vec<u8> {
        self.0.to_raw()
    }

    fn from_raw(bytes: &[u8]) -> Self {
        Closure(<u64 as Object>::from_raw(bytes))
    }
}

/// The table of the interface of things that can be called for a text.
struct FnString;

impl Dst for FnString {
    fn new() -> Self {
        FnString
    }

    fn meta_len() -> usize {
        1
    }

    fn size_of_val(_meta: &[usize]) -> usize {
        8
    }

    fn drop_in_place(&mut self, _meta: &[usize], _data: &[u8]) {}
}

fn call(frame: &Frame) -> String {
    format!("{}", Closure::from_raw(&frame.data).0)
}

#[test]
fn value_closure() {
    let v1 = 1234u64;
    let c: Value8w<FnString> = Value8w::new_stable(Closure(v1), |_p: &Closure| whole(0))
        .map_err(|_| "Oops")
        .unwrap();
    assert_eq!(call(&c.get().unwrap()), "1234");
}

/// `N` machine words.
struct Words<const N: usize>([usize; N]);

impl<const N: usize> Object for Words<N> {
    fn to_raw(&self) -> Vec<u8> {
        let mut r = Vec::new();
        for w in self.0.iter() {
            r.extend(w.to_raw());
        }
        r
    }

    fn from_raw(bytes: &[u8]) -> Self {
        let size = std::mem::size_of::<usize>();
        let mut words = [0usize; N];
        for (i, w) in words.iter_mut().enumerate() {
            *w = <usize as Object>::from_raw(&bytes[i * size..(i + 1) * size]);
        }
        Words(words)
    }
}

/// The table of the interface of anything: the descriptor is the size.
struct Any;

impl Dst for Any {
    fn new() -> Self {
        Any
    }

    fn meta_len() -> usize {
        1
    }

    fn size_of_val(meta: &[usize]) -> usize {
        meta[0]
    }

    fn drop_in_place(&mut self, _meta: &[usize], _data: &[u8]) {}
}

#[test]
fn oversize() {
    const MAX_SIZE_PTRS: usize = 7;
    let size = std::mem::size_of::<usize>();
    assert!(Value8w::<Any>::new_stable(Words([0usize; MAX_SIZE_PTRS]), |_p| WidePtr {
        addr: 0,
        meta: vec![MAX_SIZE_PTRS * size]
    })
    .is_ok());
    assert!(Value8w::<Any>::new_stable(Words([0usize; MAX_SIZE_PTRS + 1]), |_p| WidePtr {
        addr: 0,
        meta: vec![(MAX_SIZE_PTRS + 1) * size]
    })
    .is_err());
}

#[test]
fn option() {
    let size = std::mem::size_of::<usize>();
    // A reference to the text "foo": where it is, and how long
    let foo = Words([0x1000, 3]);
    assert!(
        Some(Value8w::<Any>::new_stable(foo, |_p| WidePtr { addr: 0, meta: vec![2 * size] }).ok().unwrap())
            .is_some()
    );
}
