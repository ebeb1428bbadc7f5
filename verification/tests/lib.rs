use stack_dst::{Dst, Frame, Object, Unsize, ValueA, WidePtr};
use std::sync::atomic::{AtomicBool, Ordering};

/// 8 data words, plus one metadata
const DEFAULT_SIZE: usize = 8 + 1;

type StackDST<T> = ValueA<T, [usize; DEFAULT_SIZE]>;

/// The table of an interface with one kind of value behind it: a `u32` that
/// can be compared with another.
struct EqU32;

impl Dst for EqU32 {
    fn new() -> Self {
        EqU32
    }

    fn meta_len() -> usize {
        1
    }

    fn size_of_val(_meta: &[usize]) -> usize {
        4
    }

    fn drop_in_place(&mut self, _meta: &[usize], _data: &[u8]) {}
}

impl Unsize<EqU32> for u32 {
    fn unsize(&self) -> WidePtr {
        WidePtr { addr: 0, meta: vec![0] }
    }
}

fn eq_u32(frame: &Frame, other: u32) -> bool {
    <u32 as Object>::from_raw(&frame.data) == other
}

#[test]
// A trivial check that ensures that methods are correctly called
fn lib_trivial_type() {
    let val = StackDST::<EqU32>::new(1234u32).unwrap();
    assert!(eq_u32(&val.get().unwrap(), 1234));
    assert!(!eq_u32(&val.get().unwrap(), 1233));
}

static DROPPED: AtomicBool = AtomicBool::new(false);

/// A value that takes no bytes and says so when it is destroyed.
struct Struct;

impl Drop for Struct {
    fn drop(&mut self) {
        DROPPED.store(true, Ordering::SeqCst);
    }
}

impl Object for Struct {
    fn to_raw(&self) -> Vec<u8> {
        Vec::new()
    }

    fn from_raw(_bytes: &[u8]) -> Self {
        Struct
    }
}

/// The table of an interface with `Struct` behind it.
struct DebugTable;

impl Dst for DebugTable {
    fn new() -> Self {
        DebugTable
    }

    fn meta_len() -> usize {
        1
    }

    fn size_of_val(_meta: &[usize]) -> usize {
        0
    }

    fn drop_in_place(&mut self, _meta: &[usize], data: &[u8]) {
        drop(Struct::from_raw(data));
    }
}

impl Unsize<DebugTable> for Struct {
    fn unsize(&self) -> WidePtr {
        WidePtr { addr: 0, meta: vec![0] }
    }
}

#[test]
// Create an instance with a Drop implementation, and ensure the drop handler fires when destructed
fn lib_ensure_drop() {
    let mut val: StackDST<DebugTable> = StackDST::new(Struct).ok().unwrap();
    assert!(DROPPED.load(Ordering::SeqCst) == false);
    val.clear();
    assert!(DROPPED.load(Ordering::SeqCst) == true);
}

struct OneStruct(u32);

impl Object for OneStruct {
    fn to_raw(&self) -> Vec<u8> {
        self.0.to_raw()
    }

    fn from_raw(bytes: &[u8]) -> Self {
        OneStruct(<u32 as Object>::from_raw(bytes))
    }
}

struct TwoStruct;

impl Object for TwoStruct {
    fn to_raw(&self) -> Vec<u8> {
        Vec::new()
    }

    fn from_raw(_bytes: &[u8]) -> Self {
        TwoStruct
    }
}

/// The table of an interface with a value to get: the first entry is for
/// `OneStruct`, the second for `TwoStruct`.
struct TestTrait;

impl Dst for TestTrait {
    fn new() -> Self {
        TestTrait
    }

    fn meta_len() -> usize {
        1
    }

    fn size_of_val(meta: &[usize]) -> usize {
        match meta[0] {
            0 => 4,
            _ => 0,
        }
    }

    fn drop_in_place(&mut self, _meta: &[usize], _data: &[u8]) {}
}

impl Unsize<TestTrait> for OneStruct {
    fn unsize(&self) -> WidePtr {
        WidePtr { addr: 0, meta: vec![0] }
    }
}

impl Unsize<TestTrait> for TwoStruct {
    fn unsize(&self) -> WidePtr {
        WidePtr { addr: 0, meta: vec![1] }
    }
}

fn get_value(frame: &Frame) -> u32 {
    match frame.meta[0] {
        0 => OneStruct::from_raw(&frame.data).0,
        _ => 54321,
    }
}

#[test]
fn lib_many_instances() {
    fn instance_one() -> StackDST<TestTrait> {
        StackDST::new(OneStruct(12345)).ok().unwrap()
    }

    fn instance_two() -> StackDST<TestTrait> {
        StackDST::new(TwoStruct).ok().unwrap()
    }

    let i1 = instance_one();
    let i2 = instance_two();
    assert_eq!(get_value(&i1.get().unwrap()), 12345);
    assert_eq!(get_value(&i2.get().unwrap()), 54321);
}

/// A closure that has caught one number, and gives it as text when called.
struct Closure(u64);

impl Object for Closure {
    fn to_raw(&self) -> Vec<u8> {
        self.0.to_raw()
    }

    fn from_raw(bytes: &[u8]) -> Self {
        Closure(<u64 as Object>::from_raw(bytes))
    }
}

/// The table of the interface of things that can be called for a text.
struct FnString;

impl Dst for FnString {
    fn new() -> Self {
        FnString
    }

    fn meta_len() -> usize {
        1
    }

    fn size_of_val(_meta: &[usize]) -> usize {
        8
    }

    fn drop_in_place(&mut self, _meta: &[usize], _data: &[u8]) {}
}

impl Unsize<FnString> for Closure {
    fn unsize(&self) -> WidePtr {
        WidePtr { addr: 0, meta: vec![0] }
    }
}

fn call(frame: &Frame) -> String {
    format!("{}", Closure::from_raw(&frame.data).0)
}

#[test]
fn lib_closure() {
    let v1 = 1234u64;
    let c: StackDST<FnString> = StackDST::new(Closure(v1)).ok().unwrap();
    assert_eq!(call(&c.get().unwrap()), "1234");
}
