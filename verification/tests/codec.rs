use stack_dst::bytes::{copy_bytes, get_byte, load_bytes, set_byte};
use stack_dst::frame::load_frame;
use stack_dst::{
    check_fat_pointer, decompose_pointer, make_fat_ptr, mem_as_slice, round_to_words,
    store_metadata, AlignmentValid, DataBuf, Object, Pod, Slice, Str, WidePtr,
};

const WORD: usize = std::mem::size_of::<usize>();

#[test]
fn round_to_words_rounds_up() {
    assert_eq!(round_to_words::<u8>(0), 0);
    assert_eq!(round_to_words::<u8>(5), 5);
    assert_eq!(round_to_words::<u16>(5), 3);
    assert_eq!(round_to_words::<u32>(4), 1);
    assert_eq!(round_to_words::<u32>(5), 2);
    assert_eq!(round_to_words::<u64>(8), 1);
    assert_eq!(round_to_words::<u64>(9), 2);
    assert_eq!(round_to_words::<u64>(16), 2);
    assert_eq!(round_to_words::<u128>(1), 1);
    assert_eq!(round_to_words::<u128>(17), 2);
    assert_eq!(round_to_words::<u8>(usize::MAX), usize::MAX);
    assert_eq!(round_to_words::<u64>(usize::MAX), usize::MAX / 8 + 1);
    assert_eq!(<[u32; 4] as DataBuf>::round_to_words(9), 3);
}

#[test]
fn words_are_little_endian_bytes() {
    assert_eq!(0x12u8.to_bytes(), vec![0x12]);
    assert_eq!(0x1234u16.to_bytes(), vec![0x34, 0x12]);
    assert_eq!(0x12345678u32.to_bytes(), vec![0x78, 0x56, 0x34, 0x12]);
    assert_eq!(
        0x0102030405060708u64.to_bytes(),
        vec![0x08, 0x07, 0x06, 0x05, 0x04, 0x03, 0x02, 0x01]
    );
    assert_eq!(1u128.to_bytes().len(), 16);
    assert_eq!(1usize.to_bytes().len(), WORD);
    assert_eq!(<u16 as Pod>::from_bytes(&[0x34, 0x12]), 0x1234);
    assert_eq!(<u32 as Pod>::from_bytes(&[0x78, 0x56, 0x34, 0x12]), 0x12345678);
    assert_eq!(<u64 as Pod>::from_bytes(&0xfeed_beefu64.to_bytes()), 0xfeed_beef);
    assert_eq!(<u128 as Pod>::from_bytes(&(u128::MAX - 5).to_bytes()), u128::MAX - 5);
    assert_eq!(<usize as Pod>::from_bytes(&usize::MAX.to_bytes()), usize::MAX);
    assert_eq!(<u8 as Pod>::from_bytes(&[9]), 9);
    assert_eq!(<u64 as Pod>::default(), 0);
    assert_eq!(<usize as Pod>::default(), 0);
}

#[test]
fn bytes_go_into_words_and_come_out() {
    let mut words = [0u32; 3];
    copy_bytes(&mut words, 2, &[0xaa, 0xbb, 0xcc, 0xdd, 0xee]);
    assert_eq!(words, [0xbbaa_0000, 0x00ee_ddcc, 0]);
    assert_eq!(load_bytes(&words, 2, 5), vec![0xaa, 0xbb, 0xcc, 0xdd, 0xee]);
    assert_eq!(load_bytes(&words, 0, 2), vec![0, 0]);
    assert_eq!(load_bytes(&words, 7, 0), Vec::<u8>::new());
    assert_eq!(get_byte(&words, 1, 2), 0xee);
    set_byte(&mut words, 2, 3, 0x7f);
    assert_eq!(words[2], 0x7f00_0000);
    // The bytes before and behind a copy stay
    let mut words = [0x1111_1111u32; 2];
    copy_bytes(&mut words, 3, &[0x22, 0x33]);
    assert_eq!(words, [0x2211_1111, 0x1111_1133]);
}

#[test]
fn descriptors_are_stored_and_read_back() {
    // One machine word in words of every size
    let mut bytes = [0xffu8; 24];
    store_metadata(&mut bytes, &[0x1234]);
    assert_eq!(&bytes[..WORD], &0x1234usize.to_bytes()[..]);
    assert_eq!(bytes[WORD], 0xff);
    let ptr = make_fat_ptr::<Str, u8>(7, &bytes[..WORD]);
    assert_eq!(ptr, WidePtr { addr: 7, meta: vec![0x1234] });

    let mut halves = [0u16; 8];
    store_metadata(&mut halves, &[usize::MAX - 1]);
    assert_eq!(make_fat_ptr::<Str, u16>(0, &halves).meta, vec![usize::MAX - 1]);

    let mut wide = [u128::MAX; 1];
    store_metadata(&mut wide, &[42]);
    assert_eq!(make_fat_ptr::<Slice<u8>, u128>(3, &wide), WidePtr { addr: 3, meta: vec![42] });

    let mut words = [0usize; 2];
    store_metadata(&mut words, &[5, 6]);
    assert_eq!(words, [5, 6]);
    assert_eq!(make_fat_ptr::<Str, usize>(1, &words).meta, vec![5]);
}

#[test]
fn wide_references_are_taken_apart() {
    let ptr = WidePtr { addr: 100, meta: vec![8, 9] };
    assert_eq!(mem_as_slice(&ptr), vec![100, 8, 9]);
    assert_eq!(decompose_pointer(&ptr), (100, 2, [8, 9, 0]));
    let thin = WidePtr { addr: 3, meta: vec![] };
    assert_eq!(decompose_pointer(&thin), (3, 0, [0, 0, 0]));
    let widest = WidePtr { addr: 0, meta: vec![1, 2, 3] };
    assert_eq!(decompose_pointer(&widest), (0, 3, [1, 2, 3]));
}

#[test]
fn narrowing_gives_the_wide_reference() {
    let v = 77u32;
    let ptr = check_fat_pointer::<u32, Slice<u32>, _>(&v, |_p| WidePtr { addr: 0, meta: vec![1] });
    assert_eq!(ptr, WidePtr { addr: 0, meta: vec![1] });
}

#[test]
fn a_wide_reference_into_words_is_read() {
    let mut words = [0u32; 4];
    copy_bytes(&mut words, 4, b"hello");
    let frame = load_frame::<Str, u32>(&words, WidePtr { addr: 1, meta: vec![5] });
    assert_eq!(frame.meta, vec![5]);
    assert_eq!(frame.data, b"hello".to_vec());
}

#[test]
fn alignment_is_compared() {
    assert!(<(u8, u8) as AlignmentValid>::is_valid());
    assert!(<(u8, u64) as AlignmentValid>::is_valid());
    assert!(<(u32, u32) as AlignmentValid>::is_valid());
    assert!(<((), u8) as AlignmentValid>::is_valid());
    assert!(!<(u32, u8) as AlignmentValid>::is_valid());
    assert!(!<(u64, u16) as AlignmentValid>::is_valid());
    assert!(!<(u128, u8) as AlignmentValid>::is_valid());
    <(u8, u32) as AlignmentValid>::check();
    assert_eq!(<[u8; 4] as DataBuf>::word_alignment(), 1);
    assert_eq!(<Vec<u32> as DataBuf>::word_alignment(), 4);
    assert_eq!(<[usize; 1] as DataBuf>::word_alignment(), std::mem::align_of::<usize>());
}

#[test]
fn values_have_images() {
    assert_eq!(0x0102u16.to_raw(), vec![2, 1]);
    assert_eq!(<u16 as Object>::from_raw(&[2, 1]), 0x0102);
    assert_eq!(().to_raw(), Vec::<u8>::new());
    assert_eq!(<() as Object>::from_raw(&[]), ());
    assert_eq!(7usize.to_raw().len(), WORD);
}

#[test]
fn buffers_grow_or_do_not() {
    let mut fixed = [0u8; 4];
    assert_eq!(DataBuf::extend(&mut fixed, 4), Ok(()));
    assert_eq!(DataBuf::extend(&mut fixed, 5), Err(()));
    assert_eq!(DataBuf::as_ref(&fixed).len(), 4);

    let mut grown: Vec<u16> = vec![1, 2];
    assert_eq!(DataBuf::extend(&mut grown, 1), Ok(()));
    assert_eq!(grown, vec![1, 2]);
    assert_eq!(DataBuf::extend(&mut grown, 5), Ok(()));
    assert!(grown.len() >= 5);
    assert_eq!(grown.len(), grown.capacity());
    assert_eq!(&grown[..2], &[1, 2]);
    assert!(grown[2..].iter().all(|w| *w == 0));

    let mut array = stack_dst::buffers::ArrayBuf::<u32, 3>::default();
    assert_eq!(array.as_ref(), &[0, 0, 0]);
    assert_eq!(array.extend(3), Ok(()));
    assert_eq!(array.extend(4), Err(()));
    array.as_mut()[1] = 9;
    assert_eq!(array.as_ref(), &[0, 9, 0]);

    let mut inner = [0u8; 2];
    let mut borrowed = &mut inner;
    assert_eq!(DataBuf::extend(&mut borrowed, 2), Ok(()));
    assert_eq!(DataBuf::extend(&mut borrowed, 3), Err(()));
    DataBuf::as_mut(&mut borrowed)[0] = 5;
    assert_eq!(inner, [5, 0]);
}
