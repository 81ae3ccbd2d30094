use std::iter::repeat_n;

use fasted::arena::{Arena, HeaderField};
use fasted::slice_str::SliceStr;
use fasted::speq::{BuildError, Speq};

#[test]
fn test_slice_str() {
    #[allow(clippy::byte_char_slices)]
    let s = [b'f', b'o', b'o'];

    let slice_str0 = SliceStr::from(&s[..]);

    assert_eq!(s.len(), slice_str0.len());

    let v = vec![b'b', b'a', b'r'];

    let slice_str1 = SliceStr::from(v.as_slice());

    assert_eq!(slice_str1.len(), 3);

    let string = String::from("baz");

    let slice_str2 = SliceStr::from(string.as_bytes());

    assert_eq!(slice_str2.len(), 3);
    assert_eq!(slice_str2.as_ptr(), b"baz");
    assert_eq!(slice_str0.as_ptr(), b"foo");
}

#[test]
fn test_new_speq_in_basic() {
    let strings: Vec<Vec<u8>> = (0..512)
        .map(|x| repeat_n(b'a', x + 1).collect::<Vec<u8>>())
        .collect();

    let slices = strings.iter().map(|x| x.as_slice()).collect::<Vec<&[u8]>>();

    let mut arena = Arena::new_from(&slices).unwrap();

    assert_eq!(Speq::new_in(&mut arena, &slices), Ok(()));
}

fn word(arena: &Arena, byte_offset: usize, index: usize) -> u64 {
    arena.word(byte_offset / 8 + index).unwrap()
}

#[test]
fn small_batch_tables() {
    let slices: Vec<&[u8]> = vec![b"ab", b"ba"];
    let mut arena = Arena::new_from(&slices).unwrap();
    let before = arena.header();
    assert_eq!(before.size, 8240);
    assert_eq!(Speq::new_in(&mut arena, &slices), Ok(()));
    assert_eq!(arena.header(), before);

    // one block per string
    assert_eq!(word(&arena, before.blockmap_ptr, 0), 1);
    assert_eq!(word(&arena, before.blockmap_ptr, 1), 1);

    // entry k: string k % 2, block 0, row k / 2 of the alphabet ['a', 'b']
    let speq = before.speq_ptr;
    assert_eq!(word(&arena, speq, 0), 0b01);
    assert_eq!(word(&arena, speq, 1), 0b10);
    assert_eq!(word(&arena, speq, 2), 0b10);
    assert_eq!(word(&arena, speq, 3), 0b01);
    assert_eq!(word(&arena, speq, 4), 0);
    assert_eq!(word(&arena, speq, 2 * 97), 0);

    // 'a' is 97 and 'b' is 98: bits 33 and 34 of the second mask word
    assert_eq!(word(&arena, before.alphabet_mask_offset, 0), 0);
    assert_eq!(word(&arena, before.alphabet_mask_offset, 1), (1u64 << 33) | (1u64 << 34));
    assert_eq!(word(&arena, before.alphabet_mask_offset, 2), 0);
    assert_eq!(word(&arena, before.alphabet_mask_offset, 3), 0);

    assert_eq!(word(&arena, before.store_mask_offset, 0), 0);
    assert_eq!(word(&arena, before.output_store_ptr, 0), 0);
    // header-page words outside the fields and the alphabet mask stay zero
    assert_eq!(word(&arena, 0, 9), 0);
    assert_eq!(word(&arena, 0, 20), 0);
    assert_eq!(word(&arena, 0, 511), 0);
}

#[test]
fn blocks_split_long_strings() {
    let long: Vec<u8> = (0..130u32).map(|i| if i % 2 == 0 { b'x' } else { b'y' }).collect();
    let slices: Vec<&[u8]> = vec![long.as_slice(), b"y"];
    let mut arena = Arena::new_from(&slices).unwrap();
    assert_eq!(Speq::new_in(&mut arena, &slices), Ok(()));
    let h = arena.header();
    assert_eq!(word(&arena, h.blockmap_ptr, 0), 3);
    assert_eq!(word(&arena, h.blockmap_ptr, 1), 1);
    // three blocks, two strings: entry ((row * 3) + block) * 2 + string,
    // where 'x' has row 0 and 'y' row 1
    let entry = |c: u8, block: usize, s: usize| {
        let row = (c - b'x') as usize;
        word(&arena, h.speq_ptr, (row * 3 + block) * 2 + s)
    };
    let even: u64 = 0x5555_5555_5555_5555;
    assert_eq!(entry(b'x', 0, 0), even);
    assert_eq!(entry(b'y', 0, 0), even << 1);
    assert_eq!(entry(b'y', 1, 0), even << 1);
    assert_eq!(entry(b'x', 2, 0), 0b01);
    assert_eq!(entry(b'y', 2, 0), 0b10);
    assert_eq!(entry(b'y', 0, 1), 1);
    assert_eq!(entry(b'y', 1, 1), 0);
    assert_eq!(entry(b'x', 0, 1), 0);
    // rows past the alphabet stay empty
    assert_eq!(word(&arena, h.speq_ptr, 12), 0);
    // the spill is zeroed
    assert_eq!(word(&arena, h.blockspill_ptr, 0), 0);
}

#[test]
fn build_refuses_longer_string() {
    let slices: Vec<&[u8]> = vec![b"ab", b"ba"];
    let mut arena = Arena::new_from(&slices).unwrap();
    let before: Vec<u64> = (0..arena.len_words()).map(|i| arena.word(i).unwrap()).collect();

    let longer: Vec<&[u8]> = vec![b"abc", b"ba"];
    assert_eq!(Speq::new_in(&mut arena, &longer), Err(BuildError::StringTooLong));

    let after: Vec<u64> = (0..arena.len_words()).map(|i| arena.word(i).unwrap()).collect();
    assert_eq!(before, after);
}

#[test]
fn arena_released_after_failed_build() {
    for _ in 0..4 {
        let slices: Vec<&[u8]> = vec![b"abc"];
        let mut arena = Arena::new_from(&slices).unwrap();
        let other: Vec<&[u8]> = vec![b"abcd"];
        assert_eq!(Speq::new_in(&mut arena, &other), Err(BuildError::StringTooLong));
        assert_eq!(arena.read_usize(HeaderField::BatchSize), 1);
        drop(arena);
    }
}
