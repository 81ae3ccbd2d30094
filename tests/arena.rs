use std::iter::repeat_n;

use fasted::arena::{Arena, ArenaError, ArenaHeader, HeaderField};

fn progressive(count: usize) -> Vec<Vec<u8>> {
    (0..count)
        .map(|x| repeat_n(b'a', x + 1).collect::<Vec<u8>>())
        .collect()
}

#[test]
fn test_arena_alloc() {
    let strings: Vec<Vec<u8>> = (0..512)
        .map(|x| repeat_n(b'a', x + 1).collect::<Vec<u8>>())
        .collect();

    let arena =
        Arena::new_from(&strings.iter().map(|x| x.as_slice()).collect::<Vec<&[u8]>>()).unwrap();

    assert_eq!(arena.size_of(), 8462336);
}

#[test]
fn full_batch_header_fields() {
    let strings = progressive(512);
    let slices: Vec<&[u8]> = strings.iter().map(|x| x.as_slice()).collect();
    let arena = Arena::new_from(&slices).unwrap();
    assert_eq!(
        arena.header(),
        ArenaHeader {
            size: 8462336,
            mmax: 512,
            batch_size: 512,
            blockmap_ptr: 4096,
            blockspill_ptr: 8192,
            speq_ptr: 36864,
            output_store_ptr: 8425472,
            alphabet_mask_offset: 128,
            store_mask_offset: 8429568,
        }
    );
    assert_eq!(arena.read_usize(HeaderField::Mmax), 512);
    assert_eq!(arena.read_usize(HeaderField::BatchSize), 512);
    assert_eq!(arena.len_words() * 8, arena.size_of());
}

#[test]
fn batch_sizes_at_the_bounds_are_accepted() {
    let strings = progressive(512);
    let slices: Vec<&[u8]> = strings.iter().map(|x| x.as_slice()).collect();
    assert!(Arena::new_from(&slices).is_ok());
    assert!(Arena::new_from(&slices[..1]).is_ok());
    assert!(Arena::allocate(10, 512).is_ok());
    assert!(Arena::allocate(10, 1).is_ok());
}

#[test]
fn allocate_refuses_oversized_region() {
    assert!(matches!(Arena::allocate(usize::MAX, 1), Err(ArenaError::AllocationFailure)));
    assert!(matches!(Arena::allocate(1 << 30, 512), Err(ArenaError::AllocationFailure)));
}

#[test]
fn region_for_empty_strings() {
    let arena = Arena::allocate(0, 1).unwrap();
    // header page, one block-map record and one output slot
    assert_eq!(arena.size_of(), 4096 + 8 + 8);
    let h = arena.header();
    assert_eq!(h.blockmap_ptr, 4096);
    assert_eq!(h.blockspill_ptr, 4104);
    assert_eq!(h.speq_ptr, 4104);
    assert_eq!(h.output_store_ptr, 4104);
    assert_eq!(h.store_mask_offset, 4112);
}

#[test]
fn region_grows_by_blocks() {
    // 65 bytes need two blocks: one spilled block per string
    let arena = Arena::allocate(65, 3).unwrap();
    let h = arena.header();
    assert_eq!(h.blockspill_ptr, 4096 + 24);
    assert_eq!(h.speq_ptr, 4096 + 24 + 24);
    assert_eq!(h.output_store_ptr, 4096 + 48 + 8 * 256 * 2 * 3);
    assert_eq!(h.store_mask_offset, h.output_store_ptr + 24);
    assert_eq!(h.size, h.store_mask_offset + 8 * 2 * 3);
}

#[test]
fn fresh_region_is_zero_past_the_header() {
    let arena = Arena::allocate(100, 4).unwrap();
    for i in 9..arena.len_words() {
        assert_eq!(arena.word(i), Some(0));
    }
    assert_eq!(arena.word(arena.len_words()), None);
    assert_eq!(arena.word(0), Some(arena.size_of() as u64));
}

#[test]
fn header_offsets_lie_inside_region() {
    let arena = Arena::allocate(300, 7).unwrap();
    let h = arena.header();
    for off in [h.blockmap_ptr, h.blockspill_ptr, h.speq_ptr, h.output_store_ptr] {
        assert!(off < h.size);
    }
    assert!(h.blockmap_ptr + 8 * 7 <= h.blockspill_ptr);
    assert!(h.blockspill_ptr <= h.speq_ptr);
    assert!(h.speq_ptr < h.output_store_ptr);
}
