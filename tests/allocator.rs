use static_arena::{
    static_alloc, static_alloc_mult, static_dealloc, static_dealloc_mult, AllocError,
    StaticAllocator,
};

#[test]
fn it_works() {
    let result = 420;
    assert_eq!(result, 420);
}

#[test]
fn test_round_fn() {
    assert_eq!(StaticAllocator::round_bitmap_size_align::<u8>(), (1, 1));
    assert_eq!(StaticAllocator::round_bitmap_size_align::<u16>(), (1, 1));
    assert_eq!(StaticAllocator::round_bitmap_size_align::<u32>(), (1, 1));
    assert_eq!(StaticAllocator::round_bitmap_size_align::<u64>(), (1, 1));
    assert_eq!(StaticAllocator::round_bitmap_size_align::<u128>(), (2, 2));
}

#[test]
fn test_find_next_zero() {
    assert_eq!(StaticAllocator::find_next_zero(0b0, 0), 0);
    assert_eq!(StaticAllocator::find_next_zero(!0b0, 0), 64);

    assert_eq!(StaticAllocator::find_next_zero(0b1, 0), 1);
    assert_eq!(StaticAllocator::find_next_zero(0b1, 1), 1);

    assert_eq!(StaticAllocator::find_next_zero(0b11101111, 0), 4);
    assert_eq!(StaticAllocator::find_next_zero(0b11101111, 5), 8);
}

#[test]
fn test_find_next_one() {
    assert_eq!(StaticAllocator::find_next_one(0b0, 0), 64);
    assert_eq!(StaticAllocator::find_next_one(!0b0, 0), 0);

    assert_eq!(StaticAllocator::find_next_one(0b1, 0), 0);
    assert_eq!(StaticAllocator::find_next_one(0b1, 1), 64);

    assert_eq!(StaticAllocator::find_next_one(0b11100110, 0), 1);
    assert_eq!(StaticAllocator::find_next_one(0b11100110, 3), 5);
}

#[test]
fn test_find_free_bitrange() {
    assert_eq!(StaticAllocator::find_free_bitrange(0b0, 1, 1), Ok(0));
    assert_eq!(StaticAllocator::find_free_bitrange(!0b0, 1, 1), Err(()));

    assert_eq!(StaticAllocator::find_free_bitrange(0b1, 1, 1), Ok(1));
    assert_eq!(StaticAllocator::find_free_bitrange(0b111111, 1, 1), Ok(6));

    assert_eq!(StaticAllocator::find_free_bitrange(0b111100, 2, 1), Ok(0));
    assert_eq!(StaticAllocator::find_free_bitrange(0b111100, 2, 2), Ok(0));
    assert_eq!(StaticAllocator::find_free_bitrange(0b111001, 2, 1), Ok(1));
    assert_eq!(StaticAllocator::find_free_bitrange(0b111001, 2, 2), Ok(6));

    assert_eq!(StaticAllocator::find_free_bitrange(0xAA_AA_AA_AA_AA_AA_AA_AA, 2, 2), Err(()));
}

#[test]
fn alloc_dealloc_u8() {
    let mut arena = StaticAllocator::new();
    let obj_u8 = static_alloc::<u8>(&mut arena).unwrap();
    assert_eq!(obj_u8, 0);
    assert_eq!(Some(0b1), arena.group(0));

    assert_eq!(static_dealloc::<u8>(&mut arena, obj_u8), Ok(()));
    assert_eq!(Some(0b0), arena.group(0));
}

#[test]
fn alloc_dealloc_2_u64s() {
    let mut arena = StaticAllocator::new();
    let obj0_u64 = static_alloc::<u64>(&mut arena).unwrap();
    assert_eq!(obj0_u64, 0);
    assert_eq!(Some(0b1), arena.group(0));

    let obj1_u64 = static_alloc::<u64>(&mut arena).unwrap();
    assert_eq!(obj1_u64, 1);
    assert_eq!(Some(0b11), arena.group(0));

    static_dealloc::<u64>(&mut arena, obj0_u64).unwrap();
    assert_eq!(Some(0b10), arena.group(0));

    static_dealloc::<u64>(&mut arena, obj1_u64).unwrap();
    assert_eq!(Some(0b0), arena.group(0));
}

#[test]
fn alloc_dealloc_u8_arrays() {
    let mut arena = StaticAllocator::new();
    let arr0_u8 = static_alloc_mult::<u8>(&mut arena, 7).unwrap();
    assert_eq!(arr0_u8, 0);
    assert_eq!(Some(0b1), arena.group(0));

    let arr1_u8 = static_alloc_mult::<u8>(&mut arena, 8).unwrap();
    assert_eq!(arr1_u8, 1);
    assert_eq!(Some(0b11), arena.group(0));

    let arr2_u8 = static_alloc_mult::<u8>(&mut arena, 9).unwrap();
    assert_eq!(arr2_u8, 2);
    assert_eq!(Some(0b1111), arena.group(0));

    static_dealloc_mult::<u8>(&mut arena, arr1_u8, 8).unwrap();
    assert_eq!(Some(0b1101), arena.group(0));
    static_dealloc_mult::<u8>(&mut arena, arr0_u8, 7).unwrap();
    assert_eq!(Some(0b1100), arena.group(0));
    static_dealloc_mult::<u8>(&mut arena, arr2_u8, 9).unwrap();
    assert_eq!(Some(0b0), arena.group(0));
}

#[test]
fn round_mult_sizes() {
    assert_eq!(StaticAllocator::round_bitmap_size_align_mult::<u8>(7), (1, 1));
    assert_eq!(StaticAllocator::round_bitmap_size_align_mult::<u8>(9), (2, 1));
    assert_eq!(StaticAllocator::round_bitmap_size_align_mult::<u32>(3), (2, 1));
    assert_eq!(StaticAllocator::round_bitmap_size_align_mult::<u128>(3), (6, 2));
    assert_eq!(StaticAllocator::round_bitmap_size_align_mult::<u64>(0), (0, 1));
}

#[test]
fn next_zero_and_one_past_the_group() {
    assert_eq!(StaticAllocator::find_next_zero(0b0, 64), 64);
    assert_eq!(StaticAllocator::find_next_one(!0b0, 64), 64);
    assert_eq!(StaticAllocator::find_next_zero(0b0, 100), 64);
    assert_eq!(StaticAllocator::find_next_one(!0b0, 100), 64);
    assert_eq!(StaticAllocator::find_next_zero(1u64 << 63, 63), 64);
    assert_eq!(StaticAllocator::find_next_one(1u64 << 63, 1), 63);
}

#[test]
fn free_bitrange_alignment_skips_small_gap() {
    // bits 2..5 set: the low gap holds two words at 0 with either alignment
    assert_eq!(StaticAllocator::find_free_bitrange(0b111100, 2, 1), Ok(0));
    assert_eq!(StaticAllocator::find_free_bitrange(0b111100, 2, 2), Ok(0));
    // bits 0 and 3..5 set: the gap at 1..3 is not aligned to two
    assert_eq!(StaticAllocator::find_free_bitrange(0b111001, 2, 2), Ok(6));
}

#[test]
fn free_bitrange_whole_group_and_over() {
    assert_eq!(StaticAllocator::find_free_bitrange(0, 64, 1), Ok(0));
    assert_eq!(StaticAllocator::find_free_bitrange(1, 64, 1), Err(()));
    assert_eq!(StaticAllocator::find_free_bitrange(0, 65, 1), Err(()));
    assert_eq!(StaticAllocator::find_free_bitrange(0b1, 4, 4), Ok(4));
    assert_eq!(StaticAllocator::find_free_bitrange(1u64 << 63, 63, 1), Ok(0));
    assert_eq!(StaticAllocator::find_free_bitrange(0b1, 1, 100), Err(()));
    assert_eq!(
        StaticAllocator::find_free_bitrange(0b1, 1, 100),
        StaticAllocator::find_free_bitrange(0b1, 1, 100)
    );
}

#[test]
fn alloc_then_free_restores_bitmap() {
    let mut arena = StaticAllocator::new();
    let a = static_alloc::<u32>(&mut arena).unwrap();
    let b = static_alloc_mult::<u8>(&mut arena, 20).unwrap();
    let before = arena.group(0);
    assert_eq!(before, Some(0b1111));
    let c = static_alloc::<u128>(&mut arena).unwrap();
    assert_eq!(c, 4);
    assert_eq!(arena.group(0), Some(0b11_1111));
    static_dealloc::<u128>(&mut arena, c).unwrap();
    assert_eq!(arena.group(0), before);
    static_dealloc::<u32>(&mut arena, a).unwrap();
    static_dealloc_mult::<u8>(&mut arena, b, 20).unwrap();
    assert_eq!(arena.group(0), Some(0));
}

#[test]
fn freeing_first_keeps_second() {
    let mut arena = StaticAllocator::new();
    let first = static_alloc_mult::<u8>(&mut arena, 17).unwrap();
    let second = arena.alloc_obj::<u128>().unwrap();
    assert_eq!(first, 0);
    assert_eq!(second, 4);
    assert_eq!(arena.group(0), Some(0b11_0111));
    arena.dealloc_obj_mult::<u8>(first, 17).unwrap();
    assert_eq!(arena.group(0), Some(0b11_0000));
}

#[test]
fn allocation_moves_to_next_group() {
    let mut arena = StaticAllocator::new();
    let a = static_alloc_mult::<u64>(&mut arena, 60).unwrap();
    assert_eq!(a, 0);
    let b = static_alloc_mult::<u64>(&mut arena, 8).unwrap();
    assert_eq!(b, 64);
    assert_eq!(arena.group(1), Some(0xff));
    let c = static_alloc_mult::<u64>(&mut arena, 4).unwrap();
    assert_eq!(c, 60);
    assert_eq!(arena.group(0), Some(u64::MAX));
}

#[test]
fn too_long_request_is_exhausted() {
    let mut arena = StaticAllocator::new();
    assert_eq!(static_alloc_mult::<u64>(&mut arena, 65), Err(AllocError::Exhausted));
    assert_eq!(static_alloc_mult::<u64>(&mut arena, usize::MAX), Err(AllocError::Exhausted));
    assert_eq!(arena.group(0), Some(0));
}

#[test]
fn full_arena_is_exhausted() {
    let mut arena = StaticAllocator::new();
    for g in 0..32 {
        assert_eq!(static_alloc_mult::<u64>(&mut arena, 64), Ok(g * 64));
    }
    assert_eq!(static_alloc::<u8>(&mut arena), Err(AllocError::Exhausted));
    assert_eq!(arena.group(31), Some(u64::MAX));
    assert_eq!(arena.group(32), None);
}

#[test]
fn release_past_arena_is_out_of_range() {
    let mut arena = StaticAllocator::new();
    static_alloc::<u8>(&mut arena).unwrap();
    assert_eq!(static_dealloc::<u8>(&mut arena, 2048), Err(AllocError::OutOfRange));
    assert_eq!(static_dealloc_mult::<u8>(&mut arena, 5000, 3), Err(AllocError::OutOfRange));
    assert_eq!(arena.group(0), Some(1));
}

#[test]
fn release_is_cut_at_group_end() {
    let mut arena = StaticAllocator::new();
    static_alloc_mult::<u64>(&mut arena, 64).unwrap();
    static_alloc_mult::<u64>(&mut arena, 64).unwrap();
    static_dealloc_mult::<u64>(&mut arena, 62, 10).unwrap();
    assert_eq!(arena.group(0), Some(u64::MAX >> 2));
    assert_eq!(arena.group(1), Some(u64::MAX));
}

#[test]
fn two_u8_alloc_free_sequence() {
    let mut arena = StaticAllocator::new();
    let a = static_alloc::<u8>(&mut arena).unwrap();
    assert_eq!(a, 0);
    assert_eq!(arena.group(0), Some(0b1));
    let b = static_alloc::<u8>(&mut arena).unwrap();
    assert_eq!(b, 1);
    assert_eq!(arena.group(0), Some(0b11));
    static_dealloc::<u8>(&mut arena, a).unwrap();
    assert_eq!(arena.group(0), Some(0b10));
    static_dealloc::<u8>(&mut arena, b).unwrap();
    assert_eq!(arena.group(0), Some(0b0));
}
