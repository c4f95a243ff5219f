use acute_engine::acute::{AcuteArena, ArenaError};
use acute_engine::Tensor;

#[test]
fn arena_alloc_and_reader_roundtrip() {
    let mut arena = AcuteArena::new(4096).expect("mmap failed");

    let data: [f32; 4] = [1.0, 2.0, 3.0, 4.0];
    let bytes: Vec<u8> = data.iter().flat_map(|f| f.to_le_bytes()).collect();
    let values: Vec<f32> = bytes
        .chunks_exact(4)
        .map(|c| f32::from_le_bytes([c[0], c[1], c[2], c[3]]))
        .collect();

    let tensor: Tensor<f32> =
        Tensor::from_arena(&mut arena, &values, vec![4].into_boxed_slice(), None)
            .expect("read into arena failed");

    assert_eq!(tensor.as_slice(), &[1.0, 2.0, 3.0, 4.0]);
    assert_eq!(arena.used(), 16);
    assert_eq!(arena.n_objects(), 1);
}

#[test]
fn arena_rejects_zero_and_oversized_capacity() {
    assert!(matches!(AcuteArena::new(0), Err(ArenaError::ZeroSize)));
    assert!(matches!(AcuteArena::new(usize::MAX), Err(ArenaError::InvalidLayout { size: usize::MAX })));
}

#[test]
fn arena_aligns_each_region_for_its_type() {
    let mut arena = AcuteArena::new(64).expect("arena");
    assert_eq!(arena.alloc_tensor_data::<u8>(3), Ok(0));
    assert_eq!(arena.used(), 3);
    // u64 regions start at a multiple of 8
    assert_eq!(arena.alloc_tensor_data::<u64>(2), Ok(8));
    assert_eq!(arena.used(), 24);
    assert_eq!(arena.n_objects(), 2);
    assert_eq!(arena.capacity(), 64);
}

#[test]
fn exhausted_arena_is_left_unchanged() {
    let mut arena = AcuteArena::new(16).expect("arena");
    assert_eq!(arena.alloc_tensor_data::<u32>(3), Ok(0));
    let err = arena.alloc_tensor_data::<u32>(2).unwrap_err();
    assert_eq!(err, ArenaError::Exhausted { need: 8, align: 4, left: 4, capacity: 16 });
    assert_eq!(arena.used(), 12);
    assert_eq!(arena.n_objects(), 1);
    // what still fits is handed out
    assert_eq!(arena.alloc_tensor_data::<u32>(1), Ok(12));
    assert_eq!(arena.used(), 16);
}

#[test]
fn from_arena_fails_without_room() {
    let mut arena = AcuteArena::new(8).expect("arena");
    let data = vec![1.0f32, 2.0, 3.0];
    let res = Tensor::from_arena(&mut arena, &data, vec![3].into_boxed_slice(), None);
    assert!(matches!(res, Err(ArenaError::Exhausted { need: 12, .. })));
    assert_eq!(arena.used(), 0);
    let ok = Tensor::from_arena(&mut arena, &data[..2], vec![2].into_boxed_slice(), Some(vec![1].into_boxed_slice()))
        .expect("fits");
    assert_eq!(ok.stride(), &[1]);
    assert_eq!(arena.used(), 8);
}
