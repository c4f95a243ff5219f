use acute_engine::tensor::{is_valid_permutation, validate_shape, NestedVec, Tensor};

fn t(data: Vec<f32>, shape: &[usize]) -> Tensor<f32> {
    Tensor::new(data, shape.to_vec().into_boxed_slice(), None)
}

// --- construction & validation ---

#[test]
fn new_computes_row_major_stride() {
    let tensor = t(vec![0.0; 24], &[2, 3, 4]);
    assert_eq!(tensor.shape(), &[2, 3, 4]);
    assert_eq!(tensor.stride(), &[12, 4, 1]);
}

#[test]
fn shape_and_stride_getters_return_slices() {
    let tensor = t(vec![1.0, 2.0, 3.0, 4.0], &[2, 2]);
    let shape: &[usize] = tensor.shape();
    let stride: &[usize] = tensor.stride();
    assert_eq!(shape, &[2, 2]);
    assert_eq!(stride, &[2, 1]);
}

// --- reshape ---

#[test]
fn reshape_recomputes_stride_for_new_shape() {
    let mut tensor = t((0..24).map(|x| x as f32).collect(), &[2, 3, 4]);
    tensor.reshape(vec![4, 6].into_boxed_slice());
    assert_eq!(tensor.shape(), &[4, 6]);
    assert_eq!(tensor.stride(), &[6, 1]);
}

// --- is_valid_permutation ---

#[test]
fn is_valid_permutation_accepts_a_true_permutation() {
    assert!(is_valid_permutation(&[2, 0, 1], 3));
}

#[test]
fn is_valid_permutation_rejects_duplicate_axis() {
    assert!(!is_valid_permutation(&[0, 0, 2], 3));
}

#[test]
fn is_valid_permutation_rejects_out_of_range_axis() {
    assert!(!is_valid_permutation(&[0, 1, 3], 3));
}

// --- is_contiguous ---

#[test]
fn fresh_tensor_is_contiguous() {
    let tensor = t(vec![1.0, 2.0, 3.0, 4.0], &[2, 2]);
    assert!(tensor.is_contiguous());
}

// --- permute / transpose ---

#[test]
fn permute_reorders_stride_in_lockstep_with_shape() {
    let mut tensor = t(vec![0.0; 8], &[2, 4]); // stride starts as [4, 1]
    tensor.permute(&[1, 0]);
    assert_eq!(tensor.shape(), &[4, 2]);
    assert_eq!(tensor.stride(), &[1, 4]); // old stride, reordered -- not canonical [2, 1]
}

#[test]
fn permute_preserves_element_correspondence() {
    // 2x4 row-major: data[i*4 + j] is logical element (i, j)
    let data: Vec<f32> = (0..8).map(|x| x as f32).collect();
    let mut tensor = t(data.clone(), &[2, 4]);
    tensor.permute(&[1, 0]); // transpose to logical [4, 2]

    let stride = tensor.stride().to_vec();
    for i in 0..2 {
        for j in 0..4 {
            // after permute, logical (j, i) must still read the original (i, j)
            let offset = j * stride[0] + i * stride[1];
            assert_eq!(
                tensor.as_slice()[offset], data[i * 4 + j],
                "logical ({j},{i}) should read original ({i},{j})"
            );
        }
    }
}

#[test]
fn transpose_swaps_only_the_requested_axes() {
    let mut tensor = t(vec![0.0; 24], &[2, 3, 4]);
    tensor.transpose(0, 2);
    assert_eq!(tensor.shape(), &[4, 3, 2]);
}

// --- make_contiguous ---

#[test]
fn make_contiguous_is_a_no_op_when_already_dense() {
    let mut tensor = t(vec![1.0, 2.0, 3.0, 4.0], &[2, 2]);
    let before = tensor.as_slice().to_vec();
    tensor.make_contiguous();
    assert_eq!(tensor.as_slice(), (before).as_slice());
    assert!(tensor.is_contiguous());
}

#[test]
fn make_contiguous_materializes_a_permuted_tensor() {
    let data: Vec<f32> = (0..8).map(|x| x as f32).collect(); // 2x4
    let mut tensor = t(data, &[2, 4]);
    tensor.permute(&[1, 0]); // logical 4x2 transpose

    tensor.make_contiguous();

    assert!(tensor.is_contiguous());
    assert_eq!(tensor.stride(), &[2, 1]);
    // row-major dense 4x2 transpose of [[0,1,2,3],[4,5,6,7]]
    assert_eq!(tensor.as_slice(), (vec![0.0, 4.0, 1.0, 5.0, 2.0, 6.0, 3.0, 7.0]).as_slice());
}

// --- further cases ---

#[test]
fn transpose_twice_restores_shape_and_stride() {
    let mut tensor = t((0..24).map(|x| x as f32).collect(), &[2, 3, 4]);
    tensor.transpose(0, 2);
    assert_eq!(tensor.stride(), &[1, 4, 12]);
    tensor.transpose(0, 2);
    assert_eq!(tensor.shape(), &[2, 3, 4]);
    assert_eq!(tensor.stride(), &[12, 4, 1]);
}

#[test]
fn fresh_tensor_with_an_empty_axis_is_not_contiguous() {
    // shape [2, 0]: row-major strides [0, 1]; the scan sees extent 2 with stride 0
    let tensor = t(vec![], &[2, 0]);
    assert_eq!(tensor.stride(), &[0, 1]);
    assert!(!tensor.is_contiguous());
    assert!(tensor.is_empty());
}

#[test]
fn axes_of_extent_one_may_have_any_stride() {
    let tensor = Tensor::new(vec![1.0f32, 2.0, 3.0], vec![1, 3].into_boxed_slice(), Some(vec![99, 1].into_boxed_slice()));
    assert!(tensor.is_contiguous());
}

#[test]
fn explicit_empty_stride_list_means_row_major() {
    let tensor = Tensor::new(vec![0.0f32; 6], vec![2, 3].into_boxed_slice(), Some(Vec::new().into_boxed_slice()));
    assert_eq!(tensor.stride(), &[3, 1]);
}

#[test]
fn make_contiguous_of_a_3d_permutation() {
    let mut tensor = t((0..24).map(|x| x as f32).collect(), &[2, 3, 4]);
    tensor.permute(&[2, 0, 1]); // shape [4, 2, 3], stride [1, 12, 4]
    assert_eq!(tensor.shape(), &[4, 2, 3]);
    assert_eq!(tensor.stride(), &[1, 12, 4]);
    tensor.make_contiguous();
    assert_eq!(tensor.stride(), &[6, 3, 1]);
    // element (a, b, c) of the result is element (b, c, a) of the original
    for a in 0..4 {
        for b in 0..2 {
            for c in 0..3 {
                let got = tensor.as_slice()[a * 6 + b * 3 + c];
                let want = (b * 12 + c * 4 + a) as f32;
                assert_eq!(got, want);
            }
        }
    }
}

#[test]
fn validate_shape_checks_rank_and_element_count() {
    assert!(validate_shape(&[2, 3], 6));
    assert!(!validate_shape(&[2, 3], 5));
    assert!(!validate_shape(&[], 1));
    assert!(validate_shape(&[4, 0, 2], 0));
}

#[test]
fn len_and_is_empty_follow_the_buffer() {
    let tensor = t(vec![1.0, 2.0, 3.0], &[3]);
    assert_eq!(tensor.len(), 3);
    assert!(!tensor.is_empty());
}

#[test]
fn as_mut_slice_writes_through() {
    let mut tensor = t(vec![1.0, 2.0, 3.0, 4.0], &[2, 2]);
    tensor.as_mut_slice()[3] = 9.0;
    assert_eq!(tensor.as_slice(), &[1.0, 2.0, 3.0, 9.0]);
    assert_eq!(tensor.shape(), &[2, 2]);
}

#[test]
fn from_nested_flattens_in_order() {
    let nested = NestedVec::List(vec![
        NestedVec::List(vec![NestedVec::Value(1.0f64), NestedVec::Value(2.0)]),
        NestedVec::List(vec![NestedVec::Value(3.0), NestedVec::Value(4.0)]),
        NestedVec::List(vec![NestedVec::Value(5.0), NestedVec::Value(6.0)]),
    ]);
    let tensor = Tensor::from_nested(nested, vec![3, 2].into_boxed_slice());
    assert_eq!(tensor.as_slice(), &[1.0, 2.0, 3.0, 4.0, 5.0, 6.0]);
    assert_eq!(tensor.stride(), &[2, 1]);
}
