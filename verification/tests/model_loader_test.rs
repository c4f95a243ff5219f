use acute_engine::gguf::{gguf_init_from_bytes, GgmlType, GgufCtx, GgufTensorInfo};
use acute_engine::model_loader::{
    get_splits_list, ggml_shape_to_row_major, llama_split_prefix, split_count, split_paths,
    tensor_read_plan, AcuteTensorWeight, LoaderError, ModelIndex,
};

fn put_u32(b: &mut Vec<u8>, v: u32) {
    b.extend_from_slice(&v.to_le_bytes());
}

fn put_u64(b: &mut Vec<u8>, v: u64) {
    b.extend_from_slice(&v.to_le_bytes());
}

fn put_str(b: &mut Vec<u8>, s: &[u8]) {
    put_u64(b, s.len() as u64);
    b.extend_from_slice(s);
}

/// A header with the given metadata (already encoded) and F32 tensors of the
/// given names and dimensions, laid out one after the other.
fn ctx_with(kvs: &[u8], n_kv: u64, tensors: &[(&str, &[u64])]) -> GgufCtx {
    let mut b = b"GGUF".to_vec();
    put_u32(&mut b, 3);
    put_u64(&mut b, tensors.len() as u64);
    put_u64(&mut b, n_kv);
    b.extend_from_slice(kvs);
    let mut offset = 0u64;
    for (name, dims) in tensors {
        put_str(&mut b, name.as_bytes());
        put_u32(&mut b, dims.len() as u32);
        for &d in *dims {
            put_u64(&mut b, d);
        }
        put_u32(&mut b, 0);
        put_u64(&mut b, offset);
        let bytes = 4 * dims.iter().product::<u64>();
        offset += (bytes + 31) / 32 * 32;
    }
    gguf_init_from_bytes(&b).expect("valid header")
}

fn split_count_kv(n: u32) -> Vec<u8> {
    let mut b = Vec::new();
    put_str(&mut b, b"split.count");
    put_u32(&mut b, 4);
    put_u32(&mut b, n);
    b
}

#[test]
fn split_prefix_strips_index_count_and_extension() {
    assert_eq!(llama_split_prefix("model-00001-of-00003.gguf"), "model");
    assert_eq!(llama_split_prefix("my-model-q4-00002-of-00005.gguf"), "my-model-q4");
    assert_eq!(llama_split_prefix("a-b-c"), "a-b-c");
    assert_eq!(llama_split_prefix("x-1-of-2"), "x");
    // fewer than three dashes: the whole name
    assert_eq!(llama_split_prefix("plain.gguf"), "plain.gguf");
    assert_eq!(llama_split_prefix("été-00001-of-00002.gguf"), "été");
}

#[test]
fn splits_list_names_every_split() {
    let list = get_splits_list("dir/model-00001-of-00003.gguf", 3);
    assert_eq!(
        list,
        vec![
            "dir/model-00001-of-00003.gguf".to_string(),
            "dir/model-00002-of-00003.gguf".to_string(),
            "dir/model-00003-of-00003.gguf".to_string(),
        ]
    );
    let wide = get_splits_list("m-00001-of-123456.gguf", 2);
    assert_eq!(wide[1], "m-00002-of-00002.gguf");
    assert_eq!(get_splits_list("m.gguf", 0).len(), 0);
    // a generated name gives its base name back
    for name in get_splits_list("base-x-00001-of-00004.gguf", 4) {
        assert_eq!(llama_split_prefix(&name), "base-x");
    }
}

#[test]
fn splits_list_pads_numbers_to_five_digits_only() {
    let list = get_splits_list("m-1-of-2.gguf", 123456);
    assert_eq!(list.len(), 123456);
    assert_eq!(list[0], "m-00001-of-123456.gguf");
    assert_eq!(list[123455], "m-123456-of-123456.gguf");
}

#[test]
fn row_major_shape_reverses_and_trims() {
    assert_eq!(ggml_shape_to_row_major(&[4, 3, 1, 1]), vec![3, 4]);
    assert_eq!(ggml_shape_to_row_major(&[5, 1, 1, 1]), vec![5]);
    assert_eq!(ggml_shape_to_row_major(&[1, 1, 1, 1]), vec![1]);
    assert_eq!(ggml_shape_to_row_major(&[2, 1, 3, 1]), vec![3, 1, 2]);
    assert_eq!(ggml_shape_to_row_major(&[2, 3, 4, 5]), vec![5, 4, 3, 2]);
}

#[test]
fn split_count_reads_the_metadata() {
    let single = ctx_with(&[], 0, &[]);
    assert_eq!(split_count(&single).unwrap(), 1);
    let three = ctx_with(&split_count_kv(3), 1, &[]);
    assert_eq!(split_count(&three).unwrap(), 3);
    let mut wrong = Vec::new();
    put_str(&mut wrong, b"split.count");
    put_u32(&mut wrong, 10);
    put_u64(&mut wrong, 3);
    let bad = ctx_with(&wrong, 1, &[]);
    assert!(matches!(split_count(&bad), Err(LoaderError::SplitCountNotU32)));
}

#[test]
fn split_paths_chooses_between_given_and_generated_names() {
    let given = vec!["a.gguf".to_string(), "b.gguf".to_string()];
    assert_eq!(split_paths("m.gguf", 1, given.clone()).unwrap().len(), 0);
    assert_eq!(split_paths("m.gguf", 2, given.clone()).unwrap(), given);
    let generated = split_paths("m-00001-of-00002.gguf", 2, Vec::new()).unwrap();
    assert_eq!(generated, vec!["m-00001-of-00002.gguf".to_string(), "m-00002-of-00002.gguf".to_string()]);
    match split_paths("m.gguf", 3, given) {
        Err(LoaderError::SplitListLength { expected, given }) => {
            assert_eq!(expected, 3);
            assert_eq!(given, 2);
        }
        other => panic!("unexpected {other:?}"),
    }
}

#[test]
fn index_records_every_tensor_and_total_size() {
    let first = ctx_with(&split_count_kv(2), 1, &[("a", &[4]), ("b", &[2, 3])]);
    let second = ctx_with(&split_count_kv(2), 1, &[("c", &[10])]);
    let mut index = ModelIndex::new();
    index.add_ctx(0, first, "m-00001-of-00002.gguf".to_string()).unwrap();
    index.add_ctx(1, second, "m-00002-of-00002.gguf".to_string()).unwrap();

    assert_eq!(index.ggufs.len(), 2);
    assert_eq!(index.ggufs[1].0, "m-00002-of-00002.gguf");
    let names: Vec<&str> = index.weights.iter().map(|(n, _)| n.as_str()).collect();
    assert_eq!(names, vec!["a", "b", "c"]);
    assert_eq!(index.weights[1].1, AcuteTensorWeight { offset: 32, gguf_idx: 0, data_size: 24 });
    assert_eq!(index.weights[2].1, AcuteTensorWeight { offset: 0, gguf_idx: 1, data_size: 40 });
    assert_eq!(index.n_bytes, 16 + 24 + 40);
}

#[test]
fn index_refuses_a_duplicated_tensor_and_stays_unchanged() {
    let first = ctx_with(&[], 0, &[("a", &[4])]);
    let second = ctx_with(&[], 0, &[("z", &[1]), ("a", &[2])]);
    let mut index = ModelIndex::new();
    index.add_ctx(0, first, "one".to_string()).unwrap();
    match index.add_ctx(1, second, "two".to_string()) {
        Err(LoaderError::DuplicateTensor { name }) => assert_eq!(name, "a"),
        other => panic!("unexpected {other:?}"),
    }
    assert_eq!(index.weights.len(), 1);
    assert_eq!(index.ggufs.len(), 1);
    assert_eq!(index.n_bytes, 16);
}

#[test]
fn index_refuses_a_total_that_overflows() {
    let mut ctx = ctx_with(&[], 0, &[("a", &[4]), ("b", &[4])]);
    ctx.tensor_infos[0].nb[3] = u64::MAX;
    let mut index = ModelIndex::new();
    assert!(matches!(index.add_ctx(0, ctx, "x".to_string()), Err(LoaderError::SizeOverflow)));
    assert_eq!(index.weights.len(), 0);
}

fn info(dtype: GgmlType, ne: [i64; 4], offset: u64) -> GgufTensorInfo {
    GgufTensorInfo { name: "t".to_string(), ne, dtype, nb: [4, 4, 4, 4], offset }
}

#[test]
fn read_plan_locates_f32_tensors() {
    let ctx = ctx_with(&[], 0, &[("w", &[3, 2])]);
    let plan = tensor_read_plan(&ctx, &ctx.tensor_infos[0]).unwrap();
    assert_eq!(plan.position, ctx.data_offset);
    assert_eq!(plan.shape, vec![2, 3]);
    assert_eq!(plan.n_elements, 6);

    let far = info(GgmlType::F32, [2, 2, 1, 1], 64);
    let plan = tensor_read_plan(&ctx, &far).unwrap();
    assert_eq!(plan.position, ctx.data_offset + 64);
}

#[test]
fn read_plan_refuses_what_it_cannot_read() {
    let ctx = ctx_with(&[], 0, &[]);
    match tensor_read_plan(&ctx, &info(GgmlType::F16, [2, 1, 1, 1], 0)) {
        Err(LoaderError::UnsupportedType { name, dtype }) => {
            assert_eq!(name, "t");
            assert_eq!(dtype, GgmlType::F16);
        }
        other => panic!("unexpected {other:?}"),
    }
    assert!(matches!(
        tensor_read_plan(&ctx, &info(GgmlType::F32, [2, 1, 1, 1], u64::MAX)),
        Err(LoaderError::PositionOverflow { .. })
    ));
    assert!(matches!(
        tensor_read_plan(&ctx, &info(GgmlType::F32, [i64::MAX, i64::MAX, 1, 1], 0)),
        Err(LoaderError::TooManyElements { .. })
    ));
}
