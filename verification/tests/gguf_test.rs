use acute_engine::gguf::{
    gguf_init_from_bytes, pad, GgmlType, GgufCtx, GgufError, GgufReader, GgufValue, GgufValueType,
};

// --- a small GGUF writer for building test files ---

fn put_u32(b: &mut Vec<u8>, v: u32) {
    b.extend_from_slice(&v.to_le_bytes());
}

fn put_u64(b: &mut Vec<u8>, v: u64) {
    b.extend_from_slice(&v.to_le_bytes());
}

fn put_str(b: &mut Vec<u8>, s: &[u8]) {
    put_u64(b, s.len() as u64);
    b.extend_from_slice(s);
}

fn header(version: u32, n_tensors: u64, n_kv: u64) -> Vec<u8> {
    let mut b = b"GGUF".to_vec();
    put_u32(&mut b, version);
    put_u64(&mut b, n_tensors);
    put_u64(&mut b, n_kv);
    b
}

fn kv_string(b: &mut Vec<u8>, key: &[u8], value: &[u8]) {
    put_str(b, key);
    put_u32(b, 8);
    put_str(b, value);
}

fn kv_u32(b: &mut Vec<u8>, key: &[u8], value: u32) {
    put_str(b, key);
    put_u32(b, 4);
    put_u32(b, value);
}

fn tensor(b: &mut Vec<u8>, name: &[u8], dims: &[u64], type_id: u32, offset: u64) {
    put_str(b, name);
    put_u32(b, dims.len() as u32);
    for &d in dims {
        put_u64(b, d);
    }
    put_u32(b, type_id);
    put_u64(b, offset);
}

fn parse(b: &[u8]) -> Result<GgufCtx, GgufError> {
    gguf_init_from_bytes(b)
}

// --- a valid file ---

#[test]
fn parses_a_small_valid_header() {
    let mut b = header(3, 2, 1);
    kv_string(&mut b, b"general.name", b"tiny");
    tensor(&mut b, b"w", &[4, 2], 0, 0); // 8 f32 = 32 bytes
    tensor(&mut b, b"b", &[3], 0, 32); // 3 f32 = 12 bytes, padded to 32
    let header_len = b.len() as u64;
    let ctx = parse(&b).expect("valid header");

    assert_eq!(ctx.version, 3);
    assert_eq!(ctx.kv.len(), 1);
    assert_eq!(ctx.kv[0].0, "general.name");
    match &ctx.kv[0].1 {
        GgufValue::String(s) => assert_eq!(s, "tiny"),
        other => panic!("unexpected value {other:?}"),
    }
    assert_eq!(ctx.alignment, 32);
    assert_eq!(ctx.tensor_infos.len(), 2);
    let w = &ctx.tensor_infos[0];
    assert_eq!(w.name, "w");
    assert_eq!(w.ne, [4, 2, 1, 1]);
    assert_eq!(w.dtype, GgmlType::F32);
    assert_eq!(w.nb, [4, 16, 32, 32]);
    assert_eq!(w.nbytes(), 32);
    assert_eq!(ctx.tensor_infos[1].ne, [3, 1, 1, 1]);
    assert_eq!(ctx.tensor_infos[1].nbytes(), 12);
    assert_eq!(ctx.data_offset, pad(header_len, 32));
    assert_eq!(ctx.data_offset % 32, 0);
    assert_eq!(ctx.data_size, 64);
}

#[test]
fn header_without_tensors_starts_data_right_after_it() {
    let b = header(2, 0, 0);
    let ctx = parse(&b).expect("valid header");
    assert_eq!(ctx.data_offset, 24);
    assert_eq!(ctx.data_size, 0);
    assert_eq!(ctx.alignment, 32);
}

#[test]
fn alignment_key_sets_the_alignment() {
    let mut b = header(3, 1, 1);
    kv_u32(&mut b, b"general.alignment", 64);
    tensor(&mut b, b"x", &[2], 0, 0);
    let ctx = parse(&b).expect("valid header");
    assert_eq!(ctx.alignment, 64);
    assert_eq!(ctx.data_offset % 64, 0);
    assert_eq!(ctx.data_size, 64);
}

#[test]
fn find_kv_returns_the_first_matching_value() {
    let mut b = header(3, 0, 2);
    kv_u32(&mut b, b"split.count", 3);
    kv_string(&mut b, b"general.name", b"m");
    let ctx = parse(&b).expect("valid header");
    match ctx.find_kv("split.count") {
        Some(GgufValue::Uint32(n)) => assert_eq!(*n, 3),
        other => panic!("unexpected {other:?}"),
    }
    assert!(ctx.find_kv("nope").is_none());
}

#[test]
fn arrays_and_scalars_are_read() {
    let mut b = header(3, 0, 3);
    // array of three u16
    put_str(&mut b, b"a");
    put_u32(&mut b, 9);
    put_u32(&mut b, 2);
    put_u64(&mut b, 3);
    for v in [1u16, 2, 3] {
        b.extend_from_slice(&v.to_le_bytes());
    }
    // f32 kept as bits
    put_str(&mut b, b"f");
    put_u32(&mut b, 6);
    b.extend_from_slice(&1.5f32.to_le_bytes());
    // bool
    put_str(&mut b, b"t");
    put_u32(&mut b, 7);
    b.push(1);
    let ctx = parse(&b).expect("valid header");
    match &ctx.kv[0].1 {
        GgufValue::Array(items) => {
            assert_eq!(items.len(), 3);
            assert!(matches!(items[2], GgufValue::Uint16(3)));
        }
        other => panic!("unexpected {other:?}"),
    }
    match &ctx.kv[1].1 {
        GgufValue::Float32(bits) => assert_eq!(f32::from_bits(*bits), 1.5),
        other => panic!("unexpected {other:?}"),
    }
    assert!(matches!(ctx.kv[2].1, GgufValue::Bool(true)));
}

// --- each error ---

#[test]
fn rejects_bad_magic() {
    let mut b = header(3, 0, 0);
    b[0] = b'X';
    assert_eq!(parse(&b).unwrap_err(), GgufError::InvalidMagic { b0: b'X', b1: b'G', b2: b'U', b3: b'F' });
}

#[test]
fn rejects_truncated_input() {
    let b = b"GGUF\x03\x00".to_vec();
    assert_eq!(parse(&b).unwrap_err(), GgufError::ReadFailed { wanted: 4 });
    assert_eq!(parse(&[]).unwrap_err(), GgufError::ReadFailed { wanted: 4 });
}

#[test]
fn rejects_bad_versions() {
    assert_eq!(parse(&header(0, 0, 0)).unwrap_err(), GgufError::ZeroVersion);
    assert_eq!(parse(&header(0x0003_0000, 0, 0)).unwrap_err(), GgufError::VersionByteOrder { version: 0x0003_0000 });
    assert_eq!(parse(&header(1, 0, 0)).unwrap_err(), GgufError::VersionOne);
    assert_eq!(parse(&header(4, 0, 0)).unwrap_err(), GgufError::VersionTooNew { version: 4 });
}

#[test]
fn rejects_empty_and_duplicate_keys() {
    let mut b = header(3, 0, 1);
    kv_u32(&mut b, b"", 1);
    assert_eq!(parse(&b).unwrap_err(), GgufError::EmptyKey { index: 0 });

    let mut b = header(3, 0, 2);
    kv_u32(&mut b, b"k", 1);
    kv_u32(&mut b, b"k", 2);
    assert_eq!(parse(&b).unwrap_err(), GgufError::DuplicateKey { index: 1, key: "k".to_string() });
}

#[test]
fn rejects_invalid_utf8_key() {
    let mut b = header(3, 0, 1);
    kv_u32(&mut b, &[0xff, 0xfe], 1);
    assert_eq!(parse(&b).unwrap_err(), GgufError::InvalidUtf8);
}

#[test]
fn rejects_unknown_value_type_and_nested_arrays() {
    let mut b = header(3, 0, 1);
    put_str(&mut b, b"k");
    put_u32(&mut b, 13);
    assert_eq!(parse(&b).unwrap_err(), GgufError::InvalidValueType { id: 13 });

    let mut b = header(3, 0, 1);
    put_str(&mut b, b"k");
    put_u32(&mut b, 9);
    put_u32(&mut b, 9);
    put_u64(&mut b, 1);
    assert_eq!(parse(&b).unwrap_err(), GgufError::NestedArray);
}

#[test]
fn rejects_bad_alignment() {
    let mut b = header(3, 0, 1);
    kv_string(&mut b, b"general.alignment", b"32");
    assert_eq!(parse(&b).unwrap_err(), GgufError::AlignmentNotU32);

    let mut b = header(3, 0, 1);
    kv_u32(&mut b, b"general.alignment", 24);
    assert_eq!(parse(&b).unwrap_err(), GgufError::AlignmentNotPowerOfTwo { alignment: 24 });

    let mut b = header(3, 0, 1);
    kv_u32(&mut b, b"general.alignment", 0);
    assert_eq!(parse(&b).unwrap_err(), GgufError::AlignmentNotPowerOfTwo { alignment: 0 });
}

#[test]
fn rejects_bad_tensor_entries() {
    let long = vec![b'n'; 64];
    let mut b = header(3, 1, 0);
    tensor(&mut b, &long, &[1], 0, 0);
    assert_eq!(parse(&b).unwrap_err(), GgufError::NameTooLong { index: 0, name_len: 64 });

    let mut b = header(3, 2, 0);
    tensor(&mut b, b"t", &[1], 0, 0);
    tensor(&mut b, b"t", &[1], 0, 32);
    assert_eq!(parse(&b).unwrap_err(), GgufError::DuplicateTensorName { index: 1, name: "t".to_string() });

    let mut b = header(3, 1, 0);
    tensor(&mut b, b"t", &[1, 1, 1, 1, 1], 0, 0);
    assert_eq!(parse(&b).unwrap_err(), GgufError::TooManyDimensions { index: 0, name: "t".to_string(), n_dims: 5 });

    let mut b = header(3, 1, 0);
    tensor(&mut b, b"t", &[2, u64::MAX], 0, 0);
    assert_eq!(parse(&b).unwrap_err(), GgufError::NegativeDimension { index: 0, name: "t".to_string(), dim: 1, value: -1 });

    let mut b = header(3, 1, 0);
    tensor(&mut b, b"t", &[2], 4, 0);
    assert_eq!(parse(&b).unwrap_err(), GgufError::InvalidTensorType { index: 0, name: "t".to_string(), id: 4 });

    let mut b = header(3, 1, 0);
    tensor(&mut b, b"t", &[16], 2, 0); // Q4_0 blocks hold 32 elements
    assert_eq!(parse(&b).unwrap_err(), GgufError::NotBlockMultiple { index: 0, name: "t".to_string(), dtype: GgmlType::Q4_0, ne0: 16, block: 32 });

    let mut b = header(3, 1, 0);
    tensor(&mut b, b"t", &[2, 0], 0, 0);
    assert_eq!(parse(&b).unwrap_err(), GgufError::DimensionArithmetic { index: 0, name: "t".to_string() });

    let mut b = header(3, 1, 0);
    tensor(&mut b, b"t", &[1 << 32, 1 << 31], 0, 0);
    assert_eq!(parse(&b).unwrap_err(), GgufError::TooManyElements { index: 0, name: "t".to_string(), ne0: 1 << 32, ne1: 1 << 31, ne2: 1, ne3: 1 });
}

#[test]
fn rejects_misplaced_tensor_data() {
    let mut b = header(3, 2, 0);
    tensor(&mut b, b"a", &[3], 0, 0);
    tensor(&mut b, b"b", &[3], 0, 12); // must start at the padded end, 32
    assert_eq!(parse(&b).unwrap_err(), GgufError::OffsetMismatch { index: 1, name: "b".to_string(), offset: 12, expected: 32 });
}

#[test]
fn rejects_oversized_counts_and_strings() {
    let mut b = header(3, 0, 1);
    put_u64(&mut b, u64::MAX); // key length
    if usize::BITS == 64 {
        assert_eq!(parse(&b).unwrap_err(), GgufError::ReadFailed { wanted: u64::MAX });
    }
}

// --- the reader ---

#[test]
fn reader_reads_little_endian_values_and_tracks_position() {
    let bytes = [0x01u8, 0x02, 0x03, 0x04, 0xff, 0x00, 0x01];
    let mut r = GgufReader::new(&bytes);
    assert_eq!(r.read_u32().unwrap(), 0x0403_0201);
    assert_eq!(r.tell(), 4);
    assert_eq!(r.read_i8().unwrap(), -1);
    assert!(!r.read_bool().unwrap());
    assert!(r.read_bool().unwrap());
    assert_eq!(r.read_u8().unwrap_err(), GgufError::ReadFailed { wanted: 1 });
    assert_eq!(r.tell(), 7);
}

#[test]
fn reader_reads_strings_and_values() {
    let mut b = Vec::new();
    put_str(&mut b, b"hi");
    put_u64(&mut b, 0xffff_ffff_ffff_fffe);
    b.extend_from_slice(&(-3i16).to_le_bytes());
    let mut r = GgufReader::new(&b);
    assert_eq!(r.read_string().unwrap(), "hi");
    assert_eq!(r.read_i64().unwrap(), -2);
    assert!(matches!(r.read_value(GgufValueType::Int16).unwrap(), GgufValue::Int16(-3)));
    assert_eq!(r.read_bytes(1).unwrap_err(), GgufError::ReadFailed { wanted: 1 });
}

#[test]
fn type_ids_sizes_and_padding() {
    assert_eq!(GgmlType::from_id(0), Some(GgmlType::F32));
    assert_eq!(GgmlType::from_id(8), Some(GgmlType::Q8_0));
    assert_eq!(GgmlType::from_id(4), None);
    assert_eq!(GgmlType::Q8_0.block_size(), 32);
    assert_eq!(GgmlType::Q8_0.type_size(), 34);
    assert_eq!(GgmlType::Q6K.block_size(), 256);
    assert_eq!(GgmlType::Q6K.type_size(), 210);
    assert_eq!(GgmlType::F16.type_size(), 2);
    assert!(matches!(GgufValueType::from_id(12), Some(GgufValueType::Float64)));
    assert!(GgufValueType::from_id(13).is_none());
    assert_eq!(pad(0, 32), 0);
    assert_eq!(pad(1, 32), 32);
    assert_eq!(pad(33, 32), 64);
    assert_eq!(pad(64, 32), 64);
}
