//! The GGUF container format: element types, metadata values, tensor
//! descriptions and the header parser.

use vstd::prelude::*;
use vstd::utf8::*;

verus! {

/// Element type of a tensor, as tagged by the type id of a tensor entry.
#[allow(non_camel_case_types)]
#[derive(Debug, Clone, Copy, PartialEq, Eq, Structural)]
pub enum GgmlType {
    F32,
    F16,
    F64,
    Bf16,
    I8,
    I16,
    I32,
    I64,
    Q4_0,
    Q4_1,
    Q5_0,
    Q5_1,
    Q8_0,
    Q8_1,
    Q2K,
    Q3K,
    Q4K,
    Q5K,
    Q6K,
    Q8K,
}

/// The element type with the given id, if the id names one that is supported.
pub open spec fn ggml_type_of_id(id: u32) -> Option<GgmlType> {
    if id == 0 { Some(GgmlType::F32) }
    else if id == 1 { Some(GgmlType::F16) }
    else if id == 2 { Some(GgmlType::Q4_0) }
    else if id == 3 { Some(GgmlType::Q4_1) }
    else if id == 6 { Some(GgmlType::Q5_0) }
    else if id == 7 { Some(GgmlType::Q5_1) }
    else if id == 8 { Some(GgmlType::Q8_0) }
    else if id == 9 { Some(GgmlType::Q8_1) }
    else if id == 10 { Some(GgmlType::Q2K) }
    else if id == 11 { Some(GgmlType::Q3K) }
    else if id == 12 { Some(GgmlType::Q4K) }
    else if id == 13 { Some(GgmlType::Q5K) }
    else if id == 14 { Some(GgmlType::Q6K) }
    else if id == 15 { Some(GgmlType::Q8K) }
    else if id == 24 { Some(GgmlType::I8) }
    else if id == 25 { Some(GgmlType::I16) }
    else if id == 26 { Some(GgmlType::I32) }
    else if id == 27 { Some(GgmlType::I64) }
    else if id == 28 { Some(GgmlType::F64) }
    else if id == 30 { Some(GgmlType::Bf16) }
    else { None }
}

impl GgmlType {
    /// Number of elements in one quantization block (1 for plain types).
    pub open spec fn spec_block_size(self) -> i64 {
        match self {
            GgmlType::F32 | GgmlType::F16 | GgmlType::F64 | GgmlType::Bf16
            | GgmlType::I8 | GgmlType::I16 | GgmlType::I32 | GgmlType::I64 => 1,
            GgmlType::Q4_0 | GgmlType::Q4_1 | GgmlType::Q5_0 | GgmlType::Q5_1
            | GgmlType::Q8_0 | GgmlType::Q8_1 => 32,
            GgmlType::Q2K | GgmlType::Q3K | GgmlType::Q4K | GgmlType::Q5K
            | GgmlType::Q6K | GgmlType::Q8K => 256,
        }
    }

    /// Size in bytes of one block.
    pub open spec fn spec_type_size(self) -> u64 {
        match self {
            GgmlType::F32 => 4,
            GgmlType::F16 => 2,
            GgmlType::F64 => 8,
            GgmlType::Bf16 => 2,
            GgmlType::I8 => 1,
            GgmlType::I16 => 2,
            GgmlType::I32 => 4,
            GgmlType::I64 => 8,
            GgmlType::Q4_0 => 18,
            GgmlType::Q4_1 => 20,
            GgmlType::Q5_0 => 22,
            GgmlType::Q5_1 => 24,
            GgmlType::Q8_0 => 34,
            GgmlType::Q8_1 => 36,
            GgmlType::Q2K => 84,
            GgmlType::Q3K => 110,
            GgmlType::Q4K => 144,
            GgmlType::Q5K => 176,
            GgmlType::Q6K => 210,
            GgmlType::Q8K => 292,
        }
    }

    /// The element type with the given id; `None` for ids of types that
    /// cannot be sized.
    pub fn from_id(id: u32) -> (res: Option<GgmlType>)
        ensures
            res == ggml_type_of_id(id),
    {
        match id {
            0 => Some(GgmlType::F32),
            1 => Some(GgmlType::F16),
            2 => Some(GgmlType::Q4_0),
            3 => Some(GgmlType::Q4_1),
            6 => Some(GgmlType::Q5_0),
            7 => Some(GgmlType::Q5_1),
            8 => Some(GgmlType::Q8_0),
            9 => Some(GgmlType::Q8_1),
            10 => Some(GgmlType::Q2K),
            11 => Some(GgmlType::Q3K),
            12 => Some(GgmlType::Q4K),
            13 => Some(GgmlType::Q5K),
            14 => Some(GgmlType::Q6K),
            15 => Some(GgmlType::Q8K),
            24 => Some(GgmlType::I8),
            25 => Some(GgmlType::I16),
            26 => Some(GgmlType::I32),
            27 => Some(GgmlType::I64),
            28 => Some(GgmlType::F64),
            30 => Some(GgmlType::Bf16),
            _ => None,
        }
    }

    /// Number of elements per quantization block.
    pub fn block_size(self) -> (r: i64)
        ensures
            r == self.spec_block_size(),
            r == 1 || r == 32 || r == 256,
    {
        match self {
            GgmlType::F32 | GgmlType::F16 | GgmlType::F64 | GgmlType::Bf16
            | GgmlType::I8 | GgmlType::I16 | GgmlType::I32 | GgmlType::I64 => 1,
            GgmlType::Q4_0 | GgmlType::Q4_1 | GgmlType::Q5_0 | GgmlType::Q5_1
            | GgmlType::Q8_0 | GgmlType::Q8_1 => 32,
            GgmlType::Q2K | GgmlType::Q3K | GgmlType::Q4K | GgmlType::Q5K
            | GgmlType::Q6K | GgmlType::Q8K => 256,
        }
    }

    /// Size in bytes of one block.
    pub fn type_size(self) -> (r: u64)
        ensures
            r == self.spec_type_size(),
            1 <= r <= 292,
    {
        match self {
            GgmlType::F32 => 4,
            GgmlType::F16 => 2,
            GgmlType::F64 => 8,
            GgmlType::Bf16 => 2,
            GgmlType::I8 => 1,
            GgmlType::I16 => 2,
            GgmlType::I32 => 4,
            GgmlType::I64 => 8,
            GgmlType::Q4_0 => 18,
            GgmlType::Q4_1 => 20,
            GgmlType::Q5_0 => 22,
            GgmlType::Q5_1 => 24,
            GgmlType::Q8_0 => 34,
            GgmlType::Q8_1 => 36,
            GgmlType::Q2K => 84,
            GgmlType::Q3K => 110,
            GgmlType::Q4K => 144,
            GgmlType::Q5K => 176,
            GgmlType::Q6K => 210,
            GgmlType::Q8K => 292,
        }
    }
}


/// Type tag of a metadata value.
#[derive(Debug, Clone, Copy, PartialEq, Eq, Structural)]
pub enum GgufValueType {
    Uint8,
    Int8,
    Uint16,
    Int16,
    Uint32,
    Int32,
    Float32,
    Bool,
    String,
    Array,
    Uint64,
    Int64,
    Float64,
}

/// The value type with the given id, if there is one.
pub open spec fn value_type_of_id(id: u32) -> Option<GgufValueType> {
    if id == 0 { Some(GgufValueType::Uint8) }
    else if id == 1 { Some(GgufValueType::Int8) }
    else if id == 2 { Some(GgufValueType::Uint16) }
    else if id == 3 { Some(GgufValueType::Int16) }
    else if id == 4 { Some(GgufValueType::Uint32) }
    else if id == 5 { Some(GgufValueType::Int32) }
    else if id == 6 { Some(GgufValueType::Float32) }
    else if id == 7 { Some(GgufValueType::Bool) }
    else if id == 8 { Some(GgufValueType::String) }
    else if id == 9 { Some(GgufValueType::Array) }
    else if id == 10 { Some(GgufValueType::Uint64) }
    else if id == 11 { Some(GgufValueType::Int64) }
    else if id == 12 { Some(GgufValueType::Float64) }
    else { None }
}

impl GgufValueType {
    /// The value type with the given id.
    pub fn from_id(id: u32) -> (res: Option<GgufValueType>)
        ensures
            res == value_type_of_id(id),
    {
        match id {
            0 => Some(GgufValueType::Uint8),
            1 => Some(GgufValueType::Int8),
            2 => Some(GgufValueType::Uint16),
            3 => Some(GgufValueType::Int16),
            4 => Some(GgufValueType::Uint32),
            5 => Some(GgufValueType::Int32),
            6 => Some(GgufValueType::Float32),
            7 => Some(GgufValueType::Bool),
            8 => Some(GgufValueType::String),
            9 => Some(GgufValueType::Array),
            10 => Some(GgufValueType::Uint64),
            11 => Some(GgufValueType::Int64),
            12 => Some(GgufValueType::Float64),
            _ => None,
        }
    }
}

/// Why a GGUF header was rejected.
///
/// Indices count key-value entries or tensor entries from zero, in file order.
#[derive(Debug, PartialEq, Eq)]
pub enum GgufError {
    /// The input ended before `wanted` more bytes could be read.
    ReadFailed { wanted: u64 },
    /// A string length does not fit in `usize`.
    StringTooLong { len: u64 },
    /// A string is not valid UTF-8.
    InvalidUtf8,
    /// The file does not start with the four bytes `GGUF`.
    InvalidMagic { b0: u8, b1: u8, b2: u8, b3: u8 },
    /// The version field is zero.
    ZeroVersion,
    /// The low 16 bits of the version are zero, a sign of swapped byte order.
    VersionByteOrder { version: u32 },
    /// Version 1 is no longer read.
    VersionOne,
    /// The version is newer than the one this reader knows.
    VersionTooNew { version: u32 },
    /// The tensor count does not fit in `usize`.
    TensorCountTooLarge { count: u64 },
    /// The key-value count does not fit in `usize`.
    KvCountTooLarge { count: u64 },
    /// A key is the empty string.
    EmptyKey { index: usize },
    /// A key occurs twice.
    DuplicateKey { index: usize, key: String },
    /// A value type id is unknown.
    InvalidValueType { id: u32 },
    /// An array length does not fit in `usize`.
    ArrayTooLong { len: u64 },
    /// An array holds arrays.
    NestedArray,
    /// The alignment key does not hold a `u32`.
    AlignmentNotU32,
    /// The alignment is zero or not a power of two.
    AlignmentNotPowerOfTwo { alignment: usize },
    /// A tensor name has 64 bytes or more.
    NameTooLong { index: usize, name_len: usize },
    /// A tensor name occurs twice.
    DuplicateTensorName { index: usize, name: String },
    /// A tensor has more than four dimensions.
    TooManyDimensions { index: usize, name: String, n_dims: u32 },
    /// A dimension, read as `i64`, is negative.
    NegativeDimension { index: usize, name: String, dim: usize, value: i64 },
    /// The element count of a tensor reaches `i64::MAX`.
    TooManyElements { index: usize, name: String, ne0: i64, ne1: i64, ne2: i64, ne3: i64 },
    /// A tensor's element type id is unknown.
    InvalidTensorType { index: usize, name: String, id: u32 },
    /// The innermost dimension is not a multiple of the type's block size.
    NotBlockMultiple { index: usize, name: String, dtype: GgmlType, ne0: i64, block: i64 },
    /// A dimension from the second on is zero where the element count is
    /// checked by division, or a byte stride or byte size does not fit in `u64`.
    DimensionArithmetic { index: usize, name: String },
    /// A tensor's data does not start where the previous one's padded data ends.
    OffsetMismatch { index: usize, name: String, offset: u64, expected: u64 },
    /// The padded data section size does not fit in `u64`.
    SizeOverflow { index: usize, name: String },
    /// Padding the end of the header to the alignment overflows `u64`.
    DataOffsetOverflow,
}

/// The content of a `GgufError`; keys and names are given by their UTF-8
/// bytes.
pub enum GgufErrorModel {
    /// The input ended before `wanted` more bytes could be read.
    ReadFailed { wanted: u64 },
    /// A string length does not fit in `usize`.
    StringTooLong { len: u64 },
    /// A string is not valid UTF-8.
    InvalidUtf8,
    /// The file does not start with the four bytes `GGUF`.
    InvalidMagic { b0: u8, b1: u8, b2: u8, b3: u8 },
    /// The version field is zero.
    ZeroVersion,
    /// The low 16 bits of the version are zero, a sign of swapped byte order.
    VersionByteOrder { version: u32 },
    /// Version 1 is no longer read.
    VersionOne,
    /// The version is newer than the one this reader knows.
    VersionTooNew { version: u32 },
    /// The tensor count does not fit in `usize`.
    TensorCountTooLarge { count: u64 },
    /// The key-value count does not fit in `usize`.
    KvCountTooLarge { count: u64 },
    /// A key is the empty string.
    EmptyKey { index: usize },
    /// A key occurs twice.
    DuplicateKey { index: usize, key: Seq<u8> },
    /// A value type id is unknown.
    InvalidValueType { id: u32 },
    /// An array length does not fit in `usize`.
    ArrayTooLong { len: u64 },
    /// An array holds arrays.
    NestedArray,
    /// The alignment key does not hold a `u32`.
    AlignmentNotU32,
    /// The alignment is zero or not a power of two.
    AlignmentNotPowerOfTwo { alignment: usize },
    /// A tensor name has 64 bytes or more.
    NameTooLong { index: usize, name_len: usize },
    /// A tensor name occurs twice.
    DuplicateTensorName { index: usize, name: Seq<u8> },
    /// A tensor has more than four dimensions.
    TooManyDimensions { index: usize, name: Seq<u8>, n_dims: u32 },
    /// A dimension, read as `i64`, is negative.
    NegativeDimension { index: usize, name: Seq<u8>, dim: usize, value: i64 },
    /// The element count of a tensor reaches `i64::MAX`.
    TooManyElements { index: usize, name: Seq<u8>, ne0: i64, ne1: i64, ne2: i64, ne3: i64 },
    /// A tensor's element type id is unknown.
    InvalidTensorType { index: usize, name: Seq<u8>, id: u32 },
    /// The innermost dimension is not a multiple of the type's block size.
    NotBlockMultiple { index: usize, name: Seq<u8>, dtype: GgmlType, ne0: i64, block: i64 },
    /// A dimension from the second on is zero where the element count is
    /// checked by division, or a byte stride or byte size does not fit in `u64`.
    DimensionArithmetic { index: usize, name: Seq<u8> },
    /// A tensor's data does not start where the previous one's padded data ends.
    OffsetMismatch { index: usize, name: Seq<u8>, offset: u64, expected: u64 },
    /// The padded data section size does not fit in `u64`.
    SizeOverflow { index: usize, name: Seq<u8> },
    /// Padding the end of the header to the alignment overflows `u64`.
    DataOffsetOverflow,
}

impl GgufError {
    /// The content of this error.
    pub open spec fn model(&self) -> GgufErrorModel {
        match self {
            GgufError::ReadFailed { wanted } => GgufErrorModel::ReadFailed { wanted: *wanted },
            GgufError::StringTooLong { len } => GgufErrorModel::StringTooLong { len: *len },
            GgufError::InvalidUtf8 => GgufErrorModel::InvalidUtf8,
            GgufError::InvalidMagic { b0, b1, b2, b3 } => GgufErrorModel::InvalidMagic { b0: *b0, b1: *b1, b2: *b2, b3: *b3 },
            GgufError::ZeroVersion => GgufErrorModel::ZeroVersion,
            GgufError::VersionByteOrder { version } => GgufErrorModel::VersionByteOrder { version: *version },
            GgufError::VersionOne => GgufErrorModel::VersionOne,
            GgufError::VersionTooNew { version } => GgufErrorModel::VersionTooNew { version: *version },
            GgufError::TensorCountTooLarge { count } => GgufErrorModel::TensorCountTooLarge { count: *count },
            GgufError::KvCountTooLarge { count } => GgufErrorModel::KvCountTooLarge { count: *count },
            GgufError::EmptyKey { index } => GgufErrorModel::EmptyKey { index: *index },
            GgufError::DuplicateKey { index, key } => GgufErrorModel::DuplicateKey { index: *index, key: encode_utf8(key@) },
            GgufError::InvalidValueType { id } => GgufErrorModel::InvalidValueType { id: *id },
            GgufError::ArrayTooLong { len } => GgufErrorModel::ArrayTooLong { len: *len },
            GgufError::NestedArray => GgufErrorModel::NestedArray,
            GgufError::AlignmentNotU32 => GgufErrorModel::AlignmentNotU32,
            GgufError::AlignmentNotPowerOfTwo { alignment } => GgufErrorModel::AlignmentNotPowerOfTwo { alignment: *alignment },
            GgufError::NameTooLong { index, name_len } => GgufErrorModel::NameTooLong { index: *index, name_len: *name_len },
            GgufError::DuplicateTensorName { index, name } => GgufErrorModel::DuplicateTensorName { index: *index, name: encode_utf8(name@) },
            GgufError::TooManyDimensions { index, name, n_dims } => GgufErrorModel::TooManyDimensions { index: *index, name: encode_utf8(name@), n_dims: *n_dims },
            GgufError::NegativeDimension { index, name, dim, value } => GgufErrorModel::NegativeDimension { index: *index, name: encode_utf8(name@), dim: *dim, value: *value },
            GgufError::TooManyElements { index, name, ne0, ne1, ne2, ne3 } => GgufErrorModel::TooManyElements { index: *index, name: encode_utf8(name@), ne0: *ne0, ne1: *ne1, ne2: *ne2, ne3: *ne3 },
            GgufError::InvalidTensorType { index, name, id } => GgufErrorModel::InvalidTensorType { index: *index, name: encode_utf8(name@), id: *id },
            GgufError::NotBlockMultiple { index, name, dtype, ne0, block } => GgufErrorModel::NotBlockMultiple { index: *index, name: encode_utf8(name@), dtype: *dtype, ne0: *ne0, block: *block },
            GgufError::DimensionArithmetic { index, name } => GgufErrorModel::DimensionArithmetic { index: *index, name: encode_utf8(name@) },
            GgufError::OffsetMismatch { index, name, offset, expected } => GgufErrorModel::OffsetMismatch { index: *index, name: encode_utf8(name@), offset: *offset, expected: *expected },
            GgufError::SizeOverflow { index, name } => GgufErrorModel::SizeOverflow { index: *index, name: encode_utf8(name@) },
            GgufError::DataOffsetOverflow => GgufErrorModel::DataOffsetOverflow,
        }
    }
}

/// A metadata value. Floating-point values are kept as their IEEE-754 bit
/// patterns.
#[derive(Debug)]
pub enum GgufValue {
    Uint8(u8),
    Int8(i8),
    Uint16(u16),
    Int16(i16),
    Uint32(u32),
    Int32(i32),
    Uint64(u64),
    Int64(i64),
    Float32(u32),
    Float64(u64),
    Bool(bool),
    String(String),
    Array(Vec<GgufValue>),
}

/// The mathematical content of a metadata value; strings are given by their
/// UTF-8 bytes.
pub enum GgufValueModel {
    Uint8(u8),
    Int8(i8),
    Uint16(u16),
    Int16(i16),
    Uint32(u32),
    Int32(i32),
    Uint64(u64),
    Int64(i64),
    Float32(u32),
    Float64(u64),
    Bool(bool),
    Str(Seq<u8>),
    Array(Seq<GgufValueModel>),
}

impl GgufValue {
    /// The content of this value.
    pub open spec fn model(&self) -> GgufValueModel
        decreases self,
    {
        match self {
            GgufValue::Uint8(x) => GgufValueModel::Uint8(*x),
            GgufValue::Int8(x) => GgufValueModel::Int8(*x),
            GgufValue::Uint16(x) => GgufValueModel::Uint16(*x),
            GgufValue::Int16(x) => GgufValueModel::Int16(*x),
            GgufValue::Uint32(x) => GgufValueModel::Uint32(*x),
            GgufValue::Int32(x) => GgufValueModel::Int32(*x),
            GgufValue::Uint64(x) => GgufValueModel::Uint64(*x),
            GgufValue::Int64(x) => GgufValueModel::Int64(*x),
            GgufValue::Float32(x) => GgufValueModel::Float32(*x),
            GgufValue::Float64(x) => GgufValueModel::Float64(*x),
            GgufValue::Bool(x) => GgufValueModel::Bool(*x),
            GgufValue::String(s) => GgufValueModel::Str(encode_utf8(s@)),
            GgufValue::Array(v) => GgufValueModel::Array(
                Seq::new(
                    v@.len(),
                    |i: int|
                        if 0 <= i < v@.len() {
                            v@[i].model()
                        } else {
                            GgufValueModel::Bool(false)
                        },
                ),
            ),
        }
    }
}

// ---------------------------------------------------------------------
// reading little-endian values out of a byte sequence
// ---------------------------------------------------------------------

/// Little-endian value of two bytes.
pub open spec fn le_u16(s: Seq<u8>) -> u16 {
    (s[0] + s[1] * 0x100) as u16
}

/// Little-endian value of four bytes.
pub open spec fn le_u32(s: Seq<u8>) -> u32 {
    (s[0] + s[1] * 0x100 + s[2] * 0x1_0000 + s[3] * 0x100_0000) as u32
}

/// Little-endian value of eight bytes.
pub open spec fn le_u64(s: Seq<u8>) -> u64 {
    (s[0] + s[1] * 0x100 + s[2] * 0x1_0000 + s[3] * 0x100_0000 + s[4] * 0x1_0000_0000
        + s[5] * 0x100_0000_0000 + s[6] * 0x1_0000_0000_0000 + s[7]
        * 0x100_0000_0000_0000) as u64
}

/// Reading `n` bytes at `pos`: the bytes and the position after them.
pub open spec fn spec_read_bytes(b: Seq<u8>, pos: int, n: int) -> Result<(Seq<u8>, int), GgufErrorModel> {
    if 0 <= pos && 0 <= n && pos + n <= b.len() {
        Ok((b.subrange(pos, pos + n), pos + n))
    } else {
        Err(GgufErrorModel::ReadFailed { wanted: n as u64 })
    }
}

pub open spec fn spec_read_u8(b: Seq<u8>, pos: int) -> Result<(u8, int), GgufErrorModel> {
    match spec_read_bytes(b, pos, 1) {
        Ok((s, p)) => Ok((s[0], p)),
        Err(e) => Err(e),
    }
}

pub open spec fn spec_read_u16(b: Seq<u8>, pos: int) -> Result<(u16, int), GgufErrorModel> {
    match spec_read_bytes(b, pos, 2) {
        Ok((s, p)) => Ok((le_u16(s), p)),
        Err(e) => Err(e),
    }
}

pub open spec fn spec_read_u32(b: Seq<u8>, pos: int) -> Result<(u32, int), GgufErrorModel> {
    match spec_read_bytes(b, pos, 4) {
        Ok((s, p)) => Ok((le_u32(s), p)),
        Err(e) => Err(e),
    }
}

pub open spec fn spec_read_u64(b: Seq<u8>, pos: int) -> Result<(u64, int), GgufErrorModel> {
    match spec_read_bytes(b, pos, 8) {
        Ok((s, p)) => Ok((le_u64(s), p)),
        Err(e) => Err(e),
    }
}

/// A length-prefixed UTF-8 string: its bytes and the position after it.
pub open spec fn spec_read_string(b: Seq<u8>, pos: int) -> Result<(Seq<u8>, int), GgufErrorModel> {
    match spec_read_u64(b, pos) {
        Err(e) => Err(e),
        Ok((len, p)) => if len > usize::MAX {
            Err(GgufErrorModel::StringTooLong { len })
        } else {
            match spec_read_bytes(b, p, len as int) {
                Err(e) => Err(e),
                Ok((s, q)) => if valid_utf8(s) {
                    Ok((s, q))
                } else {
                    Err(GgufErrorModel::InvalidUtf8)
                },
            }
        },
    }
}

/// A single (non-array) value of type `t`.
pub open spec fn spec_read_value(b: Seq<u8>, pos: int, t: GgufValueType) -> Result<(GgufValueModel, int), GgufErrorModel> {
    match t {
        GgufValueType::Uint8 => match spec_read_u8(b, pos) {
            Ok((x, p)) => Ok((GgufValueModel::Uint8(x), p)),
            Err(e) => Err(e),
        },
        GgufValueType::Int8 => match spec_read_u8(b, pos) {
            Ok((x, p)) => Ok((GgufValueModel::Int8(x as i8), p)),
            Err(e) => Err(e),
        },
        GgufValueType::Uint16 => match spec_read_u16(b, pos) {
            Ok((x, p)) => Ok((GgufValueModel::Uint16(x), p)),
            Err(e) => Err(e),
        },
        GgufValueType::Int16 => match spec_read_u16(b, pos) {
            Ok((x, p)) => Ok((GgufValueModel::Int16(x as i16), p)),
            Err(e) => Err(e),
        },
        GgufValueType::Uint32 => match spec_read_u32(b, pos) {
            Ok((x, p)) => Ok((GgufValueModel::Uint32(x), p)),
            Err(e) => Err(e),
        },
        GgufValueType::Int32 => match spec_read_u32(b, pos) {
            Ok((x, p)) => Ok((GgufValueModel::Int32(x as i32), p)),
            Err(e) => Err(e),
        },
        GgufValueType::Float32 => match spec_read_u32(b, pos) {
            Ok((x, p)) => Ok((GgufValueModel::Float32(x), p)),
            Err(e) => Err(e),
        },
        GgufValueType::Bool => match spec_read_u8(b, pos) {
            Ok((x, p)) => Ok((GgufValueModel::Bool(x != 0), p)),
            Err(e) => Err(e),
        },
        GgufValueType::String => match spec_read_string(b, pos) {
            Ok((s, p)) => Ok((GgufValueModel::Str(s), p)),
            Err(e) => Err(e),
        },
        GgufValueType::Uint64 => match spec_read_u64(b, pos) {
            Ok((x, p)) => Ok((GgufValueModel::Uint64(x), p)),
            Err(e) => Err(e),
        },
        GgufValueType::Int64 => match spec_read_u64(b, pos) {
            Ok((x, p)) => Ok((GgufValueModel::Int64(x as i64), p)),
            Err(e) => Err(e),
        },
        GgufValueType::Float64 => match spec_read_u64(b, pos) {
            Ok((x, p)) => Ok((GgufValueModel::Float64(x), p)),
            Err(e) => Err(e),
        },
        GgufValueType::Array => Err(GgufErrorModel::NestedArray),
    }
}

/// `res` is the outcome `spec`: the same value, or an error with the same
/// content.
pub open spec fn result_agrees<X>(res: Result<X, GgufError>, spec: Result<X, GgufErrorModel>) -> bool {
    match spec {
        Ok(x) => res == Ok::<X, GgufError>(x),
        Err(e) => res matches Err(e2) && e2.model() == e,
    }
}

/// A reader of GGUF primitives over an in-memory byte sequence.
pub struct GgufReader<'a> {
    bytes: &'a [u8],
    pos: usize,
}

/// `res` and the position `pos` after a read agree with the outcome `spec`
/// of reading: the value and the new position on success, the error
/// otherwise.
pub open spec fn read_agrees<X>(res: Result<X, GgufError>, pos: int, spec: Result<(X, int), GgufErrorModel>) -> bool {
    match spec {
        Ok((x, p)) => res == Ok::<X, GgufError>(x) && pos == p,
        Err(e) => res matches Err(e2) && e2.model() == e,
    }
}

impl<'a> GgufReader<'a> {
    /// The bytes being read.
    pub closed spec fn data(&self) -> Seq<u8> {
        self.bytes@
    }

    /// The current position.
    pub closed spec fn position(&self) -> int {
        self.pos as int
    }

    /// The position lies within the bytes.
    pub closed spec fn wf(&self) -> bool {
        self.pos <= self.bytes@.len()
    }

    /// A reader at the start of `bytes`.
    pub fn new(bytes: &'a [u8]) -> (r: GgufReader<'a>)
        ensures
            r.wf(),
            r.data() == bytes@,
            r.position() == 0,
    {
        GgufReader { bytes, pos: 0 }
    }

    /// The current position.
    pub fn tell(&self) -> (p: u64)
        requires
            self.wf(),
        ensures
            p == self.position(),
    {
        proof {
            assert(self.bytes@.len() == self.bytes.len());
        }
        self.pos as u64
    }

    /// Reads `n` bytes.
    pub fn read_bytes(&mut self, n: usize) -> (res: Result<Vec<u8>, GgufError>)
        requires
            old(self).wf(),
        ensures
            final(self).wf(),
            final(self).data() == old(self).data(),
            match spec_read_bytes(old(self).data(), old(self).position(), n as int) {
                Ok((s, p)) => res matches Ok(v) && v@ == s && final(self).position() == p,
                Err(e) => (res matches Err(e2) && e2.model() == e),
            },
    {
        let len = self.bytes.len();
        if n > len - self.pos {
            return Err(GgufError::ReadFailed { wanted: n as u64 });
        }
        let mut out: Vec<u8> = Vec::with_capacity(n);
        let start = self.pos;
        let mut i: usize = 0;
        while i < n
            invariant
                start + n <= len,
                len == self.bytes@.len(),
                i <= n,
                out@ == self.bytes@.subrange(start as int, start + i),
            decreases n - i,
        {
            out.push(self.bytes[start + i]);
            i = i + 1;
            proof {
                assert(out@ =~= self.bytes@.subrange(start as int, start + i));
            }
        }
        self.pos = start + n;
        Ok(out)
    }

    pub fn read_u8(&mut self) -> (res: Result<u8, GgufError>)
        requires
            old(self).wf(),
        ensures
            final(self).wf(),
            final(self).data() == old(self).data(),
            read_agrees(res, final(self).position(), spec_read_u8(old(self).data(), old(self).position())),
    {
        let v = self.read_bytes(1)?;
        Ok(v[0])
    }

    pub fn read_bool(&mut self) -> (res: Result<bool, GgufError>)
        requires
            old(self).wf(),
        ensures
            final(self).wf(),
            final(self).data() == old(self).data(),
            match spec_read_u8(old(self).data(), old(self).position()) {
                Ok((x, p)) => res == Ok::<bool, GgufError>(x != 0) && final(self).position() == p,
                Err(e) => (res matches Err(e2) && e2.model() == e),
            },
    {
        Ok(self.read_u8()? != 0)
    }

    pub fn read_i8(&mut self) -> (res: Result<i8, GgufError>)
        requires
            old(self).wf(),
        ensures
            final(self).wf(),
            final(self).data() == old(self).data(),
            match spec_read_u8(old(self).data(), old(self).position()) {
                Ok((x, p)) => res == Ok::<i8, GgufError>(x as i8) && final(self).position() == p,
                Err(e) => (res matches Err(e2) && e2.model() == e),
            },
    {
        Ok(self.read_u8()? as i8)
    }

    pub fn read_u16(&mut self) -> (res: Result<u16, GgufError>)
        requires
            old(self).wf(),
        ensures
            final(self).wf(),
            final(self).data() == old(self).data(),
            read_agrees(res, final(self).position(), spec_read_u16(old(self).data(), old(self).position())),
    {
        let v = self.read_bytes(2)?;
        Ok(v[0] as u16 + (v[1] as u16) * 0x100)
    }

    pub fn read_i16(&mut self) -> (res: Result<i16, GgufError>)
        requires
            old(self).wf(),
        ensures
            final(self).wf(),
            final(self).data() == old(self).data(),
            match spec_read_u16(old(self).data(), old(self).position()) {
                Ok((x, p)) => res == Ok::<i16, GgufError>(x as i16) && final(self).position() == p,
                Err(e) => (res matches Err(e2) && e2.model() == e),
            },
    {
        Ok(self.read_u16()? as i16)
    }

    pub fn read_u32(&mut self) -> (res: Result<u32, GgufError>)
        requires
            old(self).wf(),
        ensures
            final(self).wf(),
            final(self).data() == old(self).data(),
            read_agrees(res, final(self).position(), spec_read_u32(old(self).data(), old(self).position())),
    {
        let v = self.read_bytes(4)?;
        Ok(v[0] as u32 + (v[1] as u32) * 0x100 + (v[2] as u32) * 0x1_0000 + (v[3] as u32) * 0x100_0000)
    }

    pub fn read_i32(&mut self) -> (res: Result<i32, GgufError>)
        requires
            old(self).wf(),
        ensures
            final(self).wf(),
            final(self).data() == old(self).data(),
            match spec_read_u32(old(self).data(), old(self).position()) {
                Ok((x, p)) => res == Ok::<i32, GgufError>(x as i32) && final(self).position() == p,
                Err(e) => (res matches Err(e2) && e2.model() == e),
            },
    {
        Ok(self.read_u32()? as i32)
    }

    pub fn read_u64(&mut self) -> (res: Result<u64, GgufError>)
        requires
            old(self).wf(),
        ensures
            final(self).wf(),
            final(self).data() == old(self).data(),
            read_agrees(res, final(self).position(), spec_read_u64(old(self).data(), old(self).position())),
    {
        let v = self.read_bytes(8)?;
        Ok(v[0] as u64 + (v[1] as u64) * 0x100 + (v[2] as u64) * 0x1_0000 + (v[3] as u64) * 0x100_0000
            + (v[4] as u64) * 0x1_0000_0000 + (v[5] as u64) * 0x100_0000_0000
            + (v[6] as u64) * 0x1_0000_0000_0000 + (v[7] as u64) * 0x100_0000_0000_0000)
    }

    pub fn read_i64(&mut self) -> (res: Result<i64, GgufError>)
        requires
            old(self).wf(),
        ensures
            final(self).wf(),
            final(self).data() == old(self).data(),
            match spec_read_u64(old(self).data(), old(self).position()) {
                Ok((x, p)) => res == Ok::<i64, GgufError>(x as i64) && final(self).position() == p,
                Err(e) => (res matches Err(e2) && e2.model() == e),
            },
    {
        Ok(self.read_u64()? as i64)
    }
}

/// Wraps `String::from_utf8`: the string whose UTF-8 encoding is `bytes`, or
/// `None` when `bytes` is not valid UTF-8.
#[verifier::external_body]
pub(crate) fn string_from_utf8(bytes: Vec<u8>) -> (res: Option<String>)
    ensures
        res is Some <==> valid_utf8(bytes@),
        res matches Some(s) ==> encode_utf8(s@) == bytes@,
{
    String::from_utf8(bytes).ok()
}

/// The items of an array of `n` values of type `t`.
pub open spec fn spec_read_items(b: Seq<u8>, pos: int, t: GgufValueType, n: nat) -> Result<(Seq<GgufValueModel>, int), GgufErrorModel>
    decreases n,
{
    if n == 0 {
        Ok((Seq::empty(), pos))
    } else {
        match spec_read_items(b, pos, t, (n - 1) as nat) {
            Err(e) => Err(e),
            Ok((items, p)) => match spec_read_value(b, p, t) {
                Err(e) => Err(e),
                Ok((v, q)) => Ok((items.push(v), q)),
            },
        }
    }
}

/// Once reading the first `k` items fails, reading more items fails the same way.
pub proof fn lemma_items_error_persists(b: Seq<u8>, pos: int, t: GgufValueType, k: nat, n: nat)
    requires
        k <= n,
        spec_read_items(b, pos, t, k) is Err,
    ensures
        spec_read_items(b, pos, t, n) == spec_read_items(b, pos, t, k),
    decreases n - k,
{
    if k < n {
        lemma_items_error_persists(b, pos, t, k, (n - 1) as nat);
    }
}

/// A key occurs among the first entries of a key-value list.
pub open spec fn has_key(kv: Seq<(Seq<u8>, GgufValueModel)>, key: Seq<u8>) -> bool {
    exists|j: int| 0 <= j < kv.len() && #[trigger] kv[j].0 == key
}

/// The key-value entry with the given index, following the entries `prev`.
pub open spec fn spec_read_kv(b: Seq<u8>, pos: int, index: usize, prev: Seq<(Seq<u8>, GgufValueModel)>) -> Result<((Seq<u8>, GgufValueModel), int), GgufErrorModel> {
    match spec_read_string(b, pos) {
        Err(e) => Err(e),
        Ok((key, p1)) => if key.len() == 0 {
            Err(GgufErrorModel::EmptyKey { index })
        } else if has_key(prev, key) {
            Err(GgufErrorModel::DuplicateKey { index, key })
        } else {
            match spec_read_u32(b, p1) {
                Err(e) => Err(e),
                Ok((id, p2)) => match value_type_of_id(id) {
                    None => Err(GgufErrorModel::InvalidValueType { id }),
                    Some(GgufValueType::Array) => match spec_read_u32(b, p2) {
                        Err(e) => Err(e),
                        Ok((id2, p3)) => match value_type_of_id(id2) {
                            None => Err(GgufErrorModel::InvalidValueType { id: id2 }),
                            Some(t) => match spec_read_u64(b, p3) {
                                Err(e) => Err(e),
                                Ok((n, p4)) => if n > usize::MAX {
                                    Err(GgufErrorModel::ArrayTooLong { len: n })
                                } else {
                                    match spec_read_items(b, p4, t, n as nat) {
                                        Err(e) => Err(e),
                                        Ok((items, p5)) => Ok(((key, GgufValueModel::Array(items)), p5)),
                                    }
                                },
                            },
                        },
                    },
                    Some(t) => match spec_read_value(b, p2, t) {
                        Err(e) => Err(e),
                        Ok((v, p3)) => Ok(((key, v), p3)),
                    },
                },
            }
        },
    }
}

/// The first `n` key-value entries read from `pos`.
pub open spec fn spec_read_kvs(b: Seq<u8>, pos: int, n: nat) -> Result<(Seq<(Seq<u8>, GgufValueModel)>, int), GgufErrorModel>
    decreases n,
{
    if n == 0 {
        Ok((Seq::empty(), pos))
    } else {
        match spec_read_kvs(b, pos, (n - 1) as nat) {
            Err(e) => Err(e),
            Ok((kv, p)) => match spec_read_kv(b, p, (n - 1) as usize, kv) {
                Err(e) => Err(e),
                Ok((entry, q)) => Ok((kv.push(entry), q)),
            },
        }
    }
}

/// The entries of `kv` have the keys and values of `m`, in order.
pub open spec fn kv_matches(kv: Seq<(String, GgufValue)>, m: Seq<(Seq<u8>, GgufValueModel)>) -> bool {
    &&& kv.len() == m.len()
    &&& forall|j: int| 0 <= j < kv.len() ==> encode_utf8((#[trigger] kv[j]).0@) == m[j].0 && kv[j].1.model() == m[j].1
}

impl<'a> GgufReader<'a> {
    /// Reads a string: a `u64` byte length followed by that many UTF-8 bytes.
    pub fn read_string(&mut self) -> (res: Result<String, GgufError>)
        requires
            old(self).wf(),
        ensures
            final(self).wf(),
            final(self).data() == old(self).data(),
            match spec_read_string(old(self).data(), old(self).position()) {
                Ok((s, p)) => res matches Ok(v) && encode_utf8(v@) == s && final(self).position() == p,
                Err(e) => (res matches Err(e2) && e2.model() == e),
            },
    {
        let len = self.read_u64()?;
        if len > usize::MAX as u64 {
            return Err(GgufError::StringTooLong { len });
        }
        let bytes = self.read_bytes(len as usize)?;
        match string_from_utf8(bytes) {
            Some(s) => Ok(s),
            None => Err(GgufError::InvalidUtf8),
        }
    }

    /// Reads a single value of type `t`; arrays cannot be read this way.
    pub fn read_value(&mut self, t: GgufValueType) -> (res: Result<GgufValue, GgufError>)
        requires
            old(self).wf(),
        ensures
            final(self).wf(),
            final(self).data() == old(self).data(),
            match spec_read_value(old(self).data(), old(self).position(), t) {
                Ok((m, p)) => res matches Ok(v) && v.model() == m && final(self).position() == p,
                Err(e) => res matches Err(e2) && e2.model() == e,
            },
    {
        match t {
            GgufValueType::Uint8 => Ok(GgufValue::Uint8(self.read_u8()?)),
            GgufValueType::Int8 => Ok(GgufValue::Int8(self.read_i8()?)),
            GgufValueType::Uint16 => Ok(GgufValue::Uint16(self.read_u16()?)),
            GgufValueType::Int16 => Ok(GgufValue::Int16(self.read_i16()?)),
            GgufValueType::Uint32 => Ok(GgufValue::Uint32(self.read_u32()?)),
            GgufValueType::Int32 => Ok(GgufValue::Int32(self.read_i32()?)),
            GgufValueType::Float32 => Ok(GgufValue::Float32(self.read_u32()?)),
            GgufValueType::Bool => Ok(GgufValue::Bool(self.read_bool()?)),
            GgufValueType::String => Ok(GgufValue::String(self.read_string()?)),
            GgufValueType::Uint64 => Ok(GgufValue::Uint64(self.read_u64()?)),
            GgufValueType::Int64 => Ok(GgufValue::Int64(self.read_i64()?)),
            GgufValueType::Float64 => Ok(GgufValue::Float64(self.read_u64()?)),
            GgufValueType::Array => Err(GgufError::NestedArray),
        }
    }

    /// Reads `n` values of type `t`.
    fn read_items(&mut self, t: GgufValueType, n: usize) -> (res: Result<Vec<GgufValue>, GgufError>)
        requires
            old(self).wf(),
        ensures
            final(self).wf(),
            final(self).data() == old(self).data(),
            match spec_read_items(old(self).data(), old(self).position(), t, n as nat) {
                Ok((m, p)) => res matches Ok(v) && v@.len() == m.len()
                    && (forall|j: int| 0 <= j < m.len() ==> (#[trigger] v@[j]).model() == m[j])
                    && final(self).position() == p,
                Err(e) => res matches Err(e2) && e2.model() == e,
            },
    {
        let ghost b = self.data();
        let ghost start = self.position();
        let mut items: Vec<GgufValue> = Vec::new();
        let mut i: usize = 0;
        while i < n
            invariant
                self.wf(),
                self.data() == b,
                b == old(self).data(),
                start == old(self).position(),
                i <= n,
                match spec_read_items(b, start, t, i as nat) {
                    Ok((m, p)) => items@.len() == m.len()
                        && (forall|j: int| 0 <= j < m.len() ==> (#[trigger] items@[j]).model() == m[j])
                        && self.position() == p,
                    Err(_) => false,
                },
            decreases n - i,
        {
            let v = match self.read_value(t) {
                Ok(v) => v,
                Err(e) => {
                    proof {
                        lemma_items_error_persists(b, start, t, (i + 1) as nat, n as nat);
                    }
                    return Err(e);
                },
            };
            items.push(v);
            i = i + 1;
        }
        Ok(items)
    }
}

/// Once reading the first `k` entries fails, reading more entries fails the same way.
pub proof fn lemma_kvs_error_persists(b: Seq<u8>, pos: int, k: nat, n: nat)
    requires
        k <= n,
        spec_read_kvs(b, pos, k) is Err,
    ensures
        spec_read_kvs(b, pos, n) == spec_read_kvs(b, pos, k),
    decreases n - k,
{
    if k < n {
        lemma_kvs_error_persists(b, pos, k, (n - 1) as nat);
    }
}

/// Two strings are equal exactly when their UTF-8 encodings are.
proof fn lemma_encode_injective(a: Seq<char>, c: Seq<char>)
    ensures
        (a == c) <==> (encode_utf8(a) == encode_utf8(c)),
{
    encode_utf8_decode_utf8(a);
    encode_utf8_decode_utf8(c);
}

impl<'a> GgufReader<'a> {
    /// Reads the key-value entry with the given index, which must not repeat
    /// a key of `kv`.
    fn read_kv(&mut self, index: usize, kv: &Vec<(String, GgufValue)>, Ghost(prev): Ghost<Seq<(Seq<u8>, GgufValueModel)>>) -> (res: Result<(String, GgufValue), GgufError>)
        requires
            old(self).wf(),
            kv_matches(kv@, prev),
        ensures
            final(self).wf(),
            final(self).data() == old(self).data(),
            match spec_read_kv(old(self).data(), old(self).position(), index, prev) {
                Ok((m, p)) => res matches Ok(e) && encode_utf8(e.0@) == m.0 && e.1.model() == m.1
                    && final(self).position() == p,
                Err(e) => res matches Err(e2) && e2.model() == e,
            },
    {
        let key = self.read_string()?;
        let ghost kb = encode_utf8(key@);
        if key.as_str().is_empty() {
            return Err(GgufError::EmptyKey { index });
        }
        proof {
            encode_utf8_decode_utf8(key@);
            assert(kb.len() != 0);
        }
        let mut j: usize = 0;
        #[verifier::loop_isolation(false)]
        while j < kv.len()
            invariant
                j <= kv@.len(),
                kv_matches(kv@, prev),
                kb == encode_utf8(key@),
                forall|k: int| 0 <= k < j ==> prev[k].0 != kb,
            decreases kv@.len() - j,
        {
            proof {
                lemma_encode_injective(kv@[j as int].0@, key@);
            }
            if kv[j].0 == key {
                return Err(GgufError::DuplicateKey { index, key: key.clone() });
            }
            j = j + 1;
        }
        let id = self.read_u32()?;
        let t = match GgufValueType::from_id(id) {
            Some(t) => t,
            None => return Err(GgufError::InvalidValueType { id }),
        };
        match t {
            GgufValueType::Array => {
                let id2 = self.read_u32()?;
                let et = match GgufValueType::from_id(id2) {
                    Some(t) => t,
                    None => return Err(GgufError::InvalidValueType { id: id2 }),
                };
                let n = self.read_u64()?;
                if n > usize::MAX as u64 {
                    return Err(GgufError::ArrayTooLong { len: n });
                }
                let ghost p4 = self.position();
                let items = self.read_items(et, n as usize)?;
                let v = GgufValue::Array(items);
                proof {
                    let ghost m = v.model();
                    match spec_read_items(old(self).data(), p4, et, n as nat) {
                        Ok((mi, _)) => {
                            assert(m->Array_0 =~= mi);
                        },
                        Err(_) => {},
                    }
                }
                Ok((key, v))
            },
            _ => {
                let v = self.read_value(t)?;
                Ok((key, v))
            },
        }
    }

    /// Reads `n` key-value entries.
    fn read_kvs(&mut self, n: usize) -> (res: Result<Vec<(String, GgufValue)>, GgufError>)
        requires
            old(self).wf(),
        ensures
            final(self).wf(),
            final(self).data() == old(self).data(),
            match spec_read_kvs(old(self).data(), old(self).position(), n as nat) {
                Ok((m, p)) => res matches Ok(kv) && kv_matches(kv@, m) && final(self).position() == p,
                Err(e) => res matches Err(e2) && e2.model() == e,
            },
    {
        let ghost b = self.data();
        let ghost start = self.position();
        let mut kv: Vec<(String, GgufValue)> = Vec::new();
        let mut i: usize = 0;
        while i < n
            invariant
                self.wf(),
                self.data() == b,
                b == old(self).data(),
                start == old(self).position(),
                i <= n,
                match spec_read_kvs(b, start, i as nat) {
                    Ok((m, p)) => kv_matches(kv@, m) && self.position() == p,
                    Err(_) => false,
                },
            decreases n - i,
        {
            let ghost prev = match spec_read_kvs(b, start, i as nat) {
                Ok((m, _)) => m,
                Err(_) => Seq::empty(),
            };
            let entry = match self.read_kv(i, &kv, Ghost(prev)) {
                Ok(e) => e,
                Err(e) => {
                    proof {
                        lemma_kvs_error_persists(b, start, (i + 1) as nat, n as nat);
                    }
                    return Err(e);
                },
            };
            let ghost before = kv@;
            kv.push(entry);
            i = i + 1;
            proof {
                match spec_read_kvs(b, start, i as nat) {
                    Ok((m, _)) => {
                        assert forall|j: int| 0 <= j < kv@.len() implies
                            encode_utf8((#[trigger] kv@[j]).0@) == m[j].0 && kv@[j].1.model() == m[j].1 by {
                            if j < kv@.len() - 1 {
                                assert(kv@[j] == before[j]);
                            }
                        }
                    },
                    Err(_) => {},
                }
            }
        }
        Ok(kv)
    }
}

// ---------------------------------------------------------------------
// the alignment key
// ---------------------------------------------------------------------

/// The UTF-8 bytes of the key `general.alignment`.
pub open spec fn alignment_key() -> Seq<u8> {
    seq![103u8, 101, 110, 101, 114, 97, 108, 46, 97, 108, 105, 103, 110, 109, 101, 110, 116]
}

/// The value of the first entry of `kv` whose key is `key`.
pub open spec fn spec_find_key(kv: Seq<(Seq<u8>, GgufValueModel)>, key: Seq<u8>) -> Option<GgufValueModel>
    decreases kv.len(),
{
    if kv.len() == 0 {
        None
    } else {
        match spec_find_key(kv.drop_last(), key) {
            Some(v) => Some(v),
            None => if kv.last().0 == key {
                Some(kv.last().1)
            } else {
                None
            },
        }
    }
}

/// `a` is a power of two.
pub open spec fn is_power_of_two(a: usize) -> bool {
    a != 0 && a & ((a - 1) as usize) == 0
}

/// The data alignment that the entries `kv` ask for: the `u32` under the
/// alignment key, or 32 when there is none.
pub open spec fn spec_alignment(kv: Seq<(Seq<u8>, GgufValueModel)>) -> Result<usize, GgufErrorModel> {
    let a: usize = match spec_find_key(kv, alignment_key()) {
        Some(GgufValueModel::Uint32(v)) => v as usize,
        Some(_) => 0,
        None => 32,
    };
    match spec_find_key(kv, alignment_key()) {
        Some(GgufValueModel::Uint32(_)) | None => if is_power_of_two(a) {
            Ok(a)
        } else {
            Err(GgufErrorModel::AlignmentNotPowerOfTwo { alignment: a })
        },
        Some(_) => Err(GgufErrorModel::AlignmentNotU32),
    }
}

/// Whether `k` spells `general.alignment`.
fn is_alignment_key(k: &[u8]) -> (r: bool)
    ensures
        r == (k@ == alignment_key()),
{
    let r = k.len() == 17 && k[0] == 103 && k[1] == 101 && k[2] == 110 && k[3] == 101 && k[4] == 114
        && k[5] == 97 && k[6] == 108 && k[7] == 46 && k[8] == 97 && k[9] == 108 && k[10] == 105
        && k[11] == 103 && k[12] == 110 && k[13] == 109 && k[14] == 101 && k[15] == 110
        && k[16] == 116;
    proof {
        if r {
            assert(k@ =~= alignment_key());
        }
    }
    r
}

/// Reads the alignment out of the parsed entries.
fn find_alignment(kv: &Vec<(String, GgufValue)>, Ghost(m): Ghost<Seq<(Seq<u8>, GgufValueModel)>>) -> (res: Result<usize, GgufError>)
    requires
        kv_matches(kv@, m),
    ensures
        result_agrees(res, spec_alignment(m)),
{
    let mut j: usize = 0;
    let mut found: Option<usize> = None;
    while j < kv.len()
        invariant
            j <= kv@.len(),
            kv_matches(kv@, m),
            spec_find_key(m.take(j as int), alignment_key()) is None,
        decreases kv@.len() - j,
    {
        proof {
            assert(m.take(j + 1).drop_last() =~= m.take(j as int));
        }
        if is_alignment_key(kv[j].0.as_str().as_bytes()) {
            proof {
                lemma_find_key_first(m, alignment_key(), j as int);
            }
            let a: usize = match &kv[j].1 {
                GgufValue::Uint32(v) => *v as usize,
                _ => return Err(GgufError::AlignmentNotU32),
            };
            if a == 0 || (a & (a - 1)) != 0 {
                return Err(GgufError::AlignmentNotPowerOfTwo { alignment: a });
            }
            return Ok(a);
        }
        j = j + 1;
    }
    proof {
        assert(m.take(j as int) =~= m);
    }
    let a: usize = 32;
    assert(a & ((a - 1) as usize) == 0) by (bit_vector)
        requires
            a == 32usize,
    ;
    Ok(a)
}

/// The first entry whose key matches is the one found.
proof fn lemma_find_key_first(m: Seq<(Seq<u8>, GgufValueModel)>, key: Seq<u8>, j: int)
    requires
        0 <= j < m.len(),
        m[j].0 == key,
        spec_find_key(m.take(j), key) is None,
    ensures
        spec_find_key(m, key) == Some(m[j].1),
    decreases m.len() - j,
{
    if j == m.len() - 1 {
        assert(m.drop_last() =~= m.take(j));
    } else {
        assert(m.drop_last().take(j) =~= m.take(j));
        lemma_find_key_first(m.drop_last(), key, j);
    }
}

// ---------------------------------------------------------------------
// tensor entries
// ---------------------------------------------------------------------

/// Description of one tensor in the file.
#[derive(Debug)]
pub struct GgufTensorInfo {
    pub name: String,
    /// Element counts per dimension, innermost first, padded with 1s.
    pub ne: [i64; 4],
    pub dtype: GgmlType,
    /// Byte strides per dimension, innermost first.
    pub nb: [u64; 4],
    /// Byte offset of the tensor's data within the data section.
    pub offset: u64,
}

/// The content of a tensor description; the name is given by its UTF-8 bytes.
pub struct GgufTensorInfoModel {
    pub name: Seq<u8>,
    pub ne: Seq<i64>,
    pub dtype: GgmlType,
    pub nb: Seq<u64>,
    pub offset: u64,
}

impl GgufTensorInfo {
    /// The content of this description.
    pub open spec fn model(&self) -> GgufTensorInfoModel {
        GgufTensorInfoModel {
            name: encode_utf8(self.name@),
            ne: self.ne@,
            dtype: self.dtype,
            nb: self.nb@,
            offset: self.offset,
        }
    }

    /// Total size in bytes of the tensor's data: the outermost byte stride
    /// times the outermost element count.
    pub fn nbytes(&self) -> (r: u64)
        requires
            self.nb[3] * (self.ne[3] as u64) <= u64::MAX,
        ensures
            r == self.nb[3] * (self.ne[3] as u64),
    {
        self.nb[3] * self.ne[3] as u64
    }
}

/// A name occurs among the names of `infos`.
pub open spec fn has_name(infos: Seq<GgufTensorInfoModel>, name: Seq<u8>) -> bool {
    exists|j: int| 0 <= j < infos.len() && #[trigger] infos[j].name == name
}

/// Reading dimension `j` of a tensor with `n_dims` dimensions: a stored
/// count that must not be negative as `i64`, or 1 past the last dimension.
pub open spec fn spec_read_dim(b: Seq<u8>, pos: int, n_dims: u32, j: usize, index: usize, name: Seq<u8>) -> Result<(i64, int), GgufErrorModel> {
    if j < n_dims {
        match spec_read_u64(b, pos) {
            Err(e) => Err(e),
            Ok((v, p)) => if (v as i64) < 0 {
                Err(GgufErrorModel::NegativeDimension { index, name, dim: j, value: v as i64 })
            } else {
                Ok((v as i64, p))
            },
        }
    } else {
        Ok((1, pos))
    }
}

/// The element-count check: each leading product of the dimensions must stay
/// below `i64::MAX`, tested by dividing `i64::MAX` by the next dimension.
pub open spec fn spec_check_elements(ne0: i64, ne1: i64, ne2: i64, ne3: i64, index: usize, name: Seq<u8>) -> Result<(), GgufErrorModel> {
    if ne1 == 0 {
        Err(GgufErrorModel::DimensionArithmetic { index, name })
    } else if i64::MAX / ne1 <= ne0 {
        Err(GgufErrorModel::TooManyElements { index, name, ne0, ne1, ne2, ne3 })
    } else if ne2 == 0 {
        Err(GgufErrorModel::DimensionArithmetic { index, name })
    } else if i64::MAX / ne2 <= ne0 * ne1 {
        Err(GgufErrorModel::TooManyElements { index, name, ne0, ne1, ne2, ne3 })
    } else if ne3 == 0 {
        Err(GgufErrorModel::DimensionArithmetic { index, name })
    } else if i64::MAX / ne3 <= ne0 * ne1 * ne2 {
        Err(GgufErrorModel::TooManyElements { index, name, ne0, ne1, ne2, ne3 })
    } else {
        Ok(())
    }
}

/// The byte strides of a tensor of type `t` with the given dimensions, when
/// each fits in `u64`.
pub open spec fn spec_strides(t: GgmlType, ne0: i64, ne1: i64, ne2: i64) -> Option<Seq<u64>> {
    let nb0 = t.spec_type_size();
    let nb1 = nb0 * ((ne0 / t.spec_block_size()) as u64);
    if nb1 > u64::MAX {
        None
    } else {
        let nb2 = nb1 * (ne1 as u64);
        if nb2 > u64::MAX {
            None
        } else {
            let nb3 = nb2 * (ne2 as u64);
            if nb3 > u64::MAX {
                None
            } else {
                Some(seq![nb0, nb1 as u64, nb2 as u64, nb3 as u64])
            }
        }
    }
}

/// The tensor entry with the given index, following the entries `prev`.
pub open spec fn spec_read_info(b: Seq<u8>, pos: int, index: usize, prev: Seq<GgufTensorInfoModel>) -> Result<(GgufTensorInfoModel, int), GgufErrorModel> {
    match spec_read_string(b, pos) {
        Err(e) => Err(e),
        Ok((name, p1)) => if name.len() >= 64 {
            Err(GgufErrorModel::NameTooLong { index, name_len: name.len() as usize })
        } else if has_name(prev, name) {
            Err(GgufErrorModel::DuplicateTensorName { index, name })
        } else {
            match spec_read_u32(b, p1) {
                Err(e) => Err(e),
                Ok((n_dims, p2)) => if n_dims > 4 {
                    Err(GgufErrorModel::TooManyDimensions { index, name, n_dims })
                } else {
                    match spec_read_dim(b, p2, n_dims, 0, index, name) {
                        Err(e) => Err(e),
                        Ok((ne0, q0)) => match spec_read_dim(b, q0, n_dims, 1, index, name) {
                            Err(e) => Err(e),
                            Ok((ne1, q1)) => match spec_read_dim(b, q1, n_dims, 2, index, name) {
                                Err(e) => Err(e),
                                Ok((ne2, q2)) => match spec_read_dim(b, q2, n_dims, 3, index, name) {
                                    Err(e) => Err(e),
                                    Ok((ne3, q3)) => match spec_check_elements(ne0, ne1, ne2, ne3, index, name) {
                                        Err(e) => Err(e),
                                        Ok(_) => match spec_read_u32(b, q3) {
                                            Err(e) => Err(e),
                                            Ok((id, q4)) => match ggml_type_of_id(id) {
                                                None => Err(GgufErrorModel::InvalidTensorType { index, name, id }),
                                                Some(t) => if ne0 % t.spec_block_size() != 0 {
                                                    Err(GgufErrorModel::NotBlockMultiple { index, name, dtype: t, ne0, block: t.spec_block_size() })
                                                } else {
                                                    match spec_strides(t, ne0, ne1, ne2) {
                                                        None => Err(GgufErrorModel::DimensionArithmetic { index, name }),
                                                        Some(nb) => match spec_read_u64(b, q4) {
                                                            Err(e) => Err(e),
                                                            Ok((offset, q5)) => Ok((
                                                                GgufTensorInfoModel {
                                                                    name,
                                                                    ne: seq![ne0, ne1, ne2, ne3],
                                                                    dtype: t,
                                                                    nb,
                                                                    offset,
                                                                },
                                                                q5,
                                                            )),
                                                        },
                                                    }
                                                },
                                            },
                                        },
                                    },
                                },
                            },
                        },
                    }
                },
            }
        },
    }
}

/// The first `n` tensor entries read from `pos`.
pub open spec fn spec_read_infos(b: Seq<u8>, pos: int, n: nat) -> Result<(Seq<GgufTensorInfoModel>, int), GgufErrorModel>
    decreases n,
{
    if n == 0 {
        Ok((Seq::empty(), pos))
    } else {
        match spec_read_infos(b, pos, (n - 1) as nat) {
            Err(e) => Err(e),
            Ok((infos, p)) => match spec_read_info(b, p, (n - 1) as usize, infos) {
                Err(e) => Err(e),
                Ok((info, q)) => Ok((infos.push(info), q)),
            },
        }
    }
}

/// Once reading the first `k` tensor entries fails, reading more fails the same way.
pub proof fn lemma_infos_error_persists(b: Seq<u8>, pos: int, k: nat, n: nat)
    requires
        k <= n,
        spec_read_infos(b, pos, k) is Err,
    ensures
        spec_read_infos(b, pos, n) == spec_read_infos(b, pos, k),
    decreases n - k,
{
    if k < n {
        lemma_infos_error_persists(b, pos, k, (n - 1) as nat);
    }
}

/// The descriptions `infos` have the contents `m`, in order.
pub open spec fn infos_match(infos: Seq<GgufTensorInfo>, m: Seq<GgufTensorInfoModel>) -> bool {
    &&& infos.len() == m.len()
    &&& forall|j: int| 0 <= j < infos.len() ==> (#[trigger] infos[j]).model() == m[j]
}

impl<'a> GgufReader<'a> {
    /// Reads dimension `j` of a tensor with `n_dims` dimensions.
    fn read_dim(&mut self, n_dims: u32, j: usize, index: usize, name: &String) -> (res: Result<i64, GgufError>)
        requires
            old(self).wf(),
        ensures
            final(self).wf(),
            final(self).data() == old(self).data(),
            read_agrees(res, final(self).position(), spec_read_dim(old(self).data(), old(self).position(), n_dims, j, index, encode_utf8(name@))),
    {
        if (j as u64) < (n_dims as u64) {
            let v = self.read_u64()? as i64;
            if v < 0 {
                return Err(GgufError::NegativeDimension { index, name: name.clone(), dim: j, value: v });
            }
            Ok(v)
        } else {
            Ok(1)
        }
    }
}

/// Checks that the element count of a tensor stays below `i64::MAX`.
fn check_elements(ne0: i64, ne1: i64, ne2: i64, ne3: i64, index: usize, name: &String) -> (res: Result<(), GgufError>)
    requires
        ne0 >= 0,
        ne1 >= 0,
        ne2 >= 0,
        ne3 >= 0,
    ensures
        result_agrees(res, spec_check_elements(ne0, ne1, ne2, ne3, index, encode_utf8(name@))),
{
    if ne1 == 0 {
        return Err(GgufError::DimensionArithmetic { index, name: name.clone() });
    }
    if i64::MAX / ne1 <= ne0 {
        return Err(GgufError::TooManyElements { index, name: name.clone(), ne0, ne1, ne2, ne3 });
    }
    assert(ne0 * ne1 < i64::MAX) by (nonlinear_arith)
        requires
            ne1 > 0,
            ne0 >= 0,
            i64::MAX / ne1 > ne0,
    ;
    let p01 = ne0 * ne1;
    if ne2 == 0 {
        return Err(GgufError::DimensionArithmetic { index, name: name.clone() });
    }
    if i64::MAX / ne2 <= p01 {
        return Err(GgufError::TooManyElements { index, name: name.clone(), ne0, ne1, ne2, ne3 });
    }
    assert(p01 * ne2 < i64::MAX) by (nonlinear_arith)
        requires
            ne2 > 0,
            p01 >= 0,
            i64::MAX / ne2 > p01,
    ;
    let p012 = p01 * ne2;
    if ne3 == 0 {
        return Err(GgufError::DimensionArithmetic { index, name: name.clone() });
    }
    if i64::MAX / ne3 <= p012 {
        return Err(GgufError::TooManyElements { index, name: name.clone(), ne0, ne1, ne2, ne3 });
    }
    Ok(())
}

/// Byte strides of a tensor of type `t`.
fn compute_strides(t: GgmlType, ne0: i64, ne1: i64, ne2: i64) -> (res: Option<[u64; 4]>)
    requires
        ne0 >= 0,
        ne1 >= 0,
        ne2 >= 0,
    ensures
        match spec_strides(t, ne0, ne1, ne2) {
            Some(nb) => res matches Some(a) && a@ == nb,
            None => res is None,
        },
        res matches Some(a) ==> {
            &&& a[0] == t.spec_type_size()
            &&& a[1] == a[0] * (ne0 / t.spec_block_size())
            &&& a[2] == a[1] * ne1
            &&& a[3] == a[2] * ne2
        },
{
    let nb0 = t.type_size();
    let blocks = (ne0 / t.block_size()) as u64;
    let nb1 = match nb0.checked_mul(blocks) {
        Some(x) => x,
        None => return None,
    };
    let nb2 = match nb1.checked_mul(ne1 as u64) {
        Some(x) => x,
        None => return None,
    };
    let nb3 = match nb2.checked_mul(ne2 as u64) {
        Some(x) => x,
        None => return None,
    };
    let a = [nb0, nb1, nb2, nb3];
    proof {
        assert(a@ =~= seq![nb0, nb1, nb2, nb3]);
    }
    Some(a)
}

impl<'a> GgufReader<'a> {
    /// Reads the tensor entry with the given index, which must not repeat a
    /// name of `infos`.
    fn read_info(&mut self, index: usize, infos: &Vec<GgufTensorInfo>, Ghost(prev): Ghost<Seq<GgufTensorInfoModel>>) -> (res: Result<GgufTensorInfo, GgufError>)
        requires
            old(self).wf(),
            infos_match(infos@, prev),
        ensures
            final(self).wf(),
            final(self).data() == old(self).data(),
            match spec_read_info(old(self).data(), old(self).position(), index, prev) {
                Ok((m, p)) => res matches Ok(info) && info.model() == m && final(self).position() == p,
                Err(e) => res matches Err(e2) && e2.model() == e,
            },
    {
        let name = self.read_string()?;
        let ghost nbytes = encode_utf8(name@);
        let name_len = name.as_str().len();
        if name_len >= 64 {
            return Err(GgufError::NameTooLong { index, name_len });
        }
        let mut j: usize = 0;
        #[verifier::loop_isolation(false)]
        while j < infos.len()
            invariant
                j <= infos@.len(),
                infos_match(infos@, prev),
                nbytes == encode_utf8(name@),
                forall|k: int| 0 <= k < j ==> prev[k].name != nbytes,
            decreases infos@.len() - j,
        {
            proof {
                lemma_encode_injective(infos@[j as int].name@, name@);
            }
            if infos[j].name == name {
                proof {
                    assert(infos@[j as int].model() == prev[j as int]);
                    assert(prev[j as int].name == nbytes);
                }
                return Err(GgufError::DuplicateTensorName { index, name: name.clone() });
            }
            j = j + 1;
        }
        let n_dims = self.read_u32()?;
        if n_dims > 4 {
            return Err(GgufError::TooManyDimensions { index, name: name.clone(), n_dims });
        }
        let ne0 = self.read_dim(n_dims, 0, index, &name)?;
        let ne1 = self.read_dim(n_dims, 1, index, &name)?;
        let ne2 = self.read_dim(n_dims, 2, index, &name)?;
        let ne3 = self.read_dim(n_dims, 3, index, &name)?;
        check_elements(ne0, ne1, ne2, ne3, index, &name)?;
        let id = self.read_u32()?;
        let dtype = match GgmlType::from_id(id) {
            Some(t) => t,
            None => return Err(GgufError::InvalidTensorType { index, name: name.clone(), id }),
        };
        let block = dtype.block_size();
        if ne0 % block != 0 {
            return Err(GgufError::NotBlockMultiple { index, name: name.clone(), dtype, ne0, block });
        }
        let nb = match compute_strides(dtype, ne0, ne1, ne2) {
            Some(nb) => nb,
            None => return Err(GgufError::DimensionArithmetic { index, name: name.clone() }),
        };
        let offset = self.read_u64()?;
        let ne = [ne0, ne1, ne2, ne3];
        proof {
            assert(ne@ =~= seq![ne0, ne1, ne2, ne3]);
        }
        Ok(GgufTensorInfo { name, ne, dtype, nb, offset })
    }

    /// Reads `n` tensor entries.
    #[verifier::spinoff_prover]
    #[verifier::rlimit(40)]
    fn read_infos(&mut self, n: usize) -> (res: Result<Vec<GgufTensorInfo>, GgufError>)
        requires
            old(self).wf(),
        ensures
            final(self).wf(),
            final(self).data() == old(self).data(),
            match spec_read_infos(old(self).data(), old(self).position(), n as nat) {
                Ok((m, p)) => res matches Ok(infos) && infos_match(infos@, m) && final(self).position() == p,
                Err(e) => res matches Err(e2) && e2.model() == e,
            },
    {
        let ghost b = self.data();
        let ghost start = self.position();
        let mut infos: Vec<GgufTensorInfo> = Vec::new();
        let mut i: usize = 0;
        while i < n
            invariant
                self.wf(),
                self.data() == b,
                b == old(self).data(),
                start == old(self).position(),
                i <= n,
                match spec_read_infos(b, start, i as nat) {
                    Ok((m, p)) => infos_match(infos@, m) && self.position() == p,
                    Err(_) => false,
                },
            decreases n - i,
        {
            let ghost prev = match spec_read_infos(b, start, i as nat) {
                Ok((m, _)) => m,
                Err(_) => Seq::empty(),
            };
            let info = match self.read_info(i, &infos, Ghost(prev)) {
                Ok(x) => x,
                Err(e) => {
                    proof {
                        lemma_infos_error_persists(b, start, (i + 1) as nat, n as nat);
                    }
                    return Err(e);
                },
            };
            let ghost before = infos@;
            infos.push(info);
            i = i + 1;
            proof {
                match spec_read_infos(b, start, i as nat) {
                    Ok((m, _)) => {
                        assert forall|j: int| 0 <= j < infos@.len() implies (#[trigger] infos@[j]).model() == m[j] by {
                            if j < infos@.len() - 1 {
                                assert(infos@[j] == before[j]);
                            }
                        }
                    },
                    Err(_) => {},
                }
            }
        }
        Ok(infos)
    }
}

// ---------------------------------------------------------------------
// data section and the whole header
// ---------------------------------------------------------------------

/// `x` rounded up to a multiple of `align`.
pub open spec fn spec_pad(x: int, align: int) -> int {
    (x + (align - 1)) / align * align
}

/// Rounds `x` up to a multiple of `align`.
pub fn pad(x: u64, align: u64) -> (r: u64)
    requires
        align > 0,
        x + align - 1 <= u64::MAX,
    ensures
        r == spec_pad(x as int, align as int),
        x <= r < x + align,
        r % align == 0,
{
    proof {
        lemma_pad(x as int, align as int);
    }
    (x + (align - 1)) / align * align
}

/// Padding rounds up to the next multiple.
pub proof fn lemma_pad(x: int, align: int)
    requires
        x >= 0,
        align > 0,
    ensures
        x <= spec_pad(x, align) < x + align,
        spec_pad(x, align) % align == 0,
{
    let y = x + align - 1;
    vstd::arithmetic::div_mod::lemma_fundamental_div_mod(y, align);
    vstd::arithmetic::div_mod::lemma_mod_multiples_basic(y / align, align);
    assert(y / align * align == align * (y / align)) by (nonlinear_arith);
}

/// Size of the data section after the first `n` tensors, each starting where
/// the padded data of the one before ends.
pub open spec fn spec_data_size(infos: Seq<GgufTensorInfoModel>, align: u64, n: nat) -> Result<u64, GgufErrorModel>
    decreases n,
{
    if n == 0 {
        Ok(0)
    } else {
        match spec_data_size(infos, align, (n - 1) as nat) {
            Err(e) => Err(e),
            Ok(ds) => {
                let ti = infos[n - 1];
                let index = (n - 1) as usize;
                let nbytes = ti.nb[3] * (ti.ne[3] as u64);
                if ti.offset != ds {
                    Err(GgufErrorModel::OffsetMismatch { index, name: ti.name, offset: ti.offset, expected: ds })
                } else if nbytes > u64::MAX || nbytes + align - 1 > u64::MAX {
                    Err(GgufErrorModel::DimensionArithmetic { index, name: ti.name })
                } else if ds + spec_pad(nbytes, align as int) > u64::MAX {
                    Err(GgufErrorModel::SizeOverflow { index, name: ti.name })
                } else {
                    Ok((ds + spec_pad(nbytes, align as int)) as u64)
                }
            },
        }
    }
}

/// Once the data size fails after `k` tensors, it fails the same way after more.
pub proof fn lemma_data_size_error_persists(infos: Seq<GgufTensorInfoModel>, align: u64, k: nat, n: nat)
    requires
        k <= n,
        spec_data_size(infos, align, k) is Err,
    ensures
        spec_data_size(infos, align, n) == spec_data_size(infos, align, k),
    decreases n - k,
{
    if k < n {
        lemma_data_size_error_persists(infos, align, k, (n - 1) as nat);
    }
}

/// The version, tensor count, key-value count and the position after them.
pub open spec fn spec_read_header(b: Seq<u8>, pos: int) -> Result<(u32, u64, u64, int), GgufErrorModel> {
    match spec_read_bytes(b, pos, 4) {
        Err(e) => Err(e),
        Ok((magic, p0)) => if magic != seq![71u8, 71, 85, 70] {
            Err(GgufErrorModel::InvalidMagic { b0: magic[0], b1: magic[1], b2: magic[2], b3: magic[3] })
        } else {
            match spec_read_u32(b, p0) {
                Err(e) => Err(e),
                Ok((version, p1)) => if version == 0 {
                    Err(GgufErrorModel::ZeroVersion)
                } else if version & 0xffff == 0 {
                    Err(GgufErrorModel::VersionByteOrder { version })
                } else if version == 1 {
                    Err(GgufErrorModel::VersionOne)
                } else if version > 3 {
                    Err(GgufErrorModel::VersionTooNew { version })
                } else {
                    match spec_read_u64(b, p1) {
                        Err(e) => Err(e),
                        Ok((n_tensors, p2)) => if n_tensors > usize::MAX {
                            Err(GgufErrorModel::TensorCountTooLarge { count: n_tensors })
                        } else {
                            match spec_read_u64(b, p2) {
                                Err(e) => Err(e),
                                Ok((n_kv, p3)) => if n_kv > usize::MAX {
                                    Err(GgufErrorModel::KvCountTooLarge { count: n_kv })
                                } else {
                                    Ok((version, n_tensors, n_kv, p3))
                                },
                            }
                        },
                    }
                },
            }
        },
    }
}

/// The parsed header of a GGUF file.
#[derive(Debug)]
pub struct GgufCtx {
    pub version: u32,
    pub kv: Vec<(String, GgufValue)>,
    pub tensor_infos: Vec<GgufTensorInfo>,
    pub alignment: usize,
    /// File offset where the tensor data section starts.
    pub data_offset: u64,
    /// Total padded size of the tensor data section, in bytes.
    pub data_size: u64,
}

/// The content of a parsed header.
pub struct GgufCtxModel {
    pub version: u32,
    pub kv: Seq<(Seq<u8>, GgufValueModel)>,
    pub tensor_infos: Seq<GgufTensorInfoModel>,
    pub alignment: usize,
    pub data_offset: u64,
    pub data_size: u64,
}

/// `ctx` holds the content `m`.
pub open spec fn ctx_matches(ctx: GgufCtx, m: GgufCtxModel) -> bool {
    &&& ctx.version == m.version
    &&& kv_matches(ctx.kv@, m.kv)
    &&& infos_match(ctx.tensor_infos@, m.tensor_infos)
    &&& ctx.alignment == m.alignment
    &&& ctx.data_offset == m.data_offset
    &&& ctx.data_size == m.data_size
}

/// The header of a GGUF file whose bytes start at `pos` of `b`: magic and
/// version, the key-value metadata, the tensor entries, where the data
/// section starts and how large it is.
pub open spec fn spec_gguf_parse(b: Seq<u8>, pos: int) -> Result<GgufCtxModel, GgufErrorModel> {
    match spec_read_header(b, pos) {
        Err(e) => Err(e),
        Ok((version, n_tensors, n_kv, p0)) => match spec_read_kvs(b, p0, n_kv as nat) {
            Err(e) => Err(e),
            Ok((kv, p1)) => match spec_alignment(kv) {
                Err(e) => Err(e),
                Ok(alignment) => match spec_read_infos(b, p1, n_tensors as nat) {
                    Err(e) => Err(e),
                    Ok((infos, p2)) => if infos.len() > 0 && p2 + alignment - 1 > u64::MAX {
                        Err(GgufErrorModel::DataOffsetOverflow)
                    } else {
                        let data_offset = if infos.len() > 0 {
                            spec_pad(p2, alignment as int)
                        } else {
                            p2
                        };
                        match spec_data_size(infos, alignment as u64, infos.len()) {
                            Err(e) => Err(e),
                            Ok(data_size) => Ok(
                                GgufCtxModel {
                                    version,
                                    kv,
                                    tensor_infos: infos,
                                    alignment,
                                    data_offset: data_offset as u64,
                                    data_size,
                                },
                            ),
                        }
                    },
                },
            },
        },
    }
}

impl<'a> GgufReader<'a> {
    /// Reads the magic, version and the two counts.
    fn read_header(&mut self) -> (res: Result<(u32, u64, u64), GgufError>)
        requires
            old(self).wf(),
        ensures
            final(self).wf(),
            final(self).data() == old(self).data(),
            match spec_read_header(old(self).data(), old(self).position()) {
                Ok((v, nt, nkv, p)) => res == Ok::<(u32, u64, u64), GgufError>((v, nt, nkv)) && final(self).position() == p,
                Err(e) => (res matches Err(e2) && e2.model() == e),
            },
    {
        let magic = self.read_bytes(4)?;
        if !(magic[0] == 71 && magic[1] == 71 && magic[2] == 85 && magic[3] == 70) {
            proof {
                assert(magic@ != seq![71u8, 71, 85, 70]) by {
                    if magic@ == seq![71u8, 71, 85, 70] {
                        assert(magic@[0] == 71);
                    }
                }
            }
            return Err(GgufError::InvalidMagic { b0: magic[0], b1: magic[1], b2: magic[2], b3: magic[3] });
        }
        proof {
            assert(magic@ =~= seq![71u8, 71, 85, 70]);
        }
        let version = self.read_u32()?;
        if version == 0 {
            return Err(GgufError::ZeroVersion);
        }
        if version & 0xffff == 0 {
            return Err(GgufError::VersionByteOrder { version });
        }
        if version == 1 {
            return Err(GgufError::VersionOne);
        }
        if version > 3 {
            return Err(GgufError::VersionTooNew { version });
        }
        let n_tensors = self.read_u64()?;
        if n_tensors > usize::MAX as u64 {
            return Err(GgufError::TensorCountTooLarge { count: n_tensors });
        }
        let n_kv = self.read_u64()?;
        if n_kv > usize::MAX as u64 {
            return Err(GgufError::KvCountTooLarge { count: n_kv });
        }
        Ok((version, n_tensors, n_kv))
    }
}

/// Size of the data section of the tensors `infos`, checking that each
/// starts where the padded data of the one before ends.
fn data_section_size(infos: &Vec<GgufTensorInfo>, alignment: u64, Ghost(m): Ghost<Seq<GgufTensorInfoModel>>) -> (res: Result<u64, GgufError>)
    requires
        infos_match(infos@, m),
        alignment > 0,
    ensures
        result_agrees(res, spec_data_size(m, alignment, m.len())),
{
    let mut data_size: u64 = 0;
    let mut i: usize = 0;
    while i < infos.len()
        invariant
            i <= infos@.len(),
            infos_match(infos@, m),
            alignment > 0,
            spec_data_size(m, alignment, i as nat) == Ok::<u64, GgufErrorModel>(data_size),
        decreases infos@.len() - i,
    {
        let ti = &infos[i];
        proof {
            assert(infos@[i as int].model() == m[i as int]);
        }
        if ti.offset != data_size {
            proof {
                lemma_data_size_error_persists(m, alignment, (i + 1) as nat, m.len());
            }
            return Err(GgufError::OffsetMismatch { index: i, name: ti.name.clone(), offset: ti.offset, expected: data_size });
        }
        let nbytes = match ti.nb[3].checked_mul(ti.ne[3] as u64) {
            Some(x) => x,
            None => {
                proof {
                    lemma_data_size_error_persists(m, alignment, (i + 1) as nat, m.len());
                }
                return Err(GgufError::DimensionArithmetic { index: i, name: ti.name.clone() });
            },
        };
        if nbytes > u64::MAX - (alignment - 1) {
            proof {
                lemma_data_size_error_persists(m, alignment, (i + 1) as nat, m.len());
            }
            return Err(GgufError::DimensionArithmetic { index: i, name: ti.name.clone() });
        }
        let padded = pad(ti.nbytes(), alignment);
        data_size = match data_size.checked_add(padded) {
            Some(x) => x,
            None => {
                proof {
                    lemma_data_size_error_persists(m, alignment, (i + 1) as nat, m.len());
                }
                return Err(GgufError::SizeOverflow { index: i, name: ti.name.clone() });
            },
        };
        i = i + 1;
    }
    Ok(data_size)
}

/// Parses the header of a GGUF file read by `r`: magic, version, key-value
/// metadata and tensor entries, then finds the aligned start and the size of
/// the tensor data section. No tensor data is read.
pub fn gguf_init_from_reader(r: &mut GgufReader) -> (res: Result<GgufCtx, GgufError>)
    requires
        old(r).wf(),
    ensures
        match spec_gguf_parse(old(r).data(), old(r).position()) {
            Ok(m) => res matches Ok(ctx) && ctx_matches(ctx, m),
            Err(e) => (res matches Err(e2) && e2.model() == e),
        },
{
    let ghost b = r.data();
    let (version, n_tensors, n_kv) = r.read_header()?;
    let ghost p0 = r.position();
    let kv = r.read_kvs(n_kv as usize)?;
    let ghost kvm = match spec_read_kvs(b, p0, n_kv as nat) {
        Ok((m, _)) => m,
        Err(_) => Seq::empty(),
    };
    let alignment = find_alignment(&kv, Ghost(kvm))?;
    let ghost p1 = r.position();
    let tensor_infos = r.read_infos(n_tensors as usize)?;
    let ghost im = match spec_read_infos(b, p1, n_tensors as nat) {
        Ok((m, _)) => m,
        Err(_) => Seq::empty(),
    };
    let p2 = r.tell();
    let data_offset = if tensor_infos.len() > 0 {
        if p2 > u64::MAX - (alignment as u64 - 1) {
            return Err(GgufError::DataOffsetOverflow);
        }
        pad(p2, alignment as u64)
    } else {
        p2
    };
    let data_size = data_section_size(&tensor_infos, alignment as u64, Ghost(im))?;
    Ok(GgufCtx { version, kv, tensor_infos, alignment, data_offset, data_size })
}

/// Parses the header of a GGUF file whose contents are `bytes`.
pub fn gguf_init_from_bytes(bytes: &[u8]) -> (res: Result<GgufCtx, GgufError>)
    ensures
        match spec_gguf_parse(bytes@, 0) {
            Ok(m) => res matches Ok(ctx) && ctx_matches(ctx, m),
            Err(e) => (res matches Err(e2) && e2.model() == e),
        },
{
    let mut r = GgufReader::new(bytes);
    gguf_init_from_reader(&mut r)
}

/// Whether two byte slices hold the same bytes.
pub fn bytes_equal(a: &[u8], b: &[u8]) -> (r: bool)
    ensures
        r == (a@ == b@),
{
    if a.len() != b.len() {
        return false;
    }
    let mut i: usize = 0;
    while i < a.len()
        invariant
            i <= a@.len(),
            a@.len() == b@.len(),
            forall|j: int| 0 <= j < i ==> a@[j] == b@[j],
        decreases a@.len() - i,
    {
        if a[i] != b[i] {
            return false;
        }
        i = i + 1;
    }
    proof {
        assert(a@ =~= b@);
    }
    true
}

/// The index of the first entry of `kv` whose key is `key`.
pub open spec fn first_key_index(kv: Seq<(String, GgufValue)>, key: Seq<char>) -> Option<int>
    decreases kv.len(),
{
    if kv.len() == 0 {
        None
    } else {
        match first_key_index(kv.drop_last(), key) {
            Some(j) => Some(j),
            None => if kv.last().0@ == key {
                Some(kv.len() - 1)
            } else {
                None
            },
        }
    }
}

proof fn lemma_first_key_index(kv: Seq<(String, GgufValue)>, key: Seq<char>, j: int)
    requires
        0 <= j < kv.len(),
        kv[j].0@ == key,
        first_key_index(kv.take(j), key) is None,
    ensures
        first_key_index(kv, key) == Some(j),
    decreases kv.len() - j,
{
    if j == kv.len() - 1 {
        assert(kv.drop_last() =~= kv.take(j));
    } else {
        assert(kv.drop_last().take(j) =~= kv.take(j));
        lemma_first_key_index(kv.drop_last(), key, j);
    }
}

impl GgufCtx {
    /// The value of the first metadata entry whose key is `key`.
    pub fn find_kv(&self, key: &str) -> (res: Option<&GgufValue>)
        ensures
            match first_key_index(self.kv@, key@) {
                Some(j) => res == Some(&self.kv@[j].1),
                None => res is None,
            },
    {
        let kb = key.as_bytes();
        let mut j: usize = 0;
        while j < self.kv.len()
            invariant
                j <= self.kv@.len(),
                kb@ == encode_utf8(key@),
                first_key_index(self.kv@.take(j as int), key@) is None,
            decreases self.kv@.len() - j,
        {
            proof {
                assert(self.kv@.take(j + 1).drop_last() =~= self.kv@.take(j as int));
                lemma_encode_injective(self.kv@[j as int].0@, key@);
            }
            if bytes_equal(self.kv[j].0.as_str().as_bytes(), kb) {
                proof {
                    lemma_first_key_index(self.kv@, key@, j as int);
                }
                return Some(&self.kv[j].1);
            }
            j = j + 1;
        }
        proof {
            assert(self.kv@.take(j as int) =~= self.kv@);
        }
        None
    }
}

// ---------------------------------------------------------------------
// what a parsed header guarantees
// ---------------------------------------------------------------------

/// The size in bytes of a tensor's data: its outermost byte stride times its
/// outermost element count.
pub open spec fn tensor_nbytes(ti: GgufTensorInfoModel) -> int {
    ti.nb[3] * (ti.ne[3] as u64)
}

/// No two entries of `kv` have the same key, and no key is empty.
pub open spec fn keys_distinct(kv: Seq<(Seq<u8>, GgufValueModel)>) -> bool {
    &&& forall|i: int| 0 <= i < kv.len() ==> (#[trigger] kv[i]).0.len() > 0
    &&& forall|i: int, j: int| 0 <= i < j < kv.len() ==> (#[trigger] kv[i]).0 != (#[trigger] kv[j]).0
}

/// No two tensors have the same name.
pub open spec fn names_distinct(infos: Seq<GgufTensorInfoModel>) -> bool {
    forall|i: int, j: int| 0 <= i < j < infos.len() ==> (#[trigger] infos[i]).name != (#[trigger] infos[j]).name
}

/// The tensors' data regions in a data section of `size` bytes: each starts
/// at a multiple of `align`, ends within the section, and ends no later than
/// the next one starts.
pub open spec fn regions_laid_out(infos: Seq<GgufTensorInfoModel>, align: int, size: int) -> bool {
    &&& forall|i: int| 0 <= i < infos.len() ==> (#[trigger] infos[i]).offset as int % align == 0
    &&& forall|i: int| 0 <= i < infos.len() ==> (#[trigger] infos[i]).offset + tensor_nbytes(infos[i]) <= size
    &&& forall|i: int, j: int| 0 <= i < j < infos.len() ==> (#[trigger] infos[i]).offset + tensor_nbytes(infos[i]) <= (#[trigger] infos[j]).offset
}

proof fn lemma_kvs_distinct(b: Seq<u8>, pos: int, n: nat)
    requires
        spec_read_kvs(b, pos, n) is Ok,
    ensures
        spec_read_kvs(b, pos, n) matches Ok((kv, _)) && kv.len() == n && keys_distinct(kv),
    decreases n,
{
    if n > 0 {
        lemma_kvs_distinct(b, pos, (n - 1) as nat);
        let (kv, p) = spec_read_kvs(b, pos, (n - 1) as nat)->Ok_0;
        let (entry, q) = spec_read_kv(b, p, (n - 1) as usize, kv)->Ok_0;
        assert(entry.0.len() > 0 && !has_key(kv, entry.0));
        let kv2 = kv.push(entry);
        assert forall|i: int, j: int| 0 <= i < j < kv2.len() implies (#[trigger] kv2[i]).0 != (#[trigger] kv2[j]).0 by {
            if j == kv2.len() - 1 {
                if kv2[i].0 == kv2[j].0 {
                    assert(kv[i].0 == entry.0);
                }
            }
        }
    }
}

proof fn lemma_infos_distinct(b: Seq<u8>, pos: int, n: nat)
    requires
        spec_read_infos(b, pos, n) is Ok,
    ensures
        spec_read_infos(b, pos, n) matches Ok((infos, q)) && infos.len() == n && names_distinct(infos)
            && (n > 0 ==> q >= 0),
    decreases n,
{
    if n > 0 {
        lemma_infos_distinct(b, pos, (n - 1) as nat);
        let (infos, p) = spec_read_infos(b, pos, (n - 1) as nat)->Ok_0;
        let (info, q) = spec_read_info(b, p, (n - 1) as usize, infos)->Ok_0;
        assert(!has_name(infos, info.name) && q >= 0);
        let infos2 = infos.push(info);
        assert forall|i: int, j: int| 0 <= i < j < infos2.len() implies (#[trigger] infos2[i]).name != (#[trigger] infos2[j]).name by {
            if j == infos2.len() - 1 {
                if infos2[i].name == infos2[j].name {
                    assert(infos[i].name == info.name);
                }
            }
        }
    }
}

/// Multiples of `m` add up to a multiple of `m`.
proof fn lemma_mod_add_zero(a: int, c: int, m: int)
    requires
        m > 0,
        a % m == 0,
        c % m == 0,
    ensures
        (a + c) % m == 0,
{
    vstd::arithmetic::div_mod::lemma_fundamental_div_mod(a, m);
    vstd::arithmetic::div_mod::lemma_fundamental_div_mod(c, m);
    assert(a + c == (a / m + c / m) * m) by (nonlinear_arith)
        requires
            a == m * (a / m),
            c == m * (c / m),
    ;
    vstd::arithmetic::div_mod::lemma_mod_multiples_basic(a / m + c / m, m);
}

proof fn lemma_data_layout(infos: Seq<GgufTensorInfoModel>, align: u64, k: nat)
    requires
        align > 0,
        k <= infos.len(),
        spec_data_size(infos, align, k) is Ok,
    ensures
        spec_data_size(infos, align, k) matches Ok(ds) && ds as int % (align as int) == 0
            && regions_laid_out(infos.take(k as int), align as int, ds as int),
    decreases k,
{
    if k == 0 {
        assert(infos.take(0) =~= Seq::<GgufTensorInfoModel>::empty());
    } else {
        lemma_data_layout(infos, align, (k - 1) as nat);
        let ds = spec_data_size(infos, align, (k - 1) as nat)->Ok_0;
        let ti = infos[k - 1];
        let nb = tensor_nbytes(ti);
        lemma_pad(nb, align as int);
        let ds2 = ds + spec_pad(nb, align as int);
        lemma_mod_add_zero(ds as int, spec_pad(nb, align as int), align as int);
        let t1 = infos.take(k - 1);
        let t2 = infos.take(k as int);
        assert(t2.drop_last() =~= t1);
        assert forall|i: int| 0 <= i < t2.len() implies (#[trigger] t2[i]).offset as int % (align as int) == 0
            && t2[i].offset + tensor_nbytes(t2[i]) <= ds2 by {
            if i < k - 1 {
                assert(t2[i] == t1[i]);
            }
        }
        assert forall|i: int, j: int| 0 <= i < j < t2.len() implies (#[trigger] t2[i]).offset + tensor_nbytes(t2[i]) <= (#[trigger] t2[j]).offset by {
            assert(t2[i] == t1[i]);
            if j < k - 1 {
                assert(t2[j] == t1[j]);
            }
        }
    }
}

/// What a successfully parsed header guarantees: the alignment is a power
/// of two; metadata keys are non-empty and distinct; tensor names are
/// distinct; the data section starts at a multiple of the alignment (when
/// there are tensors); each tensor's data starts at a multiple of the
/// alignment, lies within the data section and ends before the next
/// tensor's data starts; and the section's size is a multiple of the
/// alignment.
pub proof fn lemma_gguf_header_laws(b: Seq<u8>, pos: int)
    requires
        spec_gguf_parse(b, pos) is Ok,
    ensures
        spec_gguf_parse(b, pos) matches Ok(m) && {
            &&& is_power_of_two(m.alignment)
            &&& keys_distinct(m.kv)
            &&& names_distinct(m.tensor_infos)
            &&& m.tensor_infos.len() > 0 ==> m.data_offset as int % (m.alignment as int) == 0
            &&& regions_laid_out(m.tensor_infos, m.alignment as int, m.data_size as int)
            &&& m.data_size as int % (m.alignment as int) == 0
        },
{
    let (version, n_tensors, n_kv, p0) = spec_read_header(b, pos)->Ok_0;
    lemma_kvs_distinct(b, p0, n_kv as nat);
    let (kv, p1) = spec_read_kvs(b, p0, n_kv as nat)->Ok_0;
    let alignment = spec_alignment(kv)->Ok_0;
    assert(is_power_of_two(alignment));
    assert(alignment > 0);
    lemma_infos_distinct(b, p1, n_tensors as nat);
    let (infos, p2) = spec_read_infos(b, p1, n_tensors as nat)->Ok_0;
    if infos.len() > 0 {
        lemma_pad(p2, alignment as int);
    }
    lemma_data_layout(infos, alignment as u64, infos.len());
    assert(infos.take(infos.len() as int) =~= infos);
}

// ---------------------------------------------------------------------
// the GGUF tables and the byte strides of a tensor
// ---------------------------------------------------------------------

/// The ggml element types by id, with the number of elements per block and
/// the bytes per block: F32 4, F16 2, Q4_0 18 and Q4_1 20 per 32, Q5_0 22
/// and Q5_1 24 per 32, Q8_0 34 and Q8_1 36 per 32, the k-quants Q2_K 84,
/// Q3_K 110, Q4_K 144, Q5_K 176, Q6_K 210 and Q8_K 292 per 256, I8 1, I16 2,
/// I32 4, I64 8, F64 8, BF16 2; every other id is unknown.
pub proof fn lemma_ggml_type_table(id: u32)
    ensures
        id == 0 ==> ggml_type_of_id(id) == Some(GgmlType::F32) && GgmlType::F32.spec_block_size() == 1 && GgmlType::F32.spec_type_size() == 4,
        id == 1 ==> ggml_type_of_id(id) == Some(GgmlType::F16) && GgmlType::F16.spec_block_size() == 1 && GgmlType::F16.spec_type_size() == 2,
        id == 2 ==> ggml_type_of_id(id) == Some(GgmlType::Q4_0) && GgmlType::Q4_0.spec_block_size() == 32 && GgmlType::Q4_0.spec_type_size() == 18,
        id == 3 ==> ggml_type_of_id(id) == Some(GgmlType::Q4_1) && GgmlType::Q4_1.spec_block_size() == 32 && GgmlType::Q4_1.spec_type_size() == 20,
        id == 6 ==> ggml_type_of_id(id) == Some(GgmlType::Q5_0) && GgmlType::Q5_0.spec_block_size() == 32 && GgmlType::Q5_0.spec_type_size() == 22,
        id == 7 ==> ggml_type_of_id(id) == Some(GgmlType::Q5_1) && GgmlType::Q5_1.spec_block_size() == 32 && GgmlType::Q5_1.spec_type_size() == 24,
        id == 8 ==> ggml_type_of_id(id) == Some(GgmlType::Q8_0) && GgmlType::Q8_0.spec_block_size() == 32 && GgmlType::Q8_0.spec_type_size() == 34,
        id == 9 ==> ggml_type_of_id(id) == Some(GgmlType::Q8_1) && GgmlType::Q8_1.spec_block_size() == 32 && GgmlType::Q8_1.spec_type_size() == 36,
        id == 10 ==> ggml_type_of_id(id) == Some(GgmlType::Q2K) && GgmlType::Q2K.spec_block_size() == 256 && GgmlType::Q2K.spec_type_size() == 84,
        id == 11 ==> ggml_type_of_id(id) == Some(GgmlType::Q3K) && GgmlType::Q3K.spec_block_size() == 256 && GgmlType::Q3K.spec_type_size() == 110,
        id == 12 ==> ggml_type_of_id(id) == Some(GgmlType::Q4K) && GgmlType::Q4K.spec_block_size() == 256 && GgmlType::Q4K.spec_type_size() == 144,
        id == 13 ==> ggml_type_of_id(id) == Some(GgmlType::Q5K) && GgmlType::Q5K.spec_block_size() == 256 && GgmlType::Q5K.spec_type_size() == 176,
        id == 14 ==> ggml_type_of_id(id) == Some(GgmlType::Q6K) && GgmlType::Q6K.spec_block_size() == 256 && GgmlType::Q6K.spec_type_size() == 210,
        id == 15 ==> ggml_type_of_id(id) == Some(GgmlType::Q8K) && GgmlType::Q8K.spec_block_size() == 256 && GgmlType::Q8K.spec_type_size() == 292,
        id == 24 ==> ggml_type_of_id(id) == Some(GgmlType::I8) && GgmlType::I8.spec_block_size() == 1 && GgmlType::I8.spec_type_size() == 1,
        id == 25 ==> ggml_type_of_id(id) == Some(GgmlType::I16) && GgmlType::I16.spec_block_size() == 1 && GgmlType::I16.spec_type_size() == 2,
        id == 26 ==> ggml_type_of_id(id) == Some(GgmlType::I32) && GgmlType::I32.spec_block_size() == 1 && GgmlType::I32.spec_type_size() == 4,
        id == 27 ==> ggml_type_of_id(id) == Some(GgmlType::I64) && GgmlType::I64.spec_block_size() == 1 && GgmlType::I64.spec_type_size() == 8,
        id == 28 ==> ggml_type_of_id(id) == Some(GgmlType::F64) && GgmlType::F64.spec_block_size() == 1 && GgmlType::F64.spec_type_size() == 8,
        id == 30 ==> ggml_type_of_id(id) == Some(GgmlType::Bf16) && GgmlType::Bf16.spec_block_size() == 1 && GgmlType::Bf16.spec_type_size() == 2,
        (4 <= id <= 5 || 16 <= id <= 23 || id == 29 || id >= 31) ==> ggml_type_of_id(id) is None,
{
}

/// The GGUF metadata value types by id: 0 u8, 1 i8, 2 u16, 3 i16, 4 u32,
/// 5 i32, 6 f32, 7 bool, 8 string, 9 array, 10 u64, 11 i64, 12 f64; every
/// other id is unknown.
pub proof fn lemma_value_type_table(id: u32)
    ensures
        id == 0 ==> value_type_of_id(id) == Some(GgufValueType::Uint8),
        id == 1 ==> value_type_of_id(id) == Some(GgufValueType::Int8),
        id == 2 ==> value_type_of_id(id) == Some(GgufValueType::Uint16),
        id == 3 ==> value_type_of_id(id) == Some(GgufValueType::Int16),
        id == 4 ==> value_type_of_id(id) == Some(GgufValueType::Uint32),
        id == 5 ==> value_type_of_id(id) == Some(GgufValueType::Int32),
        id == 6 ==> value_type_of_id(id) == Some(GgufValueType::Float32),
        id == 7 ==> value_type_of_id(id) == Some(GgufValueType::Bool),
        id == 8 ==> value_type_of_id(id) == Some(GgufValueType::String),
        id == 9 ==> value_type_of_id(id) == Some(GgufValueType::Array),
        id == 10 ==> value_type_of_id(id) == Some(GgufValueType::Uint64),
        id == 11 ==> value_type_of_id(id) == Some(GgufValueType::Int64),
        id == 12 ==> value_type_of_id(id) == Some(GgufValueType::Float64),
        id >= 13 ==> value_type_of_id(id) is None,
{
}

/// The byte strides of a tensor entry follow from its element type and
/// element counts: the innermost stride is the bytes per block, each next
/// stride is the one before times the number of blocks or elements along
/// that axis, and the data takes the bytes per block times the number of
/// blocks along the first axis times the other three element counts.
pub open spec fn strides_follow_dims(ti: GgufTensorInfoModel) -> bool {
    let ts = ti.dtype.spec_type_size() as int;
    let bs = ti.dtype.spec_block_size() as int;
    &&& ti.ne.len() == 4
    &&& ti.nb.len() == 4
    &&& forall|k: int| 0 <= k < 4 ==> ti.ne[k] >= 0
    &&& (ti.ne[0] as int) % bs == 0
    &&& ti.nb[0] == ts
    &&& ti.nb[1] == ti.nb[0] * ((ti.ne[0] as int) / bs)
    &&& ti.nb[2] == ti.nb[1] * ti.ne[1]
    &&& ti.nb[3] == ti.nb[2] * ti.ne[2]
    &&& tensor_nbytes(ti) == ts * ((ti.ne[0] as int) / bs) * ti.ne[1] * ti.ne[2] * ti.ne[3]
}

proof fn lemma_read_info_strides(b: Seq<u8>, pos: int, index: usize, prev: Seq<GgufTensorInfoModel>)
    requires
        spec_read_info(b, pos, index, prev) is Ok,
    ensures
        strides_follow_dims(spec_read_info(b, pos, index, prev)->Ok_0.0),
{
    let ti = spec_read_info(b, pos, index, prev)->Ok_0.0;
    let t = ti.dtype;
    let bs = t.spec_block_size() as int;
    assert(bs == 1 || bs == 32 || bs == 256);
    let ne0 = ti.ne[0] as int;
    let ne1 = ti.ne[1];
    let ne2 = ti.ne[2];
    let ne3 = ti.ne[3];
    assert(ne0 >= 0 && ne1 >= 0 && ne2 >= 0 && ne3 >= 0);
    assert(0 <= ne0 / bs <= ne0) by (nonlinear_arith)
        requires
            ne0 >= 0,
            bs >= 1,
    ;
    assert(tensor_nbytes(ti) == ti.nb[3] * ne3);
    let ts = t.spec_type_size() as int;
    let q = ne0 / bs;
    assert(((ts * q) * ne1) * ne2 * ne3 == ts * q * ne1 * ne2 * ne3);
}

proof fn lemma_read_infos_strides(b: Seq<u8>, pos: int, n: nat)
    requires
        spec_read_infos(b, pos, n) is Ok,
    ensures
        forall|i: int| 0 <= i < spec_read_infos(b, pos, n)->Ok_0.0.len() ==> strides_follow_dims(
            #[trigger] spec_read_infos(b, pos, n)->Ok_0.0[i],
        ),
    decreases n,
{
    if n > 0 {
        lemma_read_infos_strides(b, pos, (n - 1) as nat);
        let (infos, p) = spec_read_infos(b, pos, (n - 1) as nat)->Ok_0;
        lemma_read_info_strides(b, p, (n - 1) as usize, infos);
        let all = spec_read_infos(b, pos, n)->Ok_0.0;
        assert forall|i: int| 0 <= i < all.len() implies strides_follow_dims(#[trigger] all[i]) by {
            if i < infos.len() {
                assert(all[i] == infos[i]);
            }
        }
    }
}

/// Every tensor of a successfully parsed header has byte strides that
/// follow from its element type and element counts, so its data takes the
/// bytes per block times the blocks along the first axis times the other
/// element counts.
pub proof fn lemma_gguf_tensor_strides(b: Seq<u8>, pos: int)
    requires
        spec_gguf_parse(b, pos) is Ok,
    ensures
        forall|i: int| 0 <= i < spec_gguf_parse(b, pos)->Ok_0.tensor_infos.len() ==> strides_follow_dims(
            #[trigger] spec_gguf_parse(b, pos)->Ok_0.tensor_infos[i],
        ),
{
    let (version, n_tensors, n_kv, p0) = spec_read_header(b, pos)->Ok_0;
    let (kv, p1) = spec_read_kvs(b, p0, n_kv as nat)->Ok_0;
    lemma_read_infos_strides(b, p1, n_tensors as nat);
}

/// A header without the alignment key has its data aligned to 32 bytes; a
/// `u32` under the key that is a power of two is the alignment.
pub proof fn lemma_alignment_choice(kv: Seq<(Seq<u8>, GgufValueModel)>)
    ensures
        spec_find_key(kv, alignment_key()) is None ==> spec_alignment(kv) == Ok::<usize, GgufErrorModel>(32usize),
        forall|v: u32| spec_find_key(kv, alignment_key()) == Some(GgufValueModel::Uint32(v)) && is_power_of_two(v as usize)
            ==> spec_alignment(kv) == Ok::<usize, GgufErrorModel>(v as usize),
{
    let a: usize = 32;
    assert(a & ((a - 1) as usize) == 0) by (bit_vector)
        requires
            a == 32usize,
    ;
}

/// Values are read least significant byte first: the first byte of a
/// two-byte value is its low byte, and a four-byte (eight-byte) value is its
/// first two (four) bytes plus the next two (four) bytes shifted up.
pub proof fn lemma_little_endian(s: Seq<u8>)
    ensures
        s.len() >= 2 ==> le_u16(s) % 256 == s[0] && le_u16(s) / 256 == s[1],
        s.len() >= 4 ==> le_u32(s) == le_u16(s) + 0x1_0000 * le_u16(s.skip(2)),
        s.len() >= 8 ==> le_u64(s) == le_u32(s) + 0x1_0000_0000 * le_u32(s.skip(4)),
{
    if s.len() >= 8 {
        assert(s.skip(4)[0] == s[4] && s.skip(4)[1] == s[5] && s.skip(4)[2] == s[6] && s.skip(4)[3] == s[7]);
    }
    if s.len() >= 4 {
        assert(s.skip(2)[0] == s[2] && s.skip(2)[1] == s[3]);
    }
}

/// Each scalar metadata value takes a fixed number of bytes, read little
/// endian: one for `u8`, `i8` and `bool` (non-zero is true), two for `u16` and
/// `i16`, four for `u32`, `i32` and `f32` (kept as its bits), eight for `u64`,
/// `i64` and `f64`. Signed values are the two's complement of those bytes.
pub proof fn lemma_scalar_values(b: Seq<u8>, pos: int)
    requires
        0 <= pos,
    ensures
        pos + 1 <= b.len() ==> {
            &&& spec_read_value(b, pos, GgufValueType::Uint8) == Ok::<(GgufValueModel, int), GgufErrorModel>((GgufValueModel::Uint8(b[pos]), pos + 1))
            &&& spec_read_value(b, pos, GgufValueType::Int8) == Ok::<(GgufValueModel, int), GgufErrorModel>((GgufValueModel::Int8(b[pos] as i8), pos + 1))
            &&& spec_read_value(b, pos, GgufValueType::Bool) == Ok::<(GgufValueModel, int), GgufErrorModel>((GgufValueModel::Bool(b[pos] != 0), pos + 1))
        },
        pos + 2 <= b.len() ==> {
            let x = le_u16(b.subrange(pos, pos + 2));
            &&& spec_read_value(b, pos, GgufValueType::Uint16) == Ok::<(GgufValueModel, int), GgufErrorModel>((GgufValueModel::Uint16(x), pos + 2))
            &&& spec_read_value(b, pos, GgufValueType::Int16) == Ok::<(GgufValueModel, int), GgufErrorModel>((GgufValueModel::Int16(x as i16), pos + 2))
        },
        pos + 4 <= b.len() ==> {
            let x = le_u32(b.subrange(pos, pos + 4));
            &&& spec_read_value(b, pos, GgufValueType::Uint32) == Ok::<(GgufValueModel, int), GgufErrorModel>((GgufValueModel::Uint32(x), pos + 4))
            &&& spec_read_value(b, pos, GgufValueType::Int32) == Ok::<(GgufValueModel, int), GgufErrorModel>((GgufValueModel::Int32(x as i32), pos + 4))
            &&& spec_read_value(b, pos, GgufValueType::Float32) == Ok::<(GgufValueModel, int), GgufErrorModel>((GgufValueModel::Float32(x), pos + 4))
        },
        pos + 8 <= b.len() ==> {
            let x = le_u64(b.subrange(pos, pos + 8));
            &&& spec_read_value(b, pos, GgufValueType::Uint64) == Ok::<(GgufValueModel, int), GgufErrorModel>((GgufValueModel::Uint64(x), pos + 8))
            &&& spec_read_value(b, pos, GgufValueType::Int64) == Ok::<(GgufValueModel, int), GgufErrorModel>((GgufValueModel::Int64(x as i64), pos + 8))
            &&& spec_read_value(b, pos, GgufValueType::Float64) == Ok::<(GgufValueModel, int), GgufErrorModel>((GgufValueModel::Float64(x), pos + 8))
        },
        pos + 8 > b.len() ==> spec_read_value(b, pos, GgufValueType::Uint64) == Err::<(GgufValueModel, int), GgufErrorModel>(GgufErrorModel::ReadFailed { wanted: 8 }),
        pos + 4 > b.len() ==> spec_read_value(b, pos, GgufValueType::Uint32) == Err::<(GgufValueModel, int), GgufErrorModel>(GgufErrorModel::ReadFailed { wanted: 4 }),
        pos + 2 > b.len() ==> spec_read_value(b, pos, GgufValueType::Uint16) == Err::<(GgufValueModel, int), GgufErrorModel>(GgufErrorModel::ReadFailed { wanted: 2 }),
        pos + 1 > b.len() ==> spec_read_value(b, pos, GgufValueType::Uint8) == Err::<(GgufValueModel, int), GgufErrorModel>(GgufErrorModel::ReadFailed { wanted: 1 }),
{
    if pos + 1 <= b.len() {
        assert(b.subrange(pos, pos + 1)[0] == b[pos]);
    }
}

/// A string is its byte length as a little-endian `u64`, then that many
/// bytes of valid UTF-8.
pub proof fn lemma_string_layout(b: Seq<u8>, pos: int)
    requires
        spec_read_string(b, pos) is Ok,
    ensures
        spec_read_string(b, pos) matches Ok((s, q)) && {
            &&& 0 <= pos && pos + 8 <= b.len()
            &&& s.len() == le_u64(b.subrange(pos, pos + 8))
            &&& q == pos + 8 + s.len()
            &&& s == b.subrange(pos + 8, q)
            &&& valid_utf8(s)
        },
{
}

/// A header starts with the bytes `GGUF`, then the version (2 or 3), the
/// tensor count and the key-value count, little endian, 24 bytes in all.
pub proof fn lemma_header_layout(b: Seq<u8>, pos: int)
    requires
        spec_read_header(b, pos) is Ok,
    ensures
        spec_read_header(b, pos) matches Ok((v, nt, nkv, p)) && {
            &&& 0 <= pos && pos + 24 <= b.len()
            &&& b.subrange(pos, pos + 4) == seq![71u8, 71, 85, 70]
            &&& v == le_u32(b.subrange(pos + 4, pos + 8))
            &&& 2 <= v <= 3
            &&& nt == le_u64(b.subrange(pos + 8, pos + 16))
            &&& nkv == le_u64(b.subrange(pos + 16, pos + 24))
            &&& p == pos + 24
        },
{
}

} // verus!
