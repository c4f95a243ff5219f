//! Finding the files of a split model, indexing the tensors of its GGUF
//! headers, and planning how each tensor's data is read.

use vstd::prelude::*;
use vstd::utf8::*;
use crate::gguf::{
    first_key_index, string_from_utf8, GgmlType, GgufCtx, GgufTensorInfo, GgufValue, GgufCtxModel,
    GgufErrorModel, spec_gguf_parse, ctx_matches, strides_follow_dims, tensor_nbytes,
    lemma_gguf_tensor_strides, lemma_gguf_header_laws,
};
use crate::layout::{lemma_prod_single, lemma_prod_split, prefixes_fit, prod};

verus! {

/// Where a tensor's data lives: the split file it is in, its offset within
/// that file's data section, and its size in bytes.
#[derive(Debug, Clone, Copy, PartialEq, Eq, Structural)]
pub struct AcuteTensorWeight {
    pub offset: u64,
    pub gguf_idx: usize,
    pub data_size: u64,
}

// ---------------------------------------------------------------------
// split file names
// ---------------------------------------------------------------------

/// The bytes of `.gguf`.
pub open spec fn gguf_ext() -> Seq<u8> {
    seq![46u8, 103, 103, 117, 102]
}

/// `b` without a trailing `.gguf`.
pub open spec fn strip_ext(b: Seq<u8>) -> Seq<u8> {
    if b.len() >= 5 && b.subrange(b.len() - 5, b.len() as int) == gguf_ext() {
        b.take(b.len() - 5)
    } else {
        b
    }
}

/// The position of the `n`-th `-` (45) of `w`, counting from the end.
pub open spec fn nth_dash_from_end(w: Seq<u8>, n: nat) -> Option<int>
    decreases w.len(),
{
    if w.len() == 0 || n == 0 {
        None
    } else if w.last() == 45 {
        if n == 1 {
            Some(w.len() - 1)
        } else {
            nth_dash_from_end(w.drop_last(), (n - 1) as nat)
        }
    } else {
        nth_dash_from_end(w.drop_last(), n)
    }
}

/// The base name of split file `b` (`<base>-00001-of-00003.gguf`): what
/// comes before the third `-` from the end once `.gguf` is taken off; the
/// whole name when there are fewer than three.
pub open spec fn split_prefix_bytes(b: Seq<u8>) -> Seq<u8> {
    match nth_dash_from_end(strip_ext(b), 3) {
        Some(k) => b.take(k),
        None => b,
    }
}

proof fn lemma_nth_dash(w: Seq<u8>, n: nat, k: int)
    requires
        nth_dash_from_end(w, n) == Some(k),
    ensures
        0 <= k < w.len(),
        w[k] == 45,
    decreases w.len(),
{
    if w.last() == 45 && n == 1 {
    } else if w.last() == 45 {
        lemma_nth_dash(w.drop_last(), (n - 1) as nat, k);
    } else {
        lemma_nth_dash(w.drop_last(), n, k);
    }
}

/// The base name of a split model file name: for
/// `<base>-<index>-of-<count>.gguf`, the part `<base>`.
pub fn llama_split_prefix(fname: &str) -> (r: &str)
    ensures
        encode_utf8(r@) == split_prefix_bytes(encode_utf8(fname@)),
{
    let b = fname.as_bytes();
    let len = b.len();
    let ghost bs = b@;
    let w_len = if len >= 5 && b[len - 5] == 46 && b[len - 4] == 103 && b[len - 3] == 103
        && b[len - 2] == 117 && b[len - 1] == 102 {
        proof {
            assert(bs.subrange(len - 5, len as int) =~= gguf_ext());
        }
        len - 5
    } else {
        proof {
            if bs.len() >= 5 && bs.subrange(bs.len() - 5, bs.len() as int) == gguf_ext() {
                assert(bs.subrange(len - 5, len as int)[0] == bs[len - 5]);
                assert(bs.subrange(len - 5, len as int)[1] == bs[len - 4]);
                assert(bs.subrange(len - 5, len as int)[2] == bs[len - 3]);
                assert(bs.subrange(len - 5, len as int)[3] == bs[len - 2]);
                assert(bs.subrange(len - 5, len as int)[4] == bs[len - 1]);
            }
        }
        len
    };
    let ghost w = strip_ext(bs);
    proof {
        assert(w =~= bs.take(w_len as int));
        assert(w.take(w_len as int) =~= w);
    }
    // scan backwards for the third dash
    let mut i = w_len;
    let mut found: usize = 0;
    while i > 0
        invariant
            i <= w_len <= len,
            len == bs.len(),
            b@ == bs,
            bs == encode_utf8(fname@),
            w == bs.take(w_len as int),
            w == strip_ext(bs),
            found < 3,
            nth_dash_from_end(w, 3) == nth_dash_from_end(w.take(i as int), (3 - found) as nat),
        decreases i,
    {
        proof {
            assert(w.take(i as int).drop_last() =~= w.take(i - 1));
            assert(w.take(i as int).last() == bs[i - 1]);
        }
        let ghost before = nth_dash_from_end(w.take(i as int), (3 - found) as nat);
        i = i - 1;
        if b[i] == 45 {
            found = found + 1;
            if found == 3 {
                proof {
                    encode_utf8_valid_utf8(fname@);
                    is_char_boundary_iff_is_leading_byte(bs, i as int);
                    assert(is_leading_byte_width_1(bs[i as int]));
                }
                let (head, _tail) = fname.split_at(i);
                proof {
                    assert(before == Some(i as int));
                    assert(nth_dash_from_end(w, 3) == Some(i as int));
                    assert(split_prefix_bytes(bs) == bs.take(i as int));
                    assert(encode_utf8(head@) =~= bs.take(i as int));
                }
                return head;
            }
        }
    }
    proof {
        assert(w.take(0) =~= Seq::<u8>::empty());
    }
    fname
}

/// Decimal digits of `x` as ASCII bytes, most significant first.
pub open spec fn decimal(x: nat) -> Seq<u8>
    decreases x,
{
    if x < 10 {
        seq![(48 + x) as u8]
    } else {
        decimal(x / 10).push((48 + x % 10) as u8)
    }
}

/// Decimal digits of `x`, left-padded with zeros to at least five.
pub open spec fn decimal5(x: nat) -> Seq<u8> {
    if decimal(x).len() < 5 {
        Seq::new((5 - decimal(x).len()) as nat, |_i: int| 48u8) + decimal(x)
    } else {
        decimal(x)
    }
}


/// Bytes below 0x80 form valid UTF-8.
proof fn lemma_ascii_valid(b: Seq<u8>)
    requires
        forall|i: int| 0 <= i < b.len() ==> #[trigger] b[i] < 128,
    ensures
        valid_utf8(b),
    decreases b.len(),
{
    if b.len() > 0 {
        let x = b[0];
        assert(x & 0x7f <= 0x7f) by (bit_vector);
        assert(pop_first_scalar(b) =~= b.drop_first());
        lemma_ascii_valid(b.drop_first());
    }
}

/// Appends the decimal digits of `x` to `out`.
fn push_decimal(out: &mut Vec<u8>, x: usize)
    ensures
        final(out)@ == old(out)@ + decimal(x as nat),
        forall|i: int| 0 <= i < decimal(x as nat).len() ==> 48 <= #[trigger] decimal(x as nat)[i] < 58,
    decreases x,
{
    if x >= 10 {
        push_decimal(out, x / 10);
    }
    out.push((48 + x % 10) as u8);
    proof {
        if x >= 10 {
            assert(final(out)@ =~= old(out)@ + decimal(x as nat));
        } else {
            assert(final(out)@ =~= old(out)@ + decimal(x as nat));
        }
    }
}

proof fn lemma_decimal_len(x: nat)
    ensures
        x < 10 ==> decimal(x).len() == 1,
        10 <= x < 100 ==> decimal(x).len() == 2,
        100 <= x < 1000 ==> decimal(x).len() == 3,
        1000 <= x < 10000 ==> decimal(x).len() == 4,
        10000 <= x ==> decimal(x).len() >= 5,
        10000 <= x < 100000 ==> decimal(x).len() == 5,
        100000 <= x ==> decimal(x).len() >= 6,
        decimal(x).len() >= 1,
    decreases x,
{
    if x >= 10 {
        lemma_decimal_len(x / 10);
    }
}

/// Appends the decimal digits of `x`, zero-padded to five, to `out`.
fn push_decimal5(out: &mut Vec<u8>, x: usize)
    ensures
        final(out)@ == old(out)@ + decimal5(x as nat),
        forall|i: int| 0 <= i < decimal5(x as nat).len() ==> 48 <= #[trigger] decimal5(x as nat)[i] < 58,
{
    proof {
        lemma_decimal_len(x as nat);
    }
    let pad: usize = if x < 10 {
        4
    } else if x < 100 {
        3
    } else if x < 1000 {
        2
    } else if x < 10000 {
        1
    } else {
        0
    };
    let ghost start = out@;
    let mut k: usize = 0;
    while k < pad
        invariant
            k <= pad,
            out@ == start + Seq::new(k as nat, |_i: int| 48u8),
        decreases pad - k,
    {
        out.push(48);
        k = k + 1;
        proof {
            assert(out@ =~= start + Seq::new(k as nat, |_i: int| 48u8));
        }
    }
    let ghost padded = out@;
    push_decimal(out, x);
    proof {
        if pad > 0 {
            assert(decimal5(x as nat) =~= Seq::new(pad as nat, |_i: int| 48u8) + decimal(x as nat));
        } else {
            assert(decimal5(x as nat) =~= decimal(x as nat));
        }
        assert(out@ =~= start + decimal5(x as nat));
        assert forall|i: int| 0 <= i < decimal5(x as nat).len() implies 48 <= #[trigger] decimal5(x as nat)[i] < 58 by {
            if pad > 0 && i < pad {
            } else {
                assert(decimal5(x as nat)[i] == decimal(x as nat)[i - pad]);
            }
        }
    }
}

/// Appends the bytes of `b` to `out`.
fn push_all(out: &mut Vec<u8>, b: &[u8])
    ensures
        final(out)@ == old(out)@ + b@,
{
    let ghost start = out@;
    let mut i: usize = 0;
    while i < b.len()
        invariant
            i <= b@.len(),
            out@ == start + b@.take(i as int),
        decreases b@.len() - i,
    {
        out.push(b[i]);
        i = i + 1;
        proof {
            assert(out@ =~= start + b@.take(i as int));
        }
    }
    proof {
        assert(b@.take(i as int) =~= b@);
    }
}

/// The bytes that follow the base name in the name of split `id` of `n`.
pub open spec fn split_suffix(id: nat, n: nat) -> Seq<u8> {
    seq![45u8] + decimal5(id) + seq![45u8, 111, 102, 45] + decimal5(n) + gguf_ext()
}

/// The name of split `id` of `n` for base name `prefix`:
/// `<prefix>-<id>-of-<n>.gguf`, both numbers with at least five digits.
pub open spec fn split_name(prefix: Seq<u8>, id: nat, n: nat) -> Seq<u8> {
    prefix + split_suffix(id, n)
}

/// Decimal digits are the ASCII bytes `0` to `9`.
proof fn lemma_decimal_digits(x: nat)
    ensures
        forall|i: int| 0 <= i < decimal(x).len() ==> 48 <= #[trigger] decimal(x)[i] < 58,
        forall|i: int| 0 <= i < decimal5(x).len() ==> 48 <= #[trigger] decimal5(x)[i] < 58,
    decreases x,
{
    if x >= 10 {
        lemma_decimal_digits(x / 10);
        let d = decimal(x / 10);
        assert(decimal(x) == d.push((48 + x % 10) as u8));
        assert forall|i: int| 0 <= i < decimal(x).len() implies 48 <= #[trigger] decimal(x)[i] < 58 by {
            if i < d.len() {
                assert(decimal(x)[i] == d[i]);
            }
        }
    }
    lemma_decimal_len(x);
    assert forall|i: int| 0 <= i < decimal5(x).len() implies 48 <= #[trigger] decimal5(x)[i] < 58 by {
        if decimal(x).len() < 5 {
            let z = (5 - decimal(x).len()) as nat;
            if i >= z {
                assert(decimal5(x)[i] == decimal(x)[i - z]);
            }
        } else {
            assert(decimal5(x)[i] == decimal(x)[i]);
        }
    }
}

/// The number that the ASCII decimal digits `s` denote, most significant
/// first.
pub open spec fn digits_value(s: Seq<u8>) -> int
    decreases s.len(),
{
    if s.len() == 0 {
        0
    } else {
        digits_value(s.drop_last()) * 10 + (s.last() - 48)
    }
}

/// Leading `0` digits do not change the number.
proof fn lemma_zero_prefix_value(k: nat, d: Seq<u8>)
    ensures
        digits_value(Seq::new(k, |_i: int| 48u8) + d) == digits_value(d),
    decreases d.len(), k,
{
    let z = Seq::new(k, |_i: int| 48u8);
    if d.len() == 0 {
        assert(z + d =~= z);
        if k > 0 {
            assert(z.drop_last() =~= Seq::new((k - 1) as nat, |_i: int| 48u8));
            lemma_zero_prefix_value((k - 1) as nat, d);
            assert(Seq::new((k - 1) as nat, |_i: int| 48u8) + d =~= Seq::new((k - 1) as nat, |_i: int| 48u8));
        }
    } else {
        assert((z + d).drop_last() =~= z + d.drop_last());
        lemma_zero_prefix_value(k, d.drop_last());
    }
}

/// The decimal digits of `x` are ASCII digits that denote `x`, with no
/// leading `0` unless `x` is 0.
pub proof fn lemma_decimal_denotes(x: nat)
    ensures
        decimal(x).len() >= 1,
        forall|i: int| 0 <= i < decimal(x).len() ==> 48 <= #[trigger] decimal(x)[i] < 58,
        digits_value(decimal(x)) == x,
        x > 0 ==> decimal(x)[0] != 48,
    decreases x,
{
    lemma_decimal_digits(x);
    lemma_decimal_len(x);
    if x >= 10 {
        lemma_decimal_denotes(x / 10);
        let d = decimal(x / 10);
        let c = (48 + x % 10) as u8;
        assert(x % 10 < 10);
        assert(c == 48 + x % 10);
        assert(decimal(x) == d.push(c));
        assert(decimal(x).drop_last() =~= d);
        assert(decimal(x).last() == c);
        assert(decimal(x)[0] == d[0]);
        assert(digits_value(decimal(x)) == digits_value(d) * 10 + (c - 48));
        assert((x / 10) * 10 + x % 10 == x);
    } else {
        let c = (48 + x) as u8;
        assert(c == 48 + x);
        assert(seq![c].drop_last() =~= Seq::<u8>::empty());
        assert(digits_value(seq![c]) == digits_value(Seq::<u8>::empty()) * 10 + (c - 48));
    }
}

/// The five-digit field of a split name holds ASCII digits that denote the
/// number: exactly five of them, zero-padded, for numbers below 100000, and
/// otherwise the plain decimal digits, with no leading `0`.
pub proof fn lemma_decimal5_field(x: nat)
    ensures
        forall|i: int| 0 <= i < decimal5(x).len() ==> 48 <= #[trigger] decimal5(x)[i] < 58,
        digits_value(decimal5(x)) == x,
        x < 100000 ==> decimal5(x).len() == 5,
        x >= 100000 ==> decimal5(x).len() > 5 && decimal5(x)[0] != 48,
{
    lemma_decimal_denotes(x);
    lemma_decimal_digits(x);
    lemma_decimal_len(x);
    if decimal(x).len() < 5 {
        let k = (5 - decimal(x).len()) as nat;
        lemma_zero_prefix_value(k, decimal(x));
    }
}

/// A split file name is the base name, `-`, the split number's field,
/// `-of-`, the count's field and `.gguf`.
pub proof fn lemma_split_name_layout(p: Seq<u8>, id: nat, n: nat)
    ensures
        split_name(p, id, n) == p + seq![45u8] + decimal5(id) + seq![45u8, 111, 102, 45] + decimal5(n)
            + seq![46u8, 103, 103, 117, 102],
{
    assert(split_name(p, id, n) =~= p + seq![45u8] + decimal5(id) + seq![45u8, 111, 102, 45] + decimal5(n)
        + seq![46u8, 103, 103, 117, 102]);
}

/// Bytes without a `-` after `w` do not move the dashes counted from the end.
proof fn lemma_nth_dash_nodash_tail(w: Seq<u8>, t: Seq<u8>, n: nat)
    requires
        n >= 1,
        forall|i: int| 0 <= i < t.len() ==> #[trigger] t[i] != 45,
    ensures
        nth_dash_from_end(w + t, n) == nth_dash_from_end(w, n),
    decreases t.len(),
{
    if t.len() > 0 {
        assert((w + t).drop_last() =~= w + t.drop_last());
        assert((w + t).last() == t[t.len() - 1]);
        lemma_nth_dash_nodash_tail(w, t.drop_last(), n);
    } else {
        assert(w + t =~= w);
    }
}

/// The base name of a split file named from base name `p` is `p` again.
pub proof fn lemma_split_name_prefix(p: Seq<u8>, id: nat, n: nat)
    ensures
        split_prefix_bytes(split_name(p, id, n)) == p,
{
    lemma_decimal_digits(id);
    lemma_decimal_digits(n);
    let d1 = decimal5(id);
    let d2 = decimal5(n);
    let name = split_name(p, id, n);
    let core = seq![45u8] + d1 + seq![45u8, 111, 102, 45] + d2;
    assert(name =~= (p + core) + gguf_ext());
    assert(name.subrange(name.len() - 5, name.len() as int) =~= gguf_ext());
    assert(strip_ext(name) =~= p + core);
    let y = p.push(45);
    let x = (y + d1).push(45) + seq![111u8, 102];
    assert(p + core =~= x.push(45) + d2);
    assert forall|i: int| 0 <= i < d1.len() implies #[trigger] d1[i] != 45 by {}
    assert forall|i: int| 0 <= i < d2.len() implies #[trigger] d2[i] != 45 by {}
    lemma_nth_dash_nodash_tail(x.push(45), d2, 3);
    assert(x.push(45).drop_last() =~= x);
    assert(nth_dash_from_end(x.push(45), 3) == nth_dash_from_end(x, 2));
    let ab = seq![111u8, 102];
    assert forall|i: int| 0 <= i < ab.len() implies #[trigger] ab[i] != 45 by {}
    lemma_nth_dash_nodash_tail((y + d1).push(45), ab, 2);
    assert((y + d1).push(45).drop_last() =~= y + d1);
    assert(nth_dash_from_end((y + d1).push(45), 2) == nth_dash_from_end(y + d1, 1));
    lemma_nth_dash_nodash_tail(y, d1, 1);
    assert(y.drop_last() =~= p);
    assert(nth_dash_from_end(y, 1) == Some(p.len() as int));
    assert(name.take(p.len() as int) =~= p);
}

/// The name of split `id` of `n` for base name `prefix`.
fn split_file_name(prefix: &str, id: usize, n: usize) -> (r: String)
    ensures
        encode_utf8(r@) == split_name(encode_utf8(prefix@), id as nat, n as nat),
{
    let mut buf: Vec<u8> = Vec::new();
    push_all(&mut buf, prefix.as_bytes());
    let ghost head = buf@;
    buf.push(45);
    push_decimal5(&mut buf, id);
    buf.push(45);
    buf.push(111);
    buf.push(102);
    buf.push(45);
    push_decimal5(&mut buf, n);
    buf.push(46);
    buf.push(103);
    buf.push(103);
    buf.push(117);
    buf.push(102);
    proof {
        let tail = split_suffix(id as nat, n as nat);
        assert(buf@ =~= head + tail);
        assert forall|i: int| 0 <= i < tail.len() implies #[trigger] tail[i] < 128 by {
            let d1 = decimal5(id as nat);
            let d2 = decimal5(n as nat);
            if i == 0 {
            } else if i < 1 + d1.len() {
                assert(tail[i] == d1[i - 1]);
            } else if i < 5 + d1.len() {
            } else if i < 5 + d1.len() + d2.len() {
                assert(tail[i] == d2[i - 5 - d1.len()]);
            } else {
            }
        }
        lemma_ascii_valid(tail);
        encode_utf8_valid_utf8(prefix@);
        valid_utf8_concat(head, tail);
    }
    let s = string_from_utf8(buf);
    s.unwrap()
}

/// The file names of all `n_splits` splits of the model whose first file is
/// `fname`: `<base>-00001-of-<n>.gguf` up to `<base>-<n>-of-<n>.gguf`,
/// where `<base>` is the base name of `fname`.
pub fn get_splits_list(fname: &str, n_splits: usize) -> (r: Vec<String>)
    ensures
        r.len() == n_splits,
        forall|i: int| 0 <= i < n_splits ==> encode_utf8(#[trigger] r@[i]@) == split_name(
            split_prefix_bytes(encode_utf8(fname@)),
            (i + 1) as nat,
            n_splits as nat,
        ),
{
    let mut splits: Vec<String> = Vec::new();
    let prefix = llama_split_prefix(fname);
    let mut i: usize = 0;
    while i < n_splits
        invariant
            i <= n_splits,
            splits.len() == i,
            encode_utf8(prefix@) == split_prefix_bytes(encode_utf8(fname@)),
            forall|j: int| 0 <= j < i ==> encode_utf8(#[trigger] splits@[j]@) == split_name(
                split_prefix_bytes(encode_utf8(fname@)),
                (j + 1) as nat,
                n_splits as nat,
            ),
        decreases n_splits - i,
    {
        let name = split_file_name(prefix, i + 1, n_splits);
        splits.push(name);
        i = i + 1;
    }
    splits
}

// ---------------------------------------------------------------------
// tensor shapes
// ---------------------------------------------------------------------

/// The element counts `ne` (innermost first) as row-major dimensions
/// (outermost first).
pub open spec fn reversed_dims(ne: Seq<i64>) -> Seq<usize> {
    Seq::new(ne.len(), |i: int| ne[ne.len() - 1 - i] as usize)
}

/// `s` without its leading 1s, keeping at least one dimension.
pub open spec fn trim_leading_ones(s: Seq<usize>) -> Seq<usize>
    decreases s.len(),
{
    if s.len() > 1 && s[0] == 1 {
        trim_leading_ones(s.drop_first())
    } else {
        s
    }
}

/// Dropping leading 1s does not change the product of the dimensions.
pub proof fn lemma_trim_prod(s: Seq<usize>)
    ensures
        prod(trim_leading_ones(s)) == prod(s),
    decreases s.len(),
{
    if s.len() > 1 && s[0] == 1 {
        lemma_prod_split(s, 1);
        assert(s.take(1) =~= seq![1usize]);
        lemma_prod_single(1);
        assert(s.skip(1) =~= s.drop_first());
        lemma_trim_prod(s.drop_first());
    }
}

/// The row-major shape of a GGUF tensor with element counts `ne`: the axes
/// reversed, so that the last dimension varies fastest, and the leading
/// dimensions of size 1 dropped, down to one dimension. The number of
/// elements stays the product of `ne`.
pub fn ggml_shape_to_row_major(ne: &[i64; 4]) -> (shape: Vec<usize>)
    ensures
        shape@ == trim_leading_ones(reversed_dims(ne@)),
        1 <= shape.len() <= 4,
        shape.len() == 1 || shape@[0] != 1,
        prod(shape@) == (ne[0] as usize) * (ne[1] as usize) * (ne[2] as usize) * (ne[3] as usize),
        forall|k: int| 0 <= k < shape.len() ==> #[trigger] shape@[shape.len() - 1 - k] == ne[k] as usize,
        forall|k: int| shape.len() <= k < 4 ==> #[trigger] ne[k] as usize == 1,
{
    let dims: Vec<usize> = vec![ne[3] as usize, ne[2] as usize, ne[1] as usize, ne[0] as usize];
    let ghost full = reversed_dims(ne@);
    proof {
        assert(dims@ =~= full);
        assert(full.skip(0) =~= full);
    }
    let mut k: usize = 0;
    while k < 3 && dims[k] == 1
        invariant
            k <= 3,
            dims@ == full,
            full.len() == 4,
            trim_leading_ones(full) == trim_leading_ones(full.skip(k as int)),
            forall|j: int| 0 <= j < k ==> #[trigger] full[j] == 1,
        decreases 3 - k,
    {
        proof {
            assert(full.skip(k as int).drop_first() =~= full.skip(k + 1));
        }
        k = k + 1;
    }
    proof {
        if k < 3 {
            assert(full.skip(k as int)[0] != 1);
        }
        assert(trim_leading_ones(full.skip(k as int)) == full.skip(k as int));
    }
    let mut shape: Vec<usize> = Vec::new();
    let mut j: usize = k;
    while j < 4
        invariant
            k <= j <= 4,
            dims@ == full,
            full.len() == 4,
            shape@ == full.subrange(k as int, j as int),
        decreases 4 - j,
    {
        shape.push(dims[j]);
        j = j + 1;
        proof {
            assert(shape@ =~= full.subrange(k as int, j as int));
        }
    }
    proof {
        assert(shape@ =~= full.skip(k as int));
        lemma_trim_prod(full);
        let a = ne[3] as usize;
        let b = ne[2] as usize;
        let c = ne[1] as usize;
        let d = ne[0] as usize;
        assert(full =~= seq![a, b, c, d]);
        assert(seq![a, b, c, d].drop_last() =~= seq![a, b, c]);
        assert(seq![a, b, c].drop_last() =~= seq![a, b]);
        assert(seq![a, b].drop_last() =~= seq![a]);
        lemma_prod_single(a);
        assert(prod(seq![a, b]) == prod(seq![a]) * b);
        assert(prod(seq![a, b, c]) == prod(seq![a, b]) * c);
        assert(prod(seq![a, b, c, d]) == prod(seq![a, b, c]) * d);
        assert(prod(full) == ((a * b) * c) * d);
        assert(((a * b) * c) * d == (((1 * a) * b) * c) * d);
        assert((((1 * a) * b) * c) * d == d * c * b * a) by (nonlinear_arith);
    }
    shape
}

// ---------------------------------------------------------------------
// the tensor index of a split model
// ---------------------------------------------------------------------

/// Why indexing a model's files, or planning a tensor read, failed.
#[derive(Debug)]
pub enum LoaderError {
    /// The first file's `split.count` entry does not hold a `u32`.
    SplitCountNotU32,
    /// A list of split files was given whose length is not `split.count`.
    SplitListLength { expected: usize, given: usize },
    /// A tensor name occurs twice, in one file or in two.
    DuplicateTensor { name: String },
    /// The total size of the tensor data does not fit in `u64`.
    SizeOverflow,
    /// The tensor's element type is not `F32`.
    UnsupportedType { name: String, dtype: GgmlType },
    /// The file position of the tensor's data does not fit in `u64`.
    PositionOverflow { name: String },
    /// The tensor's element count does not fit in `usize`.
    TooManyElements { name: String },
}

/// The number of split files the model whose first file has metadata `kv`
/// consists of: the `u32` under `split.count`, or 1 when there is no such
/// entry.
pub open spec fn spec_split_count(kv: Seq<(String, GgufValue)>) -> Option<usize> {
    match first_key_index(kv, "split.count"@) {
        None => Some(1usize),
        Some(j) => match kv[j].1 {
            GgufValue::Uint32(n) => Some(n as usize),
            _ => None,
        },
    }
}

/// The number of split files of the model whose first file has header
/// `ctx`; single-file models carry no `split.count` entry.
pub fn split_count(ctx: &GgufCtx) -> (r: Result<usize, LoaderError>)
    ensures
        match spec_split_count(ctx.kv@) {
            Some(n) => r == Ok::<usize, LoaderError>(n),
            None => r matches Err(LoaderError::SplitCountNotU32),
        },
{
    match ctx.find_kv("split.count") {
        Some(v) => match v {
            GgufValue::Uint32(n) => Ok(*n as usize),
            _ => Err(LoaderError::SplitCountNotU32),
        },
        None => Ok(1),
    }
}

/// The files of a model of `n_splits` splits whose first file is `fname`,
/// in split order; entry 0 stands for `fname` itself. With one split (or
/// none) there is nothing further to read and the list is empty. Otherwise
/// the given list `splits` is used, or, when it is empty, the names that
/// `get_splits_list` derives from `fname`; a given list must hold exactly
/// `n_splits` names.
pub fn split_paths(fname: &str, n_splits: usize, splits: Vec<String>) -> (r: Result<Vec<String>, LoaderError>)
    ensures
        n_splits <= 1 ==> (r matches Ok(v) && v.len() == 0),
        n_splits > 1 && splits.len() == 0 ==> (r matches Ok(v) && v.len() == n_splits
            && forall|i: int| 0 <= i < n_splits ==> encode_utf8(#[trigger] v@[i]@) == split_name(
                split_prefix_bytes(encode_utf8(fname@)),
                (i + 1) as nat,
                n_splits as nat,
            )),
        n_splits > 1 && splits.len() == n_splits ==> (r matches Ok(v) && v@ == splits@),
        n_splits > 1 && splits.len() != 0 && splits.len() != n_splits ==> (r matches Err(
            LoaderError::SplitListLength { expected, given },
        ) && expected == n_splits && given == splits.len()),
{
    if n_splits <= 1 {
        return Ok(Vec::new());
    }
    let list = if splits.len() == 0 {
        get_splits_list(fname, n_splits)
    } else {
        splits
    };
    if n_splits != list.len() {
        return Err(LoaderError::SplitListLength { expected: n_splits, given: list.len() });
    }
    Ok(list)
}

/// The size in bytes of a tensor's data: its outermost byte stride times its
/// outermost element count.
pub open spec fn info_bytes(info: GgufTensorInfo) -> int {
    info.nb[3] * (info.ne[3] as u64)
}

/// The index entry of tensor `info` of split `idx`.
pub open spec fn weight_of(info: GgufTensorInfo, idx: usize) -> AcuteTensorWeight {
    AcuteTensorWeight { offset: info.offset, gguf_idx: idx, data_size: info_bytes(info) as u64 }
}

/// The names and entries of an index.
pub open spec fn entries_view(w: Seq<(String, AcuteTensorWeight)>) -> Seq<(Seq<char>, AcuteTensorWeight)> {
    w.map_values(|e: (String, AcuteTensorWeight)| (e.0@, e.1))
}

/// `name` is among the names of `w`.
pub open spec fn names_contain(w: Seq<(Seq<char>, AcuteTensorWeight)>, name: Seq<char>) -> bool {
    exists|i: int| 0 <= i < w.len() && #[trigger] w[i].0 == name
}

/// No name occurs twice in `w`.
pub open spec fn names_distinct(w: Seq<(Seq<char>, AcuteTensorWeight)>) -> bool {
    forall|i: int, j: int| 0 <= i < j < w.len() ==> #[trigger] w[i].0 != #[trigger] w[j].0
}

/// Why adding the tensors of a file to an index fails.
pub enum AddFailure {
    Duplicate(Seq<char>),
    Overflow,
}

/// Adding the tensors `infos` of split `idx`, in order, to the entries `w`
/// with data total `n`: each tensor's name must be new, and each size and
/// the running total must fit in `u64`.
pub open spec fn spec_add_infos(
    w: Seq<(Seq<char>, AcuteTensorWeight)>,
    n: int,
    infos: Seq<GgufTensorInfo>,
    idx: usize,
) -> Result<(Seq<(Seq<char>, AcuteTensorWeight)>, int), AddFailure>
    decreases infos.len(),
{
    if infos.len() == 0 {
        Ok((w, n))
    } else {
        match spec_add_infos(w, n, infos.drop_last(), idx) {
            Err(e) => Err(e),
            Ok((w2, n2)) => {
                let info = infos.last();
                if names_contain(w2, info.name@) {
                    Err(AddFailure::Duplicate(info.name@))
                } else if info_bytes(info) > u64::MAX || n2 + info_bytes(info) > u64::MAX {
                    Err(AddFailure::Overflow)
                } else {
                    Ok((w2.push((info.name@, weight_of(info, idx))), n2 + info_bytes(info)))
                }
            },
        }
    }
}

/// Once adding a prefix of the tensors fails, adding all of them fails the
/// same way.
proof fn lemma_add_failure_persists(
    w: Seq<(Seq<char>, AcuteTensorWeight)>,
    n: int,
    infos: Seq<GgufTensorInfo>,
    idx: usize,
    k: int,
)
    requires
        0 <= k <= infos.len(),
        spec_add_infos(w, n, infos.take(k), idx) is Err,
    ensures
        spec_add_infos(w, n, infos, idx) == spec_add_infos(w, n, infos.take(k), idx),
    decreases infos.len() - k,
{
    if k == infos.len() {
        assert(infos.take(k) =~= infos);
    } else {
        assert(infos.drop_last().take(k) =~= infos.take(k));
        lemma_add_failure_persists(w, n, infos.drop_last(), idx, k);
    }
}

/// The total data size of the tensors `infos`.
pub open spec fn total_bytes(infos: Seq<GgufTensorInfo>) -> int
    decreases infos.len(),
{
    if infos.len() == 0 {
        0
    } else {
        total_bytes(infos.drop_last()) + info_bytes(infos.last())
    }
}

/// A successful add appends one entry per tensor, in order, each with the
/// tensor's name, offset, split number and size, and adds the tensors'
/// sizes to the total.
pub proof fn lemma_add_infos_entries(
    w: Seq<(Seq<char>, AcuteTensorWeight)>,
    n: int,
    infos: Seq<GgufTensorInfo>,
    idx: usize,
)
    requires
        spec_add_infos(w, n, infos, idx) is Ok,
    ensures
        spec_add_infos(w, n, infos, idx) matches Ok((w2, n2)) && {
            &&& w2.len() == w.len() + infos.len()
            &&& w2.take(w.len() as int) == w
            &&& forall|i: int| 0 <= i < infos.len() ==> #[trigger] w2[w.len() + i] == (infos[i].name@, weight_of(infos[i], idx))
            &&& n2 == n + total_bytes(infos)
        },
    decreases infos.len(),
{
    if infos.len() > 0 {
        lemma_add_infos_entries(w, n, infos.drop_last(), idx);
        let (w1, n1) = spec_add_infos(w, n, infos.drop_last(), idx)->Ok_0;
        let info = infos.last();
        let w2 = w1.push((info.name@, weight_of(info, idx)));
        assert(w2.take(w.len() as int) =~= w1.take(w.len() as int));
        assert forall|i: int| 0 <= i < infos.len() implies #[trigger] w2[w.len() + i] == (infos[i].name@, weight_of(infos[i], idx)) by {
            if i < infos.len() - 1 {
                assert(infos.drop_last()[i] == infos[i]);
                assert(w2[w.len() + i] == w1[w.len() + i]);
            }
        }
    } else {
        assert(w.take(w.len() as int) =~= w);
    }
}

/// The bytes a tensor's data takes according to its element type and
/// element counts: the bytes per block, times the blocks along the first
/// axis, times the other three element counts.
pub open spec fn dims_bytes(info: GgufTensorInfo) -> int {
    info.dtype.spec_type_size() * ((info.ne[0] as int) / (info.dtype.spec_block_size() as int)) * info.ne[1]
        * info.ne[2] * info.ne[3]
}

/// The sum of `dims_bytes` over `infos`.
pub open spec fn dims_bytes_total(infos: Seq<GgufTensorInfo>) -> int
    decreases infos.len(),
{
    if infos.len() == 0 {
        0
    } else {
        dims_bytes_total(infos.drop_last()) + dims_bytes(infos.last())
    }
}

proof fn lemma_total_is_dims_total(infos: Seq<GgufTensorInfo>)
    requires
        forall|i: int| 0 <= i < infos.len() ==> info_bytes(#[trigger] infos[i]) == dims_bytes(infos[i]),
    ensures
        total_bytes(infos) == dims_bytes_total(infos),
    decreases infos.len(),
{
    if infos.len() > 0 {
        let d = infos.drop_last();
        assert forall|i: int| 0 <= i < d.len() implies info_bytes(#[trigger] d[i]) == dims_bytes(d[i]) by {
            assert(d[i] == infos[i]);
        }
        lemma_total_is_dims_total(d);
        assert(info_bytes(infos.last()) == dims_bytes(infos[infos.len() - 1]));
    }
}

/// Indexing the tensors of a parsed GGUF header records for each tensor, in
/// order, its name, its offset, its split number and the size its element
/// type and counts give it; the total grows by the sum of those sizes.
pub proof fn lemma_index_sizes(
    b: Seq<u8>,
    pos: int,
    m: GgufCtxModel,
    ctx: GgufCtx,
    w: Seq<(Seq<char>, AcuteTensorWeight)>,
    n: int,
    idx: usize,
)
    requires
        spec_gguf_parse(b, pos) == Ok::<GgufCtxModel, GgufErrorModel>(m),
        ctx_matches(ctx, m),
        spec_add_infos(w, n, ctx.tensor_infos@, idx) is Ok,
    ensures
        spec_add_infos(w, n, ctx.tensor_infos@, idx) matches Ok((w2, n2)) && {
            let infos = ctx.tensor_infos@;
            &&& w2.len() == w.len() + infos.len()
            &&& forall|i: int| 0 <= i < infos.len() ==> {
                &&& 0 <= dims_bytes(#[trigger] infos[i]) <= u64::MAX
                &&& w2[w.len() + i] == (infos[i].name@, AcuteTensorWeight {
                    offset: infos[i].offset,
                    gguf_idx: idx,
                    data_size: dims_bytes(infos[i]) as u64,
                })
            }
            &&& n2 == n + dims_bytes_total(infos)
        },
{
    let infos = ctx.tensor_infos@;
    lemma_gguf_tensor_strides(b, pos);
    lemma_gguf_header_laws(b, pos);
    lemma_add_infos_entries(w, n, infos, idx);
    assert forall|i: int| 0 <= i < infos.len() implies info_bytes(#[trigger] infos[i]) == dims_bytes(infos[i])
        && 0 <= dims_bytes(infos[i]) <= u64::MAX by {
        let ti = m.tensor_infos[i];
        assert(infos[i].model() == ti);
        assert(strides_follow_dims(ti));
        assert(ti.offset + tensor_nbytes(ti) <= m.data_size);
        assert(infos[i].ne@ == ti.ne);
        assert(infos[i].nb@ == ti.nb);
        assert(info_bytes(infos[i]) == tensor_nbytes(ti));
        vstd::arithmetic::mul::lemma_mul_nonnegative(ti.nb[3] as int, ti.ne[3] as int);
    }
    lemma_total_is_dims_total(infos);
}

/// The parsed files of a model and an index from each tensor name to where
/// its data lives, with the total size of all tensor data.
pub struct ModelIndex {
    /// Each file's path and parsed header, in split order.
    pub ggufs: Vec<(String, GgufCtx)>,
    /// Each tensor's name and location, in the order the files list them.
    pub weights: Vec<(String, AcuteTensorWeight)>,
    /// Total size in bytes of all tensor data.
    pub n_bytes: u64,
}

impl ModelIndex {
    /// The index is consistent: no tensor name occurs twice.
    pub open spec fn wf(&self) -> bool {
        names_distinct(entries_view(self.weights@))
    }

    /// An index of no files.
    pub fn new() -> (r: ModelIndex)
        ensures
            r.wf(),
            r.ggufs@.len() == 0,
            r.weights@.len() == 0,
            r.n_bytes == 0,
    {
        ModelIndex { ggufs: Vec::new(), weights: Vec::new(), n_bytes: 0 }
    }

    /// Whether the index already has a tensor called `name`.
    fn has_tensor(&self, extra: &Vec<(String, AcuteTensorWeight)>, name: &String) -> (b: bool)
        ensures
            b == names_contain(entries_view(self.weights@) + entries_view(extra@), name@),
    {
        let ghost all = entries_view(self.weights@) + entries_view(extra@);
        let mut i: usize = 0;
        while i < self.weights.len()
            invariant
                i <= self.weights@.len(),
                all == entries_view(self.weights@) + entries_view(extra@),
                forall|k: int| 0 <= k < i ==> all[k].0 != name@,
            decreases self.weights@.len() - i,
        {
            if self.weights[i].0 == *name {
                proof {
                    assert(all[i as int].0 == name@);
                }
                return true;
            }
            i = i + 1;
        }
        let mut j: usize = 0;
        while j < extra.len()
            invariant
                j <= extra@.len(),
                all == entries_view(self.weights@) + entries_view(extra@),
                forall|k: int| 0 <= k < self.weights@.len() + j ==> all[k].0 != name@,
            decreases extra@.len() - j,
        {
            if extra[j].0 == *name {
                proof {
                    assert(all[self.weights@.len() + j].0 == name@);
                }
                return true;
            }
            j = j + 1;
        }
        false
    }

    /// Adds file `ctx`, split number `idx` read from `path`: each of its
    /// tensors, in order, is indexed by name with its offset, split number
    /// and data size, and its data size is added to the total. A tensor
    /// whose name is already indexed fails the add, as does a total that
    /// does not fit in `u64`; a failed add leaves the index unchanged.
    pub fn add_ctx(&mut self, idx: usize, ctx: GgufCtx, path: String) -> (r: Result<(), LoaderError>)
        requires
            old(self).wf(),
        ensures
            final(self).wf(),
            match spec_add_infos(entries_view(old(self).weights@), old(self).n_bytes as int, ctx.tensor_infos@, idx) {
                Ok((w, n)) => {
                    &&& r is Ok
                    &&& entries_view(final(self).weights@) == w
                    &&& final(self).n_bytes == n
                    &&& final(self).ggufs@ == old(self).ggufs@.push((path, ctx))
                },
                Err(AddFailure::Duplicate(name)) => {
                    &&& r matches Err(LoaderError::DuplicateTensor { name: e }) && e@ == name
                    &&& *final(self) == *old(self)
                },
                Err(AddFailure::Overflow) => {
                    &&& r matches Err(LoaderError::SizeOverflow)
                    &&& *final(self) == *old(self)
                },
            },
    {
        let ghost base = entries_view(self.weights@);
        let mut extra: Vec<(String, AcuteTensorWeight)> = Vec::new();
        let mut total: u64 = self.n_bytes;
        let mut i: usize = 0;
        while i < ctx.tensor_infos.len()
            invariant
                i <= ctx.tensor_infos@.len(),
                base == entries_view(self.weights@),
                names_distinct(base),
                spec_add_infos(base, self.n_bytes as int, ctx.tensor_infos@.take(i as int), idx)
                    == Ok::<(Seq<(Seq<char>, AcuteTensorWeight)>, int), AddFailure>((base + entries_view(extra@), total as int)),
                names_distinct(base + entries_view(extra@)),
            decreases ctx.tensor_infos@.len() - i,
        {
            let info = &ctx.tensor_infos[i];
            let ghost prefix = ctx.tensor_infos@.take(i as int);
            proof {
                assert(ctx.tensor_infos@.take(i + 1).drop_last() =~= prefix);
                assert(ctx.tensor_infos@.take(i + 1).last() == *info);
            }
            if self.has_tensor(&extra, &info.name) {
                proof {
                    lemma_add_failure_persists(base, old(self).n_bytes as int, ctx.tensor_infos@, idx, i + 1);
                }
                return Err(LoaderError::DuplicateTensor { name: info.name.clone() });
            }
            let size = match info.nb[3].checked_mul(info.ne[3] as u64) {
                Some(x) => x,
                None => {
                    proof {
                        lemma_add_failure_persists(base, old(self).n_bytes as int, ctx.tensor_infos@, idx, i + 1);
                    }
                    return Err(LoaderError::SizeOverflow);
                },
            };
            total = match total.checked_add(size) {
                Some(x) => x,
                None => {
                    proof {
                        lemma_add_failure_persists(base, old(self).n_bytes as int, ctx.tensor_infos@, idx, i + 1);
                    }
                    return Err(LoaderError::SizeOverflow);
                },
            };
            let ghost old_all = base + entries_view(extra@);
            extra.push((info.name.clone(), AcuteTensorWeight { offset: info.offset, gguf_idx: idx, data_size: size }));
            i = i + 1;
            proof {
                assert(entries_view(extra@) =~= entries_view(extra@.drop_last()).push((info.name@, weight_of(*info, idx))));
                assert(base + entries_view(extra@) =~= old_all.push((info.name@, weight_of(*info, idx))));
                assert forall|a: int, b: int| 0 <= a < b < old_all.len() + 1 implies
                    #[trigger] (base + entries_view(extra@))[a].0 != #[trigger] (base + entries_view(extra@))[b].0 by {
                    if b == old_all.len() {
                        assert((base + entries_view(extra@))[a] == old_all[a]);
                    } else {
                        assert((base + entries_view(extra@))[a] == old_all[a]);
                        assert((base + entries_view(extra@))[b] == old_all[b]);
                    }
                }
            }
        }
        proof {
            assert(ctx.tensor_infos@.take(i as int) =~= ctx.tensor_infos@);
        }
        let ghost start = self.weights@;
        let ghost added = extra@;
        self.weights.append(&mut extra);
        proof {
            assert(entries_view(start + added) =~= base + entries_view(added));
        }
        self.n_bytes = total;
        self.ggufs.push((path, ctx));
        Ok(())
    }
}

// ---------------------------------------------------------------------
// reading one tensor
// ---------------------------------------------------------------------

/// Where and how a tensor's data is read: the file position of its first
/// byte, its row-major shape and its element count.
#[derive(Debug)]
pub struct TensorPlan {
    pub position: u64,
    pub shape: Vec<usize>,
    pub n_elements: usize,
}

/// The product of `shape`, failing when a running product of its leading
/// dimensions leaves `usize`.
fn element_count(shape: &Vec<usize>) -> (r: Option<usize>)
    ensures
        r is Some <==> prefixes_fit(shape@),
        r matches Some(n) ==> n == prod(shape@),
{
    let mut acc: usize = 1;
    let mut k: usize = 0;
    proof {
        assert(shape@.take(0) =~= Seq::<usize>::empty());
    }
    while k < shape.len()
        invariant
            k <= shape@.len(),
            acc == prod(shape@.take(k as int)),
            forall|j: int| 0 <= j <= k ==> #[trigger] prod(shape@.take(j)) <= usize::MAX,
        decreases shape@.len() - k,
    {
        proof {
            assert(shape@.take(k + 1).drop_last() =~= shape@.take(k as int));
        }
        match acc.checked_mul(shape[k]) {
            Some(x) => {
                acc = x;
            },
            None => {
                proof {
                    assert(prod(shape@.take(k + 1)) == acc * shape@[k as int]);
                    assert(!(prod(shape@.take(k + 1)) <= usize::MAX));
                }
                return None;
            },
        }
        k = k + 1;
    }
    proof {
        assert(shape@.take(k as int) =~= shape@);
    }
    Some(acc)
}

/// How to read the data of tensor `info` of the file with header `ctx`:
/// only `F32` tensors are read; the data starts at the file's data section
/// plus the tensor's offset, and is laid out in the row-major shape of the
/// tensor's element counts.
pub fn tensor_read_plan(ctx: &GgufCtx, info: &GgufTensorInfo) -> (r: Result<TensorPlan, LoaderError>)
    ensures
        info.dtype != GgmlType::F32 ==> (r matches Err(LoaderError::UnsupportedType { name, dtype })
            && name@ == info.name@ && dtype == info.dtype),
        info.dtype == GgmlType::F32 && ctx.data_offset + info.offset > u64::MAX ==> (r matches Err(
            LoaderError::PositionOverflow { name },
        ) && name@ == info.name@),
        info.dtype == GgmlType::F32 && ctx.data_offset + info.offset <= u64::MAX
            && !prefixes_fit(trim_leading_ones(reversed_dims(info.ne@))) ==> (r matches Err(
            LoaderError::TooManyElements { name },
        ) && name@ == info.name@),
        info.dtype == GgmlType::F32 && ctx.data_offset + info.offset <= u64::MAX
            && prefixes_fit(trim_leading_ones(reversed_dims(info.ne@))) ==> (r matches Ok(p)
            && p.position == ctx.data_offset + info.offset
            && p.shape@ == trim_leading_ones(reversed_dims(info.ne@))
            && p.n_elements == prod(p.shape@)),
{
    if info.dtype != GgmlType::F32 {
        return Err(LoaderError::UnsupportedType { name: info.name.clone(), dtype: info.dtype });
    }
    let position = match ctx.data_offset.checked_add(info.offset) {
        Some(p) => p,
        None => {
            return Err(LoaderError::PositionOverflow { name: info.name.clone() });
        },
    };
    let shape = ggml_shape_to_row_major(&info.ne);
    let n_elements = match element_count(&shape) {
        Some(n) => n,
        None => {
            return Err(LoaderError::TooManyElements { name: info.name.clone() });
        },
    };
    Ok(TensorPlan { position, shape, n_elements })
}

} // verus!
