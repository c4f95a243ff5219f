//! Tensors: a flat buffer of elements viewed through a shape and strides.
//! A tensor's strides may describe a non-contiguous view of its buffer (after
//! a transpose or permute); `make_contiguous` lays the data out densely again.

use core::ops::{Add, Div, Mul, Sub};
use vstd::prelude::*;
use crate::layout::{
    digits, dims_fit, distinct_in_range, is_contiguous_layout, contig_scan, lemma_contig_offset,
    lemma_digits, lemma_prod_nonneg, lemma_prod_permute, lemma_rank, permuted, position, prod,
    row_major, strides_in_bounds, lemma_zero_index, prefixes_fit, suffixes_fit, lemma_prod_single, lemma_prod_concat, rank,
    is_index, lemma_prod_positive, lemma_row_major_contiguous, offset, permuted_index,
    lemma_index_permute, lemma_offset_permute,
};
use crate::acute::{AcuteArena, ArenaError, region_start};
use vstd::layout::size_of;
use crate::small_index::{advance, as_ints, index_filled, index_items, strided_offset};

verus! {

/// Element types a tensor can hold: copyable values with a default and the
/// four arithmetic operators.
pub trait TensorElement: Copy + Default + Add<Output = Self> + Sub<Output = Self> + Mul<Output = Self> + Div<Output = Self> {
    /// The additive identity: the type's default value.
    fn zero() -> (r: Self)
        ensures
            is_default::<Self>(r),
    ;
}

/// `d` is a value that `Default::default` gives for `T`.
pub open spec fn is_default<T: Default>(d: T) -> bool {
    call_ensures(T::default, (), d)
}

impl<T: Copy + Default + Add<Output = T> + Sub<Output = T> + Mul<Output = T> + Div<Output = T>> TensorElement for T {
    fn zero() -> (r: T) {
        T::default()
    }
}

/// A tensor: `data` read through `shape` and `stride`.
#[derive(Debug)]
pub struct Tensor<T: TensorElement> {
    data: Vec<T>,
    shape: Vec<usize>,
    stride: Vec<usize>,
}

/// The content of a tensor: its buffer, its shape and its strides.
pub struct TensorModel<T> {
    pub data: Seq<T>,
    pub shape: Seq<usize>,
    pub stride: Seq<usize>,
}

impl<T: TensorElement> View for Tensor<T> {
    type V = TensorModel<T>;

    closed spec fn view(&self) -> TensorModel<T> {
        TensorModel { data: self.data@, shape: self.shape@, stride: self.stride@ }
    }
}

/// `shape` is a valid shape for `len` elements: at least one axis, a rank
/// that a `Vec<usize>` can hold, products that fit in `usize`, and a total
/// element count of exactly `len`.
pub open spec fn shape_ok(shape: Seq<usize>, len: int) -> bool {
    &&& shape.len() >= 1
    &&& shape.len() * 8 <= isize::MAX
    &&& dims_fit(shape)
    &&& prod(shape) == len
}

/// The element at logical row-major position `p` of a tensor.
pub open spec fn logical<T>(m: TensorModel<T>, p: int) -> T {
    m.data[position(p, m.shape, m.stride)]
}

impl<T: TensorElement> Tensor<T> {
    /// The buffer holds exactly as many elements as the shape has positions,
    /// and there is one stride per axis.
    pub open spec fn wf(&self) -> bool {
        &&& self@.shape.len() >= 1
        &&& self@.shape.len() * 8 <= isize::MAX
        &&& prod(self@.shape) == self@.data.len()
        &&& self@.stride.len() == self@.shape.len()
    }

    /// Builds a tensor from a flat buffer. Without strides (or with an empty
    /// stride list) the strides are the row-major ones of `shape`.
    pub fn new(data: Vec<T>, shape: Box<[usize]>, stride: Option<Box<[usize]>>) -> (t: Tensor<T>)
        requires
            shape@.len() >= 1,
            shape@.len() * 8 <= isize::MAX,
            prefixes_fit(shape@),
            prod(shape@) == data@.len(),
            match stride {
                Some(s) => s@.len() == 0 && suffixes_fit(shape@) || s@.len() == shape@.len(),
                None => suffixes_fit(shape@),
            },
        ensures
            t.wf(),
            t@.data == data@,
            t@.shape == shape@,
            t@.stride == match stride {
                Some(s) => if s@.len() == 0 { row_major(shape@) } else { s@ },
                None => row_major(shape@),
            },
    {
        let shape = shape.into_vec();
        let stride = match stride {
            None => Vec::new(),
            Some(s) => s.into_vec(),
        };
        let mut new = Tensor { data, shape, stride };
        if new.stride.len() == 0 {
            new.update_stride();
        }
        new
    }

    /// Recomputes the strides as the row-major strides of the shape.
    fn update_stride(&mut self)
        requires
            old(self)@.shape.len() >= 1,
            suffixes_fit(old(self)@.shape),
        ensures
            final(self)@.data == old(self)@.data,
            final(self)@.shape == old(self)@.shape,
            final(self)@.stride == row_major(old(self)@.shape),
    {
        let n = self.shape.len();
        let mut stride: Vec<usize> = Vec::new();
        let mut k: usize = 0;
        while k < n
            invariant
                k <= n,
                n == self.shape@.len(),
                stride@.len() == k,
                forall|j: int| 0 <= j < k ==> #[trigger] stride@[j] == 1,
            decreases n - k,
        {
            stride.push(1);
            k = k + 1;
        }
        let ghost s = self.shape@;
        let mut i = n - 1;
        while i > 0
            invariant
                0 <= i < n,
                n == s.len(),
                s == self.shape@,
                suffixes_fit(s),
                stride@.len() == n,
                forall|j: int| i <= j < n ==> #[trigger] stride@[j] == prod(s.skip(j + 1)),
            decreases i,
        {
            i = i - 1;
            proof {
                crate::layout::lemma_prod_concat(seq![s[i + 1]], s.skip(i + 2));
                assert(seq![s[i + 1]] + s.skip(i + 2) =~= s.skip(i + 1));
                crate::layout::lemma_prod_single(s[i + 1]);
                assert(prod(s.skip(i + 1)) <= usize::MAX);
                vstd::arithmetic::mul::lemma_mul_is_commutative(s[i + 1] as int, prod(s.skip(i + 2)));
            }
            let v = stride[i + 1] * self.shape[i + 1];
            stride.set(i, v);
        }
        proof {
            assert(s.skip(n as int) =~= Seq::<usize>::empty());
            assert(stride@ =~= row_major(s));
        }
        self.stride = stride;
    }

    /// Number of elements in the buffer.
    pub fn len(&self) -> (n: usize)
        ensures
            n == self@.data.len(),
    {
        self.data.len()
    }

    /// Whether the buffer is empty.
    pub fn is_empty(&self) -> (b: bool)
        ensures
            b == (self@.data.len() == 0),
    {
        self.data.len() == 0
    }

    /// The buffer, in memory order.
    pub fn as_slice(&self) -> (s: &[T])
        ensures
            s@ == self@.data,
    {
        self.data.as_slice()
    }

    /// The buffer, in memory order, for writing; shape and strides stay.
    pub fn as_mut_slice(&mut self) -> (s: &mut [T])
        ensures
            s@ == old(self)@.data,
            final(self)@.data == final(s)@,
            final(self)@.shape == old(self)@.shape,
            final(self)@.stride == old(self)@.stride,
    {
        self.data.as_mut_slice()
    }

    /// The extent of each axis.
    pub fn shape(&self) -> (s: &[usize])
        ensures
            s@ == self@.shape,
    {
        self.shape.as_slice()
    }

    /// The step in the buffer for each axis.
    pub fn stride(&self) -> (s: &[usize])
        ensures
            s@ == self@.stride,
    {
        self.stride.as_slice()
    }

    /// Whether the strides lay the shape out densely in row-major order;
    /// axes of extent at most 1 are not looked at.
    pub fn is_contiguous(&self) -> (b: bool)
        requires
            self.wf(),
            contig_scan(self@.shape, self@.stride, 1) is Some,
        ensures
            b == is_contiguous_layout(self@.shape, self@.stride),
    {
        let n = self.shape.len();
        let mut expected: usize = 1;
        let mut i = n;
        proof {
            assert(self@.shape.take(n as int) =~= self@.shape);
            assert(self@.stride.take(n as int) =~= self@.stride);
        }
        while i > 0
            invariant
                i <= n,
                n == self@.shape.len(),
                self@.stride.len() == n,
                contig_scan(self@.shape, self@.stride, 1) is Some,
                contig_scan(self@.shape, self@.stride, 1) == contig_scan(self@.shape.take(i as int), self@.stride.take(i as int), expected as int),
            decreases i,
        {
            proof {
                assert(self@.shape.take(i as int).drop_last() =~= self@.shape.take(i - 1));
                assert(self@.stride.take(i as int).drop_last() =~= self@.stride.take(i - 1));
                assert(self@.shape.take(i as int).last() == self@.shape[i - 1]);
                assert(self@.stride.take(i as int).last() == self@.stride[i - 1]);
            }
            i = i - 1;
            if self.shape[i] <= 1 {
                continue;
            }
            if self.stride[i] != expected {
                return false;
            }
            expected = expected * self.shape[i];
        }
        true
    }
}

/// The product of the dimensions, when every leading product fits.
pub(crate) fn product(s: &[usize]) -> (r: usize)
    requires
        prefixes_fit(s@),
    ensures
        r == prod(s@),
{
    let mut acc: usize = 1;
    let mut k: usize = 0;
    while k < s.len()
        invariant
            k <= s@.len(),
            forall|j: int| 0 <= j <= s@.len() ==> #[trigger] prod(s@.take(j)) <= usize::MAX,
            acc == prod(s@.take(k as int)),
        decreases s@.len() - k,
    {
        proof {
            assert(s@.take(k + 1).drop_last() =~= s@.take(k as int));
            assert(prod(s@.take(k + 1)) <= usize::MAX);
        }
        acc = acc * s[k];
        k = k + 1;
    }
    proof {
        assert(s@.take(k as int) =~= s@);
    }
    acc
}

/// Whether `shape` is a valid shape for `data_len` elements (see `shape_ok`).
pub fn validate_shape(shape: &[usize], data_len: usize) -> (ok: bool)
    ensures
        ok == shape_ok(shape@, data_len as int),
{
    let n = shape.len();
    if n == 0 || n > (isize::MAX as usize) / 8 {
        return false;
    }
    // every leading product
    let mut acc: usize = 1;
    let mut k: usize = 0;
    while k < n
        invariant
            k <= n,
            n == shape@.len(),
            acc == prod(shape@.take(k as int)),
            forall|j: int| 0 <= j <= k ==> #[trigger] prod(shape@.take(j)) <= usize::MAX,
        decreases n - k,
    {
        proof {
            assert(shape@.take(k + 1).drop_last() =~= shape@.take(k as int));
        }
        acc = match acc.checked_mul(shape[k]) {
            Some(x) => x,
            None => {
                proof {
                    assert(prod(shape@.take(k + 1)) > usize::MAX);
                }
                return false;
            },
        };
        k = k + 1;
    }
    let total = acc;
    // every trailing product
    let mut suf: usize = 1;
    let mut i: usize = n;
    proof {
        assert(shape@.skip(n as int) =~= Seq::<usize>::empty());
    }
    while i > 0
        invariant
            i <= n,
            n == shape@.len(),
            suf == prod(shape@.skip(i as int)),
            forall|j: int| i <= j <= n ==> #[trigger] prod(shape@.skip(j)) <= usize::MAX,
        decreases i,
    {
        i = i - 1;
        proof {
            lemma_prod_concat(seq![shape@[i as int]], shape@.skip(i + 1));
            assert(seq![shape@[i as int]] + shape@.skip(i + 1) =~= shape@.skip(i as int));
            lemma_prod_single(shape@[i as int]);
            vstd::arithmetic::mul::lemma_mul_is_commutative(shape@[i as int] as int, suf as int);
        }
        suf = match shape[i].checked_mul(suf) {
            Some(x) => x,
            None => {
                proof {
                    assert(prod(shape@.skip(i as int)) > usize::MAX);
                }
                return false;
            },
        };
    }
    proof {
        assert(shape@.take(n as int) =~= shape@);
    }
    total == data_len
}

/// Whether the entries of `axes` are distinct axes below `n` (a permutation
/// of the axes when `axes` has `n` entries).
pub fn is_valid_permutation(axes: &[usize], n: usize) -> (ok: bool)
    requires
        n <= isize::MAX,
    ensures
        ok == distinct_in_range(axes@, n as int),
{
    let mut seen: Vec<bool> = vec![false; n];
    let mut i: usize = 0;
    while i < axes.len()
        invariant
            i <= axes@.len(),
            seen@.len() == n,
            forall|k: int| 0 <= k < i ==> #[trigger] axes@[k] < n,
            forall|a: int, b: int| 0 <= a < b < i ==> #[trigger] axes@[a] != #[trigger] axes@[b],
            forall|v: int| 0 <= v < n ==> (#[trigger] seen@[v] <==> exists|k: int| 0 <= k < i && axes@[k] == v),
        decreases axes@.len() - i,
    {
        let a = axes[i];
        if a >= n {
            return false;
        }
        if seen[a] {
            proof {
                let k = choose|k: int| 0 <= k < i && axes@[k] == a;
                assert(axes@[k] == axes@[i as int]);
            }
            return false;
        }
        seen.set(a, true);
        i = i + 1;
        proof {
            assert forall|v: int| 0 <= v < n implies (#[trigger] seen@[v] <==> exists|k: int| 0 <= k < i && axes@[k] == v) by {
                if v == a {
                    assert(axes@[i - 1] == v);
                } else {
                    if exists|k: int| 0 <= k < i && axes@[k] == v {
                        let k = choose|k: int| 0 <= k < i && axes@[k] == v;
                        assert(k < i - 1);
                    }
                }
            }
        }
    }
    true
}

/// Under row-major strides the element at logical position `p` is element
/// `p` of the buffer.
proof fn lemma_row_major_positions(s: Seq<usize>)
    requires
        suffixes_fit(s),
    ensures
        forall|p: int| 0 <= p < prod(s) ==> #[trigger] position(p, s, row_major(s)) == p,
{
    assert forall|p: int| 0 <= p < prod(s) implies #[trigger] position(p, s, row_major(s)) == p by {
        lemma_prod_positive(s);
        lemma_row_major_contiguous(s);
        lemma_contig_offset(s, row_major(s), 1, p);
    }
}

impl<T: TensorElement> Tensor<T> {
    /// Lays the data out densely in row-major order of the logical view, with
    /// the row-major strides of the shape. A tensor that is already contiguous
    /// is left as it is.
    pub fn make_contiguous(&mut self)
        requires
            old(self).wf(),
            dims_fit(old(self)@.shape),
            contig_scan(old(self)@.shape, old(self)@.stride, 1) is Some,
            strides_in_bounds(old(self)@.shape, old(self)@.stride, old(self)@.data.len() as int),
        ensures
            final(self).wf(),
            final(self)@.shape == old(self)@.shape,
            logical_view(final(self)@) == logical_view(old(self)@),
            prod(old(self)@.shape) > 0 ==> is_contiguous_layout(final(self)@.shape, final(self)@.stride),
            if is_contiguous_layout(old(self)@.shape, old(self)@.stride) {
                final(self)@ == old(self)@
            } else {
                &&& final(self)@.data == Seq::new(
                    prod(old(self)@.shape) as nat,
                    |p: int| old(self)@.data[position(p, old(self)@.shape, old(self)@.stride)],
                )
                &&& final(self)@.stride == row_major(old(self)@.shape)
            },
    {
        if self.is_contiguous() {
            return;
        }
        let ghost m = self@;
        let total = product(self.shape.as_slice());
        let n = self.shape.len();
        let mut data: Vec<T> = Vec::with_capacity(total);
        let mut idx = index_filled(0, n);
        proof {
            if total > 0 {
                lemma_zero_index(m.shape);
                assert(as_ints(index_items(idx)) =~= Seq::new(m.shape.len(), |_k: int| 0int));
            }
        }
        let mut p: usize = 0;
        while p < total
            invariant
                p <= total,
                total == prod(m.shape),
                m == self@,
                self.wf(),
                strides_in_bounds(m.shape, m.stride, m.data.len() as int),
                index_items(idx).len() == m.shape.len(),
                p < total ==> is_index(as_ints(index_items(idx)), m.shape) && rank(as_ints(index_items(idx)), m.shape) == p,
                data@.len() == p,
                forall|q: int| 0 <= q < p ==> #[trigger] data@[q] == m.data[position(q, m.shape, m.stride)],
            decreases total - p,
        {
            proof {
                lemma_rank(as_ints(index_items(idx)), m.shape);
                assert(position(p as int, m.shape, m.stride) < m.data.len());
            }
            let off = strided_offset(&idx, self.stride.as_slice(), Ghost(m.data.len() as int));
            data.push(self.data[off]);
            advance(&mut idx, self.shape.as_slice());
            p = p + 1;
        }
        proof {
            assert(data@ =~= Seq::new(prod(m.shape) as nat, |q: int| m.data[position(q, m.shape, m.stride)]));
        }
        self.data = data;
        self.update_stride();
        proof {
            lemma_row_major_positions(m.shape);
            if prod(m.shape) > 0 {
                lemma_prod_positive(m.shape);
                lemma_row_major_contiguous(m.shape);
            }
            assert(logical_view(self@) =~= logical_view(m));
        }
    }

    /// Gives the tensor a new shape with the same number of elements and the
    /// row-major strides of that shape; the buffer is unchanged.
    pub fn reshape(&mut self, shape: Box<[usize]>)
        requires
            old(self).wf(),
            shape_ok(shape@, old(self)@.data.len() as int),
        ensures
            final(self).wf(),
            final(self)@.data == old(self)@.data,
            final(self)@.shape == shape@,
            final(self)@.stride == row_major(shape@),
    {
        self.shape = shape.into_vec();
        self.update_stride();
    }

    /// Reorders the axes: axis `k` of the result is axis `axes[k]` of the
    /// tensor, with its extent and its stride. The buffer is unchanged.
    pub fn permute(&mut self, axes: &[usize])
        requires
            old(self).wf(),
            axes@.len() == old(self)@.shape.len(),
            distinct_in_range(axes@, old(self)@.shape.len() as int),
        ensures
            final(self).wf(),
            final(self)@.data == old(self)@.data,
            final(self)@.shape == permuted(old(self)@.shape, axes@),
            final(self)@.stride == permuted(old(self)@.stride, axes@),
            forall|idx: Seq<int>| #[trigger] is_index(idx, old(self)@.shape) ==> {
                &&& is_index(permuted_index(idx, axes@), final(self)@.shape)
                &&& offset(permuted_index(idx, axes@), final(self)@.stride) == offset(idx, old(self)@.stride)
            },
    {
        let n = axes.len();
        let mut new_shape: Vec<usize> = Vec::new();
        let mut new_stride: Vec<usize> = Vec::new();
        let mut k: usize = 0;
        while k < n
            invariant
                k <= n,
                n == axes@.len(),
                n == self@.shape.len(),
                n == self@.stride.len(),
                distinct_in_range(axes@, n as int),
                new_shape@ == permuted(self@.shape, axes@).take(k as int),
                new_stride@ == permuted(self@.stride, axes@).take(k as int),
            decreases n - k,
        {
            let a = axes[k];
            new_shape.push(self.shape[a]);
            new_stride.push(self.stride[a]);
            k = k + 1;
            proof {
                assert(new_shape@ =~= permuted(self@.shape, axes@).take(k as int));
                assert(new_stride@ =~= permuted(self@.stride, axes@).take(k as int));
            }
        }
        proof {
            assert(new_shape@ =~= permuted(self@.shape, axes@));
            assert(new_stride@ =~= permuted(self@.stride, axes@));
            lemma_prod_permute(self@.shape, axes@);
        }
        let ghost m = self@;
        self.shape = new_shape;
        self.stride = new_stride;
        proof {
            assert forall|idx: Seq<int>| #[trigger] is_index(idx, m.shape) implies {
                &&& is_index(permuted_index(idx, axes@), self@.shape)
                &&& offset(permuted_index(idx, axes@), self@.stride) == offset(idx, m.stride)
            } by {
                lemma_index_permute(idx, m.shape, axes@);
                lemma_offset_permute(idx, m.stride, axes@);
            }
        }
    }

    /// Swaps two axes, with their extents and strides.
    pub fn transpose(&mut self, dim0: usize, dim1: usize)
        requires
            old(self).wf(),
            dim0 < old(self)@.shape.len(),
            dim1 < old(self)@.shape.len(),
        ensures
            final(self).wf(),
            final(self)@.data == old(self)@.data,
            final(self)@.shape == swapped(old(self)@.shape, dim0 as int, dim1 as int),
            final(self)@.stride == swapped(old(self)@.stride, dim0 as int, dim1 as int),
    {
        let n = self.shape.len();
        let mut axes: Vec<usize> = Vec::new();
        let mut k: usize = 0;
        while k < n
            invariant
                k <= n,
                axes@.len() == k,
                forall|j: int| 0 <= j < k ==> #[trigger] axes@[j] == j,
            decreases n - k,
        {
            axes.push(k);
            k = k + 1;
        }
        let a0 = axes[dim0];
        let a1 = axes[dim1];
        axes.set(dim0, a1);
        axes.set(dim1, a0);
        proof {
            assert forall|i: int, j: int| 0 <= i < j < axes@.len() implies #[trigger] axes@[i] != #[trigger] axes@[j] by {}
        }
        let ghost old_m = self@;
        self.permute(axes.as_slice());
        proof {
            assert(self@.shape =~= swapped(old_m.shape, dim0 as int, dim1 as int));
            assert(self@.stride =~= swapped(old_m.stride, dim0 as int, dim1 as int));
        }
    }
}

/// `s` with entries `i` and `j` exchanged.
pub open spec fn swapped(s: Seq<usize>, i: int, j: int) -> Seq<usize> {
    s.update(i, s[j]).update(j, s[i])
}

/// Transposing the same two axes twice restores the shape and the strides.
pub proof fn lemma_transpose_twice(s: Seq<usize>, i: int, j: int)
    requires
        0 <= i < s.len(),
        0 <= j < s.len(),
    ensures
        swapped(swapped(s, i, j), i, j) == s,
{
    assert(swapped(swapped(s, i, j), i, j) =~= s);
}

/// A tree of nested lists of values, of any depth: a literal of unknown rank.
#[derive(Debug)]
pub enum NestedVec<T: TensorElement> {
    Value(T),
    List(Vec<NestedVec<T>>),
}

impl<T: TensorElement> NestedVec<T> {
    /// The values of the tree from left to right.
    pub open spec fn flat(self) -> Seq<T>
        decreases self,
    {
        match self {
            NestedVec::Value(v) => seq![v],
            NestedVec::List(items) => Self::flat_list(items@),
        }
    }

    /// The values of a list of trees from left to right.
    pub open spec fn flat_list(items: Seq<NestedVec<T>>) -> Seq<T>
        decreases items,
    {
        if items.len() == 0 {
            Seq::empty()
        } else {
            Self::flat_list(items.subrange(0, items.len() - 1)) + items[items.len() - 1].flat()
        }
    }

    /// The values from left to right, in a buffer with room for `capacity`.
    fn flatten(&self, capacity: usize) -> (out: Vec<T>)
        ensures
            out@ == self.flat(),
    {
        let mut out = Vec::with_capacity(capacity);
        self.flatten_into(&mut out);
        proof {
            assert(out@ =~= self.flat());
        }
        out
    }

    /// Appends the values from left to right to `out`.
    fn flatten_into(&self, out: &mut Vec<T>)
        ensures
            final(out)@ == old(out)@ + self.flat(),
        decreases self,
    {
        match self {
            NestedVec::Value(v) => {
                out.push(*v);
            },
            NestedVec::List(items) => {
                let ghost start = out@;
                let mut i: usize = 0;
                #[verifier::loop_isolation(false)]
                while i < items.len()
                    invariant
                        i <= items@.len(),
                        out@ == start + Self::flat_list(items@.subrange(0, i as int)),
                    decreases items@.len() - i,
                {
                    proof {
                        assert(items@.subrange(0, i + 1).subrange(0, i as int) =~= items@.subrange(0, i as int));
                        assert(decreases_to!(items@ => items@[i as int]));
                        assert(decreases_to!(*items => items@));
                        assert(decreases_to!(*self => *items));
                    }
                    items[i].flatten_into(out);
                    i = i + 1;
                }
                proof {
                    assert(items@.subrange(0, i as int) =~= items@);
                }
            },
        }
    }
}

impl<T: TensorElement> Tensor<T> {
    /// Builds a tensor from a nested literal, whose values are read from left
    /// to right.
    pub fn from_nested(data: NestedVec<T>, shape: Box<[usize]>) -> (t: Tensor<T>)
        requires
            shape_ok(shape@, data.flat().len() as int),
        ensures
            t.wf(),
            t@.data == data.flat(),
            t@.shape == shape@,
            t@.stride == row_major(shape@),
    {
        let expected = product(&shape);
        let flat = data.flatten(expected);
        Self::new(flat, shape, None)
    }
}

impl<T: TensorElement> Tensor<T> {
    /// A tensor from a buffer, a shape and one stride per axis.
    pub(crate) fn from_parts(data: Vec<T>, shape: Vec<usize>, stride: Vec<usize>) -> (t: Tensor<T>)
        requires
            shape@.len() >= 1,
            shape@.len() * 8 <= isize::MAX,
            prod(shape@) == data@.len(),
            stride@.len() == shape@.len(),
        ensures
            t.wf(),
            t@ == (TensorModel { data: data@, shape: shape@, stride: stride@ }),
    {
        Tensor { data, shape, stride }
    }

    /// A tensor from a buffer and a shape, with the row-major strides of the
    /// shape.
    pub(crate) fn with_row_major(data: Vec<T>, shape: Vec<usize>) -> (t: Tensor<T>)
        requires
            shape@.len() >= 1,
            shape@.len() * 8 <= isize::MAX,
            prod(shape@) == data@.len(),
            suffixes_fit(shape@),
        ensures
            t.wf(),
            t@ == (TensorModel { data: data@, shape: shape@, stride: row_major(shape@) }),
    {
        let mut t = Tensor { data, shape, stride: Vec::new() };
        t.update_stride();
        t
    }
}

/// The logical elements of a tensor in row-major order.
pub open spec fn logical_view<T>(m: TensorModel<T>) -> Seq<T> {
    Seq::new(prod(m.shape) as nat, |p: int| logical(m, p))
}

impl<T: TensorElement> Tensor<T> {
    /// Reserves room for `data` in `arena` and builds a tensor holding a copy
    /// of it. Without strides (or with an empty stride list) the strides are
    /// the row-major ones of `shape`. When the arena has no room left, it is
    /// left as it was and the error is returned.
    pub fn from_arena(arena: &mut AcuteArena, data: &[T], shape: Box<[usize]>, stride: Option<Box<[usize]>>) -> (res: Result<Tensor<T>, ArenaError>)
        requires
            old(arena).wf(),
            shape@.len() >= 1,
            shape@.len() * 8 <= isize::MAX,
            prefixes_fit(shape@),
            prod(shape@) == data@.len(),
            match stride {
                Some(s) => s@.len() == 0 && suffixes_fit(shape@) || s@.len() == shape@.len(),
                None => suffixes_fit(shape@),
            },
            data@.len() * size_of::<T>() <= usize::MAX,
            old(arena)@.used + vstd::layout::align_of::<T>() - 1 <= usize::MAX,
            region_start::<T>(old(arena)@.used) + data@.len() * size_of::<T>() <= usize::MAX,
            old(arena)@.n_objects < usize::MAX,
        ensures
            final(arena).wf(),
            final(arena)@.capacity == old(arena)@.capacity,
            region_start::<T>(old(arena)@.used) + data@.len() * size_of::<T>() <= old(arena)@.capacity ==> {
                &&& final(arena)@.used == region_start::<T>(old(arena)@.used) + data@.len() * size_of::<T>()
                &&& final(arena)@.n_objects == old(arena)@.n_objects + 1
                &&& res matches Ok(t) && {
                    &&& t.wf()
                    &&& t@.data == data@
                    &&& t@.shape == shape@
                    &&& t@.stride == match stride {
                        Some(s) => if s@.len() == 0 { row_major(shape@) } else { s@ },
                        None => row_major(shape@),
                    }
                }
            },
            region_start::<T>(old(arena)@.used) + data@.len() * size_of::<T>() > old(arena)@.capacity ==> {
                &&& final(arena)@ == old(arena)@
                &&& res matches Err(ArenaError::Exhausted { .. })
            },
    {
        let _offset = arena.alloc_tensor_data::<T>(data.len())?;
        Ok(Self::new(vstd::slice::slice_to_vec(data), shape, stride))
    }
}

} // verus!
