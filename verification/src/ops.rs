//! Element-wise arithmetic on tensors.

use core::ops::{Add, Mul, Sub};
use vstd::prelude::*;
use vstd::std_specs::ops::{AddSpec, MulSpec, SubSpec};
use vstd::slice::slice_to_vec;
use crate::layout::{
    digits, dims_fit, offset, row_major, lemma_digits, lemma_prod_split, lemma_prod_nonneg, is_contiguous_layout, contig_scan, is_index, lemma_rank, lemma_zero_index, position, prefixes_fit, prod, rank,
    strides_in_bounds, lemma_offset_nonneg,
};
use crate::small_index::{advance, as_ints, index_filled, index_items, partial_offset, strided_offset};
use crate::tensor::{Tensor, TensorElement, TensorModel, is_default, logical, logical_view, product};

verus! {

/// The buffer built by walking the positions `0..k` of shape `s` in order and
/// writing, at the offset that `st1` gives each, `f` of the elements of `d1`
/// and `d2` at the offsets that `st1` and `st2` give it; slots not written
/// hold `init`.
pub open spec fn scatter<T>(s: Seq<usize>, st1: Seq<usize>, st2: Seq<usize>, d1: Seq<T>, d2: Seq<T>, init: T, f: spec_fn(T, T) -> T, k: nat) -> Seq<T>
    decreases k,
{
    if k == 0 {
        Seq::new(prod(s) as nat, |_i: int| init)
    } else {
        let p = k - 1;
        let o1 = position(p, s, st1);
        let o2 = position(p, s, st2);
        scatter(s, st1, st2, d1, d2, init, f, (k - 1) as nat).update(o1, f(d1[o1], d2[o2]))
    }
}

/// Distinct logical positions of shape `s` sit at distinct offsets under `st`.
pub open spec fn layout_injective(s: Seq<usize>, st: Seq<usize>) -> bool {
    forall|p: int, q: int| 0 <= p < prod(s) && 0 <= q < prod(s) && p != q ==> #[trigger] position(p, s, st) != #[trigger] position(q, s, st)
}

/// When distinct positions of `s` sit at distinct offsets under `st1`, the
/// buffer `scatter` builds holds at each position's offset the combination
/// written for that position.
pub proof fn lemma_scatter_at<T>(s: Seq<usize>, st1: Seq<usize>, st2: Seq<usize>, d1: Seq<T>, d2: Seq<T>, init: T, f: spec_fn(T, T) -> T, k: nat, p: int)
    requires
        layout_injective(s, st1),
        strides_in_bounds(s, st1, prod(s)),
        0 <= p < k <= prod(s),
    ensures
        scatter(s, st1, st2, d1, d2, init, f, k)[position(p, s, st1)]
            == f(d1[position(p, s, st1)], d2[position(p, s, st2)]),
    decreases k,
{
    lemma_scatter_len(s, st1, st2, d1, d2, init, f, (k - 1) as nat);
    lemma_position_nonneg(p, s, st1);
    lemma_position_nonneg(k - 1, s, st1);
    if p < k - 1 {
        lemma_scatter_at(s, st1, st2, d1, d2, init, f, (k - 1) as nat, p);
        assert(position(p, s, st1) != position(k - 1, s, st1));
    }
}

/// Positions of a shape sit at non-negative offsets.
proof fn lemma_position_nonneg(p: int, s: Seq<usize>, st: Seq<usize>)
    requires
        0 <= p < prod(s),
    ensures
        position(p, s, st) >= 0,
{
    lemma_digits(p, s);
    lemma_offset_nonneg(digits(p, s), st);
}

/// The buffer `scatter` builds has one slot per position of `s`.
proof fn lemma_scatter_len<T>(s: Seq<usize>, st1: Seq<usize>, st2: Seq<usize>, d1: Seq<T>, d2: Seq<T>, init: T, f: spec_fn(T, T) -> T, k: nat)
    requires
        strides_in_bounds(s, st1, prod(s)),
        k <= prod(s),
    ensures
        scatter(s, st1, st2, d1, d2, init, f, k).len() == prod(s),
    decreases k,
{
    lemma_prod_nonneg(s);
    if k > 0 {
        lemma_scatter_len(s, st1, st2, d1, d2, init, f, (k - 1) as nat);
        lemma_position_nonneg(k - 1, s, st1);
    }
}

/// The logical elements of a tensor with shape `s`, strides `st1` and
/// buffer `scatter(..)` are the combinations of the logical elements of the
/// operands, when `st1` places distinct positions at distinct offsets.
proof fn lemma_scatter_logical<T>(m1: TensorModel<T>, m2: TensorModel<T>, r: TensorModel<T>, init: T, f: spec_fn(T, T) -> T)
    requires
        m1.shape == m2.shape,
        r.shape == m1.shape,
        r.stride == m1.stride,
        m1.data.len() == prod(m1.shape),
        layout_injective(m1.shape, m1.stride),
        strides_in_bounds(m1.shape, m1.stride, m1.data.len() as int),
        r.data == scatter(m1.shape, m1.stride, m2.stride, m1.data, m2.data, init, f, prod(m1.shape) as nat),
    ensures
        logical_view(r) == Seq::new(prod(m1.shape) as nat, |p: int| f(logical(m1, p), logical(m2, p))),
{
    assert forall|p: int| 0 <= p < prod(m1.shape) implies #[trigger] logical(r, p) == f(logical(m1, p), logical(m2, p)) by {
        lemma_scatter_at(m1.shape, m1.stride, m2.stride, m1.data, m2.data, init, f, prod(m1.shape) as nat, p);
    }
    assert(logical_view(r) =~= Seq::new(prod(m1.shape) as nat, |p: int| f(logical(m1, p), logical(m2, p))));
}

/// When both tensors share shape and strides and the strides stay within the
/// buffer, combining the buffers slot by slot combines the logical elements.
proof fn lemma_slotwise_logical<T>(m1: TensorModel<T>, m2: TensorModel<T>, r: TensorModel<T>, f: spec_fn(T, T) -> T)
    requires
        m1.shape == m2.shape,
        m1.stride == m2.stride,
        r.shape == m1.shape,
        r.stride == m1.stride,
        strides_in_bounds(m1.shape, m1.stride, m1.data.len() as int),
        r.data == Seq::new(m1.data.len(), |i: int| f(m1.data[i], m2.data[i])),
    ensures
        logical_view(r) == Seq::new(prod(m1.shape) as nat, |p: int| f(logical(m1, p), logical(m2, p))),
{
    assert forall|p: int| 0 <= p < prod(m1.shape) implies #[trigger] logical(r, p) == f(logical(m1, p), logical(m2, p)) by {
        let o = position(p, m1.shape, m1.stride);
        assert(o < m1.data.len());
        lemma_position_nonneg(p, m1.shape, m1.stride);
        assert(r.data[o] == f(m1.data[o], m2.data[o]));
        assert(logical(r, p) == r.data[o]);
        assert(logical(m2, p) == m2.data[o]);
    }
    lemma_prod_nonneg(m1.shape);
    assert(logical_view(r) =~= Seq::new(prod(m1.shape) as nat, |p: int| f(logical(m1, p), logical(m2, p))));
}

/// What `+` gives on elements, for types whose `+` has a specification.
pub open spec fn add_fn<T: TensorElement>() -> spec_fn(T, T) -> T {
    |a: T, b: T| a.add_spec(b)
}

/// What `-` gives on elements, for types whose `-` has a specification.
pub open spec fn sub_fn<T: TensorElement>() -> spec_fn(T, T) -> T {
    |a: T, b: T| a.sub_spec(b)
}

/// Every pair of elements that the strided walk combines can be added.
pub open spec fn strided_addable<T: TensorElement>(m1: TensorModel<T>, m2: TensorModel<T>) -> bool {
    forall|p: int| 0 <= p < prod(m1.shape) ==> (#[trigger] m1.data[position(p, m1.shape, m1.stride)]).add_req(m2.data[position(p, m1.shape, m2.stride)])
}

/// Every pair of elements that the strided walk combines can be subtracted.
pub open spec fn strided_subtractable<T: TensorElement>(m1: TensorModel<T>, m2: TensorModel<T>) -> bool {
    forall|p: int| 0 <= p < prod(m1.shape) ==> (#[trigger] m1.data[position(p, m1.shape, m1.stride)]).sub_req(m2.data[position(p, m1.shape, m2.stride)])
}

/// The strided walk of `m1`'s shape stays within both buffers.
pub open spec fn strided_in_bounds<T>(m1: TensorModel<T>, m2: TensorModel<T>) -> bool {
    &&& strides_in_bounds(m1.shape, m1.stride, m1.data.len() as int)
    &&& strides_in_bounds(m1.shape, m2.stride, m2.data.len() as int)
}

/// The check shared by the binary operations: the shapes must be equal.
fn invalid_binop<T: TensorElement>(t1: &Tensor<T>, t2: &Tensor<T>) -> (r: (bool, &'static str))
    ensures
        r.0 == (t1@.shape == t2@.shape),
        !r.0 ==> r.1 == "\"[acute]\": shapes are different, unable to add them together",
{
    if !slices_equal(t1.shape(), t2.shape()) {
        return (false, "\"[acute]\": shapes are different, unable to add them together");
    }
    (true, "")
}

/// Whether two slices hold the same values.
pub(crate) fn slices_equal(a: &[usize], b: &[usize]) -> (r: bool)
    ensures
        r == (a@ == b@),
{
    if a.len() != b.len() {
        return false;
    }
    let mut i: usize = 0;
    while i < a.len()
        invariant
            i <= a@.len(),
            a@.len() == b@.len(),
            forall|j: int| 0 <= j < i ==> a@[j] == b@[j],
        decreases a@.len() - i,
    {
        if a[i] != b[i] {
            return false;
        }
        i = i + 1;
    }
    proof {
        assert(a@ =~= b@);
    }
    true
}

/// Element-wise add of two tensors with the same shape and strides, reading
/// the buffers directly; the result has the same layout.
fn contiguous_add<T: TensorElement>(t1: &Tensor<T>, t2: &Tensor<T>) -> (r: Tensor<T>)
    requires
        t1.wf(),
        t2.wf(),
        t1@.shape == t2@.shape,
        t1@.stride == t2@.stride,
        forall|i: int| 0 <= i < t1@.data.len() ==> (#[trigger] t1@.data[i]).add_req(t2@.data[i]),
    ensures
        r.wf(),
        r@.shape == t1@.shape,
        r@.stride == t1@.stride,
        r@.data.len() == t1@.data.len(),
        T::obeys_add_spec() ==> r@.data == Seq::new(t1@.data.len(), |i: int| add_fn::<T>()(t1@.data[i], t2@.data[i])),
{
    let a = t1.as_slice();
    let b = t2.as_slice();
    let n = a.len();
    let mut data: Vec<T> = Vec::with_capacity(n);
    let mut i: usize = 0;
    while i < n
        invariant
            i <= n,
            n == a@.len(),
            a@ == t1@.data,
            b@ == t2@.data,
            b@.len() == n,
            forall|j: int| 0 <= j < n ==> (#[trigger] t1@.data[j]).add_req(t2@.data[j]),
            data@.len() == i,
            T::obeys_add_spec() ==> forall|j: int| 0 <= j < i ==> #[trigger] data@[j] == add_fn::<T>()(a@[j], b@[j]),
        decreases n - i,
    {
        let v = a[i] + b[i];
        data.push(v);
        i = i + 1;
    }
    let r = Tensor::from_parts(data, slice_to_vec(t1.shape()), slice_to_vec(t1.stride()));
    proof {
        if T::obeys_add_spec() {
            assert(r@.data =~= Seq::new(t1@.data.len(), |j: int| add_fn::<T>()(t1@.data[j], t2@.data[j])));
        }
    }
    r
}

/// Element-wise add of two tensors with the same shape, walking the logical
/// positions in row-major order and writing each result at the offset the
/// first tensor's strides give it; the result has the first tensor's layout.
fn strided_add<T: TensorElement>(t1: &Tensor<T>, t2: &Tensor<T>) -> (r: Tensor<T>)
    requires
        t1.wf(),
        t2.wf(),
        t1@.shape == t2@.shape,
        strided_in_bounds(t1@, t2@),
        strided_addable(t1@, t2@),
    ensures
        r.wf(),
        r@.shape == t1@.shape,
        r@.stride == t1@.stride,
        T::obeys_add_spec() ==> exists|d: T| is_default::<T>(d) && r@.data == #[trigger] scatter(t1@.shape, t1@.stride, t2@.stride, t1@.data, t2@.data, d, add_fn::<T>(), prod(t1@.shape) as nat),
{
    let ghost m1 = t1@;
    let ghost m2 = t2@;
    let shape = t1.shape();
    let total = t1.len();
    let n = shape.len();
    let init = T::zero();
    let mut data: Vec<T> = Vec::with_capacity(total);
    let mut i: usize = 0;
    while i < total
        invariant
            i <= total,
            data@.len() == i,
            forall|j: int| 0 <= j < i ==> #[trigger] data@[j] == init,
        decreases total - i,
    {
        data.push(init);
        i = i + 1;
    }
    proof {
        assert(data@ =~= scatter(m1.shape, m1.stride, m2.stride, m1.data, m2.data, init, add_fn::<T>(), 0));
    }
    let mut idx = index_filled(0, n);
    proof {
        if total > 0 {
            lemma_zero_index(m1.shape);
            assert(as_ints(index_items(idx)) =~= Seq::new(m1.shape.len(), |_k: int| 0int));
        }
    }
    let mut p: usize = 0;
    while p < total
        invariant
            p <= total,
            total == prod(m1.shape),
            m1 == t1@,
            m2 == t2@,
            shape@ == m1.shape,
            t1.wf(),
            t2.wf(),
            m1.shape == m2.shape,
            strided_in_bounds(m1, m2),
            strided_addable(m1, m2),
            index_items(idx).len() == m1.shape.len(),
            p < total ==> is_index(as_ints(index_items(idx)), m1.shape) && rank(as_ints(index_items(idx)), m1.shape) == p,
            data@.len() == total,
            T::obeys_add_spec() ==> data@ == scatter(m1.shape, m1.stride, m2.stride, m1.data, m2.data, init, add_fn::<T>(), p as nat),
        decreases total - p,
    {
        proof {
            lemma_rank(as_ints(index_items(idx)), m1.shape);
            assert(position(p as int, m1.shape, m1.stride) < m1.data.len());
            assert(position(p as int, m1.shape, m2.stride) < m2.data.len());
        }
        let o1 = strided_offset(&idx, t1.stride(), Ghost(m1.data.len() as int));
        let o2 = strided_offset(&idx, t2.stride(), Ghost(m2.data.len() as int));
        proof {
            assert(m1.data[o1 as int] == m1.data[position(p as int, m1.shape, m1.stride)]);
        }
        let v = t1.as_slice()[o1] + t2.as_slice()[o2];
        data.set(o1, v);
        advance(&mut idx, shape);
        p = p + 1;
    }
    let r = Tensor::from_parts(data, slice_to_vec(shape), slice_to_vec(t1.stride()));
    r
}

/// Element-wise sub of two tensors with the same shape and strides, reading
/// the buffers directly; the result has the same layout.
fn contiguous_sub<T: TensorElement>(t1: &Tensor<T>, t2: &Tensor<T>) -> (r: Tensor<T>)
    requires
        t1.wf(),
        t2.wf(),
        t1@.shape == t2@.shape,
        t1@.stride == t2@.stride,
        forall|i: int| 0 <= i < t1@.data.len() ==> (#[trigger] t1@.data[i]).sub_req(t2@.data[i]),
    ensures
        r.wf(),
        r@.shape == t1@.shape,
        r@.stride == t1@.stride,
        r@.data.len() == t1@.data.len(),
        T::obeys_sub_spec() ==> r@.data == Seq::new(t1@.data.len(), |i: int| sub_fn::<T>()(t1@.data[i], t2@.data[i])),
{
    let a = t1.as_slice();
    let b = t2.as_slice();
    let n = a.len();
    let mut data: Vec<T> = Vec::with_capacity(n);
    let mut i: usize = 0;
    while i < n
        invariant
            i <= n,
            n == a@.len(),
            a@ == t1@.data,
            b@ == t2@.data,
            b@.len() == n,
            forall|j: int| 0 <= j < n ==> (#[trigger] t1@.data[j]).sub_req(t2@.data[j]),
            data@.len() == i,
            T::obeys_sub_spec() ==> forall|j: int| 0 <= j < i ==> #[trigger] data@[j] == sub_fn::<T>()(a@[j], b@[j]),
        decreases n - i,
    {
        let v = a[i] - b[i];
        data.push(v);
        i = i + 1;
    }
    let r = Tensor::from_parts(data, slice_to_vec(t1.shape()), slice_to_vec(t1.stride()));
    proof {
        if T::obeys_sub_spec() {
            assert(r@.data =~= Seq::new(t1@.data.len(), |j: int| sub_fn::<T>()(t1@.data[j], t2@.data[j])));
        }
    }
    r
}

/// Element-wise sub of two tensors with the same shape, walking the logical
/// positions in row-major order and writing each result at the offset the
/// first tensor's strides give it; the result has the first tensor's layout.
fn strided_sub<T: TensorElement>(t1: &Tensor<T>, t2: &Tensor<T>) -> (r: Tensor<T>)
    requires
        t1.wf(),
        t2.wf(),
        t1@.shape == t2@.shape,
        strided_in_bounds(t1@, t2@),
        strided_subtractable(t1@, t2@),
    ensures
        r.wf(),
        r@.shape == t1@.shape,
        r@.stride == t1@.stride,
        T::obeys_sub_spec() ==> exists|d: T| is_default::<T>(d) && r@.data == #[trigger] scatter(t1@.shape, t1@.stride, t2@.stride, t1@.data, t2@.data, d, sub_fn::<T>(), prod(t1@.shape) as nat),
{
    let ghost m1 = t1@;
    let ghost m2 = t2@;
    let shape = t1.shape();
    let total = t1.len();
    let n = shape.len();
    let init = T::zero();
    let mut data: Vec<T> = Vec::with_capacity(total);
    let mut i: usize = 0;
    while i < total
        invariant
            i <= total,
            data@.len() == i,
            forall|j: int| 0 <= j < i ==> #[trigger] data@[j] == init,
        decreases total - i,
    {
        data.push(init);
        i = i + 1;
    }
    proof {
        assert(data@ =~= scatter(m1.shape, m1.stride, m2.stride, m1.data, m2.data, init, sub_fn::<T>(), 0));
    }
    let mut idx = index_filled(0, n);
    proof {
        if total > 0 {
            lemma_zero_index(m1.shape);
            assert(as_ints(index_items(idx)) =~= Seq::new(m1.shape.len(), |_k: int| 0int));
        }
    }
    let mut p: usize = 0;
    while p < total
        invariant
            p <= total,
            total == prod(m1.shape),
            m1 == t1@,
            m2 == t2@,
            shape@ == m1.shape,
            t1.wf(),
            t2.wf(),
            m1.shape == m2.shape,
            strided_in_bounds(m1, m2),
            strided_subtractable(m1, m2),
            index_items(idx).len() == m1.shape.len(),
            p < total ==> is_index(as_ints(index_items(idx)), m1.shape) && rank(as_ints(index_items(idx)), m1.shape) == p,
            data@.len() == total,
            T::obeys_sub_spec() ==> data@ == scatter(m1.shape, m1.stride, m2.stride, m1.data, m2.data, init, sub_fn::<T>(), p as nat),
        decreases total - p,
    {
        proof {
            lemma_rank(as_ints(index_items(idx)), m1.shape);
            assert(position(p as int, m1.shape, m1.stride) < m1.data.len());
            assert(position(p as int, m1.shape, m2.stride) < m2.data.len());
        }
        let o1 = strided_offset(&idx, t1.stride(), Ghost(m1.data.len() as int));
        let o2 = strided_offset(&idx, t2.stride(), Ghost(m2.data.len() as int));
        proof {
            assert(m1.data[o1 as int] == m1.data[position(p as int, m1.shape, m1.stride)]);
        }
        let v = t1.as_slice()[o1] - t2.as_slice()[o2];
        data.set(o1, v);
        advance(&mut idx, shape);
        p = p + 1;
    }
    let r = Tensor::from_parts(data, slice_to_vec(shape), slice_to_vec(t1.stride()));
    r
}

/// What `add` needs of its arguments beyond being well formed, on the path
/// it takes: elements that can be combined, and (for the strided path)
/// strides that stay within the buffers.
pub open spec fn add_defined<T: TensorElement>(m1: TensorModel<T>, m2: TensorModel<T>) -> bool {
    m1.shape == m2.shape ==> {
        &&& m1.stride == m2.stride ==> forall|i: int| 0 <= i < m1.data.len() ==> (#[trigger] m1.data[i]).add_req(m2.data[i])
        &&& m1.stride != m2.stride ==> {
            &&& strided_in_bounds(m1, m2)
            &&& strided_addable(m1, m2)
        }
    }
}

/// Element-wise add of two tensors of the same shape.
///
/// Tensors with different shapes are refused. Tensors with the same strides
/// are combined buffer against buffer and the result keeps their layout.
/// Otherwise the logical elements are combined position by position and the
/// result takes the first tensor's layout.
pub fn add<T: TensorElement>(t1: &Tensor<T>, t2: &Tensor<T>) -> (res: Result<Tensor<T>, &'static str>)
    requires
        t1.wf(),
        t2.wf(),
        add_defined(t1@, t2@),
    ensures
        t1@.shape != t2@.shape ==> res == Err::<Tensor<T>, &'static str>(
            "\"[acute]\": shapes are different, unable to add them together",
        ),
        t1@.shape == t2@.shape && t1@.stride == t2@.stride ==> (res matches Ok(r) && {
            &&& r.wf()
            &&& r@.shape == t1@.shape
            &&& r@.stride == t1@.stride
            &&& T::obeys_add_spec() ==> r@.data == Seq::new(t1@.data.len(), |i: int| add_fn::<T>()(t1@.data[i], t2@.data[i]))
        }),
        t1@.shape == t2@.shape && t1@.stride != t2@.stride ==> (res matches Ok(r) && {
            &&& r.wf()
            &&& r@.shape == t1@.shape
            &&& r@.stride == t1@.stride
            &&& T::obeys_add_spec() ==> exists|d: T| is_default::<T>(d) && r@.data == #[trigger] scatter(t1@.shape, t1@.stride, t2@.stride, t1@.data, t2@.data, d, add_fn::<T>(), prod(t1@.shape) as nat)
        }),
        T::obeys_add_spec() && strides_in_bounds(t1@.shape, t1@.stride, t1@.data.len() as int)
            && (t1@.stride == t2@.stride || layout_injective(t1@.shape, t1@.stride))
            ==> (res matches Ok(r) ==> logical_view(r@) == Seq::new(
            prod(t1@.shape) as nat,
            |p: int| add_fn::<T>()(logical(t1@, p), logical(t2@, p)),
        )),
{
    let invalid_op = invalid_binop(t1, t2);
    if invalid_op.0 == false {
        return Err(invalid_op.1);
    }
    if slices_equal(t1.stride(), t2.stride()) {
        let r = contiguous_add(t1, t2);
        proof {
            if T::obeys_add_spec() && strides_in_bounds(t1@.shape, t1@.stride, t1@.data.len() as int) {
                lemma_slotwise_logical(t1@, t2@, r@, add_fn::<T>());
            }
        }
        Ok(r)
    } else {
        let r = strided_add(t1, t2);
        proof {
            if T::obeys_add_spec() && layout_injective(t1@.shape, t1@.stride) {
                let d = choose|d: T| is_default::<T>(d) && r@.data == #[trigger] scatter(t1@.shape, t1@.stride, t2@.stride, t1@.data, t2@.data, d, add_fn::<T>(), prod(t1@.shape) as nat);
                lemma_scatter_logical(t1@, t2@, r@, d, add_fn::<T>());
            }
        }
        Ok(r)
    }
}

/// What `sub` needs of its arguments beyond being well formed, on the path
/// it takes: elements that can be combined, and (for the strided path)
/// strides that stay within the buffers.
pub open spec fn sub_defined<T: TensorElement>(m1: TensorModel<T>, m2: TensorModel<T>) -> bool {
    m1.shape == m2.shape ==> {
        &&& m1.stride == m2.stride ==> forall|i: int| 0 <= i < m1.data.len() ==> (#[trigger] m1.data[i]).sub_req(m2.data[i])
        &&& m1.stride != m2.stride ==> {
            &&& strided_in_bounds(m1, m2)
            &&& strided_subtractable(m1, m2)
        }
    }
}

/// Element-wise sub of two tensors of the same shape.
///
/// Tensors with different shapes are refused. Tensors with the same strides
/// are combined buffer against buffer and the result keeps their layout.
/// Otherwise the logical elements are combined position by position and the
/// result takes the first tensor's layout.
pub fn sub<T: TensorElement>(t1: &Tensor<T>, t2: &Tensor<T>) -> (res: Result<Tensor<T>, &'static str>)
    requires
        t1.wf(),
        t2.wf(),
        sub_defined(t1@, t2@),
    ensures
        t1@.shape != t2@.shape ==> res == Err::<Tensor<T>, &'static str>(
            "\"[acute]\": shapes are different, unable to add them together",
        ),
        t1@.shape == t2@.shape && t1@.stride == t2@.stride ==> (res matches Ok(r) && {
            &&& r.wf()
            &&& r@.shape == t1@.shape
            &&& r@.stride == t1@.stride
            &&& T::obeys_sub_spec() ==> r@.data == Seq::new(t1@.data.len(), |i: int| sub_fn::<T>()(t1@.data[i], t2@.data[i]))
        }),
        t1@.shape == t2@.shape && t1@.stride != t2@.stride ==> (res matches Ok(r) && {
            &&& r.wf()
            &&& r@.shape == t1@.shape
            &&& r@.stride == t1@.stride
            &&& T::obeys_sub_spec() ==> exists|d: T| is_default::<T>(d) && r@.data == #[trigger] scatter(t1@.shape, t1@.stride, t2@.stride, t1@.data, t2@.data, d, sub_fn::<T>(), prod(t1@.shape) as nat)
        }),
        T::obeys_sub_spec() && strides_in_bounds(t1@.shape, t1@.stride, t1@.data.len() as int)
            && (t1@.stride == t2@.stride || layout_injective(t1@.shape, t1@.stride))
            ==> (res matches Ok(r) ==> logical_view(r@) == Seq::new(
            prod(t1@.shape) as nat,
            |p: int| sub_fn::<T>()(logical(t1@, p), logical(t2@, p)),
        )),
{
    let invalid_op = invalid_binop(t1, t2);
    if invalid_op.0 == false {
        return Err(invalid_op.1);
    }
    if slices_equal(t1.stride(), t2.stride()) {
        let r = contiguous_sub(t1, t2);
        proof {
            if T::obeys_sub_spec() && strides_in_bounds(t1@.shape, t1@.stride, t1@.data.len() as int) {
                lemma_slotwise_logical(t1@, t2@, r@, sub_fn::<T>());
            }
        }
        Ok(r)
    } else {
        let r = strided_sub(t1, t2);
        proof {
            if T::obeys_sub_spec() && layout_injective(t1@.shape, t1@.stride) {
                let d = choose|d: T| is_default::<T>(d) && r@.data == #[trigger] scatter(t1@.shape, t1@.stride, t2@.stride, t1@.data, t2@.data, d, sub_fn::<T>(), prod(t1@.shape) as nat);
                lemma_scatter_logical(t1@, t2@, r@, d, sub_fn::<T>());
            }
        }
        Ok(r)
    }
}

// ---------------------------------------------------------------------
// multiplication
// ---------------------------------------------------------------------

/// Addition and multiplication of elements never fail (as for floating-point
/// types).
pub open spec fn total_arith<T: TensorElement>() -> bool {
    &&& forall|x: T, y: T| #[trigger] x.add_req(y)
    &&& forall|x: T, y: T| #[trigger] x.mul_req(y)
}

/// Offset in the first operand of a matrix product for output row `r`
/// (a row-major position over all axes but the last) and contraction index `k`.
pub open spec fn mul_offset1<T>(m1: TensorModel<T>, r: int, k: int) -> int {
    offset(digits(r, m1.shape.drop_last()), m1.stride.drop_last()) + k * m1.stride.last()
}

/// Offset in the second operand of a matrix product for output row `r`,
/// contraction index `k` and output column `j`: the batch axes of `r`, then
/// `k` and `j` on the last two axes.
pub open spec fn mul_offset2<T>(m1: TensorModel<T>, m2: TensorModel<T>, r: int, k: int, j: int) -> int {
    let n = m2.shape.len() as int;
    offset(digits(r, m1.shape.drop_last()).take(n - 2), m2.stride.take(n - 2)) + k * m2.stride[n - 2] + j * m2.stride[n - 1]
}

/// The output element for row `r` and column `j` after `k` terms of the
/// contraction, starting from `init`.
pub open spec fn mul_entry<T: TensorElement>(m1: TensorModel<T>, m2: TensorModel<T>, init: T, r: int, j: int, k: nat) -> T
    decreases k,
{
    if k == 0 {
        init
    } else {
        mul_entry(m1, m2, init, r, j, (k - 1) as nat).add_spec(
            m1.data[mul_offset1(m1, r, k - 1)].mul_spec(m2.data[mul_offset2(m1, m2, r, k - 1, j)]),
        )
    }
}

/// The elements of a matrix product in row-major order, each accumulated
/// from `init`.
pub open spec fn mul_result<T: TensorElement>(m1: TensorModel<T>, m2: TensorModel<T>, init: T) -> Seq<T> {
    let cols = m2.shape.last() as int;
    Seq::new(
        (prod(m1.shape.drop_last()) * cols) as nat,
        |pos: int| mul_entry(m1, m2, init, pos / cols, pos % cols, m1.shape.last() as nat),
    )
}

/// The shape of a matrix product: the first operand's shape with the last
/// axis replaced by the second operand's last axis.
pub open spec fn mul_shape(s1: Seq<usize>, s2: Seq<usize>) -> Seq<usize> {
    s1.update(s1.len() - 1, s2[s2.len() - 1])
}

/// The product for contraction index `k` of output row `r` and column `j`
/// can be formed, and so can its sum with the running total before it.
pub open spec fn mul_term_ok<T: TensorElement>(m1: TensorModel<T>, m2: TensorModel<T>, init: T, r: int, j: int, k: int) -> bool {
    let x = m1.data[mul_offset1(m1, r, k)];
    let y = m2.data[mul_offset2(m1, m2, r, k, j)];
    &&& x.mul_req(y)
    &&& mul_entry(m1, m2, init, r, j, k as nat).add_req(x.mul_spec(y))
}

/// Every product and every running sum of the contraction for each output
/// element can be formed, starting from `init`.
pub open spec fn mul_terms_ok<T: TensorElement>(m1: TensorModel<T>, m2: TensorModel<T>, init: T) -> bool {
    let n = m1.shape.len() as int;
    let rows = prod(m1.shape.drop_last());
    let kk = m1.shape[n - 1] as int;
    let cols = m2.shape[n - 1] as int;
    forall|r: int, j: int, k: int| 0 <= r < rows && 0 <= j < cols && 0 <= k < kk ==> #[trigger] mul_term_ok(m1, m2, init, r, j, k)
}

/// The contraction can be carried out: either `+` and `*` never fail, or
/// they have a specification and every term from the default start value
/// can be formed.
pub open spec fn mul_arith_ok<T: TensorElement>(m1: TensorModel<T>, m2: TensorModel<T>) -> bool {
    ||| total_arith::<T>()
    ||| {
        &&& T::obeys_add_spec()
        &&& T::obeys_mul_spec()
        &&& forall|d: T| #[trigger] is_default::<T>(d) ==> mul_terms_ok(m1, m2, d)
    }
}

/// What a (batched) matrix product needs of its operands: equal ranks of at
/// least two, a contraction axis of the same extent, products of the
/// dimensions that fit, and offsets within the buffers.
pub open spec fn mul_defined<T: TensorElement>(m1: TensorModel<T>, m2: TensorModel<T>) -> bool {
    let n = m1.shape.len() as int;
    let rows = prod(m1.shape.drop_last());
    let kk = m1.shape[n - 1] as int;
    let cols = m2.shape[n - 1] as int;
    &&& n >= 2
    &&& m2.shape.len() == n
    &&& m1.shape[n - 1] == m2.shape[n - 2]
    &&& prefixes_fit(m1.shape)
    &&& dims_fit(mul_shape(m1.shape, m2.shape))
    &&& forall|r: int, k: int| 0 <= r < rows && 0 <= k < kk ==> #[trigger] mul_offset1(m1, r, k) < m1.data.len()
    &&& forall|r: int, k: int, j: int| 0 <= r < rows && 0 <= k < kk && 0 <= j < cols ==> #[trigger] mul_offset2(m1, m2, r, k, j) < m2.data.len()
    &&& mul_arith_ok(m1, m2)
}

/// Batched matrix product: for each batch and each row `i` of the first
/// operand and column `j` of the second, the sum over `k` of the products of
/// their elements, accumulated from the default value. The result is laid
/// out in row-major order.
fn strided_mul<T: TensorElement>(t1: &Tensor<T>, t2: &Tensor<T>) -> (r: Tensor<T>)
    requires
        t1.wf(),
        t2.wf(),
        mul_defined(t1@, t2@),
    ensures
        r.wf(),
        r@.shape == mul_shape(t1@.shape, t2@.shape),
        r@.stride == row_major(mul_shape(t1@.shape, t2@.shape)),
        T::obeys_add_spec() && T::obeys_mul_spec() ==> exists|d: T| is_default::<T>(d) && r@.data == #[trigger] mul_result(t1@, t2@, d),
{
    let ghost m1 = t1@;
    let ghost m2 = t2@;
    let n1 = t1.len();
    let n2 = t2.len();
    let len = t2.shape().len();
    let shape1 = t1.shape();
    let shape2 = t2.shape();
    let stride1 = t1.stride();
    let stride2 = t2.stride();
    let kk = shape2[len - 2];
    let cols = shape2[len - 1];
    let ghost s1p = m1.shape.drop_last();
    let mut row_shape = slice_to_vec(shape1);
    row_shape.pop();
    proof {
        assert(row_shape@ =~= s1p);
    }
    // rows: the product of all axes of the first operand but the last
    let mut rows: usize = 1;
    let mut a: usize = 0;
    while a < len - 1
        invariant
            a <= len - 1,
            len == m1.shape.len(),
            shape1@ == m1.shape,
            prefixes_fit(m1.shape),
            rows == prod(m1.shape.take(a as int)),
        decreases len - 1 - a,
    {
        proof {
            assert(m1.shape.take(a + 1).drop_last() =~= m1.shape.take(a as int));
            assert(prod(m1.shape.take(a + 1)) <= usize::MAX);
        }
        rows = rows * shape1[a];
        a = a + 1;
    }
    proof {
        assert(m1.shape.take(len - 1) =~= s1p);
    }
    let mut out_shape = slice_to_vec(shape1);
    out_shape.set(len - 1, cols);
    proof {
        assert(out_shape@ =~= mul_shape(m1.shape, m2.shape));
        assert(mul_shape(m1.shape, m2.shape).drop_last() =~= s1p);
        lemma_prod_nonneg(s1p);
    }
    let out_total = crate::tensor::product(out_shape.as_slice());
    proof {
        assert(out_total == rows * cols);
    }
    let init = T::zero();
    let mut data: Vec<T> = Vec::with_capacity(out_total);
    let mut i: usize = 0;
    while i < out_total
        invariant
            i <= out_total,
            data@.len() == i,
            forall|q: int| 0 <= q < i ==> #[trigger] data@[q] == init,
        decreases out_total - i,
    {
        data.push(init);
        i = i + 1;
    }
    let mut idx1 = index_filled(0, len - 1);
    proof {
        if rows > 0 {
            crate::layout::lemma_zero_index(s1p);
            assert(as_ints(index_items(idx1)) =~= Seq::new(s1p.len(), |_k: int| 0int));
        }
    }
    let mut r: usize = 0;
    let mut pos: usize = 0;
    while r < rows
        invariant
            r <= rows,
            rows == prod(s1p),
            s1p == m1.shape.drop_last(),
            row_shape@ == s1p,
            len == m1.shape.len(),
            m1 == t1@,
            m2 == t2@,
            n1 == m1.data.len(),
            n2 == m2.data.len(),
            t1.wf(),
            t2.wf(),
            shape1@ == m1.shape,
            shape2@ == m2.shape,
            stride1@ == m1.stride,
            stride2@ == m2.stride,
            kk == m2.shape[len - 2],
            cols == m2.shape[len - 1],
            mul_defined(m1, m2),
            is_default::<T>(init),
            out_total == rows * cols,
            pos == r * cols,
            data@.len() == out_total,
            index_items(idx1).len() == len - 1,
            r < rows ==> crate::layout::is_index(as_ints(index_items(idx1)), s1p) && crate::layout::rank(as_ints(index_items(idx1)), s1p) == r,
            forall|q: int| pos <= q < out_total ==> #[trigger] data@[q] == init,
            T::obeys_add_spec() && T::obeys_mul_spec() ==> forall|q: int| 0 <= q < pos ==> #[trigger] data@[q] == mul_entry(m1, m2, init, q / (cols as int), q % (cols as int), kk as nat),
        decreases rows - r,
    {
        proof {
            lemma_rank(as_ints(index_items(idx1)), s1p);
            assert(as_ints(index_items(idx1)).take(len - 1) =~= as_ints(index_items(idx1)));
            assert(m1.stride.take(len - 1) =~= m1.stride.drop_last());
            assert(digits(r as int, s1p) == as_ints(index_items(idx1)));
            assert(forall|jj: int| 0 <= jj < len - 1 ==> 0 <= #[trigger] as_ints(index_items(idx1))[jj]);
            assert(r * cols + cols <= rows * cols) by (nonlinear_arith)
                requires
                    r < rows,
                    cols >= 0,
            ;
        }
        let ghost ix = as_ints(index_items(idx1));
        // offsets of the row in both operands
        proof {
            if kk > 0 {
                assert(mul_offset1(m1, r as int, 0) < m1.data.len());
                assert(0 * (m1.stride.last() as int) == 0) by (nonlinear_arith);
                assert(as_ints(index_items(idx1)).take(len - 1) == ix);
                assert(stride1@.take(len - 1) == m1.stride.drop_last());
                assert(offset(ix, m1.stride.drop_last()) == mul_offset1(m1, r as int, 0));
            }
        }
        let off1 = if kk > 0 {
            partial_offset(&idx1, stride1, len - 1, Ghost(m1.data.len() as int))
        } else {
            0
        };
        let off2 = if kk > 0 && cols > 0 {
            proof {
                assert(mul_offset2(m1, m2, r as int, 0, 0) < m2.data.len());
                assert(0 * (m2.stride[len - 2] as int) == 0) by (nonlinear_arith);
                assert(0 * (m2.stride[len - 1] as int) == 0) by (nonlinear_arith);
                crate::layout::lemma_offset_nonneg(ix.take(len - 2), m2.stride.take(len - 2));
                crate::layout::lemma_offset_prefix_le(ix, m2.stride.take(len - 1), len - 2);
                assert(m2.stride.take(len - 1).take(len - 2) =~= m2.stride.take(len - 2));
                assert(ix.take(len - 2) =~= ix.take(len - 2));
            }
            partial_offset(&idx1, stride2, len - 2, Ghost(m2.data.len() as int))
        } else {
            0
        };
        let mut j: usize = 0;
        while j < cols
            invariant
                j <= cols,
                r < rows,
                rows == prod(s1p),
                len == m1.shape.len(),
                m1 == t1@,
                m2 == t2@,
                n1 == m1.data.len(),
                n2 == m2.data.len(),
                t1.wf(),
                t2.wf(),
                shape1@ == m1.shape,
                stride1@ == m1.stride,
                stride2@ == m2.stride,
                kk == m2.shape[len - 2],
                cols == m2.shape[len - 1],
                mul_defined(m1, m2),
                is_default::<T>(init),
            is_default::<T>(init),
                ix == digits(r as int, s1p),
                crate::layout::is_index(ix, s1p),
                s1p == m1.shape.drop_last(),
                kk > 0 ==> off1 == offset(ix, m1.stride.drop_last()),
                kk > 0 && cols > 0 ==> off2 == offset(ix.take(len - 2), m2.stride.take(len - 2)),
                out_total == rows * cols,
                r * cols + cols <= out_total,
                pos == r * cols + j,
                data@.len() == out_total,
                forall|q: int| pos <= q < out_total ==> #[trigger] data@[q] == init,
                T::obeys_add_spec() && T::obeys_mul_spec() ==> forall|q: int| 0 <= q < pos ==> #[trigger] data@[q] == mul_entry(m1, m2, init, q / (cols as int), q % (cols as int), kk as nat),
            decreases cols - j,
        {
            let mut acc = data[pos];
            let mut k: usize = 0;
            while k < kk
                invariant
                    k <= kk,
                    j < cols,
                    r < rows,
                    rows == prod(s1p),
                    len == m1.shape.len(),
                    m1 == t1@,
                    m2 == t2@,
                    n1 == m1.data.len(),
                    n2 == m2.data.len(),
                    t1.wf(),
                    t2.wf(),
                    stride1@ == m1.stride,
                    stride2@ == m2.stride,
                    kk == m2.shape[len - 2],
                    cols == m2.shape[len - 1],
                    mul_defined(m1, m2),
                    is_default::<T>(init),
                is_default::<T>(init),
            is_default::<T>(init),
                    ix == digits(r as int, s1p),
                    s1p == m1.shape.drop_last(),
                    crate::layout::is_index(ix, s1p),
                    kk > 0 ==> off1 == offset(ix, m1.stride.drop_last()),
                    kk > 0 ==> off2 == offset(ix.take(len - 2), m2.stride.take(len - 2)),
                    T::obeys_add_spec() && T::obeys_mul_spec() ==> acc == mul_entry(m1, m2, init, r as int, j as int, k as nat),
                decreases kk - k,
            {
                proof {
                    assert(mul_offset1(m1, r as int, k as int) < m1.data.len());
                assert(mul_offset1(m1, r as int, k as int) == off1 + k * stride1@[len - 1]);
                    assert(mul_offset2(m1, m2, r as int, k as int, j as int) < m2.data.len());
                    assert(m1.stride.last() == m1.stride[len - 1]);
                    vstd::arithmetic::mul::lemma_mul_nonnegative(k as int, m1.stride[len - 1] as int);
                    vstd::arithmetic::mul::lemma_mul_nonnegative(k as int, m2.stride[len - 2] as int);
                    vstd::arithmetic::mul::lemma_mul_nonnegative(j as int, m2.stride[len - 1] as int);
                    assert(forall|jj: int| 0 <= jj < ix.len() ==> #[trigger] ix[jj] >= 0);
                    crate::layout::lemma_offset_nonneg(ix, m1.stride.drop_last());
                    assert forall|jj: int| 0 <= jj < len - 2 implies #[trigger] ix.take(len - 2)[jj] >= 0 by {
                        assert(ix.take(len - 2)[jj] == ix[jj]);
                    }
                    crate::layout::lemma_offset_nonneg(ix.take(len - 2), m2.stride.take(len - 2));
                }
                let o1 = off1 + k * stride1[len - 1];
                let o2 = off2 + k * stride2[len - 2] + j * stride2[len - 1];
                proof {
                    if !total_arith::<T>() {
                        assert(mul_terms_ok(m1, m2, init));
                        assert(m1.shape[len - 1] == kk);
                        assert(mul_term_ok(m1, m2, init, r as int, j as int, k as int));
                    }
                }
                let prod_v = t1.as_slice()[o1] * t2.as_slice()[o2];
                acc = acc + prod_v;
                k = k + 1;
            }
            let ghost before = data@;
            data.set(pos, acc);
            proof {
                let q0 = pos as int;
                vstd::arithmetic::div_mod::lemma_fundamental_div_mod_converse(q0, cols as int, r as int, j as int);
                if T::obeys_add_spec() && T::obeys_mul_spec() {
                    assert forall|q: int| 0 <= q < pos + 1 implies #[trigger] data@[q] == mul_entry(m1, m2, init, q / (cols as int), q % (cols as int), kk as nat) by {
                        if q < pos {
                            assert(data@[q] == before[q]);
                        }
                    }
                }
            }
            pos = pos + 1;
            j = j + 1;
        }
        proof {
            assert(pos == (r + 1) * cols) by (nonlinear_arith)
                requires
                    pos == r * cols + cols,
            ;
        }
        advance(&mut idx1, row_shape.as_slice());
        r = r + 1;
    }
    proof {
        if T::obeys_add_spec() && T::obeys_mul_spec() {
            assert(data@ =~= mul_result(m1, m2, init));
        }
    }
    Tensor::with_row_major(data, out_shape)
}

/// Which product `mul` computes for operands of shapes `s1` and `s2`: 0 for
/// the element-wise product of two equal one-axis shapes, 1 for the
/// (batched) matrix product, 2 when the shapes do not fit either.
pub open spec fn mul_path(s1: Seq<usize>, s2: Seq<usize>) -> int {
    let n = s1.len() as int;
    if n == 1 && s1 == s2 {
        0
    } else if n == s2.len() && n >= 3 && s1[0] == s2[0] && s1[n - 1] == s2[n - 2] {
        1
    } else if n == s2.len() && !(n >= 3 && s1[0] == s2[0]) && n == 2 && s1[1] == s2[0] {
        1
    } else {
        2
    }
}

/// What `mul` needs of its operands on the path it takes.
pub open spec fn mul_ok<T: TensorElement>(m1: TensorModel<T>, m2: TensorModel<T>) -> bool {
    &&& mul_path(m1.shape, m2.shape) == 0 ==> forall|i: int| 0 <= i < m1.data.len() ==> (#[trigger] m1.data[i]).mul_req(m2.data[i])
    &&& mul_path(m1.shape, m2.shape) == 1 ==> mul_defined(m1, m2)
}

/// Product of two tensors: element-wise for one-axis tensors of equal
/// shape, a (batched) matrix product for tensors of equal rank whose last and
/// second-to-last axes match (and, from rank 3 on, whose first axes match).
#[allow(dead_code)]
fn mul<T: TensorElement>(t1: &Tensor<T>, t2: &Tensor<T>) -> (res: Result<Tensor<T>, &'static str>)
    requires
        t1.wf(),
        t2.wf(),
        mul_ok(t1@, t2@),
    ensures
        mul_path(t1@.shape, t2@.shape) == 0 ==> (res matches Ok(r) && {
            &&& r.wf()
            &&& r@.shape == t1@.shape
            &&& r@.stride == seq![1usize]
            &&& T::obeys_mul_spec() ==> r@.data == Seq::new(t1@.data.len(), |i: int| t1@.data[i].mul_spec(t2@.data[i]))
        }),
        mul_path(t1@.shape, t2@.shape) == 1 ==> (res matches Ok(r) && {
            &&& r.wf()
            &&& r@.shape == mul_shape(t1@.shape, t2@.shape)
            &&& r@.stride == row_major(mul_shape(t1@.shape, t2@.shape))
            &&& T::obeys_add_spec() && T::obeys_mul_spec() ==> exists|d: T| is_default::<T>(d) && r@.data == #[trigger] mul_result(t1@, t2@, d)
        }),
        mul_path(t1@.shape, t2@.shape) == 2 ==> res == Err::<Tensor<T>, &'static str>("\"[acute]\": incompatible elements for mul"),
{
    let len = t1.shape().len();
    if len == 1 && slices_equal(t1.shape(), t2.shape()) {
        return Ok(ele_w_d1_mul(t1, t2));
    }
    if t1.shape().len() == t2.shape().len() {
        if len >= 3 && t1.shape()[0] == t2.shape()[0] {
            if t1.shape()[len - 1] == t2.shape()[len - 2] {
                return Ok(strided_mul(t1, t2));
            }
        } else if len == 2 {
            if t1.shape()[1] == t2.shape()[0] {
                return Ok(strided_mul(t1, t2));
            }
        }
    }
    Err("\"[acute]\": incompatible elements for mul")
}

/// Element-wise product of two one-axis tensors of equal shape, reading the
/// buffers directly.
fn ele_w_d1_mul<T: TensorElement>(t1: &Tensor<T>, t2: &Tensor<T>) -> (r: Tensor<T>)
    requires
        t1.wf(),
        t2.wf(),
        t1@.shape.len() == 1,
        t1@.shape == t2@.shape,
        forall|i: int| 0 <= i < t1@.data.len() ==> (#[trigger] t1@.data[i]).mul_req(t2@.data[i]),
    ensures
        r.wf(),
        r@.shape == t1@.shape,
        r@.stride == seq![1usize],
        T::obeys_mul_spec() ==> r@.data == Seq::new(t1@.data.len(), |i: int| t1@.data[i].mul_spec(t2@.data[i])),
{
    let a = t1.as_slice();
    let b = t2.as_slice();
    let len = a.len();
    let init = T::default();
    let mut data: Vec<T> = Vec::with_capacity(len);
    let mut i: usize = 0;
    while i < len
        invariant
            i <= len,
            data@.len() == i,
        decreases len - i,
    {
        data.push(init);
        i = i + 1;
    }
    let mut i: usize = 0;
    while i < len
        invariant
            i <= len,
            len == a@.len(),
            a@ == t1@.data,
            b@ == t2@.data,
            b@.len() == len,
            forall|j: int| 0 <= j < len ==> (#[trigger] t1@.data[j]).mul_req(t2@.data[j]),
            data@.len() == len,
            T::obeys_mul_spec() ==> forall|j: int| 0 <= j < i ==> #[trigger] data@[j] == a@[j].mul_spec(b@[j]),
        decreases len - i,
    {
        let v = a[i] * b[i];
        data.set(i, v);
        i = i + 1;
    }
    let r = Tensor::from_parts(data, slice_to_vec(t1.shape()), vec![1]);
    proof {
        if T::obeys_mul_spec() {
            assert(r@.data =~= Seq::new(t1@.data.len(), |j: int| t1@.data[j].mul_spec(t2@.data[j])));
        }
        assert(r@.stride =~= seq![1usize]);
    }
    r
}

/// The dot product so far: the sum of the first `k` element products,
/// accumulated from `init`.
pub open spec fn dot_entry<T: TensorElement>(a: Seq<T>, b: Seq<T>, init: T, k: nat) -> T
    decreases k,
{
    if k == 0 {
        init
    } else {
        dot_entry(a, b, init, (k - 1) as nat).add_spec(a[k - 1].mul_spec(b[k - 1]))
    }
}

/// Each product of the dot product, and its sum with the running total
/// before it, can be formed, starting from `init`.
pub open spec fn dot_terms_ok<T: TensorElement>(a: Seq<T>, b: Seq<T>, init: T) -> bool {
    forall|k: int| 0 <= k < a.len() ==> {
        &&& (#[trigger] a[k]).mul_req(b[k])
        &&& dot_entry(a, b, init, k as nat).add_req(a[k].mul_spec(b[k]))
    }
}

/// The dot product can be accumulated: either `+` and `*` never fail, or
/// they have a specification and every term from the default start value
/// can be formed.
pub open spec fn dot_arith_ok<T: TensorElement>(a: Seq<T>, b: Seq<T>) -> bool {
    ||| total_arith::<T>()
    ||| {
        &&& T::obeys_add_spec()
        &&& T::obeys_mul_spec()
        &&& forall|d: T| #[trigger] is_default::<T>(d) ==> dot_terms_ok(a, b, d)
    }
}

/// Dot product of two one-axis tensors: the sum, from the default value, of
/// the products of their elements in order, as a tensor of shape `[1]`.
#[allow(dead_code)]
fn dot_d1_mul<T: TensorElement>(t1: &Tensor<T>, t2: &Tensor<T>) -> (r: Tensor<T>)
    requires
        t1.wf(),
        t2.wf(),
        t1@.shape.len() == 1,
        t2@.data.len() >= t1@.data.len(),
        dot_arith_ok(t1@.data, t2@.data),
    ensures
        r.wf(),
        r@.shape == seq![1usize],
        r@.stride == seq![1usize],
        r@.data.len() == 1,
        T::obeys_add_spec() && T::obeys_mul_spec() ==> exists|z: T| is_default::<T>(z) && r@.data == #[trigger] seq![dot_entry(t1@.data, t2@.data, z, t1@.data.len())],
{
    let a = t1.as_slice();
    let b = t2.as_slice();
    let z = T::zero();
    let mut val = z;
    let mut i: usize = 0;
    while i < a.len()
        invariant
            i <= a@.len(),
            a@ == t1@.data,
            b@ == t2@.data,
            b@.len() >= a@.len(),
            dot_arith_ok(a@, b@),
            is_default::<T>(z),
            T::obeys_add_spec() && T::obeys_mul_spec() ==> val == dot_entry(a@, b@, z, i as nat),
        decreases a@.len() - i,
    {
        proof {
            if !total_arith::<T>() {
                assert(dot_terms_ok(a@, b@, z));
                assert(a@[i as int].mul_req(b@[i as int]));
            }
        }
        val = val + a[i] * b[i];
        i = i + 1;
    }
    proof {
        crate::layout::lemma_prod_single(1);
    }
    let data = vec![val];
    let shape: Vec<usize> = vec![1];
    proof {
        assert(shape@ =~= seq![1usize]);
        assert(data@.len() == 1);
    }
    let r = Tensor::from_parts(data, shape, vec![1]);
    proof {
        assert(r@.stride =~= seq![1usize]);
        assert(r@.shape =~= seq![1usize]);
        assert(r@.data =~= seq![val]);
    }
    r
}

} // verus!
