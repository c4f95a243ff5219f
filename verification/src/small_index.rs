//! Multi-indices kept in a `SmallVec` with room for eight axes inline, so
//! that walking a tensor of ordinary rank allocates nothing.

use smallvec::SmallVec;
use vstd::prelude::*;
use crate::layout::{is_index, lemma_offset_prefix_le, lemma_offset_take, lemma_rank_max, lemma_step, offset, prod, rank, stepped};

verus! {

/// A multi-index held in a `SmallVec`; its items are known only through
/// `index_items`.
#[verifier::external_body]
pub struct IndexBuf {
    items: SmallVec<[usize; 8]>,
}

/// The items that an index buffer holds, in order.
pub uninterp spec fn index_items(v: IndexBuf) -> Seq<usize>;

/// Wraps `SmallVec::from_elem`: `n` copies of `elem`.
#[verifier::external_body]
pub(crate) fn index_filled(elem: usize, n: usize) -> (v: IndexBuf)
    requires
        n as int * 8 <= isize::MAX,
    ensures
        index_items(v) == Seq::new(n as nat, |_i: int| elem),
{
    IndexBuf { items: SmallVec::from_elem(elem, n) }
}

/// Wraps `SmallVec::len`: the number of items.
#[verifier::external_body]
pub(crate) fn index_len(v: &IndexBuf) -> (n: usize)
    ensures
        n == index_items(*v).len(),
{
    v.items.len()
}

/// Wraps indexing a `SmallVec`: the item at position `i`.
#[verifier::external_body]
pub(crate) fn index_get(v: &IndexBuf, i: usize) -> (x: usize)
    requires
        i < index_items(*v).len(),
    ensures
        x == index_items(*v)[i as int],
{
    v.items[i]
}

/// Wraps assigning through `IndexMut` on a `SmallVec`: replaces the item at
/// position `i` by `x` and leaves the others.
#[verifier::external_body]
pub(crate) fn index_set(v: &mut IndexBuf, i: usize, x: usize)
    requires
        i < index_items(*old(v)).len(),
    ensures
        index_items(*final(v)) == index_items(*old(v)).update(i as int, x),
{
    v.items[i] = x;
}

/// The items of a buffer as integers.
pub open spec fn as_ints(s: Seq<usize>) -> Seq<int> {
    Seq::new(s.len(), |i: int| s[i] as int)
}

/// Moves a multi-index within `shape` one step forward in row-major order,
/// as an odometer: the innermost axis counts up, and an axis that passes
/// its extent goes back to zero and carries into the next outer one.
pub(crate) fn advance(idx: &mut IndexBuf, shape: &[usize])
    requires
        is_index(as_ints(index_items(*old(idx))), shape@),
    ensures
        index_items(*final(idx)).len() == shape@.len(),
        rank(as_ints(index_items(*old(idx))), shape@) + 1 < prod(shape@) ==> {
            &&& is_index(as_ints(index_items(*final(idx))), shape@)
            &&& rank(as_ints(index_items(*final(idx))), shape@) == rank(as_ints(index_items(*old(idx))), shape@) + 1
        },
{
    let ghost start = as_ints(index_items(*idx));
    let n = index_len(idx);
    let mut d = n;
    while d > 0
        invariant
            d <= n,
            n == shape@.len(),
            start == as_ints(index_items(*old(idx))),
            is_index(start, shape@),
            index_items(*idx).len() == n,
            forall|k: int| 0 <= k < d ==> #[trigger] index_items(*idx)[k] == start[k],
            forall|k: int| d <= k < n ==> #[trigger] index_items(*idx)[k] == 0,
            forall|k: int| d <= k < n ==> #[trigger] start[k] == shape@[k] - 1,
        decreases d,
    {
        d = d - 1;
        let v = index_get(idx, d) + 1;
        index_set(idx, d, v);
        if v < shape[d] {
            proof {
                lemma_step(start, shape@, d as int);
                assert(as_ints(index_items(*idx)) =~= stepped(start, d as int));
            }
            return;
        }
        index_set(idx, d, 0);
    }
    proof {
        assert forall|k: int| 0 <= k < shape@.len() implies #[trigger] shape@[k] >= 1 by {
            assert(start[k] == shape@[k] - 1);
            assert(0 <= start[k]);
        }
        lemma_rank_max(start, shape@);
    }
}

/// The memory offset of a multi-index under `stride`: the sum of each index
/// times its stride.
pub(crate) fn strided_offset(idx: &IndexBuf, stride: &[usize], Ghost(bound): Ghost<int>) -> (r: usize)
    requires
        index_items(*idx).len() == stride@.len(),
        offset(as_ints(index_items(*idx)), stride@) < bound <= usize::MAX + 1,
    ensures
        r == offset(as_ints(index_items(*idx)), stride@),
{
    let ghost ix = as_ints(index_items(*idx));
    let n = index_len(idx);
    let mut acc: usize = 0;
    let mut k: usize = 0;
    while k < n
        invariant
            k <= n,
            n == stride@.len(),
            ix == as_ints(index_items(*idx)),
            ix.len() == n,
            offset(ix, stride@) < bound <= usize::MAX + 1,
            acc == offset(ix.take(k as int), stride@.take(k as int)),
        decreases n - k,
    {
        proof {
            lemma_offset_take(ix, stride@, k as int);
            lemma_offset_prefix_le(ix, stride@, k as int + 1);
            vstd::arithmetic::mul::lemma_mul_nonnegative(ix[k as int], stride@[k as int] as int);
        }
        let i = index_get(idx, k);
        let term = i * stride[k];
        acc = acc + term;
        k = k + 1;
    }
    proof {
        assert(ix.take(n as int) =~= ix);
        assert(stride@.take(n as int) =~= stride@);
    }
    acc
}

/// The memory offset of the first `count` axes of a multi-index under the
/// first `count` strides.
pub(crate) fn partial_offset(idx: &IndexBuf, stride: &[usize], count: usize, Ghost(bound): Ghost<int>) -> (r: usize)
    requires
        count <= index_items(*idx).len(),
        count <= stride@.len(),
        forall|j: int| 0 <= j < count ==> 0 <= #[trigger] as_ints(index_items(*idx))[j],
        offset(as_ints(index_items(*idx)).take(count as int), stride@.take(count as int)) < bound <= usize::MAX + 1,
    ensures
        r == offset(as_ints(index_items(*idx)).take(count as int), stride@.take(count as int)),
{
    let ghost ix = as_ints(index_items(*idx)).take(count as int);
    let ghost st = stride@.take(count as int);
    let mut acc: usize = 0;
    let mut k: usize = 0;
    while k < count
        invariant
            k <= count,
            count <= index_items(*idx).len(),
            count <= stride@.len(),
            ix == as_ints(index_items(*idx)).take(count as int),
            st == stride@.take(count as int),
            forall|j: int| 0 <= j < count ==> 0 <= #[trigger] ix[j],
            offset(ix, st) < bound <= usize::MAX + 1,
            acc == offset(ix.take(k as int), st.take(k as int)),
        decreases count - k,
    {
        proof {
            lemma_offset_take(ix, st, k as int);
            lemma_offset_prefix_le(ix, st, k as int + 1);
            vstd::arithmetic::mul::lemma_mul_nonnegative(ix[k as int], st[k as int] as int);
        }
        let i = index_get(idx, k);
        let term = i * stride[k];
        acc = acc + term;
        k = k + 1;
    }
    proof {
        assert(ix.take(count as int) =~= ix);
        assert(st.take(count as int) =~= st);
    }
    acc
}

} // verus!
